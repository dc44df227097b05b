use file_dedup::filter_paths::{is_filtered, FilterPath, FilterPathsConfig};

#[test]
fn test_default_is_not_filtered() {
    let config = FilterPathsConfig::default();
    let actual = is_filtered(
        &config,
        "/mnt/c/Users/Jose/Documents/Old_CDs 1/DVD 2/mIRC/DCC/01 - Oihu.mp3",
        1,
    );
    assert_eq!(actual, false);
}

#[test]
fn test_whitelist_end_ok_is_not_filtered() {
    let mut config = FilterPathsConfig::default();
    config.whitelist_path_ends.push(FilterPath::new(".mp3"));
    let actual = is_filtered(
        &config,
        "/mnt/c/Users/Jose/Documents/Old_CDs 1/DVD 2/mIRC/DCC/01 - Oihu.mp3",
        1,
    );
    assert_eq!(actual, false);
}

#[test]
fn test_whitelist_end_not_ok_is_filtered() {
    let mut config = FilterPathsConfig::default();
    config.whitelist_path_ends.push(FilterPath::new(".png"));
    let actual = is_filtered(
        &config,
        "/mnt/c/Users/Jose/Documents/Old_CDs 1/DVD 2/mIRC/DCC/01 - Oihu.mp3",
        1,
    );
    assert_eq!(actual, true);
}

#[test]
fn test_whitelist_end_not_case_sensitive_ok_is_filtered() {
    let mut config = FilterPathsConfig::default();
    config.whitelist_path_ends.push(FilterPath::new(".MP3"));
    let actual = is_filtered(
        &config,
        "/mnt/c/Users/Jose/Documents/Old_CDs 1/DVD 2/mIRC/DCC/01 - Oihu.mp3",
        1,
    );
    assert_eq!(actual, true);
}

#[test]
fn test_whitelist_end_case_insensitive_ok_is_not_filtered() {
    let mut config = FilterPathsConfig::default();
    config
        .whitelist_path_ends
        .push(FilterPath::new(":case-insensitive:!.MP3"));
    let actual = is_filtered(
        &config,
        "/mnt/c/Users/Jose/Documents/Old_CDs 1/DVD 2/mIRC/DCC/01 - Oihu.mp3",
        1,
    );
    assert_eq!(actual, false);
}

#[test]
fn whitelist_case_insensitive_admits_upper_case_path_only() {
    // suffix pattern ".mp3" marked case-insensitive: "x.MP3" is admitted,
    // "y.txt" is not
    let mut config = FilterPathsConfig::default();
    config
        .whitelist_path_ends
        .push(FilterPath::new(":case-insensitive:!.mp3"));
    assert_eq!(is_filtered(&config, "x.MP3", 1), false);
    assert_eq!(is_filtered(&config, "y.txt", 1), true);
}

#[test]
fn blacklist_start_filters_matching_path() {
    let mut config = FilterPathsConfig::default();
    config.blacklist_path_starts.push(FilterPath::new("/tmp/"));
    assert_eq!(is_filtered(&config, "/tmp/x", 1), true);
    assert_eq!(is_filtered(&config, "/home/x", 1), false);
}

#[test]
fn blacklist_contents_filters_matching_path() {
    let mut config = FilterPathsConfig::default();
    config.blacklist_path_contents.push(FilterPath::new("cache"));
    assert_eq!(is_filtered(&config, "/a/cache/b", 1), true);
    assert_eq!(is_filtered(&config, "/a/data/b", 1), false);
}

#[test]
fn size_window_is_inclusive() {
    let mut config = FilterPathsConfig::default();
    config.size_min = 10;
    config.size_max = 20;
    assert_eq!(is_filtered(&config, "x", 9), true);
    assert_eq!(is_filtered(&config, "x", 10), false);
    assert_eq!(is_filtered(&config, "x", 20), false);
    assert_eq!(is_filtered(&config, "x", 21), true);
}

#[test]
fn filter_path_matchers_follow_case_flag() {
    let exact = FilterPath::new(".mp3");
    assert!(exact.ends_with("a.mp3"));
    assert!(!exact.ends_with("a.MP3"));
    let folded = FilterPath::new(":case-insensitive:!.MP3");
    assert!(folded.ends_with("a.mp3"));
    assert!(folded.ends_with("a.MP3"));
    let start = FilterPath::new(":case-insensitive:!/MNT");
    assert!(start.starts_with("/mnt/x"));
    let inner = FilterPath::new(":case-insensitive:!IRC");
    assert!(inner.contains("/mIRC/x"));
}
