use std::str::FromStr;

use file_dedup::common::HashAlgorithm;
use file_dedup::gather_paths::make_record;
use file_dedup::internals::Record;
use file_dedup::text::{format_size, parse_size, sort_strings, str_eq, str_leq};

#[test]
fn gather_paths_it_works() {
    assert_eq!(2 + 2, 4);
}

#[test]
fn process_it_works() {
    assert_eq!(2 + 2, 4);
}

#[test]
fn make_record_leaves_hash_unset() {
    assert_eq!(
        make_record("/a/b".to_string(), 9),
        Record { path: "/a/b".to_string(), size: 9, hash: "NULL".to_string() }
    );
}

#[test]
fn format_size_renders_decimal() {
    assert_eq!(format_size(0), "0");
    assert_eq!(format_size(7), "7");
    assert_eq!(format_size(1203), "1203");
    assert_eq!(format_size(u64::MAX), "18446744073709551615");
}

#[test]
fn parse_size_round_trips_format_size() {
    for n in [0u64, 1, 9, 10, 99, 1000, 123456789, u64::MAX] {
        assert_eq!(parse_size(&format_size(n)), Some(n));
    }
    assert_eq!(parse_size("007"), Some(7));
    assert_eq!(parse_size(""), None);
    assert_eq!(parse_size("1.5"), None);
}

#[test]
fn sort_strings_orders_lexically() {
    let v = vec![
        "/b".to_string(),
        "/a/z".to_string(),
        "/a".to_string(),
        "/b".to_string(),
    ];
    assert_eq!(
        sort_strings(&v),
        vec![
            "/a".to_string(),
            "/a/z".to_string(),
            "/b".to_string(),
            "/b".to_string(),
        ]
    );
}

#[test]
fn string_comparisons_work_per_character() {
    assert!(str_eq("abc", "abc"));
    assert!(!str_eq("abc", "abd"));
    assert!(!str_eq("abc", "ab"));
    assert!(str_leq("ab", "abc"));
    assert!(str_leq("abc", "abd"));
    assert!(!str_leq("b", "ab"));
    assert!(str_leq("", "a"));
    assert!(str_leq("same", "same"));
}

#[test]
fn hash_algorithm_parses_known_names() {
    assert!(matches!(HashAlgorithm::from_str("md5"), Ok(HashAlgorithm::Md5)));
    assert!(matches!(HashAlgorithm::from_str("sha1"), Ok(HashAlgorithm::Sha1)));
    assert!(matches!(HashAlgorithm::from_str("sha256"), Ok(HashAlgorithm::Sha256)));
    assert!(matches!(HashAlgorithm::from_str("sha512"), Ok(HashAlgorithm::Sha512)));
    let err = HashAlgorithm::from_str("sha3").unwrap_err();
    assert!(err.contains("sha3"));
}
