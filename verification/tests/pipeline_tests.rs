use file_dedup::common::HashAlgorithm;
use file_dedup::detect_dups::{group_records, render_groups};
use file_dedup::filter_paths::{filter_records, total_size, FilterPathsConfig};
use file_dedup::internals::{
    compute_digest, effective_read_size, hash_full_content, record_from_fields, with_hash,
    PipelineError, Record, LARGE_FILE_THRESHOLD,
};
use file_dedup::unique_paths::{build_discard_list, join_records, paths_only};

fn rec(path: &str, size: u64, hash: &str) -> Record {
    Record { path: path.to_string(), size, hash: hash.to_string() }
}

#[test]
fn grouper_scenario_one_group() {
    // input [("a",10,"h1"), ("b",10,"h1"), ("c",20,"h2")] gives exactly
    // one group ["a","b"]
    let records = vec![rec("a", 10, "h1"), rec("b", 10, "h1"), rec("c", 20, "h2")];
    let groups = group_records(&records).unwrap();
    assert_eq!(groups, vec![vec!["a".to_string(), "b".to_string()]]);
}

#[test]
fn join_keeps_representative_and_ungrouped() {
    let records = vec![rec("a", 10, "h1"), rec("b", 10, "h1"), rec("c", 20, "h2")];
    let groups = group_records(&records).unwrap();
    let joined = join_records(&records, &groups);
    assert_eq!(joined, vec![rec("a", 10, "h1"), rec("c", 20, "h2")]);
}

#[test]
fn join_with_no_groups_is_identity() {
    let records = vec![rec("a", 10, "h1"), rec("b", 10, "h1")];
    let joined = join_records(&records, &Vec::<Vec<String>>::new());
    assert_eq!(joined, records);
}

#[test]
fn grouper_orders_canonically() {
    let records = vec![
        rec("z", 1, "k2"),
        rec("m", 2, "k1"),
        rec("y", 1, "k2"),
        rec("b", 2, "k1"),
        rec("x", 1, "k2"),
    ];
    let groups = group_records(&records).unwrap();
    // paths within a group sorted, groups ordered by first member
    assert_eq!(
        groups,
        vec![
            vec!["b".to_string(), "m".to_string()],
            vec!["x".to_string(), "y".to_string(), "z".to_string()],
        ]
    );
}

#[test]
fn grouper_detects_collision() {
    // equal hash at different sizes aborts with both paths, no groups
    let records = vec![rec("a", 10, "h1"), rec("b", 11, "h1")];
    match group_records(&records) {
        Err(PipelineError::Integrity { path, other_path }) => {
            assert_eq!(path, "b");
            assert_eq!(other_path, "a");
        },
        other => panic!("expected an integrity error, got {:?}", other),
    }
}

#[test]
fn grouper_runs_are_byte_identical() {
    let records = vec![rec("p", 5, "h"), rec("q", 5, "h"), rec("r", 7, "g")];
    let text1 = render_groups(&group_records(&records).unwrap());
    let text2 = render_groups(&group_records(&records).unwrap());
    assert_eq!(text1, text2);
}

#[test]
fn render_groups_export_format() {
    let records = vec![rec("a", 10, "h1"), rec("b", 10, "h1"), rec("c", 20, "h2")];
    let groups = group_records(&records).unwrap();
    assert_eq!(render_groups(&groups), "[\n\t[\"a\", \"b\"]\n]\n");
    assert_eq!(render_groups(&Vec::<Vec<String>>::new()), "[\n\n]\n");
}

#[test]
fn discard_list_skips_first_member() {
    let groups = vec![
        vec!["a".to_string(), "b".to_string(), "c".to_string()],
        vec!["x".to_string(), "y".to_string()],
    ];
    let discard = build_discard_list(&groups);
    assert_eq!(discard, vec!["b".to_string(), "c".to_string(), "y".to_string()]);
}

#[test]
fn paths_only_projects_records() {
    let records = vec![rec("a", 1, "h"), rec("b", 2, "g")];
    assert_eq!(paths_only(&records), vec!["a".to_string(), "b".to_string()]);
}

#[test]
fn filter_records_keeps_shared_sizes_only() {
    let mut config = FilterPathsConfig::default();
    config.unique_sizes = true;
    let records = vec![rec("a", 10, "h1"), rec("b", 10, "h2"), rec("c", 20, "h3")];
    let out = filter_records(&config, &records);
    assert_eq!(out, vec![rec("a", 10, "h1"), rec("b", 10, "h2")]);
}

#[test]
fn filter_records_keeps_shared_hashes_only() {
    let mut config = FilterPathsConfig::default();
    config.unique_hashes = true;
    let records = vec![rec("a", 1, "h1"), rec("b", 2, "h1"), rec("c", 3, "h3")];
    let out = filter_records(&config, &records);
    assert_eq!(out, vec![rec("a", 1, "h1"), rec("b", 2, "h1")]);
}

#[test]
fn filter_records_without_toggles_keeps_admitted() {
    let mut config = FilterPathsConfig::default();
    config.size_min = 2;
    let records = vec![rec("a", 1, "h1"), rec("b", 2, "h2"), rec("c", 3, "h3")];
    let out = filter_records(&config, &records);
    assert_eq!(out, vec![rec("b", 2, "h2"), rec("c", 3, "h3")]);
}

#[test]
fn effective_read_size_follows_budget_rules() {
    assert_eq!(effective_read_size(100, 0), 100);
    assert_eq!(effective_read_size(LARGE_FILE_THRESHOLD, 0), LARGE_FILE_THRESHOLD);
    assert_eq!(effective_read_size(LARGE_FILE_THRESHOLD + 1, 0), 0);
    assert_eq!(effective_read_size(100, 40), 40);
    assert_eq!(effective_read_size(30, 40), 30);
    assert_eq!(effective_read_size(0, 0), 0);
}

#[test]
fn digests_match_known_vectors() {
    let empty: Vec<u8> = Vec::new();
    assert_eq!(
        compute_digest(HashAlgorithm::Md5, &empty),
        "d41d8cd98f00b204e9800998ecf8427e"
    );
    assert_eq!(
        compute_digest(HashAlgorithm::Sha1, &empty),
        "da39a3ee5e6b4b0d3255bfef95601890afd80709"
    );
    assert_eq!(
        compute_digest(HashAlgorithm::Sha256, &empty),
        "e3b0c44298fc1c149afbf4c8996fb92427ae41e4649b934ca495991b7852b855"
    );
    let abc = b"abc".to_vec();
    assert_eq!(
        compute_digest(HashAlgorithm::Md5, &abc),
        "900150983cd24fb0d6963f7d28e17f72"
    );
    assert_eq!(
        compute_digest(HashAlgorithm::Sha1, &abc),
        "a9993e364706816aba3e25717850c26c9cd0d89d"
    );
    assert_eq!(
        compute_digest(HashAlgorithm::Sha256, &abc),
        "ba7816bf8f01cfea414140de5dae2223b00361a396177a9cb410ff61f20015ad"
    );
    assert_eq!(compute_digest(HashAlgorithm::Sha512, &abc).len(), 128);
}

#[test]
fn truncated_digests_agree_on_equal_prefixes() {
    // files that agree in their first bytes share the truncated digest,
    // whatever follows
    let one = b"prefix-SAME-tail-one".to_vec();
    let two = b"prefix-SAME-other-trailing-data".to_vec();
    let budget = 11;
    let d1 = compute_digest(HashAlgorithm::Sha256, &one[..budget]);
    let d2 = compute_digest(HashAlgorithm::Sha256, &two[..budget]);
    assert_eq!(d1, d2);
    let full1 = compute_digest(HashAlgorithm::Sha256, &one);
    let full2 = compute_digest(HashAlgorithm::Sha256, &two);
    assert_ne!(full1, full2);
}

#[test]
fn hash_full_content_checks_length() {
    let data = b"hello".to_vec();
    assert_eq!(
        hash_full_content(&data, 5, HashAlgorithm::Md5).unwrap(),
        "5d41402abc4b2a76b9719d911017c592"
    );
    match hash_full_content(&data, 6, HashAlgorithm::Md5) {
        Err(PipelineError::SizeMismatch { declared, actual }) => {
            assert_eq!(declared, 6);
            assert_eq!(actual, 5);
        },
        other => panic!("expected a size mismatch, got {:?}", other),
    }
}

#[test]
fn record_from_fields_parses_decimal_sizes() {
    let r = record_from_fields("p".to_string(), "12345", "h".to_string()).unwrap();
    assert_eq!(r, rec("p", 12345, "h"));
    assert_eq!(
        record_from_fields("p".to_string(), "18446744073709551615", "h".to_string())
            .unwrap()
            .size,
        u64::MAX
    );
    for bad in ["", "12x", "-3", "18446744073709551616", " 1"] {
        match record_from_fields("p".to_string(), bad, "h".to_string()) {
            Err(PipelineError::MalformedInput { field }) => assert_eq!(field, bad),
            other => panic!("expected malformed input for {:?}, got {:?}", bad, other),
        }
    }
}

#[test]
fn with_hash_fills_hash_field_only() {
    let r = rec("p", 7, "NULL");
    assert_eq!(with_hash(&r, "abcd".to_string()), rec("p", 7, "abcd"));
}

#[test]
fn total_size_sums_and_saturates() {
    let records = vec![rec("a", 10, "h"), rec("b", 32, "h")];
    assert_eq!(total_size(&records), 42);
    let big = vec![rec("a", u64::MAX, "h"), rec("b", 2, "h")];
    assert_eq!(total_size(&big), u64::MAX);
}
