use atc_router::inner_prefilter_btree::AhoCorasickPrefilter;

#[test]
fn inner_prefilter_btree_test_empty_patterns() {
    let patterns: Vec<Vec<u8>> = vec![];
    let indexes: Vec<u32> = vec![];
    let prefilter = AhoCorasickPrefilter::new(&patterns, indexes);
    assert!(prefilter.is_none());
}

#[test]
fn inner_prefilter_btree_test_simple_match() {
    let patterns = vec![b"/api/users".to_vec(), b"/api/posts".to_vec()];
    let indexes = vec![0, 1];
    let prefilter = AhoCorasickPrefilter::new(&patterns, indexes).unwrap();

    let result = prefilter.check(b"/api/users/123");
    assert!(result.contains(&0));
    assert!(!result.contains(&1));
}

#[test]
fn inner_prefilter_btree_test_overlapping_matches() {
    let patterns = vec![b"/api".to_vec(), b"/api/v1".to_vec()];
    let indexes = vec![0, 1];
    let prefilter = AhoCorasickPrefilter::new(&patterns, indexes).unwrap();

    let result = prefilter.check(b"/api/v1/users");
    assert!(result.contains(&0));
    assert!(result.contains(&1));
}

#[test]
fn inner_prefilter_btree_test_multiple_same_prefix() {
    let patterns = vec![b"/api".to_vec(), b"/api".to_vec(), b"/users".to_vec()];
    let indexes = vec![0, 1, 2];
    let prefilter = AhoCorasickPrefilter::new(&patterns, indexes).unwrap();

    let result = prefilter.check(b"/api/v1");
    assert!(result.contains(&0));
    assert!(result.contains(&1));
    assert!(!result.contains(&2));
}

#[test]
fn inner_prefilter_btree_test_nested_prefixes() {
    let patterns = vec![
        b"/".to_vec(),
        b"/a".to_vec(),
        b"/ab".to_vec(),
        b"/abc".to_vec(),
    ];
    let indexes = vec![0, 1, 2, 3];
    let prefilter = AhoCorasickPrefilter::new(&patterns, indexes).unwrap();

    let result = prefilter.check(b"/abc/def");
    assert!(result.contains(&0));
    assert!(result.contains(&1));
    assert!(result.contains(&2));
    assert!(result.contains(&3));

    let result = prefilter.check(b"/ab");
    assert!(result.contains(&0));
    assert!(result.contains(&1));
    assert!(result.contains(&2));
    assert!(!result.contains(&3));
}

#[test]
fn inner_prefilter_btree_test_sparse_prefixes_efficiency() {
    let mut patterns = vec![];
    let mut indexes = vec![];

    for i in 0..100 {
        patterns.push(format!("/decoy{:03}", i).into_bytes());
        indexes.push(i);
    }

    patterns.push(b"/".to_vec());
    patterns.push(b"/target".to_vec());
    indexes.push(1000);
    indexes.push(1001);

    let prefilter = AhoCorasickPrefilter::new(&patterns, indexes).unwrap();
    let result = prefilter.check(b"/target/resource");

    assert!(result.contains(&1000));
    assert!(result.contains(&1001));
    assert_eq!(result.len(), 2);
}

#[test]
fn inner_prefilter_btree_test_common_prefix_skipping() {
    let patterns = vec![
        b"/".to_vec(),
        b"/api".to_vec(),
        b"/api/v999".to_vec(),
        b"/other".to_vec(),
    ];
    let indexes = vec![0, 1, 2, 3];
    let prefilter = AhoCorasickPrefilter::new(&patterns, indexes).unwrap();

    let result = prefilter.check(b"/api/users/123");
    assert!(result.contains(&0));
    assert!(result.contains(&1));
    assert!(!result.contains(&2));
    assert!(!result.contains(&3));
    assert_eq!(result.len(), 2);
}

#[test]
fn empty_patterns_and_values_match_nothing() {
    let patterns = vec![b"".to_vec(), b"/a".to_vec()];
    let prefilter = AhoCorasickPrefilter::new(&patterns, vec![5, 6]).unwrap();
    assert_eq!(prefilter.first_index(), 5);
    assert_eq!(prefilter.check(b"/a/b"), vec![6]);
    assert_eq!(prefilter.check(b""), Vec::<u32>::new());
    assert_eq!(prefilter.check(b"/b"), Vec::<u32>::new());
}
