use atc_router::prefilter::InnerPrefilter;

#[test]
fn inner_prefilter_test_empty_patterns() {
    let prefilter = InnerPrefilter::new();
    assert_eq!(prefilter.check(b""), Vec::<usize>::new());
}

#[test]
fn inner_prefilter_test_simple_match() {
    let patterns = vec![b"/api/users".to_vec(), b"/api/posts".to_vec()];
    let mut prefilter = InnerPrefilter::new();
    for (i, pattern) in patterns.into_iter().enumerate() {
        prefilter.insert(i, vec![pattern]);
    }

    let result = prefilter.check(b"/api/users/123");
    assert!(result.contains(&0));
    assert!(!result.contains(&1));
}

#[test]
fn inner_prefilter_test_overlapping_matches() {
    let patterns = vec![b"/api".to_vec(), b"/api/v1".to_vec()];
    let indexes = vec![0, 1];
    let mut prefilter = InnerPrefilter::new();
    for (index, pattern) in indexes.into_iter().zip(patterns.into_iter()) {
        prefilter.insert(index, vec![pattern]);
    }

    let result = prefilter.check(b"/api/v1/users");
    assert!(result.contains(&0));
    assert!(result.contains(&1));
}

#[test]
fn inner_prefilter_test_multiple_same_prefix() {
    let patterns = vec![b"/api".to_vec(), b"/api".to_vec(), b"/users".to_vec()];
    let indexes = vec![0, 1, 2];
    let mut prefilter = InnerPrefilter::new();
    for (index, pattern) in indexes.into_iter().zip(patterns.into_iter()) {
        prefilter.insert(index, vec![pattern]);
    }

    let result = prefilter.check(b"/api/v1");
    assert!(result.contains(&0));
    assert!(result.contains(&1));
    assert!(!result.contains(&2));
}

#[test]
fn inner_prefilter_test_nested_prefixes() {
    let patterns = vec![
        b"/".to_vec(),
        b"/a".to_vec(),
        b"/ab".to_vec(),
        b"/abc".to_vec(),
    ];
    let indexes = vec![0, 1, 2, 3];
    let mut prefilter = InnerPrefilter::new();
    for (index, pattern) in indexes.into_iter().zip(patterns.into_iter()) {
        prefilter.insert(index, vec![pattern]);
    }

    let result = prefilter.check(b"/abc/def");
    assert!(result.contains(&0));
    assert!(result.contains(&1));
    assert!(result.contains(&2));
    assert!(result.contains(&3));

    let result = prefilter.check(b"/ab");
    assert!(result.contains(&0));
    assert!(result.contains(&1));
    assert!(result.contains(&2));
    assert!(!result.contains(&3));
}

#[test]
fn inner_prefilter_test_sparse_prefixes_efficiency() {
    let mut patterns = vec![];
    let mut indexes = vec![];

    for i in 0..100 {
        patterns.push(format!("/decoy{:03}", i).into_bytes());
        indexes.push(i);
    }

    patterns.push(b"/".to_vec());
    patterns.push(b"/target".to_vec());
    indexes.push(1000);
    indexes.push(1001);

    let mut prefilter = InnerPrefilter::new();
    for (index, pattern) in indexes.into_iter().zip(patterns.into_iter()) {
        prefilter.insert(index, vec![pattern]);
    }
    let result = prefilter.check(b"/target/resource");

    assert!(result.contains(&1000));
    assert!(result.contains(&1001));
    assert_eq!(result.len(), 2);
}

#[test]
fn inner_prefilter_test_common_prefix_skipping() {
    let patterns = vec![
        b"/".to_vec(),
        b"/api".to_vec(),
        b"/api/v999".to_vec(),
        b"/other".to_vec(),
    ];
    let indexes = vec![0, 1, 2, 3];
    let mut prefilter = InnerPrefilter::new();
    for (index, pattern) in indexes.into_iter().zip(patterns.into_iter()) {
        prefilter.insert(index, vec![pattern]);
    }

    let result = prefilter.check(b"/api/users/123");
    assert!(result.contains(&0));
    assert!(result.contains(&1));
    assert!(!result.contains(&2));
    assert!(!result.contains(&3));
    assert_eq!(result.len(), 2);
}

#[test]
fn inner_prefilter_test_remove() {
    let mut prefilter = InnerPrefilter::new();
    prefilter.insert(0, vec![b"/api".to_vec()]);
    prefilter.insert(1, vec![b"/api/v1".to_vec()]);
    prefilter.insert(2, vec![b"/users".to_vec()]);

    assert!(!prefilter.is_empty());
    assert_eq!(prefilter.num_routes(), 3);

    prefilter.remove(&1);
    assert_eq!(prefilter.num_routes(), 2);

    let result = prefilter.check(b"/api/v1/users");
    assert!(result.contains(&0));
    assert!(!result.contains(&1));

    prefilter.remove(&0);
    prefilter.remove(&2);
    assert!(prefilter.is_empty());
}

#[test]
fn test_remove_compaction() {
    let mut prefilter = InnerPrefilter::new();
    prefilter.insert(0, vec![b"abc".to_vec()]);
    prefilter.insert(1, vec![b"abx".to_vec()]);
    prefilter.insert(2, vec![b"a".to_vec()]);

    assert!(prefilter.check(b"abc_more").contains(&0));
    assert!(prefilter.check(b"abx_more").contains(&1));

    prefilter.remove(&1);
    assert!(prefilter.check(b"abc_more").contains(&0));
    assert!(prefilter.check(b"a_more").contains(&2));
    assert!(!prefilter.check(b"abx_more").contains(&1));

    prefilter.remove(&2);
    prefilter.remove(&0);
    assert!(prefilter.is_empty());
}

#[test]
fn test_edge_split_insert() {
    let mut prefilter = InnerPrefilter::new();
    prefilter.insert(0, vec![b"abcdef".to_vec()]);
    prefilter.insert(1, vec![b"abcxyz".to_vec()]);

    assert!(prefilter.check(b"abcdef_more").contains(&0));
    assert!(prefilter.check(b"abcxyz_more").contains(&1));
    assert!(!prefilter.check(b"abc").contains(&0));
    assert!(!prefilter.check(b"abc").contains(&1));

    prefilter.insert(2, vec![b"abc".to_vec()]);
    let result = prefilter.check(b"abcdef_more");
    assert!(result.contains(&0));
    assert!(result.contains(&2));
    assert!(!result.contains(&1));

    prefilter.insert(3, vec![b"ab".to_vec()]);
    let result = prefilter.check(b"abcxyz_more");
    assert!(result.contains(&1));
    assert!(result.contains(&2));
    assert!(result.contains(&3));
    assert!(!result.contains(&0));
}

#[test]
fn inner_prefilter_test_is_empty_and_num_routes() {
    let mut prefilter = InnerPrefilter::new();
    assert!(prefilter.is_empty());
    assert_eq!(prefilter.num_routes(), 0);

    prefilter.insert(0, vec![b"/api".to_vec()]);
    assert!(!prefilter.is_empty());
    assert_eq!(prefilter.num_routes(), 1);

    prefilter.insert(1, vec![b"/users".to_vec()]);
    assert_eq!(prefilter.num_routes(), 2);

    prefilter.remove(&0);
    assert_eq!(prefilter.num_routes(), 1);

    prefilter.remove(&1);
    assert!(prefilter.is_empty());
    assert_eq!(prefilter.num_routes(), 0);
}

#[test]
fn reinserting_a_key_replaces_its_prefixes() {
    let mut prefilter = InnerPrefilter::new();
    prefilter.insert(7, vec![b"/a".to_vec(), b"/b".to_vec()]);
    prefilter.insert(3, vec![b"/".to_vec()]);
    assert_eq!(prefilter.check(b"/b/x"), vec![3, 7]);
    prefilter.insert(7, vec![b"/c".to_vec()]);
    assert_eq!(prefilter.check(b"/b/x"), vec![3]);
    assert_eq!(prefilter.check(b"/c"), vec![3, 7]);
    assert_eq!(prefilter.num_routes(), 2);
    prefilter.clear();
    assert!(prefilter.is_empty());
    assert_eq!(prefilter.check(b"/c"), Vec::<usize>::new());
}
