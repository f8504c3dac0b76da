use peer_stats::dedup_path;

#[test]
fn test_dedup() {
    let empty: Vec<u32> = vec![];
    assert_eq!(dedup_path(empty.clone()), empty);
    assert_eq!(dedup_path(vec![1]), vec![1]);
    assert_eq!(dedup_path(vec![0, 1, 2, 3, 3, 3, 3]), vec![0, 1, 2, 3]);
    assert_eq!(
        dedup_path(vec![0, 1, 2, 3, 3, 3, 3, 4]),
        vec![0, 1, 2, 3, 4]
    );
    assert_eq!(
        dedup_path(vec![0, 1, 2, 3, 3, 3, 3, 4, 4, 4, 4]),
        vec![0, 1, 2, 3, 4]
    );
}

#[test]
fn test_dedup_is_idempotent() {
    let once = dedup_path(vec![5, 5, 6, 7, 7, 6, 6, 6]);
    let twice = dedup_path(once.clone());
    assert_eq!(once, twice);
    assert_eq!(once, vec![5, 6, 7, 6]);
}

#[test]
fn test_dedup_keeps_nonadjacent_repeats() {
    assert_eq!(dedup_path(vec![1, 2, 1, 2]), vec![1, 2, 1, 2]);
}
