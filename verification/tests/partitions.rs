use hybrid_mount::partitions::{
    detect_promoted_partitions, managed_partition_names, partition_candidates, requires_symlink,
};

#[test]
fn only_keep_existing_root_partitions() {
    let candidates = partition_candidates();
    let exists: Vec<bool> = candidates
        .iter()
        .map(|name| name == "system" || name == "vendor" || name == "odm")
        .collect();
    assert_eq!(
        managed_partition_names(&candidates, &exists),
        vec!["odm".to_owned(), "system".to_owned(), "vendor".to_owned()]
    );
}

#[test]
fn candidates_start_with_system() {
    let candidates = partition_candidates();
    assert_eq!(candidates[0], "system");
    assert!(candidates.contains(&"system_ext".to_owned()));
}

#[test]
fn managed_names_are_sorted_without_repeats() {
    let candidates = vec!["vendor".to_owned(), "system".to_owned(), "vendor".to_owned()];
    assert_eq!(
        managed_partition_names(&candidates, &[true, true, true]),
        vec!["system".to_owned(), "vendor".to_owned()]
    );
}

#[test]
fn promotion_requires_a_symlink_except_for_odm() {
    assert!(requires_symlink("vendor"));
    assert!(requires_symlink("product"));
    assert!(requires_symlink("system_ext"));
    assert!(!requires_symlink("odm"));
    assert!(requires_symlink("oem"));

    let managed = vec![
        "vendor".to_owned(),
        "product".to_owned(),
        "odm".to_owned(),
        "system_ext".to_owned(),
    ];
    let links = [true, false, false, true];
    assert_eq!(
        detect_promoted_partitions(&managed, &links),
        vec!["odm".to_owned(), "system_ext".to_owned(), "vendor".to_owned()]
    );
}
