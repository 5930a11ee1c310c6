use hybrid_mount::sys::mountinfo::{mount_entry_at, MountEntry, MountSnapshot, PropagationField};

fn strings(items: &[&str]) -> Vec<String> {
    items.iter().map(|item| item.to_string()).collect()
}

#[test]
fn from_paths_sorts_and_deduplicates() {
    let snapshot = MountSnapshot::from_paths(strings(&["/system/etc", "/system", "/system"]));
    assert_eq!(snapshot.points(), &strings(&["/system", "/system/etc"])[..]);
}

#[test]
fn contains_matches_exact_mount_points_only() {
    let snapshot = MountSnapshot::from_paths(strings(&["/system", "/system/etc"]));
    assert!(snapshot.contains("/system"));
    assert!(snapshot.contains("/system/etc"));
    assert!(!snapshot.contains("/system/etc/hosts"));
    assert!(!snapshot.contains("/product"));
}

#[test]
fn descendants_are_deepest_first() {
    let snapshot = MountSnapshot::from_paths(strings(&[
        "/system",
        "/system/etc/hosts",
        "/system/etc",
        "/system/bin",
        "/product",
    ]));
    assert_eq!(
        snapshot.descendants("/system"),
        strings(&["/system/etc/hosts", "/system/etc", "/system/bin"])
    );
}

#[test]
fn subtree_ids_preserve_stacked_mount_ids() {
    let snapshot = MountSnapshot::from_records(vec![
        ("/system".to_string(), 10),
        ("/system".to_string(), 20),
        ("/system/etc".to_string(), 30),
        ("/product".to_string(), 40),
    ]);
    assert_eq!(
        snapshot.subtree_ids("/system"),
        vec![
            ("/system".to_string(), vec![10, 20]),
            ("/system/etc".to_string(), vec![30]),
        ]
    );
}

#[test]
fn paths_compare_by_component() {
    let snapshot = MountSnapshot::from_records(vec![
        ("/system-x".to_string(), 1),
        ("/system/etc".to_string(), 2),
        ("/system/".to_string(), 3),
        ("/system".to_string(), 4),
    ]);
    assert_eq!(snapshot.points(), &strings(&["/system/", "/system/etc", "/system-x"])[..]);
    assert!(snapshot.contains("/system"));
    assert_eq!(
        snapshot.subtree_ids("/system"),
        vec![
            ("/system/".to_string(), vec![3, 4]),
            ("/system/etc".to_string(), vec![2]),
        ]
    );
    assert!(snapshot.descendants("/system-x").is_empty());
}

fn entry(point: &str, fields: &[PropagationField]) -> MountEntry {
    MountEntry::from_fields(
        point.to_string(),
        "ext4".to_string(),
        Some("/dev/block/sda1".to_string()),
        36,
        "0:32".to_string(),
        fields,
    )
}

#[test]
fn mount_entry_reads_propagation_fields() {
    let shared = entry("/system", &[PropagationField::Shared(7)]);
    assert_eq!(shared.shared, Some(7));
    assert_eq!(shared.master, None);
    assert_eq!(shared.propagation(), "shared:7");

    let slave = entry("/system/etc", &[PropagationField::Master(7)]);
    assert_eq!(slave.shared, None);
    assert_eq!(slave.master, Some(7));
    assert_eq!(slave.propagation(), "slave:7");

    for fields in [&[][..], &[PropagationField::Other][..]] {
        let plain = entry("/data", fields);
        assert_eq!(plain.propagation(), "private");
    }
    let both = entry("/x", &[PropagationField::Master(3), PropagationField::Shared(12)]);
    assert_eq!(both.propagation(), "shared:12");
}

#[test]
fn mount_entry_at_finds_the_first_exact_mount_point() {
    let entries = vec![entry("/system", &[]), entry("/system/etc", &[]), entry("/system/", &[PropagationField::Shared(1)])];
    let found = mount_entry_at(entries, "/system/etc/").unwrap();
    assert_eq!(found.mount_point, "/system/etc");
    let entries = vec![entry("/system", &[])];
    assert!(mount_entry_at(entries, "/vendor").is_none());
}
