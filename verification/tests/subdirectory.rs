use hybrid_mount::overlayfs::subdirectory::{
    child_overlay_options, overlay_mount_options, overlay_mount_plan, remove_first, DirChild,
};
use hybrid_mount::sys::mountinfo::MountEntry;

fn strings(items: &[&str]) -> Vec<String> {
    items.iter().map(|item| (*item).to_owned()).collect()
}

fn mount(point: &str) -> MountEntry {
    MountEntry {
        mount_point: point.to_owned(),
        fs_type: "ext4".to_owned(),
        mount_source: None,
        mnt_id: 1,
        majmin: "0:1".to_owned(),
        shared: None,
        master: None,
    }
}

fn child(name: &str, is_dir: bool) -> DirChild {
    DirChild { name: name.to_owned(), is_dir }
}

#[test]
fn options_list_the_lower_layers_above_the_stock_directory() {
    let lowers = strings(&["/m/a/system/bin", "/m/b/system/bin"]);
    assert_eq!(
        overlay_mount_options(&lowers, "./bin", None, None),
        "lowerdir=/m/a/system/bin:/m/b/system/bin:./bin"
    );
    assert_eq!(overlay_mount_options(&[], "./bin", None, None), "lowerdir=./bin");
}

#[test]
fn options_name_upper_and_work_only_together() {
    let lowers = strings(&["/m/a"]);
    assert_eq!(
        overlay_mount_options(&lowers, "/stock", Some("/u"), Some("/w")),
        "lowerdir=/m/a:/stock,upperdir=/u,workdir=/w"
    );
    assert_eq!(overlay_mount_options(&lowers, "/stock", Some("/u"), None), "lowerdir=/m/a:/stock");
}

#[test]
fn child_overlay_uses_only_module_directories_that_hold_it() {
    let roots = strings(&["/m/a/system", "/m/b/system", "/m/c/system"]);
    assert_eq!(
        child_overlay_options(&roots, "/etc", &[true, false, true], "./etc"),
        Some("lowerdir=/m/a/system/etc:/m/c/system/etc:./etc".to_owned())
    );
    assert_eq!(child_overlay_options(&roots, "/etc", &[false, false, false], "./etc"), None);
}

#[test]
fn remove_first_drops_only_the_first_occurrence() {
    assert_eq!(remove_first("/system/system/bin", "/system"), "/system/bin");
    assert_eq!(remove_first("/vendor/lib", "/system"), "/vendor/lib");
    assert_eq!(remove_first("/system/bin", ""), "/system/bin");
}

#[test]
fn plan_skips_excluded_and_non_directory_children() {
    let entries = vec![
        child("bin", true),
        child("vendor", true),
        child("lost+found", true),
        child("build.prop", false),
        child("etc", true),
        child("apex", true),
    ];
    let plan = overlay_mount_plan("/system", &entries, &[]);
    assert_eq!(plan.children, strings(&["bin", "etc"]));
    assert!(plan.nested.is_empty());
}

#[test]
fn plan_restores_nested_mounts_once_in_path_order() {
    let mounts = vec![
        mount("/"),
        mount("/system"),
        mount("/system/vendor/lib"),
        mount("/system/etc/hosts"),
        mount("/system/etc/hosts"),
        mount("/systemx/bin"),
        mount("/data"),
    ];
    let plan = overlay_mount_plan("/system", &[], &mounts);
    let points: Vec<&str> = plan.nested.iter().map(|n| n.mount_point.as_str()).collect();
    assert_eq!(points, vec!["/system/etc/hosts", "/system/vendor/lib"]);
    assert_eq!(plan.nested[0].relative, "/etc/hosts");
    assert_eq!(plan.nested[0].stock_root, "./etc/hosts");
    assert_eq!(plan.nested[1].relative, "/vendor/lib");
    assert_eq!(plan.nested[1].stock_root, "./vendor/lib");
}
