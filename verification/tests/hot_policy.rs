use hybrid_mount::config::{Config, Mode};
use hybrid_mount::mount_tree::NodeFileType;
use hybrid_mount::runtime::ledger::{Ledger, OwnedMount};
use hybrid_mount::runtime::policy::{hot_targets_clear, paths_overlap, plan_hot_module};
use hybrid_mount::scanner::{ModuleEntry, ModuleRecord};

fn module(id: &str) -> ModuleRecord {
    ModuleRecord {
        id: id.to_owned(),
        name: id.to_owned(),
        version: "1".to_owned(),
        author: "a".to_owned(),
        description: "d".to_owned(),
        disabled: true,
        skip_mount: false,
        has_mount_files: true,
        source_path: format!("/data/adb/modules/{id}"),
        entries: vec![ModuleEntry {
            relative: "system/etc/demo.conf".to_owned(),
            file_type: NodeFileType::RegularFile,
            replace: false,
        }],
    }
}

fn config(default_mode: Mode) -> Config {
    Config { default_mode, rules: Vec::new(), module_blacklist: Vec::new() }
}

fn owned_mount(target: &str) -> OwnedMount {
    OwnedMount {
        target: target.to_owned(),
        id: 7,
        baseline_ids: Vec::new(),
        device: "0:1".to_owned(),
        fs_type: "overlay".to_owned(),
        source: None,
    }
}

#[test]
fn module_with_boot_ownership_needs_a_reboot() {
    let mut saved = Ledger::default();
    saved.non_vfs_modules = vec!["demo".to_owned()];
    let error = plan_hot_module(&module("demo"), &config(Mode::Vfs), &[], &saved, false).unwrap_err();
    assert_eq!(error.message(), "module has active Magic/Overlay ownership; reboot required");
}

#[test]
fn skipped_blacklisted_or_removed_modules_are_refused() {
    let saved = Ledger::default();
    let mut skipped = module("demo");
    skipped.skip_mount = true;
    let refused = "module is skipped, blacklisted, or pending removal";
    assert_eq!(plan_hot_module(&skipped, &config(Mode::Vfs), &[], &saved, false).unwrap_err().message(), refused);
    let mut blacklist = config(Mode::Vfs);
    blacklist.module_blacklist = vec!["demo".to_owned()];
    assert_eq!(plan_hot_module(&module("demo"), &blacklist, &[], &saved, false).unwrap_err().message(), refused);
    assert_eq!(plan_hot_module(&module("demo"), &config(Mode::Vfs), &[], &saved, true).unwrap_err().message(), refused);
}

#[test]
fn disabled_vfs_module_is_planned_for_a_temporary_load() {
    let saved = Ledger::default();
    let plan = plan_hot_module(&module("demo"), &config(Mode::Vfs), &[], &saved, false).unwrap();
    assert_eq!(plan.vfs_module_ids, vec!["demo".to_owned()]);
    assert!(plan.magic_module_ids.is_empty());
    assert!(plan.overlay_module_ids.is_empty());
}

#[test]
fn non_vfs_plan_is_refused() {
    let saved = Ledger::default();
    let error = plan_hot_module(&module("demo"), &config(Mode::Magic), &[], &saved, false).unwrap_err();
    assert_eq!(error.message(), "hot operations require a pure VFS file plan; mixed backends require reboot");
}

#[test]
fn vfs_target_inside_a_managed_mount_is_refused() {
    let mut saved = Ledger::default();
    saved.mounts = vec![owned_mount("/system/etc")];
    let targets = vec!["/vendor/lib/a.so".to_owned(), "/system/etc/demo.conf".to_owned()];
    let error = hot_targets_clear(&targets, &saved).unwrap_err();
    assert_eq!(error.message(), "VFS target overlaps an active managed mount: /system/etc/demo.conf");
    assert!(hot_targets_clear(&targets[..1], &saved).is_ok());
    assert!(paths_overlap("/system", "/system/etc/demo.conf"));
}
