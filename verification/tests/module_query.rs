use hybrid_mount::config::{Config, Mode, ModuleRule};
use hybrid_mount::module_query::{clear_app_module_errors, clear_errors_payload, merge_module_snapshot};
use hybrid_mount::mount_tree::NodeFileType;
use hybrid_mount::plan::planner::MountPlan;
use hybrid_mount::scanner::{ModuleEntry, ModuleRecord};
use hybrid_mount::snapshot::{app_modules, fallback_app_modules, sync_app_module_rules};

fn record(id: &str) -> ModuleRecord {
    ModuleRecord {
        id: id.to_owned(),
        name: id.to_owned(),
        version: "1".to_owned(),
        author: "a".to_owned(),
        description: "d".to_owned(),
        disabled: false,
        skip_mount: false,
        has_mount_files: true,
        source_path: format!("/data/adb/modules/{id}"),
        entries: Vec::new(),
    }
}

fn strings(items: &[&str]) -> Vec<String> {
    items.iter().map(|item| (*item).to_owned()).collect()
}

fn magic_rule() -> ModuleRule {
    ModuleRule { default_mode: Some(Mode::Magic), paths: Vec::new() }
}

#[test]
fn cached_snapshot_keeps_boot_backend_but_refreshes_saved_rules() {
    let modules = [record("switchable")];
    let boot_config = Config::default();
    let mut plan = MountPlan::default();
    plan.overlay_module_ids = vec!["switchable".to_owned()];
    let mut snapshot = app_modules(&modules, &boot_config, &plan, &[], &strings(&["switchable"]));

    let mut edited_config = Config::default();
    edited_config.rules.push(("switchable".to_owned(), magic_rule()));
    sync_app_module_rules(&mut snapshot, &edited_config);

    assert_eq!(snapshot[0].mode, "overlay");
    assert!(snapshot[0].is_mounted);
    assert_eq!(snapshot[0].rules.default_mode.as_deref(), Some("magic"));
}

#[test]
fn query_merge_refreshes_metadata_and_enablement_without_changing_runtime_ownership() {
    let original = record("existing");
    let config = Config::default();
    let mut plan = MountPlan::default();
    plan.vfs_module_ids = vec![original.id.clone()];
    let cached = app_modules(std::slice::from_ref(&original), &config, &plan, &[], &strings(&["existing"]));
    let mut installed = original;
    installed.name = "updated name".into();
    installed.version = "2".into();
    installed.disabled = true;
    let mut edited = config;
    edited.rules.push((installed.id.clone(), magic_rule()));
    edited.module_blacklist.push(installed.id.clone());
    let merged = merge_module_snapshot(cached, &[installed], &edited, true, &[]);
    assert_eq!(merged[0].name, "updated name");
    assert_eq!(merged[0].version, "2");
    assert!(!merged[0].enabled);
    assert!(merged[0].blacklisted);
    assert_eq!(merged[0].rules.default_mode.as_deref(), Some("magic"));
    assert!(merged[0].is_mounted);
    assert_eq!(merged[0].mode, "vfs");
}

#[test]
fn query_merge_exposes_new_modules_without_claiming_they_are_mounted() {
    let mut installed = record("new_module");
    installed.entries.push(ModuleEntry {
        relative: "system/etc/new".into(),
        file_type: NodeFileType::RegularFile,
        replace: false,
    });
    let merged = merge_module_snapshot(Vec::new(), &[installed], &Config::default(), false, &[]);
    assert_eq!(merged.len(), 1);
    assert_eq!(merged[0].id, "new_module");
    assert!(merged[0].enabled);
    assert!(!merged[0].is_mounted);
}

#[test]
fn query_merge_keeps_removed_active_modules_for_unload_and_drops_inactive_ones() {
    let records = [record("active"), record("inactive")];
    let mut plan = MountPlan::default();
    plan.vfs_module_ids = vec![records[0].id.clone()];
    let cached = app_modules(&records, &Config::default(), &plan, &[], &strings(&["active"]));
    let merged = merge_module_snapshot(cached, &[], &Config::default(), true, &[]);
    assert_eq!(merged.len(), 1);
    assert_eq!(merged[0].id, "active");
    assert!(merged[0].is_mounted);
    assert!(!merged[0].enabled);
    assert_eq!(merged[0].mode, "vfs");
}

#[test]
fn fallback_snapshot_scans_planned_mode_without_claiming_mount_success() {
    let mut module = record("fallback_mod");
    module.entries = vec![
        ModuleEntry { relative: "system/etc".to_owned(), file_type: NodeFileType::Directory, replace: false },
        ModuleEntry { relative: "system/etc/hosts".to_owned(), file_type: NodeFileType::RegularFile, replace: false },
    ];

    let list = fallback_app_modules(&[module], &Config::default(), false, &[]);

    assert_eq!(list.len(), 1);
    assert_eq!(list[0].mode, "overlay");
    assert!(!list[0].is_mounted);
}

#[test]
fn cached_app_module_errors_can_be_cleared() {
    let modules = [record("bad_mod")];
    let mut list = app_modules(&modules, &Config::default(), &MountPlan::default(), &strings(&["bad_mod"]), &[]);

    clear_app_module_errors(&mut list, &[]);

    assert_eq!(list[0].mount_error, None);
    assert!(!list[0].suggest_ignore);
}

#[test]
fn clearing_keeps_markers_that_remain() {
    let modules = [record("cleared_mod"), record("blocked_mod")];
    let mut list = app_modules(
        &modules,
        &Config::default(),
        &MountPlan::default(),
        &strings(&["cleared_mod", "blocked_mod"]),
        &[],
    );

    clear_app_module_errors(&mut list, &strings(&["blocked_mod"]));

    assert_eq!(list[0].mount_error, None);
    assert!(!list[0].suggest_ignore);
    assert_eq!(list[1].mount_error, Some("mount_error marker present".to_owned()));
    assert!(list[1].suggest_ignore);
}

#[test]
fn clear_errors_wire_snapshot_is_stable() {
    assert_eq!(clear_errors_payload(3), r#"{"ok":true,"removed":3}"#);
}

#[test]
fn clear_errors_payload_spells_large_counts() {
    assert_eq!(clear_errors_payload(0), r#"{"ok":true,"removed":0}"#);
    assert_eq!(clear_errors_payload(1024), r#"{"ok":true,"removed":1024}"#);
}

#[test]
fn query_merge_orders_removed_modules_by_id() {
    let records = [record("zeta"), record("alpha"), record("kept")];
    let mut plan = MountPlan::default();
    plan.overlay_module_ids = vec!["zeta".to_owned(), "alpha".to_owned(), "kept".to_owned()];
    let cached = app_modules(&records, &Config::default(), &plan, &[], &strings(&["zeta", "alpha", "kept"]));
    let merged = merge_module_snapshot(cached, &[record("kept")], &Config::default(), false, &[]);
    assert_eq!(merged.len(), 3);
    assert_eq!(merged[0].id, "kept");
    assert!(merged[0].is_mounted);
    assert_eq!(merged[1].id, "alpha");
    assert_eq!(merged[2].id, "zeta");
    assert!(!merged[1].enabled);
}
