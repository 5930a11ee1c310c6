use hybrid_mount::config::{Config, Mode, ModuleRule};
use hybrid_mount::mount_tree::{MountSource, NodeFileType};
use hybrid_mount::plan::planner::MountPlan;
use hybrid_mount::scanner::ModuleRecord;
use hybrid_mount::snapshot::{app_modules, mounted_module_ids_for_snapshot};
use hybrid_mount::state::{build_install_state, vfs_type_label, ModulePresence, MountStatistics, RunState, NO_STORAGE_MODE};

fn record(id: &str) -> ModuleRecord {
    ModuleRecord {
        id: id.to_owned(),
        name: id.to_owned(),
        version: "1".to_owned(),
        author: "a".to_owned(),
        description: "d".to_owned(),
        disabled: false,
        skip_mount: false,
        has_mount_files: true,
        source_path: format!("/data/adb/modules/{id}"),
        entries: Vec::new(),
    }
}

fn test_plan() -> MountPlan {
    let mut plan = MountPlan::default();
    plan.overlay_module_ids = vec!["overlay_mod".to_owned()];
    plan.magic_module_ids = vec!["magic_mod".to_owned()];
    plan
}

fn strings(items: &[&str]) -> Vec<String> {
    items.iter().map(|item| (*item).to_owned()).collect()
}

#[test]
fn run_state_defaults_vfs_provider_to_none() {
    let state = RunState::default();
    assert!(state.vfs_provider.is_none());
    assert!(!state.vfs_foreign_nomount);
    assert!(state.vfs_modules.is_empty());
    assert!(state.vfs_active_mounts.is_empty());
}

#[test]
fn app_modules_reflect_plan_backend_and_rules() {
    let modules = [record("overlay_mod"), record("magic_mod"), record("ignored_mod")];
    let mut config = Config::default();
    config.rules.push((
        "magic_mod".to_owned(),
        ModuleRule {
            default_mode: Some(Mode::Magic),
            paths: vec![("system/etc/hosts".to_owned(), Mode::Overlay)],
        },
    ));

    let list = app_modules(&modules, &config, &test_plan(), &[], &strings(&["overlay_mod", "magic_mod"]));

    assert_eq!(list[0].mode, "overlay");
    assert!(list[0].is_mounted);
    assert_eq!(list[1].mode, "magic");
    assert_eq!(list[0].rules.default_mode, None);
    assert_eq!(list[1].rules.default_mode.as_deref(), Some("magic"));
    assert_eq!(list[1].rules.paths, vec![("system/etc/hosts".to_owned(), "overlay".to_owned())]);
    assert_eq!(list[2].mode, "ignore");
    assert!(!list[2].is_mounted);
}

#[test]
fn app_modules_surface_mount_error_markers() {
    let modules = [record("bad_mod")];
    let list = app_modules(&modules, &Config::default(), &MountPlan::default(), &strings(&["bad_mod"]), &[]);

    assert_eq!(list[0].mount_error, Some("mount_error marker present".to_owned()));
    assert!(list[0].suggest_ignore);
}

#[test]
fn app_modules_surface_blacklist_status_and_skip_mounting() {
    let modules = [record("blocked")];
    let mut config = Config::default();
    config.module_blacklist.push("blocked".to_owned());
    let mut plan = MountPlan::default();
    plan.overlay_module_ids = vec!["blocked".to_owned()];

    let list = app_modules(&modules, &config, &plan, &[], &strings(&["blocked"]));

    assert!(list[0].blacklisted);
    assert_eq!(list[0].mode, "ignore");
    assert!(!list[0].enabled);
    assert!(!list[0].is_mounted);
}

#[test]
fn planned_run_state_exposes_backend_before_mounting() {
    let mut skipped = record("skipped_mod");
    skipped.skip_mount = true;
    let config = Config::default();
    let plan = test_plan();

    let state = RunState::from_plan(
        &config,
        &[record("overlay_mod"), record("magic_mod"), skipped],
        &plan,
        strings(&["overlay_mod"]),
        0,
        0,
    );

    assert_eq!(state.overlay_modules, strings(&["overlay_mod"]));
    assert_eq!(state.magic_modules, strings(&["magic_mod"]));
    assert_eq!(state.skip_mount_modules, strings(&["skipped_mod"]));
    assert!(state.mount_point.is_empty());
    assert!(state.active_mounts.is_empty());
    assert_eq!(state.storage_mode, NO_STORAGE_MODE);
    assert_eq!(state.mount_stats, MountStatistics::default());
    assert_eq!(state.mode_stats.overlayfs, 1);
    assert_eq!(state.mode_stats.magicmount, 1);
    assert_eq!(
        state.mount_error_reasons,
        vec![("overlay_mod".to_owned(), "mount_error marker present".to_owned())]
    );
}

#[test]
fn app_modules_mounted_flags_follow_executed_targets_not_plan() {
    let modules = [record("overlay_mod"), record("magic_mod")];
    let config = Config::default();
    let plan = test_plan();

    let planned = app_modules(&modules, &config, &plan, &[], &[]);
    assert!(!planned[0].is_mounted);
    assert!(!planned[1].is_mounted);

    let overlay_only = app_modules(&modules, &config, &plan, &[], &strings(&["overlay_mod"]));
    assert!(overlay_only[0].is_mounted);
    assert!(!overlay_only[1].is_mounted);
}

#[test]
fn mounted_module_ids_derive_from_executed_targets_in_the_shared_tree() {
    let modules = [record("overlay_mod"), record("magic_mod")];
    let mut plan = test_plan();
    plan.tree.insert(
        "/system",
        MountSource {
            module_id: "overlay_mod".to_owned(),
            relative: "system".to_owned(),
            source_path: "/data/adb/modules/overlay_mod/system".to_owned(),
            file_type: NodeFileType::Directory,
            replace: false,
            backend: Mode::Overlay,
        },
    );
    plan.tree.insert(
        "/system/etc/hosts",
        MountSource {
            module_id: "magic_mod".to_owned(),
            relative: "system/etc/hosts".to_owned(),
            source_path: "/data/adb/modules/magic_mod/system/etc/hosts".to_owned(),
            file_type: NodeFileType::RegularFile,
            replace: false,
            backend: Mode::Magic,
        },
    );

    let mounted = mounted_module_ids_for_snapshot(&modules, &plan, &strings(&["/system"]), &strings(&["/system/etc/hosts"]));
    assert_eq!(mounted, strings(&["magic_mod", "overlay_mod"]));

    let only_failed_targets =
        mounted_module_ids_for_snapshot(&modules, &plan, &strings(&["/vendor"]), &strings(&["/system/etc/absent"]));
    assert!(only_failed_targets.is_empty());
}

#[test]
fn install_state_compatibility_rules() {
    let ok = build_install_state(true, true, true, true, false, "KSU");
    assert!(ok.compatible && ok.installed);

    let missing_overlay = build_install_state(true, true, true, false, false, "KSU");
    assert!(!missing_overlay.compatible);

    let not_installed = build_install_state(true, true, false, true, false, "APatch");
    assert!(!not_installed.installed);
    assert_eq!(not_installed.mount_source, "APatch");
}

#[test]
fn install_state_reports_a_responding_vfs_provider() {
    let state = build_install_state(true, true, true, true, true, "KSU");
    assert!(state.vfs_supported);
}

#[test]
fn install_state_vfs_type_labels_follow_the_module_tables() {
    assert_eq!(vfs_type_label(ModulePresence::Loadable), "lkm");
    assert_eq!(vfs_type_label(ModulePresence::BuiltIn), "builtin");
    assert_eq!(vfs_type_label(ModulePresence::NotPresent), "unknown");
    assert_eq!(
        build_install_state(true, true, true, true, false, "KSU").vfs_type,
        "unknown",
        "the builder has no module tables to read, so it must not claim a provider"
    );
}
