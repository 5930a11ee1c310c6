use hybrid_mount::errors::Error;
use hybrid_mount::runtime::hot::{hot_rules_before, remaining_owned_rules, BootReadback, HotAction};
use hybrid_mount::runtime::ledger::{Ledger, OwnedMount};
use hybrid_mount::runtime::rules::SavedRule;
use hybrid_mount::state::{AppModule, AppModuleRules, RunState};

fn rule(module: &str, path: &str) -> SavedRule {
    SavedRule {
        module_id: module.into(),
        virtual_path: path.into(),
        real_path: format!("/data/adb/modules/{module}{path}"),
        flags: 0,
        uid: 0,
    }
}

fn app(id: &str, mounted: bool) -> AppModule {
    AppModule {
        id: id.into(),
        name: id.into(),
        version: "1".into(),
        author: "a".into(),
        description: "d".into(),
        mode: "vfs".into(),
        is_mounted: mounted,
        enabled: true,
        blacklisted: false,
        source_path: format!("/data/adb/modules/{id}"),
        mount_error: None,
        suggest_ignore: false,
        rules: AppModuleRules {
            default_mode: None,
            paths: Vec::new(),
        },
    }
}

#[test]
fn hot_actions_are_parsed_by_name() {
    assert_eq!(HotAction::parse("load"), Some(HotAction::Load));
    assert_eq!(HotAction::parse("reload"), Some(HotAction::Reload));
    assert_eq!(HotAction::parse("unload"), Some(HotAction::Unload));
    assert_eq!(HotAction::parse("status"), None);
}

#[test]
fn hot_operations_respect_current_ownership() {
    let saved = Ledger {
        rules: vec![rule("a", "/system/etc/hosts"), rule("b", "/vendor/etc/x")],
        non_vfs_modules: vec!["m".into()],
        ..Ledger::default()
    };
    assert_eq!(
        hot_rules_before(&saved, HotAction::Load, "a").unwrap_err().message(),
        "module is already active; use reload"
    );
    assert_eq!(
        hot_rules_before(&saved, HotAction::Unload, "c").unwrap_err().message(),
        "module has no owned active VFS rules"
    );
    assert_eq!(
        hot_rules_before(&saved, HotAction::Reload, "m").unwrap_err().message(),
        "module has active Magic/Overlay ownership; reboot required"
    );
    assert_eq!(
        hot_rules_before(&saved, HotAction::Reload, "a").unwrap(),
        vec![rule("a", "/system/etc/hosts")]
    );
    assert!(hot_rules_before(&saved, HotAction::Load, "c").unwrap().is_empty());
}

#[test]
fn hot_apply_replaces_the_module_snapshot_and_follows_owned_rules() {
    let mut saved = Ledger {
        generation: 4,
        rules: vec![rule("a", "/system/etc/hosts")],
        non_vfs_modules: vec!["m".into()],
        modules: vec![app("a", false), app("b", true), app("m", true)],
        ..Ledger::default()
    };
    saved.record_hot_apply("b", Some(app("b", false)));
    assert_eq!(saved.generation, 5);
    let ids: Vec<&str> = saved.modules.iter().map(|m| m.id.as_str()).collect();
    assert_eq!(ids, vec!["a", "m", "b"]);
    assert!(saved.modules[0].is_mounted);
    assert!(saved.modules[1].is_mounted);
    assert!(!saved.modules[2].is_mounted);

    saved.record_hot_apply("a", None);
    assert_eq!(saved.generation, 6);
    assert_eq!(saved.modules.len(), 3);
}

#[test]
fn cleanup_drops_every_mount_flag() {
    let mut saved = Ledger {
        phase: "cleaning".into(),
        error: Some("x".into()),
        non_vfs_modules: vec!["m".into()],
        pending_rules: vec![rule("a", "/x")],
        modules: vec![app("a", true), app("m", true)],
        ..Ledger::default()
    };
    saved.record_cleaned();
    assert_eq!(saved.phase, "clean");
    assert!(saved.error.is_none());
    assert!(saved.non_vfs_modules.is_empty());
    assert!(saved.pending_rules.is_empty());
    assert!(saved.modules.iter().all(|m| !m.is_mounted));
}

#[test]
fn boot_start_opens_a_new_generation() {
    let mut saved = Ledger {
        generation: 2,
        phase: "clean".into(),
        error: Some("old".into()),
        ..Ledger::default()
    };
    saved.record_boot_start();
    assert_eq!(saved.generation, 3);
    assert_eq!(saved.phase, "applying");
    assert!(saved.error.is_none());
}

#[test]
fn boot_finish_keeps_only_confirmed_rules_and_added_uids() {
    let mut saved = Ledger {
        phase: "applying".into(),
        pending_rules: vec![rule("a", "/system/etc/hosts"), rule("b", "/vendor/x")],
        isolated_uids: vec![10, 11, 12],
        ..Ledger::default()
    };
    let readback = BootReadback {
        current: vec![rule("a", "/system/etc/hosts")],
        observed_uids: vec![10, 11, 13],
        verification: Ok(()),
    };
    let mounts = vec![OwnedMount {
        target: "/system".into(),
        id: 5,
        ..OwnedMount::default()
    }];
    saved
        .record_boot_finish(true, mounts, vec!["/system".into()], Some(readback), &[11], vec![app("a", true)])
        .unwrap();
    assert_eq!(saved.rules, vec![rule("a", "/system/etc/hosts")]);
    assert_eq!(saved.isolated_uids, vec![10]);
    assert!(saved.pending_rules.is_empty());
    assert_eq!(saved.phase, "ready");
    assert!(saved.error.is_none());
    assert_eq!(saved.ksu_unmounts, Some(vec!["/system".to_owned()]));
    assert_eq!(saved.mounts.len(), 1);
}

#[test]
fn failed_boot_finish_records_the_reason() {
    let mut saved = Ledger {
        pending_rules: vec![rule("a", "/x")],
        ..Ledger::default()
    };
    let readback = BootReadback {
        current: Vec::new(),
        observed_uids: Vec::new(),
        verification: Err(Error::msg("rule missing".into())),
    };
    let err = saved
        .record_boot_finish(true, Vec::new(), Vec::new(), Some(readback), &[], Vec::new())
        .unwrap_err();
    assert_eq!(err.message(), "rule missing");
    assert_eq!(saved.phase, "error");
    assert_eq!(saved.error.as_deref(), Some("rule missing"));
    assert_eq!(saved.pending_rules.len(), 1);

    let mut saved = Ledger::default();
    saved
        .record_boot_finish(false, Vec::new(), Vec::new(), None, &[], Vec::new())
        .unwrap();
    assert_eq!(saved.phase, "error");
    assert_eq!(
        saved.error.as_deref(),
        Some("boot pipeline failed; inspect status before recovery")
    );
}

#[test]
fn cleanup_keeps_present_rules_and_refuses_drift() {
    let saved = vec![rule("a", "/x"), rule("a", "/y")];
    let current = vec![rule("a", "/y")];
    assert_eq!(remaining_owned_rules(&saved, &current).unwrap(), vec![rule("a", "/y")]);

    let mut changed = rule("a", "/y");
    changed.real_path = "/elsewhere".into();
    assert_eq!(
        remaining_owned_rules(&saved, &[changed]).unwrap_err().message(),
        "owned VFS rule changed externally: /y"
    );
}

#[test]
fn snapshot_refresh_follows_the_ledger() {
    let saved = Ledger {
        phase: "clean".into(),
        rules: vec![rule("b", "/system/etc/hosts"), rule("a", "/vendor/x"), rule("a", "/system/etc/hosts")],
        ..Ledger::default()
    };
    let mut state = RunState::blank();
    state.overlay_active_mounts = vec!["/system".into()];
    state.mount_point = "/mnt/x".into();
    state.vfs_error_modules = vec!["a".into(), "z".into()];
    state.vfs_error = Some("failed".into());
    state.refresh_from_ledger(&saved);

    assert!(state.overlay_active_mounts.is_empty());
    assert_eq!(state.storage_mode, "none");
    assert_eq!(state.rollback_status.as_deref(), Some("clean"));
    assert_eq!(state.vfs_modules, vec!["a".to_owned(), "b".to_owned()]);
    assert_eq!(
        state.vfs_active_mounts,
        vec!["/system/etc/hosts".to_owned(), "/vendor/x".to_owned()]
    );
    assert_eq!(state.mode_stats.vfs, 2);
    assert_eq!(state.vfs_provider.as_deref(), Some("hm"));
    assert_eq!(state.active_mounts, state.vfs_active_mounts);
    assert_eq!(state.vfs_error_modules, vec!["z".to_owned()]);
    assert_eq!(state.vfs_error.as_deref(), Some("failed"));

    let ready = Ledger {
        phase: "ready".into(),
        ..Ledger::default()
    };
    state.refresh_from_ledger(&ready);
    assert!(state.vfs_modules.is_empty());
    assert!(state.vfs_provider.is_none());
    assert_eq!(state.vfs_error_modules, vec!["z".to_owned()]);
}
