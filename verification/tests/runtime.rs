use hybrid_mount::errors::Error;
use hybrid_mount::runtime::ledger::{ledger_for_boot, Ledger, OwnedMount};
use hybrid_mount::runtime::lifecycle::{confirm_boot_rules, owned_uids, reject_legacy_mounts};
use hybrid_mount::runtime::policy::paths_overlap;
use hybrid_mount::runtime::rules::SavedRule;
use hybrid_mount::state::RunState;

#[test]
fn another_boot_never_reuses_owned_mounts() {
    let old = Ledger {
        boot_id: "old".into(),
        generation: 8,
        phase: "ready".into(),
        ..Ledger::default()
    };
    let fresh = ledger_for_boot(Some(old), "new", "ns").unwrap();
    assert_eq!(fresh.generation, 0);
    assert_eq!(fresh.phase, "clean");
}

#[test]
fn repeated_boot_apply_requires_cleanup() {
    let state = Ledger {
        boot_id: "boot".into(),
        phase: "ready".into(),
        ..Ledger::default()
    };
    assert!(state.require_clean().is_err());
}

#[test]
fn pending_operation_cannot_be_reported_ready() {
    let state = Ledger {
        phase: "applying".into(),
        ..Ledger::default()
    };
    assert!(state.require_ready().is_err());
}

#[test]
fn namespace_change_does_not_reuse_mount_ids() {
    let old = Ledger {
        boot_id: "boot".into(),
        namespace: "ns1".into(),
        ..Ledger::default()
    };
    assert!(ledger_for_boot(Some(old), "boot", "ns2").is_err());
}

#[test]
fn cleanup_keeps_mount_ownership_when_ksu_release_fails() {
    let mut saved = Ledger {
        mounts: vec![OwnedMount {
            target: "/system/etc/hosts".into(),
            id: 17,
            ..OwnedMount::default()
        }],
        ksu_unmounts: Some(vec!["/system/etc/hosts".into()]),
        ..Ledger::default()
    };
    let mut detached = false;
    let result = saved.release_mount_resources(
        |_| {
            detached = true;
            Ok(())
        },
        |_| Err(Error::msg("ioctl failed".to_owned())),
    );
    assert!(result.is_err());
    assert!(detached);
    assert_eq!(saved.mounts.len(), 1);
    assert_eq!(saved.owned_unmounts().unwrap(), ["/system/etc/hosts"]);
    saved
        .release_mount_resources(|_| Ok(()), |_| Ok(()))
        .unwrap();
    assert!(saved.mounts.is_empty());
    assert!(saved.owned_unmounts().unwrap().is_empty());
}

#[test]
fn cleanup_does_not_release_registrations_before_mounts_are_detached() {
    let mut saved = Ledger {
        ksu_unmounts: Some(vec!["/system/etc/hosts".into()]),
        ..Ledger::default()
    };
    let result = saved.release_mount_resources(
        |_| Err(Error::msg("detach failed".to_owned())),
        |_| panic!("must not remove hiding registrations while mount cleanup failed"),
    );
    assert!(result.is_err());
    assert_eq!(saved.owned_unmounts().unwrap().len(), 1);
}

#[test]
fn legacy_real_mounts_require_reboot_instead_of_guessing_ksu_ownership() {
    let old = Ledger {
        mounts: vec![OwnedMount::default()],
        ..Ledger::default()
    };
    assert!(old.owned_unmounts().is_err());
    assert!(Ledger::default().owned_unmounts().unwrap().is_empty());
}

#[test]
fn clean_phase_with_pending_ksu_registration_cannot_rebuild() {
    let saved = Ledger {
        phase: "clean".into(),
        ksu_unmounts: Some(vec!["/system/etc/hosts".into()]),
        ..Ledger::default()
    };
    assert!(saved.require_clean().is_err());
}

#[test]
fn same_boot_ledger_is_kept_when_consistent() {
    let saved = Ledger {
        version: 1,
        boot_id: "boot".into(),
        namespace: "ns".into(),
        generation: 3,
        phase: "ready".into(),
        ..Ledger::default()
    };
    let kept = ledger_for_boot(Some(saved), "boot", "ns").unwrap();
    assert_eq!(kept.generation, 3);
    let bad_phase = Ledger {
        version: 1,
        boot_id: "boot".into(),
        namespace: "ns".into(),
        phase: "bogus".into(),
        ..Ledger::default()
    };
    assert!(ledger_for_boot(Some(bad_phase), "boot", "ns").is_err());
    let bad_version = Ledger {
        version: 2,
        boot_id: "boot".into(),
        namespace: "ns".into(),
        phase: "clean".into(),
        ..Ledger::default()
    };
    assert!(ledger_for_boot(Some(bad_version), "boot", "ns").is_err());
    let fresh = ledger_for_boot(None, "b", "n").unwrap();
    assert!(fresh.require_clean().is_ok());
}

#[test]
fn missing_advertised_rule_cannot_commit_ready_boot() {
    let rule = SavedRule {
        module_id: "hosts".into(),
        virtual_path: "/system/etc/hosts".into(),
        real_path: "/data/adb/modules/hosts/system/etc/hosts".into(),
        flags: 0,
        uid: 0,
    };
    assert!(confirm_boot_rules(
        std::slice::from_ref(&rule),
        std::slice::from_ref(&rule.virtual_path),
        &[]
    )
    .is_err());
    assert!(confirm_boot_rules(std::slice::from_ref(&rule), &[], &[]).is_ok());
    assert!(confirm_boot_rules(
        std::slice::from_ref(&rule),
        std::slice::from_ref(&rule.virtual_path),
        std::slice::from_ref(&rule)
    )
    .is_ok());
}

#[test]
fn old_overlay_without_ledger_must_not_be_cleared_as_clean() {
    let state = RunState {
        overlay_active_mounts: vec!["/system".into()],
        ..RunState::default()
    };
    assert!(reject_legacy_mounts(
        &state,
        &[("/system".into(), "overlay".into(), Some("KSU".into()))]
    )
    .is_err());
}

#[test]
fn old_magic_bind_with_block_source_is_still_untracked() {
    let state = RunState {
        magic_active_mounts: vec!["/system/etc/hosts".into()],
        ..RunState::default()
    };
    assert!(reject_legacy_mounts(
        &state,
        &[(
            "/system/etc/hosts".into(),
            "ext4".into(),
            Some("/dev/block/dm-1".into())
        )]
    )
    .is_err());
}

#[test]
fn physical_boot_stock_partition_is_not_legacy_overlay() {
    let state = RunState {
        overlay_active_mounts: vec!["/system".into()],
        ..RunState::default()
    };
    assert!(reject_legacy_mounts(
        &state,
        &[(
            "/system".into(),
            "erofs".into(),
            Some("/dev/block/dm-0".into())
        )]
    )
    .is_ok());
}

#[test]
fn stacked_partition_mounts_are_ambiguous() {
    let state = RunState {
        overlay_active_mounts: vec!["/vendor".into()],
        ..RunState::default()
    };
    let stock = (
        "/vendor".to_owned(),
        "ext4".to_owned(),
        Some("/dev/block/dm-2".to_owned()),
    );
    assert!(reject_legacy_mounts(&state, &[stock.clone()]).is_ok());
    assert!(reject_legacy_mounts(&state, &[stock.clone(), stock]).is_err());
}

#[test]
fn absent_provider_never_owns_requested_isolation_uids() {
    assert!(owned_uids(&[10000], &[], &[]).is_empty());
    assert_eq!(
        owned_uids(&[10000, 10001], &[10000], &[10000, 10001, 10002]),
        vec![10001]
    );
}

#[test]
fn overlap_respects_path_boundaries() {
    assert!(paths_overlap("/system/etc", "/system/etc/a"));
    assert!(!paths_overlap("/system/etc/a", "/system/etc/ab"));
}
