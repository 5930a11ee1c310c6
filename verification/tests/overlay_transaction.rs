use std::cell::RefCell;

use hybrid_mount::errors::Error;
use hybrid_mount::overlayfs::transaction::{
    combine_operation_and_restore, finalize_overlay_transaction_with, record_mounted_target,
    register_root_before_mounting_children, MountRollback,
};

fn fail(message: &str) -> Error {
    Error::msg(message.to_owned())
}

#[test]
fn root_registration_precedes_all_child_work() {
    let events = RefCell::new(Vec::new());
    register_root_before_mounting_children(
        true,
        "/system",
        |target: &str| {
            events.borrow_mut().push(format!("register:{target}"));
            Ok(())
        },
        || {
            events
                .borrow_mut()
                .push("register:/system/vendor".to_string());
            events
                .borrow_mut()
                .push("register:/system/vendor/etc".to_string());
            Ok(())
        },
    )
    .unwrap();

    assert_eq!(
        events.into_inner(),
        vec![
            "register:/system",
            "register:/system/vendor",
            "register:/system/vendor/etc",
        ]
    );
}

#[test]
fn failed_root_registration_skips_child_work() {
    let mut children_ran = false;
    let result = register_root_before_mounting_children(
        true,
        "/system",
        |_target: &str| Err(fail("ioctl refused")),
        || {
            children_ran = true;
            Ok(())
        },
    );
    assert_eq!(result.unwrap_err().message(), "ioctl refused");
    assert!(!children_ran);
}

#[test]
fn disabled_registration_only_mounts_children() {
    let mut registered = false;
    let mut children_ran = false;
    register_root_before_mounting_children(
        false,
        "/system",
        |_target: &str| {
            registered = true;
            Ok(())
        },
        || {
            children_ran = true;
            Ok(())
        },
    )
    .unwrap();
    assert!(!registered);
    assert!(children_ran);
}

#[test]
fn failed_mount_is_not_recorded_but_success_is_recorded_immediately() {
    let mut rollback = MountRollback::default();
    let error = record_mounted_target(&mut rollback, "/failed", || Err(fail("mount failed")))
        .unwrap_err();
    assert!(error.message().contains("mount failed"));

    record_mounted_target(&mut rollback, "/mounted", || Ok(())).unwrap();
    assert_eq!(rollback.into_targets(), vec!["/mounted".to_owned()]);
}

#[test]
fn send_failure_rolls_back_staging_root_and_children_in_reverse_order() {
    let mut rollback = MountRollback::default();
    for target in [
        "/run/staging-a",
        "/system",
        "/system/vendor",
        "/system/vendor/etc/hosts",
    ] {
        rollback.record(target);
    }
    let mut detached = Vec::new();

    let error = finalize_overlay_transaction_with(
        rollback,
        Err(fail("send_umountable failed")),
        Ok(()),
        |target: &str| {
            detached.push(target.to_owned());
            Ok(())
        },
    )
    .unwrap_err();

    assert!(error.message().contains("send_umountable failed"));
    assert_eq!(
        detached,
        vec![
            "/system/vendor/etc/hosts".to_owned(),
            "/system/vendor".to_owned(),
            "/system".to_owned(),
            "/run/staging-a".to_owned(),
        ]
    );
}

#[test]
fn cwd_restore_failure_rolls_back_all_mounts_and_preserves_both_errors() {
    let mut rollback = MountRollback::default();
    rollback.record("/run/staging-a");
    rollback.record("/system");
    let mut detached = Vec::new();

    let error = finalize_overlay_transaction_with(
        rollback,
        Ok(()),
        Err(fail("cwd disappeared")),
        |target: &str| {
            detached.push(target.to_owned());
            if target == "/system" {
                return Err(fail("busy"));
            }
            Ok(())
        },
    )
    .unwrap_err();
    let rendered = error.message();

    assert!(rendered.contains("cwd disappeared"));
    assert!(rendered.contains("failed to roll back"));
    assert!(rendered.contains("/system: busy"));
    assert_eq!(
        detached,
        vec!["/system".to_owned(), "/run/staging-a".to_owned()]
    );
}

#[test]
fn operation_and_cwd_restore_failures_are_both_reported() {
    let error = finalize_overlay_transaction_with(
        MountRollback::default(),
        Err(fail("child mount failed")),
        Err(fail("cwd restore failed")),
        |_target: &str| Ok(()),
    )
    .unwrap_err();
    let rendered = error.message();

    assert!(rendered.contains("child mount failed"));
    assert!(rendered.contains("cwd restore failed"));
}

#[test]
fn successful_transaction_returns_complete_mount_order_to_executor() {
    let mut rollback = MountRollback::default();
    for target in ["/run/staging-a", "/system", "/system/vendor"] {
        rollback.record(target);
    }

    let targets =
        finalize_overlay_transaction_with(rollback, Ok(()), Ok(()), |_target: &str| Ok(())).unwrap();

    assert_eq!(
        targets,
        vec![
            "/run/staging-a".to_owned(),
            "/system".to_owned(),
            "/system/vendor".to_owned(),
        ]
    );
}

#[test]
fn every_failed_detach_is_reported_in_call_order() {
    let mut rollback = MountRollback::new();
    rollback.record("/a");
    rollback.record("/b");
    rollback.record("/c");
    let error = rollback
        .rollback_with(|target: &str| {
            if target == "/b" {
                Ok(())
            } else {
                Err(fail("busy"))
            }
        })
        .unwrap_err();
    assert_eq!(
        error.message(),
        "failed to detach /c: busy; failed to detach /a: busy"
    );
}

#[test]
fn combined_failures_keep_the_operation_error_last() {
    let error = combine_operation_and_restore(Err(fail("op")), Err(fail("cwd"))).unwrap_err();
    assert_eq!(error.message(), "additionally failed to restore cwd: cwd: op");
    assert_eq!(
        combine_operation_and_restore(Ok(()), Err(fail("cwd")))
            .unwrap_err()
            .message(),
        "cwd"
    );
    assert!(combine_operation_and_restore(Ok(()), Ok(())).is_ok());
}
