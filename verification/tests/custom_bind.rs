use hybrid_mount::custom_bind::{
    apply_custom_bind_mounts_with, finish_bound_mount_with, registration_targets, validate_target_order,
    AppliedCustomBind, CustomBindKind, CustomBindMount,
};
use hybrid_mount::errors::{Error, Result};

fn bind(source: &str, target: &str) -> CustomBindMount {
    CustomBindMount { source: source.to_owned(), target: target.to_owned() }
}

fn applied(mount: &CustomBindMount) -> Result<AppliedCustomBind> {
    Ok(AppliedCustomBind { source: mount.source.clone(), target: mount.target.clone(), kind: CustomBindKind::File })
}

fn fail(message: &str) -> Error {
    Error::msg(message.to_owned())
}

#[test]
fn finish_failure_detaches_the_new_bind_and_preserves_errors() {
    let target = "/system/etc/hosts";
    let mut detached = Vec::new();

    let error = finish_bound_mount_with(
        target,
        || Err(fail("readonly remount failed")),
        |path: &str| {
            detached.push(path.to_owned());
            Err(fail("detach failed"))
        },
    )
    .unwrap_err();

    assert_eq!(detached, vec![target.to_owned()]);
    let chain = error.message();
    assert!(chain.contains("readonly remount failed"));
    assert!(chain.contains("detach failed"));
}

#[test]
fn finish_success_detaches_nothing() {
    let mut detached = 0;
    finish_bound_mount_with("/t", || Ok(()), |_: &str| {
        detached += 1;
        Ok(())
    })
    .unwrap();
    assert_eq!(detached, 0);
    let error = finish_bound_mount_with("/t", || Err(fail("remount failed")), |_: &str| Ok(())).unwrap_err();
    assert_eq!(error.message(), "remount failed");
}

#[test]
fn batch_failure_rolls_back_prior_binds_in_reverse_order() {
    let mounts = vec![bind("/source/one", "/target/one"), bind("/source/two", "/target/two"), bind("/source/three", "/target/three")];
    let mut count = 0usize;
    let mut detached = Vec::new();

    let error = apply_custom_bind_mounts_with(
        &mounts,
        false,
        |mount: &CustomBindMount| {
            count += 1;
            if count == 3 {
                return Err(fail("third bind failed"));
            }
            applied(mount)
        },
        |_: &str| Ok(()),
        |path: &str| {
            detached.push(path.to_owned());
            Ok(())
        },
    )
    .unwrap_err();

    assert!(error.message().contains("third bind failed"));
    assert_eq!(detached, vec!["/target/two".to_owned(), "/target/one".to_owned()]);
}

#[test]
fn duplicate_targets_are_rejected_before_any_mount_is_applied() {
    let mounts = vec![bind("/source/one", "/target/shared"), bind("/source/two", "/target/shared")];
    let mut apply_calls = 0usize;
    let mut registration_calls = 0usize;
    let mut detach_calls = 0usize;

    let error = apply_custom_bind_mounts_with(
        &mounts,
        false,
        |_: &CustomBindMount| -> Result<AppliedCustomBind> {
            apply_calls += 1;
            unreachable!("duplicate preflight must run before mounting")
        },
        |_: &str| {
            registration_calls += 1;
            Ok(())
        },
        |_: &str| {
            detach_calls += 1;
            Ok(())
        },
    )
    .unwrap_err();

    assert!(error.message().contains("duplicate custom bind target"));
    assert_eq!(apply_calls, 0);
    assert_eq!(registration_calls, 0);
    assert_eq!(detach_calls, 0);
}

#[test]
fn child_before_parent_is_rejected_before_any_mount_is_applied() {
    let mounts = vec![bind("/source/hosts", "/system/etc/hosts"), bind("/source/system", "/system")];
    let mut apply_calls = 0usize;

    let error = apply_custom_bind_mounts_with(
        &mounts,
        false,
        |_: &CustomBindMount| -> Result<AppliedCustomBind> {
            apply_calls += 1;
            unreachable!("target-order preflight must run before mounting")
        },
        |_: &str| -> Result<()> { unreachable!("registration cannot precede target-order validation") },
        |_: &str| -> Result<()> { unreachable!("no mount exists to detach after preflight failure") },
    )
    .unwrap_err();

    let chain = error.message();
    assert!(chain.contains("unsafe custom bind target order"));
    assert!(chain.contains("/system/etc/hosts"));
    assert!(chain.contains("/system"));
    assert_eq!(apply_calls, 0);
}

#[test]
fn parent_before_child_and_non_nested_targets_are_allowed() {
    let mounts = [
        bind("/source/system", "/system"),
        bind("/source/hosts", "/system/etc/hosts"),
        bind("/source/system-ext", "/system_ext"),
        bind("/source/vendor", "/vendor"),
    ];

    validate_target_order(&mounts).unwrap();
}

#[test]
fn batch_applies_in_config_order_then_registers_shallow_to_deep() {
    let targets = ["/vendor", "/vendor/etc", "/system", "/system/etc/hosts", "/system/bin"];
    let mounts = targets
        .iter()
        .enumerate()
        .map(|(index, target)| bind(&format!("/source/{index}"), target))
        .collect::<Vec<_>>();
    let mut applied_order = Vec::new();
    let mut registration_order = Vec::new();

    let result = apply_custom_bind_mounts_with(
        &mounts,
        false,
        |mount: &CustomBindMount| {
            applied_order.push(mount.target.clone());
            applied(mount)
        },
        |target: &str| {
            registration_order.push(target.to_owned());
            Ok(())
        },
        |_: &str| Ok(()),
    )
    .unwrap();

    assert_eq!(applied_order, targets.map(str::to_owned), "mount application must preserve config order");
    assert_eq!(result.len(), targets.len());
    assert_eq!(
        registration_order,
        ["/system", "/vendor", "/system/bin", "/vendor/etc", "/system/etc/hosts"].map(str::to_owned),
        "KernelSU reverses this list, yielding deep-to-shallow detach order"
    );
}

#[test]
fn registration_failure_rolls_back_batch_and_preserves_both_errors() {
    let mounts = [bind("/source/system", "/system"), bind("/source/hosts", "/system/etc/hosts"), bind("/source/vendor", "/vendor")];
    let mut registered = Vec::new();
    let mut detached = Vec::new();

    let error = apply_custom_bind_mounts_with(
        &mounts,
        false,
        applied,
        |target: &str| {
            registered.push(target.to_owned());
            if target == "/vendor" {
                return Err(fail("registration transport failed"));
            }
            Ok(())
        },
        |target: &str| {
            detached.push(target.to_owned());
            if target == "/system/etc/hosts" {
                return Err(fail("detach transport failed"));
            }
            Ok(())
        },
    )
    .unwrap_err();

    assert_eq!(registered, ["/system", "/vendor"].map(str::to_owned), "registration must not begin until all mounts have succeeded");
    assert_eq!(detached, ["/vendor", "/system/etc/hosts", "/system"].map(str::to_owned));
    let chain = error.message();
    assert!(chain.contains("failed to register custom bind target as umountable"));
    assert!(chain.contains("registration transport failed"));
    assert!(chain.contains("detach transport failed"));
}

#[test]
fn disabled_umount_skips_batch_registration() {
    let mounts = [bind("/source/one", "/target/one")];

    let result = apply_custom_bind_mounts_with(
        &mounts,
        true,
        applied,
        |_: &str| -> Result<()> { unreachable!("registration must be skipped when disable_umount is set") },
        |_: &str| Ok(()),
    )
    .unwrap();

    assert_eq!(result.len(), 1);
}

#[test]
fn registration_order_is_by_depth_then_path() {
    let list = [
        AppliedCustomBind { source: String::new(), target: "/system-x/a".to_owned(), kind: CustomBindKind::Directory },
        AppliedCustomBind { source: String::new(), target: "/system/a".to_owned(), kind: CustomBindKind::Directory },
        AppliedCustomBind { source: String::new(), target: "/z".to_owned(), kind: CustomBindKind::File },
    ];
    assert_eq!(registration_targets(&list), vec!["/z", "/system/a", "/system-x/a"]);
}

#[test]
fn misordered_targets_fail_before_anything_is_bound() {
    let mounts = vec![bind("/a", "/system/etc/hosts"), bind("/b", "/system/etc")];
    let mut calls = 0;
    let error = apply_custom_bind_mounts_with(
        &mounts,
        false,
        |mount: &CustomBindMount| {
            calls += 1;
            applied(mount)
        },
        |_: &str| Ok(()),
        |_: &str| Ok(()),
    )
    .unwrap_err();
    assert_eq!(calls, 0);
    assert!(error.message().starts_with("unsafe custom bind target order: later target /system/etc"));
    let empty = apply_custom_bind_mounts_with(&[], false, applied, |_: &str| Ok(()), |_: &str| Ok(())).unwrap();
    assert!(empty.is_empty());
}
