use hybrid_mount::sys::faults::FaultGates;

#[test]
fn gates_are_consumed_exactly_once() {
    let mut gates = FaultGates::new();
    gates.reset();
    gates.enable_next_overlay_mount_failure();

    assert!(gates.should_fail_next_overlay_mount());
    assert!(!gates.should_fail_next_overlay_mount());
    gates.reset();
}

#[test]
fn every_gate_is_consumed_exactly_once() {
    let mut gates = FaultGates::new();
    gates.reset();
    gates.enable_next_overlay_mount_failure();
    gates.enable_next_magic_mount_failure();
    gates.enable_ksu_commit_failure();
    gates.enable_state_save_failure();
    gates.enable_mountinfo_read_failure();
    gates.enable_next_unmount_ebusy_failure();
    gates.enable_staging_remove_failure();

    assert!(gates.should_fail_next_overlay_mount());
    assert!(gates.should_fail_next_magic_mount());
    assert!(gates.should_fail_ksu_commit());
    assert!(gates.should_fail_state_save());
    assert!(gates.should_fail_mountinfo_read());
    assert!(gates.should_fail_next_unmount_ebusy());
    assert!(gates.should_fail_staging_remove());

    assert!(!gates.should_fail_next_overlay_mount());
    assert!(!gates.should_fail_next_magic_mount());
    assert!(!gates.should_fail_ksu_commit());
    assert!(!gates.should_fail_state_save());
    assert!(!gates.should_fail_mountinfo_read());
    assert!(!gates.should_fail_next_unmount_ebusy());
    assert!(!gates.should_fail_staging_remove());
    gates.reset();
}

#[test]
fn overlay_failure_can_skip_successful_mounts() {
    let mut gates = FaultGates::new();
    gates.reset();
    gates.enable_overlay_mount_failure_after(2);

    assert!(!gates.should_fail_next_overlay_mount());
    assert!(!gates.should_fail_next_overlay_mount());
    assert!(gates.should_fail_next_overlay_mount());
    assert!(!gates.should_fail_next_overlay_mount());
    gates.reset();
}

#[test]
fn reset_clears_all_gates() {
    let mut gates = FaultGates::new();
    gates.enable_next_overlay_mount_failure();
    gates.enable_state_save_failure();
    gates.enable_next_unmount_ebusy_failure();

    gates.reset();

    assert!(!gates.should_fail_next_overlay_mount());
    assert!(!gates.should_fail_state_save());
    assert!(!gates.should_fail_next_unmount_ebusy());
}
