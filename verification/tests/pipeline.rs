use hybrid_mount::pipeline::{
    effective_mount_source, merge_active_mounts, overlay_mount_source, pipeline_stats, staged_overlay_path,
};
use hybrid_mount::pipeline::{mountinfo_mismatches, RollbackSummary};
use hybrid_mount::scanner::ModuleRecord;
use hybrid_mount::state::{MountStatistics, RunState};
use hybrid_mount::sys::mountinfo::MountSnapshot;

#[test]
fn pipeline_stats_aggregates_all_sources() {
    let stats = pipeline_stats(2, 3, 10, 4, 5, 6);

    assert_eq!(stats.overlayfs_mounts, 5);
    assert_eq!(stats.files_mounted, 10);
    assert_eq!(stats.symlinks_created, 4);
    assert_eq!(stats.ignored_entries, 5);
    assert_eq!(stats.total_mounts, 25);
    assert_eq!(stats.successful_mounts, 25);
}

#[test]
fn pipeline_stats_counts_magic_directory_mounts_in_total() {
    let stats = pipeline_stats(1, 0, 2, 0, 0, 3);

    assert_eq!(stats.total_mounts, 6);
    assert_eq!(stats.successful_mounts, 6);
    assert_eq!(stats.files_mounted, 2);
    assert_eq!(stats.symlinks_created, 0);
    assert_eq!(stats.overlayfs_mounts, 1);
}

#[test]
fn active_mounts_merge_backends_in_sorted_deduplicated_order() {
    let overlay = vec!["/vendor".to_owned(), "/system".to_owned()];
    let magic = vec!["/system".to_owned(), "/system/etc/hosts".to_owned()];
    let vfs = vec!["/system/etc/hosts".to_owned(), "/product/etc/build.prop".to_owned()];

    assert_eq!(
        merge_active_mounts(&overlay, &magic, &vfs),
        vec![
            "/product/etc/build.prop".to_owned(),
            "/system".to_owned(),
            "/system/etc/hosts".to_owned(),
            "/vendor".to_owned(),
        ]
    );
}

#[test]
fn vfs_targets_join_active_mounts_without_overlay_or_magic() {
    let vfs = vec!["/system/etc/hosts".to_owned(), "/system/etc/hosts".to_owned()];

    assert_eq!(merge_active_mounts(&[], &[], &vfs), vec!["/system/etc/hosts".to_owned()]);
}

fn module(id: &str, source_path: &str) -> ModuleRecord {
    ModuleRecord {
        id: id.to_owned(),
        name: "ADB".to_owned(),
        version: "1".to_owned(),
        author: "a".to_owned(),
        description: "d".to_owned(),
        disabled: false,
        skip_mount: false,
        has_mount_files: true,
        source_path: source_path.to_owned(),
        entries: Vec::new(),
    }
}

#[test]
fn overlay_sources_are_remapped_under_prepared_storage() {
    let staged = staged_overlay_path(
        "/data/adb/modules/adb-ndk/system/bin",
        &[module("adb-ndk", "/data/adb/modules/adb-ndk")],
        "/mnt/hm_test",
    )
    .unwrap();

    assert_eq!(staged, "/mnt/hm_test/adb-ndk/system/bin");
}

#[test]
fn staging_picks_the_deepest_module_and_refuses_foreign_sources() {
    let modules = [module("outer", "/data/adb/modules"), module("inner", "/data/adb/modules/inner")];
    assert_eq!(
        staged_overlay_path("/data/adb/modules/inner/system/x", &modules, "/mnt/hm/").unwrap(),
        "/mnt/hm/inner/system/x"
    );
    assert_eq!(
        staged_overlay_path("/data/adb/modules-other/x", &modules, "/mnt/hm").unwrap_err().message(),
        "overlay source is outside every scanned module: /data/adb/modules-other/x"
    );
}

#[test]
fn default_mount_source_follows_the_active_root_backend() {
    assert_eq!(effective_mount_source(true), "KSU");
    assert_eq!(effective_mount_source(false), "APatch");
}

#[test]
fn ignored_overlay_partition_uses_neutral_mount_source() {
    assert_eq!(overlay_mount_source("/system/lib", "KSU"), "overlay");
    assert_eq!(overlay_mount_source("/vendor/lib64", "APatch"), "overlay");
}

#[test]
fn regular_overlay_partition_keeps_backend_mount_source() {
    assert_eq!(overlay_mount_source("/system", "KSU"), "KSU");
    assert_eq!(overlay_mount_source("/product", "APatch"), "APatch");
}

fn records(items: &[(&str, i32)]) -> MountSnapshot {
    MountSnapshot::from_records(items.iter().map(|(p, id)| ((*p).to_owned(), *id)).collect())
}

#[test]
fn rollback_mismatches_list_leftover_and_removed_mounts() {
    let baseline = records(&[("/system", 10), ("/system/etc", 11), ("/vendor", 20)]);
    let current = records(&[("/system", 10), ("/system", 90), ("/system/bin", 91), ("/vendor", 20)]);
    let (leftover, missing) = mountinfo_mismatches(&baseline, &current, &["/system".to_owned()]);
    assert_eq!(leftover, vec!["/system".to_owned(), "/system/bin".to_owned()]);
    assert_eq!(missing, vec!["/system/etc".to_owned()]);
}

#[test]
fn clean_rollback_leaves_no_mismatch() {
    let baseline = records(&[("/system", 10), ("/system/etc", 11)]);
    let current = records(&[("/system/etc", 11), ("/system", 10)]);
    let (leftover, missing) =
        mountinfo_mismatches(&baseline, &current, &["/system".to_owned(), "/system/etc".to_owned()]);
    assert!(leftover.is_empty());
    assert!(missing.is_empty());
}

#[test]
fn rollback_summary_is_clean_only_without_failures_or_mismatches() {
    let clean = RollbackSummary::from_outcome(0, Some((Vec::new(), Vec::new())));
    assert_eq!(clean.status, "clean");
    let failed = RollbackSummary::from_outcome(1, Some((Vec::new(), Vec::new())));
    assert_eq!(failed.status, "incomplete");
    let leftover = RollbackSummary::from_outcome(0, Some((vec!["/system".to_owned()], Vec::new())));
    assert_eq!(leftover.status, "incomplete");
    assert_eq!(leftover.leftover_targets, vec!["/system".to_owned()]);
    let removed = RollbackSummary::from_outcome(0, Some((Vec::new(), vec!["/vendor".to_owned()])));
    assert_eq!(removed.status, "incomplete");
    assert!(removed.leftover_targets.is_empty());
    assert_eq!(RollbackSummary::from_outcome(0, None).status, "unverified");
    assert_eq!(
        RollbackSummary::after_commit_failure(Some((Vec::new(), Vec::new()))).status,
        "incomplete"
    );
}

#[test]
fn failed_pipeline_state_claims_no_mount() {
    let mut state = RunState::blank();
    state.mount_point = "/mnt/x".to_owned();
    state.active_mounts = vec!["/system".to_owned()];
    state.overlay_modules = vec!["m".to_owned()];
    let rollback = RollbackSummary::incomplete(vec!["/system/bin".to_owned()]);
    state.record_mount_failure("mount_execution", &rollback);

    assert!(state.mount_point.is_empty());
    assert!(state.active_mounts.is_empty());
    assert_eq!(state.mount_stats.total_mounts, 1);
    assert_eq!(state.mount_stats.failed_mounts, 1);
    assert_eq!(state.mount_stats.successful_mounts, 0);
    assert_eq!(state.failed_stage.as_deref(), Some("mount_execution"));
    assert_eq!(state.rollback_status.as_deref(), Some("incomplete"));
    assert_eq!(state.leftover_mount_targets, vec!["/system/bin".to_owned()]);
    assert_eq!(state.overlay_modules, vec!["m".to_owned()]);
}

#[test]
fn confirmed_mounts_become_the_pending_state() {
    let mut state = RunState::blank();
    state.mount_point = "/mnt/x".to_owned();
    state.failed_stage = Some("old".to_owned());
    state.record_mount_success(
        vec!["/vendor".to_owned()],
        vec!["/system".to_owned(), "/vendor".to_owned()],
        vec!["/system/etc/hosts".to_owned()],
        MountStatistics::zero(),
        vec!["b".to_owned(), "a".to_owned(), "b".to_owned()],
        false,
    );
    assert_eq!(
        state.active_mounts,
        vec!["/system".to_owned(), "/system/etc/hosts".to_owned(), "/vendor".to_owned()]
    );
    assert_eq!(state.confirmed_active_mounts, state.active_mounts);
    assert_eq!(
        state.mount_error_reasons,
        vec![
            ("a".to_owned(), "mount_error marker present".to_owned()),
            ("b".to_owned(), "mount_error marker present".to_owned()),
        ]
    );
    assert_eq!(state.rollback_status.as_deref(), Some("pending_commit"));
    assert!(state.failed_stage.is_none());
    assert!(state.mount_point.is_empty());

    state.record_commit();
    assert_eq!(state.rollback_status.as_deref(), Some("committed"));
}

#[test]
fn disabled_unmount_keeps_the_storage_mount_point() {
    let mut state = RunState::blank();
    state.mount_point = "/mnt/x".to_owned();
    state.record_mount_success(Vec::new(), Vec::new(), Vec::new(), MountStatistics::zero(), Vec::new(), true);
    assert_eq!(state.mount_point, "/mnt/x");
}
