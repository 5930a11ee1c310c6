use hybrid_mount::mount_flow::{
    mount_step, vfs_step, ApplyOutcome, FailureStage, MountAction, MountEvent, MountPhase, PipelineState,
    ProviderProbe, ReadBack, ReadBackVerdict, VfsAction, VfsEvent, VfsFailure, VfsPhase, VfsResult, VfsState,
};

fn vfs_run(strict: bool, events: &[VfsEvent]) -> Vec<VfsAction> {
    let mut state = VfsState { phase: VfsPhase::Start, strict };
    let mut actions = Vec::new();
    for event in events {
        let (next, action) = vfs_step(&state, event);
        state = next;
        actions.push(action);
    }
    actions
}

fn run_all_successful(mut state: PipelineState) -> Vec<MountAction> {
    let mut actions = Vec::new();
    let (next, action) = mount_step(&state, &MountEvent::Begin);
    state = next;
    actions.push(action);
    while state.phase != MountPhase::Finished {
        let (next, action) = mount_step(&state, &MountEvent::Succeeded);
        state = next;
        actions.push(action);
    }
    actions
}

#[test]
fn full_run_mounts_overlay_then_magic_then_vfs() {
    let actions = run_all_successful(PipelineState::new(true, true, true));
    assert_eq!(
        actions,
        vec![
            MountAction::SetupStorage,
            MountAction::StageMagic,
            MountAction::MountOverlays,
            MountAction::MountMagic,
            MountAction::ApplyVfs,
            MountAction::CommitUnmountList,
            MountAction::ConfirmMounts,
            MountAction::SaveSnapshot,
            MountAction::SaveState,
            MountAction::CommitTransaction,
            MountAction::SaveCommittedState,
            MountAction::ReportSuccess,
        ]
    );
}

#[test]
fn vfs_only_run_records_no_storage_and_skips_magic_staging() {
    let actions = run_all_successful(PipelineState::new(false, false, true));
    assert_eq!(actions[0], MountAction::RecordNoStorage);
    assert_eq!(actions[1], MountAction::MountOverlays);
    assert_eq!(actions[2], MountAction::MountMagic);
    assert_eq!(actions[3], MountAction::ApplyVfs);
    assert!(!actions.contains(&MountAction::StageMagic));
}

#[test]
fn run_without_vfs_modules_never_applies_vfs() {
    let actions = run_all_successful(PipelineState::new(true, false, false));
    assert!(!actions.contains(&MountAction::ApplyVfs));
    assert_eq!(actions.last(), Some(&MountAction::ReportSuccess));
}

#[test]
fn overlay_failure_rolls_back_as_mount_execution() {
    let state = PipelineState { phase: MountPhase::Overlay, ..PipelineState::new(true, true, true) };
    let (next, action) = mount_step(&state, &MountEvent::Failed);
    assert_eq!(next.phase, MountPhase::Failed);
    assert_eq!(action, MountAction::RollbackAndRecord(FailureStage::MountExecution));
    assert_eq!(FailureStage::MountExecution.as_str(), "mount_execution");
}

#[test]
fn failures_after_mounting_name_their_stage() {
    let base = PipelineState::new(true, false, false);
    let cases = [
        (MountPhase::Confirm, MountAction::RollbackAndRecord(FailureStage::MountinfoConfirm), "mountinfo_confirm"),
        (MountPhase::Snapshot, MountAction::RollbackAndRecord(FailureStage::ModuleSnapshotSave), "module_snapshot_save"),
        (MountPhase::StateSave, MountAction::RollbackAndRecord(FailureStage::StateSave), "state_save"),
        (MountPhase::Commit, MountAction::VerifyAndRecord(FailureStage::MountTransactionCommit), "mount_transaction_commit"),
    ];
    for (phase, expected, name) in cases {
        let (next, action) = mount_step(&PipelineState { phase, ..base }, &MountEvent::Failed);
        assert_eq!(next.phase, MountPhase::Failed);
        assert_eq!(action, expected);
        match action {
            MountAction::RollbackAndRecord(stage) | MountAction::VerifyAndRecord(stage) => assert_eq!(stage.as_str(), name),
            _ => unreachable!(),
        }
    }
}

#[test]
fn failed_committed_state_save_keeps_the_mounts() {
    let state = PipelineState { phase: MountPhase::CommittedStateSave, ..PipelineState::new(true, true, false) };
    let (next, action) = mount_step(&state, &MountEvent::Failed);
    assert_eq!(next.phase, MountPhase::Finished);
    assert_eq!(action, MountAction::ReportSuccess);
}

#[test]
fn ended_runs_take_no_further_action() {
    for phase in [MountPhase::Failed, MountPhase::Finished] {
        let state = PipelineState { phase, ..PipelineState::new(true, true, true) };
        for event in [MountEvent::Begin, MountEvent::Succeeded, MountEvent::Failed] {
            assert_eq!(mount_step(&state, &event), (state, MountAction::Stop));
        }
    }
}

#[test]
fn vfs_phase_publishes_after_guard_and_provider() {
    let actions = vfs_run(
        false,
        &[
            VfsEvent::Begin(true),
            VfsEvent::GuardChecked(false),
            VfsEvent::Armed(true),
            VfsEvent::Probed(ProviderProbe::Attached),
            VfsEvent::Planned(true),
            VfsEvent::Applied(ApplyOutcome::Applied),
            VfsEvent::Listed(ReadBack::Complete),
        ],
    );
    assert_eq!(
        actions,
        vec![
            VfsAction::CheckGuard,
            VfsAction::ArmGuard,
            VfsAction::ProbeProvider,
            VfsAction::PlanRules,
            VfsAction::ApplyRules,
            VfsAction::RecordProviderAndList,
            VfsAction::Finish(VfsResult::Active),
        ]
    );
}

#[test]
fn vfs_phase_skips_without_modules_or_after_a_failed_boot() {
    assert_eq!(vfs_run(true, &[VfsEvent::Begin(false)]), vec![VfsAction::Finish(VfsResult::Skipped)]);
    assert_eq!(
        vfs_run(true, &[VfsEvent::Begin(true), VfsEvent::GuardChecked(true)]),
        vec![VfsAction::CheckGuard, VfsAction::Finish(VfsResult::Skipped)]
    );
}

#[test]
fn missing_provider_fails_only_when_strict() {
    let events = [VfsEvent::Begin(true), VfsEvent::GuardChecked(false), VfsEvent::Armed(true), VfsEvent::Probed(ProviderProbe::Missing)];
    assert_eq!(vfs_run(false, &events)[3], VfsAction::Finish(VfsResult::Skipped));
    assert_eq!(vfs_run(true, &events)[3], VfsAction::Finish(VfsResult::Failed(VfsFailure::Unavailable)));
    let foreign = [VfsEvent::Begin(true), VfsEvent::GuardChecked(false), VfsEvent::Armed(true), VfsEvent::Probed(ProviderProbe::ForeignNomount)];
    assert_eq!(vfs_run(false, &foreign)[3], VfsAction::Finish(VfsResult::Skipped));
    assert_eq!(vfs_run(true, &foreign)[3], VfsAction::Finish(VfsResult::Failed(VfsFailure::NotAttached)));
}

#[test]
fn partial_read_back_removes_the_rules_before_the_verdict() {
    let start = [
        VfsEvent::Begin(true),
        VfsEvent::GuardChecked(false),
        VfsEvent::Armed(true),
        VfsEvent::Probed(ProviderProbe::Attached),
        VfsEvent::Planned(true),
        VfsEvent::Applied(ApplyOutcome::Applied),
        VfsEvent::Listed(ReadBack::Missing),
    ];
    let mut degrade = start.to_vec();
    degrade.push(VfsEvent::Cleaned(true));
    degrade.push(VfsEvent::Evaluated(ReadBackVerdict::Degrade));
    let actions = vfs_run(false, &degrade);
    assert_eq!(actions[6], VfsAction::RemoveRules);
    assert_eq!(actions[7], VfsAction::EvaluateReadBack);
    assert_eq!(actions[8], VfsAction::Finish(VfsResult::Inactive));
    let mut broken = start.to_vec();
    broken.push(VfsEvent::Cleaned(false));
    assert_eq!(vfs_run(false, &broken)[7], VfsAction::Finish(VfsResult::Failed(VfsFailure::Protocol)));
}

#[test]
fn degraded_batch_is_cleared_and_skipped() {
    let actions = vfs_run(
        true,
        &[
            VfsEvent::Begin(true),
            VfsEvent::GuardChecked(false),
            VfsEvent::Armed(true),
            VfsEvent::Probed(ProviderProbe::Attached),
            VfsEvent::Planned(true),
            VfsEvent::Applied(ApplyOutcome::Degraded),
            VfsEvent::Begin(true),
        ],
    );
    assert_eq!(actions[5], VfsAction::ClearDegraded);
    assert_eq!(actions[6], VfsAction::Stop);
}
