//! The order of the boot mount run, as a state machine.
//!
//! The caller performs each action (create the overlay storage, mount the
//! overlays, save the state, ...) and hands the outcome back as the next
//! event; the machine decides what comes next and what a failure costs.
use vstd::prelude::*;

verus! {

/// Where the mount run stands.
#[derive(Debug, Clone, Copy, PartialEq, Eq, Structural)]
pub enum MountPhase {
    /// Planned and saved, nothing mounted yet.
    Ready,
    /// Creating the overlay storage, or recording that none is needed.
    Storage,
    /// Mounting the private tmpfs the Magic Mount tree is built in.
    MagicStaging,
    /// Mounting the OverlayFS operations.
    Overlay,
    /// Running the Magic Mount tree.
    Magic,
    /// Publishing the VFS redirection rules.
    Vfs,
    /// Handing the try-umount list to the root manager.
    UnmountList,
    /// Reading the mount table back to confirm what was mounted.
    Confirm,
    /// Writing the module snapshot.
    Snapshot,
    /// Saving the run state before the commit.
    StateSave,
    /// Committing the mount transaction.
    Commit,
    /// Saving the run state as committed.
    CommittedStateSave,
    /// The run ended with its mounts in place.
    Finished,
    /// The run ended in failure.
    Failed,
}

/// The stage a failed run reports, as the run state records it.
#[derive(Debug, Clone, Copy, PartialEq, Eq, Structural)]
pub enum FailureStage {
    MountExecution,
    MountinfoConfirm,
    ModuleSnapshotSave,
    StateSave,
    MountTransactionCommit,
}

/// The name a stage is recorded under.
pub open spec fn stage_name(stage: FailureStage) -> Seq<char> {
    match stage {
        FailureStage::MountExecution => "mount_execution"@,
        FailureStage::MountinfoConfirm => "mountinfo_confirm"@,
        FailureStage::ModuleSnapshotSave => "module_snapshot_save"@,
        FailureStage::StateSave => "state_save"@,
        FailureStage::MountTransactionCommit => "mount_transaction_commit"@,
    }
}

impl FailureStage {
    /// The name this stage is recorded under in the run state.
    pub fn as_str(&self) -> (r: &'static str)
        ensures
            r@ == stage_name(*self),
    {
        match self {
            FailureStage::MountExecution => "mount_execution",
            FailureStage::MountinfoConfirm => "mountinfo_confirm",
            FailureStage::ModuleSnapshotSave => "module_snapshot_save",
            FailureStage::StateSave => "state_save",
            FailureStage::MountTransactionCommit => "mount_transaction_commit",
        }
    }
}

/// What the caller does next.
#[derive(Debug, Clone, Copy, PartialEq, Eq, Structural)]
pub enum MountAction {
    /// Create and mount the overlay storage and stage the overlay sources.
    SetupStorage,
    /// Record that no overlay storage was created (`none`).
    RecordNoStorage,
    /// Mount the Magic Mount staging tmpfs.
    StageMagic,
    /// Mount every OverlayFS operation of the plan.
    MountOverlays,
    /// Run the Magic Mount tree of the plan.
    MountMagic,
    /// Publish the VFS rules of the plan.
    ApplyVfs,
    /// Commit the root manager's try-umount list.
    CommitUnmountList,
    /// Read the mount table and keep the confirmed targets.
    ConfirmMounts,
    /// Write the module snapshot with the confirmed modules.
    SaveSnapshot,
    /// Save the run state, marked `pending_commit`.
    SaveState,
    /// Commit the mount transaction.
    CommitTransaction,
    /// Save the run state, marked `committed`.
    SaveCommittedState,
    /// Update the module description and report success.
    ReportSuccess,
    /// Roll every registered mount back, then record the failure at `stage`.
    RollbackAndRecord(FailureStage),
    /// The transaction already unwound itself: compare the mount table with
    /// the baseline and record the failure at `stage`.
    VerifyAndRecord(FailureStage),
    /// Nothing more to do.
    Stop,
}

/// What the last action gave.
#[derive(Debug, Clone, Copy, PartialEq, Eq, Structural)]
pub enum MountEvent {
    /// Start the run.
    Begin,
    /// The action succeeded.
    Succeeded,
    /// The action failed.
    Failed,
}

/// The run's state: its phase and what the plan needs.
#[derive(Debug, Clone, Copy, PartialEq, Eq, Structural)]
pub struct PipelineState {
    pub phase: MountPhase,
    /// The plan has OverlayFS operations or file-level overlays.
    pub needs_overlay_storage: bool,
    /// The plan has Magic Mount modules.
    pub has_magic_modules: bool,
    /// The plan has VFS modules.
    pub has_vfs_modules: bool,
}

/// The phase after `phase` on success, skipping the phases the plan does not need.
pub open spec fn next_phase(s: PipelineState) -> MountPhase {
    match s.phase {
        MountPhase::Ready => MountPhase::Storage,
        MountPhase::Storage => if s.has_magic_modules {
            MountPhase::MagicStaging
        } else {
            MountPhase::Overlay
        },
        MountPhase::MagicStaging => MountPhase::Overlay,
        MountPhase::Overlay => MountPhase::Magic,
        MountPhase::Magic => if s.has_vfs_modules {
            MountPhase::Vfs
        } else {
            MountPhase::UnmountList
        },
        MountPhase::Vfs => MountPhase::UnmountList,
        MountPhase::UnmountList => MountPhase::Confirm,
        MountPhase::Confirm => MountPhase::Snapshot,
        MountPhase::Snapshot => MountPhase::StateSave,
        MountPhase::StateSave => MountPhase::Commit,
        MountPhase::Commit => MountPhase::CommittedStateSave,
        MountPhase::CommittedStateSave => MountPhase::Finished,
        MountPhase::Finished => MountPhase::Finished,
        MountPhase::Failed => MountPhase::Failed,
    }
}

/// The action that entering `phase` asks for.
pub open spec fn entry_action(s: PipelineState, phase: MountPhase) -> MountAction {
    match phase {
        MountPhase::Storage => if s.needs_overlay_storage {
            MountAction::SetupStorage
        } else {
            MountAction::RecordNoStorage
        },
        MountPhase::MagicStaging => MountAction::StageMagic,
        MountPhase::Overlay => MountAction::MountOverlays,
        MountPhase::Magic => MountAction::MountMagic,
        MountPhase::Vfs => MountAction::ApplyVfs,
        MountPhase::UnmountList => MountAction::CommitUnmountList,
        MountPhase::Confirm => MountAction::ConfirmMounts,
        MountPhase::Snapshot => MountAction::SaveSnapshot,
        MountPhase::StateSave => MountAction::SaveState,
        MountPhase::Commit => MountAction::CommitTransaction,
        MountPhase::CommittedStateSave => MountAction::SaveCommittedState,
        MountPhase::Finished => MountAction::ReportSuccess,
        _ => MountAction::Stop,
    }
}

/// What a failure in `phase` costs: the mount phases and the saves before the
/// commit roll everything back; a failed commit has unwound itself and is
/// only checked; a failed save after the commit leaves the mounts in place.
pub open spec fn failure_action(phase: MountPhase) -> Option<MountAction> {
    match phase {
        MountPhase::Storage | MountPhase::MagicStaging | MountPhase::Overlay | MountPhase::Magic
        | MountPhase::Vfs | MountPhase::UnmountList => Some(
            MountAction::RollbackAndRecord(FailureStage::MountExecution),
        ),
        MountPhase::Confirm => Some(MountAction::RollbackAndRecord(FailureStage::MountinfoConfirm)),
        MountPhase::Snapshot => Some(MountAction::RollbackAndRecord(FailureStage::ModuleSnapshotSave)),
        MountPhase::StateSave => Some(MountAction::RollbackAndRecord(FailureStage::StateSave)),
        MountPhase::Commit => Some(MountAction::VerifyAndRecord(FailureStage::MountTransactionCommit)),
        _ => None,
    }
}

/// One step of the run.
pub open spec fn spec_mount_step(s: PipelineState, e: MountEvent) -> (PipelineState, MountAction) {
    match (s.phase, e) {
        (MountPhase::Ready, MountEvent::Begin) => {
            let n = PipelineState { phase: MountPhase::Storage, ..s };
            (n, entry_action(s, MountPhase::Storage))
        },
        (MountPhase::Finished, _) | (MountPhase::Failed, _) | (MountPhase::Ready, _) | (_, MountEvent::Begin) => (s, MountAction::Stop),
        (MountPhase::CommittedStateSave, _) => (
            PipelineState { phase: MountPhase::Finished, ..s },
            MountAction::ReportSuccess,
        ),
        (_, MountEvent::Succeeded) => {
            let next = next_phase(s);
            (PipelineState { phase: next, ..s }, entry_action(s, next))
        },
        (phase, MountEvent::Failed) => (
            PipelineState { phase: MountPhase::Failed, ..s },
            failure_action(phase).unwrap(),
        ),
    }
}

impl PipelineState {
    /// A run that has planned and saved its state; `needs_overlay_storage`
    /// when the plan has overlay operations or file-level overlays.
    pub fn new(needs_overlay_storage: bool, has_magic_modules: bool, has_vfs_modules: bool) -> (s: PipelineState)
        ensures
            s == (PipelineState { phase: MountPhase::Ready, needs_overlay_storage, has_magic_modules, has_vfs_modules }),
    {
        PipelineState { phase: MountPhase::Ready, needs_overlay_storage, has_magic_modules, has_vfs_modules }
    }
}

fn successor(s: &PipelineState) -> (p: MountPhase)
    ensures
        p == next_phase(*s),
{
    match s.phase {
        MountPhase::Ready => MountPhase::Storage,
        MountPhase::Storage => if s.has_magic_modules {
            MountPhase::MagicStaging
        } else {
            MountPhase::Overlay
        },
        MountPhase::MagicStaging => MountPhase::Overlay,
        MountPhase::Overlay => MountPhase::Magic,
        MountPhase::Magic => if s.has_vfs_modules {
            MountPhase::Vfs
        } else {
            MountPhase::UnmountList
        },
        MountPhase::Vfs => MountPhase::UnmountList,
        MountPhase::UnmountList => MountPhase::Confirm,
        MountPhase::Confirm => MountPhase::Snapshot,
        MountPhase::Snapshot => MountPhase::StateSave,
        MountPhase::StateSave => MountPhase::Commit,
        MountPhase::Commit => MountPhase::CommittedStateSave,
        MountPhase::CommittedStateSave => MountPhase::Finished,
        MountPhase::Finished => MountPhase::Finished,
        MountPhase::Failed => MountPhase::Failed,
    }
}

fn action_on_entry(s: &PipelineState, phase: MountPhase) -> (a: MountAction)
    ensures
        a == entry_action(*s, phase),
{
    match phase {
        MountPhase::Storage => if s.needs_overlay_storage {
            MountAction::SetupStorage
        } else {
            MountAction::RecordNoStorage
        },
        MountPhase::MagicStaging => MountAction::StageMagic,
        MountPhase::Overlay => MountAction::MountOverlays,
        MountPhase::Magic => MountAction::MountMagic,
        MountPhase::Vfs => MountAction::ApplyVfs,
        MountPhase::UnmountList => MountAction::CommitUnmountList,
        MountPhase::Confirm => MountAction::ConfirmMounts,
        MountPhase::Snapshot => MountAction::SaveSnapshot,
        MountPhase::StateSave => MountAction::SaveState,
        MountPhase::Commit => MountAction::CommitTransaction,
        MountPhase::CommittedStateSave => MountAction::SaveCommittedState,
        MountPhase::Finished => MountAction::ReportSuccess,
        _ => MountAction::Stop,
    }
}

/// Decides the next phase and action from the outcome of the last action.
pub fn mount_step(state: &PipelineState, event: &MountEvent) -> (r: (PipelineState, MountAction))
    ensures
        r == spec_mount_step(*state, *event),
{
    let s = *state;
    match (s.phase, *event) {
        (MountPhase::Ready, MountEvent::Begin) => {
            let n = PipelineState { phase: MountPhase::Storage, ..s };
            (n, action_on_entry(&s, MountPhase::Storage))
        },
        (MountPhase::Finished, _) | (MountPhase::Failed, _) | (MountPhase::Ready, _) | (_, MountEvent::Begin) => (s, MountAction::Stop),
        (MountPhase::CommittedStateSave, _) => (
            PipelineState { phase: MountPhase::Finished, ..s },
            MountAction::ReportSuccess,
        ),
        (_, MountEvent::Succeeded) => {
            let next = successor(&s);
            (PipelineState { phase: next, ..s }, action_on_entry(&s, next))
        },
        (phase, MountEvent::Failed) => {
            let action = match phase {
                MountPhase::Confirm => MountAction::RollbackAndRecord(FailureStage::MountinfoConfirm),
                MountPhase::Snapshot => MountAction::RollbackAndRecord(FailureStage::ModuleSnapshotSave),
                MountPhase::StateSave => MountAction::RollbackAndRecord(FailureStage::StateSave),
                MountPhase::Commit => MountAction::VerifyAndRecord(FailureStage::MountTransactionCommit),
                _ => MountAction::RollbackAndRecord(FailureStage::MountExecution),
            };
            (PipelineState { phase: MountPhase::Failed, ..s }, action)
        },
    }
}

/// The actions a run takes when every action succeeds, from `s` on, for `n` steps.
pub open spec fn successful_actions(s: PipelineState, n: nat) -> Seq<MountAction>
    decreases n,
{
    if n == 0 {
        Seq::empty()
    } else {
        let (t, a) = spec_mount_step(s, MountEvent::Succeeded);
        seq![a] + successful_actions(t, (n - 1) as nat)
    }
}

/// A run whose every action succeeds mounts in a fixed order: the overlay
/// storage (or its absence is recorded), the Magic Mount staging when Magic
/// Mount modules exist, the overlays, the Magic Mount tree, the VFS rules when
/// VFS modules exist, then the try-umount list, the confirmation, the
/// snapshot, the pending and committed saves around the commit, and success.
pub proof fn successful_run_order(needs_overlay_storage: bool, has_magic_modules: bool, has_vfs_modules: bool)
    ensures
        ({
            let s0 = PipelineState { phase: MountPhase::Ready, needs_overlay_storage, has_magic_modules, has_vfs_modules };
            let (s1, first) = spec_mount_step(s0, MountEvent::Begin);
            let storage = if needs_overlay_storage { MountAction::SetupStorage } else { MountAction::RecordNoStorage };
            let staging = if has_magic_modules { seq![MountAction::StageMagic] } else { Seq::empty() };
            let vfs = if has_vfs_modules { seq![MountAction::ApplyVfs] } else { Seq::empty() };
            let rest = seq![MountAction::CommitUnmountList, MountAction::ConfirmMounts, MountAction::SaveSnapshot,
                MountAction::SaveState, MountAction::CommitTransaction, MountAction::SaveCommittedState,
                MountAction::ReportSuccess];
            let expected = staging + seq![MountAction::MountOverlays, MountAction::MountMagic] + vfs + rest;
            &&& first == storage
            &&& successful_actions(s1, expected.len()) == expected
        }),
{
    let s1 = PipelineState { phase: MountPhase::Storage, needs_overlay_storage, has_magic_modules, has_vfs_modules };
    let staging = if has_magic_modules { seq![MountAction::StageMagic] } else { Seq::empty() };
    let vfs = if has_vfs_modules { seq![MountAction::ApplyVfs] } else { Seq::empty() };
    let rest = seq![MountAction::CommitUnmountList, MountAction::ConfirmMounts, MountAction::SaveSnapshot,
        MountAction::SaveState, MountAction::CommitTransaction, MountAction::SaveCommittedState,
        MountAction::ReportSuccess];
    let tail = seq![MountAction::MountMagic] + vfs + rest;
    let s_overlay = PipelineState { phase: MountPhase::Overlay, ..s1 };
    let s_magic = PipelineState { phase: MountPhase::Magic, ..s1 };
    let s_list = PipelineState { phase: MountPhase::UnmountList, ..s1 };
    lemma_tail_from_unmount_list(s_list);
    if has_vfs_modules {
        let s_vfs = PipelineState { phase: MountPhase::Vfs, ..s1 };
        assert(successful_actions(s_vfs, rest.len()) == rest) by {
            reveal_with_fuel(successful_actions, 2);
            assert(successful_actions(s_vfs, rest.len()) =~= seq![rest[0]] + successful_actions(s_list, (rest.len() - 1) as nat));
            assert(successful_actions(s_list, (rest.len() - 1) as nat) =~= rest.drop_first());
            assert(seq![rest[0]] + rest.drop_first() =~= rest);
        }
        assert(successful_actions(s_magic, (vfs + rest).len()) =~= vfs + rest) by {
            reveal_with_fuel(successful_actions, 2);
            assert(successful_actions(s_magic, (vfs + rest).len()) =~= seq![MountAction::ApplyVfs] + successful_actions(s_vfs, rest.len()));
        }
    } else {
        assert(successful_actions(s_magic, (vfs + rest).len()) =~= vfs + rest) by {
            reveal_with_fuel(successful_actions, 2);
            assert(vfs + rest =~= rest);
            assert(successful_actions(s_magic, rest.len()) =~= seq![rest[0]] + successful_actions(s_list, (rest.len() - 1) as nat));
            assert(successful_actions(s_list, (rest.len() - 1) as nat) =~= rest.drop_first());
            assert(seq![rest[0]] + rest.drop_first() =~= rest);
        }
    }
    assert(successful_actions(s_overlay, tail.len()) =~= tail) by {
        reveal_with_fuel(successful_actions, 2);
        assert(successful_actions(s_overlay, tail.len()) =~= seq![MountAction::MountMagic] + successful_actions(s_magic, (vfs + rest).len()));
    }
    let overlays = seq![MountAction::MountOverlays] + tail;
    let expected = staging + seq![MountAction::MountOverlays, MountAction::MountMagic] + vfs + rest;
    assert(expected =~= staging + overlays);
    if has_magic_modules {
        let s_stage = PipelineState { phase: MountPhase::MagicStaging, ..s1 };
        assert(successful_actions(s_stage, overlays.len()) =~= overlays) by {
            reveal_with_fuel(successful_actions, 2);
            assert(successful_actions(s_stage, overlays.len()) =~= seq![MountAction::MountOverlays] + successful_actions(s_overlay, tail.len()));
        }
        assert(successful_actions(s1, expected.len()) =~= expected) by {
            reveal_with_fuel(successful_actions, 2);
            assert(successful_actions(s1, expected.len()) =~= seq![MountAction::StageMagic] + successful_actions(s_stage, overlays.len()));
        }
    } else {
        assert(successful_actions(s1, expected.len()) =~= expected) by {
            reveal_with_fuel(successful_actions, 2);
            assert(successful_actions(s1, expected.len()) =~= seq![MountAction::MountOverlays] + successful_actions(s_overlay, tail.len()));
        }
    }
}

proof fn lemma_tail_from_unmount_list(s: PipelineState)
    requires
        s.phase == MountPhase::UnmountList,
    ensures
        successful_actions(s, 6) == seq![MountAction::ConfirmMounts, MountAction::SaveSnapshot,
            MountAction::SaveState, MountAction::CommitTransaction, MountAction::SaveCommittedState,
            MountAction::ReportSuccess],
{
    reveal_with_fuel(successful_actions, 7);
    assert(successful_actions(s, 6) =~= seq![MountAction::ConfirmMounts, MountAction::SaveSnapshot,
            MountAction::SaveState, MountAction::CommitTransaction, MountAction::SaveCommittedState,
            MountAction::ReportSuccess]);
}

/// A failure before the commit always ends the run with a rollback, and a
/// failed run takes no further action whatever it is told.
pub proof fn failure_rolls_back(s: PipelineState, e: MountEvent)
    ensures
        ({
            let (t, a) = spec_mount_step(s, MountEvent::Failed);
            match s.phase {
                MountPhase::Storage | MountPhase::MagicStaging | MountPhase::Overlay | MountPhase::Magic
                | MountPhase::Vfs | MountPhase::UnmountList | MountPhase::Confirm | MountPhase::Snapshot
                | MountPhase::StateSave => t.phase == MountPhase::Failed && a is RollbackAndRecord,
                _ => true,
            }
        }),
        s.phase == MountPhase::Failed ==> spec_mount_step(s, e) == (s, MountAction::Stop),
{
}

/// Where the VFS phase of a run stands.
#[derive(Debug, Clone, Copy, PartialEq, Eq, Structural)]
pub enum VfsPhase {
    Start,
    Guard,
    Arm,
    Provider,
    Plan,
    Apply,
    ReadBack,
    Cleanup,
    Evaluate,
    Done,
}

/// What probing the kernel for a VFS provider found.
#[derive(Debug, Clone, Copy, PartialEq, Eq, Structural)]
pub enum ProviderProbe {
    /// A supported provider is attached.
    Attached,
    /// No provider answered.
    Missing,
    /// A provider of an unsupported protocol version answered.
    UnsupportedVersion,
    /// A foreign NoMount provider holds the interface.
    ForeignNomount,
    /// The probe itself failed.
    Broken,
}

/// What publishing the batch gave.
#[derive(Debug, Clone, Copy, PartialEq, Eq, Structural)]
pub enum ApplyOutcome {
    /// The kernel acknowledged the batch.
    Applied,
    /// The policy rolled the batch back inline and degraded.
    Degraded,
    /// Publishing failed.
    Failed,
}

/// What reading the rule table back gave.
#[derive(Debug, Clone, Copy, PartialEq, Eq, Structural)]
pub enum ReadBack {
    /// The table could not be listed; the rules were applied all the same.
    ListFailed,
    /// Every planned rule is installed.
    Complete,
    /// Some planned rules are missing.
    Missing,
}

/// What the read-back policy decided about missing rules.
#[derive(Debug, Clone, Copy, PartialEq, Eq, Structural)]
pub enum ReadBackVerdict {
    /// Keep VFS active.
    Keep,
    /// Mark VFS inactive for this boot.
    Degrade,
    /// Fail the run.
    Fail,
}

/// The outcome of one step of the VFS phase.
#[derive(Debug, Clone, Copy, PartialEq, Eq, Structural)]
pub enum VfsEvent {
    /// Start, for a plan with or without VFS modules.
    Begin(bool),
    /// Whether the boot guard of an earlier failed boot is present.
    GuardChecked(bool),
    /// Whether arming the boot guard succeeded.
    Armed(bool),
    Probed(ProviderProbe),
    /// Whether the rule batch could be planned.
    Planned(bool),
    Applied(ApplyOutcome),
    Listed(ReadBack),
    /// Whether removing this run's rules succeeded.
    Cleaned(bool),
    Evaluated(ReadBackVerdict),
}

/// Why the VFS phase failed the run.
#[derive(Debug, Clone, Copy, PartialEq, Eq, Structural)]
pub enum VfsFailure {
    Guard,
    Unavailable,
    NotAttached,
    Provider,
    Plan,
    Apply,
    Protocol,
    ReadBack,
}

/// How the VFS phase ended.
#[derive(Debug, Clone, Copy, PartialEq, Eq, Structural)]
pub enum VfsResult {
    /// VFS is not used this boot; nothing was published.
    Skipped,
    /// The rules are published and the provider is recorded.
    Active,
    /// The rules were removed again and the provider record is cleared.
    Inactive,
    Failed(VfsFailure),
}

/// What the caller does next in the VFS phase.
#[derive(Debug, Clone, Copy, PartialEq, Eq, Structural)]
pub enum VfsAction {
    CheckGuard,
    ArmGuard,
    ProbeProvider,
    /// Plan the rule batch and register its targeted rollback.
    PlanRules,
    ApplyRules,
    /// Record the provider and read the rule table back.
    RecordProviderAndList,
    /// Remove this run's rules after a partial read-back.
    RemoveRules,
    /// Forget the removed rules and evaluate the read-back.
    EvaluateReadBack,
    /// Forget the rules the policy already removed, and skip VFS.
    ClearDegraded,
    Finish(VfsResult),
    Stop,
}

/// The VFS phase's state: where it stands and whether VFS is strict.
#[derive(Debug, Clone, Copy, PartialEq, Eq, Structural)]
pub struct VfsState {
    pub phase: VfsPhase,
    pub strict: bool,
}

/// What an unusable provider costs: failure when VFS is strict, else skipping it.
pub open spec fn unusable(strict: bool, failure: VfsFailure) -> VfsResult {
    if strict {
        VfsResult::Failed(failure)
    } else {
        VfsResult::Skipped
    }
}

/// One step of the VFS phase.
pub open spec fn spec_vfs_step(s: VfsState, e: VfsEvent) -> (VfsState, VfsAction) {
    let done = VfsState { phase: VfsPhase::Done, ..s };
    match (s.phase, e) {
        (VfsPhase::Start, VfsEvent::Begin(has_modules)) => if has_modules {
            (VfsState { phase: VfsPhase::Guard, ..s }, VfsAction::CheckGuard)
        } else {
            (done, VfsAction::Finish(VfsResult::Skipped))
        },
        (VfsPhase::Guard, VfsEvent::GuardChecked(present)) => if present {
            (done, VfsAction::Finish(VfsResult::Skipped))
        } else {
            (VfsState { phase: VfsPhase::Arm, ..s }, VfsAction::ArmGuard)
        },
        (VfsPhase::Arm, VfsEvent::Armed(ok)) => if ok {
            (VfsState { phase: VfsPhase::Provider, ..s }, VfsAction::ProbeProvider)
        } else {
            (done, VfsAction::Finish(VfsResult::Failed(VfsFailure::Guard)))
        },
        (VfsPhase::Provider, VfsEvent::Probed(p)) => match p {
            ProviderProbe::Attached => (VfsState { phase: VfsPhase::Plan, ..s }, VfsAction::PlanRules),
            ProviderProbe::Missing => (done, VfsAction::Finish(unusable(s.strict, VfsFailure::Unavailable))),
            ProviderProbe::UnsupportedVersion | ProviderProbe::ForeignNomount => (
                done,
                VfsAction::Finish(unusable(s.strict, VfsFailure::NotAttached)),
            ),
            ProviderProbe::Broken => (done, VfsAction::Finish(VfsResult::Failed(VfsFailure::Provider))),
        },
        (VfsPhase::Plan, VfsEvent::Planned(ok)) => if ok {
            (VfsState { phase: VfsPhase::Apply, ..s }, VfsAction::ApplyRules)
        } else {
            (done, VfsAction::Finish(VfsResult::Failed(VfsFailure::Plan)))
        },
        (VfsPhase::Apply, VfsEvent::Applied(o)) => match o {
            ApplyOutcome::Applied => (VfsState { phase: VfsPhase::ReadBack, ..s }, VfsAction::RecordProviderAndList),
            ApplyOutcome::Degraded => (done, VfsAction::ClearDegraded),
            ApplyOutcome::Failed => (done, VfsAction::Finish(VfsResult::Failed(VfsFailure::Apply))),
        },
        (VfsPhase::ReadBack, VfsEvent::Listed(l)) => match l {
            ReadBack::Missing => (VfsState { phase: VfsPhase::Cleanup, ..s }, VfsAction::RemoveRules),
            _ => (done, VfsAction::Finish(VfsResult::Active)),
        },
        (VfsPhase::Cleanup, VfsEvent::Cleaned(ok)) => if ok {
            (VfsState { phase: VfsPhase::Evaluate, ..s }, VfsAction::EvaluateReadBack)
        } else {
            (done, VfsAction::Finish(VfsResult::Failed(VfsFailure::Protocol)))
        },
        (VfsPhase::Evaluate, VfsEvent::Evaluated(v)) => match v {
            ReadBackVerdict::Keep => (done, VfsAction::Finish(VfsResult::Active)),
            ReadBackVerdict::Degrade => (done, VfsAction::Finish(VfsResult::Inactive)),
            ReadBackVerdict::Fail => (done, VfsAction::Finish(VfsResult::Failed(VfsFailure::ReadBack))),
        },
        _ => (s, VfsAction::Stop),
    }
}

fn unusable_result(strict: bool, failure: VfsFailure) -> (r: VfsResult)
    ensures
        r == unusable(strict, failure),
{
    if strict {
        VfsResult::Failed(failure)
    } else {
        VfsResult::Skipped
    }
}

/// Decides the next step of the VFS phase from the outcome of the last one.
pub fn vfs_step(state: &VfsState, event: &VfsEvent) -> (r: (VfsState, VfsAction))
    ensures
        r == spec_vfs_step(*state, *event),
{
    let s = *state;
    let done = VfsState { phase: VfsPhase::Done, ..s };
    match (s.phase, *event) {
        (VfsPhase::Start, VfsEvent::Begin(has_modules)) => if has_modules {
            (VfsState { phase: VfsPhase::Guard, ..s }, VfsAction::CheckGuard)
        } else {
            (done, VfsAction::Finish(VfsResult::Skipped))
        },
        (VfsPhase::Guard, VfsEvent::GuardChecked(present)) => if present {
            (done, VfsAction::Finish(VfsResult::Skipped))
        } else {
            (VfsState { phase: VfsPhase::Arm, ..s }, VfsAction::ArmGuard)
        },
        (VfsPhase::Arm, VfsEvent::Armed(ok)) => if ok {
            (VfsState { phase: VfsPhase::Provider, ..s }, VfsAction::ProbeProvider)
        } else {
            (done, VfsAction::Finish(VfsResult::Failed(VfsFailure::Guard)))
        },
        (VfsPhase::Provider, VfsEvent::Probed(p)) => match p {
            ProviderProbe::Attached => (VfsState { phase: VfsPhase::Plan, ..s }, VfsAction::PlanRules),
            ProviderProbe::Missing => (done, VfsAction::Finish(unusable_result(s.strict, VfsFailure::Unavailable))),
            ProviderProbe::UnsupportedVersion | ProviderProbe::ForeignNomount => (
                done,
                VfsAction::Finish(unusable_result(s.strict, VfsFailure::NotAttached)),
            ),
            ProviderProbe::Broken => (done, VfsAction::Finish(VfsResult::Failed(VfsFailure::Provider))),
        },
        (VfsPhase::Plan, VfsEvent::Planned(ok)) => if ok {
            (VfsState { phase: VfsPhase::Apply, ..s }, VfsAction::ApplyRules)
        } else {
            (done, VfsAction::Finish(VfsResult::Failed(VfsFailure::Plan)))
        },
        (VfsPhase::Apply, VfsEvent::Applied(o)) => match o {
            ApplyOutcome::Applied => (VfsState { phase: VfsPhase::ReadBack, ..s }, VfsAction::RecordProviderAndList),
            ApplyOutcome::Degraded => (done, VfsAction::ClearDegraded),
            ApplyOutcome::Failed => (done, VfsAction::Finish(VfsResult::Failed(VfsFailure::Apply))),
        },
        (VfsPhase::ReadBack, VfsEvent::Listed(l)) => match l {
            ReadBack::Missing => (VfsState { phase: VfsPhase::Cleanup, ..s }, VfsAction::RemoveRules),
            _ => (done, VfsAction::Finish(VfsResult::Active)),
        },
        (VfsPhase::Cleanup, VfsEvent::Cleaned(ok)) => if ok {
            (VfsState { phase: VfsPhase::Evaluate, ..s }, VfsAction::EvaluateReadBack)
        } else {
            (done, VfsAction::Finish(VfsResult::Failed(VfsFailure::Protocol)))
        },
        (VfsPhase::Evaluate, VfsEvent::Evaluated(v)) => match v {
            ReadBackVerdict::Keep => (done, VfsAction::Finish(VfsResult::Active)),
            ReadBackVerdict::Degrade => (done, VfsAction::Finish(VfsResult::Inactive)),
            ReadBackVerdict::Fail => (done, VfsAction::Finish(VfsResult::Failed(VfsFailure::ReadBack))),
        },
        _ => (s, VfsAction::Stop),
    }
}

/// Rules are published only after the boot guard is armed and a supported
/// provider answered, and the VFS phase never fails a boot over a missing or
/// unusable provider unless VFS is strict.
pub proof fn vfs_publishes_only_with_provider(s: VfsState, e: VfsEvent)
    ensures
        spec_vfs_step(s, e).1 == VfsAction::ApplyRules ==> s.phase == VfsPhase::Plan && e == VfsEvent::Planned(true),
        spec_vfs_step(s, e).1 == VfsAction::PlanRules ==> s.phase == VfsPhase::Provider && e == VfsEvent::Probed(
            ProviderProbe::Attached,
        ),
        !s.strict && s.phase == VfsPhase::Provider && e != VfsEvent::Probed(ProviderProbe::Broken) ==> !(
        spec_vfs_step(s, e).1 is Finish && spec_vfs_step(s, e).1->Finish_0 is Failed),
{
}

} // verus!
