//! Cleanup journal for mount pipeline side effects.
//!
//! Cleanups run newest first. A commit that retains resources skips only the
//! cleanups registered as retainable; a rollback runs every one of them.
use vstd::prelude::*;

use crate::errors::{Error, Result};
use crate::text::{append_str, owned};

verus! {

/// One cleanup that did not succeed.
#[derive(Debug)]
pub struct CleanupFailure {
    pub label: String,
    pub error: Error,
}

/// What a rollback or commit did with the registered cleanups.
#[derive(Debug)]
pub struct RollbackReport {
    pub cleaned: usize,
    pub retained: usize,
    pub failures: Vec<CleanupFailure>,
}

/// A registered cleanup with its label.
pub struct CleanupAction<F> {
    pub label: String,
    pub retainable: bool,
    pub cleanup: F,
}

/// Registered cleanups, run in reverse registration order unless disarmed.
pub struct MountTransaction<F> {
    actions: Vec<CleanupAction<F>>,
    finished: bool,
}

/// Whether the cleanup at this position is skipped by the run.
pub open spec fn skipped<F>(action: CleanupAction<F>, keep_retainable: bool) -> bool {
    keep_retainable && action.retainable
}

/// How many of `actions` a run that keeps retainable resources skips.
pub open spec fn retained_count<F>(actions: Seq<CleanupAction<F>>, keep_retainable: bool) -> nat
    decreases actions.len(),
{
    if actions.len() == 0 {
        0
    } else {
        retained_count(actions.drop_last(), keep_retainable) + if skipped(
            actions.last(),
            keep_retainable,
        ) {
            1nat
        } else {
            0nat
        }
    }
}

/// The cleanup ran and succeeded.
pub open spec fn ran_ok<F>(action: CleanupAction<F>, keep_retainable: bool, outcome: Result<()>) -> bool {
    !skipped(action, keep_retainable) && outcome is Ok
}

/// The cleanup ran and failed.
pub open spec fn ran_failed<F>(action: CleanupAction<F>, keep_retainable: bool, outcome: Result<()>) -> bool {
    !skipped(action, keep_retainable) && outcome is Err
}

/// How many of the cleanups at positions `m..` ran and succeeded, given
/// what each one returned.
pub open spec fn ok_count_from<F>(
    actions: Seq<CleanupAction<F>>,
    keep_retainable: bool,
    outcomes: Seq<Result<()>>,
    m: int,
) -> nat
    decreases actions.len() - m,
{
    if m < 0 || m >= actions.len() {
        0
    } else {
        ok_count_from(actions, keep_retainable, outcomes, m + 1) + if ran_ok(
            actions[m],
            keep_retainable,
            outcomes[m],
        ) {
            1nat
        } else {
            0nat
        }
    }
}

/// The positions at `m..` whose cleanup ran and failed, newest first.
pub open spec fn failed_from<F>(
    actions: Seq<CleanupAction<F>>,
    keep_retainable: bool,
    outcomes: Seq<Result<()>>,
    m: int,
) -> Seq<int>
    decreases actions.len() - m,
{
    if m < 0 || m >= actions.len() {
        Seq::empty()
    } else {
        failed_from(actions, keep_retainable, outcomes, m + 1) + if ran_failed(
            actions[m],
            keep_retainable,
            outcomes[m],
        ) {
            seq![m]
        } else {
            Seq::<int>::empty()
        }
    }
}

/// `report` is what running `actions` newest first gives when the cleanup at
/// position `i` returns `outcomes[i]`: every cleanup that is not skipped runs
/// (and may return that outcome), the retained ones are counted, `cleaned`
/// counts exactly the successful runs, and `failures` lists exactly the
/// failed runs, newest first, with their labels and errors.
pub open spec fn reports_outcomes<F: FnOnce() -> Result<()>>(
    report: RollbackReport,
    actions: Seq<CleanupAction<F>>,
    keep_retainable: bool,
    outcomes: Seq<Result<()>>,
) -> bool {
    let failed = failed_from(actions, keep_retainable, outcomes, 0);
    &&& outcomes.len() == actions.len()
    &&& forall|i: int|
        0 <= i < actions.len() && !skipped(actions[i], keep_retainable) ==> actions[i].cleanup.ensures(
            (),
            #[trigger] outcomes[i],
        )
    &&& report.retained == retained_count(actions, keep_retainable)
    &&& report.cleaned == ok_count_from(actions, keep_retainable, outcomes, 0)
    &&& report.failures@.len() == failed.len()
    &&& forall|k: int|
        0 <= k < failed.len() ==> {
            &&& report.failures@[k].label@ == actions[#[trigger] failed[k]].label@
            &&& outcomes[failed[k]] == Err::<(), Error>(report.failures@[k].error)
        }
}

/// The report of running `actions` newest first, for the outcomes the
/// cleanups returned.
pub open spec fn reports_run<F: FnOnce() -> Result<()>>(
    report: RollbackReport,
    actions: Seq<CleanupAction<F>>,
    keep_retainable: bool,
) -> bool {
    exists|outcomes: Seq<Result<()>>| #[trigger] reports_outcomes(report, actions, keep_retainable, outcomes)
}

/// Changing the outcome of a position before `m` changes nothing from `m` on.
proof fn lemma_outcomes_frame<F>(
    actions: Seq<CleanupAction<F>>,
    keep_retainable: bool,
    o1: Seq<Result<()>>,
    o2: Seq<Result<()>>,
    m: int,
)
    requires
        o1.len() == actions.len(),
        o2.len() == actions.len(),
        forall|i: int| m <= i < actions.len() ==> o1[i] == o2[i],
    ensures
        ok_count_from(actions, keep_retainable, o1, m) == ok_count_from(actions, keep_retainable, o2, m),
        failed_from(actions, keep_retainable, o1, m) == failed_from(actions, keep_retainable, o2, m),
    decreases actions.len() - m,
{
    if 0 <= m < actions.len() {
        lemma_outcomes_frame(actions, keep_retainable, o1, o2, m + 1);
    }
}

/// The failed positions from `m` on lie in `m..`.
proof fn lemma_failed_range<F>(actions: Seq<CleanupAction<F>>, keep_retainable: bool, outcomes: Seq<Result<()>>, m: int)
    requires
        0 <= m,
    ensures
        forall|k: int| 0 <= k < failed_from(actions, keep_retainable, outcomes, m).len() ==> m <= #[trigger] failed_from(
            actions,
            keep_retainable,
            outcomes,
            m,
        )[k] < actions.len(),
    decreases actions.len() - m,
{
    if m < actions.len() {
        lemma_failed_range(actions, keep_retainable, outcomes, m + 1);
        let rest = failed_from(actions, keep_retainable, outcomes, m + 1);
        let here = failed_from(actions, keep_retainable, outcomes, m);
        assert forall|k: int| 0 <= k < here.len() implies m <= #[trigger] here[k] < actions.len() by {
            if k < rest.len() {
                assert(here[k] == rest[k]);
            } else {
                assert(here[k] == m);
            }
        }
    }
}

/// No cleanup failed exactly when every cleanup that ran succeeded.
pub proof fn lemma_no_failure_iff_all_ok<F>(
    actions: Seq<CleanupAction<F>>,
    keep_retainable: bool,
    outcomes: Seq<Result<()>>,
    m: int,
)
    requires
        outcomes.len() == actions.len(),
        0 <= m,
    ensures
        failed_from(actions, keep_retainable, outcomes, m).len() == 0 <==> forall|i: int|
            m <= i < actions.len() && !skipped(actions[i], keep_retainable) ==> #[trigger] outcomes[i] is Ok,
    decreases actions.len() - m,
{
    if m < actions.len() {
        lemma_no_failure_iff_all_ok(actions, keep_retainable, outcomes, m + 1);
        if failed_from(actions, keep_retainable, outcomes, m).len() == 0 {
            assert forall|i: int| m <= i < actions.len() && !skipped(actions[i], keep_retainable) implies #[trigger] outcomes[i] is Ok by {
                if i == m {
                } else {
                }
            }
        }
    }
}

/// `label: message` for every failure, joined by `; `.
pub open spec fn failure_summary(failures: Seq<CleanupFailure>) -> Seq<char>
    decreases failures.len(),
{
    if failures.len() == 0 {
        Seq::empty()
    } else {
        let last = failures.last();
        let item = last.label@ + ": "@ + last.error.spec_message();
        if failures.len() == 1 {
            item
        } else {
            failure_summary(failures.drop_last()) + "; "@ + item
        }
    }
}

/// The outcome of a commit: success when no cleanup failed, otherwise one
/// error naming every failed cleanup.
pub fn commit_result(report: &RollbackReport) -> (r: Result<()>)
    ensures
        report.failures@.len() == 0 ==> r is Ok,
        report.failures@.len() > 0 ==> (r matches Err(e) && e.spec_message()
            == "mount transaction commit failed: "@ + failure_summary(report.failures@)),
{
    if report.failures.len() == 0 {
        return Ok(());
    }
    let mut summary = owned("");
    proof {
        reveal_strlit("");
    }
    let mut i: usize = 0;
    while i < report.failures.len()
        invariant
            0 <= i <= report.failures@.len(),
            summary@ == failure_summary(report.failures@.subrange(0, i as int)),
        decreases report.failures@.len() - i,
    {
        let failure = &report.failures[i];
        proof {
            let pre = report.failures@.subrange(0, i + 1);
            assert(pre.drop_last() =~= report.failures@.subrange(0, i as int));
            assert(pre.last() == report.failures@[i as int]);
        }
        if i > 0 {
            append_str(&mut summary, "; ");
        }
        append_str(&mut summary, failure.label.as_str());
        append_str(&mut summary, ": ");
        let message = failure.error.message();
        append_str(&mut summary, message.as_str());
        i = i + 1;
    }
    assert(report.failures@.subrange(0, report.failures@.len() as int) =~= report.failures@);
    let mut text = owned("mount transaction commit failed: ");
    append_str(&mut text, summary.as_str());
    Err(Error::msg(text))
}

impl<F: FnOnce() -> Result<()>> MountTransaction<F> {
    /// Every registered cleanup can be called.
    pub closed spec fn callable(&self) -> bool {
        forall|i: int| 0 <= i < self.actions@.len() ==> #[trigger] self.actions@[i].cleanup.requires(())
    }

    /// The registered cleanups, oldest first.
    pub closed spec fn registered(&self) -> Seq<CleanupAction<F>> {
        self.actions@
    }

    pub fn new() -> (t: Self)
        ensures
            t.registered().len() == 0,
            t.callable(),
    {
        MountTransaction { actions: Vec::new(), finished: false }
    }

    /// Registers a cleanup that every commit and rollback runs.
    pub fn register(&mut self, label: &str, cleanup: F)
        requires
            old(self).callable(),
            cleanup.requires(()),
        ensures
            final(self).callable(),
            final(self).registered().len() == old(self).registered().len() + 1,
            final(self).registered().drop_last() == old(self).registered(),
            final(self).registered().last().label@ == label@,
            final(self).registered().last().retainable == false,
            final(self).registered().last().cleanup == cleanup,
    {
        self.actions.push(CleanupAction { label: owned(label), retainable: false, cleanup });
        proof {
            assert forall|i: int| 0 <= i < self.actions@.len() implies #[trigger] self.actions@[i].cleanup.requires(()) by {
                if i < old(self).actions@.len() {
                    assert(self.actions@[i] == old(self).actions@[i]);
                }
            }
            assert(self.actions@.drop_last() =~= old(self).actions@);
        }
    }

    /// Registers a cleanup that `commit(true)` may retain; `rollback` always runs it.
    pub fn register_retainable(&mut self, label: &str, cleanup: F)
        requires
            old(self).callable(),
            cleanup.requires(()),
        ensures
            final(self).callable(),
            final(self).registered().len() == old(self).registered().len() + 1,
            final(self).registered().drop_last() == old(self).registered(),
            final(self).registered().last().label@ == label@,
            final(self).registered().last().retainable == true,
            final(self).registered().last().cleanup == cleanup,
    {
        self.actions.push(CleanupAction { label: owned(label), retainable: true, cleanup });
        proof {
            assert forall|i: int| 0 <= i < self.actions@.len() implies #[trigger] self.actions@[i].cleanup.requires(()) by {
                if i < old(self).actions@.len() {
                    assert(self.actions@[i] == old(self).actions@[i]);
                }
            }
            assert(self.actions@.drop_last() =~= old(self).actions@);
        }
    }

    /// Discards every cleanup while keeping the side effects; none of them runs.
    pub fn disarm(self) {
        let mut t = self;
        t.finished = true;
    }

    /// Runs the cleanups newest first; `retain_resources` skips only the
    /// retainable ones. Fails when any cleanup that ran failed.
    pub fn commit(self, retain_resources: bool) -> (r: Result<()>)
        requires
            self.callable(),
        ensures
            exists|report: RollbackReport|
                {
                    &&& reports_run(report, self.registered(), retain_resources)
                    &&& report.failures@.len() == 0 ==> r is Ok
                    &&& report.failures@.len() > 0 ==> r is Err
                    &&& report.failures@.len() > 0 ==> (r matches Err(e) && e.spec_message()
                        == "mount transaction commit failed: "@ + failure_summary(
                        report.failures@,
                    ))
                },
    {
        let ghost registered = self.registered();
        let mut t = self;
        let report = t.run_cleanup(retain_resources);
        t.finished = true;
        let r = commit_result(&report);
        assert(reports_run(report, registered, retain_resources));
        r
    }

    /// Runs every cleanup newest first and reports each failure.
    pub fn rollback(self) -> (report: RollbackReport)
        requires
            self.callable(),
        ensures
            reports_run(report, self.registered(), false),
    {
        let mut t = self;
        let report = t.run_cleanup(false);
        t.finished = true;
        report
    }

    fn run_cleanup(&mut self, keep_retainable: bool) -> (report: RollbackReport)
        requires
            old(self).callable(),
        ensures
            reports_run(report, old(self).actions@, keep_retainable),
            final(self).actions@.len() == 0,
    {
        let ghost all = self.actions@;
        let total = self.actions.len();
        let mut cleaned: usize = 0;
        let mut retained: usize = 0;
        let mut failures: Vec<CleanupFailure> = Vec::new();
        let ghost mut outcomes: Seq<Result<()>> = Seq::new(total as nat, |i: int| Ok::<(), Error>(()));
        while self.actions.len() > 0
            invariant
                self.actions@ == all.subrange(0, self.actions@.len() as int),
                all.len() == total,
                outcomes.len() == total,
                forall|i: int| 0 <= i < all.len() ==> #[trigger] all[i].cleanup.requires(()),
                forall|i: int|
                    self.actions@.len() <= i < all.len() && !skipped(all[i], keep_retainable) ==> all[i].cleanup.ensures(
                        (),
                        #[trigger] outcomes[i],
                    ),
                retained + retained_count(self.actions@, keep_retainable) == retained_count(
                    all,
                    keep_retainable,
                ),
                cleaned == ok_count_from(all, keep_retainable, outcomes, self.actions@.len() as int),
                cleaned + retained + failures@.len() + self.actions@.len() == all.len(),
                failures@.len() == failed_from(all, keep_retainable, outcomes, self.actions@.len() as int).len(),
                forall|k: int|
                    0 <= k < failures@.len() ==> {
                        let i = #[trigger] failed_from(all, keep_retainable, outcomes, self.actions@.len() as int)[k];
                        &&& failures@[k].label@ == all[i].label@
                        &&& outcomes[i] == Err::<(), Error>(failures@[k].error)
                    },
            decreases self.actions@.len(),
        {
            let ghost before = self.actions@;
            let ghost pos = before.len() - 1;
            let ghost prev = outcomes;
            let ghost prev_failed = failed_from(all, keep_retainable, prev, before.len() as int);
            proof {
                lemma_failed_range(all, keep_retainable, prev, before.len() as int);
            }
            let action = self.actions.pop().unwrap();
            proof {
                assert(before.drop_last() =~= self.actions@);
                assert(action == all[pos]);
            }
            if keep_retainable && action.retainable {
                retained = retained + 1;
                proof {
                    assert(failed_from(all, keep_retainable, outcomes, pos) =~= prev_failed);
                }
            } else {
                let cleanup = action.cleanup;
                let outcome = cleanup();
                proof {
                    outcomes = outcomes.update(pos, outcome);
                    lemma_outcomes_frame(all, keep_retainable, prev, outcomes, before.len() as int);
                }
                match outcome {
                    Ok(()) => {
                        cleaned = cleaned + 1;
                        proof {
                            assert(failed_from(all, keep_retainable, outcomes, pos) =~= prev_failed);
                            assert forall|k: int| 0 <= k < prev_failed.len() implies outcomes[#[trigger] prev_failed[k]] == prev[prev_failed[k]] by {
                            }
                        }
                    },
                    Err(error) => {
                        failures.push(CleanupFailure { label: action.label, error });
                        proof {
                            assert(failed_from(all, keep_retainable, outcomes, pos) =~= prev_failed.push(pos));
                            assert forall|k: int| 0 <= k < prev_failed.len() implies outcomes[#[trigger] prev_failed[k]] == prev[prev_failed[k]] by {
                            }
                        }
                    },
                }
            }
        }
        proof {
            assert(all.subrange(0, 0) =~= Seq::<CleanupAction<F>>::empty());
        }
        let report = RollbackReport { cleaned, retained, failures };
        assert(reports_outcomes(report, all, keep_retainable, outcomes));
        report
    }
}

} // verus!
