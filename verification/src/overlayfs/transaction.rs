//! The mounts one overlay operation has made, and unwinding them when the
//! operation fails part way.
use vstd::prelude::*;

use crate::errors::{Error, Result};
use crate::paths::views;
use crate::text::{append_str, owned};

verus! {

/// The targets an overlay operation has mounted so far, oldest first.
pub struct MountRollback {
    targets: Vec<String>,
}

impl View for MountRollback {
    type V = Seq<Seq<char>>;

    closed spec fn view(&self) -> Seq<Seq<char>> {
        views(self.targets@)
    }
}

/// The report of a rollback over `order` whose detach calls gave `outcomes`,
/// after the first `k` of them: one `failed to detach` entry per failure,
/// separated by `; `.
pub open spec fn failure_text(order: Seq<Seq<char>>, outcomes: Seq<Result<()>>, k: int) -> Seq<char>
    decreases k,
{
    if k <= 0 {
        Seq::empty()
    } else {
        let prev = failure_text(order, outcomes, k - 1);
        match outcomes[k - 1] {
            Ok(_) => prev,
            Err(e) => (if prev.len() > 0 {
                prev + "; "@
            } else {
                prev
            }) + "failed to detach "@ + order[k - 1] + ": "@ + e.spec_message(),
        }
    }
}

/// `order` read newest first.
pub open spec fn newest_first(targets: Seq<Seq<char>>) -> Seq<Seq<char>> {
    Seq::new(targets.len(), |j: int| targets[targets.len() - 1 - j])
}

/// `detach`, called with a path that reads `target`, may answer `outcome`.
pub open spec fn detach_gave<D: FnMut(&str) -> Result<()>>(detach: D, target: Seq<char>, outcome: Result<()>) -> bool {
    exists|t: &str| t@ == target && #[trigger] detach.ensures((t,), outcome)
}

/// A rollback of `targets` that called `detach` once per target, newest
/// first, saw `outcomes`, and answered `r`: `Ok` exactly when every detach
/// succeeded, else the failures in call order.
pub open spec fn rollback_explained<D: FnMut(&str) -> Result<()>>(
    targets: Seq<Seq<char>>,
    detach: D,
    outcomes: Seq<Result<()>>,
    r: Result<()>,
) -> bool {
    let order = newest_first(targets);
    &&& outcomes.len() == targets.len()
    &&& forall|j: int| 0 <= j < outcomes.len() ==> detach_gave(detach, order[j], #[trigger] outcomes[j])
    &&& (r is Ok <==> failure_text(order, outcomes, outcomes.len() as int).len() == 0)
    &&& (r matches Err(e) ==> e is Msg && e.spec_message() == failure_text(order, outcomes, outcomes.len() as int))
}

proof fn lemma_failure_text_empty(order: Seq<Seq<char>>, outcomes: Seq<Result<()>>, k: int)
    requires
        0 <= k <= outcomes.len(),
    ensures
        failure_text(order, outcomes, k).len() == 0 <==> forall|j: int| 0 <= j < k ==> #[trigger] outcomes[j] is Ok,
    decreases k,
{
    if k > 0 {
        lemma_failure_text_empty(order, outcomes, k - 1);
        if outcomes[k - 1] is Err {
            reveal_strlit("failed to detach ");
        }
    }
}

impl MountRollback {
    /// Nothing mounted yet.
    pub fn new() -> (r: MountRollback)
        ensures
            r@ == Seq::<Seq<char>>::empty(),
    {
        let r = MountRollback { targets: Vec::new() };
        assert(r@ =~= Seq::<Seq<char>>::empty());
        r
    }

    /// Records that `target` has just been mounted.
    pub fn record(&mut self, target: &str)
        ensures
            final(self)@ == old(self)@.push(target@),
    {
        self.targets.push(owned(target));
        assert(views(self.targets@) =~= old(self)@.push(target@));
    }

    /// The mounted targets, oldest first, for the executor to keep.
    pub fn into_targets(self) -> (r: Vec<String>)
        ensures
            views(r@) == self@,
    {
        self.targets
    }

    /// Detaches every recorded target, newest first, going on past failures;
    /// every failure is reported.
    pub fn rollback_with<D>(self, detach: D) -> (r: Result<()>)
        where
            D: FnMut(&str) -> Result<()>,
        requires
            forall|t: &str| detach.requires((t,)),
        ensures
            exists|outcomes: Seq<Result<()>>| #[trigger] rollback_explained(self@, detach, outcomes, r),
    {
        let ghost order = newest_first(self@);
        let ghost f = detach;
        let mut detach = detach;
        let mut failures = String::new();
        let n = self.targets.len();
        let mut k = n;
        let ghost mut outcomes: Seq<Result<()>> = Seq::empty();
        while k > 0
            invariant
                k <= n,
                n == self.targets@.len(),
                order == newest_first(views(self.targets@)),
                detach == f,
                forall|t: &str| detach.requires((t,)),
                outcomes.len() == n - k,
                forall|j: int| 0 <= j < outcomes.len() ==> detach_gave(f, order[j], #[trigger] outcomes[j]),
                failures@ == failure_text(order, outcomes, outcomes.len() as int),
            decreases k,
        {
            k = k - 1;
            let target = self.targets[k].as_str();
            let outcome = detach(target);
            proof {
                assert(order[(n - 1 - k) as int] == self.targets@[k as int]@);
            }
            match &outcome {
                Ok(()) => {},
                Err(e) => {
                    if failures.unicode_len() > 0 {
                        append_str(&mut failures, "; ");
                    }
                    append_str(&mut failures, "failed to detach ");
                    append_str(&mut failures, target);
                    append_str(&mut failures, ": ");
                    let m = e.message();
                    append_str(&mut failures, m.as_str());
                },
            }
            proof {
                let prev = outcomes;
                outcomes = outcomes.push(outcome);
                assert(outcomes.drop_last() =~= prev);
                assert forall|j: int| 0 <= j < prev.len() implies failure_text(order, outcomes, j) == failure_text(order, prev, j) by {
                    lemma_failure_text_prefix(order, prev, outcomes, j);
                }
                lemma_failure_text_prefix(order, prev, outcomes, prev.len() as int);
                assert forall|j: int| 0 <= j < outcomes.len() implies detach_gave(f, order[j], #[trigger] outcomes[j]) by {
                    if j < prev.len() {
                        assert(outcomes[j] == prev[j]);
                    } else {
                        assert(target@ == order[j] && f.ensures((target,), outcomes[j]));
                    }
                }
            }
        }
        proof {
            lemma_failure_text_empty(order, outcomes, outcomes.len() as int);
        }
        if failures.unicode_len() == 0 {
            assert(rollback_explained(self@, f, outcomes, Ok(())));
            Ok(())
        } else {
            let e = Error::msg(failures);
            assert(rollback_explained(self@, f, outcomes, Err(e)));
            Err(e)
        }
    }
}

proof fn lemma_failure_text_prefix(
    order: Seq<Seq<char>>,
    a: Seq<Result<()>>,
    b: Seq<Result<()>>,
    k: int,
)
    requires
        0 <= k <= a.len() <= b.len(),
        forall|j: int| 0 <= j < a.len() ==> a[j] == b[j],
    ensures
        failure_text(order, a, k) == failure_text(order, b, k),
    decreases k,
{
    if k > 0 {
        lemma_failure_text_prefix(order, a, b, k - 1);
    }
}

impl Default for MountRollback {
    /// Nothing mounted yet.
    fn default() -> (r: MountRollback)
        ensures
            r@ == Seq::<Seq<char>>::empty(),
    {
        MountRollback::new()
    }
}

/// Runs `mount` and records `target` the moment it succeeds, so that any
/// later failure can unwind it; a failed mount records nothing.
pub fn record_mounted_target<F>(rollback: &mut MountRollback, target: &str, mount: F) -> (r: Result<()>)
    where
        F: FnOnce() -> Result<()>,
    requires
        mount.requires(()),
    ensures
        mount.ensures((), r),
        r is Ok ==> final(rollback)@ == old(rollback)@.push(target@),
        r is Err ==> final(rollback)@ == old(rollback)@,
{
    mount()?;
    rollback.record(target);
    Ok(())
}

/// Merges an operation's result with the result of restoring the working
/// directory; both errors are kept when both failed.
pub fn combine_operation_and_restore(operation: Result<()>, restore: Result<()>) -> (r: Result<()>)
    ensures
        (r is Ok) <==> (operation is Ok && restore is Ok),
        operation is Err && restore is Ok ==> r == operation,
        operation is Ok && restore is Err ==> r == restore,
        operation is Err && restore is Err ==> (r matches Err(e) && e is Msg
            && e.spec_message() == combined_message(operation, restore)),
{
    match (operation, restore) {
        (Ok(()), Ok(())) => Ok(()),
        (Err(error), Ok(())) => Err(error),
        (Ok(()), Err(error)) => Err(error),
        (Err(operation_error), Err(restore_error)) => {
            let mut message = owned("additionally failed to restore cwd: ");
            let r = restore_error.message();
            append_str(&mut message, r.as_str());
            append_str(&mut message, ": ");
            let m = operation_error.message();
            append_str(&mut message, m.as_str());
            Err(Error::msg(message))
        },
    }
}

/// Ends an overlay operation: on success the mounted targets go back to the
/// executor, oldest first; on failure every mount is detached newest first
/// and the error is returned, with a failed rollback attached to it.
pub fn finalize_overlay_transaction_with<D>(
    rollback: MountRollback,
    operation: Result<()>,
    restore: Result<()>,
    detach: D,
) -> (r: Result<Vec<String>>)
    where
        D: FnMut(&str) -> Result<()>,
    requires
        forall|t: &str| detach.requires((t,)),
    ensures
        (r is Ok) <==> (operation is Ok && restore is Ok),
        r matches Ok(targets) ==> views(targets@) == rollback@,
        r matches Err(e) ==> exists|outcomes: Seq<Result<()>>, undo: Result<()>|
            #[trigger] rollback_explained(rollback@, detach, outcomes, undo) && match undo {
                Ok(_) => (operation is Ok ==> restore == Err::<(), Error>(e))
                    && (restore is Ok ==> operation == Err::<(), Error>(e))
                    && (operation is Err && restore is Err ==> e is Msg
                        && e.spec_message() == combined_message(operation, restore)),
                Err(u) => e is Msg && e.spec_message() == "additionally failed to roll back mounted targets: "@
                    + u.spec_message() + ": "@ + combined_message(operation, restore),
            },
{
    let operation_failed = operation.is_err();
    let restore_failed = restore.is_err();
    let ghost op0 = operation;
    let ghost re0 = restore;
    match combine_operation_and_restore(operation, restore) {
        Ok(()) => Ok(rollback.into_targets()),
        Err(error) => {
            let ghost rb = rollback@;
            let undo = rollback.rollback_with(detach);
            let ghost u = undo;
            match undo {
                Ok(()) => Err(error),
                Err(rollback_error) => {
                    let mut message = owned("additionally failed to roll back mounted targets: ");
                    let r = rollback_error.message();
                    append_str(&mut message, r.as_str());
                    append_str(&mut message, ": ");
                    let m = error.message();
                    append_str(&mut message, m.as_str());
                    proof {
                        assert(combined_message(op0, re0) == error.spec_message());
                    }
                    Err(Error::msg(message))
                },
            }
        },
    }
}

/// The message of the combined outcome of a failed operation.
pub open spec fn combined_message(operation: Result<()>, restore: Result<()>) -> Seq<char> {
    match (operation, restore) {
        (Err(op), Ok(_)) => op.spec_message(),
        (Ok(_), Err(re)) => re.spec_message(),
        (Err(op), Err(re)) => "additionally failed to restore cwd: "@ + re.spec_message() + ": "@ + op.spec_message(),
        _ => Seq::empty(),
    }
}

/// Registers the root target for unmounting, when registration is wanted,
/// before any child mount is made; a failed registration stops there.
pub fn register_root_before_mounting_children<R, C>(
    register_umountable: bool,
    root: &str,
    register_root: R,
    mount_children: C,
) -> (r: Result<()>)
    where
        R: FnOnce(&str) -> Result<()>,
        C: FnOnce() -> Result<()>,
    requires
        register_root.requires((root,)),
        mount_children.requires(()),
    ensures
        !register_umountable ==> mount_children.ensures((), r),
        register_umountable ==> (exists|reg: Result<()>| #[trigger] register_root.ensures((root,), reg)
            && match reg {
                Err(e) => r == Err::<(), Error>(e),
                Ok(_) => mount_children.ensures((), r),
            }),
{
    if register_umountable {
        let reg = register_root(root);
        match reg {
            Err(e) => {
                return Err(e);
            },
            Ok(()) => {},
        }
    }
    mount_children()
}

} // verus!
