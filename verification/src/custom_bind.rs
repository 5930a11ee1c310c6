//! User-configured bind mounts: target order checks, the batch that applies
//! them in configuration order, and the rollback of a partial batch.
use vstd::prelude::*;

use crate::errors::{Error, Result};
use crate::paths::components;
use crate::sys::mountinfo::{path_less, path_lt, path_same, path_under, same_path, under};
use crate::text::{append_str, owned};

verus! {

/// One configured bind mount.
#[derive(Debug)]
pub struct CustomBindMount {
    pub source: String,
    pub target: String,
}

/// Whether a bind mount joins two files or two directories.
#[derive(Debug, Clone, Copy, PartialEq, Eq, Structural)]
pub enum CustomBindKind {
    File,
    Directory,
}

/// A bind mount in place.
#[derive(Debug)]
pub struct AppliedCustomBind {
    pub source: String,
    pub target: String,
    pub kind: CustomBindKind,
}

/// No target repeats, and no target is an ancestor of an earlier one:
/// parents are configured before their children.
pub open spec fn targets_ordered(mounts: Seq<CustomBindMount>) -> bool {
    forall|i: int, j: int|
        0 <= i < j < mounts.len() ==> !same_path(#[trigger] mounts[i].target@, #[trigger] mounts[j].target@)
            && !under(mounts[i].target@, mounts[j].target@)
}

/// The error of a rejected target order: a repeated target, or a later
/// target that is an ancestor of an earlier one.
pub open spec fn order_error(e: Error) -> bool {
    crate::text::has_prefix(e.spec_message(), "duplicate custom bind target is not allowed: "@)
        || crate::text::has_prefix(e.spec_message(), "unsafe custom bind target order: later target "@)
}

/// Rejects a repeated target, or a target configured after one of its
/// descendants.
pub fn validate_target_order(mounts: &[CustomBindMount]) -> (r: Result<()>)
    ensures
        r is Ok <==> targets_ordered(mounts@),
        r matches Err(e) ==> order_error(e),
{
    let mut j: usize = 0;
    while j < mounts.len()
        invariant
            0 <= j <= mounts@.len(),
            forall|a: int, b: int|
                0 <= a < b < j ==> !same_path(#[trigger] mounts@[a].target@, #[trigger] mounts@[b].target@)
                    && !under(mounts@[a].target@, mounts@[b].target@),
        decreases mounts@.len() - j,
    {
        let target = mounts[j].target.as_str();
        let mut i: usize = 0;
        while i < j
            invariant
                0 <= i <= j < mounts@.len(),
                target@ == mounts@[j as int].target@,
                forall|a: int| 0 <= a < i ==> !same_path(#[trigger] mounts@[a].target@, mounts@[j as int].target@),
            decreases j - i,
        {
            if path_same(mounts[i].target.as_str(), target) {
                assert(same_path(mounts@[i as int].target@, mounts@[j as int].target@));
                let mut message = owned("duplicate custom bind target is not allowed: ");
                let ghost head = message@;
                append_str(&mut message, target);
                assert(message@.subrange(0, head.len() as int) =~= head);
                return Err(Error::msg(message));
            }
            i = i + 1;
        }
        let mut i: usize = 0;
        while i < j
            invariant
                0 <= i <= j < mounts@.len(),
                target@ == mounts@[j as int].target@,
                forall|a: int| 0 <= a < i ==> !under(#[trigger] mounts@[a].target@, mounts@[j as int].target@),
            decreases j - i,
        {
            if path_under(mounts[i].target.as_str(), target) {
                assert(under(mounts@[i as int].target@, mounts@[j as int].target@));
                let mut message = owned("unsafe custom bind target order: later target ");
                let ghost head = message@;
                append_str(&mut message, target);
                append_str(&mut message, " is an ancestor of earlier target ");
                append_str(&mut message, mounts[i].target.as_str());
                append_str(&mut message, "; configure parent targets before their children");
                assert(message@.subrange(0, head.len() as int) =~= head);
                return Err(Error::msg(message));
            }
            i = i + 1;
        }
        j = j + 1;
    }
    Ok(())
}

/// Shallower targets first; among equally deep ones, path order.
pub open spec fn shallower_first(a: Seq<char>, b: Seq<char>) -> bool {
    components(a).len() < components(b).len() || (components(a).len() == components(b).len()
        && path_lt(a, b))
}

fn shallower(a: &str, b: &str) -> (r: bool)
    ensures
        r == shallower_first(a@, b@),
{
    let da = crate::paths::split_components(a).len();
    let db = crate::paths::split_components(b).len();
    da < db || (da == db && path_less(a, b))
}

/// The targets in registration order: parents first, so that a manager that
/// processes the list in reverse detaches children before parents.
pub fn registration_targets(mounts: &[AppliedCustomBind]) -> (r: Vec<String>)
    ensures
        r@.len() == mounts@.len(),
        forall|x: Seq<char>| #[trigger] crate::text::has_name(r@, x) <==> exists|i: int| 0 <= i < mounts@.len() && #[trigger] mounts@[i].target@ == x,
{
    let mut out: Vec<String> = Vec::new();
    let mut i: usize = 0;
    while i < mounts.len()
        invariant
            0 <= i <= mounts@.len(),
            out@.len() == i,
            forall|x: Seq<char>| #[trigger] crate::text::has_name(out@, x) <==> exists|k: int| 0 <= k < i && #[trigger] mounts@[k].target@ == x,
        decreases mounts@.len() - i,
    {
        let target = mounts[i].target.as_str();
        let mut p: usize = 0;
        while p < out.len() && !shallower(target, out[p].as_str())
            invariant
                0 <= p <= out@.len(),
            decreases out@.len() - p,
        {
            p = p + 1;
        }
        let ghost before = out@;
        out.insert(p, owned(target));
        proof {
            assert forall|x: Seq<char>| #[trigger] crate::text::has_name(out@, x) <==> exists|k: int| 0 <= k < i + 1 && #[trigger] mounts@[k].target@ == x by {
                if crate::text::has_name(out@, x) {
                    let q = choose|q: int| 0 <= q < out@.len() && #[trigger] out@[q]@ == x;
                    if q < p {
                        assert(before[q]@ == x);
                        assert(crate::text::has_name(before, x));
                    } else if q > p {
                        assert(before[q - 1]@ == x);
                        assert(crate::text::has_name(before, x));
                    } else {
                        assert(mounts@[i as int].target@ == x);
                    }
                }
                if exists|k: int| 0 <= k < i + 1 && #[trigger] mounts@[k].target@ == x {
                    let k = choose|k: int| 0 <= k < i + 1 && #[trigger] mounts@[k].target@ == x;
                    if k < i {
                        assert(crate::text::has_name(before, x));
                        let q = choose|q: int| 0 <= q < before.len() && #[trigger] before[q]@ == x;
                        if q < p {
                            assert(out@[q]@ == x);
                        } else {
                            assert(out@[q + 1]@ == x);
                        }
                    } else {
                        assert(out@[p as int]@ == x);
                    }
                }
            }
        }
        i = i + 1;
    }
    out
}

/// `detach` may answer success for `target`.
pub open spec fn detach_succeeds<D: FnMut(&str) -> Result<()>>(detach: D, target: Seq<char>) -> bool {
    exists|t: &str, o: Result<()>| t@ == target && o is Ok && #[trigger] detach.ensures((t,), o)
}

/// `detach` may answer a failure for `target`.
pub open spec fn detach_fails<D: FnMut(&str) -> Result<()>>(detach: D, target: Seq<char>) -> bool {
    exists|t: &str, o: Result<()>| t@ == target && o is Err && #[trigger] detach.ensures((t,), o)
}

/// Detaches every target newest first, going on past failures, and reports
/// each failure.
fn rollback_targets<D>(targets: &Vec<String>, detach: D) -> (r: Result<()>)
    where
        D: FnMut(&str) -> Result<()>,
    requires
        forall|t: &str| detach.requires((t,)),
    ensures
        r is Ok ==> forall|k: int| 0 <= k < targets@.len() ==> detach_succeeds(detach, #[trigger] targets@[k]@),
        r is Err ==> exists|k: int| 0 <= k < targets@.len() && detach_fails(detach, #[trigger] targets@[k]@),
        r matches Err(e) ==> e is Msg,
{
    let ghost d = detach;
    let mut detach = detach;
    let mut failures = String::new();
    let mut k = targets.len();
    while k > 0
        invariant
            k <= targets@.len(),
            detach == d,
            forall|t: &str| detach.requires((t,)),
            failures@.len() == 0 ==> forall|q: int| k <= q < targets@.len() ==> detach_succeeds(d, #[trigger] targets@[q]@),
            failures@.len() > 0 ==> exists|q: int| k <= q < targets@.len() && detach_fails(d, #[trigger] targets@[q]@),
        decreases k,
    {
        k = k - 1;
        let t = targets[k].as_str();
        let outcome = detach(t);
        assert(d.ensures((t,), outcome));
        match &outcome {
            Ok(()) => {
                assert(t@ == targets@[k as int]@);
                assert(detach_succeeds(d, targets@[k as int]@));
            },
            Err(e) => {
                proof {
                    reveal_strlit("failed to detach ");
                }
                assert(detach_fails(d, targets@[k as int]@));
                if failures.unicode_len() > 0 {
                    append_str(&mut failures, "; ");
                }
                append_str(&mut failures, "failed to detach ");
                append_str(&mut failures, targets[k].as_str());
                append_str(&mut failures, ": ");
                let m = e.message();
                append_str(&mut failures, m.as_str());
            },
        }
    }
    if failures.unicode_len() == 0 {
        Ok(())
    } else {
        Err(Error::msg(failures))
    }
}

/// `error` with the rollback outcome attached when the rollback failed too.
fn with_rollback<D>(targets: &Vec<String>, detach: D, error: Error) -> (e: Error)
    where
        D: FnMut(&str) -> Result<()>,
    requires
        forall|t: &str| detach.requires((t,)),
    ensures
        e == error || {
            &&& e is Msg
            &&& exists|k: int| 0 <= k < targets@.len() && detach_fails(detach, #[trigger] targets@[k]@)
            &&& crate::text::has_prefix(e.spec_message(), "additionally failed to roll back custom bind mounts: "@)
            &&& e.spec_message().len() >= error.spec_message().len() + 2
            &&& e.spec_message().skip(e.spec_message().len() - error.spec_message().len() - 2) == ": "@ + error.spec_message()
        },
{
    match rollback_targets(targets, detach) {
        Ok(()) => error,
        Err(rollback_error) => {
            let ghost em = error.spec_message();
            let mut message = owned("additionally failed to roll back custom bind mounts: ");
            let ghost head = message@;
            let r = rollback_error.message();
            append_str(&mut message, r.as_str());
            append_str(&mut message, ": ");
            let m = error.message();
            append_str(&mut message, m.as_str());
            proof {
                reveal_strlit(": ");
                assert(message@.subrange(0, head.len() as int) =~= head);
                assert(message@.skip(message@.len() - em.len() - 2) =~= ": "@ + em);
            }
            Error::msg(message)
        },
    }
}

/// Applies the bind mounts in configuration order, then registers their
/// targets, parents first, unless unmount registration is disabled. A
/// failure detaches every mount of the batch, newest first. The target order
/// is checked before anything is mounted.
pub fn apply_custom_bind_mounts_with<A, R, D>(
    mounts: &[CustomBindMount],
    disable_umount: bool,
    apply: A,
    register_umountable: R,
    detach: D,
) -> (r: Result<Vec<AppliedCustomBind>>)
    where
        A: FnMut(&CustomBindMount) -> Result<AppliedCustomBind>,
        R: FnMut(&str) -> Result<()>,
        D: FnMut(&str) -> Result<()>,
    requires
        forall|m: &CustomBindMount| apply.requires((m,)),
        forall|t: &str| register_umountable.requires((t,)),
        forall|t: &str| detach.requires((t,)),
    ensures
        !targets_ordered(mounts@) ==> (r matches Err(e) && order_error(e)),
        targets_ordered(mounts@) && mounts@.len() == 0 ==> (r matches Ok(applied) && applied@.len() == 0),
        r matches Ok(applied) ==> applied@.len() == mounts@.len() && forall|i: int|
            0 <= i < mounts@.len() ==> apply.ensures((&mounts@[i],), Ok::<AppliedCustomBind, Error>(#[trigger] applied@[i])),
{
    match validate_target_order(mounts) {
        Ok(()) => {},
        Err(e) => return Err(e),
    }
    let mut applier = apply;
    let mut register_umountable = register_umountable;
    let mut detach = detach;
    let mut applied: Vec<AppliedCustomBind> = Vec::new();
    let mut done: Vec<String> = Vec::new();
    let mut i: usize = 0;
    while i < mounts.len()
        invariant
            0 <= i <= mounts@.len(),
            applied@.len() == i,
            applier == apply,
            targets_ordered(mounts@),
            forall|q: int| 0 <= q < i ==> apply.ensures((&mounts@[q],), Ok::<AppliedCustomBind, Error>(#[trigger] applied@[q])),
            forall|m: &CustomBindMount| applier.requires((m,)),
            forall|t: &str| detach.requires((t,)),
        decreases mounts@.len() - i,
    {
        let mount = &mounts[i];
        let outcome = applier(mount);
        match outcome {
            Ok(bound) => {
                done.push(owned(bound.target.as_str()));
                applied.push(bound);
            },
            Err(error) => {
                let mut message = owned("failed to apply custom bind ");
                append_str(&mut message, mount.source.as_str());
                append_str(&mut message, " -> ");
                append_str(&mut message, mount.target.as_str());
                append_str(&mut message, ": ");
                let m = error.message();
                append_str(&mut message, m.as_str());
                return Err(with_rollback(&done, detach, Error::msg(message)));
            },
        }
        i = i + 1;
    }
    if !disable_umount {
        let targets = registration_targets(applied.as_slice());
        let mut k: usize = 0;
        while k < targets.len()
            invariant
                0 <= k <= targets@.len(),
                applied@.len() == mounts@.len(),
                targets@.len() == applied@.len(),
                targets_ordered(mounts@),
                forall|q: int| 0 <= q < mounts@.len() ==> apply.ensures((&mounts@[q],), Ok::<AppliedCustomBind, Error>(#[trigger] applied@[q])),
                forall|t: &str| register_umountable.requires((t,)),
                forall|t: &str| detach.requires((t,)),
            decreases targets@.len() - k,
        {
            match register_umountable(targets[k].as_str()) {
                Ok(()) => {},
                Err(error) => {
                    let mut message = owned("failed to register custom bind target as umountable: ");
                    append_str(&mut message, targets[k].as_str());
                    append_str(&mut message, ": ");
                    let m = error.message();
                    append_str(&mut message, m.as_str());
                    return Err(with_rollback(&done, detach, Error::msg(message)));
                },
            }
            k = k + 1;
        }
    }
    Ok(applied)
}

/// Finishes a fresh bind mount; when that fails, the bind is detached again
/// and a failed detach is reported along with the original error.
pub fn finish_bound_mount_with<F, D>(target: &str, finish: F, detach: D) -> (r: Result<()>)
    where
        F: FnOnce() -> Result<()>,
        D: FnMut(&str) -> Result<()>,
    requires
        finish.requires(()),
        forall|t: &str| detach.requires((t,)),
    ensures
        exists|done: Result<()>| #[trigger] finish.ensures((), done) && (done is Ok <==> r is Ok)
            && (done matches Err(e) ==> exists|undone: Result<()>| #[trigger] detach.ensures((target,), undone)
                && (undone is Ok ==> r == Err::<(), Error>(e))
                && (undone matches Err(u) ==> r matches Err(m) && m.spec_message() == "additionally failed to detach custom bind "@
                    + target@ + ": "@ + u.spec_message() + ": "@ + e.spec_message())),
{
    let mut detach = detach;
    let error = match finish() {
        Ok(()) => return Ok(()),
        Err(error) => error,
    };
    match detach(target) {
        Ok(()) => Err(error),
        Err(rollback_error) => {
            let mut message = owned("additionally failed to detach custom bind ");
            append_str(&mut message, target);
            append_str(&mut message, ": ");
            let r = rollback_error.message();
            append_str(&mut message, r.as_str());
            append_str(&mut message, ": ");
            let m = error.message();
            append_str(&mut message, m.as_str());
            Err(Error::msg(message))
        },
    }
}

} // verus!
