//! One hot VFS module transaction: isolation uids first, then rules, with the
//! intent journaled before any kernel mutation and a verified rollback.
use vstd::prelude::*;

use crate::errors::{Error, Result};
use crate::runtime::ledger::Ledger;
use crate::runtime::lifecycle::contains_uid;
use crate::runtime::rules::{self, RuleKernel, SavedRule};
use crate::text::{append_str, owned, str_eq, u64_decimal};

verus! {

/// The kernel's isolation uid table.
pub trait UidKernel {
    fn uids(&mut self) -> Result<Vec<u32>>;

    fn add_uids(&mut self, uids: &[u32]) -> Result<()>;

    fn remove_uids(&mut self, uids: &[u32]) -> Result<()>;
}

/// Every expected uid is present in `actual`.
pub open spec fn uids_present(actual: Seq<u32>, expected: Seq<u32>) -> bool {
    forall|i: int| 0 <= i < expected.len() ==> actual.contains(#[trigger] expected[i])
}

/// Succeeds exactly when every expected uid is present.
pub fn verify_uids(actual: &[u32], expected: &[u32]) -> (r: Result<()>)
    ensures
        r is Ok <==> uids_present(actual@, expected@),
{
    let mut i: usize = 0;
    while i < expected.len()
        invariant
            0 <= i <= expected@.len(),
            forall|k: int| 0 <= k < i ==> actual@.contains(#[trigger] expected@[k]),
        decreases expected@.len() - i,
    {
        if !contains_uid(actual, expected[i]) {
            let mut message = owned("VFS isolation UID missing: ");
            let uid = u64_decimal(expected[i] as u64);
            append_str(&mut message, uid.as_str());
            return Err(Error::msg(message));
        }
        i = i + 1;
    }
    Ok(())
}

/// Strictly increasing, hence free of duplicates.
pub open spec fn strictly_sorted(s: Seq<u32>) -> bool {
    forall|i: int, j: int| 0 <= i < j < s.len() ==> #[trigger] s[i] < #[trigger] s[j]
}

/// Growing a prefix by one element adds exactly that element.
proof fn lemma_prefix_contains(s: Seq<u32>, i: int, x: u32)
    requires
        0 <= i < s.len(),
    ensures
        s.subrange(0, i + 1).contains(x) <==> s.subrange(0, i).contains(x) || s[i] == x,
{
    assert(s.subrange(0, i + 1) =~= s.subrange(0, i).push(s[i]));
    vstd::seq_lib::lemma_seq_contains_after_push(s.subrange(0, i), s[i], x);
}

/// Inserts `uid` into a strictly sorted list unless it is already there.
fn insert_uid_sorted(uids: &mut Vec<u32>, uid: u32)
    requires
        strictly_sorted(old(uids)@),
    ensures
        strictly_sorted(final(uids)@),
        final(uids)@.to_set() == old(uids)@.to_set().insert(uid),
{
    let mut p: usize = 0;
    while p < uids.len() && uids[p] < uid
        invariant
            0 <= p <= uids@.len(),
            uids@ == old(uids)@,
            strictly_sorted(uids@),
            forall|k: int| 0 <= k < p ==> #[trigger] uids@[k] < uid,
        decreases uids@.len() - p,
    {
        p = p + 1;
    }
    if p < uids.len() && uids[p] == uid {
        assert(uids@.to_set().insert(uid) =~= uids@.to_set());
        return;
    }
    let ghost prev = uids@;
    uids.insert(p, uid);
    proof {
        prev.insert_ensures(p as int, uid);
        assert(uids@ =~= prev.insert(p as int, uid));
        assert forall|i: int, j: int| 0 <= i < j < uids@.len() implies #[trigger] uids@[i]
            < #[trigger] uids@[j] by {
            if j < p {
            } else if j == p {
            } else if i < p {
                assert(uids@[j] == prev[j - 1]);
                assert(prev[j - 1] >= prev[p as int]);
            } else if i == p {
                assert(uids@[j] == prev[j - 1]);
                if j - 1 > p {
                    assert(prev[p as int] < prev[j - 1]);
                }
            } else {
                assert(uids@[i] == prev[i - 1] && uids@[j] == prev[j - 1]);
            }
        }
        assert forall|x: u32| uids@.to_set().contains(x) <==> prev.to_set().insert(uid).contains(x) by {
            if uids@.contains(x) {
                let k = choose|k: int| 0 <= k < uids@.len() && uids@[k] == x;
                if k < p {
                    assert(prev[k] == x);
                } else if k > p {
                    assert(prev[k - 1] == x);
                }
            }
            if prev.contains(x) {
                let k = choose|k: int| 0 <= k < prev.len() && prev[k] == x;
                if k < p {
                    assert(uids@[k] == x);
                } else {
                    assert(uids@[k + 1] == x);
                }
            }
        }
        assert(uids@.to_set() =~= prev.to_set().insert(uid));
    }
}

/// The requested uids the kernel did not already isolate, ordered and unique.
pub fn introduced_uids(requested: &[u32], original: &[u32]) -> (r: Vec<u32>)
    ensures
        strictly_sorted(r@),
        forall|u: u32| r@.contains(u) <==> requested@.contains(u) && !original@.contains(u),
{
    let mut out: Vec<u32> = Vec::new();
    let mut i: usize = 0;
    while i < requested.len()
        invariant
            0 <= i <= requested@.len(),
            strictly_sorted(out@),
            forall|u: u32|
                #[trigger] out@.to_set().contains(u) <==> (requested@.subrange(0, i as int).contains(u)
                    && !original@.contains(u)),
        decreases requested@.len() - i,
    {
        let uid = requested[i];
        let ghost prev = out@;
        if !contains_uid(original, uid) {
            insert_uid_sorted(&mut out, uid);
        }
        proof {
            assert forall|u: u32|
                #[trigger] out@.to_set().contains(u) <==> (requested@.subrange(0, i + 1).contains(u)
                    && !original@.contains(u)) by {
                lemma_prefix_contains(requested@, i as int, u);
                assert(prev.to_set().contains(u) <==> (requested@.subrange(0, i as int).contains(u)
                    && !original@.contains(u)));
            }
        }
        i = i + 1;
    }
    assert(requested@.subrange(0, requested@.len() as int) =~= requested@);
    proof {
        assert forall|u: u32| out@.contains(u) <==> out@.to_set().contains(u) by {
        }
    }
    out
}

/// The owned uids merged with the newly introduced ones, ordered and unique.
pub fn merge_uids(owned_uids: &[u32], introduced: &[u32]) -> (r: Vec<u32>)
    ensures
        strictly_sorted(r@),
        forall|u: u32| r@.contains(u) <==> owned_uids@.contains(u) || introduced@.contains(u),
{
    let mut out: Vec<u32> = Vec::new();
    let mut i: usize = 0;
    while i < owned_uids.len()
        invariant
            0 <= i <= owned_uids@.len(),
            strictly_sorted(out@),
            forall|u: u32| #[trigger] out@.to_set().contains(u) <==> owned_uids@.subrange(0, i as int).contains(u),
        decreases owned_uids@.len() - i,
    {
        let ghost prev = out@;
        insert_uid_sorted(&mut out, owned_uids[i]);
        proof {
            assert forall|u: u32| #[trigger] out@.to_set().contains(u) <==> owned_uids@.subrange(0, i + 1).contains(u) by {
                lemma_prefix_contains(owned_uids@, i as int, u);
                assert(prev.to_set().contains(u) <==> owned_uids@.subrange(0, i as int).contains(u));
            }
        }
        i = i + 1;
    }
    assert(owned_uids@.subrange(0, owned_uids@.len() as int) =~= owned_uids@);
    assert(introduced@.subrange(0, 0) =~= Seq::<u32>::empty());
    let mut j: usize = 0;
    while j < introduced.len()
        invariant
            0 <= j <= introduced@.len(),
            strictly_sorted(out@),
            forall|u: u32| #[trigger] out@.to_set().contains(u) <==> (owned_uids@.contains(u)
                || introduced@.subrange(0, j as int).contains(u)),
        decreases introduced@.len() - j,
    {
        let ghost prev = out@;
        insert_uid_sorted(&mut out, introduced[j]);
        proof {
            assert forall|u: u32| #[trigger] out@.to_set().contains(u) <==> (owned_uids@.contains(u)
                || introduced@.subrange(0, j + 1).contains(u)) by {
                lemma_prefix_contains(introduced@, j as int, u);
                assert(prev.to_set().contains(u) <==> (owned_uids@.contains(u)
                    || introduced@.subrange(0, j as int).contains(u)));
            }
        }
        j = j + 1;
    }
    assert(introduced@.subrange(0, introduced@.len() as int) =~= introduced@);
    proof {
        assert forall|u: u32| out@.contains(u) <==> out@.to_set().contains(u) by {
        }
    }
    out
}

/// The module ids `before` owns rules for.
pub open spec fn owned_by_before(before: Seq<SavedRule>, rule: SavedRule) -> bool {
    exists|k: int| 0 <= k < before.len() && #[trigger] before[k].module_id@ == rule.module_id@
}

/// The saved rules that belong to modules `before` does not touch.
pub open spec fn keep_of(saved: Seq<SavedRule>, before: Seq<SavedRule>) -> Seq<SavedRule>
    decreases saved.len(),
{
    if saved.len() == 0 {
        seq![]
    } else {
        let rest = keep_of(saved.drop_last(), before);
        if owned_by_before(before, saved.last()) {
            rest
        } else {
            rest.push(saved.last())
        }
    }
}

fn module_in(before: &[SavedRule], rule: &SavedRule) -> (r: bool)
    ensures
        r == owned_by_before(before@, *rule),
{
    let mut k: usize = 0;
    while k < before.len()
        invariant
            0 <= k <= before@.len(),
            forall|q: int| 0 <= q < k ==> #[trigger] before@[q].module_id@ != rule.module_id@,
        decreases before@.len() - k,
    {
        if str_eq(before[k].module_id.as_str(), rule.module_id.as_str()) {
            return true;
        }
        k = k + 1;
    }
    false
}

/// The ledger's rule set after the transaction: rules of the modules not in
/// `before` keep their order, followed by `after`.
pub fn desired_rules(saved: &[SavedRule], before: &[SavedRule], after: &[SavedRule]) -> (r: Vec<
    SavedRule,
>)
    ensures
        r@ == keep_of(saved@, before@) + after@,
{
    let mut out: Vec<SavedRule> = Vec::new();
    let mut i: usize = 0;
    while i < saved.len()
        invariant
            0 <= i <= saved@.len(),
            out@ == keep_of(saved@.subrange(0, i as int), before@),
        decreases saved@.len() - i,
    {
        assert(saved@.subrange(0, i + 1).drop_last() =~= saved@.subrange(0, i as int));
        if !module_in(before, &saved[i]) {
            out.push(saved[i].duplicate());
        }
        i = i + 1;
    }
    assert(saved@.subrange(0, saved@.len() as int) =~= saved@);
    let mut j: usize = 0;
    let ghost kept = out@;
    while j < after.len()
        invariant
            0 <= j <= after@.len(),
            out@ == kept + after@.subrange(0, j as int),
        decreases after@.len() - j,
    {
        out.push(after[j].duplicate());
        assert(out@ =~= kept + after@.subrange(0, j + 1));
        j = j + 1;
    }
    assert(after@.subrange(0, after@.len() as int) =~= after@);
    out
}

fn copy_uids(uids: &[u32]) -> (r: Vec<u32>)
    ensures
        r@ == uids@,
{
    let mut out: Vec<u32> = Vec::new();
    let mut i: usize = 0;
    while i < uids.len()
        invariant
            0 <= i <= uids@.len(),
            out@ == uids@.subrange(0, i as int),
        decreases uids@.len() - i,
    {
        out.push(uids[i]);
        assert(out@ =~= uids@.subrange(0, i + 1));
        i = i + 1;
    }
    assert(uids@.subrange(0, uids@.len() as int) =~= uids@);
    out
}

fn concat_uids(a: &[u32], b: &[u32]) -> (r: Vec<u32>)
    ensures
        r@ == a@ + b@,
{
    let mut out = copy_uids(a);
    let mut i: usize = 0;
    while i < b.len()
        invariant
            0 <= i <= b@.len(),
            out@ == a@ + b@.subrange(0, i as int),
        decreases b@.len() - i,
    {
        out.push(b[i]);
        assert(out@ =~= a@ + b@.subrange(0, i + 1));
        i = i + 1;
    }
    assert(b@.subrange(0, b@.len() as int) =~= b@);
    out
}

/// The owned isolation after a transaction, given the uids the kernel
/// isolated before it (`original`, which held every owned uid): the owned
/// uids, plus the requested ones the kernel did not isolate already. A
/// requested uid that was isolated before stays unowned.
pub open spec fn isolation_explained(original: Seq<u32>, owned_before: Seq<u32>, requested: Seq<u32>, owned_after: Seq<u32>) -> bool {
    &&& uids_present(original, owned_before)
    &&& forall|u: u32| owned_after.contains(u) <==> owned_before.contains(u) || (requested.contains(u)
        && !original.contains(u))
}

/// The ledger records why the transaction failed.
pub open spec fn failure_noted(error: Option<String>) -> bool {
    error matches Some(m) && crate::text::has_prefix(m@, "hot VFS transaction failed: "@)
}

/// The journaled intent: the ledger before, marked `applying` with no error,
/// the desired rules pending, and the isolation it is about to own.
pub open spec fn intent_recorded(intent: Ledger, before: Ledger, pending: Seq<SavedRule>, isolated: Seq<u32>) -> bool {
    &&& intent.phase@ == "applying"@
    &&& intent.error is None
    &&& intent.pending_rules@ == pending
    &&& intent.isolated_uids@ == isolated
    &&& intent.rules@ == before.rules@
    &&& intent.version == before.version
    &&& intent.boot_id@ == before.boot_id@
    &&& intent.namespace@ == before.namespace@
    &&& intent.generation == before.generation
    &&& intent.mounts@ == before.mounts@
    &&& intent.non_vfs_modules@ == before.non_vfs_modules@
    &&& intent.modules@ == before.modules@
}

/// What a transaction keeps from its intent: the uids it isolates anew, the
/// uids the kernel must then report, the owned uids before it, and the rule
/// set it commits.
pub struct IsolationIntent {
    pub introduced: Vec<u32>,
    pub expected: Vec<u32>,
    pub original_owned: Vec<u32>,
    pub desired: Vec<SavedRule>,
}

/// Records the intent of a transaction in the ledger, given the uids the
/// kernel reported as isolated. The owned uids must all be reported; the
/// requested uids that are not are the ones this transaction introduces and
/// owns. A requested uid the kernel already isolated stays unowned.
pub fn record_intent(
    saved: &mut Ledger,
    before: &[SavedRule],
    after: &[SavedRule],
    requested_uids: &[u32],
    reported_uids: &[u32],
) -> (r: Result<IsolationIntent>)
    ensures
        r is Err <==> !uids_present(reported_uids@, old(saved).isolated_uids@),
        r is Err ==> *final(saved) == *old(saved),
        r matches Ok(i) ==> {
            &&& intent_recorded(*final(saved), *old(saved), keep_of(old(saved).rules@, before@) + after@, final(saved).isolated_uids@)
            &&& strictly_sorted(final(saved).isolated_uids@)
            &&& forall|u: u32| #[trigger] final(saved).isolated_uids@.contains(u) <==> old(saved).isolated_uids@.contains(u)
                || (requested_uids@.contains(u) && !reported_uids@.contains(u))
            &&& strictly_sorted(i.introduced@)
            &&& forall|u: u32| #[trigger] i.introduced@.contains(u) <==> requested_uids@.contains(u) && !reported_uids@.contains(u)
            &&& i.expected@ == reported_uids@ + i.introduced@
            &&& i.original_owned@ == old(saved).isolated_uids@
            &&& i.desired@ == keep_of(old(saved).rules@, before@) + after@
            &&& final(saved).ksu_unmounts == old(saved).ksu_unmounts
        },
{
    verify_uids(reported_uids, saved.isolated_uids.as_slice())?;
    let introduced = introduced_uids(requested_uids, reported_uids);
    let original_owned = copy_uids(saved.isolated_uids.as_slice());
    let expected = concat_uids(reported_uids, introduced.as_slice());
    let desired = desired_rules(saved.rules.as_slice(), before, after);
    let pending = desired_rules(saved.rules.as_slice(), before, after);
    saved.phase = owned("applying");
    saved.pending_rules = pending;
    saved.isolated_uids = merge_uids(original_owned.as_slice(), introduced.as_slice());
    saved.error = None;
    Ok(IsolationIntent { introduced, expected, original_owned, desired })
}

/// Persists the intent and applies one module transaction. Successful
/// ownership is committed by the caller together with its module snapshot.
///
/// Isolation uids are added and confirmed before any rule is published, every
/// rule change goes through [`rules::reconcile`], and a failure rolls the rules
/// back first and removes the new isolation only once the rules verified
/// clean; otherwise the ledger stays in `error` with the intent recorded.
pub fn reconcile<K, P>(
    kernel: &mut K,
    saved: &mut Ledger,
    before: &[SavedRule],
    after: &[SavedRule],
    requested_uids: &[u32],
    persist: P,
) -> (r: Result<()>)
    where
        K: RuleKernel + UidKernel,
        P: FnMut(&Ledger) -> Result<()>,
    requires
        forall|l: &Ledger| persist.requires((l,)),
    ensures
        !rules::unique_keys(before@) || !rules::unique_keys(after@) ==> r is Err && *final(saved)
            == *old(saved),
        r is Ok ==> final(saved).rules@ == keep_of(old(saved).rules@, before@) + after@,
        r is Ok ==> final(saved).pending_rules@.len() == 0,
        r is Ok ==> final(saved).phase@ == "applying"@,
        r is Ok ==> final(saved).error is None,
        r is Ok ==> strictly_sorted(final(saved).isolated_uids@),
        r is Ok ==> forall|u: u32| #[trigger] final(saved).isolated_uids@.contains(u)
            ==> old(saved).isolated_uids@.contains(u) || requested_uids@.contains(u),
        r is Ok ==> exists|original: Seq<u32>, isolated_after: Seq<u32>| #[trigger] isolation_explained(
            original,
            old(saved).isolated_uids@,
            requested_uids@,
            final(saved).isolated_uids@,
        ) && #[trigger] uids_present(isolated_after, original) && uids_present(isolated_after, requested_uids@),
        r is Ok ==> exists|initial: Seq<SavedRule>, current: Seq<SavedRule>| #[trigger] rules::snapshot_ok(initial, before@, after@)
            && #[trigger] rules::applied_ok(current, after@, before@, rules::foreign_of(initial, before@)),
        r is Ok ==> exists|intent: Ledger, done: Result<()>| #[trigger] persist.ensures((&intent,), done) && done is Ok && intent_recorded(
            intent,
            *old(saved),
            keep_of(old(saved).rules@, before@) + after@,
            final(saved).isolated_uids@,
        ),
        r is Err ==> {
            ||| *final(saved) == *old(saved)
            ||| final(saved).phase@ == "applying"@
            ||| (final(saved).phase@ == "ready"@ && final(saved).rules@ == old(saved).rules@
                && final(saved).pending_rules@.len() == 0 && final(saved).isolated_uids@ == old(saved).isolated_uids@
                && failure_noted(final(saved).error))
            ||| (final(saved).phase@ == "error"@ && final(saved).rules@ == old(saved).rules@
                && final(saved).pending_rules@ == keep_of(old(saved).rules@, before@) + after@
                && failure_noted(final(saved).error))
        },
{
    let mut persister = persist;
    rules::preflight(kernel, before, after)?;
    let original_uids = kernel.uids()?;
    let IsolationIntent { introduced, expected: expected_uids, original_owned: original_owned_uids, desired } =
        record_intent(saved, before, after, requested_uids, original_uids.as_slice())?;
    let ghost intent = *saved;
    let recorded = persister(&*saved);
    assert(persist.ensures((&*saved,), recorded));
    match recorded {
        Ok(()) => {},
        Err(e) => return Err(e),
    }
    assert(persist.ensures((&intent,), recorded) && recorded is Ok);
    assert(intent_recorded(intent, *old(saved), keep_of(old(saved).rules@, before@) + after@, saved.isolated_uids@));
    let mut rules_applied = false;
    let applied = apply_isolated(
        kernel,
        before,
        after,
        introduced.as_slice(),
        expected_uids.as_slice(),
        &mut rules_applied,
    );
    match applied {
        Ok(()) => {
            saved.rules = desired;
            saved.pending_rules = Vec::new();
            proof {
                assert forall|u: u32| #[trigger] saved.isolated_uids@.contains(u) implies old(
                    saved,
                ).isolated_uids@.contains(u) || requested_uids@.contains(u) by {
                    assert(original_owned_uids@.contains(u) || introduced@.contains(u));
                }
                assert(isolation_explained(original_uids@, old(saved).isolated_uids@, requested_uids@, saved.isolated_uids@));
                let current = choose|current: Seq<u32>| #[trigger] uids_present(current, expected_uids@);
                assert(expected_uids@ == original_uids@ + introduced@);
                assert forall|i: int| 0 <= i < original_uids@.len() implies current.contains(#[trigger] original_uids@[i]) by {
                    assert(expected_uids@[i] == original_uids@[i]);
                }
                assert forall|i: int| 0 <= i < requested_uids@.len() implies current.contains(#[trigger] requested_uids@[i]) by {
                    let u = requested_uids@[i];
                    assert(requested_uids@.contains(u));
                    if original_uids@.contains(u) {
                        let j = choose|j: int| 0 <= j < original_uids@.len() && original_uids@[j] == u;
                        assert(current.contains(original_uids@[j]));
                    } else {
                        assert(introduced@.contains(u));
                        let j = choose|j: int| 0 <= j < introduced@.len() && introduced@[j] == u;
                        assert(expected_uids@[original_uids@.len() + j] == u);
                    }
                }
                assert(uids_present(current, original_uids@) && uids_present(current, requested_uids@));
            }
            Ok(())
        },
        Err(err) => {
            if rules_applied {
                let _ = rules::reconcile(kernel, after, before);
            }
            let rules_recovered = rules_rolled_back(kernel, saved.rules.as_slice(), before, after);
            if rules_recovered {
                let mut k: usize = 0;
                while k < introduced.len()
                    decreases introduced@.len() - k,
                {
                    let one = vec![introduced[k]];
                    let _ = kernel.remove_uids(one.as_slice());
                    k = k + 1;
                }
            }
            let recovered = rules_recovered && uids_restored(
                kernel,
                original_uids.as_slice(),
                introduced.as_slice(),
            );
            let mut message = owned("hot VFS transaction failed: ");
            let ghost head = message@;
            let cause = err.message();
            append_str(&mut message, cause.as_str());
            if recovered {
                append_str(&mut message, "; rollback clean");
            } else {
                append_str(&mut message, "; rollback incomplete");
            }
            assert(message@.subrange(0, head.len() as int) =~= head);
            saved.phase = if recovered {
                owned("ready")
            } else {
                owned("error")
            };
            saved.error = Some(message.clone());
            if recovered {
                saved.pending_rules = Vec::new();
                saved.isolated_uids = original_owned_uids;
            }
            persister(&*saved)?;
            Err(Error::msg(message))
        },
    }
}

fn apply_isolated<K: RuleKernel + UidKernel>(
    kernel: &mut K,
    before: &[SavedRule],
    after: &[SavedRule],
    introduced: &[u32],
    expected_uids: &[u32],
    rules_applied: &mut bool,
) -> (r: Result<()>)
    ensures
        r is Ok ==> *final(rules_applied),
        r is Ok ==> exists|current: Seq<u32>| #[trigger] uids_present(current, expected_uids@),
        r is Ok ==> exists|initial: Seq<SavedRule>, current: Seq<SavedRule>| #[trigger] rules::snapshot_ok(initial, before@, after@)
            && #[trigger] rules::applied_ok(current, after@, before@, rules::foreign_of(initial, before@)),
{
    if introduced.len() > 0 {
        kernel.add_uids(introduced)?;
    }
    let current = kernel.uids()?;
    verify_uids(current.as_slice(), expected_uids)?;
    rules::reconcile(kernel, before, after)?;
    *rules_applied = true;
    let current = kernel.uids()?;
    let verified = verify_uids(current.as_slice(), expected_uids);
    assert(verified is Ok ==> uids_present(current@, expected_uids@));
    verified
}

/// Whether the kernel again holds every previously owned rule and none of the
/// newly introduced targets.
fn rules_rolled_back<K: RuleKernel>(
    kernel: &mut K,
    owned_rules: &[SavedRule],
    before: &[SavedRule],
    after: &[SavedRule],
) -> bool {
    if rules::verify_owned(kernel, owned_rules).is_err() {
        return false;
    }
    match kernel.list() {
        Ok(actual) => {
            let mut i: usize = 0;
            while i < after.len()
                invariant
                    0 <= i <= after@.len(),
                    forall|p: int, k: int| 0 <= p < i && 0 <= k < actual@.len()
                        && !rules::has_key_in(before@, #[trigger] after@[p])
                        && rules::spec_same_key(#[trigger] actual@[k], after@[p]) ==> rules::spec_derived_parent(actual@[k]),
                decreases after@.len() - i,
            {
                let new = &after[i];
                let mut introduced_target = true;
                let mut b: usize = 0;
                while b < before.len()
                    invariant
                        0 <= b <= before@.len(),
                        introduced_target <==> forall|q: int| 0 <= q < b ==> !rules::spec_same_key(#[trigger] before@[q], *new),
                    decreases before@.len() - b,
                {
                    if before[b].uid == new.uid && str_eq(
                        before[b].virtual_path.as_str(),
                        new.virtual_path.as_str(),
                    ) {
                        introduced_target = false;
                    }
                    b = b + 1;
                }
                proof {
                    if !introduced_target {
                        let q = choose|q: int| 0 <= q < before@.len() && rules::spec_same_key(#[trigger] before@[q], *new);
                        assert(rules::has_key_in(before@, *new));
                    }
                }
                if introduced_target {
                    let mut a: usize = 0;
                    while a < actual.len()
                        invariant
                            0 <= a <= actual@.len(),
                            forall|k: int| 0 <= k < a && rules::spec_same_key(#[trigger] actual@[k], *new) ==> rules::spec_derived_parent(actual@[k]),
                        decreases actual@.len() - a,
                    {
                        if actual[a].uid == new.uid && str_eq(
                            actual[a].virtual_path.as_str(),
                            new.virtual_path.as_str(),
                        ) && !rules::derived_parent(&actual[a]) {
                            return false;
                        }
                        a = a + 1;
                    }
                }
                i = i + 1;
            }
            true
        },
        Err(_) => false,
    }
}

/// Whether the kernel holds every original uid and none of the introduced ones.
fn uids_restored<K: UidKernel>(kernel: &mut K, original: &[u32], introduced: &[u32]) -> bool {
    match kernel.uids() {
        Ok(actual) => {
            let mut i: usize = 0;
            while i < original.len()
                invariant
                    0 <= i <= original@.len(),
                    forall|q: int| 0 <= q < i ==> actual@.contains(#[trigger] original@[q]),
                decreases original@.len() - i,
            {
                if !contains_uid(actual.as_slice(), original[i]) {
                    return false;
                }
                i = i + 1;
            }
            let mut j: usize = 0;
            while j < introduced.len()
                invariant
                    0 <= j <= introduced@.len(),
                    forall|q: int| 0 <= q < j ==> !actual@.contains(#[trigger] introduced@[q]),
                decreases introduced@.len() - j,
            {
                if contains_uid(actual.as_slice(), introduced[j]) {
                    return false;
                }
                j = j + 1;
            }
            true
        },
        Err(_) => false,
    }
}

} // verus!
