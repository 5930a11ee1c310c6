//! Exact mount ownership and conservative, repeatable cleanup.
//!
//! A mount is owned only by its id, and only when its identity (target,
//! device, type and source) still matches what was recorded. Cleanup checks
//! every recorded mount before it detaches anything, detaches the deepest
//! owned mount first, and confirms on readback that each detached mount is
//! gone.
use vstd::prelude::*;

use crate::errors::{Error, Result};
use crate::paths::components;
use crate::runtime::ledger::OwnedMount;
use crate::sys::mountinfo::{path_under, under, MountEntry};
use crate::text::{
    append_str, has_name, lemma_lex_irreflexive, lemma_lex_transitive, lex_lt, owned, str_eq, str_lt,
};

verus! {

/// The text of an optional string.
pub open spec fn opt_text(o: Option<String>) -> Option<Seq<char>> {
    match o {
        Some(s) => Some(s@),
        None => None,
    }
}

/// The same mount: same id, target, device, filesystem type and source.
pub open spec fn same_identity(a: OwnedMount, b: OwnedMount) -> bool {
    &&& a.id == b.id
    &&& a.target@ == b.target@
    &&& a.device@ == b.device@
    &&& a.fs_type@ == b.fs_type@
    &&& opt_text(a.source) == opt_text(b.source)
}

/// The message of an ownership failure at `target`.
pub open spec fn ownership_failure(target: Seq<char>, detail: Seq<char>) -> Seq<char> {
    "verify runtime mount ownership: "@ + target + ": "@ + detail
}

fn failure(target: &str, detail: &str) -> (e: Error)
    ensures
        e is Msg,
        e.spec_message() == ownership_failure(target@, detail@),
{
    let mut message = owned("verify runtime mount ownership: ");
    append_str(&mut message, target);
    append_str(&mut message, ": ");
    append_str(&mut message, detail);
    Error::msg(message)
}

fn same_text(a: &Option<String>, b: &Option<String>) -> (r: bool)
    ensures
        r == (opt_text(*a) == opt_text(*b)),
{
    match (a, b) {
        (Some(x), Some(y)) => str_eq(x.as_str(), y.as_str()),
        (None, None) => true,
        _ => false,
    }
}

fn identity_matches(a: &OwnedMount, b: &OwnedMount) -> (r: bool)
    ensures
        r == same_identity(*a, *b),
{
    a.id == b.id && str_eq(a.target.as_str(), b.target.as_str()) && str_eq(a.device.as_str(), b.device.as_str())
        && str_eq(a.fs_type.as_str(), b.fs_type.as_str()) && same_text(&a.source, &b.source)
}

/// The first baseline mount with id `id`, from the `i`-th on.
pub open spec fn first_with_id(baseline: Seq<OwnedMount>, id: i32, i: int) -> Option<OwnedMount>
    decreases baseline.len() - i,
{
    if i < 0 || i >= baseline.len() {
        None
    } else if baseline[i].id == id {
        Some(baseline[i])
    } else {
        first_with_id(baseline, id, i + 1)
    }
}

/// The ids of the baseline mounts at exactly `target`, in baseline order.
pub open spec fn ids_at(baseline: Seq<OwnedMount>, target: Seq<char>) -> Seq<i32>
    decreases baseline.len(),
{
    if baseline.len() == 0 {
        Seq::empty()
    } else {
        let prev = ids_at(baseline.drop_last(), target);
        if baseline.last().target@ == target {
            prev.push(baseline.last().id)
        } else {
            prev
        }
    }
}

/// Which of the first `n` current mounts a capture takes (by index), or
/// the target where a baseline mount's identity changed.
pub open spec fn capture_outcome(
    targets: Seq<String>,
    baseline: Seq<OwnedMount>,
    current: Seq<OwnedMount>,
    n: int,
) -> core::result::Result<Seq<int>, Seq<char>>
    decreases n,
{
    if n <= 0 {
        Ok(Seq::empty())
    } else {
        match capture_outcome(targets, baseline, current, n - 1) {
            Err(t) => Err(t),
            Ok(picked) => {
                let e = current[n - 1];
                if !has_name(targets, e.target@) {
                    Ok(picked)
                } else {
                    match first_with_id(baseline, e.id, 0) {
                        Some(old) => if same_identity(old, e) {
                            Ok(picked)
                        } else {
                            Err(e.target@)
                        },
                        None => Ok(picked.push(n - 1)),
                    }
                }
            },
        }
    }
}

/// `x` records the current mount `e` with the baseline ids at its target.
pub open spec fn captured_from(x: OwnedMount, e: OwnedMount, baseline: Seq<OwnedMount>) -> bool {
    &&& same_identity(x, e)
    &&& x.baseline_ids@ == ids_at(baseline, e.target@)
}

fn copy_text(o: &Option<String>) -> (r: Option<String>)
    ensures
        opt_text(r) == opt_text(*o),
{
    match o {
        Some(s) => Some(s.clone()),
        None => None,
    }
}

fn find_by_id(list: &[OwnedMount], id: i32) -> (r: Option<usize>)
    ensures
        match r {
            Some(i) => i < list@.len() && first_with_id(list@, id, 0) == Some(list@[i as int]),
            None => first_with_id(list@, id, 0) is None,
        },
{
    let mut i: usize = 0;
    while i < list.len()
        invariant
            0 <= i <= list@.len(),
            first_with_id(list@, id, 0) == first_with_id(list@, id, i as int),
        decreases list@.len() - i,
    {
        if list[i].id == id {
            return Some(i);
        }
        i = i + 1;
    }
    None
}

/// The ids of the baseline mounts at exactly `target`.
fn baseline_ids_at(baseline: &[OwnedMount], target: &str) -> (r: Vec<i32>)
    ensures
        r@ == ids_at(baseline@, target@),
{
    let mut out: Vec<i32> = Vec::new();
    let mut i: usize = 0;
    assert(baseline@.take(0) =~= Seq::<OwnedMount>::empty());
    while i < baseline.len()
        invariant
            0 <= i <= baseline@.len(),
            out@ == ids_at(baseline@.take(i as int), target@),
        decreases baseline@.len() - i,
    {
        assert(baseline@.take(i + 1).drop_last() =~= baseline@.take(i as int));
        if str_eq(baseline[i].target.as_str(), target) {
            out.push(baseline[i].id);
        }
        i = i + 1;
    }
    assert(baseline@.take(baseline@.len() as int) =~= baseline@);
    out
}

/// Captures the mounts that are new at exactly the committed `targets`:
/// every current mount there whose id the baseline lacks, recorded with the
/// baseline ids at its target. A baseline mount whose identity changed stops
/// the capture; source labels never establish ownership.
pub fn capture_snapshot(targets: &[String], baseline: &[OwnedMount], current: &[OwnedMount]) -> (r: Result<
    Vec<OwnedMount>,
>)
    ensures
        match (r, capture_outcome(targets@, baseline@, current@, current@.len() as int)) {
            (Ok(v), Ok(picked)) => v@.len() == picked.len() && forall|k: int|
                0 <= k < v@.len() ==> 0 <= #[trigger] picked[k] < current@.len() && captured_from(
                    v@[k],
                    current@[picked[k]],
                    baseline@,
                ),
            (Err(e), Err(t)) => e is Msg && e.spec_message() == ownership_failure(
                t,
                "baseline mount identity changed during capture"@,
            ),
            _ => false,
        },
{
    let mut captured: Vec<OwnedMount> = Vec::new();
    let ghost mut picked: Seq<int> = Seq::empty();
    let mut i: usize = 0;
    while i < current.len()
        invariant
            0 <= i <= current@.len(),
            capture_outcome(targets@, baseline@, current@, i as int) == Ok::<Seq<int>, Seq<char>>(picked),
            captured@.len() == picked.len(),
            forall|k: int|
                0 <= k < captured@.len() ==> 0 <= #[trigger] picked[k] < current@.len() && captured_from(
                    captured@[k],
                    current@[picked[k]],
                    baseline@,
                ),
        decreases current@.len() - i,
    {
        let entry = &current[i];
        if crate::plan::paths::contains_name(targets, entry.target.as_str()) {
            match find_by_id(baseline, entry.id) {
                Some(j) => {
                    if !identity_matches(&baseline[j], entry) {
                        proof {
                            lemma_capture_err(targets@, baseline@, current@, i + 1, current@.len() as int);
                        }
                        return Err(failure(entry.target.as_str(), "baseline mount identity changed during capture"));
                    }
                },
                None => {
                    let record = OwnedMount {
                        target: entry.target.clone(),
                        id: entry.id,
                        baseline_ids: baseline_ids_at(baseline, entry.target.as_str()),
                        device: entry.device.clone(),
                        fs_type: entry.fs_type.clone(),
                        source: copy_text(&entry.source),
                    };
                    captured.push(record);
                    proof {
                        picked = picked.push(i as int);
                    }
                },
            }
        }
        i = i + 1;
    }
    Ok(captured)
}

proof fn lemma_capture_err(
    targets: Seq<String>,
    baseline: Seq<OwnedMount>,
    current: Seq<OwnedMount>,
    i: int,
    n: int,
)
    requires
        0 <= i <= n,
        capture_outcome(targets, baseline, current, i) is Err,
    ensures
        capture_outcome(targets, baseline, current, n) == capture_outcome(targets, baseline, current, i),
    decreases n - i,
{
    if n > i {
        lemma_capture_err(targets, baseline, current, i, n - 1);
    }
}

/// Some current mount has id `id`.
pub open spec fn live(current: Seq<OwnedMount>, id: i32) -> bool {
    exists|i: int| 0 <= i < current.len() && #[trigger] current[i].id == id
}

/// Some recorded mount has id `id`.
pub open spec fn owned_id(owned: Seq<OwnedMount>, id: i32) -> bool {
    exists|k: int| 0 <= k < owned.len() && #[trigger] owned[k].id == id
}

/// The `j`-th current mount repeats the id of an earlier one.
pub open spec fn repeats_id(current: Seq<OwnedMount>, j: int) -> bool {
    exists|i: int| 0 <= i < j && current[i].id == #[trigger] current[j].id
}

/// The `k`-th recorded mount cannot be an owned mount: a relative target,
/// an id that is not positive or repeats an earlier record, or an id among
/// its own baseline ids.
pub open spec fn invalid_saved(owned: Seq<OwnedMount>, k: int) -> bool {
    let m = owned[k];
    ||| !(m.target@.len() > 0 && m.target@[0] == '/')
    ||| m.id <= 0
    ||| (exists|j: int| 0 <= j < k && #[trigger] owned[j].id == m.id)
    ||| m.baseline_ids@.contains(m.id)
}

/// The `k`-th recorded mount is live under its id with another identity.
pub open spec fn changed_owned(owned: Seq<OwnedMount>, current: Seq<OwnedMount>, k: int) -> bool {
    exists|i: int| 0 <= i < current.len() && #[trigger] current[i].id == owned[k].id && !same_identity(owned[k], current[i])
}

/// A current mount at the `k`-th recorded target is neither owned nor one of
/// that record's baseline mounts.
pub open spec fn foreign_at(owned: Seq<OwnedMount>, current: Seq<OwnedMount>, k: int) -> bool {
    exists|i: int|
        0 <= i < current.len() && #[trigger] current[i].target@ == owned[k].target@ && !owned_id(owned, current[i].id)
            && !owned[k].baseline_ids@.contains(current[i].id)
}

/// The `i`-th current mount lies strictly below the live `k`-th recorded
/// mount and is not owned.
pub open spec fn foreign_below(owned: Seq<OwnedMount>, current: Seq<OwnedMount>, k: int, i: int) -> bool {
    &&& live(current, owned[k].id)
    &&& current[i].target@ != owned[k].target@
    &&& under(current[i].target@, owned[k].target@)
    &&& !owned_id(owned, current[i].id)
}

/// Every check of the preflight passes.
pub open spec fn preflight_passes(owned: Seq<OwnedMount>, current: Seq<OwnedMount>) -> bool {
    &&& forall|j: int| 0 <= j < current.len() ==> !#[trigger] repeats_id(current, j)
    &&& forall|k: int|
        #![trigger invalid_saved(owned, k)]
        #![trigger changed_owned(owned, current, k)]
        0 <= k < owned.len() ==> !invalid_saved(owned, k) && !changed_owned(owned, current, k)
    &&& forall|k: int| 0 <= k < owned.len() ==> !#[trigger] foreign_at(owned, current, k)
    &&& forall|k: int, i: int| 0 <= k < owned.len() && 0 <= i < current.len() ==> !#[trigger] foreign_below(owned, current, k, i)
}

/// The `j`-th current mount repeats an id, reported as `message`.
pub open spec fn fails_duplicate(current: Seq<OwnedMount>, j: int, message: Seq<char>) -> bool {
    repeats_id(current, j) && message == ownership_failure(current[j].target@, "duplicate live mount ID"@)
}

/// The `k`-th record is invalid or changed, reported as `message`.
pub open spec fn fails_saved(owned: Seq<OwnedMount>, current: Seq<OwnedMount>, k: int, message: Seq<char>) -> bool {
    ||| invalid_saved(owned, k) && message == ownership_failure(owned[k].target@, "invalid saved mount identity"@)
    ||| changed_owned(owned, current, k) && message == ownership_failure(owned[k].target@, "owned mount identity changed"@)
}

/// A foreign mount sits at the `k`-th record's target, reported as `message`.
pub open spec fn fails_foreign_at(owned: Seq<OwnedMount>, current: Seq<OwnedMount>, k: int, message: Seq<char>) -> bool {
    foreign_at(owned, current, k) && message == ownership_failure(
        owned[k].target@,
        "foreign or replacement mount at owned target"@,
    )
}

/// The `i`-th current mount is a foreign one below the `k`-th record,
/// reported as `message`.
pub open spec fn fails_below(owned: Seq<OwnedMount>, current: Seq<OwnedMount>, k: int, i: int, message: Seq<char>) -> bool {
    foreign_below(owned, current, k, i) && message == ownership_failure(
        current[i].target@,
        "foreign descendant blocks owned mount cleanup"@,
    )
}

/// The failure a preflight reports, in the order the checks run: repeated
/// live ids, then invalid or changed records, then foreign mounts at owned
/// targets, then foreign mounts below live owned ones.
pub open spec fn preflight_failure(owned: Seq<OwnedMount>, current: Seq<OwnedMount>, message: Seq<char>) -> bool {
    if exists|j: int| 0 <= j < current.len() && #[trigger] repeats_id(current, j) {
        exists|j: int| 0 <= j < current.len() && #[trigger] fails_duplicate(current, j, message)
    } else if exists|k: int|
        #![trigger invalid_saved(owned, k)]
        #![trigger changed_owned(owned, current, k)]
        0 <= k < owned.len() && (invalid_saved(owned, k) || changed_owned(owned, current, k)) {
        exists|k: int| 0 <= k < owned.len() && #[trigger] fails_saved(owned, current, k, message)
    } else if exists|k: int| 0 <= k < owned.len() && #[trigger] foreign_at(owned, current, k) {
        exists|k: int| 0 <= k < owned.len() && #[trigger] fails_foreign_at(owned, current, k, message)
    } else {
        exists|k: int, i: int| 0 <= k < owned.len() && 0 <= i < current.len() && #[trigger] fails_below(owned, current, k, i, message)
    }
}

/// Detach order: deeper targets first, equally deep ones by target,
/// greatest first.
pub open spec fn detach_before(a: Seq<char>, b: Seq<char>) -> bool {
    components(a).len() > components(b).len() || (components(a).len() == components(b).len() && lex_lt(b, a))
}

proof fn lemma_detach_order(a: Seq<char>, b: Seq<char>, c: Seq<char>)
    ensures
        !detach_before(a, a),
        detach_before(a, b) && detach_before(b, c) ==> detach_before(a, c),
        detach_before(a, b) ==> !detach_before(b, a),
{
    lemma_lex_irreflexive(a);
    if detach_before(a, b) && detach_before(b, c) {
        if components(a).len() == components(b).len() && components(b).len() == components(c).len() {
            lemma_lex_transitive(c, b, a);
        }
    }
    if detach_before(a, b) && detach_before(b, a) {
        lemma_lex_transitive(a, b, a);
    }
}

fn depth(path: &str) -> (r: usize)
    ensures
        r == components(path@).len(),
{
    let parts = crate::paths::split_components(path);
    assert(crate::paths::views(parts@).len() == parts@.len());
    parts.len()
}

fn detaches_before(a: &str, b: &str) -> (r: bool)
    ensures
        r == detach_before(a@, b@),
{
    let da = depth(a);
    let db = depth(b);
    da > db || (da == db && str_lt(b, a))
}

fn ids_contain(ids: &Vec<i32>, id: i32) -> (r: bool)
    ensures
        r == ids@.contains(id),
{
    let mut i: usize = 0;
    while i < ids.len()
        invariant
            0 <= i <= ids@.len(),
            forall|j: int| 0 <= j < i ==> ids@[j] != id,
        decreases ids@.len() - i,
    {
        if ids[i] == id {
            assert(ids@[i as int] == id);
            return true;
        }
        i = i + 1;
    }
    false
}

fn is_live(current: &[OwnedMount], id: i32) -> (r: bool)
    ensures
        r == live(current@, id),
{
    let mut i: usize = 0;
    while i < current.len()
        invariant
            0 <= i <= current@.len(),
            forall|j: int| 0 <= j < i ==> #[trigger] current@[j].id != id,
        decreases current@.len() - i,
    {
        if current[i].id == id {
            return true;
        }
        i = i + 1;
    }
    false
}

fn is_owned_id(owned: &[OwnedMount], id: i32) -> (r: bool)
    ensures
        r == owned_id(owned@, id),
{
    let mut i: usize = 0;
    while i < owned.len()
        invariant
            0 <= i <= owned@.len(),
            forall|j: int| 0 <= j < i ==> #[trigger] owned@[j].id != id,
        decreases owned@.len() - i,
    {
        if owned[i].id == id {
            return true;
        }
        i = i + 1;
    }
    false
}

proof fn lemma_first_with_id(list: Seq<OwnedMount>, id: i32, s: int)
    requires
        0 <= s,
    ensures
        first_with_id(list, id, s) matches Some(x) ==> exists|i: int| s <= i < list.len() && list[i] == x && x.id == id,
        first_with_id(list, id, s) is None ==> forall|i: int| s <= i < list.len() ==> #[trigger] list[i].id != id,
    decreases list.len() - s,
{
    if s < list.len() && list[s].id != id {
        lemma_first_with_id(list, id, s + 1);
        assert forall|i: int| s <= i < list.len() && first_with_id(list, id, s) is None implies #[trigger] list[i].id != id by {
            if i > s {
            }
        }
    }
}

/// Checks every recorded mount against the current mount table before
/// anything is detached, and returns the recorded mounts that are live (by
/// index into `owned`), in detach order: deepest target first. Records whose
/// mount is already gone are still checked, so a retry after a partial
/// cleanup is told apart from a replacement by the baseline ids.
pub fn preflight(owned: &[OwnedMount], current: &[OwnedMount]) -> (r: Result<Vec<usize>>)
    ensures
        r is Ok <==> preflight_passes(owned@, current@),
        r matches Err(e) ==> e is Msg && preflight_failure(owned@, current@, e.spec_message()),
        r matches Ok(active) ==> {
            &&& forall|x: int| (exists|p: int| 0 <= p < active@.len() && #[trigger] active@[p] == x) <==> (0 <= x
                < owned@.len() && live(current@, owned@[x].id))
            &&& forall|p: int, q: int| 0 <= p < q < active@.len() ==> #[trigger] active@[p] != #[trigger] active@[q]
            &&& forall|p: int, q: int|
                0 <= p < q < active@.len() ==> !detach_before(
                    owned@[#[trigger] active@[q] as int].target@,
                    owned@[#[trigger] active@[p] as int].target@,
                )
        },
{
    // repeated live ids
    let mut j: usize = 0;
    while j < current.len()
        invariant
            0 <= j <= current@.len(),
            forall|q: int| 0 <= q < j ==> !repeats_id(current@, q),
        decreases current@.len() - j,
    {
        let mut i: usize = 0;
        while i < j
            invariant
                0 <= i <= j < current@.len(),
                forall|q: int| 0 <= q < i ==> current@[q].id != current@[j as int].id,
            decreases j - i,
        {
            if current[i].id == current[j].id {
                assert(repeats_id(current@, j as int));
                let e = failure(current[j].target.as_str(), "duplicate live mount ID");
                assert(fails_duplicate(current@, j as int, e.spec_message()));
                return Err(e);
            }
            i = i + 1;
        }
        j = j + 1;
    }
    // invalid or changed records
    let mut k: usize = 0;
    while k < owned.len()
        invariant
            0 <= k <= owned@.len(),
            forall|q: int| 0 <= q < current@.len() ==> !#[trigger] repeats_id(current@, q),
            forall|q: int| #![trigger invalid_saved(owned@, q)] #![trigger changed_owned(owned@, current@, q)] 0 <= q < k ==> !invalid_saved(owned@, q) && !changed_owned(owned@, current@, q),
        decreases owned@.len() - k,
    {
        let expected = &owned[k];
        let t = expected.target.as_str();
        let absolute = t.unicode_len() > 0 && t.get_char(0) == '/';
        let mut repeated = false;
        let mut q: usize = 0;
        while q < k
            invariant
                0 <= q <= k < owned@.len(),
                *expected == owned@[k as int],
                repeated == exists|p: int| 0 <= p < q && #[trigger] owned@[p].id == owned@[k as int].id,
            decreases k - q,
        {
            if owned[q].id == expected.id {
                repeated = true;
                assert(owned@[q as int].id == owned@[k as int].id);
            }
            proof {
                if !repeated {
                    assert forall|p: int| 0 <= p < q + 1 implies #[trigger] owned@[p].id != owned@[k as int].id by {
                        if p < q {
                        }
                    }
                }
            }
            q = q + 1;
        }
        if !absolute || expected.id <= 0 || repeated || ids_contain(&expected.baseline_ids, expected.id) {
            proof {
                assert(t@ == owned@[k as int].target@);
                if repeated {
                    let p = choose|p: int| 0 <= p < k && #[trigger] owned@[p].id == owned@[k as int].id;
                    assert(0 <= p < k && owned@[p].id == owned@[k as int].id);
                }
                assert(invalid_saved(owned@, k as int));
                assert(!(exists|j: int| 0 <= j < current@.len() && repeats_id(current@, j)));
            }
            let e = failure(t, "invalid saved mount identity");
            assert(fails_saved(owned@, current@, k as int, e.spec_message()));
            return Err(e);
        }
        proof {
            assert(t@ == owned@[k as int].target@);
            assert(!invalid_saved(owned@, k as int));
        }
        match find_by_id(current, expected.id) {
            Some(i) => {
                proof {
                    lemma_first_with_id(current@, expected.id, 0);
                }
                if !identity_matches(expected, &current[i]) {
                    proof {
                        assert(changed_owned(owned@, current@, k as int));
                        assert(!(exists|j: int| 0 <= j < current@.len() && repeats_id(current@, j)));
                    }
                    proof {
                        assert(t@ == owned@[k as int].target@);
                    }
                    let e = failure(t, "owned mount identity changed");
                    assert(fails_saved(owned@, current@, k as int, e.spec_message()));
                    return Err(e);
                }
                proof {
                    assert forall|p: int| 0 <= p < current@.len() && #[trigger] current@[p].id == owned@[k as int].id implies same_identity(owned@[k as int], current@[p]) by {
                        if p != i {
                            if p < i {
                                assert(!repeats_id(current@, i as int));
                            } else {
                                assert(!repeats_id(current@, p));
                            }
                        }
                    }
                }
            },
            None => {
                proof {
                    lemma_first_with_id(current@, expected.id, 0);
                }
            },
        }
        k = k + 1;
    }
    // foreign mounts at owned targets
    let mut k: usize = 0;
    while k < owned.len()
        invariant
            0 <= k <= owned@.len(),
            forall|q: int| 0 <= q < current@.len() ==> !#[trigger] repeats_id(current@, q),
            forall|q: int| #![trigger invalid_saved(owned@, q)] #![trigger changed_owned(owned@, current@, q)] 0 <= q < owned@.len() ==> !invalid_saved(owned@, q) && !changed_owned(owned@, current@, q),
            forall|q: int| 0 <= q < k ==> !foreign_at(owned@, current@, q),
        decreases owned@.len() - k,
    {
        let mut i: usize = 0;
        while i < current.len()
            invariant
                0 <= i <= current@.len(),
                0 <= k < owned@.len(),
                forall|q: int| 0 <= q < current@.len() ==> !#[trigger] repeats_id(current@, q),
                forall|q: int| #![trigger invalid_saved(owned@, q)] #![trigger changed_owned(owned@, current@, q)] 0 <= q < owned@.len() ==> !invalid_saved(owned@, q) && !changed_owned(owned@, current@, q),
                forall|p: int|
                    0 <= p < i ==> !(#[trigger] current@[p].target@ == owned@[k as int].target@ && !owned_id(
                        owned@,
                        current@[p].id,
                    ) && !owned@[k as int].baseline_ids@.contains(current@[p].id)),
            decreases current@.len() - i,
        {
            let actual = &current[i];
            if str_eq(actual.target.as_str(), owned[k].target.as_str()) && !is_owned_id(owned, actual.id)
                && !ids_contain(&owned[k].baseline_ids, actual.id) {
                proof {
                    assert(current@[i as int].target@ == owned@[k as int].target@);
                    assert(foreign_at(owned@, current@, k as int));
                    assert(!(exists|j: int| 0 <= j < current@.len() && repeats_id(current@, j)));
                    assert(!(exists|q: int| 0 <= q < owned@.len() && (invalid_saved(owned@, q) || changed_owned(owned@, current@, q))));
                }
                let e = failure(owned[k].target.as_str(), "foreign or replacement mount at owned target");
                assert(fails_foreign_at(owned@, current@, k as int, e.spec_message()));
                return Err(e);
            }
            i = i + 1;
        }
        k = k + 1;
    }
    // foreign mounts below live owned ones
    let mut active: Vec<usize> = Vec::new();
    let mut k: usize = 0;
    while k < owned.len()
        invariant
            0 <= k <= owned@.len(),
            forall|q: int| 0 <= q < current@.len() ==> !#[trigger] repeats_id(current@, q),
            forall|q: int| #![trigger invalid_saved(owned@, q)] #![trigger changed_owned(owned@, current@, q)] 0 <= q < owned@.len() ==> !invalid_saved(owned@, q) && !changed_owned(owned@, current@, q),
            forall|q: int| 0 <= q < owned@.len() ==> !#[trigger] foreign_at(owned@, current@, q),
            forall|q: int, i: int| 0 <= q < k && 0 <= i < current@.len() ==> !#[trigger] foreign_below(owned@, current@, q, i),
            forall|x: int| (exists|p: int| 0 <= p < active@.len() && #[trigger] active@[p] == x) <==> (0 <= x < k
                && live(current@, owned@[x].id)),
            forall|p: int, q: int| 0 <= p < q < active@.len() ==> #[trigger] active@[p] != #[trigger] active@[q],
            forall|p: int, q: int|
                0 <= p < q < active@.len() ==> !detach_before(
                    owned@[#[trigger] active@[q] as int].target@,
                    owned@[#[trigger] active@[p] as int].target@,
                ),
            forall|p: int| 0 <= p < active@.len() ==> #[trigger] active@[p] < k,
        decreases owned@.len() - k,
    {
        let expected = &owned[k];
        if is_live(current, expected.id) {
            let mut i: usize = 0;
            while i < current.len()
                invariant
                    0 <= i <= current@.len(),
                    0 <= k < owned@.len(),
                    *expected == owned@[k as int],
                    live(current@, owned@[k as int].id),
                    forall|q: int| 0 <= q < current@.len() ==> !#[trigger] repeats_id(current@, q),
                    forall|q: int| #![trigger invalid_saved(owned@, q)] #![trigger changed_owned(owned@, current@, q)] 0 <= q < owned@.len() ==> !invalid_saved(owned@, q) && !changed_owned(owned@, current@, q),
                    forall|q: int| 0 <= q < owned@.len() ==> !#[trigger] foreign_at(owned@, current@, q),
                    forall|p: int| 0 <= p < i ==> !#[trigger] foreign_below(owned@, current@, k as int, p),
                decreases current@.len() - i,
            {
                let actual = &current[i];
                if !str_eq(actual.target.as_str(), expected.target.as_str()) && path_under(
                    actual.target.as_str(),
                    expected.target.as_str(),
                ) && !is_owned_id(owned, actual.id) {
                    proof {
                        assert(expected.target@ == owned@[k as int].target@);
                        assert(actual.target@ == current@[i as int].target@);
                        assert(current@[i as int].target@ != owned@[k as int].target@);
                        assert(under(current@[i as int].target@, owned@[k as int].target@));
                        assert(!owned_id(owned@, current@[i as int].id));
                        assert(foreign_below(owned@, current@, k as int, i as int));
                        assert(!(exists|j: int| 0 <= j < current@.len() && repeats_id(current@, j)));
                        assert(!(exists|q: int| 0 <= q < owned@.len() && (invalid_saved(owned@, q) || changed_owned(owned@, current@, q))));
                        assert(!(exists|q: int| 0 <= q < owned@.len() && foreign_at(owned@, current@, q)));
                    }
                    let e = failure(actual.target.as_str(), "foreign descendant blocks owned mount cleanup");
                    assert(fails_below(owned@, current@, k as int, i as int, e.spec_message()));
                    return Err(e);
                }
                i = i + 1;
            }
            // insert `k` after every entry that does not come after it
            let mut p: usize = 0;
            while p < active.len() && !detaches_before(expected.target.as_str(), owned[active[p]].target.as_str())
                invariant
                    0 <= p <= active@.len(),
                    k < owned@.len(),
                    *expected == owned@[k as int],
                    forall|q: int| 0 <= q < active@.len() ==> #[trigger] active@[q] < k,
                    forall|q: int|
                        0 <= q < p ==> !detach_before(owned@[k as int].target@, owned@[#[trigger] active@[q] as int].target@),
                decreases active@.len() - p,
            {
                assert(!detach_before(owned@[k as int].target@, owned@[active@[p as int] as int].target@));
                p = p + 1;
            }
            let ghost before = active@;
            active.insert(p, k);
            proof {
                let me = owned@[k as int].target@;
                assert(active@ =~= before.insert(p as int, k));
                assert forall|a: int, b: int| 0 <= a < b < active@.len() implies !detach_before(
                    owned@[#[trigger] active@[b] as int].target@,
                    owned@[#[trigger] active@[a] as int].target@,
                ) by {
                    if b < p {
                        assert(active@[a] == before[a] && active@[b] == before[b]);
                    } else if b == p {
                        assert(active@[a] == before[a]);
                    } else if a > p {
                        assert(active@[a] == before[a - 1] && active@[b] == before[b - 1]);
                    } else if a == p {
                        assert(active@[b] == before[b - 1]);
                        let x = owned@[before[p as int] as int].target@;
                        let y = owned@[before[b - 1] as int].target@;
                        assert(detach_before(me, x));
                        if detach_before(y, me) {
                            lemma_detach_order(y, me, x);
                            if b - 1 == p {
                                lemma_detach_order(x, x, x);
                            } else {
                                assert(!detach_before(y, x));
                            }
                        }
                    } else {
                        assert(active@[a] == before[a] && active@[b] == before[b - 1]);
                    }
                }
                assert forall|x: int| (exists|q: int| 0 <= q < active@.len() && #[trigger] active@[q] == x) <==> (0 <= x < k + 1
                    && live(current@, owned@[x].id)) by {
                    if exists|q: int| 0 <= q < active@.len() && #[trigger] active@[q] == x {
                        let q = choose|q: int| 0 <= q < active@.len() && #[trigger] active@[q] == x;
                        if q < p {
                            assert(before[q] == x);
                        } else if q > p {
                            assert(before[q - 1] == x);
                        }
                    }
                    if 0 <= x < k && live(current@, owned@[x].id) {
                        let q = choose|q: int| 0 <= q < before.len() && #[trigger] before[q] == x;
                        if q < p {
                            assert(active@[q] == x);
                        } else {
                            assert(active@[q + 1] == x);
                        }
                    }
                    if x == k {
                        assert(active@[p as int] == x);
                    }
                }
            }
        } else {
            proof {
                assert forall|i: int| 0 <= i < current@.len() implies !#[trigger] foreign_below(owned@, current@, k as int, i) by {}
            }
        }
        k = k + 1;
    }
    Ok(active)
}

/// `visible_id`, asked about a path that reads `target`, may answer `out`.
pub open spec fn visible_gave<V: Fn(&str) -> Result<i32>>(visible_id: V, target: Seq<char>, out: Result<i32>) -> bool {
    exists|p: &str| p@ == target && #[trigger] visible_id.ensures((p,), out)
}

/// Detaching at `target` is allowed: a recorded mount is there, and the
/// mount visible there is that record's mount.
pub open spec fn may_detach<V: Fn(&str) -> Result<i32>>(owned: Seq<OwnedMount>, visible_id: V, target: Seq<char>) -> bool {
    exists|k: int|
        0 <= k < owned.len() && #[trigger] owned[k].target@ == target && visible_gave(visible_id, target, Ok(owned[k].id))
}

/// Whether one of the `active` records sits at `target` with id `id`.
fn active_has(owned: &[OwnedMount], active: &Vec<usize>, target: &str, id: i32) -> (r: bool)
    requires
        forall|p: int| 0 <= p < active@.len() ==> #[trigger] active@[p] < owned@.len(),
    ensures
        r == exists|p: int| 0 <= p < active@.len() && #[trigger] owned@[active@[p] as int].target@ == target@ && owned@[active@[p] as int].id == id,
{
    let mut p: usize = 0;
    while p < active.len()
        invariant
            0 <= p <= active@.len(),
            forall|q: int| 0 <= q < active@.len() ==> #[trigger] active@[q] < owned@.len(),
            forall|q: int| 0 <= q < p ==> !(#[trigger] owned@[active@[q] as int].target@ == target@ && owned@[active@[q] as int].id == id),
        decreases active@.len() - p,
    {
        let m = &owned[active[p]];
        if m.id == id && str_eq(m.target.as_str(), target) {
            return true;
        }
        p = p + 1;
    }
    false
}

/// `out` names one of the `active` records at `target`.
pub open spec fn visible_owned(owned: Seq<OwnedMount>, active: Seq<usize>, target: Seq<char>, out: Result<i32>) -> bool {
    out matches Ok(v) && exists|q: int| 0 <= q < active.len() && #[trigger] owned[active[q] as int].target@ == target
        && owned[active[q] as int].id == v
}

/// Checks, target by target in order, that the mount visible at every live
/// owned target is one of the live owned mounts there.
fn verify_visible<V>(owned: &[OwnedMount], active: &Vec<usize>, visible_id: &V) -> (r: Result<()>)
    where
        V: Fn(&str) -> Result<i32>,
    requires
        forall|p: &str| visible_id.requires((p,)),
        forall|p: int| 0 <= p < active@.len() ==> #[trigger] active@[p] < owned@.len(),
    ensures
        r is Ok ==> forall|p: int|
            0 <= p < active@.len() ==> exists|q: int|
                0 <= q < active@.len() && owned@[active@[q] as int].target@ == owned@[#[trigger] active@[p] as int].target@
                    && visible_gave(*visible_id, owned@[active@[p] as int].target@, Ok(owned@[active@[q] as int].id)),
        r is Err ==> exists|p: int, out: Result<i32>| 0 <= p < active@.len()
            && #[trigger] visible_gave(*visible_id, owned@[active@[p] as int].target@, out)
            && !visible_owned(owned@, active@, owned@[active@[p] as int].target@, out),
{
    let mut targets: Vec<String> = Vec::new();
    let mut p: usize = 0;
    while p < active.len()
        invariant
            0 <= p <= active@.len(),
            forall|q: int| 0 <= q < active@.len() ==> #[trigger] active@[q] < owned@.len(),
            crate::text::sorted_names(targets@),
            forall|x: Seq<char>| #[trigger] has_name(targets@, x) <==> exists|q: int|
                0 <= q < p && #[trigger] owned@[active@[q] as int].target@ == x,
        decreases active@.len() - p,
    {
        crate::text::insert_name(&mut targets, owned[active[p]].target.as_str());
        proof {
            assert forall|x: Seq<char>| #[trigger] has_name(targets@, x) <==> exists|q: int|
                0 <= q < p + 1 && #[trigger] owned@[active@[q] as int].target@ == x by {
                if x == owned@[active@[p as int] as int].target@ {
                    assert(owned@[active@[p as int] as int].target@ == x);
                }
            }
        }
        p = p + 1;
    }
    let mut t: usize = 0;
    while t < targets.len()
        invariant
            0 <= t <= targets@.len(),
            forall|p: &str| visible_id.requires((p,)),
            forall|q: int| 0 <= q < active@.len() ==> #[trigger] active@[q] < owned@.len(),
            forall|x: Seq<char>| #[trigger] has_name(targets@, x) <==> exists|q: int|
                0 <= q < active@.len() && #[trigger] owned@[active@[q] as int].target@ == x,
            forall|u: int| 0 <= u < t ==> exists|q: int|
                0 <= q < active@.len() && owned@[active@[q] as int].target@ == #[trigger] targets@[u]@
                    && visible_gave(*visible_id, targets@[u]@, Ok(owned@[active@[q] as int].id)),
        decreases targets@.len() - t,
    {
        let target = targets[t].as_str();
        let out = visible_id(target);
        proof {
            assert(visible_id.ensures((target,), out));
            assert(has_name(targets@, target@)) by {
                assert(targets@[t as int]@ == target@);
            }
            let q = choose|q: int| 0 <= q < active@.len() && #[trigger] owned@[active@[q] as int].target@ == target@;
            assert(visible_gave(*visible_id, owned@[active@[q] as int].target@, out));
        }
        let ghost gout = out;
        let visible = match out {
            Ok(v) => v,
            Err(e) => {
                assert(!visible_owned(owned@, active@, target@, gout));
                return Err(e);
            },
        };
        if !active_has(owned, active, target, visible) {
            assert(gout == Ok::<i32, Error>(visible));
            assert(!visible_owned(owned@, active@, target@, gout));
            return Err(failure(target, "visible mount is not an owned mount"));
        }
        proof {
            let q = choose|q: int| 0 <= q < active@.len() && #[trigger] owned@[active@[q] as int].target@ == target@ && owned@[active@[q] as int].id == visible;
            assert(visible_gave(*visible_id, targets@[t as int]@, Ok(owned@[active@[q] as int].id)));
        }
        t = t + 1;
    }
    proof {
        assert forall|p: int| 0 <= p < active@.len() implies exists|q: int|
            0 <= q < active@.len() && owned@[active@[q] as int].target@ == owned@[#[trigger] active@[p] as int].target@
                && visible_gave(*visible_id, owned@[active@[p] as int].target@, Ok(owned@[active@[q] as int].id)) by {
            let x = owned@[active@[p] as int].target@;
            assert(owned@[active@[p] as int].target@ == x);
            assert(has_name(targets@, x));
            let u = choose|u: int| 0 <= u < targets@.len() && #[trigger] targets@[u]@ == x;
            assert(targets@[u]@ == x);
        }
    }
    Ok(())
}

/// Whether some mount of `current` has id `id`.
fn id_present(current: &Vec<OwnedMount>, id: i32) -> (r: bool)
    ensures
        r == live(current@, id),
{
    is_live(current.as_slice(), id)
}

/// Detaches the owned mounts, the deepest first, and confirms each one is
/// gone on readback. Every recorded mount is checked by `preflight` before
/// each detach, and the mount visible at the next target must be an owned
/// one; `detach` is only ever asked to act at a recorded target whose
/// visible mount is that record's (its `requires` may demand exactly that).
/// Mounts already gone are fine, so a failed cleanup can be retried. At
/// most one more round than there are recorded mounts is run.
#[verifier::rlimit(40)]
pub fn cleanup_with<L, V, D>(owned: &[OwnedMount], list: L, visible_id: V, detach: D) -> (r: Result<()>)
    where
        L: Fn() -> Result<Vec<OwnedMount>>,
        V: Fn(&str) -> Result<i32>,
        D: Fn(&str) -> Result<()>,
    requires
        list.requires(()),
        forall|p: &str| visible_id.requires((p,)),
        forall|p: &str| may_detach(owned@, visible_id, p@) ==> detach.requires((p,)),
    ensures
        r is Ok ==> exists|current: Vec<OwnedMount>|
            #[trigger] list.ensures((), Ok::<Vec<OwnedMount>, Error>(current)) && preflight_passes(owned@, current@)
                && forall|k: int| 0 <= k < owned@.len() ==> !live(current@, #[trigger] owned@[k].id),
{
    let mut current = list()?;
    let mut budget: usize = owned.len();
    loop
        invariant
            list.requires(()),
            forall|p: &str| visible_id.requires((p,)),
            forall|p: &str| may_detach(owned@, visible_id, p@) ==> detach.requires((p,)),
            list.ensures((), Ok::<Vec<OwnedMount>, Error>(current)),
        decreases budget,
    {
        let active = preflight(owned, current.as_slice())?;
        verify_visible(owned, &active, &visible_id)?;
        if active.len() == 0 {
            proof {
                assert forall|k: int| 0 <= k < owned@.len() implies !live(current@, #[trigger] owned@[k].id) by {
                    if live(current@, owned@[k].id) {
                        let p = choose|p: int| 0 <= p < active@.len() && #[trigger] active@[p] == k;
                    }
                }
            }
            return Ok(());
        }
        proof {
            assert(exists|p: int| 0 <= p < active@.len() && #[trigger] active@[p] == active@[0]);
        }
        let next = active[0];
        let target = owned[next].target.as_str();
        let visible = visible_id(target)?;
        if !active_has(owned, &active, target, visible) {
            return Err(failure(target, "visible mount changed before detach"));
        }
        proof {
            let q = choose|q: int| 0 <= q < active@.len() && #[trigger] owned@[active@[q] as int].target@ == target@ && owned@[active@[q] as int].id == visible;
            let k = active@[q] as int;
            assert(owned@[k].target@ == target@ && visible_gave(visible_id, target@, Ok(owned@[k].id)));
            assert(may_detach(owned@, visible_id, target@));
        }
        detach(target)?;
        current = list()?;
        if id_present(&current, visible) {
            return Err(failure(target, "detached mount is still present on readback"));
        }
        if budget == 0 {
            return Err(Error::msg(crate::text::owned("verify runtime mount ownership: owned mounts remain after every owned mount was detached")));
        }
        budget = budget - 1;
    }
}

/// The identity of a mount table entry, with no baseline ids.
pub open spec fn identity_of(entry: MountEntry, m: OwnedMount) -> bool {
    &&& m.target@ == entry.mount_point@
    &&& m.id == entry.mnt_id
    &&& m.device@ == entry.majmin@
    &&& m.fs_type@ == entry.fs_type@
    &&& opt_text(m.source) == opt_text(entry.mount_source)
    &&& m.baseline_ids@.len() == 0
}

/// The identities of mount table entries, in table order.
pub fn identities(entries: &[MountEntry]) -> (r: Vec<OwnedMount>)
    ensures
        r@.len() == entries@.len(),
        forall|i: int| 0 <= i < entries@.len() ==> identity_of(entries@[i], #[trigger] r@[i]),
{
    let mut out: Vec<OwnedMount> = Vec::new();
    let mut i: usize = 0;
    while i < entries.len()
        invariant
            0 <= i <= entries@.len(),
            out@.len() == i,
            forall|j: int| 0 <= j < i ==> identity_of(entries@[j], #[trigger] out@[j]),
        decreases entries@.len() - i,
    {
        let e = &entries[i];
        out.push(OwnedMount {
            target: e.mount_point.clone(),
            id: e.mnt_id,
            baseline_ids: Vec::new(),
            device: e.majmin.clone(),
            fs_type: e.fs_type.clone(),
            source: copy_text(&e.mount_source),
        });
        i = i + 1;
    }
    out
}

} // verus!
