//! Facts about appending the still-mounted entries of a boot snapshot table,
//! one entry at a time, after the installed modules.
use vstd::prelude::*;

use crate::state::AppModule;
use crate::text::lex_lt;

verus! {

/// `out` starts with `start`.
#[verifier::opaque]
pub open spec fn keeps_prefix(start: Seq<AppModule>, out: Seq<AppModule>) -> bool {
    &&& out.len() >= start.len()
    &&& forall|q: int| 0 <= q < start.len() ==> #[trigger] out[q] == start[q]
}

/// Each entry after `start` is a mounted one of the first `t` of `ft`, disabled.
#[verifier::opaque]
pub open spec fn from_mounted(ft: Seq<AppModule>, t: int, start: Seq<AppModule>, out: Seq<AppModule>) -> bool {
    forall|p: int| start.len() <= p < out.len() ==> exists|q: int|
        0 <= q < t && ft[q].is_mounted && #[trigger] out[p] == (AppModule { enabled: false, ..ft[q] })
}

/// Each entry after `start` has the id of one of the first `t` of `ft`.
#[verifier::opaque]
pub open spec fn ids_from(ft: Seq<AppModule>, t: int, start: Seq<AppModule>, out: Seq<AppModule>) -> bool {
    forall|p: int| start.len() <= p < out.len() ==> exists|q: int| 0 <= q < t && #[trigger] out[p].id@ == ft[q].id@
}

/// The entries after `start` are in strictly increasing id order.
#[verifier::opaque]
pub open spec fn ordered_after(start: Seq<AppModule>, out: Seq<AppModule>) -> bool {
    forall|a: int, b: int| start.len() <= a < b < out.len() ==> lex_lt(#[trigger] out[a].id@, #[trigger] out[b].id@)
}

/// Every mounted one of the first `t` of `ft` has its id after `start`.
#[verifier::opaque]
pub open spec fn covers_mounted(ft: Seq<AppModule>, t: int, start: Seq<AppModule>, out: Seq<AppModule>) -> bool {
    forall|q: int| 0 <= q < t && #[trigger] ft[q].is_mounted ==> exists|p: int|
        start.len() <= p < out.len() && #[trigger] out[p].id@ == ft[q].id@
}

/// `out` is `start` followed by the mounted entries among the first `t` of
/// `ft`, each disabled, in id order.
pub open spec fn appended_mounted(ft: Seq<AppModule>, t: int, start: Seq<AppModule>, out: Seq<AppModule>) -> bool {
    &&& keeps_prefix(start, out)
    &&& from_mounted(ft, t, start, out)
    &&& ids_from(ft, t, start, out)
    &&& ordered_after(start, out)
    &&& covers_mounted(ft, t, start, out)
}

/// Nothing is appended yet.
pub proof fn lemma_appended_start(ft: Seq<AppModule>, start: Seq<AppModule>)
    ensures
        appended_mounted(ft, 0, start, start),
{
    reveal(keeps_prefix);
    reveal(from_mounted);
    reveal(ids_from);
    reveal(ordered_after);
    reveal(covers_mounted);
}

proof fn lemma_push_ordered(ft: Seq<AppModule>, t: int, start: Seq<AppModule>, before: Seq<AppModule>, after: Seq<AppModule>)
    requires
        0 <= t < ft.len(),
        forall|a: int, b: int| 0 <= a < b < ft.len() ==> lex_lt(#[trigger] ft[a].id@, #[trigger] ft[b].id@),
        ids_from(ft, t, start, before),
        ordered_after(start, before),
        before.len() >= start.len(),
        after == before.push(AppModule { enabled: false, ..ft[t] }),
    ensures
        ordered_after(start, after),
{
    reveal(ids_from);
    reveal(ordered_after);
    let n = start.len();
    assert forall|a: int, b: int| n <= a < b < after.len() implies lex_lt(#[trigger] after[a].id@, #[trigger] after[b].id@) by {
        if b == after.len() - 1 {
            assert(after[a] == before[a]);
            let qa = choose|q: int| 0 <= q < t && #[trigger] before[a].id@ == ft[q].id@;
            assert(lex_lt(ft[qa].id@, ft[t].id@));
        } else {
            assert(after[a] == before[a] && after[b] == before[b]);
        }
    }
}

proof fn lemma_push_sources(ft: Seq<AppModule>, t: int, start: Seq<AppModule>, before: Seq<AppModule>, after: Seq<AppModule>)
    requires
        0 <= t < ft.len(),
        ft[t].is_mounted,
        from_mounted(ft, t, start, before),
        ids_from(ft, t, start, before),
        keeps_prefix(start, before),
        after == before.push(AppModule { enabled: false, ..ft[t] }),
    ensures
        from_mounted(ft, t + 1, start, after),
        ids_from(ft, t + 1, start, after),
        keeps_prefix(start, after),
{
    reveal(from_mounted);
    reveal(ids_from);
    reveal(keeps_prefix);
    let n = start.len();
    assert forall|p: int| n <= p < after.len() implies exists|q: int|
        0 <= q < t + 1 && ft[q].is_mounted && #[trigger] after[p] == (AppModule { enabled: false, ..ft[q] }) by {
        if p < after.len() - 1 {
            assert(after[p] == before[p]);
        } else {
            assert(after[p] == (AppModule { enabled: false, ..ft[t] }));
        }
    }
    assert forall|p: int| n <= p < after.len() implies exists|q: int| 0 <= q < t + 1 && #[trigger] after[p].id@ == ft[q].id@ by {
        if p < after.len() - 1 {
            assert(after[p] == before[p]);
        } else {
            assert(after[p].id@ == ft[t].id@);
        }
    }
    assert forall|q: int| 0 <= q < n implies #[trigger] after[q] == start[q] by {
        assert(after[q] == before[q]);
    }
}

proof fn lemma_push_covers(ft: Seq<AppModule>, t: int, start: Seq<AppModule>, before: Seq<AppModule>, after: Seq<AppModule>)
    requires
        0 <= t < ft.len(),
        covers_mounted(ft, t, start, before),
        before.len() >= start.len(),
        after == before.push(AppModule { enabled: false, ..ft[t] }),
    ensures
        covers_mounted(ft, t + 1, start, after),
{
    reveal(covers_mounted);
    let n = start.len();
    assert forall|q: int| 0 <= q < t + 1 && #[trigger] ft[q].is_mounted implies exists|p: int|
        n <= p < after.len() && #[trigger] after[p].id@ == ft[q].id@ by {
        if q < t {
            let p = choose|p: int| n <= p < before.len() && #[trigger] before[p].id@ == ft[q].id@;
            assert(after[p] == before[p]);
        } else {
            assert(after[after.len() - 1].id@ == ft[q].id@);
        }
    }
}

/// Appending the next entry of `ft`, which is mounted, disabled.
pub proof fn lemma_append_mounted(ft: Seq<AppModule>, t: int, start: Seq<AppModule>, before: Seq<AppModule>, after: Seq<AppModule>)
    requires
        0 <= t < ft.len(),
        ft[t].is_mounted,
        forall|a: int, b: int| 0 <= a < b < ft.len() ==> lex_lt(#[trigger] ft[a].id@, #[trigger] ft[b].id@),
        appended_mounted(ft, t, start, before),
        after == before.push(AppModule { enabled: false, ..ft[t] }),
    ensures
        appended_mounted(ft, t + 1, start, after),
{
    assert(before.len() >= start.len()) by {
        reveal(keeps_prefix);
    }
    lemma_push_ordered(ft, t, start, before, after);
    lemma_push_sources(ft, t, start, before, after);
    lemma_push_covers(ft, t, start, before, after);
}

/// Passing over the next entry of `ft`, which is not mounted.
pub proof fn lemma_skip_unmounted(ft: Seq<AppModule>, t: int, start: Seq<AppModule>, out: Seq<AppModule>)
    requires
        0 <= t < ft.len(),
        !ft[t].is_mounted,
        appended_mounted(ft, t, start, out),
    ensures
        appended_mounted(ft, t + 1, start, out),
{
    reveal(from_mounted);
    reveal(ids_from);
    reveal(covers_mounted);
    let n = start.len();
    assert forall|p: int| n <= p < out.len() implies exists|q: int|
        0 <= q < t + 1 && ft[q].is_mounted && #[trigger] out[p] == (AppModule { enabled: false, ..ft[q] }) by {
        let q = choose|q: int| 0 <= q < t && ft[q].is_mounted && #[trigger] out[p] == (AppModule { enabled: false, ..ft[q] });
    }
    assert forall|p: int| n <= p < out.len() implies exists|q: int| 0 <= q < t + 1 && #[trigger] out[p].id@ == ft[q].id@ by {
        let q = choose|q: int| 0 <= q < t && #[trigger] out[p].id@ == ft[q].id@;
    }
}

} // verus!
