//! The OverlayFS part of a plan while it is built: directory layers grouped by
//! target, one per module and ordered by module id, and file sources grouped
//! by parent target, ordered by module id and then by path.
use vstd::prelude::*;

use crate::mount_tree::pair_lt;
use crate::plan::planner::OverlayOperation;
use crate::text::{lemma_lex_irreflexive, lemma_lex_total, lemma_lex_transitive, lex_lt, owned, str_eq, str_lt};

verus! {

/// The lower layers planned for one overlay target.
pub struct OverlayTarget {
    pub target: String,
    pub partition: String,
    /// Module id and lower layer, ordered by module id.
    pub layers: Vec<(String, String)>,
}

/// Non-empty, with strictly ascending module ids.
pub open spec fn layers_ordered(ls: Seq<(String, String)>) -> bool {
    &&& ls.len() > 0
    &&& forall|a: int, b: int| 0 <= a < b < ls.len() ==> lex_lt(#[trigger] ls[a].0@, #[trigger] ls[b].0@)
}

/// Targets strictly ascend, and every target's layers are ordered.
pub open spec fn ops_ordered(ops: Seq<OverlayTarget>) -> bool {
    &&& forall|i: int, j: int| 0 <= i < j < ops.len() ==> lex_lt(#[trigger] ops[i].target@, #[trigger] ops[j].target@)
    &&& forall|i: int| 0 <= i < ops.len() ==> #[trigger] layers_ordered(ops[i].layers@)
}

/// Some layer of `ls` belongs to module `x`.
pub open spec fn layers_have(ls: Seq<(String, String)>, x: Seq<char>) -> bool {
    exists|k: int| 0 <= k < ls.len() && #[trigger] ls[k].0@ == x
}

/// `ls` holds layer `s` of module `x`.
pub open spec fn layers_hold(ls: Seq<(String, String)>, x: Seq<char>, s: Seq<char>) -> bool {
    exists|k: int| 0 <= k < ls.len() && #[trigger] ls[k].0@ == x && ls[k].1@ == s
}

/// Target `t` of `ops` has a layer of module `x`.
pub open spec fn op_has(ops: Seq<OverlayTarget>, t: Seq<char>, x: Seq<char>) -> bool {
    exists|i: int| 0 <= i < ops.len() && #[trigger] ops[i].target@ == t && layers_have(ops[i].layers@, x)
}

/// Target `t` of `ops` has layer `s` of module `x`.
pub open spec fn op_layer(ops: Seq<OverlayTarget>, t: Seq<char>, x: Seq<char>, s: Seq<char>) -> bool {
    exists|i: int| 0 <= i < ops.len() && #[trigger] ops[i].target@ == t && layers_hold(ops[i].layers@, x, s)
}

/// Target `t` of `ops` is planned on partition `p`.
pub open spec fn op_partition(ops: Seq<OverlayTarget>, t: Seq<char>, p: Seq<char>) -> bool {
    exists|i: int| 0 <= i < ops.len() && #[trigger] ops[i].target@ == t && ops[i].partition@ == p
}

proof fn lemma_layers_put(l0: Seq<(String, String)>, l: int, replaced: bool, l2: Seq<(String, String)>, np: (String, String))
    requires
        forall|a: int, b: int| 0 <= a < b < l0.len() ==> lex_lt(#[trigger] l0[a].0@, #[trigger] l0[b].0@),
        0 <= l <= l0.len(),
        forall|q: int| 0 <= q < l ==> lex_lt(#[trigger] l0[q].0@, np.0@),
        l < l0.len() && !replaced ==> lex_lt(np.0@, l0[l].0@),
        replaced ==> l < l0.len() && l0[l].0@ == np.0@,
        l2 == (if replaced { l0.remove(l) } else { l0 }).insert(l, np),
    ensures
        layers_ordered(l2),
        forall|x: Seq<char>| #[trigger] layers_have(l2, x) <==> layers_have(l0, x) || x == np.0@,
        forall|x: Seq<char>, s: Seq<char>| #[trigger] layers_hold(l2, x, s) ==> layers_hold(l0, x, s) || (x == np.0@
            && s == np.1@),
{
    let l1 = if replaced { l0.remove(l) } else { l0 };
    assert forall|q: int| 0 <= q < l1.len() implies #[trigger] l1[q] == (if replaced && q >= l { l0[q + 1] } else { l0[q] }) by {}
    assert forall|q: int| l <= q < l1.len() implies lex_lt(np.0@, #[trigger] l1[q].0@) by {
        if replaced {
            assert(lex_lt(l0[l].0@, l0[q + 1].0@));
        } else if q > l {
            assert(lex_lt(l0[l].0@, l0[q].0@));
            lemma_lex_transitive(np.0@, l0[l].0@, l0[q].0@);
        }
    }
    assert forall|a: int, b: int| 0 <= a < b < l2.len() implies lex_lt(#[trigger] l2[a].0@, #[trigger] l2[b].0@) by {
        if a < l && b < l {
            assert(l2[a] == l1[a] && l2[b] == l1[b]);
        } else if a < l && b == l {
            assert(l2[a] == l1[a]);
        } else if a < l {
            assert(l2[a] == l1[a] && l2[b] == l1[b - 1]);
            lemma_lex_transitive(l1[a].0@, np.0@, l1[b - 1].0@);
        } else if a == l {
            assert(l2[b] == l1[b - 1]);
        } else {
            assert(l2[a] == l1[a - 1] && l2[b] == l1[b - 1]);
            if replaced {
                assert(lex_lt(l0[a].0@, l0[b].0@));
            }
        }
    }
    assert(l2[l] == np);
    assert forall|x: Seq<char>| #[trigger] layers_have(l2, x) <==> layers_have(l0, x) || x == np.0@ by {
        if layers_have(l2, x) {
            let k = choose|k: int| 0 <= k < l2.len() && #[trigger] l2[k].0@ == x;
            if k < l {
                assert(l2[k] == l0[k]);
            } else if k > l {
                assert(l2[k] == l1[k - 1]);
                if replaced && k - 1 >= l {
                    assert(l1[k - 1] == l0[k]);
                } else {
                    assert(l1[k - 1] == l0[k - 1]);
                }
            }
        }
        if layers_have(l0, x) && x != np.0@ {
            let k = choose|k: int| 0 <= k < l0.len() && #[trigger] l0[k].0@ == x;
            if k < l {
                assert(l2[k] == l0[k]);
            } else if replaced {
                assert(k != l);
                assert(l1[k - 1] == l0[k]);
                assert(l2[k] == l1[k - 1]);
            } else {
                assert(l2[k + 1] == l1[k]);
            }
        }
    }
    assert forall|x: Seq<char>, s: Seq<char>| #[trigger] layers_hold(l2, x, s) implies layers_hold(l0, x, s) || (x
        == np.0@ && s == np.1@) by {
        let k = choose|k: int| 0 <= k < l2.len() && #[trigger] l2[k].0@ == x && l2[k].1@ == s;
        if k < l {
            assert(l2[k] == l0[k]);
        } else if k > l {
            assert(l2[k] == l1[k - 1]);
            if replaced && k - 1 >= l {
                assert(l1[k - 1] == l0[k]);
            } else {
                assert(l1[k - 1] == l0[k - 1]);
            }
        }
    }
}

proof fn lemma_ops_put(
    ops0: Seq<OverlayTarget>,
    ops3: Seq<OverlayTarget>,
    t: int,
    found: bool,
    e: OverlayTarget,
    old_layers: Seq<(String, String)>,
    target: Seq<char>,
    partition: Seq<char>,
    np: (String, String),
)
    requires
        ops_ordered(ops0),
        0 <= t <= ops0.len(),
        forall|j: int| 0 <= j < t ==> lex_lt(#[trigger] ops0[j].target@, target),
        t < ops0.len() && !found ==> lex_lt(target, ops0[t].target@),
        found ==> t < ops0.len() && ops0[t].target@ == target && ops3 == ops0.update(t, e) && e.partition@
            == ops0[t].partition@ && old_layers == ops0[t].layers@,
        !found ==> ops3 == ops0.insert(t, e) && e.partition@ == partition && old_layers == Seq::<(String, String)>::empty(),
        e.target@ == target,
        layers_ordered(e.layers@),
        forall|x: Seq<char>| #[trigger] layers_have(e.layers@, x) <==> layers_have(old_layers, x) || x == np.0@,
        forall|x: Seq<char>, s: Seq<char>| #[trigger] layers_hold(e.layers@, x, s) ==> layers_hold(old_layers, x, s) || (
        x == np.0@ && s == np.1@),
    ensures
        ops_ordered(ops3),
        forall|tt: Seq<char>, x: Seq<char>| #[trigger] op_has(ops3, tt, x) <==> op_has(ops0, tt, x) || (tt == target
            && x == np.0@),
        forall|tt: Seq<char>, x: Seq<char>, s: Seq<char>| #[trigger] op_layer(ops3, tt, x, s) ==> op_layer(ops0, tt, x, s)
            || (tt == target && x == np.0@ && s == np.1@),
        forall|tt: Seq<char>, p: Seq<char>| #[trigger] op_partition(ops3, tt, p) ==> op_partition(ops0, tt, p) || (tt
            == target && p == partition),
{
    // Where an index of `ops3` came from.
    assert forall|q: int| 0 <= q < ops3.len() && q != t implies #[trigger] ops3[q] == (if !found && q > t { ops0[q - 1] } else { ops0[q] }) by {}
    assert(ops3[t] == e);
    assert forall|q: int| 0 <= q < t implies lex_lt(#[trigger] ops3[q].target@, target) by {}
    assert forall|q: int| t < q < ops3.len() implies lex_lt(target, #[trigger] ops3[q].target@) by {
        if found {
            assert(lex_lt(ops0[t].target@, ops0[q].target@));
        } else if q - 1 == t {
        } else {
            assert(lex_lt(ops0[t].target@, ops0[q - 1].target@));
            lemma_lex_transitive(target, ops0[t].target@, ops0[q - 1].target@);
        }
    }
    assert forall|a: int, b: int| 0 <= a < b < ops3.len() implies lex_lt(#[trigger] ops3[a].target@, #[trigger] ops3[b].target@) by {
        if a == t || b == t {
        } else if a < t && b > t {
            lemma_lex_transitive(ops3[a].target@, target, ops3[b].target@);
        } else if !found && a > t {
            assert(lex_lt(ops0[a - 1].target@, ops0[b - 1].target@));
        } else if !found && b > t {
            assert(lex_lt(ops0[a].target@, ops0[b - 1].target@));
        } else {
            assert(lex_lt(ops0[a].target@, ops0[b].target@));
        }
    }
    assert forall|q: int| 0 <= q < ops3.len() implies #[trigger] layers_ordered(ops3[q].layers@) by {
        if q != t {
            if !found && q > t {
                assert(layers_ordered(ops0[q - 1].layers@));
            } else {
                assert(layers_ordered(ops0[q].layers@));
            }
        }
    }
    // Any index of `ops3` but `t` names a target other than `target`, and the
    // same holds of `ops0` outside the slot `t` when it was found.
    assert forall|q: int| 0 <= q < ops3.len() && q != t implies #[trigger] ops3[q].target@ != target by {
        if q < t {
            lemma_lex_irreflexive(target);
        } else {
            lemma_lex_irreflexive(target);
        }
    }
    assert forall|q: int| 0 <= q < ops0.len() && !(found && q == t) implies #[trigger] ops0[q].target@ != target by {
        lemma_lex_irreflexive(target);
        if q >= t && !found {
            if q > t {
                assert(lex_lt(ops0[t].target@, ops0[q].target@));
                lemma_lex_transitive(target, ops0[t].target@, ops0[q].target@);
            }
        } else if q > t {
            assert(lex_lt(ops0[t].target@, ops0[q].target@));
        }
    }
    assert forall|tt: Seq<char>, x: Seq<char>| #[trigger] op_has(ops3, tt, x) <==> op_has(ops0, tt, x) || (tt == target
        && x == np.0@) by {
        if op_has(ops3, tt, x) {
            let q = choose|q: int| 0 <= q < ops3.len() && #[trigger] ops3[q].target@ == tt && layers_have(ops3[q].layers@, x);
            if q == t {
                if found && layers_have(old_layers, x) {
                    assert(ops0[t].target@ == tt);
                }
            } else if !found && q > t {
                assert(ops0[q - 1].target@ == tt);
            } else {
                assert(ops0[q].target@ == tt);
            }
        }
        if op_has(ops0, tt, x) {
            let q = choose|q: int| 0 <= q < ops0.len() && #[trigger] ops0[q].target@ == tt && layers_have(ops0[q].layers@, x);
            if found && q == t {
                assert(ops3[t].target@ == tt);
            } else if !found && q >= t {
                assert(ops3[q + 1] == ops0[q]);
                assert(ops3[q + 1].target@ == tt);
            } else {
                assert(ops3[q] == ops0[q]);
                assert(ops3[q].target@ == tt);
            }
        }
        if tt == target && x == np.0@ {
            assert(ops3[t].target@ == tt);
        }
    }
    assert forall|tt: Seq<char>, x: Seq<char>, s: Seq<char>| #[trigger] op_layer(ops3, tt, x, s) implies op_layer(
        ops0,
        tt,
        x,
        s,
    ) || (tt == target && x == np.0@ && s == np.1@) by {
        let q = choose|q: int| 0 <= q < ops3.len() && #[trigger] ops3[q].target@ == tt && layers_hold(ops3[q].layers@, x, s);
        if q == t {
            if found && layers_hold(old_layers, x, s) {
                assert(ops0[t].target@ == tt);
            }
        } else if !found && q > t {
            assert(ops0[q - 1].target@ == tt);
        } else {
            assert(ops0[q].target@ == tt);
        }
    }
    assert forall|tt: Seq<char>, p: Seq<char>| #[trigger] op_partition(ops3, tt, p) implies op_partition(ops0, tt, p) || (
    tt == target && p == partition) by {
        let q = choose|q: int| 0 <= q < ops3.len() && #[trigger] ops3[q].target@ == tt && ops3[q].partition@ == p;
        if q == t {
            if found {
                assert(ops0[t].target@ == tt);
            }
        } else if !found && q > t {
            assert(ops0[q - 1].target@ == tt);
        } else {
            assert(ops0[q].target@ == tt);
        }
    }
}

/// Plans layer `source` of `module_id` at `target`, replacing an earlier layer
/// of the same module there.
pub fn put_layer(ops: &mut Vec<OverlayTarget>, partition: &str, target: &str, module_id: &str, source: String)
    requires
        ops_ordered(old(ops)@),
    ensures
        ops_ordered(final(ops)@),
        forall|t: Seq<char>, x: Seq<char>| #[trigger] op_has(final(ops)@, t, x) <==> op_has(old(ops)@, t, x) || (t
            == target@ && x == module_id@),
        forall|t: Seq<char>, x: Seq<char>, s: Seq<char>| #[trigger] op_layer(final(ops)@, t, x, s) ==> op_layer(
            old(ops)@,
            t,
            x,
            s,
        ) || (t == target@ && x == module_id@ && s == source@),
        forall|t: Seq<char>, p: Seq<char>| #[trigger] op_partition(final(ops)@, t, p) ==> op_partition(old(ops)@, t, p)
            || (t == target@ && p == partition@),
{
    let ghost ops0 = ops@;
    let mut t: usize = 0;
    while t < ops.len() && str_lt(ops[t].target.as_str(), target)
        invariant
            0 <= t <= ops@.len(),
            ops@ == ops0,
            forall|j: int| 0 <= j < t ==> lex_lt(#[trigger] ops0[j].target@, target@),
        decreases ops@.len() - t,
    {
        t = t + 1;
    }
    let found = t < ops.len() && str_eq(ops[t].target.as_str(), target);
    proof {
        if t < ops0.len() && !found {
            lemma_lex_total(target@, ops0[t as int].target@);
        }
    }
    let mut entry = if found {
        ops.remove(t)
    } else {
        OverlayTarget { target: owned(target), partition: owned(partition), layers: Vec::new() }
    };
    let ghost old_layers = entry.layers@;
    let ghost e_target = entry.target@;
    let ghost e_partition = entry.partition@;
    proof {
        if found {
            assert(ops_ordered(ops0));
            assert(layers_ordered(ops0[t as int].layers@));
        }
    }
    let mut l: usize = 0;
    while l < entry.layers.len() && str_lt(entry.layers[l].0.as_str(), module_id)
        invariant
            0 <= l <= entry.layers@.len(),
            entry.layers@ == old_layers,
            forall|q: int| 0 <= q < l ==> lex_lt(#[trigger] old_layers[q].0@, module_id@),
        decreases entry.layers@.len() - l,
    {
        l = l + 1;
    }
    let replaced = l < entry.layers.len() && str_eq(entry.layers[l].0.as_str(), module_id);
    proof {
        if l < old_layers.len() && !replaced {
            lemma_lex_total(module_id@, old_layers[l as int].0@);
        }
    }
    if replaced {
        entry.layers.remove(l);
    }
    let np = (owned(module_id), source);
    let ghost gp = np;
    entry.layers.insert(l, np);
    proof {
        lemma_layers_put(old_layers, l as int, replaced, entry.layers@, gp);
        assert(entry.target@ == e_target && entry.partition@ == e_partition);
    }
    let ghost e = entry;
    ops.insert(t, entry);
    proof {
        if found {
            assert(ops@ =~= ops0.update(t as int, e));
        } else {
            assert(ops@ =~= ops0.insert(t as int, e));
        }
        lemma_ops_put(ops0, ops@, t as int, found, e, old_layers, target@, partition@, gp);
    }
}

/// Non-empty, with strictly ascending (module id, path) pairs.
pub open spec fn pairs_ordered(ls: Seq<(String, String)>) -> bool {
    &&& ls.len() > 0
    &&& forall|a: int, b: int| 0 <= a < b < ls.len() ==> pair_lt(#[trigger] ls[a].0@, ls[a].1@, #[trigger] ls[b].0@, ls[b].1@)
}

/// Parent targets strictly ascend, and every target's file list is ordered.
pub open spec fn files_ordered(fs: Seq<(String, Vec<(String, String)>)>) -> bool {
    &&& forall|i: int, j: int| 0 <= i < j < fs.len() ==> lex_lt(#[trigger] fs[i].0@, #[trigger] fs[j].0@)
    &&& forall|i: int| 0 <= i < fs.len() ==> #[trigger] pairs_ordered(fs[i].1@)
}

/// Parent target `t` of `fs` has file source `s` of module `x`.
pub open spec fn file_has(fs: Seq<(String, Vec<(String, String)>)>, t: Seq<char>, x: Seq<char>, s: Seq<char>) -> bool {
    exists|i: int| 0 <= i < fs.len() && #[trigger] fs[i].0@ == t && layers_hold(fs[i].1@, x, s)
}

proof fn lemma_pair_facts(a1: Seq<char>, a2: Seq<char>, b1: Seq<char>, b2: Seq<char>, c1: Seq<char>, c2: Seq<char>)
    ensures
        !pair_lt(a1, a2, a1, a2),
        pair_lt(a1, a2, b1, b2) && pair_lt(b1, b2, c1, c2) ==> pair_lt(a1, a2, c1, c2),
        (a1 == b1 && a2 == b2) || pair_lt(a1, a2, b1, b2) || pair_lt(b1, b2, a1, a2),
{
    lemma_lex_irreflexive(a1);
    lemma_lex_irreflexive(a2);
    lemma_lex_total(a1, b1);
    lemma_lex_total(a2, b2);
    if pair_lt(a1, a2, b1, b2) && pair_lt(b1, b2, c1, c2) {
        if lex_lt(a1, b1) && lex_lt(b1, c1) {
            lemma_lex_transitive(a1, b1, c1);
        }
        if a1 == b1 && b1 == c1 {
            lemma_lex_transitive(a2, b2, c2);
        }
    }
}

proof fn lemma_pairs_put(l0: Seq<(String, String)>, p: int, dup: bool, l2: Seq<(String, String)>, np: (String, String))
    requires
        forall|a: int, b: int| 0 <= a < b < l0.len() ==> pair_lt(#[trigger] l0[a].0@, l0[a].1@, #[trigger] l0[b].0@, l0[b].1@),
        0 <= p <= l0.len(),
        forall|q: int| 0 <= q < p ==> pair_lt(#[trigger] l0[q].0@, l0[q].1@, np.0@, np.1@),
        p < l0.len() && !dup ==> pair_lt(np.0@, np.1@, l0[p].0@, l0[p].1@),
        dup ==> p < l0.len() && l0[p].0@ == np.0@ && l0[p].1@ == np.1@ && l2 == l0,
        !dup ==> l2 == l0.insert(p, np),
    ensures
        pairs_ordered(l2),
        forall|x: Seq<char>, s: Seq<char>| #[trigger] layers_hold(l2, x, s) <==> layers_hold(l0, x, s) || (x == np.0@
            && s == np.1@),
{
    if !dup {
        assert forall|q: int| p <= q < l0.len() implies pair_lt(np.0@, np.1@, #[trigger] l0[q].0@, l0[q].1@) by {
            if q > p {
                lemma_pair_facts(np.0@, np.1@, l0[p].0@, l0[p].1@, l0[q].0@, l0[q].1@);
            }
        }
        assert forall|a: int, b: int| 0 <= a < b < l2.len() implies pair_lt(#[trigger] l2[a].0@, l2[a].1@, #[trigger] l2[b].0@, l2[b].1@) by {
            if a < p && b < p {
                assert(l2[a] == l0[a] && l2[b] == l0[b]);
            } else if a < p && b == p {
                assert(l2[a] == l0[a]);
            } else if a < p {
                assert(l2[a] == l0[a] && l2[b] == l0[b - 1]);
                lemma_pair_facts(l0[a].0@, l0[a].1@, np.0@, np.1@, l0[b - 1].0@, l0[b - 1].1@);
            } else if a == p {
                assert(l2[b] == l0[b - 1]);
            } else {
                assert(l2[a] == l0[a - 1] && l2[b] == l0[b - 1]);
            }
        }
        assert(l2[p] == np);
        assert forall|x: Seq<char>, s: Seq<char>| #[trigger] layers_hold(l2, x, s) <==> layers_hold(l0, x, s) || (x
            == np.0@ && s == np.1@) by {
            if layers_hold(l2, x, s) {
                let k = choose|k: int| 0 <= k < l2.len() && #[trigger] l2[k].0@ == x && l2[k].1@ == s;
                if k < p {
                    assert(l2[k] == l0[k]);
                } else if k > p {
                    assert(l2[k] == l0[k - 1]);
                }
            }
            if layers_hold(l0, x, s) {
                let k = choose|k: int| 0 <= k < l0.len() && #[trigger] l0[k].0@ == x && l0[k].1@ == s;
                if k < p {
                    assert(l2[k] == l0[k]);
                } else {
                    assert(l2[k + 1] == l0[k]);
                }
            }
        }
    } else {
        assert forall|x: Seq<char>, s: Seq<char>| #[trigger] layers_hold(l2, x, s) <==> layers_hold(l0, x, s) || (x
            == np.0@ && s == np.1@) by {
            if x == np.0@ && s == np.1@ {
                assert(l0[p].0@ == x);
            }
        }
    }
}

proof fn lemma_files_put(
    fs0: Seq<(String, Vec<(String, String)>)>,
    fs3: Seq<(String, Vec<(String, String)>)>,
    t: int,
    found: bool,
    e: (String, Vec<(String, String)>),
    old_list: Seq<(String, String)>,
    target: Seq<char>,
    np: (String, String),
)
    requires
        files_ordered(fs0),
        0 <= t <= fs0.len(),
        forall|j: int| 0 <= j < t ==> lex_lt(#[trigger] fs0[j].0@, target),
        t < fs0.len() && !found ==> lex_lt(target, fs0[t].0@),
        found ==> t < fs0.len() && fs0[t].0@ == target && fs3 == fs0.update(t, e) && old_list == fs0[t].1@,
        !found ==> fs3 == fs0.insert(t, e) && old_list == Seq::<(String, String)>::empty(),
        e.0@ == target,
        pairs_ordered(e.1@),
        forall|x: Seq<char>, s: Seq<char>| #[trigger] layers_hold(e.1@, x, s) <==> layers_hold(old_list, x, s) || (x
            == np.0@ && s == np.1@),
    ensures
        files_ordered(fs3),
        forall|tt: Seq<char>, x: Seq<char>, s: Seq<char>| #[trigger] file_has(fs3, tt, x, s) <==> file_has(fs0, tt, x, s)
            || (tt == target && x == np.0@ && s == np.1@),
{
    assert forall|q: int| 0 <= q < fs3.len() && q != t implies #[trigger] fs3[q] == (if !found && q > t { fs0[q - 1] } else { fs0[q] }) by {}
    assert(fs3[t] == e);
    assert forall|q: int| t < q < fs3.len() implies lex_lt(target, #[trigger] fs3[q].0@) by {
        if found {
            assert(lex_lt(fs0[t].0@, fs0[q].0@));
        } else if q - 1 == t {
        } else {
            assert(lex_lt(fs0[t].0@, fs0[q - 1].0@));
            lemma_lex_transitive(target, fs0[t].0@, fs0[q - 1].0@);
        }
    }
    assert forall|a: int, b: int| 0 <= a < b < fs3.len() implies lex_lt(#[trigger] fs3[a].0@, #[trigger] fs3[b].0@) by {
        if a == t || b == t {
        } else if a < t && b > t {
            lemma_lex_transitive(fs3[a].0@, target, fs3[b].0@);
        } else if !found && a > t {
            assert(lex_lt(fs0[a - 1].0@, fs0[b - 1].0@));
        } else if !found && b > t {
            assert(lex_lt(fs0[a].0@, fs0[b - 1].0@));
        } else {
            assert(lex_lt(fs0[a].0@, fs0[b].0@));
        }
    }
    assert forall|q: int| 0 <= q < fs3.len() implies #[trigger] pairs_ordered(fs3[q].1@) by {
        if q != t {
            if !found && q > t {
                assert(pairs_ordered(fs0[q - 1].1@));
            } else {
                assert(pairs_ordered(fs0[q].1@));
            }
        }
    }
    assert forall|q: int| 0 <= q < fs3.len() && q != t implies #[trigger] fs3[q].0@ != target by {
        lemma_lex_irreflexive(target);
    }
    assert forall|q: int| 0 <= q < fs0.len() && !(found && q == t) implies #[trigger] fs0[q].0@ != target by {
        lemma_lex_irreflexive(target);
        if q >= t && !found {
            if q > t {
                assert(lex_lt(fs0[t].0@, fs0[q].0@));
                lemma_lex_transitive(target, fs0[t].0@, fs0[q].0@);
            }
        } else if q > t {
            assert(lex_lt(fs0[t].0@, fs0[q].0@));
        }
    }
    assert forall|tt: Seq<char>, x: Seq<char>, s: Seq<char>| #[trigger] file_has(fs3, tt, x, s) <==> file_has(fs0, tt, x, s)
        || (tt == target && x == np.0@ && s == np.1@) by {
        if file_has(fs3, tt, x, s) {
            let q = choose|q: int| 0 <= q < fs3.len() && #[trigger] fs3[q].0@ == tt && layers_hold(fs3[q].1@, x, s);
            if q == t {
                if found && layers_hold(old_list, x, s) {
                    assert(fs0[t].0@ == tt);
                }
            } else if !found && q > t {
                assert(fs0[q - 1].0@ == tt);
            } else {
                assert(fs0[q].0@ == tt);
            }
        }
        if file_has(fs0, tt, x, s) {
            let q = choose|q: int| 0 <= q < fs0.len() && #[trigger] fs0[q].0@ == tt && layers_hold(fs0[q].1@, x, s);
            if found && q == t {
                assert(fs3[t].0@ == tt);
            } else if !found && q >= t {
                assert(fs3[q + 1] == fs0[q]);
                assert(fs3[q + 1].0@ == tt);
            } else {
                assert(fs3[q] == fs0[q]);
                assert(fs3[q].0@ == tt);
            }
        }
        if tt == target && x == np.0@ && s == np.1@ {
            assert(fs3[t].0@ == tt);
        }
    }
}

/// Plans the file `source` of `module_id` under the directory `target`; the
/// same file of the same module is kept once.
pub fn put_file(fs: &mut Vec<(String, Vec<(String, String)>)>, target: &str, module_id: &str, source: String)
    requires
        files_ordered(old(fs)@),
    ensures
        files_ordered(final(fs)@),
        forall|t: Seq<char>, x: Seq<char>, s: Seq<char>| #[trigger] file_has(final(fs)@, t, x, s) <==> file_has(
            old(fs)@,
            t,
            x,
            s,
        ) || (t == target@ && x == module_id@ && s == source@),
{
    let ghost fs0 = fs@;
    let mut t: usize = 0;
    while t < fs.len() && str_lt(fs[t].0.as_str(), target)
        invariant
            0 <= t <= fs@.len(),
            fs@ == fs0,
            forall|j: int| 0 <= j < t ==> lex_lt(#[trigger] fs0[j].0@, target@),
        decreases fs@.len() - t,
    {
        t = t + 1;
    }
    let found = t < fs.len() && str_eq(fs[t].0.as_str(), target);
    proof {
        if t < fs0.len() && !found {
            lemma_lex_total(target@, fs0[t as int].0@);
        }
    }
    let mut entry = if found {
        fs.remove(t)
    } else {
        (owned(target), Vec::new())
    };
    let ghost old_list = entry.1@;
    let ghost e_target = entry.0@;
    proof {
        if found {
            assert(pairs_ordered(fs0[t as int].1@));
        }
    }
    let mut p: usize = 0;
    while p < entry.1.len() && str_lt(entry.1[p].0.as_str(), module_id) || (p < entry.1.len() && str_eq(
        entry.1[p].0.as_str(),
        module_id,
    ) && str_lt(entry.1[p].1.as_str(), source.as_str()))
        invariant
            0 <= p <= entry.1@.len(),
            entry.1@ == old_list,
            forall|q: int| 0 <= q < p ==> pair_lt(#[trigger] old_list[q].0@, old_list[q].1@, module_id@, source@),
        decreases entry.1@.len() - p,
    {
        p = p + 1;
    }
    let dup = p < entry.1.len() && str_eq(entry.1[p].0.as_str(), module_id) && str_eq(entry.1[p].1.as_str(), source.as_str());
    let ghost src = source@;
    proof {
        if p < old_list.len() && !dup {
            lemma_pair_facts(module_id@, src, old_list[p as int].0@, old_list[p as int].1@, src, src);
        }
    }
    let np = (owned(module_id), source);
    let ghost gp = np;
    if !dup {
        entry.1.insert(p, np);
    }
    proof {
        lemma_pairs_put(old_list, p as int, dup, entry.1@, gp);
        assert(entry.0@ == e_target);
    }
    let ghost e = entry;
    fs.insert(t, entry);
    proof {
        if found {
            assert(fs@ =~= fs0.update(t as int, e));
        } else {
            assert(fs@ =~= fs0.insert(t as int, e));
        }
        lemma_files_put(fs0, fs@, t as int, found, e, old_list, target@, gp);
    }
}

/// `o` carries the target, partition and lower layers of `t`, in order.
pub open spec fn op_matches(o: OverlayOperation, t: OverlayTarget) -> bool {
    &&& o.target@ == t.target@
    &&& o.partition@ == t.partition@
    &&& o.lowerdirs@.len() == t.layers@.len()
    &&& forall|k: int| 0 <= k < t.layers@.len() ==> #[trigger] o.lowerdirs@[k]@ == t.layers@[k].1@
}

/// The overlay operations of a plan, one per target, lower layers in order.
pub fn layer_operations(ops: &Vec<OverlayTarget>) -> (r: Vec<OverlayOperation>)
    ensures
        r@.len() == ops@.len(),
        forall|i: int| 0 <= i < ops@.len() ==> #[trigger] op_matches(r@[i], ops@[i]),
{
    let mut r: Vec<OverlayOperation> = Vec::new();
    let mut i: usize = 0;
    while i < ops.len()
        invariant
            0 <= i <= ops@.len(),
            r@.len() == i,
            forall|j: int| 0 <= j < i ==> #[trigger] op_matches(r@[j], ops@[j]),
        decreases ops@.len() - i,
    {
        let op = &ops[i];
        let mut lowerdirs: Vec<String> = Vec::new();
        let mut k: usize = 0;
        while k < op.layers.len()
            invariant
                0 <= k <= op.layers@.len(),
                lowerdirs@.len() == k,
                forall|q: int| 0 <= q < k ==> #[trigger] lowerdirs@[q]@ == op.layers@[q].1@,
            decreases op.layers@.len() - k,
        {
            lowerdirs.push(owned(op.layers[k].1.as_str()));
            k = k + 1;
        }
        r.push(OverlayOperation { partition: owned(op.partition.as_str()), target: owned(op.target.as_str()), lowerdirs });
        i = i + 1;
    }
    r
}

/// `o` carries the parent target and file sources of `f`, in order.
pub open spec fn files_match(o: (String, Vec<String>), f: (String, Vec<(String, String)>)) -> bool {
    &&& o.0@ == f.0@
    &&& o.1@.len() == f.1@.len()
    &&& forall|k: int| 0 <= k < f.1@.len() ==> #[trigger] o.1@[k]@ == f.1@[k].1@
}

/// The file-level overlay lists of a plan, one per parent target.
pub fn file_lists(fs: &Vec<(String, Vec<(String, String)>)>) -> (r: Vec<(String, Vec<String>)>)
    ensures
        r@.len() == fs@.len(),
        forall|i: int| 0 <= i < fs@.len() ==> #[trigger] files_match(r@[i], fs@[i]),
{
    let mut r: Vec<(String, Vec<String>)> = Vec::new();
    let mut i: usize = 0;
    while i < fs.len()
        invariant
            0 <= i <= fs@.len(),
            r@.len() == i,
            forall|j: int| 0 <= j < i ==> #[trigger] files_match(r@[j], fs@[j]),
        decreases fs@.len() - i,
    {
        let f = &fs[i];
        let mut sources: Vec<String> = Vec::new();
        let mut k: usize = 0;
        while k < f.1.len()
            invariant
                0 <= k <= f.1@.len(),
                sources@.len() == k,
                forall|q: int| 0 <= q < k ==> #[trigger] sources@[q]@ == f.1@[q].1@,
            decreases f.1@.len() - k,
        {
            sources.push(owned(f.1[k].1.as_str()));
            k = k + 1;
        }
        r.push((owned(f.0.as_str()), sources));
        i = i + 1;
    }
    r
}

} // verus!
