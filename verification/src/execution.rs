//! Where each planned overlay lands on the running system: a directory the
//! stock partition lacks is reached through its nearest existing ancestor,
//! and file-level and rerouted overlays are grouped into shallow layers.
use vstd::prelude::*;

use crate::errors::{Error, Result};
use crate::paths::{components, split_components, views};
use crate::plan::paths::joined;
use crate::plan::paths::join_from;
use crate::plan::paths::join_step;
use crate::plan::planner::{MountPlan, OverlayOperation};
use crate::sys::mountinfo::{is_absolute, lemma_path_order, path_less, path_lt, path_same, same_path};
use crate::text::{append_str, owned, push_char, str_eq};

verus! {

/// What inspecting one path on the running system found.
#[derive(Debug, Clone)]
pub enum PathProbe {
    /// A directory, symlinks followed.
    Directory,
    /// Something that exists and is not a directory.
    NotDirectory,
    /// Nothing at that path.
    Missing,
    /// The inspection itself failed.
    Failed { detail: String },
}

/// How a directory overlay reaches its target.
#[derive(Debug, Clone, PartialEq, Eq)]
pub enum OverlayDirectoryTarget {
    /// The target exists: mount on it directly.
    Existing,
    /// The target is missing: mount on `mount_target`, its nearest existing
    /// ancestor below `/`, and materialize the rest as `destination_relative`.
    Missing { mount_target: String, destination_relative: String },
}

/// `/` followed by `parts` joined with `/`.
pub open spec fn rooted(parts: Seq<Seq<char>>) -> Seq<char> {
    "/"@ + joined(parts)
}

/// The ancestors of `target` strictly between it and `/`, nearest first.
pub open spec fn spec_ancestors(target: Seq<char>) -> Seq<Seq<char>> {
    let c = components(target);
    if c.len() <= 1 {
        Seq::empty()
    } else {
        Seq::new((c.len() - 1) as nat, |i: int| rooted(c.take(c.len() - 1 - i)))
    }
}

/// The part of `target` below its `i`-th ancestor.
pub open spec fn below_ancestor(target: Seq<char>, i: int) -> Seq<char> {
    let c = components(target);
    joined(c.skip(c.len() - 1 - i))
}

/// How a target resolves, with the message of a refusal.
pub enum Resolution {
    Direct,
    Shallow { mount_target: Seq<char>, relative: Seq<char> },
    Refused { message: Seq<char> },
}

/// The search for an existing ancestor, from the `i`-th on; `probes[i + 1]`
/// is what inspecting that ancestor found.
pub open spec fn ancestor_search(target: Seq<char>, probes: Seq<PathProbe>, i: int) -> Resolution
    decreases spec_ancestors(target).len() - i,
{
    let anc = spec_ancestors(target);
    if i < 0 || i >= anc.len() {
        Resolution::Refused { message: "overlay target has no existing non-root ancestor: "@ + target }
    } else {
        match probes[i + 1] {
            PathProbe::Directory => Resolution::Shallow { mount_target: anc[i], relative: below_ancestor(target, i) },
            PathProbe::Failed { detail } => Resolution::Refused {
                message: "inspect overlay ancestor "@ + anc[i] + ": "@ + detail@,
            },
            _ => ancestor_search(target, probes, i + 1),
        }
    }
}

/// How an overlay directory target resolves, given what inspecting the
/// target (`probes[0]`) and each of its ancestors found.
pub open spec fn spec_resolve(target: Seq<char>, probes: Seq<PathProbe>) -> Resolution {
    if !is_absolute(target) {
        Resolution::Refused { message: "overlay target is not absolute: "@ + target }
    } else {
        match probes[0] {
            PathProbe::Directory => Resolution::Direct,
            PathProbe::NotDirectory => Resolution::Refused {
                message: "overlay directory target exists but is not a directory: "@ + target,
            },
            PathProbe::Failed { detail } => Resolution::Refused {
                message: "inspect overlay target "@ + target + ": "@ + detail@,
            },
            PathProbe::Missing => ancestor_search(target, probes, 0),
        }
    }
}

/// What a resolution result says, in the terms of `spec_resolve`.
pub open spec fn resolution_of(r: Result<OverlayDirectoryTarget>) -> Resolution {
    match r {
        Ok(OverlayDirectoryTarget::Existing) => Resolution::Direct,
        Ok(OverlayDirectoryTarget::Missing { mount_target, destination_relative }) => Resolution::Shallow {
            mount_target: mount_target@,
            relative: destination_relative@,
        },
        Err(e) => Resolution::Refused { message: e.spec_message() },
    }
}

/// `/` followed by the first `k` of `parts` joined with `/`.
fn rooted_prefix(parts: &Vec<String>, k: usize) -> (r: String)
    requires
        k <= parts@.len(),
    ensures
        r@ == rooted(views(parts@).take(k as int)),
{
    let mut out = owned("/");
    let mut i: usize = 0;
    assert(views(parts@).take(0) =~= Seq::<Seq<char>>::empty());
    while i < k
        invariant
            k <= parts@.len(),
            0 <= i <= k,
            out@ == "/"@ + joined(views(parts@).take(i as int)),
        decreases k - i,
    {
        proof {
            let pre = views(parts@).take(i + 1);
            assert(pre.drop_last() =~= views(parts@).take(i as int));
            assert(pre.last() == parts@[i as int]@);
            if i == 0 {
                assert(pre[0] == parts@[i as int]@);
            }
        }
        let ghost before = out@;
        if i > 0 {
            push_char(&mut out, '/');
        }
        append_str(&mut out, parts[i].as_str());
        proof {
            let pre = views(parts@).take(i + 1);
            if i == 0 {
                assert(joined(views(parts@).take(0)) =~= Seq::<char>::empty());
                assert(joined(pre) == parts@[0]@);
                assert(out@ =~= "/"@ + joined(pre));
            } else {
                assert(out@ =~= "/"@ + joined(pre));
            }
        }
        i = i + 1;
    }
    out
}

/// The ancestors of `target` strictly between it and `/`, nearest first:
/// the paths whose inspection `resolve_overlay_directory_target` reads
/// after the target's own.
pub fn overlay_target_ancestors(target: &str) -> (r: Vec<String>)
    ensures
        views(r@) == spec_ancestors(target@),
{
    let parts = split_components(target);
    let n = parts.len();
    let mut out: Vec<String> = Vec::new();
    if n <= 1 {
        assert(views(out@) =~= spec_ancestors(target@));
        return out;
    }
    let mut i: usize = 0;
    while i < n - 1
        invariant
            n == parts@.len(),
            n > 1,
            views(parts@) == components(target@),
            0 <= i <= n - 1,
            views(out@) =~= spec_ancestors(target@).take(i as int),
        decreases n - 1 - i,
    {
        let a = rooted_prefix(&parts, n - 1 - i);
        let ghost before = out@;
        out.push(a);
        assert(views(out@) =~= views(before).push(a@));
        i = i + 1;
    }
    assert(spec_ancestors(target@).take((n - 1) as int) =~= spec_ancestors(target@));
    out
}

/// Decides how an overlay directory reaches `target`. `probes[0]` is what
/// inspecting `target` found and `probes[i + 1]` what inspecting its `i`-th
/// ancestor found (see `overlay_target_ancestors`): an existing directory is
/// mounted directly; a missing one through its nearest existing ancestor
/// below `/`; anything else is refused.
pub fn resolve_overlay_directory_target(target: &str, probes: &[PathProbe]) -> (r: Result<OverlayDirectoryTarget>)
    requires
        probes@.len() == spec_ancestors(target@).len() + 1,
    ensures
        resolution_of(r) == spec_resolve(target@, probes@),
        r matches Err(e) ==> e is Msg,
{
    if !(target.unicode_len() > 0 && target.get_char(0) == '/') {
        let mut message = owned("overlay target is not absolute: ");
        append_str(&mut message, target);
        return Err(Error::msg(message));
    }
    match &probes[0] {
        PathProbe::Directory => {
            return Ok(OverlayDirectoryTarget::Existing);
        },
        PathProbe::NotDirectory => {
            let mut message = owned("overlay directory target exists but is not a directory: ");
            append_str(&mut message, target);
            return Err(Error::msg(message));
        },
        PathProbe::Failed { detail } => {
            let mut message = owned("inspect overlay target ");
            append_str(&mut message, target);
            append_str(&mut message, ": ");
            append_str(&mut message, detail.as_str());
            return Err(Error::msg(message));
        },
        PathProbe::Missing => {},
    }
    let parts = split_components(target);
    let n = parts.len();
    let ghost anc = spec_ancestors(target@);
    let count: usize = if n <= 1 { 0 } else { n - 1 };
    let mut i: usize = 0;
    while i < count
        invariant
            n == parts@.len(),
            views(parts@) == components(target@),
            anc == spec_ancestors(target@),
            count == anc.len(),
            probes@.len() == anc.len() + 1,
            0 <= i <= count,
            spec_resolve(target@, probes@) == ancestor_search(target@, probes@, i as int),
        decreases count - i,
    {
        match &probes[i + 1] {
            PathProbe::Directory => {
                let k = n - 1 - i;
                let mount_target = rooted_prefix(&parts, k);
                let destination_relative = join_from(&parts, k);
                return Ok(OverlayDirectoryTarget::Missing { mount_target, destination_relative });
            },
            PathProbe::Failed { detail } => {
                let ancestor = rooted_prefix(&parts, n - 1 - i);
                let mut message = owned("inspect overlay ancestor ");
                append_str(&mut message, ancestor.as_str());
                append_str(&mut message, ": ");
                append_str(&mut message, detail.as_str());
                return Err(Error::msg(message));
            },
            _ => {},
        }
        i = i + 1;
    }
    let mut message = owned("overlay target has no existing non-root ancestor: ");
    append_str(&mut message, target);
    Err(Error::msg(message))
}

/// One file or directory copied into a shallow layer.
#[derive(Debug, Clone, PartialEq, Eq)]
pub struct ShallowOverlaySource {
    pub source: String,
    pub destination_relative: String,
}

/// The overlays to run: the indices of the operations mounted directly, and
/// for every other mount target, ordered by path, its shallow layer sources
/// ordered by source and then destination.
#[derive(Debug)]
pub struct OverlayExecutionPlan {
    pub direct_operations: Vec<usize>,
    pub shallow: Vec<(String, Vec<ShallowOverlaySource>)>,
}

/// A source and where it lands inside its layer.
pub open spec fn entry_view(e: ShallowOverlaySource) -> (Seq<char>, Seq<char>) {
    (e.source@, e.destination_relative@)
}

pub open spec fn entry_views(v: Seq<ShallowOverlaySource>) -> Seq<(Seq<char>, Seq<char>)> {
    v.map_values(|e: ShallowOverlaySource| entry_view(e))
}

/// The last name of `source`; none for a path without one or ending in `..`.
pub open spec fn file_name_of(source: Seq<char>) -> Option<Seq<char>> {
    let c = components(source);
    if c.len() == 0 || c.last() == ".."@ {
        None
    } else {
        Some(c.last())
    }
}

/// The mount target of a resolved `target`.
pub open spec fn key_of(target: Seq<char>, t: OverlayDirectoryTarget) -> Seq<char> {
    match t {
        OverlayDirectoryTarget::Existing => target,
        OverlayDirectoryTarget::Missing { mount_target, .. } => mount_target@,
    }
}

/// The path inside a layer under which a resolved `target`'s files land.
pub open spec fn prefix_of(t: OverlayDirectoryTarget) -> Seq<char> {
    match t {
        OverlayDirectoryTarget::Existing => Seq::empty(),
        OverlayDirectoryTarget::Missing { destination_relative, .. } => destination_relative@,
    }
}

/// The shallow sources of the first `j` files of one file-level target:
/// each file lands under `prefix` by its own name.
pub open spec fn sources_outcome(
    key: Seq<char>,
    prefix: Seq<char>,
    sources: Seq<String>,
    j: int,
) -> core::result::Result<Seq<(Seq<char>, (Seq<char>, Seq<char>))>, Seq<char>>
    decreases j,
{
    if j <= 0 {
        Ok(Seq::empty())
    } else {
        match sources_outcome(key, prefix, sources, j - 1) {
            Err(m) => Err(m),
            Ok(items) => match file_name_of(sources[j - 1]@) {
                None => Err("overlay file source has no file name: "@ + sources[j - 1]@),
                Some(name) => Ok(items.push((key, (sources[j - 1]@, join_step(prefix, name))))),
            },
        }
    }
}

/// The shallow sources of the first `i` file-level targets, or the first
/// failure among them.
pub open spec fn files_outcome(
    files: Seq<(String, Vec<String>)>,
    resolved: Seq<Result<OverlayDirectoryTarget>>,
    i: int,
) -> core::result::Result<Seq<(Seq<char>, (Seq<char>, Seq<char>))>, Seq<char>>
    decreases i,
{
    if i <= 0 {
        Ok(Seq::empty())
    } else {
        match files_outcome(files, resolved, i - 1) {
            Err(m) => Err(m),
            Ok(items) => match resolved[i - 1] {
                Err(e) => Err(e.spec_message()),
                Ok(t) => match sources_outcome(
                    key_of(files[i - 1].0@, t),
                    prefix_of(t),
                    files[i - 1].1@,
                    files[i - 1].1@.len() as int,
                ) {
                    Err(m) => Err(m),
                    Ok(more) => Ok(items + more),
                },
            },
        }
    }
}

/// Each lower layer of a rerouted directory operation, copied whole to
/// `relative` under `key`.
pub open spec fn lower_items(key: Seq<char>, relative: Seq<char>, lowerdirs: Seq<String>) -> Seq<
    (Seq<char>, (Seq<char>, Seq<char>)),
> {
    Seq::new(lowerdirs.len(), |j: int| (key, (lowerdirs[j]@, relative)))
}

/// The direct operation indices and the rerouted layers of the first `i`
/// directory operations, or the first failure among them.
pub open spec fn ops_outcome(
    ops: Seq<OverlayOperation>,
    resolved: Seq<Result<OverlayDirectoryTarget>>,
    i: int,
) -> core::result::Result<(Seq<usize>, Seq<(Seq<char>, (Seq<char>, Seq<char>))>), Seq<char>>
    decreases i,
{
    if i <= 0 {
        Ok((Seq::empty(), Seq::empty()))
    } else {
        match ops_outcome(ops, resolved, i - 1) {
            Err(m) => Err(m),
            Ok(acc) => match resolved[i - 1] {
                Err(e) => Err(e.spec_message()),
                Ok(OverlayDirectoryTarget::Existing) => Ok((acc.0.push((i - 1) as usize), acc.1)),
                Ok(OverlayDirectoryTarget::Missing { mount_target, destination_relative }) => Ok(
                    (acc.0, acc.1 + lower_items(mount_target@, destination_relative@, ops[i - 1].lowerdirs@)),
                ),
            },
        }
    }
}

/// What a plan executes: the direct operations and every shallow source with
/// its mount target, file-level targets first, each in plan order; or the
/// first failure.
pub open spec fn spec_execution(
    plan: MountPlan,
    file_targets: Seq<Result<OverlayDirectoryTarget>>,
    op_targets: Seq<Result<OverlayDirectoryTarget>>,
) -> core::result::Result<(Seq<usize>, Seq<(Seq<char>, (Seq<char>, Seq<char>))>), Seq<char>> {
    match files_outcome(plan.overlay_files@, file_targets, plan.overlay_files@.len() as int) {
        Err(m) => Err(m),
        Ok(a) => match ops_outcome(plan.overlay_ops@, op_targets, plan.overlay_ops@.len() as int) {
            Err(m) => Err(m),
            Ok(b) => Ok((b.0, a + b.1)),
        },
    }
}

/// The sources, in collection order, whose mount target is `key`.
pub open spec fn group_of(items: Seq<(Seq<char>, (Seq<char>, Seq<char>))>, key: Seq<char>) -> Seq<
    (Seq<char>, Seq<char>),
>
    decreases items.len(),
{
    if items.len() == 0 {
        Seq::empty()
    } else {
        let prev = group_of(items.drop_last(), key);
        if same_path(items.last().0, key) {
            prev.push(items.last().1)
        } else {
            prev
        }
    }
}

/// `PathBuf` order on (source, destination) pairs.
pub open spec fn entry_lt(a: (Seq<char>, Seq<char>), b: (Seq<char>, Seq<char>)) -> bool {
    path_lt(a.0, b.0) || (same_path(a.0, b.0) && path_lt(a.1, b.1))
}

pub open spec fn entries_sorted(s: Seq<(Seq<char>, Seq<char>)>) -> bool {
    forall|i: int, j: int| 0 <= i < j < s.len() ==> !entry_lt(#[trigger] s[j], #[trigger] s[i])
}

/// The shallow layers group exactly `items` by mount target: targets in
/// strict path order, each with its sources sorted, nothing lost or added.
pub open spec fn groups_match(
    shallow: Seq<(String, Vec<ShallowOverlaySource>)>,
    items: Seq<(Seq<char>, (Seq<char>, Seq<char>))>,
) -> bool {
    &&& forall|i: int, j: int| 0 <= i < j < shallow.len() ==> path_lt(#[trigger] shallow[i].0@, #[trigger] shallow[j].0@)
    &&& forall|g: int| 0 <= g < shallow.len() ==> {
        &&& entries_sorted(entry_views(#[trigger] shallow[g].1@))
        &&& entry_views(shallow[g].1@).to_multiset() == group_of(items, shallow[g].0@).to_multiset()
        &&& shallow[g].1@.len() > 0
    }
    &&& forall|k: int| 0 <= k < items.len() ==> exists|g: int| 0 <= g < shallow.len() && same_path(#[trigger] shallow[g].0@, #[trigger] items[k].0)
}

proof fn lemma_entry_order(a: (Seq<char>, Seq<char>), b: (Seq<char>, Seq<char>), c: (Seq<char>, Seq<char>))
    ensures
        !entry_lt(a, a),
        entry_lt(a, b) && entry_lt(b, c) ==> entry_lt(a, c),
        entry_lt(a, b) ==> !entry_lt(b, a),
{
    lemma_path_order(a.0, b.0, c.0);
    lemma_path_order(a.1, b.1, c.1);
    lemma_path_order(b.0, a.0, c.0);
    lemma_path_order(b.1, a.1, c.1);
}

fn entry_less(a: &ShallowOverlaySource, b: &ShallowOverlaySource) -> (r: bool)
    ensures
        r == entry_lt(entry_view(*a), entry_view(*b)),
{
    if path_less(a.source.as_str(), b.source.as_str()) {
        return true;
    }
    path_same(a.source.as_str(), b.source.as_str()) && path_less(
        a.destination_relative.as_str(),
        b.destination_relative.as_str(),
    )
}

/// Inserts `entry` after every entry that does not order after it.
fn insert_sorted(group: &mut Vec<ShallowOverlaySource>, entry: ShallowOverlaySource)
    requires
        entries_sorted(entry_views(old(group)@)),
    ensures
        entries_sorted(entry_views(final(group)@)),
        entry_views(final(group)@).to_multiset() == entry_views(old(group)@).to_multiset().insert(entry_view(entry)),
        final(group)@.len() == old(group)@.len() + 1,
{
    let mut p: usize = 0;
    while p < group.len() && !entry_less(&entry, &group[p])
        invariant
            0 <= p <= group@.len(),
            group@ == old(group)@,
            forall|k: int| 0 <= k < p ==> !entry_lt(entry_view(entry), #[trigger] entry_view(group@[k])),
        decreases group@.len() - p,
    {
        p = p + 1;
    }
    let ghost before = entry_views(group@);
    let ghost x = entry_view(entry);
    group.insert(p, entry);
    proof {
        assert(entry_views(group@) =~= before.insert(p as int, x));
        vstd::seq_lib::to_multiset_insert(before, p as int, x);
        let after = entry_views(group@);
        assert forall|i: int, j: int| 0 <= i < j < after.len() implies !entry_lt(#[trigger] after[j], #[trigger] after[i]) by {
            if j < p {
                assert(after[i] == before[i] && after[j] == before[j]);
            } else if j == p {
                assert(after[i] == before[i]);
            } else if i > p {
                assert(after[i] == before[i - 1] && after[j] == before[j - 1]);
            } else if i == p {
                // x orders before before[p], and before[p] does not order after before[j - 1]
                assert(after[j] == before[j - 1]);
                assert(entry_lt(x, before[p as int]));
                if entry_lt(before[j - 1], x) {
                    lemma_entry_order(before[j - 1], x, before[p as int]);
                    if j - 1 > p {
                        assert(!entry_lt(before[j - 1], before[p as int]));
                    } else {
                        lemma_entry_order(before[p as int], before[p as int], before[p as int]);
                    }
                }
            } else {
                assert(after[i] == before[i]);
                assert(after[j] == before[j - 1]);
                // before[i] with i < p < j - 1 + 1
                if entry_lt(before[j - 1], before[i]) {
                    assert(false);
                }
            }
        }
    }
}

proof fn lemma_group_of_absent(items: Seq<(Seq<char>, (Seq<char>, Seq<char>))>, key: Seq<char>)
    requires
        forall|k: int| 0 <= k < items.len() ==> !same_path(#[trigger] items[k].0, key),
    ensures
        group_of(items, key) == Seq::<(Seq<char>, Seq<char>)>::empty(),
    decreases items.len(),
{
    if items.len() > 0 {
        assert(items.drop_last().len() < items.len());
        assert forall|k: int| 0 <= k < items.drop_last().len() implies !same_path(#[trigger] items.drop_last()[k].0, key) by {
            assert(items.drop_last()[k] == items[k]);
        }
        lemma_group_of_absent(items.drop_last(), key);
        assert(!same_path(items[items.len() - 1].0, key));
    }
}

/// Adds the `i`-th collected source to its mount target's shallow layers.
fn add_to_groups(
    shallow: &mut Vec<(String, Vec<ShallowOverlaySource>)>,
    key: &str,
    entry: ShallowOverlaySource,
    Ghost(items): Ghost<Seq<(Seq<char>, (Seq<char>, Seq<char>))>>,
    Ghost(i): Ghost<int>,
)
    requires
        0 <= i < items.len(),
        items[i] == (key@, entry_view(entry)),
        groups_match(old(shallow)@, items.take(i)),
    ensures
        groups_match(final(shallow)@, items.take(i + 1)),
{
    let ghost prev = items.take(i);
    let ghost next = items.take(i + 1);
    proof {
        assert(next.drop_last() =~= prev);
        assert(next.last() == items[i]);
        assert forall|k: int| 0 <= k < prev.len() implies #[trigger] next[k] == prev[k] by {}
    }
    let mut p: usize = 0;
    while p < shallow.len() && path_less(shallow[p].0.as_str(), key)
        invariant
            0 <= p <= shallow@.len(),
            shallow@ == old(shallow)@,
            forall|k: int| 0 <= k < p ==> path_lt(#[trigger] shallow@[k].0@, key@),
        decreases shallow@.len() - p,
    {
        p = p + 1;
    }
    let ghost old_groups = shallow@;
    if p < shallow.len() && path_same(shallow[p].0.as_str(), key) {
        let ghost gkey = shallow@[p as int].0@;
        let mut group = Vec::new();
        std::mem::swap(&mut group, &mut shallow[p].1);
        let ghost old_group = group@;
        insert_sorted(&mut group, entry);
        std::mem::swap(&mut group, &mut shallow[p].1);
        proof {
            assert(shallow@[p as int].0 == old_groups[p as int].0);
            assert forall|g: int| 0 <= g < shallow@.len() && g != p implies #[trigger] shallow@[g] == old_groups[g] by {}
            // keys unchanged
            assert forall|a: int, b: int| 0 <= a < b < shallow@.len() implies path_lt(#[trigger] shallow@[a].0@, #[trigger] shallow@[b].0@) by {
                assert(shallow@[a].0 == old_groups[a].0 && shallow@[b].0 == old_groups[b].0);
            }
            assert forall|g: int| 0 <= g < shallow@.len() implies {
                &&& entries_sorted(entry_views(#[trigger] shallow@[g].1@))
                &&& entry_views(shallow@[g].1@).to_multiset() == group_of(next, shallow@[g].0@).to_multiset()
                &&& shallow@[g].1@.len() > 0
            } by {
                let gk = shallow@[g].0@;
                if g == p {
                    assert(same_path(key@, gk));
                    vstd::seq_lib::to_multiset_build(group_of(prev, gk), entry_view(entry));
                } else {
                    assert(shallow@[g] == old_groups[g]);
                    if same_path(key@, gk) {
                        if g < p {
                            lemma_path_order(gk, old_groups[p as int].0@, key@);
                            lemma_path_order(old_groups[g].0@, old_groups[p as int].0@, key@);
                        } else {
                            lemma_path_order(old_groups[p as int].0@, gk, key@);
                        }
                        assert(same_path(gk, old_groups[p as int].0@));
                        if g < p {
                            lemma_path_order(old_groups[g].0@, old_groups[p as int].0@, key@);
                        } else {
                            lemma_path_order(old_groups[p as int].0@, old_groups[g].0@, key@);
                        }
                    }
                }
            }
            assert forall|k: int| 0 <= k < next.len() implies exists|g: int| 0 <= g < shallow@.len() && same_path(#[trigger] shallow@[g].0@, #[trigger] next[k].0) by {
                if k < prev.len() {
                    assert(next[k] == prev[k]);
                    let g = choose|g: int| 0 <= g < old_groups.len() && same_path(#[trigger] old_groups[g].0@, #[trigger] prev[k].0);
                    assert(shallow@[g].0 == old_groups[g].0);
                } else {
                    assert(same_path(shallow@[p as int].0@, next[k].0));
                }
            }
        }
    } else {
        let ghost x = entry_view(entry);
        let mut group = Vec::new();
        group.push(entry);
        let ghost new_group = group@;
        proof {
            assert(entry_views(group@) =~= seq![x]);
        }
        shallow.insert(p, (owned(key), group));
        proof {
            // `key` lies strictly between the groups before and after `p`
            if p < old_groups.len() {
                lemma_path_order(key@, old_groups[p as int].0@, key@);
                assert(path_lt(key@, old_groups[p as int].0@));
            }
            assert forall|g: int| 0 <= g < old_groups.len() implies !same_path(#[trigger] old_groups[g].0@, key@) by {
                if g < p {
                    lemma_path_order(old_groups[g].0@, key@, key@);
                } else {
                    if g > p {
                        lemma_path_order(key@, old_groups[p as int].0@, old_groups[g].0@);
                    }
                    lemma_path_order(key@, old_groups[g].0@, key@);
                }
            }
            assert forall|k: int| 0 <= k < prev.len() implies !same_path(#[trigger] prev[k].0, key@) by {
                let g = choose|g: int| 0 <= g < old_groups.len() && same_path(#[trigger] old_groups[g].0@, #[trigger] prev[k].0);
                assert(!same_path(old_groups[g].0@, key@));
            }
            lemma_group_of_absent(prev, key@);
            assert(group_of(next, key@) =~= seq![x]);
            assert forall|a: int, b: int| 0 <= a < b < shallow@.len() implies path_lt(#[trigger] shallow@[a].0@, #[trigger] shallow@[b].0@) by {
                if b < p {
                    assert(shallow@[a] == old_groups[a] && shallow@[b] == old_groups[b]);
                } else if b == p {
                    assert(shallow@[a] == old_groups[a]);
                } else if a > p {
                    assert(shallow@[a] == old_groups[a - 1] && shallow@[b] == old_groups[b - 1]);
                } else if a == p {
                    assert(shallow@[b] == old_groups[b - 1]);
                    if b - 1 > p {
                        lemma_path_order(key@, old_groups[p as int].0@, old_groups[b - 1].0@);
                    }
                } else {
                    assert(shallow@[a] == old_groups[a] && shallow@[b] == old_groups[b - 1]);
                    lemma_path_order(old_groups[a].0@, old_groups[p as int].0@, old_groups[b - 1].0@);
                }
            }
            assert forall|g: int| 0 <= g < shallow@.len() implies {
                &&& entries_sorted(entry_views(#[trigger] shallow@[g].1@))
                &&& entry_views(shallow@[g].1@).to_multiset() == group_of(next, shallow@[g].0@).to_multiset()
                &&& shallow@[g].1@.len() > 0
            } by {
                if g == p {
                    assert(shallow@[g].1@ == new_group);
                } else {
                    let og = if g < p { g } else { g - 1 };
                    assert(shallow@[g] == old_groups[og]);
                    assert(!same_path(old_groups[og].0@, key@));
                }
            }
            assert forall|k: int| 0 <= k < next.len() implies exists|g: int| 0 <= g < shallow@.len() && same_path(#[trigger] shallow@[g].0@, #[trigger] next[k].0) by {
                if k < prev.len() {
                    assert(next[k] == prev[k]);
                    let g = choose|g: int| 0 <= g < old_groups.len() && same_path(#[trigger] old_groups[g].0@, #[trigger] prev[k].0);
                    if g < p {
                        assert(shallow@[g] == old_groups[g]);
                    } else {
                        assert(shallow@[g + 1] == old_groups[g]);
                    }
                } else {
                    assert(shallow@[p as int].0@ == key@);
                }
            }
        }
    }
}

/// The collected sources with their mount targets.
pub open spec fn flat_view(v: Seq<(String, ShallowOverlaySource)>) -> Seq<(Seq<char>, (Seq<char>, Seq<char>))> {
    v.map_values(|p: (String, ShallowOverlaySource)| (p.0@, entry_view(p.1)))
}

proof fn lemma_sources_err(key: Seq<char>, prefix: Seq<char>, sources: Seq<String>, i: int, n: int)
    requires
        0 <= i <= n,
        sources_outcome(key, prefix, sources, i) is Err,
    ensures
        sources_outcome(key, prefix, sources, n) == sources_outcome(key, prefix, sources, i),
    decreases n - i,
{
    if n > i {
        lemma_sources_err(key, prefix, sources, i, n - 1);
    }
}

proof fn lemma_files_err(files: Seq<(String, Vec<String>)>, resolved: Seq<Result<OverlayDirectoryTarget>>, i: int, n: int)
    requires
        0 <= i <= n,
        files_outcome(files, resolved, i) is Err,
    ensures
        files_outcome(files, resolved, n) == files_outcome(files, resolved, i),
    decreases n - i,
{
    if n > i {
        lemma_files_err(files, resolved, i, n - 1);
    }
}

proof fn lemma_ops_err(ops: Seq<OverlayOperation>, resolved: Seq<Result<OverlayDirectoryTarget>>, i: int, n: int)
    requires
        0 <= i <= n,
        ops_outcome(ops, resolved, i) is Err,
    ensures
        ops_outcome(ops, resolved, n) == ops_outcome(ops, resolved, i),
    decreases n - i,
{
    if n > i {
        lemma_ops_err(ops, resolved, i, n - 1);
    }
}

/// One `Path::join` step: `name` below `prefix`.
fn join_name(prefix: &str, name: &str) -> (r: String)
    ensures
        r@ == join_step(prefix@, name@),
{
    let mut out = owned(prefix);
    let n = prefix.unicode_len();
    if n > 0 && prefix.get_char(n - 1) != '/' {
        push_char(&mut out, '/');
    }
    append_str(&mut out, name);
    out
}

/// The shallow sources of one file-level target, appended to `flat`.
fn collect_file_sources(
    flat: &mut Vec<(String, ShallowOverlaySource)>,
    key: &String,
    prefix: &String,
    sources: &Vec<String>,
) -> (r: Result<()>)
    ensures
        match (r, sources_outcome(key@, prefix@, sources@, sources@.len() as int)) {
            (Ok(_), Ok(more)) => flat_view(final(flat)@) == flat_view(old(flat)@) + more,
            (Err(e), Err(m)) => e.spec_message() == m,
            _ => false,
        },
{
    let mut j: usize = 0;
    let ghost base = flat_view(flat@);
    while j < sources.len()
        invariant
            0 <= j <= sources@.len(),
            sources_outcome(key@, prefix@, sources@, j as int) matches Ok(part) && flat_view(flat@) == base + part,
        decreases sources@.len() - j,
    {
        let source = &sources[j];
        let parts = split_components(source.as_str());
        let count = parts.len();
        if count == 0 || str_eq(parts[count - 1].as_str(), "..") {
            let mut message = owned("overlay file source has no file name: ");
            append_str(&mut message, source.as_str());
            proof {
                lemma_sources_err(key@, prefix@, sources@, j + 1, sources@.len() as int);
            }
            return Err(Error::msg(message));
        }
        let destination_relative = join_name(prefix.as_str(), parts[count - 1].as_str());
        let ghost before = flat@;
        flat.push((key.clone(), ShallowOverlaySource { source: source.clone(), destination_relative }));
        proof {
            assert(flat_view(flat@) =~= flat_view(before).push(flat_view(flat@).last()));
        }
        j = j + 1;
    }
    Ok(())
}

/// Groups the plan's overlays for execution. `file_targets[i]` is how the
/// `i`-th file-level target resolved and `op_targets[i]` how the `i`-th
/// directory operation's target did (`resolve_overlay_directory_target`).
/// An existing directory operation is mounted directly; a rerouted one
/// copies each lower layer whole below its nearest existing ancestor; every
/// file of a file-level target is copied by name below the target's mount
/// point. Failures are reported in plan order, file-level targets first.
pub fn build_overlay_execution_plan(
    plan: &MountPlan,
    file_targets: &[Result<OverlayDirectoryTarget>],
    op_targets: &[Result<OverlayDirectoryTarget>],
) -> (r: Result<OverlayExecutionPlan>)
    requires
        file_targets@.len() == plan.overlay_files@.len(),
        op_targets@.len() == plan.overlay_ops@.len(),
    ensures
        match (r, spec_execution(*plan, file_targets@, op_targets@)) {
            (Ok(x), Ok(s)) => x.direct_operations@ == s.0 && groups_match(x.shallow@, s.1),
            (Err(e), Err(m)) => e.spec_message() == m,
            _ => false,
        },
{
    let files = &plan.overlay_files;
    let ops = &plan.overlay_ops;
    let mut flat: Vec<(String, ShallowOverlaySource)> = Vec::new();
    let mut i: usize = 0;
    assert(flat_view(flat@) =~= Seq::<(Seq<char>, (Seq<char>, Seq<char>))>::empty());
    while i < files.len()
        invariant
            0 <= i <= files@.len(),
            files == &plan.overlay_files,
            file_targets@.len() == files@.len(),
            files_outcome(files@, file_targets@, i as int) == Ok::<Seq<(Seq<char>, (Seq<char>, Seq<char>))>, Seq<char>>(flat_view(flat@)),
        decreases files@.len() - i,
    {
        match &file_targets[i] {
            Err(e) => {
                proof {
                    lemma_files_err(files@, file_targets@, i + 1, files@.len() as int);
                }
                return Err(e.duplicate());
            },
            Ok(t) => {
                let target = &files[i].0;
                let (key, prefix) = match t {
                    OverlayDirectoryTarget::Existing => (target.clone(), String::new()),
                    OverlayDirectoryTarget::Missing { mount_target, destination_relative } => (
                        mount_target.clone(),
                        destination_relative.clone(),
                    ),
                };
                proof {
                    assert(key@ == key_of(target@, *t));
                    assert(prefix@ == prefix_of(*t));
                }
                let ghost before = flat_view(flat@);
                match collect_file_sources(&mut flat, &key, &prefix, &files[i].1) {
                    Ok(()) => {},
                    Err(e) => {
                        proof {
                            lemma_files_err(files@, file_targets@, i + 1, files@.len() as int);
                        }
                        return Err(e);
                    },
                }
            },
        }
        i = i + 1;
    }
    let ghost a = flat_view(flat@);
    let mut direct: Vec<usize> = Vec::new();
    let mut i: usize = 0;
    assert(a + Seq::<(Seq<char>, (Seq<char>, Seq<char>))>::empty() =~= a);
    while i < ops.len()
        invariant
            0 <= i <= ops@.len(),
            ops == &plan.overlay_ops,
            op_targets@.len() == ops@.len(),
            ops_outcome(ops@, op_targets@, i as int) matches Ok(acc) && acc.0 == direct@ && flat_view(flat@) == a + acc.1,
            files_outcome(plan.overlay_files@, file_targets@, plan.overlay_files@.len() as int) == Ok::<Seq<(Seq<char>, (Seq<char>, Seq<char>))>, Seq<char>>(a),
        decreases ops@.len() - i,
    {
        match &op_targets[i] {
            Err(e) => {
                proof {
                    lemma_ops_err(ops@, op_targets@, i + 1, ops@.len() as int);
                }
                return Err(e.duplicate());
            },
            Ok(OverlayDirectoryTarget::Existing) => {
                direct.push(i);
            },
            Ok(OverlayDirectoryTarget::Missing { mount_target, destination_relative }) => {
                let lowerdirs = &ops[i].lowerdirs;
                let ghost start = flat_view(flat@);
                let ghost extra = lower_items(mount_target@, destination_relative@, lowerdirs@);
                let mut j: usize = 0;
                while j < lowerdirs.len()
                    invariant
                        0 <= j <= lowerdirs@.len(),
                        extra == lower_items(mount_target@, destination_relative@, lowerdirs@),
                        flat_view(flat@) == start + extra.take(j as int),
                    decreases lowerdirs@.len() - j,
                {
                    let ghost before = flat@;
                    flat.push((
                        mount_target.clone(),
                        ShallowOverlaySource { source: lowerdirs[j].clone(), destination_relative: destination_relative.clone() },
                    ));
                    proof {
                        assert(flat_view(flat@) =~= flat_view(before).push(extra[j as int]));
                        assert(extra.take(j + 1) =~= extra.take(j as int).push(extra[j as int]));
                    }
                    j = j + 1;
                }
                proof {
                    assert(extra.take(lowerdirs@.len() as int) =~= extra);
                }
            },
        }
        i = i + 1;
    }
    let ghost items = flat_view(flat@);
    let mut shallow: Vec<(String, Vec<ShallowOverlaySource>)> = Vec::new();
    let mut k: usize = 0;
    proof {
        assert(items.take(0) =~= Seq::<(Seq<char>, (Seq<char>, Seq<char>))>::empty());
    }
    while k < flat.len()
        invariant
            0 <= k <= flat@.len(),
            items == flat_view(flat@),
            groups_match(shallow@, items.take(k as int)),
        decreases flat@.len() - k,
    {
        let entry = ShallowOverlaySource {
            source: flat[k].1.source.clone(),
            destination_relative: flat[k].1.destination_relative.clone(),
        };
        add_to_groups(&mut shallow, flat[k].0.as_str(), entry, Ghost(items), Ghost(k as int));
        k = k + 1;
    }
    proof {
        assert(items.take(flat@.len() as int) =~= items);
    }
    Ok(OverlayExecutionPlan { direct_operations: direct, shallow })
}

/// What the mount phases need prepared before they run.
#[derive(Debug, Clone, Copy, PartialEq, Eq)]
pub struct MountResources {
    /// Overlay layers must be staged on prepared storage.
    pub overlay_storage: bool,
    /// A runtime temporary session is needed, for staging or magic mounts.
    pub runtime_temp: bool,
    /// The session outlives the boot: unmounting is disabled and the staged
    /// layers stay in use.
    pub retain_runtime: bool,
}

/// What `plan` needs prepared; `disable_umount` keeps the session alive.
pub fn mount_resources(plan: &MountPlan, disable_umount: bool) -> (r: MountResources)
    ensures
        r.overlay_storage == (plan.overlay_ops@.len() > 0 || plan.overlay_files@.len() > 0),
        r.runtime_temp == (r.overlay_storage || plan.magic_module_ids@.len() > 0),
        r.retain_runtime == (disable_umount && r.overlay_storage),
{
    let overlay_storage = plan.overlay_ops.len() > 0 || plan.overlay_files.len() > 0;
    MountResources {
        overlay_storage,
        runtime_temp: overlay_storage || plan.magic_module_ids.len() > 0,
        retain_runtime: disable_umount && overlay_storage,
    }
}

/// The source roots of the modules in `ids`, in module order.
pub open spec fn module_roots(modules: Seq<crate::scanner::ModuleRecord>, ids: Seq<String>) -> Seq<Seq<char>>
    decreases modules.len(),
{
    if modules.len() == 0 {
        Seq::empty()
    } else {
        let prev = module_roots(modules.drop_last(), ids);
        if crate::text::has_name(ids, modules.last().id@) {
            prev.push(modules.last().source_path@)
        } else {
            prev
        }
    }
}

/// Every shallow source, target by target.
pub open spec fn shallow_sources(shallow: Seq<(String, Vec<ShallowOverlaySource>)>) -> Seq<Seq<char>>
    decreases shallow.len(),
{
    if shallow.len() == 0 {
        Seq::empty()
    } else {
        shallow_sources(shallow.drop_last()) + shallow.last().1@.map_values(|e: ShallowOverlaySource| e.source@)
    }
}

/// The paths whose size the overlay storage must hold: each overlay
/// module's source once, then every shallow source once more, since each is
/// materialized again inside the same staging filesystem.
pub fn overlay_storage_sizing_paths(
    modules: &[crate::scanner::ModuleRecord],
    plan: &MountPlan,
    execution: &OverlayExecutionPlan,
) -> (r: Vec<String>)
    ensures
        views(r@) == module_roots(modules@, plan.overlay_module_ids@) + shallow_sources(execution.shallow@),
{
    let mut out: Vec<String> = Vec::new();
    let mut i: usize = 0;
    assert(modules@.take(0) =~= Seq::<crate::scanner::ModuleRecord>::empty());
    while i < modules.len()
        invariant
            0 <= i <= modules@.len(),
            views(out@) == module_roots(modules@.take(i as int), plan.overlay_module_ids@),
        decreases modules@.len() - i,
    {
        proof {
            assert(modules@.take(i + 1).drop_last() =~= modules@.take(i as int));
        }
        if crate::plan::paths::contains_name(plan.overlay_module_ids.as_slice(), modules[i].id.as_str()) {
            let ghost before = out@;
            out.push(modules[i].source_path.clone());
            assert(views(out@) =~= views(before).push(modules@[i as int].source_path@));
        }
        i = i + 1;
    }
    assert(modules@.take(modules@.len() as int) =~= modules@);
    let ghost roots = views(out@);
    let mut g: usize = 0;
    assert(execution.shallow@.take(0) =~= Seq::<(String, Vec<ShallowOverlaySource>)>::empty());
    while g < execution.shallow.len()
        invariant
            0 <= g <= execution.shallow@.len(),
            views(out@) == roots + shallow_sources(execution.shallow@.take(g as int)),
        decreases execution.shallow@.len() - g,
    {
        let entries = &execution.shallow[g].1;
        let ghost start = views(out@);
        let ghost all = entries@.map_values(|e: ShallowOverlaySource| e.source@);
        let mut j: usize = 0;
        while j < entries.len()
            invariant
                0 <= j <= entries@.len(),
                all == entries@.map_values(|e: ShallowOverlaySource| e.source@),
                views(out@) == start + all.take(j as int),
            decreases entries@.len() - j,
        {
            let ghost before = out@;
            out.push(entries[j].source.clone());
            assert(views(out@) =~= views(before).push(all[j as int]));
            assert(all.take(j + 1) =~= all.take(j as int).push(all[j as int]));
            j = j + 1;
        }
        proof {
            let pre = execution.shallow@.take(g + 1);
            assert(pre.drop_last() =~= execution.shallow@.take(g as int));
            assert(all.take(entries@.len() as int) =~= all);
        }
        g = g + 1;
    }
    assert(execution.shallow@.take(execution.shallow@.len() as int) =~= execution.shallow@);
    out
}

/// The targets among `targets` that the mount table shows, in order.
pub open spec fn confirmed(targets: Seq<String>, snapshot: Seq<(Seq<char>, Seq<i32>)>) -> Seq<Seq<char>>
    decreases targets.len(),
{
    if targets.len() == 0 {
        Seq::empty()
    } else {
        let prev = confirmed(targets.drop_last(), snapshot);
        if crate::sys::mountinfo::snapshot_has(snapshot, targets.last()@) {
            prev.push(targets.last()@)
        } else {
            prev
        }
    }
}

/// The executed targets that the mount table confirms; only these count as
/// mounted.
pub fn confirmed_mount_targets(targets: &[String], snapshot: &crate::sys::mountinfo::MountSnapshot) -> (r: Vec<String>)
    ensures
        views(r@) == confirmed(targets@, snapshot@),
{
    let mut out: Vec<String> = Vec::new();
    let mut i: usize = 0;
    assert(targets@.take(0) =~= Seq::<String>::empty());
    while i < targets.len()
        invariant
            0 <= i <= targets@.len(),
            views(out@) == confirmed(targets@.take(i as int), snapshot@),
        decreases targets@.len() - i,
    {
        proof {
            assert(targets@.take(i + 1).drop_last() =~= targets@.take(i as int));
        }
        if snapshot.contains(targets[i].as_str()) {
            let ghost before = out@;
            out.push(targets[i].clone());
            assert(views(out@) =~= views(before).push(targets@[i as int]@));
        }
        i = i + 1;
    }
    assert(targets@.take(targets@.len() as int) =~= targets@);
    out
}

/// `parts` without `.` pieces.
pub open spec fn drop_dots(parts: Seq<Seq<char>>) -> Seq<Seq<char>>
    decreases parts.len(),
{
    if parts.len() == 0 {
        Seq::empty()
    } else {
        let prev = drop_dots(parts.drop_last());
        if parts.last() == "."@ {
            prev
        } else {
            prev.push(parts.last())
        }
    }
}

/// The directories to create inside a fresh layer, outermost first, so that
/// a source can be copied to `destination`: every directory above its last
/// name. Refused when `destination` is empty or absolute, or when one of
/// those directories is not a plain name (`..`, or a leading `.`).
pub open spec fn spec_structural_dirs(destination: Seq<char>) -> core::result::Result<Seq<Seq<char>>, Seq<char>> {
    let normal = drop_dots(components(destination));
    let parent = if normal.len() == 0 { normal } else { normal.drop_last() };
    let leading_dot = destination.len() > 0 && destination[0] == '.' && (destination.len() == 1 || destination[1] == '/');
    if destination.len() == 0 || destination[0] == '/' {
        Err("invalid shallow overlay destination: "@ + destination)
    } else if (leading_dot && normal.len() > 0) || parent.contains(".."@) {
        Err("unsafe shallow overlay destination: "@ + destination)
    } else {
        Ok(Seq::new(parent.len(), |k: int| joined(parent.take(k + 1))))
    }
}

/// The directories to create inside a fresh layer, outermost first, before
/// a shallow source is copied to `destination_relative` in it.
pub fn shallow_structural_dirs(destination_relative: &str) -> (r: Result<Vec<String>>)
    ensures
        match (r, spec_structural_dirs(destination_relative@)) {
            (Ok(dirs), Ok(s)) => views(dirs@) == s,
            (Err(e), Err(m)) => e.spec_message() == m,
            _ => false,
        },
{
    let d = destination_relative;
    let n = d.unicode_len();
    if n == 0 || d.get_char(0) == '/' {
        let mut message = owned("invalid shallow overlay destination: ");
        append_str(&mut message, d);
        return Err(Error::msg(message));
    }
    let parts = split_components(d);
    let mut normal: Vec<String> = Vec::new();
    let mut i: usize = 0;
    assert(views(parts@).take(0) =~= Seq::<Seq<char>>::empty());
    while i < parts.len()
        invariant
            0 <= i <= parts@.len(),
            views(normal@) == drop_dots(views(parts@).take(i as int)),
        decreases parts@.len() - i,
    {
        proof {
            assert(views(parts@).take(i + 1).drop_last() =~= views(parts@).take(i as int));
        }
        if !str_eq(parts[i].as_str(), ".") {
            let ghost before = normal@;
            normal.push(parts[i].clone());
            assert(views(normal@) =~= views(before).push(parts@[i as int]@));
        }
        i = i + 1;
    }
    assert(views(parts@).take(parts@.len() as int) =~= views(parts@));
    let ghost nv = views(normal@);
    let ghost parent = if nv.len() == 0 { nv } else { nv.drop_last() };
    let leading_dot = d.get_char(0) == '.' && (n == 1 || d.get_char(1) == '/');
    let count: usize = if normal.len() == 0 { 0 } else { normal.len() - 1 };
    assert(parent.len() == count);
    let mut dotdot = false;
    let mut k: usize = 0;
    while k < count
        invariant
            0 <= k <= count,
            count == parent.len(),
            nv == views(normal@),
            parent == (if nv.len() == 0 { nv } else { nv.drop_last() }),
            dotdot == parent.take(k as int).contains(".."@),
        decreases count - k,
    {
        proof {
            assert(parent.take(k + 1) =~= parent.take(k as int).push(parent[k as int]));
            assert(parent[k as int] == normal@[k as int]@);
        }
        if str_eq(normal[k].as_str(), "..") {
            dotdot = true;
            proof {
                assert(parent.take(k + 1)[k as int] == ".."@);
            }
        } else {
            proof {
                if parent.take(k + 1).contains(".."@) {
                    let w = choose|w: int| 0 <= w < k + 1 && #[trigger] parent.take(k + 1)[w] == ".."@;
                    if w < k {
                        assert(parent.take(k as int)[w] == ".."@);
                    }
                }
            }
        }
        k = k + 1;
    }
    assert(parent.take(count as int) =~= parent);
    if (leading_dot && normal.len() > 0) || dotdot {
        let mut message = owned("unsafe shallow overlay destination: ");
        append_str(&mut message, d);
        return Err(Error::msg(message));
    }
    let ghost want = Seq::new(parent.len(), |q: int| joined(parent.take(q + 1)));
    let mut dirs: Vec<String> = Vec::new();
    let mut cur = String::new();
    let mut k: usize = 0;
    while k < count
        invariant
            0 <= k <= count,
            count == parent.len(),
            nv == views(normal@),
            parent == (if nv.len() == 0 { nv } else { nv.drop_last() }),
            want == Seq::new(parent.len(), |q: int| joined(parent.take(q + 1))),
            views(dirs@) == want.take(k as int),
            cur@ == joined(parent.take(k as int)),
        decreases count - k,
    {
        proof {
            assert(parent[k as int] == normal@[k as int]@);
            let pre = parent.take(k + 1);
            assert(pre.drop_last() =~= parent.take(k as int));
            assert(pre.last() == parent[k as int]);
        }
        if k > 0 {
            push_char(&mut cur, '/');
        }
        append_str(&mut cur, normal[k].as_str());
        proof {
            let pre = parent.take(k + 1);
            if k == 0 {
                assert(parent.take(0) =~= Seq::<Seq<char>>::empty());
                assert(pre.len() == 1);
                assert(joined(pre) == pre[0]);
                assert(cur@ =~= joined(pre));
            } else {
                assert(cur@ =~= joined(pre));
            }
        }
        let ghost before = dirs@;
        dirs.push(cur.clone());
        proof {
            assert(views(dirs@) =~= views(before).push(cur@));
            assert(want.take(k + 1) =~= want.take(k as int).push(want[k as int]));
        }
        k = k + 1;
    }
    assert(want.take(count as int) =~= want);
    Ok(dirs)
}

} // verus!
