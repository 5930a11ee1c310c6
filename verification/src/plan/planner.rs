//! Building the mount plan from scanned modules and their rules.
use vstd::prelude::*;

use crate::config::{Config, Mode};
use crate::errors::{Error, Result};
use crate::mount_tree::{
    empty_tree_ids_in, insert_keeps_ids_in, own_id, sources_at, target_path, tree_ids_in, MountNode, MountSource, MountTree,
    NodeFileType,
};
use crate::paths::views;
use crate::plan::checks::{
    ensure_replace_backend_consistency, ensure_vfs_not_shadowed, ensure_vfs_opaque_exclusive,
    replace_consistent, vfs_opaque_exclusive, vfs_unshadowed,
};
use crate::plan::layers::{
    file_has, file_lists, files_match, files_ordered, layer_operations, op_has, op_layer, op_matches, op_partition,
    ops_ordered, put_file, put_layer, OverlayTarget,
};
use crate::plan::paths::{
    has_overlay_ancestor, is_promoted_partition_alias, is_redundant_partition_self_alias,
    join_from, join_relative, map_target, partition_root_len, spec_promoted_alias, spec_self_alias,
    split_parts,
};
use crate::plan::rules::{rule_views, spec_module_default, spec_module_keys, spec_resolve, ModuleRulesView};
use crate::scanner::ModuleRecord;
use crate::text::{append_str, has_name, insert_name, lemma_lex_irreflexive, lex_lt, owned, sorted_names, str_eq, str_lt};

verus! {

/// One overlay mount: a target and its lower layers in module order.
#[derive(Debug)]
pub struct OverlayOperation {
    pub partition: String,
    pub target: String,
    pub lowerdirs: Vec<String>,
}

/// What the executors run.
#[derive(Debug)]
pub struct MountPlan {
    /// The node tree shared by the OverlayFS and Magic Mount executors.
    pub tree: MountTree,
    /// Directory-level overlays, ordered by target, lower layers by module id.
    pub overlay_ops: Vec<OverlayOperation>,
    /// File-level overlay rules: parent directory target to file sources,
    /// ordered by target and then by module id and path.
    pub overlay_files: Vec<(String, Vec<String>)>,
    pub overlay_module_ids: Vec<String>,
    pub magic_module_ids: Vec<String>,
    pub vfs_module_ids: Vec<String>,
}

impl Default for MountPlan {
    /// An empty plan: an empty tree and nothing to mount.
    fn default() -> (plan: MountPlan)
        ensures
            plan.tree.root.children@.len() == 0,
            plan.tree.root.sources@.len() == 0,
            plan.overlay_ops@.len() == 0,
            plan.overlay_files@.len() == 0,
            plan.overlay_module_ids@.len() == 0,
            plan.magic_module_ids@.len() == 0,
            plan.vfs_module_ids@.len() == 0,
    {
        MountPlan {
            tree: MountTree::default(),
            overlay_ops: Vec::new(),
            overlay_files: Vec::new(),
            overlay_module_ids: Vec::new(),
            magic_module_ids: Vec::new(),
            vfs_module_ids: Vec::new(),
        }
    }
}

/// What the planner reads.
pub struct PlanInput<'a> {
    pub modules: &'a [ModuleRecord],
    pub config: &'a Config,
    /// Promoted partitions found by the executor from the built-in rules.
    pub promoted_partitions: &'a [String],
    /// Whether the kernel provides the VFS backend this boot; when not, every
    /// `vfs` rule degrades to `ignore`.
    pub vfs_available: bool,
}

/// A backend already assigned to a target.
struct TargetAssignment {
    mode: Mode,
    source: String,
    file_type: NodeFileType,
    replace: bool,
}

struct PlanBuilder {
    tree: MountTree,
    overlay_by_target: Vec<OverlayTarget>,
    overlay_files_by_target: Vec<(String, Vec<(String, String)>)>,
    overlay_module_ids: Vec<String>,
    magic_module_ids: Vec<String>,
    vfs_module_ids: Vec<String>,
    assignments: Vec<(String, Vec<TargetAssignment>)>,
}

/// Two backends on one target are fine only for plain shared directories.
pub open spec fn conflicts(a_mode: Mode, a_type: NodeFileType, a_replace: bool, mode: Mode, file_type: NodeFileType, replace: bool) -> bool {
    a_mode != mode && !(a_type == NodeFileType::Directory && file_type == NodeFileType::Directory
        && !a_replace && !replace)
}

/// The entry is planned: neither kind of partition alias.
pub open spec fn planned_entry(m: ModuleRecord, i: int, promoted: Seq<String>) -> bool {
    !spec_promoted_alias(m.entries@[i], promoted) && !spec_self_alias(m.entries@[i], promoted)
}

/// Some planned entry of `m` is assigned `mode`.
pub open spec fn module_decides(m: ModuleRecord, config: Config, promoted: Seq<String>, vfs_available: bool, mode: Mode) -> bool {
    exists|i: int|
        0 <= i < m.entries@.len() && planned_entry(m, i, promoted) && #[trigger] spec_resolve(
            config,
            m.id@,
            vfs_available,
            m.entries@[i].relative@,
        ) == mode
}

/// Module `id` is planned: some mountable, not blacklisted module of `modules`
/// with that id has a planned entry assigned `mode`.
pub open spec fn planned_with(modules: Seq<ModuleRecord>, config: Config, promoted: Seq<String>, vfs_available: bool, id: Seq<char>, mode: Mode) -> bool {
    exists|k: int|
        0 <= k < modules.len() && #[trigger] modules[k].id@ == id && modules[k].has_mount_files
            && !modules[k].disabled && !modules[k].skip_mount && !has_name(config.module_blacklist@, id)
            && module_decides(modules[k], config, promoted, vfs_available, mode)
}

/// The target an entry of `m` is planned at.
#[verifier::opaque]
pub open spec fn entry_target(m: ModuleRecord, i: int, promoted: Seq<String>) -> Seq<char> {
    crate::plan::paths::spec_map_target(m.entries@[i].relative@, promoted).1
}

/// The backend the rules give an entry of `m`.
#[verifier::opaque]
pub open spec fn entry_mode(m: ModuleRecord, i: int, config: Config, vfs_available: bool) -> Mode {
    spec_resolve(config, m.id@, vfs_available, m.entries@[i].relative@)
}

/// The node of `t` at `target` carries a source of module `id` for `md`.
#[verifier::opaque]
pub open spec fn tree_holds(t: MountNode, target: Seq<char>, md: Mode, id: Seq<char>) -> bool {
    own_id(sources_at(t, target_path(target)), md, id)
}

/// Entry `i` of `m` stands in the tree `t` at its target, under its backend.
pub open spec fn entry_in_tree(t: MountNode, m: ModuleRecord, i: int, config: Config, promoted: Seq<String>, vfs_available: bool) -> bool {
    tree_holds(t, entry_target(m, i, promoted), entry_mode(m, i, config, vfs_available), m.id@)
}

/// Every source that `a` holds at some node, `b` holds there too.
#[verifier::opaque]
pub open spec fn tree_keeps(a: MountNode, b: MountNode) -> bool {
    forall|q: Seq<Seq<char>>, md: Mode, x: Seq<char>| own_id(sources_at(a, q), md, x) ==> #[trigger] own_id(sources_at(b, q), md, x)
}

proof fn lemma_keeps_holds(a: MountNode, b: MountNode, target: Seq<char>, md: Mode, id: Seq<char>)
    requires
        tree_keeps(a, b),
        tree_holds(a, target, md, id),
    ensures
        tree_holds(b, target, md, id),
{
    reveal(tree_keeps);
    reveal(tree_holds);
}

proof fn lemma_keeps_chain(a: MountNode, b: MountNode, c: MountNode)
    requires
        tree_keeps(a, b),
        tree_keeps(b, c),
    ensures
        tree_keeps(a, c),
{
    reveal(tree_keeps);
}

proof fn lemma_keeps_same(a: MountNode)
    ensures
        tree_keeps(a, a),
{
    reveal(tree_keeps);
}

/// Entry `i` of `m` is planned with a backend, so it claims its target.
pub open spec fn registers(m: ModuleRecord, i: int, config: Config, promoted: Seq<String>, vfs_available: bool) -> bool {
    0 <= i < m.entries@.len() && planned_entry(m, i, promoted) && entry_mode(m, i, config, vfs_available) != Mode::Ignore
}

/// Entry `i` of `m1` and entry `j` of `m2` cannot share a target: different
/// backends, unless both are plain directories without `.replace`.
pub open spec fn entries_conflict(m1: ModuleRecord, i: int, m2: ModuleRecord, j: int, config: Config, vfs_available: bool) -> bool {
    conflicts(
        entry_mode(m1, i, config, vfs_available),
        m1.entries@[i].file_type,
        m1.entries@[i].replace,
        entry_mode(m2, j, config, vfs_available),
        m2.entries@[j].file_type,
        m2.entries@[j].replace,
    )
}

/// The module takes part in planning: mountable and not blacklisted.
pub open spec fn eligible(m: ModuleRecord, config: Config) -> bool {
    m.has_mount_files && !m.disabled && !m.skip_mount && !has_name(config.module_blacklist@, m.id@)
}

/// Two claims of eligible modules on one target conflict.
pub open spec fn registration_conflict(modules: Seq<ModuleRecord>, config: Config, promoted: Seq<String>, vfs_available: bool) -> bool {
    exists|i1: int, e1: int, i2: int, e2: int|
        #![trigger registers(modules[i1], e1, config, promoted, vfs_available), registers(modules[i2], e2, config, promoted, vfs_available)]
        0 <= i1 < modules.len() && 0 <= i2 < modules.len() && eligible(modules[i1], config) && eligible(modules[i2], config)
            && registers(modules[i1], e1, config, promoted, vfs_available) && registers(modules[i2], e2, config, promoted, vfs_available)
            && entry_target(modules[i1], e1, promoted) == entry_target(modules[i2], e2, promoted)
            && entries_conflict(modules[i1], e1, modules[i2], e2, config, vfs_available)
}

/// The index of the first assignment list for `target` at or after `i`, or -1.
spec fn assign_slot(a: Seq<(String, Vec<TargetAssignment>)>, target: Seq<char>, i: int) -> int
    decreases a.len() - i,
{
    if i < 0 || i >= a.len() {
        -1
    } else if a[i].0@ == target {
        i
    } else {
        assign_slot(a, target, i + 1)
    }
}

/// The backends already registered for `target`.
spec fn assigned_at(a: Seq<(String, Vec<TargetAssignment>)>, target: Seq<char>) -> Seq<TargetAssignment> {
    let k = assign_slot(a, target, 0);
    if k >= 0 {
        a[k].1@
    } else {
        Seq::empty()
    }
}

/// Some registered backend conflicts with a new one.
spec fn has_conflict(existing: Seq<TargetAssignment>, mode: Mode, file_type: NodeFileType, replace: bool) -> bool {
    exists|q: int| 0 <= q < existing.len() && conflicts(#[trigger] existing[q].mode, existing[q].file_type, existing[q].replace, mode, file_type, replace)
}

proof fn lemma_assign_slot(a: Seq<(String, Vec<TargetAssignment>)>, target: Seq<char>, t: int)
    requires
        0 <= t <= a.len(),
        assign_slot(a, target, 0) == assign_slot(a, target, t),
        t == a.len() || a[t].0@ == target,
    ensures
        t < a.len() ==> assign_slot(a, target, 0) == t,
        t == a.len() ==> assign_slot(a, target, 0) == -1,
        forall|j: int| 0 <= j < t ==> a[j].0@ != target,
{
    assert forall|j: int| 0 <= j < t implies a[j].0@ != target by {
        lemma_slot_after(a, target, j, t);
    }
}

proof fn lemma_slot_after(a: Seq<(String, Vec<TargetAssignment>)>, target: Seq<char>, j: int, t: int)
    requires
        0 <= j < t <= a.len(),
        assign_slot(a, target, 0) == assign_slot(a, target, t),
        t == a.len() || a[t].0@ == target,
    ensures
        a[j].0@ != target,
    decreases j,
{
    if a[j].0@ == target {
        lemma_first_slot(a, target, j);
        assert(assign_slot(a, target, 0) <= j);
    }
}

proof fn lemma_first_slot(a: Seq<(String, Vec<TargetAssignment>)>, target: Seq<char>, j: int)
    requires
        0 <= j < a.len(),
        a[j].0@ == target,
    ensures
        0 <= assign_slot(a, target, 0) <= j,
{
    lemma_slot_bound(a, target, 0, j);
}

proof fn lemma_slot_bound(a: Seq<(String, Vec<TargetAssignment>)>, target: Seq<char>, i: int, j: int)
    requires
        0 <= i <= j < a.len(),
        a[j].0@ == target,
    ensures
        i <= assign_slot(a, target, i) <= j,
    decreases j - i,
{
    if a[i].0@ != target {
        lemma_slot_bound(a, target, i + 1, j);
    }
}

proof fn lemma_slot_from_t(a: Seq<(String, Vec<TargetAssignment>)>, target: Seq<char>, i: int, t: int)
    requires
        0 <= i <= t < a.len(),
        a[t].0@ == target,
        forall|j: int| i <= j < t ==> a[j].0@ != target,
    ensures
        assign_slot(a, target, i) == t,
    decreases t - i,
{
    if i < t {
        lemma_slot_from_t(a, target, i + 1, t);
    }
}

proof fn lemma_assign_slot_update(b: Seq<(String, Vec<TargetAssignment>)>, target: Seq<char>, t: int, e: (String, Vec<TargetAssignment>))
    requires
        0 <= t < b.len(),
        e.0@ == target,
        forall|j: int| 0 <= j < t ==> b[j].0@ != target,
    ensures
        assign_slot(b.update(t, e), target, 0) == t,
{
    let u = b.update(t, e);
    assert forall|j: int| 0 <= j < t implies u[j].0@ != target by {
        assert(u[j] == b[j]);
    }
    lemma_slot_from_t(u, target, 0, t);
}

/// Rewriting or appending the list of one target leaves every other target's
/// list where the search finds it.
proof fn lemma_assign_slot_frame(
    a: Seq<(String, Vec<TargetAssignment>)>,
    f: Seq<(String, Vec<TargetAssignment>)>,
    target: Seq<char>,
    other: Seq<char>,
    i: int,
)
    requires
        other != target,
        0 <= i,
        a.len() <= f.len() <= a.len() + 1,
        forall|j: int| 0 <= j < a.len() && a[j].0@ != target ==> f[j] == a[j],
        forall|j: int| 0 <= j < a.len() && a[j].0@ == target ==> f[j].0@ == target,
        forall|j: int| a.len() <= j < f.len() ==> f[j].0@ == target,
    ensures
        assign_slot(f, other, i) == assign_slot(a, other, i),
        assign_slot(a, other, i) >= 0 ==> f[assign_slot(a, other, i)] == a[assign_slot(a, other, i)],
    decreases f.len() - i,
{
    if i < f.len() {
        lemma_assign_slot_frame(a, f, target, other, i + 1);
    }
}

/// The registered attributes of a list: some assignment has them.
spec fn holds_attr(a: Seq<TargetAssignment>, mode: Mode, file_type: NodeFileType, replace: bool) -> bool {
    exists|q: int| 0 <= q < a.len() && #[trigger] a[q].mode == mode && a[q].file_type == file_type && a[q].replace == replace
}

/// A conflict depends only on the registered attributes.
proof fn lemma_conflict_by_attrs(
    a: Seq<TargetAssignment>,
    b: Seq<TargetAssignment>,
    mode: Mode,
    file_type: NodeFileType,
    replace: bool,
)
    requires
        forall|m: Mode, t: NodeFileType, r: bool| #[trigger] holds_attr(a, m, t, r) ==> holds_attr(b, m, t, r),
    ensures
        has_conflict(a, mode, file_type, replace) ==> has_conflict(b, mode, file_type, replace),
{
    if has_conflict(a, mode, file_type, replace) {
        let q = choose|q: int| 0 <= q < a.len() && conflicts(#[trigger] a[q].mode, a[q].file_type, a[q].replace, mode, file_type, replace);
        assert(holds_attr(a, a[q].mode, a[q].file_type, a[q].replace));
        let p = choose|p: int| 0 <= p < b.len() && #[trigger] b[p].mode == a[q].mode && b[p].file_type == a[q].file_type && b[p].replace == a[q].replace;
        assert(conflicts(b[p].mode, b[p].file_type, b[p].replace, mode, file_type, replace));
    }
}

impl PlanBuilder {
    fn new() -> (b: PlanBuilder)
        ensures
            b.tree.root.name@ == Seq::<char>::empty(),
            b.tree.root.children@.len() == 0,
            b.tree.root.sources@.len() == 0,
            b.tree.root.structural_sources@.len() == 0,
            b.overlay_by_target@.len() == 0,
            b.overlay_files_by_target@.len() == 0,
            b.assignments@.len() == 0,
            b.overlay_module_ids@.len() == 0,
            b.magic_module_ids@.len() == 0,
            b.vfs_module_ids@.len() == 0,
    {
        PlanBuilder {
            tree: MountTree::default(),
            overlay_by_target: Vec::new(),
            overlay_files_by_target: Vec::new(),
            overlay_module_ids: Vec::new(),
            magic_module_ids: Vec::new(),
            vfs_module_ids: Vec::new(),
            assignments: Vec::new(),
        }
    }

    /// Records `mode` for `target`, refusing a second backend unless both
    /// are plain directories.
    fn register(
        &mut self,
        target: &str,
        mode: Mode,
        module_id: &str,
        relative: &str,
        file_type: NodeFileType,
        replace: bool,
    ) -> (r: Result<()>)
        ensures
            final(self).tree == old(self).tree,
            final(self).overlay_module_ids == old(self).overlay_module_ids,
            final(self).overlay_by_target == old(self).overlay_by_target,
            final(self).overlay_files_by_target == old(self).overlay_files_by_target,
            final(self).magic_module_ids == old(self).magic_module_ids,
            final(self).vfs_module_ids == old(self).vfs_module_ids,
            r matches Err(e) ==> e is PlanConflict,
            r is Err <==> has_conflict(assigned_at(old(self).assignments@, target@), mode, file_type, replace),
            r is Ok ==> forall|other: Seq<char>| other != target@ ==> #[trigger] assigned_at(final(self).assignments@, other)
                == assigned_at(old(self).assignments@, other),
            r is Ok ==> {
                let added = assigned_at(final(self).assignments@, target@);
                let before = assigned_at(old(self).assignments@, target@);
                &&& added.len() == before.len() + 1
                &&& added.drop_last() == before
                &&& added.last().mode == mode
                &&& added.last().file_type == file_type
                &&& added.last().replace == replace
                &&& added.last().source@ == module_id@ + ":"@ + relative@ + if replace { " (.replace)"@ } else { Seq::empty() }
            },
    {
        let mut source = owned(module_id);
        append_str(&mut source, ":");
        append_str(&mut source, relative);
        if replace {
            append_str(&mut source, " (.replace)");
        }
        let ghost a = self.assignments@;
        assert(a == old(self).assignments@);
        let mut t: usize = 0;
        while t < self.assignments.len() && !str_eq(self.assignments[t].0.as_str(), target)
            invariant
                0 <= t <= self.assignments@.len(),
                self.assignments@ == a,
                assign_slot(a, target@, 0) == assign_slot(a, target@, t as int),
                self.tree == old(self).tree,
                self.overlay_module_ids == old(self).overlay_module_ids,
                self.overlay_by_target == old(self).overlay_by_target,
                self.overlay_files_by_target == old(self).overlay_files_by_target,
                self.magic_module_ids == old(self).magic_module_ids,
                self.vfs_module_ids == old(self).vfs_module_ids,
            decreases self.assignments@.len() - t,
        {
            t = t + 1;
        }
        proof {
            lemma_assign_slot(a, target@, t as int);
        }
        let found = t < self.assignments.len();
        if t == self.assignments.len() {
            self.assignments.push((owned(target), Vec::new()));
        }
        let ghost b = self.assignments@;
        let mut entry = self.assignments.remove(t);
        assert(entry.0@ == target@);
        assert(entry.1@ == assigned_at(a, target@));
        let ghost existing_list = entry.1@;
        let mut i: usize = 0;
        while i < entry.1.len()
            invariant
                0 <= i <= entry.1@.len(),
                entry.1@ == existing_list,
                existing_list == assigned_at(old(self).assignments@, target@),
                forall|q: int| 0 <= q < i ==> !conflicts(#[trigger] existing_list[q].mode, existing_list[q].file_type,
                    existing_list[q].replace, mode, file_type, replace),
                self.tree == old(self).tree,
                self.overlay_module_ids == old(self).overlay_module_ids,
                self.overlay_by_target == old(self).overlay_by_target,
                self.overlay_files_by_target == old(self).overlay_files_by_target,
                self.magic_module_ids == old(self).magic_module_ids,
                self.vfs_module_ids == old(self).vfs_module_ids,
            decreases entry.1@.len() - i,
        {
            let existing = &entry.1[i];
            if conflicting(existing, mode, file_type, replace) {
                assert(existing_list[i as int] == *existing);
                return Err(Error::PlanConflict {
                    target: owned(target),
                    first_backend: owned(existing.mode.as_str()),
                    first_source: owned(existing.source.as_str()),
                    second_backend: owned(mode.as_str()),
                    second_source: source,
                });
            }
            i = i + 1;
        }
        let ghost src_view = source@;
        entry.1.push(TargetAssignment { mode, source, file_type, replace });
        let ghost e = entry;
        self.assignments.insert(t, entry);
        proof {
            assert(self.assignments@ =~= b.update(t as int, e));
            assert(forall|j: int| 0 <= j < t ==> b[j] == a[j]);
            lemma_assign_slot_update(b, target@, t as int, e);
            assert(e.1@.drop_last() =~= existing_list);
            assert forall|other: Seq<char>| other != target@ implies #[trigger] assigned_at(self.assignments@, other)
                == assigned_at(a, other) by {
                lemma_assign_slot_frame(a, self.assignments@, target@, other, 0);
            }
            reveal_strlit(":");
            reveal_strlit(" (.replace)");
        }
        Ok(())
    }

    /// Adds `source` as the lower layer of `module_id` at `target`.
    fn add_overlay_layer(&mut self, partition: &str, target: &str, module_id: &str, source: String)
        requires
            sorted_names(old(self).overlay_module_ids@),
            ops_ordered(old(self).overlay_by_target@),
        ensures
            final(self).assignments == old(self).assignments,
            final(self).tree == old(self).tree,
            final(self).overlay_files_by_target == old(self).overlay_files_by_target,
            sorted_names(final(self).overlay_module_ids@),
            forall|x: Seq<char>| #[trigger] has_name(final(self).overlay_module_ids@, x) <==> has_name(old(self).overlay_module_ids@, x) || x == module_id@,
            final(self).magic_module_ids == old(self).magic_module_ids,
            final(self).vfs_module_ids == old(self).vfs_module_ids,
            ops_ordered(final(self).overlay_by_target@),
            forall|t: Seq<char>, x: Seq<char>| #[trigger] op_has(final(self).overlay_by_target@, t, x) <==> op_has(
                old(self).overlay_by_target@, t, x) || (t == target@ && x == module_id@),
            forall|t: Seq<char>, x: Seq<char>, s: Seq<char>| #[trigger] op_layer(final(self).overlay_by_target@, t, x, s)
                ==> op_layer(old(self).overlay_by_target@, t, x, s) || (t == target@ && x == module_id@ && s == source@),
            forall|t: Seq<char>, p: Seq<char>| #[trigger] op_partition(final(self).overlay_by_target@, t, p) ==> op_partition(
                old(self).overlay_by_target@, t, p) || (t == target@ && p == partition@),
    {
        put_layer(&mut self.overlay_by_target, partition, target, module_id, source);
        insert_name(&mut self.overlay_module_ids, module_id);
    }

    /// Adds the file `source` of `module_id` under the directory `target`.
    fn add_overlay_file(&mut self, target: &str, module_id: &str, source: String)
        requires
            sorted_names(old(self).overlay_module_ids@),
            files_ordered(old(self).overlay_files_by_target@),
        ensures
            final(self).assignments == old(self).assignments,
            final(self).tree == old(self).tree,
            final(self).overlay_by_target == old(self).overlay_by_target,
            sorted_names(final(self).overlay_module_ids@),
            forall|x: Seq<char>| #[trigger] has_name(final(self).overlay_module_ids@, x) <==> has_name(old(self).overlay_module_ids@, x) || x == module_id@,
            final(self).magic_module_ids == old(self).magic_module_ids,
            final(self).vfs_module_ids == old(self).vfs_module_ids,
            files_ordered(final(self).overlay_files_by_target@),
            forall|t: Seq<char>, x: Seq<char>, s: Seq<char>| #[trigger] file_has(final(self).overlay_files_by_target@, t, x, s)
                <==> file_has(old(self).overlay_files_by_target@, t, x, s) || (t == target@ && x == module_id@ && s == source@),
    {
        put_file(&mut self.overlay_files_by_target, target, module_id, source);
        insert_name(&mut self.overlay_module_ids, module_id);
    }

    /// The finished plan.
    fn finish(self) -> (plan: MountPlan)
        ensures
            plan.overlay_module_ids == self.overlay_module_ids,
            plan.magic_module_ids == self.magic_module_ids,
            plan.vfs_module_ids == self.vfs_module_ids,
            plan.tree == self.tree,
            plan.overlay_ops@.len() == self.overlay_by_target@.len(),
            forall|i: int| 0 <= i < self.overlay_by_target@.len() ==> #[trigger] op_matches(plan.overlay_ops@[i], self.overlay_by_target@[i]),
            plan.overlay_files@.len() == self.overlay_files_by_target@.len(),
            forall|i: int| 0 <= i < self.overlay_files_by_target@.len() ==> #[trigger] files_match(plan.overlay_files@[i], self.overlay_files_by_target@[i]),
    {
        let overlay_ops = layer_operations(&self.overlay_by_target);
        let overlay_files = file_lists(&self.overlay_files_by_target);
        let PlanBuilder {
            tree,
            overlay_by_target: _,
            overlay_files_by_target: _,
            overlay_module_ids,
            magic_module_ids,
            vfs_module_ids,
            assignments: _,
        } = self;
        MountPlan { tree, overlay_ops, overlay_files, overlay_module_ids, magic_module_ids, vfs_module_ids }
    }
}

fn conflicting(existing: &TargetAssignment, mode: Mode, file_type: NodeFileType, replace: bool) -> (r: bool)
    ensures
        r == conflicts(existing.mode, existing.file_type, existing.replace, mode, file_type, replace),
{
    let shareable = existing.file_type == NodeFileType::Directory && file_type == NodeFileType::Directory
        && !existing.replace && !replace;
    existing.mode != mode && !shareable
}

/// The planned entries of a module with their backends.
struct Decision {
    entry: usize,
    mode: Mode,
}

/// Every decision names a planned entry with the backend the rules give it,
/// and every planned entry below `upto` has a decision.
spec fn decisions_ok(
    d: Seq<Decision>,
    m: ModuleRecord,
    config: Config,
    promoted: Seq<String>,
    vfs_available: bool,
    upto: int,
) -> bool {
    &&& forall|k: int|
        0 <= k < d.len() ==> {
            &&& #[trigger] d[k].entry < upto
            &&& planned_entry(m, d[k].entry as int, promoted)
            &&& d[k].mode == spec_resolve(config, m.id@, vfs_available, m.entries@[d[k].entry as int].relative@)
        }
    &&& forall|i: int|
        0 <= i < upto && planned_entry(m, i, promoted) ==> exists|k: int| 0 <= k < d.len() && #[trigger] d[k].entry == i
}

fn decide(m: &ModuleRecord, rules: &ModuleRulesView, promoted: &[String], config: Ghost<Config>, vfs_available: Ghost<bool>) -> (d: Vec<Decision>)
    requires
        rules.default_mode == spec_module_default(config@, m.id@, vfs_available@),
        rule_views(rules.path_rules@) == spec_module_keys(config@, m.id@, vfs_available@),
    ensures
        decisions_ok(d@, *m, config@, promoted@, vfs_available@, m.entries@.len() as int),
        forall|a: int, b: int| 0 <= a < b < d@.len() ==> #[trigger] d@[a].entry < #[trigger] d@[b].entry,
{
    let mut d: Vec<Decision> = Vec::new();
    let mut i: usize = 0;
    while i < m.entries.len()
        invariant
            0 <= i <= m.entries@.len(),
            rules.default_mode == spec_module_default(config@, m.id@, vfs_available@),
            rule_views(rules.path_rules@) == spec_module_keys(config@, m.id@, vfs_available@),
            decisions_ok(d@, *m, config@, promoted@, vfs_available@, i as int),
            forall|a: int, b: int| 0 <= a < b < d@.len() ==> #[trigger] d@[a].entry < #[trigger] d@[b].entry,
        decreases m.entries@.len() - i,
    {
        let entry = &m.entries[i];
        let ghost before = d@;
        if !is_promoted_partition_alias(entry, promoted) && !is_redundant_partition_self_alias(entry, promoted) {
            let mode = rules.resolve_mode(entry.relative.as_str());
            d.push(Decision { entry: i, mode });
            proof {
                assert(d@[d@.len() - 1].entry == i);
            }
        }
        proof {
            assert forall|q: int| 0 <= q < i + 1 && planned_entry(*m, q, promoted@) implies exists|k: int| 0 <= k < d@.len() && #[trigger] d@[k].entry == q by {
                if q < i {
                    let k = choose|k: int| 0 <= k < before.len() && #[trigger] before[k].entry == q;
                    assert(d@[k] == before[k]);
                } else {
                    assert(d@[d@.len() - 1].entry == q);
                }
            }
            assert forall|k: int| 0 <= k < d@.len() implies {
                &&& #[trigger] d@[k].entry < i + 1
                &&& planned_entry(*m, d@[k].entry as int, promoted@)
                &&& d@[k].mode == spec_resolve(config@, m.id@, vfs_available@, m.entries@[d@[k].entry as int].relative@)
            } by {
                if k < before.len() {
                    assert(d@[k] == before[k]);
                }
            }
        }
        i = i + 1;
    }
    d
}

fn any_mode(d: &Vec<Decision>, mode: Mode) -> (r: bool)
    ensures
        r == exists|k: int| 0 <= k < d@.len() && #[trigger] d@[k].mode == mode,
{
    let mut k: usize = 0;
    while k < d.len()
        invariant
            0 <= k <= d@.len(),
            forall|j: int| 0 <= j < k ==> #[trigger] d@[j].mode != mode,
        decreases d@.len() - k,
    {
        if d[k].mode == mode {
            return true;
        }
        k = k + 1;
    }
    false
}

fn all_mode(d: &Vec<Decision>, mode: Mode) -> (r: bool)
    ensures
        r == forall|k: int| 0 <= k < d@.len() ==> #[trigger] d@[k].mode == mode,
{
    let mut k: usize = 0;
    while k < d.len()
        invariant
            0 <= k <= d@.len(),
            forall|j: int| 0 <= j < k ==> #[trigger] d@[j].mode == mode,
        decreases d@.len() - k,
    {
        if d[k].mode != mode {
            return false;
        }
        k = k + 1;
    }
    true
}

/// Some decision of `d` is `mode` exactly when the module decides `mode`.
proof fn lemma_decides(d: Seq<Decision>, m: ModuleRecord, config: Config, promoted: Seq<String>, vfs_available: bool, mode: Mode)
    requires
        decisions_ok(d, m, config, promoted, vfs_available, m.entries@.len() as int),
    ensures
        (exists|k: int| 0 <= k < d.len() && #[trigger] d[k].mode == mode) <==> module_decides(m, config, promoted, vfs_available, mode),
{
    if exists|k: int| 0 <= k < d.len() && #[trigger] d[k].mode == mode {
        let k = choose|k: int| 0 <= k < d.len() && #[trigger] d[k].mode == mode;
        let i = d[k].entry as int;
        assert(spec_resolve(config, m.id@, vfs_available, m.entries@[i].relative@) == mode);
    }
    if module_decides(m, config, promoted, vfs_available, mode) {
        let i = choose|i: int|
            0 <= i < m.entries@.len() && planned_entry(m, i, promoted) && #[trigger] spec_resolve(
                config,
                m.id@,
                vfs_available,
                m.entries@[i].relative@,
            ) == mode;
        let k = choose|k: int| 0 <= k < d.len() && #[trigger] d[k].entry == i;
        assert(d[k].mode == mode);
    }
}

/// The index just past the last `/` among the first `i` characters of
/// `s`, or 0 when there is none.
pub open spec fn after_last_slash(s: Seq<char>, i: int) -> int
    decreases i,
{
    if i <= 0 {
        0
    } else if s[i - 1] == '/' {
        i
    } else {
        after_last_slash(s, i - 1)
    }
}

/// The part of `relative` before its last `/`, when it has one.
pub open spec fn spec_parent_of_relative(relative: Seq<char>) -> Option<Seq<char>> {
    let i = after_last_slash(relative, relative.len() as int);
    if i == 0 {
        None
    } else {
        Some(relative.take(i - 1))
    }
}

/// The parent part of `relative`, up to its last `/`.
fn parent_of_relative(relative: &str) -> (r: Option<String>)
    ensures
        r matches Some(t) ==> spec_parent_of_relative(relative@) == Some(t@),
        r is None ==> spec_parent_of_relative(relative@) is None,
{
    let n = relative.unicode_len();
    let mut i: usize = n;
    while i > 0 && relative.get_char(i - 1) != '/'
        invariant
            n == relative@.len(),
            0 <= i <= n,
            after_last_slash(relative@, n as int) == after_last_slash(relative@, i as int),
        decreases i,
    {
        i = i - 1;
    }
    if i == 0 {
        None
    } else {
        Some(crate::text::slice_chars(relative, 0, i - 1))
    }
}

/// `m` is planned as whole overlays: it has planned entries, every one of them
/// goes to OverlayFS, and OverlayFS is its default or its rule for `system`.
pub open spec fn whole_overlay(m: ModuleRecord, config: Config, promoted: Seq<String>, vfs_available: bool) -> bool {
    &&& exists|i: int| 0 <= i < m.entries@.len() && planned_entry(m, i, promoted) && #[trigger] entry_mode(m, i, config, vfs_available) == Mode::Overlay
    &&& forall|i: int| 0 <= i < m.entries@.len() && planned_entry(m, i, promoted) ==> #[trigger] entry_mode(m, i, config, vfs_available) == Mode::Overlay
    &&& (spec_module_default(config, m.id@, vfs_available) == Mode::Overlay || spec_module_keys(config, m.id@, vfs_available).contains(("system"@, Mode::Overlay)))
}

/// `x` is the path of a planned OverlayFS entry of `m`.
pub open spec fn overlay_path(m: ModuleRecord, x: Seq<char>, config: Config, promoted: Seq<String>, vfs_available: bool) -> bool {
    exists|j: int| 0 <= j < m.entries@.len() && planned_entry(m, j, promoted) && #[trigger] entry_mode(m, j, config, vfs_available) == Mode::Overlay
        && m.entries@[j].relative@ == x
}

/// Some proper `/`-prefix of `rel` is the path of a planned OverlayFS entry of `m`.
pub open spec fn overlay_ancestor(m: ModuleRecord, rel: Seq<char>, config: Config, promoted: Seq<String>, vfs_available: bool) -> bool {
    exists|pos: int| 0 <= pos < rel.len() && rel[pos] == '/' && #[trigger] overlay_path(m, rel.subrange(0, pos), config, promoted, vfs_available)
}

/// The directory layer that entry `i` of `m` gives: `(partition, target, lower layer)`.
/// A whole-overlay module gives, for each entry, the first directory below its
/// partition root; otherwise an OverlayFS directory entry with no OverlayFS
/// ancestor gives itself.
#[verifier::opaque]
pub open spec fn layer_of(m: ModuleRecord, i: int, config: Config, promoted: Seq<String>, vfs_available: bool) -> Option<(Seq<char>, Seq<char>, Seq<char>)> {
    if !(0 <= i < m.entries@.len() && planned_entry(m, i, promoted)) {
        None
    } else {
        let rel = m.entries@[i].relative@;
        let is_dir = m.entries@[i].file_type == NodeFileType::Directory;
        if whole_overlay(m, config, promoted, vfs_available) {
            let parts = crate::plan::paths::split_all(rel);
            let root = crate::plan::paths::spec_partition_root_len(parts, promoted);
            if parts.len() > root + 1 || (is_dir && parts.len() == root + 1) {
                let lr = crate::plan::paths::joined(parts.take(root + 1));
                let mt = crate::plan::paths::spec_map_target(lr, promoted);
                Some((mt.0, mt.1, crate::plan::paths::join_all(m.source_path@, crate::plan::paths::split_all(lr))))
            } else {
                None
            }
        } else if entry_mode(m, i, config, vfs_available) == Mode::Overlay && is_dir && !overlay_ancestor(m, rel, config, promoted, vfs_available) {
            let mt = crate::plan::paths::spec_map_target(rel, promoted);
            Some((mt.0, mt.1, crate::plan::paths::join_all(m.source_path@, crate::plan::paths::split_all(rel))))
        } else {
            None
        }
    }
}

/// The file-level overlay that entry `i` of `m` gives: `(parent target, file
/// source)`. A whole-overlay module gives it for a file directly in its
/// partition root; otherwise an OverlayFS file with a parent and no OverlayFS
/// ancestor gives it.
#[verifier::opaque]
pub open spec fn file_of(m: ModuleRecord, i: int, config: Config, promoted: Seq<String>, vfs_available: bool) -> Option<(Seq<char>, Seq<char>)> {
    if !(0 <= i < m.entries@.len() && planned_entry(m, i, promoted)) {
        None
    } else {
        let rel = m.entries@[i].relative@;
        let is_dir = m.entries@[i].file_type == NodeFileType::Directory;
        let src = crate::plan::paths::join_all(m.source_path@, crate::plan::paths::split_all(rel));
        if whole_overlay(m, config, promoted, vfs_available) {
            let parts = crate::plan::paths::split_all(rel);
            let root = crate::plan::paths::spec_partition_root_len(parts, promoted);
            if !is_dir && parts.len() == root + 1 {
                Some((crate::plan::paths::spec_map_target(crate::plan::paths::joined(parts.take(root)), promoted).1, src))
            } else {
                None
            }
        } else if entry_mode(m, i, config, vfs_available) == Mode::Overlay && !is_dir && !overlay_ancestor(m, rel, config, promoted, vfs_available) {
            match spec_parent_of_relative(rel) {
                Some(parent) => Some((crate::plan::paths::spec_map_target(parent, promoted).1, src)),
                None => None,
            }
        } else {
            None
        }
    }
}

/// Some entry of `m` gives layer `s` at `t` on partition `p`.
pub open spec fn module_layer(m: ModuleRecord, config: Config, promoted: Seq<String>, vfs_available: bool, p: Seq<char>, t: Seq<char>, s: Seq<char>) -> bool {
    exists|i: int| #[trigger] layer_of(m, i, config, promoted, vfs_available) == Some((p, t, s))
}

/// Some entry of `m` gives file source `s` under `t`.
pub open spec fn module_file(m: ModuleRecord, config: Config, promoted: Seq<String>, vfs_available: bool, t: Seq<char>, s: Seq<char>) -> bool {
    exists|i: int| #[trigger] file_of(m, i, config, promoted, vfs_available) == Some((t, s))
}

/// Some entry of `m` gives a directory layer or a file-level overlay.
pub open spec fn contributes_overlay(m: ModuleRecord, config: Config, promoted: Seq<String>, vfs_available: bool) -> bool {
    exists|i: int|
        #![trigger layer_of(m, i, config, promoted, vfs_available)]
        #![trigger file_of(m, i, config, promoted, vfs_available)]
        layer_of(m, i, config, promoted, vfs_available) is Some || file_of(m, i, config, promoted, vfs_available) is Some
}

/// An eligible module with id `x` gives layer `s` at `t` on partition `p`.
pub open spec fn planned_layer(modules: Seq<ModuleRecord>, config: Config, promoted: Seq<String>, vfs_available: bool, p: Seq<char>, t: Seq<char>, x: Seq<char>, s: Seq<char>) -> bool {
    exists|j: int| 0 <= j < modules.len() && eligible(modules[j], config) && modules[j].id@ == x && #[trigger] module_layer(modules[j], config, promoted, vfs_available, p, t, s)
}

/// An eligible module with id `x` gives file source `s` under `t`.
pub open spec fn planned_file(modules: Seq<ModuleRecord>, config: Config, promoted: Seq<String>, vfs_available: bool, t: Seq<char>, x: Seq<char>, s: Seq<char>) -> bool {
    exists|j: int| 0 <= j < modules.len() && eligible(modules[j], config) && modules[j].id@ == x && #[trigger] module_file(modules[j], config, promoted, vfs_available, t, s)
}

/// An eligible module with id `x` contributes to the OverlayFS part.
pub open spec fn overlay_planned(modules: Seq<ModuleRecord>, config: Config, promoted: Seq<String>, vfs_available: bool, x: Seq<char>) -> bool {
    exists|j: int| 0 <= j < modules.len() && eligible(modules[j], config) && modules[j].id@ == x && #[trigger] contributes_overlay(modules[j], config, promoted, vfs_available)
}

/// An eligible module with id `x` gives layer `s` at `t`, on some partition.
pub open spec fn layer_planned_at(modules: Seq<ModuleRecord>, config: Config, promoted: Seq<String>, vfs_available: bool, t: Seq<char>, x: Seq<char>, s: Seq<char>) -> bool {
    exists|p: Seq<char>| #[trigger] planned_layer(modules, config, promoted, vfs_available, p, t, x, s)
}

/// One overlay operation: a planned target whose lower layers are one planned
/// layer per module with a layer there, ordered by module id, on the
/// partition of one of them.
pub open spec fn op_planned(o: OverlayOperation, modules: Seq<ModuleRecord>, config: Config, promoted: Seq<String>, vfs_available: bool) -> bool {
    &&& exists|x: Seq<char>, s: Seq<char>| #[trigger] planned_layer(modules, config, promoted, vfs_available, o.partition@, o.target@, x, s)
    &&& exists|ids: Seq<Seq<char>>| #[trigger] layers_by(o, ids, modules, config, promoted, vfs_available)
}

/// `ids[k]` is the module of lower layer `k` of `o`: ids strictly ascend, each
/// plans that layer at `o`'s target, and every module planning a layer there
/// is among them.
pub open spec fn layers_by(o: OverlayOperation, ids: Seq<Seq<char>>, modules: Seq<ModuleRecord>, config: Config, promoted: Seq<String>, vfs_available: bool) -> bool {
    &&& ids.len() == o.lowerdirs@.len()
    &&& ids.len() > 0
    &&& forall|a: int, b: int| 0 <= a < b < ids.len() ==> lex_lt(#[trigger] ids[a], #[trigger] ids[b])
    &&& forall|k: int| #![trigger ids[k]] 0 <= k < ids.len() ==> layer_planned_at(modules, config, promoted, vfs_available, o.target@, ids[k], o.lowerdirs@[k]@)
    &&& forall|p: Seq<char>, x: Seq<char>, s: Seq<char>| #[trigger] planned_layer(modules, config, promoted, vfs_available, p, o.target@, x, s)
        ==> exists|k: int| 0 <= k < ids.len() && #[trigger] ids[k] == x
}

/// The overlay operations of a plan: one per planned layer target, ordered by
/// target.
pub open spec fn overlay_ops_planned(ops: Seq<OverlayOperation>, modules: Seq<ModuleRecord>, config: Config, promoted: Seq<String>, vfs_available: bool) -> bool {
    &&& forall|a: int, b: int| 0 <= a < b < ops.len() ==> lex_lt(#[trigger] ops[a].target@, #[trigger] ops[b].target@)
    &&& forall|i: int| 0 <= i < ops.len() ==> #[trigger] op_planned(ops[i], modules, config, promoted, vfs_available)
    &&& forall|p: Seq<char>, t: Seq<char>, x: Seq<char>, s: Seq<char>| #[trigger] planned_layer(modules, config, promoted, vfs_available, p, t, x, s)
        ==> exists|i: int| 0 <= i < ops.len() && #[trigger] ops[i].target@ == t
}

/// One file-level overlay list: exactly the planned file sources under its
/// target, ordered by module id and then by path.
pub open spec fn file_list_planned(f: (String, Vec<String>), modules: Seq<ModuleRecord>, config: Config, promoted: Seq<String>, vfs_available: bool) -> bool {
    exists|ids: Seq<Seq<char>>| #[trigger] files_by(f, ids, modules, config, promoted, vfs_available)
}

/// `ids[k]` is the module of file source `k` of `f`: (id, source) pairs
/// strictly ascend, each is planned under `f`'s target, and every planned file
/// source there is among them.
pub open spec fn files_by(f: (String, Vec<String>), ids: Seq<Seq<char>>, modules: Seq<ModuleRecord>, config: Config, promoted: Seq<String>, vfs_available: bool) -> bool {
    &&& ids.len() == f.1@.len()
    &&& ids.len() > 0
    &&& forall|a: int, b: int| 0 <= a < b < ids.len() ==> crate::mount_tree::pair_lt(#[trigger] ids[a], f.1@[a]@, #[trigger] ids[b], f.1@[b]@)
    &&& forall|k: int| #![trigger ids[k]] 0 <= k < ids.len() ==> planned_file(modules, config, promoted, vfs_available, f.0@, ids[k], f.1@[k]@)
    &&& forall|x: Seq<char>, s: Seq<char>| #[trigger] planned_file(modules, config, promoted, vfs_available, f.0@, x, s)
        ==> exists|k: int| 0 <= k < ids.len() && #[trigger] ids[k] == x && f.1@[k]@ == s
}

/// The file-level overlay lists of a plan: one per planned parent target,
/// ordered by target.
pub open spec fn overlay_files_planned(fs: Seq<(String, Vec<String>)>, modules: Seq<ModuleRecord>, config: Config, promoted: Seq<String>, vfs_available: bool) -> bool {
    &&& forall|a: int, b: int| 0 <= a < b < fs.len() ==> lex_lt(#[trigger] fs[a].0@, #[trigger] fs[b].0@)
    &&& forall|i: int| 0 <= i < fs.len() ==> #[trigger] file_list_planned(fs[i], modules, config, promoted, vfs_available)
    &&& forall|t: Seq<char>, x: Seq<char>, s: Seq<char>| #[trigger] planned_file(modules, config, promoted, vfs_available, t, x, s)
        ==> exists|i: int| 0 <= i < fs.len() && #[trigger] fs[i].0@ == t
}

/// Entries of the first `k` decisions give layer `s` at `t` on partition `p`.
spec fn layer_upto(m: ModuleRecord, d: Seq<Decision>, k: int, config: Config, promoted: Seq<String>, vfs_available: bool, p: Seq<char>, t: Seq<char>, s: Seq<char>) -> bool {
    exists|kk: int| 0 <= kk < k && #[trigger] layer_of(m, d[kk].entry as int, config, promoted, vfs_available) == Some((p, t, s))
}

/// Entries of the first `k` decisions give file source `s` under `t`.
spec fn file_upto(m: ModuleRecord, d: Seq<Decision>, k: int, config: Config, promoted: Seq<String>, vfs_available: bool, t: Seq<char>, s: Seq<char>) -> bool {
    exists|kk: int| 0 <= kk < k && #[trigger] file_of(m, d[kk].entry as int, config, promoted, vfs_available) == Some((t, s))
}

/// A layer among the first `kl` decisions, or a file among the first `kf`.
spec fn contrib_upto(m: ModuleRecord, d: Seq<Decision>, kl: int, kf: int, config: Config, promoted: Seq<String>, vfs_available: bool) -> bool {
    ||| exists|kk: int| 0 <= kk < kl && #[trigger] layer_of(m, d[kk].entry as int, config, promoted, vfs_available) is Some
    ||| exists|kk: int| 0 <= kk < kf && #[trigger] file_of(m, d[kk].entry as int, config, promoted, vfs_available) is Some
}

/// What `b` adds to the OverlayFS part of `a`: the layers of the first `kl`
/// decisions of `m` and the files of its first `kf` decisions.
spec fn effect_upto(a: PlanBuilder, b: PlanBuilder, m: ModuleRecord, d: Seq<Decision>, kl: int, kf: int, config: Config, promoted: Seq<String>, vfs_available: bool) -> bool {
    &&& sorted_names(b.overlay_module_ids@)
    &&& ops_ordered(b.overlay_by_target@)
    &&& files_ordered(b.overlay_files_by_target@)
    &&& forall|t: Seq<char>, x: Seq<char>, s: Seq<char>| #[trigger] op_layer(b.overlay_by_target@, t, x, s) ==> op_layer(a.overlay_by_target@, t, x, s)
        || (x == m.id@ && exists|p: Seq<char>| layer_upto(m, d, kl, config, promoted, vfs_available, p, t, s))
    &&& forall|t: Seq<char>, x: Seq<char>| #[trigger] op_has(b.overlay_by_target@, t, x) <==> op_has(a.overlay_by_target@, t, x)
        || (x == m.id@ && exists|p: Seq<char>, s: Seq<char>| layer_upto(m, d, kl, config, promoted, vfs_available, p, t, s))
    &&& forall|t: Seq<char>, p: Seq<char>| #[trigger] op_partition(b.overlay_by_target@, t, p) ==> op_partition(a.overlay_by_target@, t, p)
        || exists|s: Seq<char>| layer_upto(m, d, kl, config, promoted, vfs_available, p, t, s)
    &&& forall|t: Seq<char>, x: Seq<char>, s: Seq<char>| #[trigger] file_has(b.overlay_files_by_target@, t, x, s) <==> file_has(
        a.overlay_files_by_target@, t, x, s) || (x == m.id@ && file_upto(m, d, kf, config, promoted, vfs_available, t, s))
    &&& forall|x: Seq<char>| #[trigger] has_name(b.overlay_module_ids@, x) <==> has_name(a.overlay_module_ids@, x)
        || (x == m.id@ && contrib_upto(m, d, kl, kf, config, promoted, vfs_available))
}

/// What `b` adds to the OverlayFS part of `a`: the layers and files of `m`.
spec fn overlay_effect(a: PlanBuilder, b: PlanBuilder, m: ModuleRecord, config: Config, promoted: Seq<String>, vfs_available: bool) -> bool {
    &&& sorted_names(b.overlay_module_ids@)
    &&& ops_ordered(b.overlay_by_target@)
    &&& files_ordered(b.overlay_files_by_target@)
    &&& forall|t: Seq<char>, x: Seq<char>, s: Seq<char>| #[trigger] op_layer(b.overlay_by_target@, t, x, s) ==> op_layer(a.overlay_by_target@, t, x, s)
        || (x == m.id@ && exists|p: Seq<char>| module_layer(m, config, promoted, vfs_available, p, t, s))
    &&& forall|t: Seq<char>, x: Seq<char>| #[trigger] op_has(b.overlay_by_target@, t, x) <==> op_has(a.overlay_by_target@, t, x)
        || (x == m.id@ && exists|p: Seq<char>, s: Seq<char>| module_layer(m, config, promoted, vfs_available, p, t, s))
    &&& forall|t: Seq<char>, p: Seq<char>| #[trigger] op_partition(b.overlay_by_target@, t, p) ==> op_partition(a.overlay_by_target@, t, p)
        || exists|s: Seq<char>| module_layer(m, config, promoted, vfs_available, p, t, s)
    &&& forall|t: Seq<char>, x: Seq<char>, s: Seq<char>| #[trigger] file_has(b.overlay_files_by_target@, t, x, s) <==> file_has(
        a.overlay_files_by_target@, t, x, s) || (x == m.id@ && module_file(m, config, promoted, vfs_available, t, s))
    &&& forall|x: Seq<char>| #[trigger] has_name(b.overlay_module_ids@, x) <==> has_name(a.overlay_module_ids@, x)
        || (x == m.id@ && contributes_overlay(m, config, promoted, vfs_available))
}

proof fn lemma_effect_start(a: PlanBuilder, m: ModuleRecord, d: Seq<Decision>, config: Config, promoted: Seq<String>, vfs_available: bool)
    requires
        sorted_names(a.overlay_module_ids@),
        ops_ordered(a.overlay_by_target@),
        files_ordered(a.overlay_files_by_target@),
    ensures
        effect_upto(a, a, m, d, 0, 0, config, promoted, vfs_available),
{
}

proof fn lemma_layer_added(
    a: PlanBuilder, b0: PlanBuilder, b1: PlanBuilder, m: ModuleRecord, d: Seq<Decision>, kl: int, kf: int,
    config: Config, promoted: Seq<String>, vfs_available: bool, p: Seq<char>, t: Seq<char>, s: Seq<char>,
)
    requires
        effect_upto(a, b0, m, d, kl, kf, config, promoted, vfs_available),
        0 <= kl < d.len(),
        layer_of(m, d[kl].entry as int, config, promoted, vfs_available) == Some((p, t, s)),
        b1.overlay_files_by_target == b0.overlay_files_by_target,
        sorted_names(b1.overlay_module_ids@),
        forall|x: Seq<char>| #[trigger] has_name(b1.overlay_module_ids@, x) <==> has_name(b0.overlay_module_ids@, x) || x == m.id@,
        ops_ordered(b1.overlay_by_target@),
        forall|tt: Seq<char>, x: Seq<char>| #[trigger] op_has(b1.overlay_by_target@, tt, x) <==> op_has(b0.overlay_by_target@, tt, x) || (tt == t && x == m.id@),
        forall|tt: Seq<char>, x: Seq<char>, ss: Seq<char>| #[trigger] op_layer(b1.overlay_by_target@, tt, x, ss) ==> op_layer(b0.overlay_by_target@, tt, x, ss)
            || (tt == t && x == m.id@ && ss == s),
        forall|tt: Seq<char>, pp: Seq<char>| #[trigger] op_partition(b1.overlay_by_target@, tt, pp) ==> op_partition(b0.overlay_by_target@, tt, pp)
            || (tt == t && pp == p),
    ensures
        effect_upto(a, b1, m, d, kl + 1, kf, config, promoted, vfs_available),
{
    let k1 = kl + 1;
    assert forall|pp: Seq<char>, tt: Seq<char>, ss: Seq<char>|
        #![trigger layer_upto(m, d, k1, config, promoted, vfs_available, pp, tt, ss)]
        #![trigger layer_upto(m, d, kl, config, promoted, vfs_available, pp, tt, ss)]
        layer_upto(m, d, k1, config, promoted, vfs_available, pp, tt, ss)
        <==> layer_upto(m, d, kl, config, promoted, vfs_available, pp, tt, ss) || (pp == p && tt == t && ss == s) by {
        if layer_upto(m, d, k1, config, promoted, vfs_available, pp, tt, ss) {
            let kk = choose|kk: int| 0 <= kk < k1 && #[trigger] layer_of(m, d[kk].entry as int, config, promoted, vfs_available) == Some((pp, tt, ss));
            if kk < kl {
                assert(layer_upto(m, d, kl, config, promoted, vfs_available, pp, tt, ss));
            }
        }
        if pp == p && tt == t && ss == s {
            assert(layer_of(m, d[kl].entry as int, config, promoted, vfs_available) == Some((pp, tt, ss)));
        }
    }
    assert(layer_of(m, d[kl].entry as int, config, promoted, vfs_available) is Some);
    assert(layer_upto(m, d, k1, config, promoted, vfs_available, p, t, s));
    assert(contrib_upto(m, d, k1, kf, config, promoted, vfs_available));
    assert forall|tt: Seq<char>, x: Seq<char>| #[trigger] op_has(b1.overlay_by_target@, tt, x) <==> op_has(a.overlay_by_target@, tt, x)
        || (x == m.id@ && exists|pp: Seq<char>, ss: Seq<char>| layer_upto(m, d, k1, config, promoted, vfs_available, pp, tt, ss)) by {
        if x == m.id@ && exists|pp: Seq<char>, ss: Seq<char>| layer_upto(m, d, k1, config, promoted, vfs_available, pp, tt, ss) {
            let (pp, ss) = choose|pp: Seq<char>, ss: Seq<char>| layer_upto(m, d, k1, config, promoted, vfs_available, pp, tt, ss);
            if layer_upto(m, d, kl, config, promoted, vfs_available, pp, tt, ss) {
                assert(op_has(b0.overlay_by_target@, tt, x));
            }
        }
        if op_has(b0.overlay_by_target@, tt, x) && !op_has(a.overlay_by_target@, tt, x) {
            let (pp, ss) = choose|pp: Seq<char>, ss: Seq<char>| layer_upto(m, d, kl, config, promoted, vfs_available, pp, tt, ss);
            assert(layer_upto(m, d, k1, config, promoted, vfs_available, pp, tt, ss));
        }
    }
    assert forall|tt: Seq<char>, x: Seq<char>, ss: Seq<char>| #[trigger] op_layer(b1.overlay_by_target@, tt, x, ss) implies op_layer(a.overlay_by_target@, tt, x, ss)
        || (x == m.id@ && exists|pp: Seq<char>| layer_upto(m, d, k1, config, promoted, vfs_available, pp, tt, ss)) by {
        if op_layer(b0.overlay_by_target@, tt, x, ss) && !op_layer(a.overlay_by_target@, tt, x, ss) {
            let pp = choose|pp: Seq<char>| layer_upto(m, d, kl, config, promoted, vfs_available, pp, tt, ss);
            assert(layer_upto(m, d, k1, config, promoted, vfs_available, pp, tt, ss));
        }
    }
    assert forall|tt: Seq<char>, pp: Seq<char>| #[trigger] op_partition(b1.overlay_by_target@, tt, pp) implies op_partition(a.overlay_by_target@, tt, pp)
        || exists|ss: Seq<char>| layer_upto(m, d, k1, config, promoted, vfs_available, pp, tt, ss) by {
        if op_partition(b0.overlay_by_target@, tt, pp) && !op_partition(a.overlay_by_target@, tt, pp) {
            let ss = choose|ss: Seq<char>| layer_upto(m, d, kl, config, promoted, vfs_available, pp, tt, ss);
            assert(layer_upto(m, d, k1, config, promoted, vfs_available, pp, tt, ss));
        }
    }
    assert forall|x: Seq<char>| #[trigger] has_name(b1.overlay_module_ids@, x) <==> has_name(a.overlay_module_ids@, x)
        || (x == m.id@ && contrib_upto(m, d, k1, kf, config, promoted, vfs_available)) by {
        if has_name(b0.overlay_module_ids@, x) && !has_name(a.overlay_module_ids@, x) {
            assert(x == m.id@);
        }
    }
}

proof fn lemma_layer_none(a: PlanBuilder, b: PlanBuilder, m: ModuleRecord, d: Seq<Decision>, kl: int, kf: int, config: Config, promoted: Seq<String>, vfs_available: bool)
    requires
        effect_upto(a, b, m, d, kl, kf, config, promoted, vfs_available),
        0 <= kl < d.len(),
        layer_of(m, d[kl].entry as int, config, promoted, vfs_available) is None,
    ensures
        effect_upto(a, b, m, d, kl + 1, kf, config, promoted, vfs_available),
{
    let k1 = kl + 1;
    assert forall|pp: Seq<char>, tt: Seq<char>, ss: Seq<char>|
        #![trigger layer_upto(m, d, k1, config, promoted, vfs_available, pp, tt, ss)]
        #![trigger layer_upto(m, d, kl, config, promoted, vfs_available, pp, tt, ss)]
        layer_upto(m, d, k1, config, promoted, vfs_available, pp, tt, ss)
        <==> layer_upto(m, d, kl, config, promoted, vfs_available, pp, tt, ss) by {
        if layer_upto(m, d, k1, config, promoted, vfs_available, pp, tt, ss) {
            let kk = choose|kk: int| 0 <= kk < k1 && #[trigger] layer_of(m, d[kk].entry as int, config, promoted, vfs_available) == Some((pp, tt, ss));
            assert(kk < kl);
        }
    }
    assert(contrib_upto(m, d, k1, kf, config, promoted, vfs_available) == contrib_upto(m, d, kl, kf, config, promoted, vfs_available)) by {
        if exists|kk: int| 0 <= kk < k1 && #[trigger] layer_of(m, d[kk].entry as int, config, promoted, vfs_available) is Some {
            let kk = choose|kk: int| 0 <= kk < k1 && #[trigger] layer_of(m, d[kk].entry as int, config, promoted, vfs_available) is Some;
            assert(kk < kl);
        }
    }
    assert forall|tt: Seq<char>, x: Seq<char>| #[trigger] op_has(b.overlay_by_target@, tt, x) <==> op_has(a.overlay_by_target@, tt, x)
        || (x == m.id@ && exists|pp: Seq<char>, ss: Seq<char>| layer_upto(m, d, k1, config, promoted, vfs_available, pp, tt, ss)) by {
        if exists|pp: Seq<char>, ss: Seq<char>| layer_upto(m, d, k1, config, promoted, vfs_available, pp, tt, ss) {
            let (pp, ss) = choose|pp: Seq<char>, ss: Seq<char>| layer_upto(m, d, k1, config, promoted, vfs_available, pp, tt, ss);
            assert(layer_upto(m, d, kl, config, promoted, vfs_available, pp, tt, ss));
        }
        if exists|pp: Seq<char>, ss: Seq<char>| layer_upto(m, d, kl, config, promoted, vfs_available, pp, tt, ss) {
            let (pp, ss) = choose|pp: Seq<char>, ss: Seq<char>| layer_upto(m, d, kl, config, promoted, vfs_available, pp, tt, ss);
            assert(layer_upto(m, d, k1, config, promoted, vfs_available, pp, tt, ss));
        }
    }
}

proof fn lemma_file_added(
    a: PlanBuilder, b0: PlanBuilder, b1: PlanBuilder, m: ModuleRecord, d: Seq<Decision>, kl: int, kf: int,
    config: Config, promoted: Seq<String>, vfs_available: bool, t: Seq<char>, s: Seq<char>,
)
    requires
        effect_upto(a, b0, m, d, kl, kf, config, promoted, vfs_available),
        0 <= kf < d.len(),
        file_of(m, d[kf].entry as int, config, promoted, vfs_available) == Some((t, s)),
        b1.overlay_by_target == b0.overlay_by_target,
        sorted_names(b1.overlay_module_ids@),
        forall|x: Seq<char>| #[trigger] has_name(b1.overlay_module_ids@, x) <==> has_name(b0.overlay_module_ids@, x) || x == m.id@,
        files_ordered(b1.overlay_files_by_target@),
        forall|tt: Seq<char>, x: Seq<char>, ss: Seq<char>| #[trigger] file_has(b1.overlay_files_by_target@, tt, x, ss) <==> file_has(
            b0.overlay_files_by_target@, tt, x, ss) || (tt == t && x == m.id@ && ss == s),
    ensures
        effect_upto(a, b1, m, d, kl, kf + 1, config, promoted, vfs_available),
{
    let f1 = kf + 1;
    assert forall|tt: Seq<char>, ss: Seq<char>|
        #![trigger file_upto(m, d, f1, config, promoted, vfs_available, tt, ss)]
        #![trigger file_upto(m, d, kf, config, promoted, vfs_available, tt, ss)]
        file_upto(m, d, f1, config, promoted, vfs_available, tt, ss)
        <==> file_upto(m, d, kf, config, promoted, vfs_available, tt, ss) || (tt == t && ss == s) by {
        if file_upto(m, d, f1, config, promoted, vfs_available, tt, ss) {
            let kk = choose|kk: int| 0 <= kk < f1 && #[trigger] file_of(m, d[kk].entry as int, config, promoted, vfs_available) == Some((tt, ss));
            if kk < kf {
                assert(file_upto(m, d, kf, config, promoted, vfs_available, tt, ss));
            }
        }
        if tt == t && ss == s {
            assert(file_of(m, d[kf].entry as int, config, promoted, vfs_available) == Some((tt, ss)));
        }
    }
    assert(file_of(m, d[kf].entry as int, config, promoted, vfs_available) is Some);
    assert(contrib_upto(m, d, kl, f1, config, promoted, vfs_available));
    assert forall|x: Seq<char>| #[trigger] has_name(b1.overlay_module_ids@, x) <==> has_name(a.overlay_module_ids@, x)
        || (x == m.id@ && contrib_upto(m, d, kl, f1, config, promoted, vfs_available)) by {
        if has_name(b0.overlay_module_ids@, x) && !has_name(a.overlay_module_ids@, x) {
            assert(x == m.id@);
        }
    }
}

proof fn lemma_file_none(a: PlanBuilder, b: PlanBuilder, m: ModuleRecord, d: Seq<Decision>, kl: int, kf: int, config: Config, promoted: Seq<String>, vfs_available: bool)
    requires
        effect_upto(a, b, m, d, kl, kf, config, promoted, vfs_available),
        0 <= kf < d.len(),
        file_of(m, d[kf].entry as int, config, promoted, vfs_available) is None,
    ensures
        effect_upto(a, b, m, d, kl, kf + 1, config, promoted, vfs_available),
{
    let f1 = kf + 1;
    assert forall|tt: Seq<char>, ss: Seq<char>|
        #![trigger file_upto(m, d, f1, config, promoted, vfs_available, tt, ss)]
        #![trigger file_upto(m, d, kf, config, promoted, vfs_available, tt, ss)]
        file_upto(m, d, f1, config, promoted, vfs_available, tt, ss)
        <==> file_upto(m, d, kf, config, promoted, vfs_available, tt, ss) by {
        if file_upto(m, d, f1, config, promoted, vfs_available, tt, ss) {
            let kk = choose|kk: int| 0 <= kk < f1 && #[trigger] file_of(m, d[kk].entry as int, config, promoted, vfs_available) == Some((tt, ss));
            assert(kk < kf);
        }
    }
    assert(contrib_upto(m, d, kl, f1, config, promoted, vfs_available) == contrib_upto(m, d, kl, kf, config, promoted, vfs_available)) by {
        if exists|kk: int| 0 <= kk < f1 && #[trigger] file_of(m, d[kk].entry as int, config, promoted, vfs_available) is Some {
            let kk = choose|kk: int| 0 <= kk < f1 && #[trigger] file_of(m, d[kk].entry as int, config, promoted, vfs_available) is Some;
            assert(kk < kf);
        }
    }
}

/// Only planned entries give layers or files.
proof fn lemma_gives_planned(m: ModuleRecord, i: int, config: Config, promoted: Seq<String>, vfs_available: bool)
    ensures
        layer_of(m, i, config, promoted, vfs_available) is Some || file_of(m, i, config, promoted, vfs_available) is Some
            ==> 0 <= i < m.entries@.len() && planned_entry(m, i, promoted),
{
    reveal(layer_of);
    reveal(file_of);
}

/// Once every decision is taken, the effect is that of the whole module: only
/// planned entries give layers or files, and every planned entry is decided.
proof fn lemma_effect_done(a: PlanBuilder, b: PlanBuilder, m: ModuleRecord, d: Seq<Decision>, config: Config, promoted: Seq<String>, vfs_available: bool)
    requires
        effect_upto(a, b, m, d, d.len() as int, d.len() as int, config, promoted, vfs_available),
        decisions_ok(d, m, config, promoted, vfs_available, m.entries@.len() as int),
    ensures
        overlay_effect(a, b, m, config, promoted, vfs_available),
{
    let n = d.len() as int;
    assert forall|p: Seq<char>, t: Seq<char>, s: Seq<char>|
        #![trigger module_layer(m, config, promoted, vfs_available, p, t, s)]
        #![trigger layer_upto(m, d, n, config, promoted, vfs_available, p, t, s)]
        module_layer(m, config, promoted, vfs_available, p, t, s)
        <==> layer_upto(m, d, n, config, promoted, vfs_available, p, t, s) by {
        if module_layer(m, config, promoted, vfs_available, p, t, s) {
            let i = choose|i: int| #[trigger] layer_of(m, i, config, promoted, vfs_available) == Some((p, t, s));
            lemma_gives_planned(m, i, config, promoted, vfs_available);
            let kk = choose|kk: int| 0 <= kk < d.len() && #[trigger] d[kk].entry == i;
            assert(layer_of(m, d[kk].entry as int, config, promoted, vfs_available) == Some((p, t, s)));
        }
        if layer_upto(m, d, n, config, promoted, vfs_available, p, t, s) {
            let kk = choose|kk: int| 0 <= kk < n && #[trigger] layer_of(m, d[kk].entry as int, config, promoted, vfs_available) == Some((p, t, s));
            assert(layer_of(m, d[kk].entry as int, config, promoted, vfs_available) == Some((p, t, s)));
        }
    }
    assert forall|t: Seq<char>, s: Seq<char>|
        #![trigger module_file(m, config, promoted, vfs_available, t, s)]
        #![trigger file_upto(m, d, n, config, promoted, vfs_available, t, s)]
        module_file(m, config, promoted, vfs_available, t, s)
        <==> file_upto(m, d, n, config, promoted, vfs_available, t, s) by {
        if module_file(m, config, promoted, vfs_available, t, s) {
            let i = choose|i: int| #[trigger] file_of(m, i, config, promoted, vfs_available) == Some((t, s));
            lemma_gives_planned(m, i, config, promoted, vfs_available);
            let kk = choose|kk: int| 0 <= kk < d.len() && #[trigger] d[kk].entry == i;
            assert(file_of(m, d[kk].entry as int, config, promoted, vfs_available) == Some((t, s)));
        }
        if file_upto(m, d, n, config, promoted, vfs_available, t, s) {
            let kk = choose|kk: int| 0 <= kk < n && #[trigger] file_of(m, d[kk].entry as int, config, promoted, vfs_available) == Some((t, s));
            assert(file_of(m, d[kk].entry as int, config, promoted, vfs_available) == Some((t, s)));
        }
    }
    assert(contributes_overlay(m, config, promoted, vfs_available) <==> contrib_upto(m, d, n, n, config, promoted, vfs_available)) by {
        if contributes_overlay(m, config, promoted, vfs_available) {
            let i = choose|i: int|
                #![trigger layer_of(m, i, config, promoted, vfs_available)]
                #![trigger file_of(m, i, config, promoted, vfs_available)]
                layer_of(m, i, config, promoted, vfs_available) is Some || file_of(m, i, config, promoted, vfs_available) is Some;
            lemma_gives_planned(m, i, config, promoted, vfs_available);
            let kk = choose|kk: int| 0 <= kk < d.len() && #[trigger] d[kk].entry == i;
            if layer_of(m, i, config, promoted, vfs_available) is Some {
                assert(layer_of(m, d[kk].entry as int, config, promoted, vfs_available) is Some);
            } else {
                assert(file_of(m, d[kk].entry as int, config, promoted, vfs_available) is Some);
            }
        }
        if contrib_upto(m, d, n, n, config, promoted, vfs_available) {
            if exists|kk: int| 0 <= kk < n && #[trigger] layer_of(m, d[kk].entry as int, config, promoted, vfs_available) is Some {
                let kk = choose|kk: int| 0 <= kk < n && #[trigger] layer_of(m, d[kk].entry as int, config, promoted, vfs_available) is Some;
                assert(layer_of(m, d[kk].entry as int, config, promoted, vfs_available) is Some);
            } else {
                let kk = choose|kk: int| 0 <= kk < n && #[trigger] file_of(m, d[kk].entry as int, config, promoted, vfs_available) is Some;
                assert(file_of(m, d[kk].entry as int, config, promoted, vfs_available) is Some);
            }
        }
    }
}

/// A module with no OverlayFS entry gives no layer and no file.
proof fn lemma_no_overlay(m: ModuleRecord, d: Seq<Decision>, config: Config, promoted: Seq<String>, vfs_available: bool)
    requires
        decisions_ok(d, m, config, promoted, vfs_available, m.entries@.len() as int),
        forall|k: int| 0 <= k < d.len() ==> #[trigger] d[k].mode != Mode::Overlay,
    ensures
        forall|i: int| #[trigger] layer_of(m, i, config, promoted, vfs_available) is None,
        forall|i: int| #[trigger] file_of(m, i, config, promoted, vfs_available) is None,
        !whole_overlay(m, config, promoted, vfs_available),
{
    reveal(layer_of);
    reveal(file_of);
    assert forall|i: int| 0 <= i < m.entries@.len() && planned_entry(m, i, promoted) implies #[trigger] entry_mode(m, i, config, vfs_available) != Mode::Overlay by {
        let kk = choose|kk: int| 0 <= kk < d.len() && #[trigger] d[kk].entry == i;
        assert(d[kk].mode != Mode::Overlay);
        reveal(entry_mode);
    }
}

/// The executable test for a whole-overlay module agrees with `whole_overlay`.
proof fn lemma_whole_test(
    m: ModuleRecord, d: Seq<Decision>, rules: ModuleRulesView, config: Config, promoted: Seq<String>, vfs_available: bool, all: bool, has_rule: bool,
)
    requires
        decisions_ok(d, m, config, promoted, vfs_available, m.entries@.len() as int),
        rules.default_mode == spec_module_default(config, m.id@, vfs_available),
        rule_views(rules.path_rules@) == spec_module_keys(config, m.id@, vfs_available),
        exists|k: int| 0 <= k < d.len() && #[trigger] d[k].mode == Mode::Overlay,
        all == forall|k: int| 0 <= k < d.len() ==> #[trigger] d[k].mode == Mode::Overlay,
        has_rule == exists|i: int| 0 <= i < rules.path_rules@.len() && #[trigger] rules.path_rules@[i].0@ == "system"@
            && rules.path_rules@[i].1 == Mode::Overlay,
    ensures
        whole_overlay(m, config, promoted, vfs_available) == (all && (rules.default_mode == Mode::Overlay || has_rule)),
{
    reveal(entry_mode);
    let keys = spec_module_keys(config, m.id@, vfs_available);
    let k0 = choose|k: int| 0 <= k < d.len() && #[trigger] d[k].mode == Mode::Overlay;
    assert(entry_mode(m, d[k0].entry as int, config, vfs_available) == Mode::Overlay);
    if all {
        assert forall|i: int| 0 <= i < m.entries@.len() && planned_entry(m, i, promoted) implies #[trigger] entry_mode(m, i, config, vfs_available) == Mode::Overlay by {
            let kk = choose|kk: int| 0 <= kk < d.len() && #[trigger] d[kk].entry == i;
            assert(d[kk].mode == Mode::Overlay);
        }
    } else {
        let kk = choose|kk: int| 0 <= kk < d.len() && #[trigger] d[kk].mode != Mode::Overlay;
        assert(entry_mode(m, d[kk].entry as int, config, vfs_available) != Mode::Overlay);
    }
    if has_rule {
        let i = choose|i: int| 0 <= i < rules.path_rules@.len() && #[trigger] rules.path_rules@[i].0@ == "system"@
            && rules.path_rules@[i].1 == Mode::Overlay;
        assert(keys[i] == ("system"@, Mode::Overlay));
    }
    if keys.contains(("system"@, Mode::Overlay)) {
        let i = choose|i: int| 0 <= i < keys.len() && keys[i] == ("system"@, Mode::Overlay);
        assert(rules.path_rules@[i].0@ == "system"@);
    }
}

/// Splits a whole-overlay module at the partition root: the first directory
/// below `system` (or a promoted partition root) becomes the lower layer.
fn add_whole_overlay_layers(
    m: &ModuleRecord,
    d: &Vec<Decision>,
    promoted: &[String],
    builder: &mut PlanBuilder,
    config: Ghost<Config>,
    vfs_available: Ghost<bool>,
)
    requires
        sorted_names(old(builder).overlay_module_ids@),
        ops_ordered(old(builder).overlay_by_target@),
        files_ordered(old(builder).overlay_files_by_target@),
        decisions_ok(d@, *m, config@, promoted@, vfs_available@, m.entries@.len() as int),
        whole_overlay(*m, config@, promoted@, vfs_available@),
    ensures
        final(builder).assignments == old(builder).assignments,
        final(builder).tree == old(builder).tree,
        final(builder).magic_module_ids == old(builder).magic_module_ids,
        final(builder).vfs_module_ids == old(builder).vfs_module_ids,
        effect_upto(*old(builder), *final(builder), *m, d@, d@.len() as int, d@.len() as int, config@, promoted@, vfs_available@),
{
    proof {
        lemma_effect_start(*builder, *m, d@, config@, promoted@, vfs_available@);
    }
    let mut k: usize = 0;
    while k < d.len()
        invariant
            builder.assignments == old(builder).assignments,
            builder.tree == old(builder).tree,
            0 <= k <= d@.len(),
            decisions_ok(d@, *m, config@, promoted@, vfs_available@, m.entries@.len() as int),
            whole_overlay(*m, config@, promoted@, vfs_available@),
            builder.magic_module_ids == old(builder).magic_module_ids,
            builder.vfs_module_ids == old(builder).vfs_module_ids,
            effect_upto(*old(builder), *builder, *m, d@, k as int, k as int, config@, promoted@, vfs_available@),
        decreases d@.len() - k,
    {
        let ghost e = d@[k as int].entry as int;
        let entry = &m.entries[d[k].entry];
        let relative = entry.relative.as_str();
        let parts = split_parts(relative);
        let root_len = partition_root_len(&parts, promoted);
        let is_dir = entry.file_type == NodeFileType::Directory;
        let ghost b0 = *builder;
        assert(views(parts@).len() == parts@.len());
        if parts.len() > root_len + 1 || (is_dir && parts.len() == root_len + 1) {
            let layer_relative = join_prefix(&parts, root_len + 1);
            let (partition, target) = map_target(layer_relative.as_str(), promoted);
            let source = join_relative(m.source_path.as_str(), layer_relative.as_str());
            proof {
                assert(layer_of(*m, e, config@, promoted@, vfs_available@) == Some((partition@, target@, source@))) by {
                    reveal(layer_of);
                    reveal(file_of);
                }
                assert(file_of(*m, e, config@, promoted@, vfs_available@) is None) by {
                    reveal(layer_of);
                    reveal(file_of);
                }
            }
            builder.add_overlay_layer(partition.as_str(), target.as_str(), m.id.as_str(), source);
            proof {
                lemma_layer_added(*old(builder), b0, *builder, *m, d@, k as int, k as int, config@, promoted@, vfs_available@, partition@, target@, source@);
                lemma_file_none(*old(builder), *builder, *m, d@, k + 1, k as int, config@, promoted@, vfs_available@);
            }
        } else if !is_dir && parts.len() == root_len + 1 {
            let parent = join_prefix(&parts, root_len);
            let (_, target) = map_target(parent.as_str(), promoted);
            let source = join_relative(m.source_path.as_str(), relative);
            proof {
                assert(layer_of(*m, e, config@, promoted@, vfs_available@) is None) by {
                    reveal(layer_of);
                    reveal(file_of);
                }
                assert(file_of(*m, e, config@, promoted@, vfs_available@) == Some((target@, source@))) by {
                    reveal(layer_of);
                    reveal(file_of);
                }
            }
            builder.add_overlay_file(target.as_str(), m.id.as_str(), source);
            proof {
                lemma_layer_none(*old(builder), b0, *m, d@, k as int, k as int, config@, promoted@, vfs_available@);
                lemma_file_added(*old(builder), b0, *builder, *m, d@, k + 1, k as int, config@, promoted@, vfs_available@, target@, source@);
            }
        } else {
            proof {
                assert(layer_of(*m, e, config@, promoted@, vfs_available@) is None) by {
                    reveal(layer_of);
                    reveal(file_of);
                }
                assert(file_of(*m, e, config@, promoted@, vfs_available@) is None) by {
                    reveal(layer_of);
                    reveal(file_of);
                }
                lemma_layer_none(*old(builder), b0, *m, d@, k as int, k as int, config@, promoted@, vfs_available@);
                lemma_file_none(*old(builder), *builder, *m, d@, k + 1, k as int, config@, promoted@, vfs_available@);
            }
        }
        k = k + 1;
    }
}

/// The first `n` parts joined with `/`.
fn join_prefix(parts: &Vec<String>, n: usize) -> (r: String)
    requires
        n <= parts@.len(),
    ensures
        r@ == crate::plan::paths::joined(views(parts@).take(n as int)),
{
    let mut out = String::new();
    let mut i: usize = 0;
    while i < n
        invariant
            0 <= i <= n,
            n <= parts@.len(),
            out@ == crate::plan::paths::joined(views(parts@).take(i as int)),
        decreases n - i,
    {
        let ghost prev = views(parts@).take(i as int);
        let ghost next = views(parts@).take(i + 1);
        assert(next.drop_last() =~= prev);
        assert(next.last() == parts@[i as int]@);
        if i > 0 {
            crate::text::push_char(&mut out, '/');
        }
        append_str(&mut out, parts[i].as_str());
        proof {
            if i == 0 {
                assert(next.len() == 1);
                assert(out@ =~= next[0]);
            }
        }
        i = i + 1;
    }
    out
}

/// Some claim of `m` conflicts with a registration already in `a`, or with
/// another claim of `m` on the same target.
spec fn module_conflict(m: ModuleRecord, config: Config, promoted: Seq<String>, vfs_available: bool, a: Seq<(String, Vec<TargetAssignment>)>) -> bool {
    exists|i: int|
        #[trigger] registers(m, i, config, promoted, vfs_available) && (has_conflict(
            assigned_at(a, entry_target(m, i, promoted)),
            entry_mode(m, i, config, vfs_available),
            m.entries@[i].file_type,
            m.entries@[i].replace,
        ) || exists|j: int|
            #[trigger] registers(m, j, config, promoted, vfs_available) && entry_target(m, j, promoted) == entry_target(m, i, promoted)
                && entries_conflict(m, j, m, i, config, vfs_available))
}

/// The registrations at `t` after `m` claimed its targets on top of `a`.
spec fn claims_after(
    m: ModuleRecord,
    config: Config,
    promoted: Seq<String>,
    vfs_available: bool,
    a: Seq<(String, Vec<TargetAssignment>)>,
    b: Seq<(String, Vec<TargetAssignment>)>,
) -> bool {
    forall|t: Seq<char>, md: Mode, ft: NodeFileType, rp: bool|
        #[trigger] holds_attr(assigned_at(b, t), md, ft, rp) <==> holds_attr(assigned_at(a, t), md, ft, rp) || exists|i: int|
            #[trigger] registers(m, i, config, promoted, vfs_available) && entry_target(m, i, promoted) == t && entry_mode(
                m,
                i,
                config,
                vfs_available,
            ) == md && m.entries@[i].file_type == ft && m.entries@[i].replace == rp
}

/// The claim of decision `k` of `m` matches attributes at `t`.
spec fn claim_is(m: ModuleRecord, d: Seq<Decision>, j: int, config: Config, promoted: Seq<String>, vfs_available: bool, t: Seq<char>, md: Mode, ft: NodeFileType, rp: bool) -> bool {
    registers(m, d[j].entry as int, config, promoted, vfs_available) && entry_target(m, d[j].entry as int, promoted) == t
        && entry_mode(m, d[j].entry as int, config, vfs_available) == md && m.entries@[d[j].entry as int].file_type == ft
        && m.entries@[d[j].entry as int].replace == rp
}

/// The registrations after the first `k` decisions of `m` were claimed on
/// top of `a0`.
spec fn claimed_upto(
    m: ModuleRecord,
    d: Seq<Decision>,
    k: int,
    config: Config,
    promoted: Seq<String>,
    vfs_available: bool,
    a0: Seq<(String, Vec<TargetAssignment>)>,
    cur: Seq<(String, Vec<TargetAssignment>)>,
) -> bool {
    forall|t: Seq<char>, md: Mode, ft: NodeFileType, rp: bool|
        #[trigger] holds_attr(assigned_at(cur, t), md, ft, rp) <==> holds_attr(assigned_at(a0, t), md, ft, rp) || exists|j: int|
            0 <= j < k && #[trigger] claim_is(m, d, j, config, promoted, vfs_available, t, md, ft, rp)
}

/// None of the first `k` claims of `m` conflicts with `a0` or with an
/// earlier claim of `m` on its target.
spec fn clean_upto(
    m: ModuleRecord,
    d: Seq<Decision>,
    k: int,
    config: Config,
    promoted: Seq<String>,
    vfs_available: bool,
    a0: Seq<(String, Vec<TargetAssignment>)>,
) -> bool {
    forall|j: int|
        0 <= j < k && #[trigger] registers(m, d[j].entry as int, config, promoted, vfs_available) ==> {
            &&& !has_conflict(
                assigned_at(a0, entry_target(m, d[j].entry as int, promoted)),
                entry_mode(m, d[j].entry as int, config, vfs_available),
                m.entries@[d[j].entry as int].file_type,
                m.entries@[d[j].entry as int].replace,
            )
            &&& forall|j2: int|
                0 <= j2 < j && #[trigger] registers(m, d[j2].entry as int, config, promoted, vfs_available) && entry_target(
                    m,
                    d[j2].entry as int,
                    promoted,
                ) == entry_target(m, d[j].entry as int, promoted) ==> !entries_conflict(
                    m,
                    d[j2].entry as int,
                    m,
                    d[j].entry as int,
                    config,
                    vfs_available,
                )
        }
}

/// A failed claim after a clean prefix is a conflict of the module.
proof fn lemma_claim_failed(
    m: ModuleRecord,
    d: Seq<Decision>,
    k: int,
    config: Config,
    promoted: Seq<String>,
    vfs_available: bool,
    a0: Seq<(String, Vec<TargetAssignment>)>,
    cur: Seq<(String, Vec<TargetAssignment>)>,
)
    requires
        0 <= k < d.len(),
        d[k].mode == entry_mode(m, d[k].entry as int, config, vfs_available),
        0 <= d[k].entry < m.entries@.len(),
        planned_entry(m, d[k].entry as int, promoted),
        claimed_upto(m, d, k, config, promoted, vfs_available, a0, cur),
        d[k].mode != Mode::Ignore,
        has_conflict(
            assigned_at(cur, entry_target(m, d[k].entry as int, promoted)),
            d[k].mode,
            m.entries@[d[k].entry as int].file_type,
            m.entries@[d[k].entry as int].replace,
        ),
    ensures
        module_conflict(m, config, promoted, vfs_available, a0),
{
    let e = d[k].entry as int;
    let t = entry_target(m, e, promoted);
    let list = assigned_at(cur, t);
    assert(registers(m, e, config, promoted, vfs_available));
    let q = choose|q: int| 0 <= q < list.len() && conflicts(#[trigger] list[q].mode, list[q].file_type, list[q].replace, d[k].mode, m.entries@[e].file_type, m.entries@[e].replace);
    assert(holds_attr(list, list[q].mode, list[q].file_type, list[q].replace));
    if holds_attr(assigned_at(a0, t), list[q].mode, list[q].file_type, list[q].replace) {
        let a0l = assigned_at(a0, t);
        let p = choose|p: int| 0 <= p < a0l.len() && #[trigger] a0l[p].mode == list[q].mode && a0l[p].file_type == list[q].file_type && a0l[p].replace == list[q].replace;
        assert(conflicts(a0l[p].mode, a0l[p].file_type, a0l[p].replace, d[k].mode, m.entries@[e].file_type, m.entries@[e].replace));
        assert(has_conflict(a0l, entry_mode(m, e, config, vfs_available), m.entries@[e].file_type, m.entries@[e].replace));
    } else {
        let j = choose|j: int| 0 <= j < k && #[trigger] claim_is(m, d, j, config, promoted, vfs_available, t, list[q].mode, list[q].file_type, list[q].replace);
        assert(registers(m, d[j].entry as int, config, promoted, vfs_available));
        assert(entries_conflict(m, d[j].entry as int, m, e, config, vfs_available));
    }
}

/// A successful claim extends the registrations by the claim.
#[verifier::spinoff_prover]
proof fn lemma_claimed_step(
    m: ModuleRecord,
    d: Seq<Decision>,
    k: int,
    config: Config,
    promoted: Seq<String>,
    vfs_available: bool,
    a0: Seq<(String, Vec<TargetAssignment>)>,
    cur: Seq<(String, Vec<TargetAssignment>)>,
    next: Seq<(String, Vec<TargetAssignment>)>,
)
    requires
        0 <= k < d.len(),
        d[k].mode == entry_mode(m, d[k].entry as int, config, vfs_available),
        0 <= d[k].entry < m.entries@.len(),
        planned_entry(m, d[k].entry as int, promoted),
        claimed_upto(m, d, k, config, promoted, vfs_available, a0, cur),
        d[k].mode == Mode::Ignore ==> next == cur,
        d[k].mode != Mode::Ignore ==> forall|t: Seq<char>, md: Mode, ft: NodeFileType, rp: bool|
            #[trigger] holds_attr(assigned_at(next, t), md, ft, rp) <==> holds_attr(assigned_at(cur, t), md, ft, rp) || (t
                == entry_target(m, d[k].entry as int, promoted) && md == d[k].mode && ft == m.entries@[d[k].entry as int].file_type
                && rp == m.entries@[d[k].entry as int].replace),
    ensures
        claimed_upto(m, d, k + 1, config, promoted, vfs_available, a0, next),
{
    assert forall|t: Seq<char>, md: Mode, ft: NodeFileType, rp: bool|
        #[trigger] holds_attr(assigned_at(next, t), md, ft, rp) <==> holds_attr(assigned_at(a0, t), md, ft, rp) || exists|j: int|
            0 <= j < k + 1 && #[trigger] claim_is(m, d, j, config, promoted, vfs_available, t, md, ft, rp) by {
        let old_side = exists|j: int| 0 <= j < k && #[trigger] claim_is(m, d, j, config, promoted, vfs_available, t, md, ft, rp);
        let new_side = exists|j: int| 0 <= j < k + 1 && #[trigger] claim_is(m, d, j, config, promoted, vfs_available, t, md, ft, rp);
        let here = claim_is(m, d, k, config, promoted, vfs_available, t, md, ft, rp);
        assert(holds_attr(assigned_at(cur, t), md, ft, rp) <==> holds_attr(assigned_at(a0, t), md, ft, rp) || old_side);
        if old_side {
            let j = choose|j: int| 0 <= j < k && #[trigger] claim_is(m, d, j, config, promoted, vfs_available, t, md, ft, rp);
            assert(new_side);
        }
        if here {
            assert(new_side);
        }
        if new_side {
            let j = choose|j: int| 0 <= j < k + 1 && #[trigger] claim_is(m, d, j, config, promoted, vfs_available, t, md, ft, rp);
            if j < k {
                assert(old_side);
            }
        }
    }
}

/// A successful claim keeps the prefix clean.
#[verifier::spinoff_prover]
proof fn lemma_clean_step(
    m: ModuleRecord,
    d: Seq<Decision>,
    k: int,
    config: Config,
    promoted: Seq<String>,
    vfs_available: bool,
    a0: Seq<(String, Vec<TargetAssignment>)>,
    cur: Seq<(String, Vec<TargetAssignment>)>,
)
    requires
        0 <= k < d.len(),
        d[k].mode == entry_mode(m, d[k].entry as int, config, vfs_available),
        0 <= d[k].entry < m.entries@.len(),
        planned_entry(m, d[k].entry as int, promoted),
        claimed_upto(m, d, k, config, promoted, vfs_available, a0, cur),
        clean_upto(m, d, k, config, promoted, vfs_available, a0),
        d[k].mode != Mode::Ignore ==> !has_conflict(
            assigned_at(cur, entry_target(m, d[k].entry as int, promoted)),
            d[k].mode,
            m.entries@[d[k].entry as int].file_type,
            m.entries@[d[k].entry as int].replace,
        ),
    ensures
        clean_upto(m, d, k + 1, config, promoted, vfs_available, a0),
{
    let e = d[k].entry as int;
    let t_k = entry_target(m, e, promoted);
    if registers(m, e, config, promoted, vfs_available) {
        let curl = assigned_at(cur, t_k);
        assert forall|md: Mode, ft: NodeFileType, rp: bool| #[trigger] holds_attr(assigned_at(a0, t_k), md, ft, rp) implies holds_attr(curl, md, ft, rp) by {
            assert(holds_attr(assigned_at(cur, t_k), md, ft, rp));
        }
        lemma_conflict_by_attrs(assigned_at(a0, t_k), curl, d[k].mode, m.entries@[e].file_type, m.entries@[e].replace);
        assert forall|j2: int|
            0 <= j2 < k && #[trigger] registers(m, d[j2].entry as int, config, promoted, vfs_available) && entry_target(
                m,
                d[j2].entry as int,
                promoted,
            ) == t_k implies !entries_conflict(m, d[j2].entry as int, m, e, config, vfs_available) by {
            let e2 = d[j2].entry as int;
            assert(claim_is(m, d, j2, config, promoted, vfs_available, t_k, entry_mode(m, e2, config, vfs_available), m.entries@[e2].file_type, m.entries@[e2].replace));
            assert(holds_attr(assigned_at(cur, t_k), entry_mode(m, e2, config, vfs_available), m.entries@[e2].file_type, m.entries@[e2].replace));
            let q = choose|q: int| 0 <= q < curl.len() && #[trigger] curl[q].mode == entry_mode(m, e2, config, vfs_available) && curl[q].file_type == m.entries@[e2].file_type && curl[q].replace == m.entries@[e2].replace;
            if entries_conflict(m, e2, m, e, config, vfs_available) {
                assert(conflicts(curl[q].mode, curl[q].file_type, curl[q].replace, d[k].mode, m.entries@[e].file_type, m.entries@[e].replace));
            }
        }
    }
}

/// Once every decision is claimed, the registrations are the module's claims.
proof fn lemma_claims_complete(
    m: ModuleRecord,
    d: Seq<Decision>,
    config: Config,
    promoted: Seq<String>,
    vfs_available: bool,
    a0: Seq<(String, Vec<TargetAssignment>)>,
    cur: Seq<(String, Vec<TargetAssignment>)>,
)
    requires
        decisions_ok(d, m, config, promoted, vfs_available, m.entries@.len() as int),
        claimed_upto(m, d, d.len() as int, config, promoted, vfs_available, a0, cur),
    ensures
        claims_after(m, config, promoted, vfs_available, a0, cur),
{
    assert forall|t: Seq<char>, md: Mode, ft: NodeFileType, rp: bool|
        #[trigger] holds_attr(assigned_at(cur, t), md, ft, rp) <==> holds_attr(assigned_at(a0, t), md, ft, rp) || exists|i: int|
            #[trigger] registers(m, i, config, promoted, vfs_available) && entry_target(m, i, promoted) == t && entry_mode(
                m,
                i,
                config,
                vfs_available,
            ) == md && m.entries@[i].file_type == ft && m.entries@[i].replace == rp by {
        if exists|j: int| 0 <= j < d.len() && #[trigger] claim_is(m, d, j, config, promoted, vfs_available, t, md, ft, rp) {
            let j = choose|j: int| 0 <= j < d.len() && #[trigger] claim_is(m, d, j, config, promoted, vfs_available, t, md, ft, rp);
            assert(registers(m, d[j].entry as int, config, promoted, vfs_available));
        }
        if exists|i: int|
            #[trigger] registers(m, i, config, promoted, vfs_available) && entry_target(m, i, promoted) == t && entry_mode(
                m,
                i,
                config,
                vfs_available,
            ) == md && m.entries@[i].file_type == ft && m.entries@[i].replace == rp {
            let i = choose|i: int|
                #[trigger] registers(m, i, config, promoted, vfs_available) && entry_target(m, i, promoted) == t && entry_mode(
                    m,
                    i,
                    config,
                    vfs_available,
                ) == md && m.entries@[i].file_type == ft && m.entries@[i].replace == rp;
            let j = choose|j: int| 0 <= j < d.len() && #[trigger] d[j].entry == i;
            assert(claim_is(m, d, j, config, promoted, vfs_available, t, md, ft, rp));
        }
    }
}

/// A fully clean module has no conflict.
proof fn lemma_module_clean(
    m: ModuleRecord,
    d: Seq<Decision>,
    config: Config,
    promoted: Seq<String>,
    vfs_available: bool,
    a0: Seq<(String, Vec<TargetAssignment>)>,
)
    requires
        decisions_ok(d, m, config, promoted, vfs_available, m.entries@.len() as int),
        forall|a: int, b: int| 0 <= a < b < d.len() ==> #[trigger] d[a].entry < #[trigger] d[b].entry,
        clean_upto(m, d, d.len() as int, config, promoted, vfs_available, a0),
    ensures
        !module_conflict(m, config, promoted, vfs_available, a0),
{
    if module_conflict(m, config, promoted, vfs_available, a0) {
        let i = choose|i: int|
            #[trigger] registers(m, i, config, promoted, vfs_available) && (has_conflict(
                assigned_at(a0, entry_target(m, i, promoted)),
                entry_mode(m, i, config, vfs_available),
                m.entries@[i].file_type,
                m.entries@[i].replace,
            ) || exists|j: int|
                #[trigger] registers(m, j, config, promoted, vfs_available) && entry_target(m, j, promoted) == entry_target(m, i, promoted)
                    && entries_conflict(m, j, m, i, config, vfs_available));
        let ji = choose|ji: int| 0 <= ji < d.len() && #[trigger] d[ji].entry == i;
        assert(registers(m, d[ji].entry as int, config, promoted, vfs_available));
        if !has_conflict(
            assigned_at(a0, entry_target(m, i, promoted)),
            entry_mode(m, i, config, vfs_available),
            m.entries@[i].file_type,
            m.entries@[i].replace,
        ) {
            let j = choose|j: int|
                #[trigger] registers(m, j, config, promoted, vfs_available) && entry_target(m, j, promoted) == entry_target(m, i, promoted)
                    && entries_conflict(m, j, m, i, config, vfs_available);
            let jj = choose|jj: int| 0 <= jj < d.len() && #[trigger] d[jj].entry == j;
            assert(registers(m, d[jj].entry as int, config, promoted, vfs_available));
            if jj < ji {
            } else if jj > ji {
                assert(!entries_conflict(m, d[ji].entry as int, m, d[jj].entry as int, config, vfs_available));
            } else {
            }
        }
    }
}

/// What a contribution implies of the decisions: every entry that gives a layer
/// or a file is an OverlayFS entry.
proof fn lemma_contributes_decides(m: ModuleRecord, config: Config, promoted: Seq<String>, vfs_available: bool)
    ensures
        contributes_overlay(m, config, promoted, vfs_available) ==> module_decides(m, config, promoted, vfs_available, Mode::Overlay),
{
    reveal(layer_of);
    reveal(file_of);
    if contributes_overlay(m, config, promoted, vfs_available) {
        let i = choose|i: int|
            #![trigger layer_of(m, i, config, promoted, vfs_available)]
            #![trigger file_of(m, i, config, promoted, vfs_available)]
            layer_of(m, i, config, promoted, vfs_available) is Some || file_of(m, i, config, promoted, vfs_available) is Some;
        assert(entry_mode(m, i, config, vfs_available) == Mode::Overlay);
        reveal(entry_mode);
    }
}

/// The ancestor test on the collected OverlayFS paths agrees with `overlay_ancestor`.
proof fn lemma_ancestor_same(m: ModuleRecord, rel: Seq<char>, rels: Seq<String>, config: Config, promoted: Seq<String>, vfs_available: bool)
    requires
        forall|x: Seq<char>| #[trigger] has_name(rels, x) <==> overlay_path(m, x, config, promoted, vfs_available),
    ensures
        crate::plan::paths::spec_has_overlay_ancestor(rel, rels) == overlay_ancestor(m, rel, config, promoted, vfs_available),
{
    if crate::plan::paths::spec_has_overlay_ancestor(rel, rels) {
        let pos = choose|pos: int| 0 <= pos < rel.len() && rel[pos] == '/' && #[trigger] has_name(rels, rel.subrange(0, pos));
        assert(overlay_path(m, rel.subrange(0, pos), config, promoted, vfs_available));
    }
    if overlay_ancestor(m, rel, config, promoted, vfs_available) {
        let pos = choose|pos: int| 0 <= pos < rel.len() && rel[pos] == '/' && #[trigger] overlay_path(m, rel.subrange(0, pos), config, promoted, vfs_available);
        assert(has_name(rels, rel.subrange(0, pos)));
    }
}

/// A module without OverlayFS entries changes nothing of the OverlayFS part.
proof fn lemma_effect_none(a: PlanBuilder, m: ModuleRecord, d: Seq<Decision>, config: Config, promoted: Seq<String>, vfs_available: bool)
    requires
        decisions_ok(d, m, config, promoted, vfs_available, m.entries@.len() as int),
        forall|k: int| 0 <= k < d.len() ==> #[trigger] d[k].mode != Mode::Overlay,
        sorted_names(a.overlay_module_ids@),
        ops_ordered(a.overlay_by_target@),
        files_ordered(a.overlay_files_by_target@),
    ensures
        overlay_effect(a, a, m, config, promoted, vfs_available),
{
    lemma_no_overlay(m, d, config, promoted, vfs_available);
    assert forall|p: Seq<char>, t: Seq<char>, s: Seq<char>| !#[trigger] module_layer(m, config, promoted, vfs_available, p, t, s) by {
        if module_layer(m, config, promoted, vfs_available, p, t, s) {
            let i = choose|i: int| #[trigger] layer_of(m, i, config, promoted, vfs_available) == Some((p, t, s));
            assert(layer_of(m, i, config, promoted, vfs_available) is None);
        }
    }
    assert forall|t: Seq<char>, s: Seq<char>| !#[trigger] module_file(m, config, promoted, vfs_available, t, s) by {
        if module_file(m, config, promoted, vfs_available, t, s) {
            let i = choose|i: int| #[trigger] file_of(m, i, config, promoted, vfs_available) == Some((t, s));
            assert(file_of(m, i, config, promoted, vfs_available) is None);
        }
    }
    assert(!contributes_overlay(m, config, promoted, vfs_available)) by {
        if contributes_overlay(m, config, promoted, vfs_available) {
            let i = choose|i: int|
                #![trigger layer_of(m, i, config, promoted, vfs_available)]
                #![trigger file_of(m, i, config, promoted, vfs_available)]
                layer_of(m, i, config, promoted, vfs_available) is Some || file_of(m, i, config, promoted, vfs_available) is Some;
            assert(layer_of(m, i, config, promoted, vfs_available) is None);
            assert(file_of(m, i, config, promoted, vfs_available) is None);
        }
    }
}

/// The paths of the planned OverlayFS entries of `m`.
#[verifier::spinoff_prover]
fn overlay_paths(m: &ModuleRecord, d: &Vec<Decision>, config: Ghost<Config>, promoted: Ghost<Seq<String>>, vfs_available: Ghost<bool>) -> (rels: Vec<String>)
    requires
        decisions_ok(d@, *m, config@, promoted@, vfs_available@, m.entries@.len() as int),
    ensures
        forall|x: Seq<char>| #[trigger] has_name(rels@, x) <==> overlay_path(*m, x, config@, promoted@, vfs_available@),
{
    let mut overlay_rels: Vec<String> = Vec::new();
    let mut q: usize = 0;
    while q < d.len()
        invariant
            0 <= q <= d@.len(),
            decisions_ok(d@, *m, config@, promoted@, vfs_available@, m.entries@.len() as int),
            forall|x: Seq<char>| #[trigger] has_name(overlay_rels@, x) <==> exists|kk: int| 0 <= kk < q && #[trigger] d@[kk].mode == Mode::Overlay
                && m.entries@[d@[kk].entry as int].relative@ == x,
        decreases d@.len() - q,
    {
        let ghost before = overlay_rels@;
        if d[q].mode == Mode::Overlay {
            overlay_rels.push(owned(m.entries[d[q].entry].relative.as_str()));
        }
        proof {
            assert forall|x: Seq<char>| #[trigger] has_name(overlay_rels@, x) <==> exists|kk: int| 0 <= kk < q + 1 && #[trigger] d@[kk].mode == Mode::Overlay
                && m.entries@[d@[kk].entry as int].relative@ == x by {
                if has_name(overlay_rels@, x) {
                    let i = choose|i: int| 0 <= i < overlay_rels@.len() && #[trigger] overlay_rels@[i]@ == x;
                    if i < before.len() {
                        assert(before[i] == overlay_rels@[i]);
                        assert(has_name(before, x));
                        let kk = choose|kk: int| 0 <= kk < q && #[trigger] d@[kk].mode == Mode::Overlay && m.entries@[d@[kk].entry as int].relative@ == x;
                        assert(d@[kk].mode == Mode::Overlay);
                    } else {
                        assert(d@[q as int].mode == Mode::Overlay);
                    }
                }
                if exists|kk: int| 0 <= kk < q + 1 && #[trigger] d@[kk].mode == Mode::Overlay && m.entries@[d@[kk].entry as int].relative@ == x {
                    let kk = choose|kk: int| 0 <= kk < q + 1 && #[trigger] d@[kk].mode == Mode::Overlay && m.entries@[d@[kk].entry as int].relative@ == x;
                    if kk < q {
                        assert(d@[kk].mode == Mode::Overlay);
                        assert(has_name(before, x));
                        let i = choose|i: int| 0 <= i < before.len() && #[trigger] before[i]@ == x;
                        assert(overlay_rels@[i] == before[i]);
                    } else {
                        assert(overlay_rels@[before.len() as int]@ == x);
                    }
                }
            }
        }
        q = q + 1;
    }
    proof {
        reveal(entry_mode);
        assert forall|x: Seq<char>| #[trigger] has_name(overlay_rels@, x) <==> overlay_path(*m, x, config@, promoted@, vfs_available@) by {
            if has_name(overlay_rels@, x) {
                let kk = choose|kk: int| 0 <= kk < d@.len() && #[trigger] d@[kk].mode == Mode::Overlay && m.entries@[d@[kk].entry as int].relative@ == x;
                assert(entry_mode(*m, d@[kk].entry as int, config@, vfs_available@) == Mode::Overlay);
            }
            if overlay_path(*m, x, config@, promoted@, vfs_available@) {
                let j = choose|j: int| 0 <= j < m.entries@.len() && planned_entry(*m, j, promoted@) && #[trigger] entry_mode(*m, j, config@, vfs_available@) == Mode::Overlay
                    && m.entries@[j].relative@ == x;
                let kk = choose|kk: int| 0 <= kk < d@.len() && #[trigger] d@[kk].entry == j;
                assert(d@[kk].mode == Mode::Overlay);
            }
        }
    }
    overlay_rels
}

/// The layer a decided entry of a module that is not one whole overlay gives.
proof fn lemma_partial_layer(
    m: ModuleRecord,
    e: int,
    mode: Mode,
    rels: Seq<String>,
    config: Config,
    promoted: Seq<String>,
    vfs_available: bool,
)
    requires
        0 <= e < m.entries@.len(),
        planned_entry(m, e, promoted),
        !whole_overlay(m, config, promoted, vfs_available),
        mode == entry_mode(m, e, config, vfs_available),
        forall|x: Seq<char>| #[trigger] has_name(rels, x) <==> overlay_path(m, x, config, promoted, vfs_available),
    ensures
        layer_of(m, e, config, promoted, vfs_available) == (if mode == Mode::Overlay && m.entries@[e].file_type == NodeFileType::Directory
            && !crate::plan::paths::spec_has_overlay_ancestor(m.entries@[e].relative@, rels) {
            Some((
                crate::plan::paths::spec_map_target(m.entries@[e].relative@, promoted).0,
                crate::plan::paths::spec_map_target(m.entries@[e].relative@, promoted).1,
                crate::plan::paths::join_all(m.source_path@, crate::plan::paths::split_all(m.entries@[e].relative@)),
            ))
        } else {
            None
        }),
{
    reveal(layer_of);
    reveal(file_of);
    lemma_ancestor_same(m, m.entries@[e].relative@, rels, config, promoted, vfs_available);
}

/// The OverlayFS directories of a module that is not one whole overlay.
#[verifier::spinoff_prover]
#[verifier::rlimit(100)]
fn add_partial_layers(
    m: &ModuleRecord,
    d: &Vec<Decision>,
    overlay_rels: &Vec<String>,
    promoted: &[String],
    builder: &mut PlanBuilder,
    start: Ghost<PlanBuilder>,
    config: Ghost<Config>,
    vfs_available: Ghost<bool>,
)
    requires
        decisions_ok(d@, *m, config@, promoted@, vfs_available@, m.entries@.len() as int),
        !whole_overlay(*m, config@, promoted@, vfs_available@),
        forall|x: Seq<char>| #[trigger] has_name(overlay_rels@, x) <==> overlay_path(*m, x, config@, promoted@, vfs_available@),
        effect_upto(start@, *old(builder), *m, d@, 0, 0, config@, promoted@, vfs_available@),
    ensures
        final(builder).assignments == old(builder).assignments,
        final(builder).tree == old(builder).tree,
        final(builder).magic_module_ids == old(builder).magic_module_ids,
        final(builder).vfs_module_ids == old(builder).vfs_module_ids,
        effect_upto(start@, *final(builder), *m, d@, d@.len() as int, 0, config@, promoted@, vfs_available@),
{
    let mut q: usize = 0;
    while q < d.len()
        invariant
            0 <= q <= d@.len(),
            decisions_ok(d@, *m, config@, promoted@, vfs_available@, m.entries@.len() as int),
            !whole_overlay(*m, config@, promoted@, vfs_available@),
            forall|x: Seq<char>| #[trigger] has_name(overlay_rels@, x) <==> overlay_path(*m, x, config@, promoted@, vfs_available@),
            builder.assignments == old(builder).assignments,
            builder.tree == old(builder).tree,
            builder.magic_module_ids == old(builder).magic_module_ids,
            builder.vfs_module_ids == old(builder).vfs_module_ids,
            effect_upto(start@, *builder, *m, d@, q as int, 0, config@, promoted@, vfs_available@),
        decreases d@.len() - q,
    {
        add_partial_layer(m, d, q, overlay_rels, promoted, builder, start, config, vfs_available);
        q = q + 1;
    }
}

/// The layer of the `q`-th decision of a module that is not one whole overlay.
#[verifier::spinoff_prover]
fn add_partial_layer(
    m: &ModuleRecord,
    d: &Vec<Decision>,
    q: usize,
    overlay_rels: &Vec<String>,
    promoted: &[String],
    builder: &mut PlanBuilder,
    start: Ghost<PlanBuilder>,
    config: Ghost<Config>,
    vfs_available: Ghost<bool>,
)
    requires
        q < d@.len(),
        decisions_ok(d@, *m, config@, promoted@, vfs_available@, m.entries@.len() as int),
        !whole_overlay(*m, config@, promoted@, vfs_available@),
        forall|x: Seq<char>| #[trigger] has_name(overlay_rels@, x) <==> overlay_path(*m, x, config@, promoted@, vfs_available@),
        effect_upto(start@, *old(builder), *m, d@, q as int, 0, config@, promoted@, vfs_available@),
    ensures
        final(builder).assignments == old(builder).assignments,
        final(builder).tree == old(builder).tree,
        final(builder).magic_module_ids == old(builder).magic_module_ids,
        final(builder).vfs_module_ids == old(builder).vfs_module_ids,
        effect_upto(start@, *final(builder), *m, d@, q + 1, 0, config@, promoted@, vfs_available@),
{
    let ghost e = d@[q as int].entry as int;
    let ghost b0 = *builder;
    let entry = &m.entries[d[q].entry];
    proof {
        assert(d@[q as int].mode == entry_mode(*m, e, config@, vfs_available@)) by {
            reveal(entry_mode);
        }
        lemma_partial_layer(*m, e, d@[q as int].mode, overlay_rels@, config@, promoted@, vfs_available@);
    }
    if d[q].mode == Mode::Overlay && entry.file_type == NodeFileType::Directory
        && !has_overlay_ancestor(entry.relative.as_str(), overlay_rels.as_slice()) {
        let (partition, target) = map_target(entry.relative.as_str(), promoted);
        let source = join_relative(m.source_path.as_str(), entry.relative.as_str());
        let ghost gs = source@;
        builder.add_overlay_layer(partition.as_str(), target.as_str(), m.id.as_str(), source);
        proof {
            lemma_layer_added(start@, b0, *builder, *m, d@, q as int, 0, config@, promoted@, vfs_available@, partition@, target@, gs);
        }
    } else {
        proof {
            lemma_layer_none(start@, b0, *m, d@, q as int, 0, config@, promoted@, vfs_available@);
        }
    }
}

/// The OverlayFS files of a module that is not one whole overlay.
#[verifier::spinoff_prover]
fn add_partial_files(
    m: &ModuleRecord,
    d: &Vec<Decision>,
    overlay_rels: &Vec<String>,
    promoted: &[String],
    builder: &mut PlanBuilder,
    start: Ghost<PlanBuilder>,
    config: Ghost<Config>,
    vfs_available: Ghost<bool>,
)
    requires
        decisions_ok(d@, *m, config@, promoted@, vfs_available@, m.entries@.len() as int),
        !whole_overlay(*m, config@, promoted@, vfs_available@),
        forall|x: Seq<char>| #[trigger] has_name(overlay_rels@, x) <==> overlay_path(*m, x, config@, promoted@, vfs_available@),
        effect_upto(start@, *old(builder), *m, d@, d@.len() as int, 0, config@, promoted@, vfs_available@),
    ensures
        final(builder).assignments == old(builder).assignments,
        final(builder).tree == old(builder).tree,
        final(builder).magic_module_ids == old(builder).magic_module_ids,
        final(builder).vfs_module_ids == old(builder).vfs_module_ids,
        effect_upto(start@, *final(builder), *m, d@, d@.len() as int, d@.len() as int, config@, promoted@, vfs_available@),
{
    let mut q: usize = 0;
    while q < d.len()
        invariant
            0 <= q <= d@.len(),
            decisions_ok(d@, *m, config@, promoted@, vfs_available@, m.entries@.len() as int),
            !whole_overlay(*m, config@, promoted@, vfs_available@),
            forall|x: Seq<char>| #[trigger] has_name(overlay_rels@, x) <==> overlay_path(*m, x, config@, promoted@, vfs_available@),
            builder.assignments == old(builder).assignments,
            builder.tree == old(builder).tree,
            builder.magic_module_ids == old(builder).magic_module_ids,
            builder.vfs_module_ids == old(builder).vfs_module_ids,
            effect_upto(start@, *builder, *m, d@, d@.len() as int, q as int, config@, promoted@, vfs_available@),
        decreases d@.len() - q,
    {
        let ghost e = d@[q as int].entry as int;
        let ghost b0 = *builder;
        let entry = &m.entries[d[q].entry];
        proof {
            assert(d@[q as int].mode == entry_mode(*m, e, config@, vfs_available@)) by {
                reveal(entry_mode);
            }
            lemma_ancestor_same(*m, entry.relative@, overlay_rels@, config@, promoted@, vfs_available@);
        }
        let mut added = false;
        if d[q].mode == Mode::Overlay && entry.file_type != NodeFileType::Directory
            && !has_overlay_ancestor(entry.relative.as_str(), overlay_rels.as_slice()) {
            if let Some(parent) = parent_of_relative(entry.relative.as_str()) {
                let (_, parent_target) = map_target(parent.as_str(), promoted);
                let source = join_relative(m.source_path.as_str(), entry.relative.as_str());
                proof {
                    assert(file_of(*m, e, config@, promoted@, vfs_available@) == Some((parent_target@, source@))) by {
                    reveal(layer_of);
                    reveal(file_of);
                }
                }
                builder.add_overlay_file(parent_target.as_str(), m.id.as_str(), source);
                proof {
                    lemma_file_added(start@, b0, *builder, *m, d@, d@.len() as int, q as int, config@, promoted@, vfs_available@, parent_target@, source@);
                }
                added = true;
            }
        }
        if !added {
            proof {
                assert(file_of(*m, e, config@, promoted@, vfs_available@) is None) by {
                    reveal(layer_of);
                    reveal(file_of);
                }
                lemma_file_none(start@, b0, *m, d@, d@.len() as int, q as int, config@, promoted@, vfs_available@);
            }
        }
        q = q + 1;
    }
}

/// Adds the OverlayFS part of one module: whole-overlay layers at the
/// partition roots, or its own OverlayFS directories and files.
fn plan_overlay(
    m: &ModuleRecord,
    d: &Vec<Decision>,
    rules: &ModuleRulesView,
    promoted: &[String],
    builder: &mut PlanBuilder,
    config: Ghost<Config>,
    vfs_available: Ghost<bool>,
)
    requires
        rules.default_mode == spec_module_default(config@, m.id@, vfs_available@),
        rule_views(rules.path_rules@) == spec_module_keys(config@, m.id@, vfs_available@),
        decisions_ok(d@, *m, config@, promoted@, vfs_available@, m.entries@.len() as int),
        sorted_names(old(builder).overlay_module_ids@),
        ops_ordered(old(builder).overlay_by_target@),
        files_ordered(old(builder).overlay_files_by_target@),
    ensures
        final(builder).assignments == old(builder).assignments,
        final(builder).tree == old(builder).tree,
        final(builder).magic_module_ids == old(builder).magic_module_ids,
        final(builder).vfs_module_ids == old(builder).vfs_module_ids,
        overlay_effect(*old(builder), *final(builder), *m, config@, promoted@, vfs_available@),
{
    let any_overlay = any_mode(d, Mode::Overlay);
    if !any_overlay {
        proof {
            lemma_effect_none(*builder, *m, d@, config@, promoted@, vfs_available@);
        }
        return;
    }
    let all_overlay = all_mode(d, Mode::Overlay);
    let has_rule = rules.has_whole_system_overlay_rule();
    let whole = all_overlay && (rules.default_mode == Mode::Overlay || has_rule);
    proof {
        lemma_whole_test(*m, d@, *rules, config@, promoted@, vfs_available@, all_overlay, has_rule);
    }
    if whole {
        add_whole_overlay_layers(m, d, promoted, builder, config, vfs_available);
        proof {
            lemma_effect_done(*old(builder), *builder, *m, d@, config@, promoted@, vfs_available@);
        }
        return;
    }
    let overlay_rels = overlay_paths(m, d, config, Ghost(promoted@), vfs_available);
    let ghost start = *builder;
    proof {
        lemma_effect_start(start, *m, d@, config@, promoted@, vfs_available@);
    }
    add_partial_layers(m, d, &overlay_rels, promoted, builder, Ghost(start), config, vfs_available);
    add_partial_files(m, d, &overlay_rels, promoted, builder, Ghost(start), config, vfs_available);
    proof {
        lemma_effect_done(start, *builder, *m, d@, config@, promoted@, vfs_available@);
    }
}

/// Plans one module: records every planned entry in the shared tree, refuses
/// cross-backend conflicts, and collects overlay layers and module ids.
fn process_module(
    m: &ModuleRecord,
    rules: &ModuleRulesView,
    promoted: &[String],
    builder: &mut PlanBuilder,
    config: Ghost<Config>,
    vfs_available: Ghost<bool>,
) -> (r: Result<()>)
    requires
        rules.default_mode == spec_module_default(config@, m.id@, vfs_available@),
        rule_views(rules.path_rules@) == spec_module_keys(config@, m.id@, vfs_available@),
        sorted_names(old(builder).overlay_module_ids@),
        sorted_names(old(builder).magic_module_ids@),
        sorted_names(old(builder).vfs_module_ids@),
        ops_ordered(old(builder).overlay_by_target@),
        files_ordered(old(builder).overlay_files_by_target@),
    ensures
        sorted_names(final(builder).overlay_module_ids@),
        sorted_names(final(builder).magic_module_ids@),
        sorted_names(final(builder).vfs_module_ids@),
        r is Ok ==> overlay_effect(*old(builder), *final(builder), *m, config@, promoted@, vfs_available@),
        r is Ok ==> forall|x: Seq<char>| #[trigger] has_name(final(builder).magic_module_ids@, x) <==> has_name(old(builder).magic_module_ids@, x)
            || (x == m.id@ && module_decides(*m, config@, promoted@, vfs_available@, Mode::Magic)),
        r is Ok ==> forall|x: Seq<char>| #[trigger] has_name(final(builder).vfs_module_ids@, x) <==> has_name(old(builder).vfs_module_ids@, x)
            || (x == m.id@ && module_decides(*m, config@, promoted@, vfs_available@, Mode::Vfs)),
        r is Ok ==> forall|x: Seq<char>| #[trigger] has_name(final(builder).overlay_module_ids@, x) ==> has_name(old(builder).overlay_module_ids@, x)
            || (x == m.id@ && module_decides(*m, config@, promoted@, vfs_available@, Mode::Overlay)),
        forall|allowed: Set<Seq<char>>| tree_ids_in(old(builder).tree.root, allowed) && allowed.contains(m.id@) ==> #[trigger] tree_ids_in(final(builder).tree.root, allowed),
        r matches Err(e) ==> e is PlanConflict,
        r is Err <==> module_conflict(*m, config@, promoted@, vfs_available@, old(builder).assignments@),
        r is Ok ==> claims_after(*m, config@, promoted@, vfs_available@, old(builder).assignments@, final(builder).assignments@),
        tree_keeps(old(builder).tree.root, final(builder).tree.root),
        r is Ok ==> forall|i: int| 0 <= i < m.entries@.len() && planned_entry(*m, i, promoted@) ==> #[trigger] entry_in_tree(
            final(builder).tree.root, *m, i, config@, promoted@, vfs_available@),
{
    let d = decide(m, rules, promoted, config, vfs_available);
    proof {
        lemma_decides(d@, *m, config@, promoted@, vfs_available@, Mode::Magic);
        lemma_decides(d@, *m, config@, promoted@, vfs_available@, Mode::Vfs);
        lemma_decides(d@, *m, config@, promoted@, vfs_available@, Mode::Overlay);
    }
    let ghost ids0 = builder.overlay_module_ids@;
    let ghost magic0 = builder.magic_module_ids@;
    let ghost vfs0 = builder.vfs_module_ids@;
    let ghost a0 = builder.assignments@;
    let ghost root0 = builder.tree.root;
    proof {
        lemma_keeps_same(root0);
    }
    let mut k: usize = 0;
    while k < d.len()
        invariant
            0 <= k <= d@.len(),
            root0 == old(builder).tree.root,
            tree_keeps(root0, builder.tree.root),
            forall|kk: int| 0 <= kk < k ==> #[trigger] entry_in_tree(builder.tree.root, *m, d@[kk].entry as int, config@, promoted@, vfs_available@),
            decisions_ok(d@, *m, config@, promoted@, vfs_available@, m.entries@.len() as int),
            forall|a: int, b: int| 0 <= a < b < d@.len() ==> #[trigger] d@[a].entry < #[trigger] d@[b].entry,
            a0 == old(builder).assignments@,
            claimed_upto(*m, d@, k as int, config@, promoted@, vfs_available@, a0, builder.assignments@),
            clean_upto(*m, d@, k as int, config@, promoted@, vfs_available@, a0),
            builder.overlay_module_ids@ == ids0,
            builder.overlay_by_target == old(builder).overlay_by_target,
            builder.overlay_files_by_target == old(builder).overlay_files_by_target,
            builder.magic_module_ids@ == magic0,
            builder.vfs_module_ids@ == vfs0,
            sorted_names(ids0),
            sorted_names(magic0),
            sorted_names(vfs0),
            forall|allowed: Set<Seq<char>>| tree_ids_in(old(builder).tree.root, allowed) && allowed.contains(m.id@) ==> #[trigger] tree_ids_in(builder.tree.root, allowed),
        decreases d@.len() - k,
    {
        let ghost cur = builder.assignments@;
        let ghost root_before = builder.tree.root;
        proof {
            reveal(entry_target);
            reveal(entry_mode);
            assert(d@[k as int].mode == entry_mode(*m, d@[k as int].entry as int, config@, vfs_available@));
        }
        let recorded = record_decision(m, d[k].entry, d[k].mode, promoted, builder);
        proof {
            lemma_keeps_chain(root0, root_before, builder.tree.root);
            lemma_entries_kept(*m, d@, k as int, config@, promoted@, vfs_available@, root_before, builder.tree.root);
        }
        match recorded {
            Ok(()) => {
                proof {
                    lemma_claimed_step(*m, d@, k as int, config@, promoted@, vfs_available@, a0, cur, builder.assignments@);
                    lemma_clean_step(*m, d@, k as int, config@, promoted@, vfs_available@, a0, cur);
                }
            },
            Err(e) => {
                proof {
                    lemma_claim_failed(*m, d@, k as int, config@, promoted@, vfs_available@, a0, cur);
                }
                return Err(e);
            },
        }
        k = k + 1;
    }
    proof {
        lemma_module_clean(*m, d@, config@, promoted@, vfs_available@, a0);
        lemma_claims_complete(*m, d@, config@, promoted@, vfs_available@, a0, builder.assignments@);
    }
    let ghost tree1 = builder.tree;
    let ghost a_end = builder.assignments@;
    proof {
        assert forall|i: int| 0 <= i < m.entries@.len() && planned_entry(*m, i, promoted@) implies #[trigger] entry_in_tree(
            tree1.root, *m, i, config@, promoted@, vfs_available@) by {
            let kk = choose|kk: int| 0 <= kk < d@.len() && #[trigger] d@[kk].entry == i;
            assert(entry_in_tree(tree1.root, *m, d@[kk].entry as int, config@, promoted@, vfs_available@));
        }
    }
    let ghost mid = *builder;
    plan_overlay(m, &d, rules, promoted, builder, config, vfs_available);
    let ghost after_overlay = *builder;
    collect_ids(m, &d, builder);
    proof {
        lemma_contributes_decides(*m, config@, promoted@, vfs_available@);
        assert(builder.overlay_by_target@ == after_overlay.overlay_by_target@);
        assert(builder.overlay_files_by_target@ == after_overlay.overlay_files_by_target@);
        assert(builder.overlay_module_ids@ == after_overlay.overlay_module_ids@);
        assert(mid.overlay_by_target@ == old(builder).overlay_by_target@);
        assert(mid.overlay_files_by_target@ == old(builder).overlay_files_by_target@);
        assert(mid.overlay_module_ids@ == old(builder).overlay_module_ids@);
    }
    Ok(())
}

/// Adds one source to the plan's tree: the tree gains it at `target`, keeps
/// every source it held, and names no module it did not name or `source`'s.
fn add_to_tree(tree: &mut MountTree, target: &str, source: MountSource)
    ensures
        forall|allowed: Set<Seq<char>>| tree_ids_in(old(tree).root, allowed) && allowed.contains(source.module_id@) ==> #[trigger] tree_ids_in(final(tree).root, allowed),
        tree_keeps(old(tree).root, final(tree).root),
        tree_holds(final(tree).root, target@, source.backend, source.module_id@),
{
    let ghost old_root = tree.root;
    let ghost src = source;
    tree.insert(target, source);
    proof {
        reveal(tree_keeps);
        reveal(tree_holds);
        assert forall|allowed: Set<Seq<char>>| tree_ids_in(old_root, allowed) && allowed.contains(src.module_id@) implies #[trigger] tree_ids_in(tree.root, allowed) by {
            insert_keeps_ids_in(old_root, tree.root, target@, src, allowed);
        }
    }
}

/// The entries placed before the `k`-th decision stay in the tree, and the
/// `k`-th joins them.
proof fn lemma_entries_kept(
    m: ModuleRecord,
    d: Seq<Decision>,
    k: int,
    config: Config,
    promoted: Seq<String>,
    vfs_available: bool,
    before: MountNode,
    after: MountNode,
)
    requires
        0 <= k < d.len(),
        tree_keeps(before, after),
        forall|kk: int| 0 <= kk < k ==> #[trigger] entry_in_tree(before, m, d[kk].entry as int, config, promoted, vfs_available),
        tree_holds(after, entry_target(m, d[k].entry as int, promoted), d[k].mode, m.id@),
        d[k].mode == entry_mode(m, d[k].entry as int, config, vfs_available),
    ensures
        forall|kk: int| 0 <= kk < k + 1 ==> #[trigger] entry_in_tree(after, m, d[kk].entry as int, config, promoted, vfs_available),
{
    assert forall|kk: int| 0 <= kk < k + 1 implies #[trigger] entry_in_tree(after, m, d[kk].entry as int, config, promoted, vfs_available) by {
        if kk < k {
            assert(entry_in_tree(before, m, d[kk].entry as int, config, promoted, vfs_available));
            lemma_keeps_holds(
                before,
                after,
                entry_target(m, d[kk].entry as int, promoted),
                entry_mode(m, d[kk].entry as int, config, vfs_available),
                m.id@,
            );
        }
    }
}

/// Puts one decided entry into the shared tree and registers its backend
/// for its target.
#[verifier::spinoff_prover]
#[verifier::rlimit(50)]
fn record_decision(m: &ModuleRecord, entry_index: usize, mode: Mode, promoted: &[String], builder: &mut PlanBuilder) -> (r: Result<()>)
    requires
        entry_index < m.entries@.len(),
    ensures
        forall|allowed: Set<Seq<char>>| tree_ids_in(old(builder).tree.root, allowed) && allowed.contains(m.id@) ==> #[trigger] tree_ids_in(final(builder).tree.root, allowed),
        tree_keeps(old(builder).tree.root, final(builder).tree.root),
        tree_holds(final(builder).tree.root, entry_target(*m, entry_index as int, promoted@), mode, m.id@),
        final(builder).overlay_module_ids == old(builder).overlay_module_ids,
        final(builder).overlay_by_target == old(builder).overlay_by_target,
        final(builder).overlay_files_by_target == old(builder).overlay_files_by_target,
        final(builder).magic_module_ids == old(builder).magic_module_ids,
        final(builder).vfs_module_ids == old(builder).vfs_module_ids,
        r matches Err(e) ==> e is PlanConflict,
        ({
            let entry = m.entries@[entry_index as int];
            let target = crate::plan::paths::spec_map_target(entry.relative@, promoted@).1;
            r is Err <==> mode != Mode::Ignore && has_conflict(assigned_at(old(builder).assignments@, target), mode,
                entry.file_type, entry.replace)
        }),
        ({
            let entry = m.entries@[entry_index as int];
            let target = crate::plan::paths::spec_map_target(entry.relative@, promoted@).1;
            r is Ok && mode != Mode::Ignore ==> assigned_at(final(builder).assignments@, target).len()
                == assigned_at(old(builder).assignments@, target).len() + 1
        }),
        ({
            let entry = m.entries@[entry_index as int];
            let target = crate::plan::paths::spec_map_target(entry.relative@, promoted@).1;
            mode == Mode::Ignore ==> final(builder).assignments == old(builder).assignments
        }),
        ({
            let entry = m.entries@[entry_index as int];
            let target = crate::plan::paths::spec_map_target(entry.relative@, promoted@).1;
            r is Ok && mode != Mode::Ignore ==> forall|t: Seq<char>, md: Mode, ft: NodeFileType, rp: bool|
                #[trigger] holds_attr(assigned_at(final(builder).assignments@, t), md, ft, rp) <==> holds_attr(
                assigned_at(old(builder).assignments@, t),
                md,
                ft,
                rp,
            ) || (t == target && md == mode && ft == entry.file_type && rp == entry.replace)
        }),
{
    let entry = &m.entries[entry_index];
    let (_, target) = map_target(entry.relative.as_str(), promoted);
    let source = MountSource {
        module_id: owned(m.id.as_str()),
        relative: owned(entry.relative.as_str()),
        source_path: join_relative(m.source_path.as_str(), entry.relative.as_str()),
        file_type: entry.file_type,
        replace: entry.replace,
        backend: mode,
    };
    add_to_tree(&mut builder.tree, target.as_str(), source);
    assert(target@ == entry_target(*m, entry_index as int, promoted@)) by {
        reveal(entry_target);
    }
    let ghost root1 = builder.tree.root;

    if mode != Mode::Ignore {
        let ghost a0 = builder.assignments@;
        builder.register(target.as_str(), mode, m.id.as_str(), entry.relative.as_str(), entry.file_type, entry.replace)?;
        proof {
            assert forall|t: Seq<char>, md: Mode, ft: NodeFileType, rp: bool|
                #[trigger] holds_attr(assigned_at(builder.assignments@, t), md, ft, rp) <==> holds_attr(
                assigned_at(a0, t),
                md,
                ft,
                rp,
            ) || (t == target@ && md == mode && ft == entry.file_type && rp == entry.replace) by {
                if t != target@ {
                } else {
                    let added = assigned_at(builder.assignments@, t);
                    let before = assigned_at(a0, t);
                    if holds_attr(before, md, ft, rp) {
                        let q = choose|q: int| 0 <= q < before.len() && #[trigger] before[q].mode == md && before[q].file_type == ft && before[q].replace == rp;
                        assert(added[q] == added.drop_last()[q]);
                    }
                    if md == mode && ft == entry.file_type && rp == entry.replace {
                        assert(added[added.len() - 1] == added.last());
                    }
                    if holds_attr(added, md, ft, rp) {
                        let q = choose|q: int| 0 <= q < added.len() && #[trigger] added[q].mode == md && added[q].file_type == ft && added[q].replace == rp;
                        if q < added.len() - 1 {
                            assert(before[q] == added.drop_last()[q]);
                        }
                    }
                }
            }
        }
    }
    Ok(())
}

/// Records the module among the Magic Mount and VFS modules when one of its
/// decisions uses that backend.
fn collect_ids(m: &ModuleRecord, d: &Vec<Decision>, builder: &mut PlanBuilder)
    requires
        sorted_names(old(builder).magic_module_ids@),
        sorted_names(old(builder).vfs_module_ids@),
    ensures
        final(builder).assignments == old(builder).assignments,
        final(builder).tree == old(builder).tree,
        sorted_names(final(builder).magic_module_ids@),
        sorted_names(final(builder).vfs_module_ids@),
        final(builder).overlay_module_ids == old(builder).overlay_module_ids,
        final(builder).overlay_by_target == old(builder).overlay_by_target,
        final(builder).overlay_files_by_target == old(builder).overlay_files_by_target,
        forall|x: Seq<char>| #[trigger] has_name(final(builder).magic_module_ids@, x) <==> has_name(old(builder).magic_module_ids@, x)
            || (x == m.id@ && exists|k: int| 0 <= k < d@.len() && #[trigger] d@[k].mode == Mode::Magic),
        forall|x: Seq<char>| #[trigger] has_name(final(builder).vfs_module_ids@, x) <==> has_name(old(builder).vfs_module_ids@, x)
            || (x == m.id@ && exists|k: int| 0 <= k < d@.len() && #[trigger] d@[k].mode == Mode::Vfs),
{
    if any_mode(d, Mode::Magic) {
        insert_name(&mut builder.magic_module_ids, m.id.as_str());
    }
    if any_mode(d, Mode::Vfs) {
        insert_name(&mut builder.vfs_module_ids, m.id.as_str());
    }
}

/// Some position of `order` holds `j`.
pub open spec fn covers(order: Seq<usize>, j: int) -> bool {
    exists|i: int| 0 <= i < order.len() && #[trigger] order[i] == j
}

/// Module indices ordered by module id; equal ids keep their input order.
fn order_by_id(modules: &[ModuleRecord]) -> (order: Vec<usize>)
    ensures
        forall|i: int| 0 <= i < order@.len() ==> #[trigger] order@[i] < modules@.len(),
        forall|j: int| 0 <= j < modules@.len() ==> #[trigger] covers(order@, j),
{
    let mut order: Vec<usize> = Vec::new();
    let mut j: usize = 0;
    while j < modules.len()
        invariant
            0 <= j <= modules@.len(),
            forall|i: int| 0 <= i < order@.len() ==> #[trigger] order@[i] < j,
            forall|q: int| 0 <= q < j ==> #[trigger] covers(order@, q),
        decreases modules@.len() - j,
    {
        let mut p: usize = 0;
        while p < order.len() && !str_lt(modules[j].id.as_str(), modules[order[p]].id.as_str())
            invariant
                0 <= p <= order@.len(),
                j < modules@.len(),
                forall|i: int| 0 <= i < order@.len() ==> #[trigger] order@[i] < j,
            decreases order@.len() - p,
        {
            p = p + 1;
        }
        let ghost before = order@;
        order.insert(p, j);
        proof {
            assert forall|q: int| 0 <= q < j + 1 implies #[trigger] covers(order@, q) by {
                if q == j {
                    assert(order@[p as int] == q);
                } else {
                    assert(covers(before, q));
                    let i = choose|i: int| 0 <= i < before.len() && #[trigger] before[i] == q;
                    if i < p {
                        assert(order@[i] == q);
                    } else {
                        assert(order@[i + 1] == q);
                    }
                }
            }
            assert forall|i: int| 0 <= i < order@.len() implies #[trigger] order@[i] < j + 1 by {
                if i < p {
                    assert(order@[i] == before[i]);
                } else if i > p {
                    assert(order@[i] == before[i - 1]);
                }
            }
        }
        j = j + 1;
    }
    order
}

/// The ids of the modules that take part in planning: mountable, and not
/// blacklisted.
pub open spec fn eligible_ids(modules: Seq<ModuleRecord>, config: Config) -> Set<Seq<char>> {
    Set::new(|id: Seq<char>| exists|k: int| 0 <= k < modules.len() && #[trigger] modules[k].id@ == id && modules[k].has_mount_files
        && !modules[k].disabled && !modules[k].skip_mount && !has_name(config.module_blacklist@, id))
}

/// Entry `e` of module `i` was claimed by one of the first `n` modules of `order`.
spec fn claimed(mods: Seq<ModuleRecord>, order: Seq<usize>, n: int, config: Config, promoted: Seq<String>, vfs_available: bool, i: int, e: int) -> bool {
    &&& 0 <= i < mods.len()
    &&& eligible(mods[i], config)
    &&& registers(mods[i], e, config, promoted, vfs_available)
    &&& exists|jj: int| 0 <= jj < n && #[trigger] order[jj] as int == i
}

/// Entry `e` of module `i` claims `t` with these attributes.
spec fn attrs_match(mods: Seq<ModuleRecord>, i: int, e: int, config: Config, promoted: Seq<String>, vfs_available: bool, t: Seq<char>, md: Mode, ft: NodeFileType, rp: bool) -> bool {
    entry_target(mods[i], e, promoted) == t && entry_mode(mods[i], e, config, vfs_available) == md
        && mods[i].entries@[e].file_type == ft && mods[i].entries@[e].replace == rp
}

/// The registrations in `a` are exactly the claims of the first `n` modules.
spec fn claims_hold(mods: Seq<ModuleRecord>, order: Seq<usize>, n: int, config: Config, promoted: Seq<String>, vfs_available: bool, a: Seq<(String, Vec<TargetAssignment>)>) -> bool {
    forall|t: Seq<char>, md: Mode, ft: NodeFileType, rp: bool|
        #[trigger] holds_attr(assigned_at(a, t), md, ft, rp) <==> exists|i: int, e: int|
            #[trigger] claimed(mods, order, n, config, promoted, vfs_available, i, e) && attrs_match(mods, i, e, config, promoted, vfs_available, t, md, ft, rp)
}

/// No two claims of the first `n` modules conflict.
spec fn claims_clean(mods: Seq<ModuleRecord>, order: Seq<usize>, n: int, config: Config, promoted: Seq<String>, vfs_available: bool) -> bool {
    forall|i1: int, e1: int, i2: int, e2: int|
        #[trigger] claimed(mods, order, n, config, promoted, vfs_available, i1, e1) && #[trigger] claimed(mods, order, n, config, promoted, vfs_available, i2, e2)
            && entry_target(mods[i1], e1, promoted) == entry_target(mods[i2], e2, promoted) ==> !entries_conflict(
            mods[i1],
            e1,
            mods[i2],
            e2,
            config,
            vfs_available,
        )
}

proof fn lemma_claimed_next(mods: Seq<ModuleRecord>, order: Seq<usize>, n: int, config: Config, promoted: Seq<String>, vfs_available: bool, i: int, e: int)
    requires
        0 <= n < order.len(),
        (order[n] as int) < mods.len(),
    ensures
        claimed(mods, order, n + 1, config, promoted, vfs_available, i, e) <==> claimed(mods, order, n, config, promoted, vfs_available, i, e)
            || (i == order[n] as int && eligible(mods[i], config) && registers(mods[i], e, config, promoted, vfs_available)),
{
    if claimed(mods, order, n + 1, config, promoted, vfs_available, i, e) {
        let jj = choose|jj: int| 0 <= jj < n + 1 && #[trigger] order[jj] as int == i;
        if jj < n {
            assert(claimed(mods, order, n, config, promoted, vfs_available, i, e));
        }
    }
    if claimed(mods, order, n, config, promoted, vfs_available, i, e) {
        let jj = choose|jj: int| 0 <= jj < n && #[trigger] order[jj] as int == i;
        assert(0 <= jj < n + 1 && order[jj] as int == i);
    }
    if i == order[n] as int && eligible(mods[i], config) && registers(mods[i], e, config, promoted, vfs_available) {
        assert(order[n] as int == i);
    }
}

/// A skipped module adds no claim.
proof fn lemma_skip_step(mods: Seq<ModuleRecord>, order: Seq<usize>, n: int, config: Config, promoted: Seq<String>, vfs_available: bool, a: Seq<(String, Vec<TargetAssignment>)>)
    requires
        0 <= n < order.len(),
        (order[n] as int) < mods.len(),
        !eligible(mods[order[n] as int], config),
        claims_hold(mods, order, n, config, promoted, vfs_available, a),
        claims_clean(mods, order, n, config, promoted, vfs_available),
    ensures
        claims_hold(mods, order, n + 1, config, promoted, vfs_available, a),
        claims_clean(mods, order, n + 1, config, promoted, vfs_available),
{
    assert forall|i: int, e: int| claimed(mods, order, n + 1, config, promoted, vfs_available, i, e) == claimed(mods, order, n, config, promoted, vfs_available, i, e) by {
        lemma_claimed_next(mods, order, n, config, promoted, vfs_available, i, e);
    }
    assert forall|t: Seq<char>, md: Mode, ft: NodeFileType, rp: bool|
        #[trigger] holds_attr(assigned_at(a, t), md, ft, rp) <==> exists|i: int, e: int|
            #[trigger] claimed(mods, order, n + 1, config, promoted, vfs_available, i, e) && attrs_match(mods, i, e, config, promoted, vfs_available, t, md, ft, rp) by {
        if holds_attr(assigned_at(a, t), md, ft, rp) {
            let (i, e) = choose|i: int, e: int| #[trigger] claimed(mods, order, n, config, promoted, vfs_available, i, e) && attrs_match(mods, i, e, config, promoted, vfs_available, t, md, ft, rp);
            assert(claimed(mods, order, n + 1, config, promoted, vfs_available, i, e));
        }
        if exists|i: int, e: int| #[trigger] claimed(mods, order, n + 1, config, promoted, vfs_available, i, e) && attrs_match(mods, i, e, config, promoted, vfs_available, t, md, ft, rp) {
            let (i, e) = choose|i: int, e: int| #[trigger] claimed(mods, order, n + 1, config, promoted, vfs_available, i, e) && attrs_match(mods, i, e, config, promoted, vfs_available, t, md, ft, rp);
            assert(claimed(mods, order, n, config, promoted, vfs_available, i, e));
        }
    }    assert forall|i1: int, e1: int, i2: int, e2: int|
        #[trigger] claimed(mods, order, n + 1, config, promoted, vfs_available, i1, e1) && #[trigger] claimed(mods, order, n + 1, config, promoted, vfs_available, i2, e2)
            && entry_target(mods[i1], e1, promoted) == entry_target(mods[i2], e2, promoted) implies !entries_conflict(
            mods[i1],
            e1,
            mods[i2],
            e2,
            config,
            vfs_available,
        ) by {
        lemma_claimed_next(mods, order, n, config, promoted, vfs_available, i1, e1);
        lemma_claimed_next(mods, order, n, config, promoted, vfs_available, i2, e2);
    }
}

/// A module that planned without conflict adds its claims and keeps them clean.
#[verifier::spinoff_prover]
proof fn lemma_module_step(
    mods: Seq<ModuleRecord>,
    order: Seq<usize>,
    n: int,
    config: Config,
    promoted: Seq<String>,
    vfs_available: bool,
    a: Seq<(String, Vec<TargetAssignment>)>,
    b: Seq<(String, Vec<TargetAssignment>)>,
)
    requires
        0 <= n < order.len(),
        (order[n] as int) < mods.len(),
        eligible(mods[order[n] as int], config),
        claims_hold(mods, order, n, config, promoted, vfs_available, a),
        claims_clean(mods, order, n, config, promoted, vfs_available),
        claims_after(mods[order[n] as int], config, promoted, vfs_available, a, b),
        !module_conflict(mods[order[n] as int], config, promoted, vfs_available, a),
    ensures
        claims_hold(mods, order, n + 1, config, promoted, vfs_available, b),
        claims_clean(mods, order, n + 1, config, promoted, vfs_available),
{
    let k = order[n] as int;
    let m = mods[k];
    assert forall|t: Seq<char>, md: Mode, ft: NodeFileType, rp: bool|
        #[trigger] holds_attr(assigned_at(b, t), md, ft, rp) <==> exists|i: int, e: int|
            #[trigger] claimed(mods, order, n + 1, config, promoted, vfs_available, i, e) && attrs_match(mods, i, e, config, promoted, vfs_available, t, md, ft, rp) by {
        let old_side = exists|i: int, e: int| #[trigger] claimed(mods, order, n, config, promoted, vfs_available, i, e) && attrs_match(mods, i, e, config, promoted, vfs_available, t, md, ft, rp);
        let mod_side = exists|e: int|
            #[trigger] registers(m, e, config, promoted, vfs_available) && entry_target(m, e, promoted) == t && entry_mode(
                m,
                e,
                config,
                vfs_available,
            ) == md && m.entries@[e].file_type == ft && m.entries@[e].replace == rp;
        assert(holds_attr(assigned_at(b, t), md, ft, rp) <==> holds_attr(assigned_at(a, t), md, ft, rp) || mod_side);
        if old_side {
            let (i, e) = choose|i: int, e: int| #[trigger] claimed(mods, order, n, config, promoted, vfs_available, i, e) && attrs_match(mods, i, e, config, promoted, vfs_available, t, md, ft, rp);
            lemma_claimed_next(mods, order, n, config, promoted, vfs_available, i, e);
        }
        if mod_side {
            let e = choose|e: int|
                #[trigger] registers(m, e, config, promoted, vfs_available) && entry_target(m, e, promoted) == t && entry_mode(
                    m,
                    e,
                    config,
                    vfs_available,
                ) == md && m.entries@[e].file_type == ft && m.entries@[e].replace == rp;
            lemma_claimed_next(mods, order, n, config, promoted, vfs_available, k, e);
            assert(claimed(mods, order, n + 1, config, promoted, vfs_available, k, e) && attrs_match(mods, k, e, config, promoted, vfs_available, t, md, ft, rp));
        }
        if exists|i: int, e: int| #[trigger] claimed(mods, order, n + 1, config, promoted, vfs_available, i, e) && attrs_match(mods, i, e, config, promoted, vfs_available, t, md, ft, rp) {
            let (i, e) = choose|i: int, e: int| #[trigger] claimed(mods, order, n + 1, config, promoted, vfs_available, i, e) && attrs_match(mods, i, e, config, promoted, vfs_available, t, md, ft, rp);
            lemma_claimed_next(mods, order, n, config, promoted, vfs_available, i, e);
            if !claimed(mods, order, n, config, promoted, vfs_available, i, e) {
                assert(mod_side);
            }
        }
    }
    assert forall|i1: int, e1: int, i2: int, e2: int|
        #[trigger] claimed(mods, order, n + 1, config, promoted, vfs_available, i1, e1) && #[trigger] claimed(mods, order, n + 1, config, promoted, vfs_available, i2, e2)
            && entry_target(mods[i1], e1, promoted) == entry_target(mods[i2], e2, promoted) implies !entries_conflict(
            mods[i1],
            e1,
            mods[i2],
            e2,
            config,
            vfs_available,
        ) by {
        lemma_claimed_next(mods, order, n, config, promoted, vfs_available, i1, e1);
        lemma_claimed_next(mods, order, n, config, promoted, vfs_available, i2, e2);
        let old1 = claimed(mods, order, n, config, promoted, vfs_available, i1, e1);
        let old2 = claimed(mods, order, n, config, promoted, vfs_available, i2, e2);
        let t = entry_target(mods[i1], e1, promoted);
        if old1 && !old2 {
            // (i2, e2) is a new claim of m; (i1, e1) is registered in `a`.
            assert(i2 == k);
            assert(holds_attr(assigned_at(a, t), entry_mode(mods[i1], e1, config, vfs_available), mods[i1].entries@[e1].file_type, mods[i1].entries@[e1].replace));
            let l = assigned_at(a, t);
            let q = choose|q: int| 0 <= q < l.len() && #[trigger] l[q].mode == entry_mode(mods[i1], e1, config, vfs_available) && l[q].file_type == mods[i1].entries@[e1].file_type && l[q].replace == mods[i1].entries@[e1].replace;
            assert(registers(m, e2, config, promoted, vfs_available));
            if entries_conflict(mods[i1], e1, mods[i2], e2, config, vfs_available) {
                assert(conflicts(l[q].mode, l[q].file_type, l[q].replace, entry_mode(m, e2, config, vfs_available), m.entries@[e2].file_type, m.entries@[e2].replace));
                assert(has_conflict(assigned_at(a, entry_target(m, e2, promoted)), entry_mode(m, e2, config, vfs_available), m.entries@[e2].file_type, m.entries@[e2].replace));
            }
        } else if !old1 && old2 {
            assert(i1 == k);
            assert(holds_attr(assigned_at(a, t), entry_mode(mods[i2], e2, config, vfs_available), mods[i2].entries@[e2].file_type, mods[i2].entries@[e2].replace));
            let l = assigned_at(a, t);
            let q = choose|q: int| 0 <= q < l.len() && #[trigger] l[q].mode == entry_mode(mods[i2], e2, config, vfs_available) && l[q].file_type == mods[i2].entries@[e2].file_type && l[q].replace == mods[i2].entries@[e2].replace;
            assert(registers(m, e1, config, promoted, vfs_available));
            if entries_conflict(mods[i1], e1, mods[i2], e2, config, vfs_available) {
                assert(conflicts(l[q].mode, l[q].file_type, l[q].replace, entry_mode(m, e1, config, vfs_available), m.entries@[e1].file_type, m.entries@[e1].replace));
                assert(has_conflict(assigned_at(a, entry_target(m, e1, promoted)), entry_mode(m, e1, config, vfs_available), m.entries@[e1].file_type, m.entries@[e1].replace));
            }
        } else if !old1 && !old2 {
            assert(i1 == k && i2 == k);
            assert(registers(m, e2, config, promoted, vfs_available));
            assert(registers(m, e1, config, promoted, vfs_available));
            if entries_conflict(mods[i1], e1, mods[i2], e2, config, vfs_available) {
                assert(entries_conflict(m, e1, m, e2, config, vfs_available));
            }
        }
    }
}

/// A module conflict against the claims so far is a conflict of the input.
proof fn lemma_conflict_found(
    mods: Seq<ModuleRecord>,
    order: Seq<usize>,
    n: int,
    config: Config,
    promoted: Seq<String>,
    vfs_available: bool,
    a: Seq<(String, Vec<TargetAssignment>)>,
)
    requires
        0 <= n < order.len(),
        (order[n] as int) < mods.len(),
        eligible(mods[order[n] as int], config),
        claims_hold(mods, order, n, config, promoted, vfs_available, a),
        module_conflict(mods[order[n] as int], config, promoted, vfs_available, a),
    ensures
        registration_conflict(mods, config, promoted, vfs_available),
{
    let k = order[n] as int;
    let m = mods[k];
    let e = choose|e: int|
        #[trigger] registers(m, e, config, promoted, vfs_available) && (has_conflict(
            assigned_at(a, entry_target(m, e, promoted)),
            entry_mode(m, e, config, vfs_available),
            m.entries@[e].file_type,
            m.entries@[e].replace,
        ) || exists|j: int|
            #[trigger] registers(m, j, config, promoted, vfs_available) && entry_target(m, j, promoted) == entry_target(m, e, promoted)
                && entries_conflict(m, j, m, e, config, vfs_available));
    let t = entry_target(m, e, promoted);
    if has_conflict(assigned_at(a, t), entry_mode(m, e, config, vfs_available), m.entries@[e].file_type, m.entries@[e].replace) {
        let l = assigned_at(a, t);
        let q = choose|q: int| 0 <= q < l.len() && conflicts(#[trigger] l[q].mode, l[q].file_type, l[q].replace, entry_mode(m, e, config, vfs_available), m.entries@[e].file_type, m.entries@[e].replace);
        assert(holds_attr(l, l[q].mode, l[q].file_type, l[q].replace));
        let (i1, e1) = choose|i: int, e: int| #[trigger] claimed(mods, order, n, config, promoted, vfs_available, i, e) && attrs_match(mods, i, e, config, promoted, vfs_available, t, l[q].mode, l[q].file_type, l[q].replace);
        assert(registers(mods[i1], e1, config, promoted, vfs_available) && registers(mods[k], e, config, promoted, vfs_available));
        assert(entries_conflict(mods[i1], e1, mods[k], e, config, vfs_available));
    } else {
        let j = choose|j: int|
            #[trigger] registers(m, j, config, promoted, vfs_available) && entry_target(m, j, promoted) == entry_target(m, e, promoted)
                && entries_conflict(m, j, m, e, config, vfs_available);
        assert(registers(mods[k], j, config, promoted, vfs_available) && registers(mods[k], e, config, promoted, vfs_available));
    }
}

/// With every module processed, clean claims mean no conflict in the input.
proof fn lemma_all_clean(mods: Seq<ModuleRecord>, order: Seq<usize>, config: Config, promoted: Seq<String>, vfs_available: bool)
    requires
        forall|j: int| 0 <= j < mods.len() ==> #[trigger] covers(order, j),
        claims_clean(mods, order, order.len() as int, config, promoted, vfs_available),
    ensures
        !registration_conflict(mods, config, promoted, vfs_available),
{
    if registration_conflict(mods, config, promoted, vfs_available) {
        let (i1, e1, i2, e2) = choose|i1: int, e1: int, i2: int, e2: int|
            #![trigger registers(mods[i1], e1, config, promoted, vfs_available), registers(mods[i2], e2, config, promoted, vfs_available)]
            0 <= i1 < mods.len() && 0 <= i2 < mods.len() && eligible(mods[i1], config) && eligible(mods[i2], config)
                && registers(mods[i1], e1, config, promoted, vfs_available) && registers(mods[i2], e2, config, promoted, vfs_available)
                && entry_target(mods[i1], e1, promoted) == entry_target(mods[i2], e2, promoted)
                && entries_conflict(mods[i1], e1, mods[i2], e2, config, vfs_available);
        assert(covers(order, i1) && covers(order, i2));
        let j1 = choose|j: int| 0 <= j < order.len() && #[trigger] order[j] == i1;
        let j2 = choose|j: int| 0 <= j < order.len() && #[trigger] order[j] == i2;
        assert(order[j1] as int == i1);
        assert(order[j2] as int == i2);
        assert(claimed(mods, order, order.len() as int, config, promoted, vfs_available, i1, e1));
        assert(claimed(mods, order, order.len() as int, config, promoted, vfs_available, i2, e2));
    }
}

/// Builds the mount plan. Cross-backend file, type and `.replace` conflicts
/// are errors, and so are the whole-tree conflicts: a Magic Mount `.replace`
/// above an OverlayFS source, a VFS source at or below a directory another
/// backend mounts over, and another backend inside a VFS `.replace`.
pub fn build_plan(input: &PlanInput) -> (r: Result<MountPlan>)
    ensures
        r matches Err(e) ==> e is PlanConflict,
        r matches Ok(plan) ==> {
            &&& replace_consistent(plan.tree.root)
            &&& vfs_unshadowed(plan.tree.root, false)
            &&& vfs_opaque_exclusive(plan.tree.root, false)
            &&& sorted_names(plan.magic_module_ids@)
            &&& sorted_names(plan.vfs_module_ids@)
            &&& sorted_names(plan.overlay_module_ids@)
            &&& forall|x: Seq<char>| #[trigger] has_name(plan.magic_module_ids@, x) <==> planned_with(
                input.modules@, *input.config, input.promoted_partitions@, input.vfs_available, x, Mode::Magic)
            &&& forall|x: Seq<char>| #[trigger] has_name(plan.vfs_module_ids@, x) <==> planned_with(
                input.modules@, *input.config, input.promoted_partitions@, input.vfs_available, x, Mode::Vfs)
            &&& forall|x: Seq<char>| #[trigger] has_name(plan.overlay_module_ids@, x) ==> planned_with(
                input.modules@, *input.config, input.promoted_partitions@, input.vfs_available, x, Mode::Overlay)
            &&& forall|x: Seq<char>| #[trigger] has_name(plan.overlay_module_ids@, x) <==> overlay_planned(
                input.modules@, *input.config, input.promoted_partitions@, input.vfs_available, x)
            &&& overlay_ops_planned(plan.overlay_ops@, input.modules@, *input.config, input.promoted_partitions@, input.vfs_available)
            &&& overlay_files_planned(plan.overlay_files@, input.modules@, *input.config, input.promoted_partitions@, input.vfs_available)
            &&& tree_ids_in(plan.tree.root, eligible_ids(input.modules@, *input.config))
            &&& forall|j: int, i: int| 0 <= j < input.modules@.len() && eligible(input.modules@[j], *input.config) && 0 <= i
                < input.modules@[j].entries@.len() && planned_entry(input.modules@[j], i, input.promoted_partitions@)
                ==> #[trigger] entry_in_tree(plan.tree.root, input.modules@[j], i, *input.config, input.promoted_partitions@,
                input.vfs_available)
        },
        registration_conflict(input.modules@, *input.config, input.promoted_partitions@, input.vfs_available) ==> r is Err,
        r is Err && !registration_conflict(input.modules@, *input.config, input.promoted_partitions@, input.vfs_available)
            ==> exists|t: MountNode| #[trigger] tree_ids_in(t, eligible_ids(input.modules@, *input.config)) && (forall|j: int, i: int|
            0 <= j < input.modules@.len() && eligible(input.modules@[j], *input.config) && 0 <= i < input.modules@[j].entries@.len()
            && planned_entry(input.modules@[j], i, input.promoted_partitions@) ==> #[trigger] entry_in_tree(t, input.modules@[j], i,
            *input.config, input.promoted_partitions@, input.vfs_available)) && !(replace_consistent(t) && vfs_unshadowed(t, false)
            && vfs_opaque_exclusive(t, false)),
{
    let modules = input.modules;
    let config = input.config;
    let promoted = input.promoted_partitions;
    let vfs_available = input.vfs_available;
    let order = order_by_id(modules);
    let mut builder = PlanBuilder::new();
    let ghost mods = modules@;
    let ghost allowed = eligible_ids(modules@, *config);
    proof {
        empty_tree_ids_in(builder.tree.root, allowed);
        lemma_state_start(builder, mods, order@, *config, promoted@, vfs_available);
        assert forall|t: Seq<char>, md: Mode, ft: NodeFileType, rp: bool|
            #[trigger] holds_attr(assigned_at(builder.assignments@, t), md, ft, rp) <==> exists|i: int, e: int|
                #[trigger] claimed(mods, order@, 0, *config, promoted@, vfs_available, i, e) && attrs_match(mods, i, e, *config, promoted@, vfs_available, t, md, ft, rp) by {
        }
    }
    let mut n: usize = 0;
    while n < order.len()
        invariant
            0 <= n <= order@.len(),
            mods == modules@,
            modules@ == input.modules@,
            *config == *input.config,
            promoted@ == input.promoted_partitions@,
            vfs_available == input.vfs_available,
            claims_hold(mods, order@, n as int, *config, promoted@, vfs_available, builder.assignments@),
            claims_clean(mods, order@, n as int, *config, promoted@, vfs_available),
            allowed == eligible_ids(modules@, *config),
            tree_ids_in(builder.tree.root, allowed),
            modules_in_tree(mods, order@, n as int, *config, promoted@, vfs_available, builder.tree.root),
            overlay_state(builder, mods, order@, n as int, *config, promoted@, vfs_available),
            forall|i: int| 0 <= i < order@.len() ==> #[trigger] order@[i] < modules@.len(),
            forall|j: int| 0 <= j < modules@.len() ==> #[trigger] covers(order@, j),
            sorted_names(builder.overlay_module_ids@),
            sorted_names(builder.magic_module_ids@),
            sorted_names(builder.vfs_module_ids@),
            forall|x: Seq<char>| #[trigger] has_name(builder.magic_module_ids@, x) <==> exists|i: int| 0 <= i < n
                && #[trigger] visited(mods, order@[i] as int, *config, promoted@, vfs_available, x, Mode::Magic),
            forall|x: Seq<char>| #[trigger] has_name(builder.vfs_module_ids@, x) <==> exists|i: int| 0 <= i < n
                && #[trigger] visited(mods, order@[i] as int, *config, promoted@, vfs_available, x, Mode::Vfs),
            forall|x: Seq<char>| #[trigger] has_name(builder.overlay_module_ids@, x) ==> exists|i: int| 0 <= i < n
                && #[trigger] visited(mods, order@[i] as int, *config, promoted@, vfs_available, x, Mode::Overlay),
        decreases order@.len() - n,
    {
        let m = &modules[order[n]];
        let ghost k = order@[n as int] as int;
        let ghost magic0 = builder.magic_module_ids@;
        let ghost vfs0 = builder.vfs_module_ids@;
        let ghost ov0 = builder.overlay_module_ids@;
        let ghost a_before = builder.assignments@;
        let ghost root_before = builder.tree.root;
        let ghost b_before = builder;
        if m.mountable() && !config.is_module_blacklisted(m.id.as_str()) {
            proof {
                assert(modules@[k].id@ == m.id@);
                assert(allowed.contains(m.id@));
                assert(eligible(mods[k], *config));
            }
            let rules = ModuleRulesView::new(m.id.as_str(), config, vfs_available);
            let planned = process_module(m, &rules, promoted, &mut builder, Ghost(*config), Ghost(vfs_available));
            match planned {
                Ok(()) => {
                    proof {
                        lemma_module_step(mods, order@, n as int, *config, promoted@, vfs_available, a_before, builder.assignments@);
                        lemma_modules_kept(mods, order@, n as int, *config, promoted@, vfs_available, root_before, builder.tree.root);
                        lemma_state_step(b_before, builder, mods, order@, n as int, *config, promoted@, vfs_available);
                    }
                },
                Err(e) => {
                    proof {
                        lemma_conflict_found(mods, order@, n as int, *config, promoted@, vfs_available, a_before);
                        assert(registration_conflict(input.modules@, *input.config, input.promoted_partitions@, input.vfs_available));
                    }
                    return Err(e);
                },
            }
        } else {
            proof {
                assert(!eligible(mods[k], *config));
                lemma_skip_step(mods, order@, n as int, *config, promoted@, vfs_available, a_before);
                lemma_keeps_same(root_before);
                lemma_modules_kept(mods, order@, n as int, *config, promoted@, vfs_available, root_before, builder.tree.root);
                lemma_state_step(b_before, builder, mods, order@, n as int, *config, promoted@, vfs_available);
            }
        }
        proof {
            reveal(visited);
            assert forall|x: Seq<char>| #[trigger] has_name(builder.magic_module_ids@, x) <==> exists|i: int| 0 <= i < n + 1
                && #[trigger] visited(mods, order@[i] as int, *config, promoted@, vfs_available, x, Mode::Magic) by {
                lemma_visited_step(mods, order@, n as int, *config, promoted@, vfs_available, x, Mode::Magic, has_name(magic0, x), has_name(builder.magic_module_ids@, x));
            }
            assert forall|x: Seq<char>| #[trigger] has_name(builder.vfs_module_ids@, x) <==> exists|i: int| 0 <= i < n + 1
                && #[trigger] visited(mods, order@[i] as int, *config, promoted@, vfs_available, x, Mode::Vfs) by {
                lemma_visited_step(mods, order@, n as int, *config, promoted@, vfs_available, x, Mode::Vfs, has_name(vfs0, x), has_name(builder.vfs_module_ids@, x));
            }
            assert forall|x: Seq<char>| #[trigger] has_name(builder.overlay_module_ids@, x) implies exists|i: int| 0 <= i < n + 1
                && #[trigger] visited(mods, order@[i] as int, *config, promoted@, vfs_available, x, Mode::Overlay) by {
                if has_name(ov0, x) {
                    let i = choose|i: int| 0 <= i < n && #[trigger] visited(mods, order@[i] as int, *config, promoted@, vfs_available, x, Mode::Overlay);
                    assert(visited(mods, order@[i] as int, *config, promoted@, vfs_available, x, Mode::Overlay));
                } else {
                    assert(visited(mods, order@[n as int] as int, *config, promoted@, vfs_available, x, Mode::Overlay));
                }
            }
        }
        n = n + 1;
    }
    proof {
        lemma_all_clean(mods, order@, *config, promoted@, vfs_available);
        lemma_all_modules_in_tree(mods, order@, *config, promoted@, vfs_available, builder.tree.root);
    }
    ensure_replace_backend_consistency(&builder.tree.root, "")?;
    ensure_vfs_not_shadowed(&builder.tree.root, "", None)?;
    ensure_vfs_opaque_exclusive(&builder.tree.root, "", None)?;
    proof {
        lemma_visited_all(mods, order@, *config, promoted@, vfs_available);
    }
    let ghost b_end = builder;
    let plan = builder.finish();
    proof {
        lemma_state_final(b_end, plan, mods, order@, *config, promoted@, vfs_available);
    }
    Ok(plan)
}

/// Among the first `n` modules of `order`, an eligible one with id `x` gives
/// layer `s` at `t` on partition `p`.
spec fn done_layer(mods: Seq<ModuleRecord>, order: Seq<usize>, n: int, config: Config, promoted: Seq<String>, vfs_available: bool, p: Seq<char>, t: Seq<char>, x: Seq<char>, s: Seq<char>) -> bool {
    exists|jj: int| 0 <= jj < n && eligible(mods[order[jj] as int], config) && mods[order[jj] as int].id@ == x
        && #[trigger] module_layer(mods[order[jj] as int], config, promoted, vfs_available, p, t, s)
}

/// Among the first `n` modules of `order`, an eligible one with id `x` gives
/// file source `s` under `t`.
spec fn done_file(mods: Seq<ModuleRecord>, order: Seq<usize>, n: int, config: Config, promoted: Seq<String>, vfs_available: bool, t: Seq<char>, x: Seq<char>, s: Seq<char>) -> bool {
    exists|jj: int| 0 <= jj < n && eligible(mods[order[jj] as int], config) && mods[order[jj] as int].id@ == x
        && #[trigger] module_file(mods[order[jj] as int], config, promoted, vfs_available, t, s)
}

/// Among the first `n` modules of `order`, an eligible one with id `x`
/// contributes to the OverlayFS part.
spec fn done_contrib(mods: Seq<ModuleRecord>, order: Seq<usize>, n: int, config: Config, promoted: Seq<String>, vfs_available: bool, x: Seq<char>) -> bool {
    exists|jj: int| 0 <= jj < n && eligible(mods[order[jj] as int], config) && mods[order[jj] as int].id@ == x
        && #[trigger] contributes_overlay(mods[order[jj] as int], config, promoted, vfs_available)
}

/// The OverlayFS part of `b` is that of the first `n` modules of `order`.
spec fn overlay_state(b: PlanBuilder, mods: Seq<ModuleRecord>, order: Seq<usize>, n: int, config: Config, promoted: Seq<String>, vfs_available: bool) -> bool {
    &&& sorted_names(b.overlay_module_ids@)
    &&& ops_ordered(b.overlay_by_target@)
    &&& files_ordered(b.overlay_files_by_target@)
    &&& forall|t: Seq<char>, x: Seq<char>, s: Seq<char>| #[trigger] op_layer(b.overlay_by_target@, t, x, s)
        ==> exists|p: Seq<char>| done_layer(mods, order, n, config, promoted, vfs_available, p, t, x, s)
    &&& forall|p: Seq<char>, t: Seq<char>, x: Seq<char>, s: Seq<char>| #[trigger] done_layer(mods, order, n, config, promoted, vfs_available, p, t, x, s)
        ==> op_has(b.overlay_by_target@, t, x)
    &&& forall|t: Seq<char>, p: Seq<char>| #[trigger] op_partition(b.overlay_by_target@, t, p)
        ==> exists|x: Seq<char>, s: Seq<char>| done_layer(mods, order, n, config, promoted, vfs_available, p, t, x, s)
    &&& forall|t: Seq<char>, x: Seq<char>, s: Seq<char>| #[trigger] file_has(b.overlay_files_by_target@, t, x, s)
        <==> done_file(mods, order, n, config, promoted, vfs_available, t, x, s)
    &&& forall|x: Seq<char>| #[trigger] has_name(b.overlay_module_ids@, x) <==> done_contrib(mods, order, n, config, promoted, vfs_available, x)
}

proof fn lemma_state_start(b: PlanBuilder, mods: Seq<ModuleRecord>, order: Seq<usize>, config: Config, promoted: Seq<String>, vfs_available: bool)
    requires
        b.overlay_by_target@.len() == 0,
        b.overlay_files_by_target@.len() == 0,
        b.overlay_module_ids@.len() == 0,
    ensures
        overlay_state(b, mods, order, 0, config, promoted, vfs_available),
{
}

/// One more module: its layers, files and id join the OverlayFS part when it
/// is eligible; nothing changes otherwise.
proof fn lemma_state_step(
    b0: PlanBuilder,
    b1: PlanBuilder,
    mods: Seq<ModuleRecord>,
    order: Seq<usize>,
    n: int,
    config: Config,
    promoted: Seq<String>,
    vfs_available: bool,
)
    requires
        overlay_state(b0, mods, order, n, config, promoted, vfs_available),
        0 <= n < order.len(),
        order[n] < mods.len(),
        eligible(mods[order[n] as int], config) ==> overlay_effect(b0, b1, mods[order[n] as int], config, promoted, vfs_available),
        !eligible(mods[order[n] as int], config) ==> b1.overlay_by_target == b0.overlay_by_target
            && b1.overlay_files_by_target == b0.overlay_files_by_target && b1.overlay_module_ids == b0.overlay_module_ids,
    ensures
        overlay_state(b1, mods, order, n + 1, config, promoted, vfs_available),
{
    let m = mods[order[n] as int];
    let el = eligible(m, config);
    let n1 = n + 1;
    assert forall|p: Seq<char>, t: Seq<char>, x: Seq<char>, s: Seq<char>|
        #![trigger done_layer(mods, order, n1, config, promoted, vfs_available, p, t, x, s)]
        #![trigger done_layer(mods, order, n, config, promoted, vfs_available, p, t, x, s)]
        done_layer(mods, order, n1, config, promoted, vfs_available, p, t, x, s)
        <==> done_layer(mods, order, n, config, promoted, vfs_available, p, t, x, s) || (el && m.id@ == x && module_layer(m, config, promoted, vfs_available, p, t, s)) by {
        if done_layer(mods, order, n1, config, promoted, vfs_available, p, t, x, s) {
            let jj = choose|jj: int| 0 <= jj < n1 && eligible(mods[order[jj] as int], config) && mods[order[jj] as int].id@ == x
                && #[trigger] module_layer(mods[order[jj] as int], config, promoted, vfs_available, p, t, s);
            if jj < n {
                assert(done_layer(mods, order, n, config, promoted, vfs_available, p, t, x, s));
            }
        }
        if el && m.id@ == x && module_layer(m, config, promoted, vfs_available, p, t, s) {
            assert(module_layer(mods[order[n] as int], config, promoted, vfs_available, p, t, s));
        }
    }
    assert forall|t: Seq<char>, x: Seq<char>, s: Seq<char>|
        #![trigger done_file(mods, order, n1, config, promoted, vfs_available, t, x, s)]
        #![trigger done_file(mods, order, n, config, promoted, vfs_available, t, x, s)]
        done_file(mods, order, n1, config, promoted, vfs_available, t, x, s)
        <==> done_file(mods, order, n, config, promoted, vfs_available, t, x, s) || (el && m.id@ == x && module_file(m, config, promoted, vfs_available, t, s)) by {
        if done_file(mods, order, n1, config, promoted, vfs_available, t, x, s) {
            let jj = choose|jj: int| 0 <= jj < n1 && eligible(mods[order[jj] as int], config) && mods[order[jj] as int].id@ == x
                && #[trigger] module_file(mods[order[jj] as int], config, promoted, vfs_available, t, s);
            if jj < n {
                assert(done_file(mods, order, n, config, promoted, vfs_available, t, x, s));
            }
        }
        if el && m.id@ == x && module_file(m, config, promoted, vfs_available, t, s) {
            assert(module_file(mods[order[n] as int], config, promoted, vfs_available, t, s));
        }
    }
    assert forall|x: Seq<char>|
        #![trigger done_contrib(mods, order, n1, config, promoted, vfs_available, x)]
        #![trigger done_contrib(mods, order, n, config, promoted, vfs_available, x)]
        done_contrib(mods, order, n1, config, promoted, vfs_available, x)
        <==> done_contrib(mods, order, n, config, promoted, vfs_available, x) || (el && m.id@ == x && contributes_overlay(m, config, promoted, vfs_available)) by {
        if done_contrib(mods, order, n1, config, promoted, vfs_available, x) {
            let jj = choose|jj: int| 0 <= jj < n1 && eligible(mods[order[jj] as int], config) && mods[order[jj] as int].id@ == x
                && #[trigger] contributes_overlay(mods[order[jj] as int], config, promoted, vfs_available);
            if jj < n {
                assert(done_contrib(mods, order, n, config, promoted, vfs_available, x));
            }
        }
        if el && m.id@ == x && contributes_overlay(m, config, promoted, vfs_available) {
            assert(contributes_overlay(mods[order[n] as int], config, promoted, vfs_available));
        }
    }
    let o0 = b0.overlay_by_target@;
    let o1 = b1.overlay_by_target@;
    assert forall|t: Seq<char>, x: Seq<char>, s: Seq<char>| #[trigger] op_layer(o1, t, x, s)
        implies exists|p: Seq<char>| done_layer(mods, order, n1, config, promoted, vfs_available, p, t, x, s) by {
        if op_layer(o0, t, x, s) {
            let p = choose|p: Seq<char>| done_layer(mods, order, n, config, promoted, vfs_available, p, t, x, s);
            assert(done_layer(mods, order, n1, config, promoted, vfs_available, p, t, x, s));
        } else {
            let p = choose|p: Seq<char>| module_layer(m, config, promoted, vfs_available, p, t, s);
            assert(done_layer(mods, order, n1, config, promoted, vfs_available, p, t, x, s));
        }
    }
    assert forall|p: Seq<char>, t: Seq<char>, x: Seq<char>, s: Seq<char>| #[trigger] done_layer(mods, order, n1, config, promoted, vfs_available, p, t, x, s)
        implies op_has(o1, t, x) by {
        if done_layer(mods, order, n, config, promoted, vfs_available, p, t, x, s) {
            assert(op_has(o0, t, x));
        } else {
            assert(module_layer(m, config, promoted, vfs_available, p, t, s));
        }
    }
    assert forall|t: Seq<char>, p: Seq<char>| #[trigger] op_partition(o1, t, p)
        implies exists|x: Seq<char>, s: Seq<char>| done_layer(mods, order, n1, config, promoted, vfs_available, p, t, x, s) by {
        if op_partition(o0, t, p) {
            let (x, s) = choose|x: Seq<char>, s: Seq<char>| done_layer(mods, order, n, config, promoted, vfs_available, p, t, x, s);
            assert(done_layer(mods, order, n1, config, promoted, vfs_available, p, t, x, s));
        } else {
            let s = choose|s: Seq<char>| module_layer(m, config, promoted, vfs_available, p, t, s);
            assert(done_layer(mods, order, n1, config, promoted, vfs_available, p, t, m.id@, s));
        }
    }
}

/// One finished overlay operation is planned.
proof fn lemma_op_planned(
    ops: Seq<OverlayTarget>,
    o: OverlayOperation,
    i: int,
    mods: Seq<ModuleRecord>,
    order: Seq<usize>,
    config: Config,
    promoted: Seq<String>,
    vfs_available: bool,
)
    requires
        0 <= i < ops.len(),
        op_matches(o, ops[i]),
        ops_ordered(ops),
        forall|i: int, i2: int| 0 <= i < ops.len() && 0 <= i2 < ops.len() && ops[i].target@ == ops[i2].target@ ==> i == i2,
        forall|t: Seq<char>, x: Seq<char>, s: Seq<char>| #[trigger] op_layer(ops, t, x, s)
            ==> exists|p: Seq<char>| planned_layer(mods, config, promoted, vfs_available, p, t, x, s),
        forall|p: Seq<char>, t: Seq<char>, x: Seq<char>, s: Seq<char>| #[trigger] planned_layer(mods, config, promoted, vfs_available, p, t, x, s)
            ==> op_has(ops, t, x),
        forall|t: Seq<char>, p: Seq<char>| #[trigger] op_partition(ops, t, p)
            ==> exists|x: Seq<char>, s: Seq<char>| planned_layer(mods, config, promoted, vfs_available, p, t, x, s),
    ensures
        op_planned(o, mods, config, promoted, vfs_available),
{
    let e = ops[i];
    let t = o.target@;
    assert(crate::plan::layers::layers_ordered(e.layers@));
    assert(op_partition(ops, t, o.partition@));
    let ids = Seq::new(e.layers@.len(), |k: int| e.layers@[k].0@);
    assert forall|a: int, c: int| 0 <= a < c < ids.len() implies lex_lt(#[trigger] ids[a], #[trigger] ids[c]) by {
        assert(lex_lt(e.layers@[a].0@, e.layers@[c].0@));
    }
    assert forall|k: int| #![trigger ids[k]] 0 <= k < ids.len() implies layer_planned_at(mods, config, promoted, vfs_available, o.target@, ids[k], o.lowerdirs@[k]@) by {
        assert(o.lowerdirs@[k]@ == e.layers@[k].1@);
        assert(e.layers@[k].0@ == ids[k]);
        assert(crate::plan::layers::layers_hold(e.layers@, ids[k], o.lowerdirs@[k]@));
        assert(ops[i].target@ == t);
        assert(op_layer(ops, t, ids[k], o.lowerdirs@[k]@));
        let p = choose|p: Seq<char>| planned_layer(mods, config, promoted, vfs_available, p, t, ids[k], o.lowerdirs@[k]@);
        assert(planned_layer(mods, config, promoted, vfs_available, p, o.target@, ids[k], o.lowerdirs@[k]@));
    }
    assert forall|p: Seq<char>, x: Seq<char>, s: Seq<char>| #[trigger] planned_layer(mods, config, promoted, vfs_available, p, t, x, s)
        implies exists|k: int| 0 <= k < ids.len() && #[trigger] ids[k] == x by {
        assert(op_has(ops, t, x));
        let i2 = choose|i2: int| 0 <= i2 < ops.len() && #[trigger] ops[i2].target@ == t && crate::plan::layers::layers_have(ops[i2].layers@, x);
        assert(ops[i].target@ == t);
        assert(i2 == i);
        let k = choose|k: int| 0 <= k < e.layers@.len() && #[trigger] e.layers@[k].0@ == x;
        assert(ids[k] == x);
    }
    assert(layers_by(o, ids, mods, config, promoted, vfs_available));
}

/// With every module done, the plan's OverlayFS part is the one the modules
/// give.
proof fn lemma_state_final(
    b: PlanBuilder,
    plan: MountPlan,
    mods: Seq<ModuleRecord>,
    order: Seq<usize>,
    config: Config,
    promoted: Seq<String>,
    vfs_available: bool,
)
    requires
        overlay_state(b, mods, order, order.len() as int, config, promoted, vfs_available),
        forall|i: int| 0 <= i < order.len() ==> #[trigger] order[i] < mods.len(),
        forall|j: int| 0 <= j < mods.len() ==> #[trigger] covers(order, j),
        plan.overlay_module_ids == b.overlay_module_ids,
        plan.overlay_ops@.len() == b.overlay_by_target@.len(),
        forall|i: int| 0 <= i < b.overlay_by_target@.len() ==> #[trigger] op_matches(plan.overlay_ops@[i], b.overlay_by_target@[i]),
        plan.overlay_files@.len() == b.overlay_files_by_target@.len(),
        forall|i: int| 0 <= i < b.overlay_files_by_target@.len() ==> #[trigger] files_match(plan.overlay_files@[i], b.overlay_files_by_target@[i]),
    ensures
        overlay_ops_planned(plan.overlay_ops@, mods, config, promoted, vfs_available),
        overlay_files_planned(plan.overlay_files@, mods, config, promoted, vfs_available),
        forall|x: Seq<char>| #[trigger] has_name(plan.overlay_module_ids@, x) <==> overlay_planned(mods, config, promoted, vfs_available, x),
{
    let nn = order.len() as int;
    let ops = b.overlay_by_target@;
    let fs = b.overlay_files_by_target@;
    let pops = plan.overlay_ops@;
    let pfs = plan.overlay_files@;
    assert forall|p: Seq<char>, t: Seq<char>, x: Seq<char>, s: Seq<char>|
        #![trigger planned_layer(mods, config, promoted, vfs_available, p, t, x, s)]
        #![trigger done_layer(mods, order, nn, config, promoted, vfs_available, p, t, x, s)]
        planned_layer(mods, config, promoted, vfs_available, p, t, x, s) <==> done_layer(mods, order, nn, config, promoted, vfs_available, p, t, x, s) by {
        if planned_layer(mods, config, promoted, vfs_available, p, t, x, s) {
            let j = choose|j: int| 0 <= j < mods.len() && eligible(mods[j], config) && mods[j].id@ == x && #[trigger] module_layer(mods[j], config, promoted, vfs_available, p, t, s);
            assert(covers(order, j));
            let jj = choose|jj: int| 0 <= jj < order.len() && #[trigger] order[jj] == j;
            assert(module_layer(mods[order[jj] as int], config, promoted, vfs_available, p, t, s));
        }
        if done_layer(mods, order, nn, config, promoted, vfs_available, p, t, x, s) {
            let jj = choose|jj: int| 0 <= jj < nn && eligible(mods[order[jj] as int], config) && mods[order[jj] as int].id@ == x
                && #[trigger] module_layer(mods[order[jj] as int], config, promoted, vfs_available, p, t, s);
            assert(order[jj] < mods.len());
            assert(module_layer(mods[order[jj] as int], config, promoted, vfs_available, p, t, s));
        }
    }
    assert forall|t: Seq<char>, x: Seq<char>, s: Seq<char>|
        #![trigger planned_file(mods, config, promoted, vfs_available, t, x, s)]
        #![trigger done_file(mods, order, nn, config, promoted, vfs_available, t, x, s)]
        planned_file(mods, config, promoted, vfs_available, t, x, s) <==> done_file(mods, order, nn, config, promoted, vfs_available, t, x, s) by {
        if planned_file(mods, config, promoted, vfs_available, t, x, s) {
            let j = choose|j: int| 0 <= j < mods.len() && eligible(mods[j], config) && mods[j].id@ == x && #[trigger] module_file(mods[j], config, promoted, vfs_available, t, s);
            assert(covers(order, j));
            let jj = choose|jj: int| 0 <= jj < order.len() && #[trigger] order[jj] == j;
            assert(module_file(mods[order[jj] as int], config, promoted, vfs_available, t, s));
        }
        if done_file(mods, order, nn, config, promoted, vfs_available, t, x, s) {
            let jj = choose|jj: int| 0 <= jj < nn && eligible(mods[order[jj] as int], config) && mods[order[jj] as int].id@ == x
                && #[trigger] module_file(mods[order[jj] as int], config, promoted, vfs_available, t, s);
            assert(order[jj] < mods.len());
            assert(module_file(mods[order[jj] as int], config, promoted, vfs_available, t, s));
        }
    }
    assert forall|x: Seq<char>| #[trigger] has_name(plan.overlay_module_ids@, x) <==> overlay_planned(mods, config, promoted, vfs_available, x) by {
        if overlay_planned(mods, config, promoted, vfs_available, x) {
            let j = choose|j: int| 0 <= j < mods.len() && eligible(mods[j], config) && mods[j].id@ == x && #[trigger] contributes_overlay(mods[j], config, promoted, vfs_available);
            assert(covers(order, j));
            let jj = choose|jj: int| 0 <= jj < order.len() && #[trigger] order[jj] == j;
            assert(contributes_overlay(mods[order[jj] as int], config, promoted, vfs_available));
            assert(done_contrib(mods, order, nn, config, promoted, vfs_available, x));
        }
        if has_name(plan.overlay_module_ids@, x) {
            assert(done_contrib(mods, order, nn, config, promoted, vfs_available, x));
            let jj = choose|jj: int| 0 <= jj < nn && eligible(mods[order[jj] as int], config) && mods[order[jj] as int].id@ == x
                && #[trigger] contributes_overlay(mods[order[jj] as int], config, promoted, vfs_available);
            assert(order[jj] < mods.len());
            assert(contributes_overlay(mods[order[jj] as int], config, promoted, vfs_available));
        }
    }
    // Targets are unique, so a target names one slot.
    assert forall|i: int, i2: int| 0 <= i < ops.len() && 0 <= i2 < ops.len() && ops[i].target@ == ops[i2].target@ implies i == i2 by {
        if i < i2 {
            assert(lex_lt(ops[i].target@, ops[i2].target@));
            lemma_lex_irreflexive(ops[i].target@);
        } else if i2 < i {
            assert(lex_lt(ops[i2].target@, ops[i].target@));
            lemma_lex_irreflexive(ops[i].target@);
        }
    }
    assert forall|i: int, i2: int| 0 <= i < fs.len() && 0 <= i2 < fs.len() && fs[i].0@ == fs[i2].0@ implies i == i2 by {
        if i < i2 {
            assert(lex_lt(fs[i].0@, fs[i2].0@));
            lemma_lex_irreflexive(fs[i].0@);
        } else if i2 < i {
            assert(lex_lt(fs[i2].0@, fs[i].0@));
            lemma_lex_irreflexive(fs[i].0@);
        }
    }
    assert forall|a: int, c: int| 0 <= a < c < pops.len() implies lex_lt(#[trigger] pops[a].target@, #[trigger] pops[c].target@) by {
        assert(op_matches(pops[a], ops[a]));
        assert(op_matches(pops[c], ops[c]));
    }
    assert forall|i: int| 0 <= i < pops.len() implies #[trigger] op_planned(pops[i], mods, config, promoted, vfs_available) by {
        lemma_op_planned(ops, pops[i], i, mods, order, config, promoted, vfs_available);
    }
    assert forall|p: Seq<char>, t: Seq<char>, x: Seq<char>, s: Seq<char>| #[trigger] planned_layer(mods, config, promoted, vfs_available, p, t, x, s)
        implies exists|i: int| 0 <= i < pops.len() && #[trigger] pops[i].target@ == t by {
        assert(done_layer(mods, order, nn, config, promoted, vfs_available, p, t, x, s));
        assert(op_has(ops, t, x));
        let i = choose|i: int| 0 <= i < ops.len() && #[trigger] ops[i].target@ == t && crate::plan::layers::layers_have(ops[i].layers@, x);
        assert(op_matches(pops[i], ops[i]));
        assert(pops[i].target@ == t);
    }
    assert forall|a: int, c: int| 0 <= a < c < pfs.len() implies lex_lt(#[trigger] pfs[a].0@, #[trigger] pfs[c].0@) by {
        assert(files_match(pfs[a], fs[a]));
        assert(files_match(pfs[c], fs[c]));
    }
    assert forall|i: int| 0 <= i < pfs.len() implies #[trigger] file_list_planned(pfs[i], mods, config, promoted, vfs_available) by {
        let f = pfs[i];
        let e = fs[i];
        assert(files_match(f, e));
        let t = f.0@;
        assert(crate::plan::layers::pairs_ordered(e.1@));
        let ids = Seq::new(e.1@.len(), |k: int| e.1@[k].0@);
        assert forall|a: int, c: int| 0 <= a < c < ids.len() implies crate::mount_tree::pair_lt(#[trigger] ids[a], f.1@[a]@, #[trigger] ids[c], f.1@[c]@) by {
            assert(crate::mount_tree::pair_lt(e.1@[a].0@, e.1@[a].1@, e.1@[c].0@, e.1@[c].1@));
            assert(f.1@[a]@ == e.1@[a].1@);
            assert(f.1@[c]@ == e.1@[c].1@);
        }
        assert forall|k: int| #![trigger ids[k]] 0 <= k < ids.len() implies planned_file(mods, config, promoted, vfs_available, t, ids[k], f.1@[k]@) by {
            assert(f.1@[k]@ == e.1@[k].1@);
            assert(crate::plan::layers::layers_hold(e.1@, ids[k], f.1@[k]@));
            assert(file_has(fs, t, ids[k], f.1@[k]@));
            assert(done_file(mods, order, nn, config, promoted, vfs_available, t, ids[k], f.1@[k]@));
        }
        assert forall|x: Seq<char>, s: Seq<char>| #[trigger] planned_file(mods, config, promoted, vfs_available, t, x, s)
            implies exists|k: int| 0 <= k < ids.len() && #[trigger] ids[k] == x && f.1@[k]@ == s by {
            assert(done_file(mods, order, nn, config, promoted, vfs_available, t, x, s));
            assert(file_has(fs, t, x, s));
            let i2 = choose|i2: int| 0 <= i2 < fs.len() && #[trigger] fs[i2].0@ == t && crate::plan::layers::layers_hold(fs[i2].1@, x, s);
            assert(i2 == i);
            let k = choose|k: int| 0 <= k < e.1@.len() && #[trigger] e.1@[k].0@ == x && e.1@[k].1@ == s;
            assert(ids[k] == x && f.1@[k]@ == s);
        }
        assert(files_by(f, ids, mods, config, promoted, vfs_available));
    }
    assert forall|t: Seq<char>, x: Seq<char>, s: Seq<char>| #[trigger] planned_file(mods, config, promoted, vfs_available, t, x, s)
        implies exists|i: int| 0 <= i < pfs.len() && #[trigger] pfs[i].0@ == t by {
        assert(done_file(mods, order, nn, config, promoted, vfs_available, t, x, s));
        assert(file_has(fs, t, x, s));
        let i = choose|i: int| 0 <= i < fs.len() && #[trigger] fs[i].0@ == t && crate::plan::layers::layers_hold(fs[i].1@, x, s);
        assert(files_match(pfs[i], fs[i]));
    }
}

/// Every planned entry of each eligible module among the first `n` of
/// `order` stands in the tree `t`.
spec fn modules_in_tree(
    mods: Seq<ModuleRecord>,
    order: Seq<usize>,
    n: int,
    config: Config,
    promoted: Seq<String>,
    vfs_available: bool,
    t: MountNode,
) -> bool {
    forall|j: int, i: int|
        0 <= j < mods.len() && eligible(mods[j], config) && (exists|jj: int| 0 <= jj < n && #[trigger] order[jj] as int == j)
            && 0 <= i < mods[j].entries@.len() && planned_entry(mods[j], i, promoted) ==> #[trigger] entry_in_tree(
            t,
            mods[j],
            i,
            config,
            promoted,
            vfs_available,
        )
}

proof fn lemma_modules_kept(
    mods: Seq<ModuleRecord>,
    order: Seq<usize>,
    n: int,
    config: Config,
    promoted: Seq<String>,
    vfs_available: bool,
    before: MountNode,
    after: MountNode,
)
    requires
        0 <= n < order.len(),
        order[n] < mods.len(),
        tree_keeps(before, after),
        modules_in_tree(mods, order, n, config, promoted, vfs_available, before),
        eligible(mods[order[n] as int], config) ==> forall|i: int| 0 <= i < mods[order[n] as int].entries@.len()
            && planned_entry(mods[order[n] as int], i, promoted) ==> #[trigger] entry_in_tree(
            after,
            mods[order[n] as int],
            i,
            config,
            promoted,
            vfs_available,
        ),
    ensures
        modules_in_tree(mods, order, n + 1, config, promoted, vfs_available, after),
{
    assert forall|j: int, i: int|
        0 <= j < mods.len() && eligible(mods[j], config) && (exists|jj: int| 0 <= jj < n + 1 && #[trigger] order[jj] as int == j)
            && 0 <= i < mods[j].entries@.len() && planned_entry(mods[j], i, promoted) implies #[trigger] entry_in_tree(
            after,
            mods[j],
            i,
            config,
            promoted,
            vfs_available,
        ) by {
        let jj = choose|jj: int| 0 <= jj < n + 1 && #[trigger] order[jj] as int == j;
        if jj < n {
            assert(entry_in_tree(before, mods[j], i, config, promoted, vfs_available));
            lemma_keeps_holds(
                before,
                after,
                entry_target(mods[j], i, promoted),
                entry_mode(mods[j], i, config, vfs_available),
                mods[j].id@,
            );
        }
    }
}

proof fn lemma_all_modules_in_tree(
    mods: Seq<ModuleRecord>,
    order: Seq<usize>,
    config: Config,
    promoted: Seq<String>,
    vfs_available: bool,
    t: MountNode,
)
    requires
        modules_in_tree(mods, order, order.len() as int, config, promoted, vfs_available, t),
        forall|j: int| 0 <= j < mods.len() ==> #[trigger] covers(order, j),
    ensures
        forall|j: int, i: int| 0 <= j < mods.len() && eligible(mods[j], config) && 0 <= i < mods[j].entries@.len()
            && planned_entry(mods[j], i, promoted) ==> #[trigger] entry_in_tree(t, mods[j], i, config, promoted, vfs_available),
{
    assert forall|j: int, i: int| 0 <= j < mods.len() && eligible(mods[j], config) && 0 <= i < mods[j].entries@.len()
        && planned_entry(mods[j], i, promoted) implies #[trigger] entry_in_tree(t, mods[j], i, config, promoted, vfs_available) by {
        assert(covers(order, j));
        let jj = choose|jj: int| 0 <= jj < order.len() && #[trigger] order[jj] == j;
        assert(order[jj] as int == j);
    }
}

/// Module `k` of `modules` is mountable, not blacklisted, has id `x` and
/// decides `mode`.
#[verifier::opaque]
pub open spec fn visited(modules: Seq<ModuleRecord>, k: int, config: Config, promoted: Seq<String>, vfs_available: bool, x: Seq<char>, mode: Mode) -> bool {
    0 <= k < modules.len() && modules[k].id@ == x && modules[k].has_mount_files && !modules[k].disabled
        && !modules[k].skip_mount && !has_name(config.module_blacklist@, x) && module_decides(
        modules[k],
        config,
        promoted,
        vfs_available,
        mode,
    )
}

proof fn lemma_visited_step(
    mods: Seq<ModuleRecord>,
    order: Seq<usize>,
    n: int,
    config: Config,
    promoted: Seq<String>,
    vfs_available: bool,
    x: Seq<char>,
    mode: Mode,
    before: bool,
    after: bool,
)
    requires
        0 <= n < order.len(),
        before <==> exists|i: int| 0 <= i < n && #[trigger] visited(mods, order[i] as int, config, promoted, vfs_available, x, mode),
        after <==> before || visited(mods, order[n] as int, config, promoted, vfs_available, x, mode),
    ensures
        after <==> exists|i: int| 0 <= i < n + 1 && #[trigger] visited(mods, order[i] as int, config, promoted, vfs_available, x, mode),
{
    if after {
        if before {
            let i = choose|i: int| 0 <= i < n && #[trigger] visited(mods, order[i] as int, config, promoted, vfs_available, x, mode);
            assert(visited(mods, order[i] as int, config, promoted, vfs_available, x, mode));
        } else {
            assert(visited(mods, order[n] as int, config, promoted, vfs_available, x, mode));
        }
    }
    if exists|i: int| 0 <= i < n + 1 && #[trigger] visited(mods, order[i] as int, config, promoted, vfs_available, x, mode) {
        let i = choose|i: int| 0 <= i < n + 1 && #[trigger] visited(mods, order[i] as int, config, promoted, vfs_available, x, mode);
        if i < n {
            assert(before);
        }
    }
}

proof fn lemma_visited_all(mods: Seq<ModuleRecord>, order: Seq<usize>, config: Config, promoted: Seq<String>, vfs_available: bool)
    requires
        forall|i: int| 0 <= i < order.len() ==> #[trigger] order[i] < mods.len(),
        forall|j: int| 0 <= j < mods.len() ==> #[trigger] covers(order, j),
    ensures
        forall|x: Seq<char>, mode: Mode| (exists|i: int| 0 <= i < order.len() && #[trigger] visited(mods, order[i] as int, config, promoted, vfs_available, x, mode))
            <==> #[trigger] planned_with(mods, config, promoted, vfs_available, x, mode),
{
    reveal(visited);
    assert forall|x: Seq<char>, mode: Mode| (exists|i: int| 0 <= i < order.len() && #[trigger] visited(mods, order[i] as int, config, promoted, vfs_available, x, mode))
        <==> #[trigger] planned_with(mods, config, promoted, vfs_available, x, mode) by {
        if exists|i: int| 0 <= i < order.len() && #[trigger] visited(mods, order[i] as int, config, promoted, vfs_available, x, mode) {
            let i = choose|i: int| 0 <= i < order.len() && #[trigger] visited(mods, order[i] as int, config, promoted, vfs_available, x, mode);
            let k = order[i] as int;
            assert(mods[k].id@ == x);
        }
        if planned_with(mods, config, promoted, vfs_available, x, mode) {
            let k = choose|k: int|
                0 <= k < mods.len() && #[trigger] mods[k].id@ == x && mods[k].has_mount_files
                    && !mods[k].disabled && !mods[k].skip_mount && !has_name(config.module_blacklist@, x)
                    && module_decides(mods[k], config, promoted, vfs_available, mode);
            assert(covers(order, k));
            let i = choose|i: int| 0 <= i < order.len() && #[trigger] order[i] == k;
            assert(visited(mods, order[i] as int, config, promoted, vfs_available, x, mode));
        }
    }
}

} // verus!
