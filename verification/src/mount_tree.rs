//! Shared mount tree: one node per real mount target, carrying every module's
//! contribution to it.
//!
//! The scanner records node types and `.replace` / whiteout semantics, the
//! planner labels each contribution with a backend, and execution only reads
//! this tree. Children are kept ordered by name, and the contributions on a
//! node are kept ordered by module id and relative path, the order of the
//! OverlayFS lower layers.
use vstd::prelude::*;

use crate::config::Mode;
use crate::paths::{components, parent_of, split_components, trim, trimmed, views};
use crate::sys::mountinfo::{path_less, path_lt, path_same, same_path};
use crate::text::{
    has_name, insert_name, lemma_lex_total, lemma_lex_transitive, lex_lt, owned, sorted_names, str_eq, str_lt,
};

verus! {

/// Node types recorded by the scanner and consumed by each backend.
#[derive(Clone, Copy, Debug, PartialEq, Eq, Hash, Structural)]
pub enum NodeFileType {
    RegularFile,
    Directory,
    Symlink,
    Whiteout,
}

impl NodeFileType {
    /// The type's name as shown in diagnostics.
    pub fn as_str(&self) -> (name: &'static str)
        ensures
            name@ == match *self {
                NodeFileType::RegularFile => "RegularFile"@,
                NodeFileType::Directory => "Directory"@,
                NodeFileType::Symlink => "Symlink"@,
                NodeFileType::Whiteout => "Whiteout"@,
            },
    {
        match self {
            NodeFileType::RegularFile => "RegularFile",
            NodeFileType::Directory => "Directory",
            NodeFileType::Symlink => "Symlink",
            NodeFileType::Whiteout => "Whiteout",
        }
    }
}

/// One module's contribution to a target node; `source_path` points into the
/// read-only module source.
#[derive(Debug)]
pub struct MountSource {
    pub module_id: String,
    pub relative: String,
    pub source_path: String,
    pub file_type: NodeFileType,
    pub replace: bool,
    pub backend: Mode,
}

/// A module directory that only carries contributions further down.
#[derive(Debug)]
pub struct StructuralSource {
    pub module_id: String,
    pub source_path: String,
}

/// A node keyed by its real mount target. One target can carry several
/// module layers for the same backend.
#[derive(Debug)]
pub struct MountNode {
    pub name: String,
    pub children: Vec<MountNode>,
    pub sources: Vec<MountSource>,
    pub structural_sources: Vec<StructuralSource>,
}

/// The first source at or after `i` for backend `b`, or -1.
pub open spec fn backend_index(s: Seq<MountSource>, b: Mode, i: int) -> int
    decreases s.len() - i,
{
    if i < 0 || i >= s.len() {
        -1
    } else if s[i].backend == b {
        i
    } else {
        backend_index(s, b, i + 1)
    }
}

/// The first directory source at or after `i`, or -1.
pub open spec fn directory_index(s: Seq<MountSource>, i: int) -> int
    decreases s.len() - i,
{
    if i < 0 || i >= s.len() {
        -1
    } else if s[i].file_type == NodeFileType::Directory {
        i
    } else {
        directory_index(s, i + 1)
    }
}

/// The first child at or after `i` named `name`, or -1.
pub open spec fn child_index(cs: Seq<MountNode>, name: Seq<char>, i: int) -> int
    decreases cs.len() - i,
{
    if i < 0 || i >= cs.len() {
        -1
    } else if cs[i].name@ == name {
        i
    } else {
        child_index(cs, name, i + 1)
    }
}

/// Whether `n` or a descendant carries a source for backend `b`.
pub open spec fn node_has(n: MountNode, b: Mode) -> bool
    decreases n,
{
    backend_index(n.sources@, b, 0) >= 0 || children_have(n.children@, b)
}

/// Whether some node of `cs`, or a descendant, carries a source for `b`.
pub open spec fn children_have(cs: Seq<MountNode>, b: Mode) -> bool
    decreases cs,
{
    if cs.len() == 0 {
        false
    } else {
        children_have(cs.drop_last(), b) || node_has(cs.last(), b)
    }
}

/// Whether the node at `path` below `n` exists and it, or a node below it,
/// carries a source of module `id` for `b`.
pub open spec fn subtree_ids(n: MountNode, path: Seq<Seq<char>>, b: Mode, id: Seq<char>) -> bool {
    lookup(n, path) matches Some(m) && node_has_id(m, b, id)
}

/// Whether the children of `n`, and those of every node below it, are ordered
/// by name with no name twice: the shape of a map keyed by child name.
pub open spec fn node_ordered(n: MountNode) -> bool
    decreases n,
{
    names_ascending(n.children@) && children_ordered(n.children@)
}

/// Whether the names of `cs` strictly ascend.
pub open spec fn names_ascending(cs: Seq<MountNode>) -> bool {
    forall|i: int, j: int| 0 <= i < j < cs.len() ==> lex_lt(#[trigger] cs[i].name@, #[trigger] cs[j].name@)
}

/// Whether every node of `cs` is ordered below itself.
pub open spec fn children_ordered(cs: Seq<MountNode>) -> bool
    decreases cs,
{
    if cs.len() == 0 {
        true
    } else {
        children_ordered(cs.drop_last()) && node_ordered(cs.last())
    }
}

/// Whether `n` or a descendant carries a source of module `id` for `b`.
pub open spec fn node_has_id(n: MountNode, b: Mode, id: Seq<char>) -> bool
    decreases n,
{
    own_id(n.sources@, b, id) || children_have_id(n.children@, b, id)
}

/// Whether some node of `cs`, or a descendant, carries module `id` for `b`.
pub open spec fn children_have_id(cs: Seq<MountNode>, b: Mode, id: Seq<char>) -> bool
    decreases cs,
{
    if cs.len() == 0 {
        false
    } else {
        children_have_id(cs.drop_last(), b, id) || node_has_id(cs.last(), b, id)
    }
}

/// Whether one of `s` is a source of module `id` for backend `b`.
pub open spec fn own_id(s: Seq<MountSource>, b: Mode, id: Seq<char>) -> bool {
    exists|i: int| 0 <= i < s.len() && #[trigger] s[i].backend == b && s[i].module_id@ == id
}

/// The number of nodes in `n`, itself included.
pub open spec fn node_total(n: MountNode) -> nat
    decreases n,
{
    1 + children_total(n.children@)
}

/// The number of nodes in `cs` and their descendants.
pub open spec fn children_total(cs: Seq<MountNode>) -> nat
    decreases cs,
{
    if cs.len() == 0 {
        0
    } else {
        children_total(cs.drop_last()) + node_total(cs.last())
    }
}

/// The node reached from `n` by following `path`, one child name per step.
pub open spec fn lookup(n: MountNode, path: Seq<Seq<char>>) -> Option<MountNode>
    decreases path.len(),
{
    if path.len() == 0 {
        Some(n)
    } else {
        let i = child_index(n.children@, path[0], 0);
        if i < 0 {
            None
        } else {
            lookup(n.children@[i], path.drop_first())
        }
    }
}

/// `(a1, a2)` orders strictly before `(b1, b2)`.
pub open spec fn pair_lt(a1: Seq<char>, a2: Seq<char>, b1: Seq<char>, b2: Seq<char>) -> bool {
    lex_lt(a1, b1) || (a1 == b1 && lex_lt(a2, b2))
}

/// Where a stable sort places a new source: after every source that does not
/// order strictly after it, searching from `i`.
pub open spec fn source_slot(s: Seq<MountSource>, m: Seq<char>, r: Seq<char>, i: int) -> int
    decreases s.len() - i,
{
    if i < 0 || i >= s.len() {
        s.len() as int
    } else if pair_lt(m, r, s[i].module_id@, s[i].relative@) {
        i
    } else {
        source_slot(s, m, r, i + 1)
    }
}

/// Where a new child named `name` goes among children ordered by name.
pub open spec fn child_slot(cs: Seq<MountNode>, name: Seq<char>, i: int) -> int
    decreases cs.len() - i,
{
    if i < 0 || i >= cs.len() {
        cs.len() as int
    } else if lex_lt(name, cs[i].name@) {
        i
    } else {
        child_slot(cs, name, i + 1)
    }
}

/// `p` with its last component removed `n` times.
pub open spec fn ancestor(p: Seq<char>, n: nat) -> Seq<char>
    decreases n,
{
    if n == 0 {
        p
    } else {
        parent_of(ancestor(p, (n - 1) as nat))
    }
}

/// The sources of the node at `path`, none when it does not exist.
pub open spec fn sources_at(n: MountNode, path: Seq<Seq<char>>) -> Seq<MountSource> {
    match lookup(n, path) {
        Some(x) => x.sources@,
        None => Seq::empty(),
    }
}

/// `r` is a path reading `p`.
pub open spec fn path_is(r: Option<&str>, p: Seq<char>) -> bool {
    r matches Some(x) && x@ == p
}

/// Whether a structural source of module `m` with path `p` is on `s`.
pub open spec fn has_structural(s: Seq<StructuralSource>, m: Seq<char>, p: Seq<char>) -> bool {
    exists|i: int| 0 <= i < s.len() && #[trigger] s[i].module_id@ == m && same_path(s[i].source_path@, p)
}

fn backend_position(s: &Vec<MountSource>, b: Mode) -> (r: usize)
    ensures
        r <= s@.len(),
        r < s@.len() <==> backend_index(s@, b, 0) >= 0,
        r < s@.len() ==> r == backend_index(s@, b, 0),
{
    let mut i: usize = 0;
    while i < s.len() && s[i].backend != b
        invariant
            0 <= i <= s@.len(),
            backend_index(s@, b, i as int) == backend_index(s@, b, 0),
        decreases s@.len() - i,
    {
        i = i + 1;
    }
    i
}

fn child_position(cs: &Vec<MountNode>, name: &str) -> (r: usize)
    ensures
        r <= cs@.len(),
        r < cs@.len() <==> child_index(cs@, name@, 0) >= 0,
        r < cs@.len() ==> r == child_index(cs@, name@, 0),
{
    let mut i: usize = 0;
    while i < cs.len() && !str_eq(cs[i].name.as_str(), name)
        invariant
            0 <= i <= cs@.len(),
            child_index(cs@, name@, i as int) == child_index(cs@, name@, 0),
        decreases cs@.len() - i,
    {
        i = i + 1;
    }
    i
}

/// Whether `(a1, a2)` orders strictly before `(b1, b2)`.
fn pair_less(a1: &str, a2: &str, b1: &str, b2: &str) -> (r: bool)
    ensures
        r == pair_lt(a1@, a2@, b1@, b2@),
{
    str_lt(a1, b1) || (str_eq(a1, b1) && str_lt(a2, b2))
}

impl MountNode {
    fn new_node(name: &str) -> (n: MountNode)
        ensures
            n.name@ == name@,
            n.children@.len() == 0,
            n.sources@.len() == 0,
            n.structural_sources@.len() == 0,
    {
        MountNode {
            name: owned(name),
            children: Vec::new(),
            sources: Vec::new(),
            structural_sources: Vec::new(),
        }
    }

    /// The winning contribution for this backend on this target: the first
    /// in layer order.
    pub fn source_for(&self, backend: Mode) -> (r: Option<&MountSource>)
        ensures
            backend_index(self.sources@, backend, 0) < 0 ==> r is None,
            backend_index(self.sources@, backend, 0) >= 0 ==> r == Some(
                &self.sources@[backend_index(self.sources@, backend, 0)],
            ),
    {
        let i = backend_position(&self.sources, backend);
        if i < self.sources.len() {
            Some(&self.sources[i])
        } else {
            None
        }
    }

    /// A directory that only carries descendants: the first directory source,
    /// else the first structural source.
    pub fn structural_path(&self) -> (r: Option<&str>)
        ensures
            directory_index(self.sources@, 0) >= 0 ==> path_is(r, self.sources@[directory_index(self.sources@, 0)].source_path@),
            directory_index(self.sources@, 0) < 0 && self.structural_sources@.len() > 0 ==> path_is(r, self.structural_sources@[0].source_path@),
            directory_index(self.sources@, 0) < 0 && self.structural_sources@.len() == 0 ==> r is None,
    {
        let mut i: usize = 0;
        while i < self.sources.len() && self.sources[i].file_type != NodeFileType::Directory
            invariant
                0 <= i <= self.sources@.len(),
                directory_index(self.sources@, i as int) == directory_index(self.sources@, 0),
            decreases self.sources@.len() - i,
        {
            i = i + 1;
        }
        if i < self.sources.len() {
            Some(self.sources[i].source_path.as_str())
        } else if self.structural_sources.len() > 0 {
            Some(self.structural_sources[0].source_path.as_str())
        } else {
            None
        }
    }

    /// Whether this node or a descendant carries a source for `backend`.
    pub fn has_backend(&self, backend: Mode) -> (r: bool)
        ensures
            r == node_has(*self, backend),
        decreases self,
    {
        let i = backend_position(&self.sources, backend);
        if i < self.sources.len() {
            return true;
        }
        self.children_have_backend(backend)
    }

    fn children_have_backend(&self, backend: Mode) -> (r: bool)
        ensures
            r == children_have(self.children@, backend),
        decreases self, 0nat,
    {
        let mut k: usize = 0;
        while k < self.children.len()
            invariant
                0 <= k <= self.children@.len(),
                !children_have(self.children@.subrange(0, k as int), backend),
            decreases self.children@.len() - k,
        {
            assert(self.children@.subrange(0, k + 1).drop_last() =~= self.children@.subrange(0, k as int));
            proof {
                assert(decreases_to!(self => self.children));
                assert(decreases_to!(self.children => self.children@));
                assert(decreases_to!(self.children@ => self.children@[k as int]));
            }
            if self.children[k].has_backend(backend) {
                assert(self.children@.subrange(0, k + 1).last() == self.children@[k as int]);
                proof {
                    lemma_children_have_grow(self.children@, k as int, backend);
                }
                return true;
            }
            k = k + 1;
        }
        assert(self.children@.subrange(0, self.children@.len() as int) =~= self.children@);
        false
    }

    /// The node type the executor sees: its own source's type, or a
    /// structural directory when only descendants carry the backend.
    pub fn file_type_for(&self, backend: Mode) -> (r: Option<NodeFileType>)
        ensures
            backend_index(self.sources@, backend, 0) >= 0 ==> r == Some(
                self.sources@[backend_index(self.sources@, backend, 0)].file_type,
            ),
            backend_index(self.sources@, backend, 0) < 0 && children_have(self.children@, backend)
                ==> r == Some(NodeFileType::Directory),
            backend_index(self.sources@, backend, 0) < 0 && !children_have(self.children@, backend)
                ==> r is None,
    {
        match self.source_for(backend) {
            Some(source) => Some(source.file_type),
            None => {
                if self.children_have_backend(backend) {
                    Some(NodeFileType::Directory)
                } else {
                    None
                }
            },
        }
    }

    /// The backend's own source path, else the structural directory path.
    pub fn module_path_for(&self, backend: Mode) -> (r: Option<&str>)
        ensures
            backend_index(self.sources@, backend, 0) >= 0 ==> path_is(r, self.sources@[backend_index(self.sources@, backend, 0)].source_path@),
            backend_index(self.sources@, backend, 0) < 0 && directory_index(self.sources@, 0) >= 0
                ==> path_is(r, self.sources@[directory_index(self.sources@, 0)].source_path@),
            backend_index(self.sources@, backend, 0) < 0 && directory_index(self.sources@, 0) < 0
                && self.structural_sources@.len() > 0 ==> path_is(r, self.structural_sources@[0].source_path@),
            backend_index(self.sources@, backend, 0) < 0 && directory_index(self.sources@, 0) < 0
                && self.structural_sources@.len() == 0 ==> r is None,
    {
        match self.source_for(backend) {
            Some(source) => Some(source.source_path.as_str()),
            None => self.structural_path(),
        }
    }

    /// Whether the backend's own source asks to replace the target directory.
    pub fn replace_for(&self, backend: Mode) -> (r: bool)
        ensures
            r == (backend_index(self.sources@, backend, 0) >= 0 && self.sources@[backend_index(
                self.sources@,
                backend,
                0,
            )].replace),
    {
        match self.source_for(backend) {
            Some(source) => source.replace,
            None => false,
        }
    }
}

proof fn lemma_children_have_grow(cs: Seq<MountNode>, k: int, b: Mode)
    requires
        0 <= k < cs.len(),
        node_has(cs[k], b),
    ensures
        children_have(cs, b),
    decreases cs.len() - k,
{
    if k == cs.len() - 1 {
        assert(cs.last() == cs[k]);
    } else {
        lemma_children_have_grow(cs.drop_last(), k, b);
    }
}

proof fn lemma_children_have_id_grow(cs: Seq<MountNode>, k: int, b: Mode, id: Seq<char>)
    requires
        0 <= k < cs.len(),
        node_has_id(cs[k], b, id),
    ensures
        children_have_id(cs, b, id),
    decreases cs.len() - k,
{
    if k == cs.len() - 1 {
        assert(cs.last() == cs[k]);
    } else {
        lemma_children_have_id_grow(cs.drop_last(), k, b, id);
    }
}

proof fn lemma_children_total_prefix(cs: Seq<MountNode>, k: int)
    requires
        0 <= k <= cs.len(),
    ensures
        children_total(cs.subrange(0, k)) <= children_total(cs),
    decreases cs.len() - k,
{
    if k < cs.len() {
        lemma_children_total_prefix(cs, k + 1);
        assert(cs.subrange(0, k + 1).drop_last() =~= cs.subrange(0, k));
    } else {
        assert(cs.subrange(0, k) =~= cs);
    }
}

/// A node without children has only itself on any lookup.
proof fn lemma_lookup_leaf(n: MountNode, path: Seq<Seq<char>>)
    requires
        n.children@.len() == 0,
        path.len() > 0,
    ensures
        lookup(n, path) is None,
{
    assert(child_index(n.children@, path[0], 0) == -1);
}

/// Lookup through a child: the first step picks the first child with the name.
proof fn lemma_lookup_step(n: MountNode, path: Seq<Seq<char>>, i: int)
    requires
        path.len() > 0,
        0 <= i < n.children@.len(),
        n.children@[i].name@ == path[0],
        forall|j: int| 0 <= j < i ==> #[trigger] n.children@[j].name@ != path[0],
    ensures
        lookup(n, path) == lookup(n.children@[i], path.drop_first()),
{
    lemma_child_index_first(n.children@, path[0], 0, i);
}

proof fn lemma_child_index_first(cs: Seq<MountNode>, name: Seq<char>, from: int, i: int)
    requires
        0 <= from <= i < cs.len(),
        cs[i].name@ == name,
        forall|j: int| from <= j < i ==> #[trigger] cs[j].name@ != name,
    ensures
        child_index(cs, name, from) == i,
    decreases i - from,
{
    if from < i {
        lemma_child_index_first(cs, name, from + 1, i);
    }
}

proof fn lemma_child_index_facts(cs: Seq<MountNode>, name: Seq<char>, from: int)
    requires
        0 <= from <= cs.len(),
    ensures
        child_index(cs, name, from) == -1 || (from <= child_index(cs, name, from) < cs.len()
            && cs[child_index(cs, name, from)].name@ == name),
        child_index(cs, name, from) == -1 ==> forall|j: int| from <= j < cs.len() ==> #[trigger] cs[j].name@ != name,
        child_index(cs, name, from) >= 0 ==> forall|j: int| from <= j < child_index(cs, name, from) ==> #[trigger] cs[j].name@ != name,
    decreases cs.len() - from,
{
    if from < cs.len() {
        lemma_child_index_facts(cs, name, from + 1);
    }
}

/// The path a structural source records at a level that keeps `kept`
/// components of the contribution's relative path.
pub open spec fn structural_expected(path: Seq<char>, rel_len: int, kept: int) -> Seq<char> {
    if kept < rel_len {
        ancestor(path, (rel_len - kept) as nat)
    } else {
        path
    }
}

/// Whether the level keeping `kept` components records a structural source.
pub open spec fn is_structural_level(source: MountSource, rel_len: int, kept: int) -> bool {
    kept < rel_len || source.file_type == NodeFileType::Directory
}

/// What inserting `source` along `path` below `old` left in `new`: every
/// prefix of the path exists, the target node's sources gained `source` at
/// its stable-sort slot, and each structural level records the module's
/// directory for it. `kept0` is the number of relative components kept at the
/// first level of `path`.
pub open spec fn inserted_along(
    old: MountNode,
    new: MountNode,
    path: Seq<Seq<char>>,
    source: MountSource,
    rel_len: int,
    kept0: int,
) -> bool {
    &&& forall|m: int| 0 <= m <= path.len() ==> (#[trigger] lookup(new, path.take(m))) is Some
    &&& lookup(new, path) matches Some(n) && n.sources@ == stable_sorted(sources_at(old, path).push(source))
    &&& forall|m: int|
        1 <= m <= path.len() && is_structural_level(source, rel_len, kept0 + m - 1) ==> (
        #[trigger] lookup(new, path.take(m)) matches Some(x) && has_structural(
            x.structural_sources@,
            source.module_id@,
            structural_expected(source.source_path@, rel_len, kept0 + m - 1),
        ))
}

/// `s` with `x` placed after every element that does not order strictly after it.
pub open spec fn slotted(s: Seq<MountSource>, x: MountSource) -> Seq<MountSource> {
    s.insert(source_slot(s, x.module_id@, x.relative@, 0), x)
}

/// The stable sort of `s` by module id, then relative path.
pub open spec fn stable_sorted(s: Seq<MountSource>) -> Seq<MountSource>
    decreases s.len(),
{
    if s.len() == 0 {
        Seq::empty()
    } else {
        slotted(stable_sorted(s.drop_last()), s.last())
    }
}

/// `(m1, p1)` orders strictly before `(m2, p2)`: module id first, then the
/// path, component by component.
pub open spec fn structural_lt(m1: Seq<char>, p1: Seq<char>, m2: Seq<char>, p2: Seq<char>) -> bool {
    lex_lt(m1, m2) || (m1 == m2 && path_lt(p1, p2))
}

/// Where a stable sort places a new structural source, searching from `i`.
pub open spec fn structural_slot(s: Seq<StructuralSource>, m: Seq<char>, p: Seq<char>, i: int) -> int
    decreases s.len() - i,
{
    if i < 0 || i >= s.len() {
        s.len() as int
    } else if structural_lt(m, p, s[i].module_id@, s[i].source_path@) {
        i
    } else {
        structural_slot(s, m, p, i + 1)
    }
}

/// The stable sort of `s` by module id, then path.
pub open spec fn stable_sorted_structural(s: Seq<StructuralSource>) -> Seq<StructuralSource>
    decreases s.len(),
{
    if s.len() == 0 {
        Seq::empty()
    } else {
        let r = stable_sorted_structural(s.drop_last());
        r.insert(structural_slot(r, s.last().module_id@, s.last().source_path@, 0), s.last())
    }
}

proof fn lemma_insert_contains<A>(s: Seq<A>, p: int, x: A, y: A)
    requires
        0 <= p <= s.len(),
    ensures
        s.insert(p, x).contains(y) <==> s.contains(y) || y == x,
{
    let t = s.insert(p, x);
    if s.contains(y) {
        let j = choose|j: int| 0 <= j < s.len() && s[j] == y;
        if j < p {
            assert(t[j] == y);
        } else {
            assert(t[j + 1] == y);
        }
    }
    if y == x {
        assert(t[p] == y);
    }
    if t.contains(y) {
        let j = choose|j: int| 0 <= j < t.len() && t[j] == y;
        if j < p {
            assert(s[j] == y);
        } else if j > p {
            assert(s[j - 1] == y);
        }
    }
}

proof fn lemma_push_contains<A>(s: Seq<A>, y: A)
    requires
        s.len() > 0,
    ensures
        s.contains(y) <==> s.drop_last().contains(y) || y == s.last(),
{
    if s.contains(y) {
        let j = choose|j: int| 0 <= j < s.len() && s[j] == y;
        if j < s.len() - 1 {
            assert(s.drop_last()[j] == y);
        }
    }
    if s.drop_last().contains(y) {
        let j = choose|j: int| 0 <= j < s.drop_last().len() && s.drop_last()[j] == y;
        assert(s[j] == y);
    }
}

proof fn lemma_source_slot_bounds(s: Seq<MountSource>, m: Seq<char>, r: Seq<char>, i: int)
    requires
        0 <= i <= s.len(),
    ensures
        i <= source_slot(s, m, r, i) <= s.len(),
    decreases s.len() - i,
{
    if i < s.len() {
        lemma_source_slot_bounds(s, m, r, i + 1);
    }
}

proof fn lemma_structural_slot_bounds(s: Seq<StructuralSource>, m: Seq<char>, p: Seq<char>, i: int)
    requires
        0 <= i <= s.len(),
    ensures
        i <= structural_slot(s, m, p, i) <= s.len(),
    decreases s.len() - i,
{
    if i < s.len() {
        lemma_structural_slot_bounds(s, m, p, i + 1);
    }
}

/// Sorting keeps exactly the elements.
pub proof fn lemma_sorted_contains(s: Seq<MountSource>, y: MountSource)
    ensures
        stable_sorted(s).contains(y) <==> s.contains(y),
        stable_sorted(s).len() == s.len(),
    decreases s.len(),
{
    if s.len() > 0 {
        lemma_sorted_contains(s.drop_last(), y);
        let r = stable_sorted(s.drop_last());
        lemma_source_slot_bounds(r, s.last().module_id@, s.last().relative@, 0);
        lemma_insert_contains(r, source_slot(r, s.last().module_id@, s.last().relative@, 0), s.last(), y);
        lemma_push_contains(s, y);
    }
}

proof fn lemma_sorted_structural_contains(s: Seq<StructuralSource>, y: StructuralSource)
    ensures
        stable_sorted_structural(s).contains(y) <==> s.contains(y),
    decreases s.len(),
{
    if s.len() > 0 {
        lemma_sorted_structural_contains(s.drop_last(), y);
        let r = stable_sorted_structural(s.drop_last());
        lemma_structural_slot_bounds(r, s.last().module_id@, s.last().source_path@, 0);
        lemma_insert_contains(r, structural_slot(r, s.last().module_id@, s.last().source_path@, 0), s.last(), y);
        lemma_push_contains(s, y);
    }
}

fn place_source(sources: &mut Vec<MountSource>, source: MountSource)
    ensures
        final(sources)@ == slotted(old(sources)@, source),
{
    let mut p: usize = 0;
    while p < sources.len() && !pair_less(
        source.module_id.as_str(),
        source.relative.as_str(),
        sources[p].module_id.as_str(),
        sources[p].relative.as_str(),
    )
        invariant
            0 <= p <= sources@.len(),
            sources@ == old(sources)@,
            source_slot(sources@, source.module_id@, source.relative@, p as int) == source_slot(
                sources@,
                source.module_id@,
                source.relative@,
                0,
            ),
        decreases sources@.len() - p,
    {
        p = p + 1;
    }
    sources.insert(p, source);
}

/// Appends `source` and sorts the whole list again, stably, by module id and
/// relative path.
fn insert_source(sources: &mut Vec<MountSource>, source: MountSource)
    ensures
        final(sources)@ == stable_sorted(old(sources)@.push(source)),
{
    sources.push(source);
    let ghost all = sources@;
    let mut rest: Vec<MountSource> = Vec::new();
    std::mem::swap(&mut rest, sources);
    assert(all.take(0) =~= Seq::<MountSource>::empty());
    assert(rest@ =~= all.skip(0));
    let mut i: usize = 0;
    let n = rest.len();
    while rest.len() > 0
        invariant
            n == all.len(),
            i + rest@.len() == n,
            rest@ == all.skip(i as int),
            sources@ == stable_sorted(all.take(i as int)),
        decreases rest@.len(),
    {
        let x = rest.remove(0);
        proof {
            assert(x == all[i as int]);
            assert(rest@ =~= all.skip(i + 1));
            assert(all.take(i + 1).drop_last() =~= all.take(i as int));
            assert(all.take(i + 1).last() == all[i as int]);
        }
        place_source(sources, x);
        i = i + 1;
    }
    assert(all.take(n as int) =~= all);
}

fn place_structural(structural: &mut Vec<StructuralSource>, item: StructuralSource)
    ensures
        final(structural)@ == old(structural)@.insert(
            structural_slot(old(structural)@, item.module_id@, item.source_path@, 0),
            item,
        ),
{
    let mut p: usize = 0;
    while p < structural.len() && !(str_lt(item.module_id.as_str(), structural[p].module_id.as_str())
        || (str_eq(item.module_id.as_str(), structural[p].module_id.as_str()) && path_less(
        item.source_path.as_str(),
        structural[p].source_path.as_str(),
    )))
        invariant
            0 <= p <= structural@.len(),
            structural@ == old(structural)@,
            structural_slot(structural@, item.module_id@, item.source_path@, p as int) == structural_slot(
                structural@,
                item.module_id@,
                item.source_path@,
                0,
            ),
        decreases structural@.len() - p,
    {
        p = p + 1;
    }
    structural.insert(p, item);
}

fn record_structural(structural: &mut Vec<StructuralSource>, module_id: &str, path: String)
    ensures
        has_structural(final(structural)@, module_id@, path@),
        has_structural(old(structural)@, module_id@, path@) ==> final(structural)@ == old(structural)@,
        !has_structural(old(structural)@, module_id@, path@) ==> exists|item: StructuralSource| item.module_id@
            == module_id@ && item.source_path@ == path@ && final(structural)@ == stable_sorted_structural(
            old(structural)@.push(item),
        ),
{
    let mut i: usize = 0;
    while i < structural.len()
        invariant
            0 <= i <= structural@.len(),
            structural@ == old(structural)@,
            forall|j: int| 0 <= j < i ==> !(#[trigger] structural@[j].module_id@ == module_id@
                && same_path(structural@[j].source_path@, path@)),
        decreases structural@.len() - i,
    {
        if str_eq(structural[i].module_id.as_str(), module_id) && path_same(
            structural[i].source_path.as_str(),
            path.as_str(),
        ) {
            assert(structural@[i as int].module_id@ == module_id@);
            return;
        }
        i = i + 1;
    }
    let item = StructuralSource { module_id: owned(module_id), source_path: path };
    let ghost it = item;
    assert(!has_structural(structural@, it.module_id@, it.source_path@));
    structural.push(item);
    let ghost all = structural@;
    let mut rest: Vec<StructuralSource> = Vec::new();
    std::mem::swap(&mut rest, structural);
    assert(all.take(0) =~= Seq::<StructuralSource>::empty());
    assert(rest@ =~= all.skip(0));
    let mut k: usize = 0;
    let n = rest.len();
    while rest.len() > 0
        invariant
            n == all.len(),
            k + rest@.len() == n,
            rest@ == all.skip(k as int),
            structural@ == stable_sorted_structural(all.take(k as int)),
        decreases rest@.len(),
    {
        let x = rest.remove(0);
        proof {
            assert(x == all[k as int]);
            assert(rest@ =~= all.skip(k + 1));
            assert(all.take(k + 1).drop_last() =~= all.take(k as int));
            assert(all.take(k + 1).last() == all[k as int]);
        }
        place_structural(structural, x);
        k = k + 1;
    }
    assert(all.take(n as int) =~= all);
    proof {
        lemma_sorted_structural_contains(all, it);
        assert(all[all.len() - 1] == it);
        assert(all.contains(it));
        let j = choose|j: int| 0 <= j < structural@.len() && structural@[j] == it;
        assert(structural@[j].module_id@ == module_id@);
    }
}

fn ancestor_path(path: &str, pops: usize) -> (r: String)
    ensures
        r@ == ancestor(path@, pops as nat),
{
    let mut current = owned(path);
    let mut c: usize = 0;
    while c < pops
        invariant
            0 <= c <= pops,
            current@ == ancestor(path@, c as nat),
        decreases pops - c,
    {
        current = crate::paths::parent_path(current.as_str());
        c = c + 1;
    }
    current
}

proof fn lemma_children_ids(cs: Seq<MountNode>, b: Mode, x: Seq<char>)
    ensures
        children_have_id(cs, b, x) <==> exists|j: int| 0 <= j < cs.len() && #[trigger] node_has_id(cs[j], b, x),
    decreases cs.len(),
{
    if cs.len() > 0 {
        lemma_children_ids(cs.drop_last(), b, x);
        if children_have_id(cs.drop_last(), b, x) {
            let j = choose|j: int| 0 <= j < cs.drop_last().len() && #[trigger] node_has_id(cs.drop_last()[j], b, x);
            assert(cs[j] == cs.drop_last()[j]);
        }
        if exists|j: int| 0 <= j < cs.len() && #[trigger] node_has_id(cs[j], b, x) {
            let j = choose|j: int| 0 <= j < cs.len() && #[trigger] node_has_id(cs[j], b, x);
            if j < cs.len() - 1 {
                assert(cs.drop_last()[j] == cs[j]);
                assert(children_have_id(cs.drop_last(), b, x));
            } else {
                assert(node_has_id(cs.last(), b, x));
            }
        }
        if node_has_id(cs.last(), b, x) {
            assert(node_has_id(cs[cs.len() - 1], b, x));
        }
    }
}

proof fn lemma_children_ordered(cs: Seq<MountNode>)
    ensures
        children_ordered(cs) <==> forall|j: int| 0 <= j < cs.len() ==> #[trigger] node_ordered(cs[j]),
    decreases cs.len(),
{
    if cs.len() > 0 {
        let front = cs.drop_last();
        lemma_children_ordered(front);
        assert forall|j: int| 0 <= j < front.len() implies #[trigger] front[j] == cs[j] by {}
        if forall|j: int| 0 <= j < cs.len() ==> #[trigger] node_ordered(cs[j]) {
            assert forall|j: int| 0 <= j < front.len() implies #[trigger] node_ordered(front[j]) by {
                assert(front[j] == cs[j]);
            }
            assert(node_ordered(cs[cs.len() - 1]));
        }
        if children_ordered(cs) {
            assert forall|j: int| 0 <= j < cs.len() implies #[trigger] node_ordered(cs[j]) by {
                if j < front.len() {
                    assert(node_ordered(front[j]));
                }
            }
        }
    }
}

/// Replacing or adding one ordered child keeps a node ordered, when the new
/// child's name falls where the old one stood, or between its neighbours.
proof fn lemma_ordered_child_insert(
    old_node: MountNode,
    new_node: MountNode,
    old_child: MountNode,
    child: MountNode,
    pos: int,
    existed: bool,
)
    requires
        node_ordered(old_node),
        node_ordered(child),
        existed ==> 0 <= pos < old_node.children@.len() && old_node.children@[pos] == old_child && new_node.children@
            == old_node.children@.update(pos, child) && child.name@ == old_child.name@,
        !existed ==> 0 <= pos <= old_node.children@.len() && new_node.children@ == old_node.children@.insert(pos, child),
        !existed ==> forall|j: int| 0 <= j < pos ==> lex_lt(#[trigger] old_node.children@[j].name@, child.name@),
        !existed ==> forall|j: int| pos <= j < old_node.children@.len() ==> lex_lt(child.name@, #[trigger] old_node.children@[j].name@),
    ensures
        node_ordered(new_node),
{
    let ocs = old_node.children@;
    let ncs = new_node.children@;
    lemma_children_ordered(ocs);
    lemma_children_ordered(ncs);
    assert forall|j: int| 0 <= j < ncs.len() implies #[trigger] node_ordered(ncs[j]) by {
        if existed {
            if j != pos {
                assert(ncs[j] == ocs[j]);
            }
        } else if j < pos {
            assert(ncs[j] == ocs[j]);
        } else if j > pos {
            assert(ncs[j] == ocs[j - 1]);
        }
    }
    assert forall|i: int, j: int| 0 <= i < j < ncs.len() implies lex_lt(#[trigger] ncs[i].name@, #[trigger] ncs[j].name@) by {
        if existed {
            assert(ncs[i].name@ == ocs[i].name@);
            assert(ncs[j].name@ == ocs[j].name@);
        } else {
            if j < pos {
                assert(ncs[i] == ocs[i] && ncs[j] == ocs[j]);
            } else if j == pos {
                assert(ncs[i] == ocs[i]);
            } else if i == pos {
                assert(ncs[j] == ocs[j - 1]);
            } else if i < pos {
                assert(ncs[i] == ocs[i] && ncs[j] == ocs[j - 1]);
                lemma_lex_transitive(ocs[i].name@, child.name@, ocs[j - 1].name@);
            } else {
                assert(ncs[i] == ocs[i - 1] && ncs[j] == ocs[j - 1]);
            }
        }
    }
}

proof fn lemma_prefix_step(q: Seq<Seq<char>>, p: Seq<Seq<char>>)
    requires
        q.len() > 0,
        p.len() > 0,
        q[0] == p[0],
    ensures
        q.is_prefix_of(p) <==> q.drop_first().is_prefix_of(p.drop_first()),
{
    let q2 = q.drop_first();
    let p2 = p.drop_first();
    if q.is_prefix_of(p) {
        assert forall|j: int| 0 <= j < q2.len() implies q2[j] == p2.subrange(0, q2.len() as int)[j] by {
            assert(q[j + 1] == p.subrange(0, q.len() as int)[j + 1]);
        }
        assert(q2 =~= p2.subrange(0, q2.len() as int));
    }
    if q2.is_prefix_of(p2) {
        assert forall|j: int| 0 <= j < q.len() implies q[j] == p.subrange(0, q.len() as int)[j] by {
            if j > 0 {
                assert(q2[j - 1] == p2.subrange(0, q2.len() as int)[j - 1]);
            }
        }
        assert(q =~= p.subrange(0, q.len() as int));
    }
}

/// Adding a source at a node itself changes only what its own subtree holds.
proof fn lemma_subtree_ids_own(old_node: MountNode, new_node: MountNode, source: MountSource)
    requires
        new_node.children == old_node.children,
        forall|b: Mode, x: Seq<char>| #[trigger] node_has_id(new_node, b, x) <==> node_has_id(old_node, b, x) || (b
            == source.backend && x == source.module_id@),
    ensures
        forall|q: Seq<Seq<char>>, b: Mode, x: Seq<char>| lookup(new_node, q) is Some ==> (#[trigger] subtree_ids(
            new_node,
            q,
            b,
            x,
        ) <==> subtree_ids(old_node, q, b, x) || (q.is_prefix_of(Seq::<Seq<char>>::empty()) && b == source.backend
            && x == source.module_id@)),
{
    assert forall|q: Seq<Seq<char>>, b: Mode, x: Seq<char>| lookup(new_node, q) is Some implies (#[trigger] subtree_ids(
        new_node,
        q,
        b,
        x,
    ) <==> subtree_ids(old_node, q, b, x) || (q.is_prefix_of(Seq::<Seq<char>>::empty()) && b == source.backend
        && x == source.module_id@)) by {
        if q.len() == 0 {
            assert(q =~= Seq::<Seq<char>>::empty().subrange(0, 0));
            assert(node_has_id(new_node, b, x) <==> node_has_id(old_node, b, x) || (b == source.backend && x
                == source.module_id@));
        } else {
            assert(child_index(new_node.children@, q[0], 0) == child_index(old_node.children@, q[0], 0));
            assert(lookup(new_node, q) == lookup(old_node, q));
        }
    }
}

/// Adding a source below one child changes only what the subtrees on the
/// way to it hold.
proof fn lemma_subtree_ids_child(
    old_node: MountNode,
    new_node: MountNode,
    old_child: MountNode,
    mid_child: MountNode,
    child: MountNode,
    pos: int,
    existed: bool,
    rest: Seq<Seq<char>>,
    source: MountSource,
)
    requires
        rest.len() > 0,
        child.name@ == rest[0],
        old_child.name@ == rest[0],
        mid_child.children == old_child.children,
        mid_child.sources == old_child.sources,
        existed ==> 0 <= pos < old_node.children@.len() && old_node.children@[pos] == old_child && new_node.children@
            == old_node.children@.update(pos, child),
        !existed ==> 0 <= pos <= old_node.children@.len() && old_child.children@.len() == 0 && old_child.sources@.len() == 0
            && new_node.children@ == old_node.children@.insert(pos, child),
        existed ==> forall|j: int| 0 <= j < pos ==> #[trigger] old_node.children@[j].name@ != rest[0],
        !existed ==> forall|j: int| 0 <= j < old_node.children@.len() ==> #[trigger] old_node.children@[j].name@ != rest[0],
        forall|j: int| 0 <= j < pos ==> #[trigger] new_node.children@[j].name@ != rest[0],
        forall|b: Mode, x: Seq<char>| #[trigger] node_has_id(new_node, b, x) <==> node_has_id(old_node, b, x) || (b
            == source.backend && x == source.module_id@),
        forall|q: Seq<Seq<char>>, b: Mode, x: Seq<char>| lookup(child, q) is Some ==> (#[trigger] subtree_ids(
            child,
            q,
            b,
            x,
        ) <==> subtree_ids(mid_child, q, b, x) || (q.is_prefix_of(rest.drop_first()) && b == source.backend && x
            == source.module_id@)),
    ensures
        forall|q: Seq<Seq<char>>, b: Mode, x: Seq<char>| lookup(new_node, q) is Some ==> (#[trigger] subtree_ids(
            new_node,
            q,
            b,
            x,
        ) <==> subtree_ids(old_node, q, b, x) || (q.is_prefix_of(rest) && b == source.backend && x
            == source.module_id@)),
{
    let ocs = old_node.children@;
    let ncs = new_node.children@;
    assert forall|q: Seq<Seq<char>>, b: Mode, x: Seq<char>| lookup(new_node, q) is Some implies (#[trigger] subtree_ids(
        new_node,
        q,
        b,
        x,
    ) <==> subtree_ids(old_node, q, b, x) || (q.is_prefix_of(rest) && b == source.backend && x
        == source.module_id@)) by {
        if q.len() == 0 {
            assert(q =~= rest.subrange(0, 0));
            assert(node_has_id(new_node, b, x) <==> node_has_id(old_node, b, x) || (b == source.backend && x
                == source.module_id@));
        } else if q[0] == rest[0] {
            let q2 = q.drop_first();
            assert(ncs[pos] == child);
            lemma_lookup_step(new_node, q, pos);
            lemma_prefix_step(q, rest);
            assert(subtree_ids(new_node, q, b, x) == subtree_ids(child, q2, b, x));
            assert(subtree_ids(mid_child, q2, b, x) == subtree_ids(old_child, q2, b, x)) by {
                if q2.len() > 0 {
                    assert(child_index(mid_child.children@, q2[0], 0) == child_index(old_child.children@, q2[0], 0));
                    assert(lookup(mid_child, q2) == lookup(old_child, q2));
                } else {
                    assert(node_has_id(mid_child, b, x) == node_has_id(old_child, b, x));
                }
            }
            if existed {
                lemma_lookup_step(old_node, q, pos);
            } else {
                lemma_child_index_facts(ocs, q[0], 0);
                assert(lookup(old_node, q) is None);
                if q2.len() > 0 {
                    lemma_lookup_leaf(old_child, q2);
                } else {
                    assert(!own_id(old_child.sources@, b, x));
                    assert(!children_have_id(old_child.children@, b, x));
                }
            }
        } else {
            assert(!q.is_prefix_of(rest)) by {
                if q.is_prefix_of(rest) {
                    assert(q[0] == rest.subrange(0, q.len() as int)[0]);
                }
            }
            if existed {
                lemma_child_index_update(ocs, pos, child, q[0], 0);
                let a = child_index(ocs, q[0], 0);
                if a >= 0 {
                    lemma_child_index_facts(ocs, q[0], 0);
                    assert(ncs[a] == ocs[a]);
                }
                assert(lookup(new_node, q) == lookup(old_node, q));
            } else {
                lemma_child_index_insert(ocs, pos, child, q[0]);
                assert(lookup(new_node, q) == lookup(old_node, q));
            }
        }
    }
}

/// A source added at `path` joins what was there; nothing leaves any node.
proof fn lemma_own_ids_kept(old_root: MountNode, new_root: MountNode, path: Seq<Seq<char>>, source: MountSource)
    requires
        lookup(new_root, path) matches Some(n) && n.sources@ == stable_sorted(sources_at(old_root, path).push(source)),
        forall|q: Seq<Seq<char>>| q != path ==> #[trigger] sources_at(new_root, q) == sources_at(old_root, q),
    ensures
        own_id(sources_at(new_root, path), source.backend, source.module_id@),
        forall|q: Seq<Seq<char>>, b: Mode, x: Seq<char>| own_id(sources_at(old_root, q), b, x) ==> #[trigger] own_id(
            sources_at(new_root, q),
            b,
            x,
        ),
{
    let olds = sources_at(old_root, path);
    let all = olds.push(source);
    let news = sources_at(new_root, path);
    assert(news == stable_sorted(all));
    assert(all[all.len() - 1] == source);
    assert(all.contains(source));
    lemma_sorted_contains(all, source);
    let k = choose|k: int| 0 <= k < news.len() && news[k] == source;
    assert(news[k].backend == source.backend && news[k].module_id@ == source.module_id@);
    assert forall|q: Seq<Seq<char>>, b: Mode, x: Seq<char>| own_id(sources_at(old_root, q), b, x) implies #[trigger] own_id(
        sources_at(new_root, q),
        b,
        x,
    ) by {
        if q == path {
            let j = choose|j: int| 0 <= j < olds.len() && #[trigger] olds[j].backend == b && olds[j].module_id@ == x;
            assert(all[j] == olds[j]);
            assert(all.contains(olds[j]));
            lemma_sorted_contains(all, olds[j]);
            let i = choose|i: int| 0 <= i < news.len() && news[i] == olds[j];
            assert(news[i].backend == b && news[i].module_id@ == x);
        } else {
            assert(sources_at(new_root, q) == sources_at(old_root, q));
        }
    }
}

/// The modules below a node after `source` was added at the node itself.
proof fn lemma_ids_own_insert(old_node: MountNode, new_node: MountNode, source: MountSource)
    requires
        new_node.children == old_node.children,
        new_node.sources@ == stable_sorted(old_node.sources@.push(source)),
    ensures
        forall|b: Mode, x: Seq<char>| #[trigger] node_has_id(new_node, b, x) <==> node_has_id(old_node, b, x) || (b
            == source.backend && x == source.module_id@),
{
    assert forall|b: Mode, x: Seq<char>| #[trigger] node_has_id(new_node, b, x) <==> node_has_id(old_node, b, x) || (b
        == source.backend && x == source.module_id@) by {
        let olds = old_node.sources@;
        let all = olds.push(source);
        let news = new_node.sources@;
        if own_id(news, b, x) {
            let i = choose|i: int| 0 <= i < news.len() && #[trigger] news[i].backend == b && news[i].module_id@ == x;
            lemma_sorted_contains(all, news[i]);
            assert(news.contains(news[i]));
            lemma_push_contains(all, news[i]);
            assert(all.drop_last() =~= olds);
            if news[i] != source {
                let j = choose|j: int| 0 <= j < olds.len() && olds[j] == news[i];
                assert(own_id(olds, b, x));
            }
        }
        if own_id(olds, b, x) {
            let j = choose|j: int| 0 <= j < olds.len() && #[trigger] olds[j].backend == b && olds[j].module_id@ == x;
            assert(all[j] == olds[j]);
            assert(all.contains(olds[j]));
            lemma_sorted_contains(all, olds[j]);
            let i = choose|i: int| 0 <= i < news.len() && news[i] == olds[j];
            assert(own_id(news, b, x));
        }
        if b == source.backend && x == source.module_id@ {
            assert(all[all.len() - 1] == source);
            assert(all.contains(source));
            lemma_sorted_contains(all, source);
            let i = choose|i: int| 0 <= i < news.len() && news[i] == source;
            assert(own_id(news, b, x));
        }
    }
}

/// The modules below a node after `source` was added in one child.
proof fn lemma_ids_child_insert(
    old_node: MountNode,
    new_node: MountNode,
    old_child: MountNode,
    child: MountNode,
    pos: int,
    existed: bool,
    source: MountSource,
)
    requires
        new_node.sources == old_node.sources,
        existed ==> 0 <= pos < old_node.children@.len() && old_node.children@[pos] == old_child && new_node.children@
            == old_node.children@.update(pos, child),
        !existed ==> 0 <= pos <= old_node.children@.len() && old_child.children@.len() == 0 && old_child.sources@.len() == 0
            && new_node.children@ == old_node.children@.insert(pos, child),
        forall|b: Mode, x: Seq<char>| #[trigger] node_has_id(child, b, x) <==> node_has_id(old_child, b, x) || (b
            == source.backend && x == source.module_id@),
    ensures
        forall|b: Mode, x: Seq<char>| #[trigger] node_has_id(new_node, b, x) <==> node_has_id(old_node, b, x) || (b
            == source.backend && x == source.module_id@),
{
    assert forall|b: Mode, x: Seq<char>| #[trigger] node_has_id(new_node, b, x) <==> node_has_id(old_node, b, x) || (b
        == source.backend && x == source.module_id@) by {
        let ocs = old_node.children@;
        let ncs = new_node.children@;
        lemma_children_ids(ocs, b, x);
        lemma_children_ids(ncs, b, x);
        if !existed {
            assert(!own_id(old_child.sources@, b, x));
            assert(!children_have_id(old_child.children@, b, x));
            assert(!node_has_id(old_child, b, x));
        }
        if exists|j: int| 0 <= j < ncs.len() && #[trigger] node_has_id(ncs[j], b, x) {
            let j = choose|j: int| 0 <= j < ncs.len() && #[trigger] node_has_id(ncs[j], b, x);
            if existed {
                if j != pos {
                    assert(ncs[j] == ocs[j]);
                }
            } else {
                if j < pos {
                    assert(ncs[j] == ocs[j]);
                } else if j > pos {
                    assert(ncs[j] == ocs[j - 1]);
                }
            }
        }
        if exists|j: int| 0 <= j < ocs.len() && #[trigger] node_has_id(ocs[j], b, x) {
            let j = choose|j: int| 0 <= j < ocs.len() && #[trigger] node_has_id(ocs[j], b, x);
            if existed {
                if j != pos {
                    assert(ncs[j] == ocs[j]);
                } else {
                    assert(node_has_id(ncs[pos], b, x));
                }
            } else {
                if j < pos {
                    assert(ncs[j] == ocs[j]);
                } else {
                    assert(ncs[j + 1] == ocs[j]);
                }
            }
        }
        if b == source.backend && x == source.module_id@ {
            assert(ncs[pos] == child);
            assert(node_has_id(ncs[pos], b, x));
        }
    }
}

#[verifier::spinoff_prover]
#[verifier::rlimit(80)]
fn insert_path(
    node: &mut MountNode,
    path: &[String],
    k: usize,
    source: MountSource,
    rel_len: usize,
    offset: usize,
)
    requires
        k <= path@.len(),
        offset + path@.len() <= usize::MAX,
    ensures
        final(node).name@ == old(node).name@,
        final(node).structural_sources@ == old(node).structural_sources@,
        inserted_along(
            *old(node),
            *final(node),
            views(path@).skip(k as int),
            source,
            rel_len as int,
            offset + k + 1,
        ),
        forall|q: Seq<Seq<char>>| q != views(path@).skip(k as int) ==> #[trigger] sources_at(*final(node), q) == sources_at(*old(node), q),
        forall|q: Seq<Seq<char>>| (#[trigger] lookup(*old(node), q)) is Some ==> lookup(*final(node), q) is Some,
        forall|b: Mode, x: Seq<char>| #[trigger] node_has_id(*final(node), b, x) <==> node_has_id(*old(node), b, x) || (b
            == source.backend && x == source.module_id@),
        node_ordered(*old(node)) ==> node_ordered(*final(node)),
        forall|q: Seq<Seq<char>>, b: Mode, x: Seq<char>| lookup(*final(node), q) is Some ==> (#[trigger] subtree_ids(
            *final(node),
            q,
            b,
            x,
        ) <==> subtree_ids(*old(node), q, b, x) || (q.is_prefix_of(views(path@).skip(k as int)) && b == source.backend
            && x == source.module_id@)),
    decreases path@.len() - k,
{
    let ghost rest = views(path@).skip(k as int);
    if k == path.len() {
        proof {
            assert(rest.len() == 0);
        }
        let ghost before = *node;
        let ghost src0 = source;
        insert_source(&mut node.sources, source);
        proof {
            assert(node.children == before.children);
            lemma_ids_own_insert(before, *node, src0);
            lemma_subtree_ids_own(before, *node, src0);
            assert(rest =~= Seq::<Seq<char>>::empty());
            assert forall|m: int| 0 <= m <= rest.len() implies (#[trigger] lookup(*node, rest.take(m))) is Some by {
                assert(rest.take(m).len() == 0);
            }
            assert forall|q: Seq<Seq<char>>| q != rest implies #[trigger] sources_at(*node, q) == sources_at(before, q) by {
                if q.len() == 0 {
                    assert(q =~= rest);
                }
                assert(child_index(node.children@, q[0], 0) == child_index(before.children@, q[0], 0));
            }
            assert forall|q: Seq<Seq<char>>| (#[trigger] lookup(before, q)) is Some implies lookup(*node, q) is Some by {
                if q.len() > 0 {
                    assert(child_index(node.children@, q[0], 0) == child_index(before.children@, q[0], 0));
                }
            }
        }
        return;
    }
    let ghost old_node = *node;
    let name = path[k].as_str();
    proof {
        assert(rest[0] == name@);
        lemma_child_index_facts(node.children@, name@, 0);
    }
    let i = child_position(&node.children, name);
    let existed = i < node.children.len();
    let mut child = if existed {
        node.children.remove(i)
    } else {
        MountNode::new_node(name)
    };
    let ghost old_child = child;
    let kept = offset + k + 1;
    if kept < rel_len || source.file_type == NodeFileType::Directory {
        let pops: usize = if kept < rel_len {
            rel_len - kept
        } else {
            0
        };
        let spath = ancestor_path(source.source_path.as_str(), pops);
        record_structural(&mut child.structural_sources, source.module_id.as_str(), spath);
    }
    let ghost mid_child = child;
    let ghost src = source;
    insert_path(&mut child, path, k + 1, source, rel_len, offset);
    let pos = if existed {
        i
    } else {
        let mut q: usize = 0;
        while q < node.children.len() && !str_lt(name, node.children[q].name.as_str())
            invariant
                0 <= q <= node.children@.len(),
                forall|j: int| 0 <= j < q ==> !lex_lt(name@, #[trigger] node.children@[j].name@),
            decreases node.children@.len() - q,
        {
            q = q + 1;
        }
        q
    };
    let ghost removed = node.children@;
    node.children.insert(pos, child);
    proof {
        assert(mid_child.sources == old_child.sources && mid_child.children == old_child.children);
        assert forall|b: Mode, x: Seq<char>| #[trigger] node_has_id(mid_child, b, x) == node_has_id(old_child, b, x) by {
        }
        if existed {
            assert(node.children@ =~= old_node.children@.update(pos as int, child));
        } else {
            assert(node.children@ =~= old_node.children@.insert(pos as int, child));
        }
        lemma_ids_child_insert(old_node, *node, old_child, child, pos as int, existed, src);
        assert(views(path@).skip(k + 1) =~= rest.drop_first());
        assert forall|j: int| 0 <= j < pos implies #[trigger] node.children@[j].name@ != rest[0] by {
            assert(node.children@[j] == old_node.children@[j]);
        }
        lemma_subtree_ids_child(old_node, *node, old_child, mid_child, child, pos as int, existed, rest, src);
        if node_ordered(old_node) {
            let ocs = old_node.children@;
            lemma_children_ordered(ocs);
            if existed {
                assert(node_ordered(ocs[i as int]));
            } else {
                assert(old_child.children@ =~= Seq::<MountNode>::empty());
            }
            assert(node_ordered(old_child));
            assert(mid_child.children == old_child.children);
            assert(node_ordered(mid_child));
            if !existed {
                assert forall|j: int| 0 <= j < pos implies lex_lt(#[trigger] ocs[j].name@, child.name@) by {
                    lemma_lex_total(ocs[j].name@, name@);
                }
                assert forall|j: int| pos <= j < ocs.len() implies lex_lt(child.name@, #[trigger] ocs[j].name@) by {
                    if j > pos {
                        lemma_lex_transitive(name@, ocs[pos as int].name@, ocs[j].name@);
                    }
                }
            }
            lemma_ordered_child_insert(old_node, *node, old_child, child, pos as int, existed);
        }
        let cs = node.children@;
        assert(views(path@).skip(k + 1) =~= rest.drop_first());
        assert forall|j: int| 0 <= j < pos implies #[trigger] cs[j].name@ != rest[0] by {
            if existed {
                assert(cs[j] == old_node.children@[j]);
            } else {
                assert(cs[j] == old_node.children@[j]);
            }
        }
        lemma_lookup_step(*node, rest, pos as int);
        if existed {
            lemma_lookup_step(old_node, rest, i as int);
        } else {
            if rest.drop_first().len() > 0 {
                lemma_lookup_leaf(old_child, rest.drop_first());
            }
            assert(lookup(old_node, rest) is None);
        }
        assert(sources_at(old_node, rest) == sources_at(old_child, rest.drop_first())) by {
            if !existed && rest.drop_first().len() == 0 {
                assert(old_child.sources@ =~= Seq::<MountSource>::empty());
            }
        }
        assert(sources_at(mid_child, rest.drop_first()) == sources_at(old_child, rest.drop_first())) by {
            lemma_lookup_same_but_structural(old_child, mid_child, rest.drop_first());
        }
        assert forall|m: int| 0 <= m <= rest.len() implies (#[trigger] lookup(*node, rest.take(m))) is Some by {
            if m > 0 {
                assert(rest.take(m)[0] == rest[0]);
                lemma_lookup_step(*node, rest.take(m), pos as int);
                assert(rest.take(m).drop_first() =~= rest.drop_first().take(m - 1));
                assert(lookup(child, rest.drop_first().take(m - 1)) is Some);
            }
        }
        let ghost new_node = *node;
        assert forall|q: Seq<Seq<char>>| q != rest implies #[trigger] sources_at(new_node, q) == sources_at(old_node, q)
            && (lookup(old_node, q) is Some ==> lookup(new_node, q) is Some) by {
            if q.len() > 0 {
                if q[0] == rest[0] {
                    lemma_lookup_step(new_node, q, pos as int);
                    assert(q.drop_first() != rest.drop_first()) by {
                        if q.drop_first() == rest.drop_first() {
                            assert forall|j: int| 0 <= j < q.len() implies q[j] == rest[j] by {
                                if j > 0 {
                                    assert(q[j] == q.drop_first()[j - 1]);
                                    assert(rest[j] == rest.drop_first()[j - 1]);
                                }
                            }
                            assert(q =~= rest);
                        }
                    }
                    lemma_lookup_same_but_structural(old_child, mid_child, q.drop_first());
                    assert(sources_at(child, q.drop_first()) == sources_at(mid_child, q.drop_first()));
                    assert(lookup(new_node, q) == lookup(child, q.drop_first()));
                    if existed {
                        lemma_lookup_step(old_node, q, i as int);
                        assert(lookup(old_node, q) == lookup(old_child, q.drop_first()));
                    } else {
                        lemma_fresh_sources(old_child, q.drop_first());
                        assert(lookup(old_node, q) is None);
                    }
                    assert(sources_at(new_node, q) == sources_at(old_node, q));
                    assert(lookup(old_node, q) is Some ==> lookup(new_node, q) is Some);
                } else {
                    if existed {
                        assert(new_node.children@ =~= old_node.children@.update(i as int, child));
                        lemma_child_index_update(old_node.children@, i as int, child, q[0], 0);
                        let a = child_index(old_node.children@, q[0], 0);
                        if a >= 0 {
                            lemma_child_index_facts(old_node.children@, q[0], 0);
                            assert(new_node.children@[a] == old_node.children@[a]);
                        }
                    } else {
                        assert(new_node.children@ =~= old_node.children@.insert(pos as int, child));
                        lemma_child_index_insert(old_node.children@, pos as int, child, q[0]);
                    }
                    assert(sources_at(new_node, q) == sources_at(old_node, q));
                    assert(lookup(old_node, q) is Some ==> lookup(new_node, q) is Some);
                }
            }
        }
        assert forall|q: Seq<Seq<char>>| (#[trigger] lookup(old_node, q)) is Some implies lookup(new_node, q) is Some by {
            if q == rest {
                assert(rest.take(rest.len() as int) =~= rest);
                assert(lookup(new_node, rest.take(rest.len() as int)) is Some);
            } else {
                assert(sources_at(new_node, q) == sources_at(old_node, q));
            }
        }
        assert forall|m: int|
            1 <= m <= rest.len() && is_structural_level(src, rel_len as int, offset + k + 1 + m - 1)
            implies (#[trigger] lookup(*node, rest.take(m)) matches Some(x) && has_structural(
            x.structural_sources@,
            src.module_id@,
            structural_expected(src.source_path@, rel_len as int, offset + k + 1 + m - 1),
        )) by {
            assert(rest.take(m)[0] == rest[0]);
            lemma_lookup_step(*node, rest.take(m), pos as int);
            assert(rest.take(m).drop_first() =~= rest.drop_first().take(m - 1));
            if m == 1 {
                assert(rest.drop_first().take(0) =~= Seq::<Seq<char>>::empty());
            } else {
                assert(lookup(child, rest.drop_first().take(m - 1)) is Some);
            }
        }
    }
}

proof fn lemma_lookup_skip(n: MountNode, p: Seq<Seq<char>>, k: int)
    requires
        0 <= k < p.len(),
    ensures
        lookup(n, p.skip(k)) == (if child_index(n.children@, p[k], 0) < 0 {
            None
        } else {
            lookup(n.children@[child_index(n.children@, p[k], 0)], p.skip(k + 1))
        }),
{
    assert(p.skip(k)[0] == p[k]);
    assert(p.skip(k).drop_first() =~= p.skip(k + 1));
}

/// Lookups below a node do not depend on the node's own structural sources.
proof fn lemma_lookup_same_but_structural(a: MountNode, b: MountNode, path: Seq<Seq<char>>)
    requires
        a.name == b.name,
        a.children == b.children,
        a.sources == b.sources,
    ensures
        sources_at(a, path) == sources_at(b, path),
        lookup(a, path) is Some <==> lookup(b, path) is Some,
{
    if path.len() > 0 {
        assert(child_index(a.children@, path[0], 0) == child_index(b.children@, path[0], 0));
    }
}

/// Replacing a child by one of the same name leaves the search for any
/// other name unchanged.
proof fn lemma_child_index_update(cs: Seq<MountNode>, i: int, c: MountNode, x: Seq<char>, from: int)
    requires
        0 <= i < cs.len(),
        c.name@ == cs[i].name@,
        cs[i].name@ != x,
        0 <= from <= cs.len(),
    ensures
        child_index(cs.update(i, c), x, from) == child_index(cs, x, from),
    decreases cs.len() - from,
{
    if from < cs.len() {
        lemma_child_index_update(cs, i, c, x, from + 1);
    }
}

/// Inserting a child of another name shifts the search for `x` past it.
proof fn lemma_child_index_insert(cs: Seq<MountNode>, pos: int, c: MountNode, x: Seq<char>)
    requires
        0 <= pos <= cs.len(),
        c.name@ != x,
    ensures
        ({
            let a = child_index(cs, x, 0);
            let b = child_index(cs.insert(pos, c), x, 0);
            &&& a < 0 <==> b < 0
            &&& a >= 0 ==> b == (if a < pos { a } else { a + 1 }) && cs.insert(pos, c)[b] == cs[a]
        }),
{
    let cs2 = cs.insert(pos, c);
    lemma_child_index_facts(cs, x, 0);
    lemma_child_index_facts(cs2, x, 0);
    let a = child_index(cs, x, 0);
    let b = child_index(cs2, x, 0);
    if a >= 0 {
        let a2 = if a < pos { a } else { a + 1 };
        assert(cs2[a2] == cs[a]);
        assert forall|j: int| 0 <= j < a2 implies #[trigger] cs2[j].name@ != x by {
            if j < pos {
                assert(cs2[j] == cs[j]);
            } else if j > pos {
                assert(cs2[j] == cs[j - 1]);
            }
        }
        lemma_child_index_first(cs2, x, 0, a2);
    } else {
        if b >= 0 {
            if b < pos {
                assert(cs2[b] == cs[b]);
            } else if b > pos {
                assert(cs2[b] == cs[b - 1]);
            }
        }
    }
}

/// A lookup below a fresh node finds nothing but the node itself.
proof fn lemma_fresh_sources(n: MountNode, path: Seq<Seq<char>>)
    requires
        n.children@.len() == 0,
        n.sources@.len() == 0,
    ensures
        sources_at(n, path) == Seq::<MountSource>::empty(),
{
    if path.len() > 0 {
        lemma_lookup_leaf(n, path);
    } else {
        assert(n.sources@ =~= Seq::<MountSource>::empty());
    }
}

fn collect_own_ids(sources: &Vec<MountSource>, backend: Mode, out: &mut Vec<String>)
    requires
        sorted_names(old(out)@),
    ensures
        sorted_names(final(out)@),
        forall|x: Seq<char>| #[trigger] has_name(final(out)@, x) <==> has_name(old(out)@, x) || own_id(sources@, backend, x),
{
    let mut i: usize = 0;
    while i < sources.len()
        invariant
            0 <= i <= sources@.len(),
            sorted_names(out@),
            forall|x: Seq<char>| #[trigger] has_name(out@, x) <==> has_name(old(out)@, x) || own_id(
                sources@.subrange(0, i as int),
                backend,
                x,
            ),
        decreases sources@.len() - i,
    {
        let ghost prev = out@;
        if sources[i].backend == backend {
            insert_name(out, sources[i].module_id.as_str());
        }
        proof {
            let pre = sources@.subrange(0, i as int);
            let next = sources@.subrange(0, i + 1);
            assert forall|x: Seq<char>| #[trigger] has_name(out@, x) <==> has_name(old(out)@, x) || own_id(next, backend, x) by {
                assert(has_name(prev, x) <==> has_name(old(out)@, x) || own_id(pre, backend, x));
                if own_id(next, backend, x) {
                    let j = choose|j: int| 0 <= j < next.len() && #[trigger] next[j].backend == backend && next[j].module_id@ == x;
                    if j < i {
                        assert(pre[j] == next[j]);
                    }
                }
                if own_id(pre, backend, x) {
                    let j = choose|j: int| 0 <= j < pre.len() && #[trigger] pre[j].backend == backend && pre[j].module_id@ == x;
                    assert(next[j] == pre[j]);
                }
                if sources@[i as int].backend == backend && x == sources@[i as int].module_id@ {
                    assert(next[i as int] == sources@[i as int]);
                }
            }
        }
        i = i + 1;
    }
    assert(sources@.subrange(0, sources@.len() as int) =~= sources@);
}

fn collect_ids(node: &MountNode, backend: Mode, out: &mut Vec<String>)
    requires
        sorted_names(old(out)@),
    ensures
        sorted_names(final(out)@),
        forall|x: Seq<char>| #[trigger] has_name(final(out)@, x) <==> has_name(old(out)@, x) || node_has_id(*node, backend, x),
    decreases node,
{
    collect_own_ids(&node.sources, backend, out);
    let ghost after_own = out@;
    let mut k: usize = 0;
    while k < node.children.len()
        invariant
            0 <= k <= node.children@.len(),
            sorted_names(out@),
            forall|x: Seq<char>| #[trigger] has_name(out@, x) <==> has_name(after_own, x) || children_have_id(
                node.children@.subrange(0, k as int),
                backend,
                x,
            ),
        decreases node.children@.len() - k,
    {
        proof {
            assert(decreases_to!(node => node.children));
            assert(decreases_to!(node.children => node.children@));
            assert(decreases_to!(node.children@ => node.children@[k as int]));
        }
        let ghost prev = out@;
        collect_ids(&node.children[k], backend, out);
        proof {
            let next = node.children@.subrange(0, k + 1);
            assert(next.drop_last() =~= node.children@.subrange(0, k as int));
            assert(next.last() == node.children@[k as int]);
        }
        k = k + 1;
    }
    assert(node.children@.subrange(0, node.children@.len() as int) =~= node.children@);
}

fn count_nodes(node: &MountNode) -> (r: usize)
    requires
        node_total(*node) <= usize::MAX,
    ensures
        r == node_total(*node),
    decreases node,
{
    let mut total: usize = 1;
    let mut k: usize = 0;
    while k < node.children.len()
        invariant
            0 <= k <= node.children@.len(),
            node_total(*node) <= usize::MAX,
            total == 1 + children_total(node.children@.subrange(0, k as int)),
        decreases node.children@.len() - k,
    {
        proof {
            assert(decreases_to!(node => node.children));
            assert(decreases_to!(node.children => node.children@));
            assert(decreases_to!(node.children@ => node.children@[k as int]));
            let next = node.children@.subrange(0, k + 1);
            assert(next.drop_last() =~= node.children@.subrange(0, k as int));
            assert(next.last() == node.children@[k as int]);
            lemma_children_total_prefix(node.children@, k + 1);
        }
        let c = count_nodes(&node.children[k]);
        total = total + c;
        k = k + 1;
    }
    assert(node.children@.subrange(0, node.children@.len() as int) =~= node.children@);
    total
}

fn find_from<'a>(node: &'a MountNode, path: &[String], k: usize) -> (r: Option<&'a MountNode>)
    requires
        k <= path@.len(),
    ensures
        r is Some <==> lookup(*node, views(path@).skip(k as int)) is Some,
        r matches Some(n) ==> lookup(*node, views(path@).skip(k as int)) == Some(*n),
    decreases path@.len() - k,
{
    if k == path.len() {
        assert(views(path@).skip(k as int) =~= Seq::<Seq<char>>::empty());
        return Some(node);
    }
    let i = child_position(&node.children, path[k].as_str());
    proof {
        lemma_lookup_skip(*node, views(path@), k as int);
    }
    if i == node.children.len() {
        return None;
    }
    find_from(&node.children[i], path, k + 1)
}

/// The mount tree, rooted at `/`.
#[derive(Debug)]
pub struct MountTree {
    pub root: MountNode,
}

/// The node path a target string addresses.
pub open spec fn target_path(target: Seq<char>) -> Seq<Seq<char>> {
    components(trimmed(target))
}

impl Default for MountTree {
    fn default() -> (tree: MountTree)
        ensures
            tree.root.name@ == Seq::<char>::empty(),
            tree.root.children@.len() == 0,
            tree.root.sources@.len() == 0,
            tree.root.structural_sources@.len() == 0,
            node_ordered(tree.root),
    {
        proof {
            reveal_strlit("");
        }
        MountTree { root: MountNode::new_node("") }
    }
}

impl MountTree {
    /// Adds one module contribution at `target`, creating the missing nodes on
    /// the way and recording structural directories for the levels above it.
    pub fn insert(&mut self, target: &str, source: MountSource)
        ensures
            inserted_along(
                old(self).root,
                final(self).root,
                target_path(target@),
                source,
                components(source.relative@).len() as int,
                if components(source.relative@).len() > target_path(target@).len() {
                    components(source.relative@).len() - target_path(target@).len() + 1
                } else {
                    1
                },
            ),
            forall|q: Seq<Seq<char>>| q != target_path(target@) ==> #[trigger] sources_at(final(self).root, q) == sources_at(old(self).root, q),
            forall|q: Seq<Seq<char>>| (#[trigger] lookup(old(self).root, q)) is Some ==> lookup(final(self).root, q) is Some,
            forall|b: Mode, x: Seq<char>| #[trigger] node_has_id(final(self).root, b, x) <==> node_has_id(old(self).root, b, x)
                || (b == source.backend && x == source.module_id@),
            node_ordered(old(self).root) ==> node_ordered(final(self).root),
            forall|q: Seq<Seq<char>>, b: Mode, x: Seq<char>| lookup(final(self).root, q) is Some ==> (
            #[trigger] subtree_ids(final(self).root, q, b, x) <==> subtree_ids(old(self).root, q, b, x) || (
            q.is_prefix_of(target_path(target@)) && b == source.backend && x == source.module_id@)),
            own_id(sources_at(final(self).root, target_path(target@)), source.backend, source.module_id@),
            forall|q: Seq<Seq<char>>, b: Mode, x: Seq<char>| own_id(sources_at(old(self).root, q), b, x) ==> #[trigger] own_id(
                sources_at(final(self).root, q),
                b,
                x,
            ),
    {
        let t = trim(target);
        let path = split_components(t.as_str());
        let relative = split_components(source.relative.as_str());
        let rel_len = relative.len();
        let offset: usize = if rel_len > path.len() {
            rel_len - path.len()
        } else {
            0
        };
        let ghost tp = target_path(target@);
        let ghost rl = components(source.relative@).len() as int;
        proof {
            assert(views(path@).skip(0) =~= views(path@));
            assert(views(path@) == tp);
            assert(views(relative@).len() == relative@.len());
            assert(rl == rel_len);
            assert(tp.len() == path@.len());
        }
        let ghost old_root = self.root;
        let ghost src = source;
        insert_path(&mut self.root, path.as_slice(), 0, source, rel_len, offset);
        proof {
            lemma_own_ids_kept(old_root, self.root, tp, src);
        }
    }

    /// The node at `target`, if the tree has one.
    pub fn find(&self, target: &str) -> (r: Option<&MountNode>)
        ensures
            r is Some <==> lookup(self.root, target_path(target@)) is Some,
            r matches Some(n) ==> lookup(self.root, target_path(target@)) == Some(*n),
    {
        let t = trim(target);
        let path = split_components(t.as_str());
        assert(views(path@).skip(0) =~= views(path@));
        find_from(&self.root, path.as_slice(), 0)
    }

    /// Modules contributing to `target` itself for `backend`, ordered and unique.
    pub fn module_ids_for_target(&self, backend: Mode, target: &str) -> (r: Vec<String>)
        ensures
            sorted_names(r@),
            forall|x: Seq<char>| #[trigger] has_name(r@, x) <==> (lookup(
                self.root,
                target_path(target@),
            ) matches Some(n) && own_id(n.sources@, backend, x)),
    {
        let mut out: Vec<String> = Vec::new();
        match self.find(target) {
            Some(node) => {
                collect_own_ids(&node.sources, backend, &mut out);
            },
            None => {},
        }
        out
    }

    /// Every module contributing at or below `target` for `backend`, ordered
    /// and unique.
    pub fn module_ids_for_subtree(&self, backend: Mode, target: &str) -> (r: Vec<String>)
        ensures
            sorted_names(r@),
            forall|x: Seq<char>| #[trigger] has_name(r@, x) <==> subtree_ids(self.root, target_path(target@), backend, x),
    {
        let mut out: Vec<String> = Vec::new();
        match self.find(target) {
            Some(node) => {
                collect_ids(node, backend, &mut out);
            },
            None => {},
        }
        out
    }

    /// Whether any node carries a source for `backend`.
    pub fn has_backend(&self, backend: Mode) -> (r: bool)
        ensures
            r == node_has(self.root, backend),
    {
        self.root.has_backend(backend)
    }

    /// Total nodes in the tree, the root included.
    pub fn node_count(&self) -> (r: usize)
        requires
            node_total(self.root) <= usize::MAX,
        ensures
            r == node_total(self.root),
    {
        count_nodes(&self.root)
    }

    /// Every module contributing anywhere for `backend`, ordered and unique.
    pub fn module_ids_for(&self, backend: Mode) -> (r: Vec<String>)
        ensures
            sorted_names(r@),
            forall|x: Seq<char>| #[trigger] has_name(r@, x) <==> node_has_id(self.root, backend, x),
    {
        let mut out: Vec<String> = Vec::new();
        collect_ids(&self.root, backend, &mut out);
        out
    }
}

/// A backend search from `i` finds a source exactly when one at or after `i`
/// has that backend.
proof fn lemma_backend_index(s: Seq<MountSource>, b: Mode, i: int)
    requires
        0 <= i,
    ensures
        backend_index(s, b, i) >= 0 <==> exists|j: int| i <= j < s.len() && #[trigger] s[j].backend == b,
    decreases s.len() - i,
{
    if i < s.len() {
        lemma_backend_index(s, b, i + 1);
        if exists|j: int| i <= j < s.len() && #[trigger] s[j].backend == b {
            let j = choose|j: int| i <= j < s.len() && #[trigger] s[j].backend == b;
            if j > i && s[i].backend != b {
                assert(i + 1 <= j);
            }
        }
    }
}

proof fn lemma_node_has_some_id(n: MountNode, b: Mode)
    ensures
        node_has(n, b) <==> exists|x: Seq<char>| #[trigger] node_has_id(n, b, x),
    decreases n,
{
    lemma_backend_index(n.sources@, b, 0);
    lemma_children_have_some_id(n.children@, b);
    if backend_index(n.sources@, b, 0) >= 0 {
        let j = choose|j: int| 0 <= j < n.sources@.len() && #[trigger] n.sources@[j].backend == b;
        assert(own_id(n.sources@, b, n.sources@[j].module_id@));
        assert(node_has_id(n, b, n.sources@[j].module_id@));
    }
    if exists|x: Seq<char>| #[trigger] node_has_id(n, b, x) {
        let x = choose|x: Seq<char>| #[trigger] node_has_id(n, b, x);
        if own_id(n.sources@, b, x) {
            let j = choose|j: int| 0 <= j < n.sources@.len() && #[trigger] n.sources@[j].backend == b && n.sources@[j].module_id@ == x;
            assert(n.sources@[j].backend == b);
        } else {
            assert(children_have_id(n.children@, b, x));
        }
    }
    if children_have(n.children@, b) {
        let x = choose|x: Seq<char>| #[trigger] children_have_id(n.children@, b, x);
        assert(node_has_id(n, b, x));
    }
}

proof fn lemma_children_have_some_id(cs: Seq<MountNode>, b: Mode)
    ensures
        children_have(cs, b) <==> exists|x: Seq<char>| #[trigger] children_have_id(cs, b, x),
    decreases cs,
{
    if cs.len() > 0 {
        lemma_children_have_some_id(cs.drop_last(), b);
        lemma_node_has_some_id(cs.last(), b);
        if children_have(cs.drop_last(), b) {
            let x = choose|x: Seq<char>| #[trigger] children_have_id(cs.drop_last(), b, x);
            assert(children_have_id(cs, b, x));
        }
        if node_has(cs.last(), b) {
            let x = choose|x: Seq<char>| #[trigger] node_has_id(cs.last(), b, x);
            assert(children_have_id(cs, b, x));
        }
        if exists|x: Seq<char>| #[trigger] children_have_id(cs, b, x) {
            let x = choose|x: Seq<char>| #[trigger] children_have_id(cs, b, x);
            if children_have_id(cs.drop_last(), b, x) {
                assert(children_have(cs.drop_last(), b));
            } else {
                assert(node_has_id(cs.last(), b, x));
                assert(node_has(cs.last(), b));
            }
        }
    }
}

/// A tree has a node for `backend` exactly when some module contributes to
/// it for that backend: `has_backend` agrees with a non-empty `module_ids_for`.
pub proof fn backend_present_iff_some_module(tree: MountTree, backend: Mode)
    ensures
        node_has(tree.root, backend) <==> exists|x: Seq<char>| #[trigger] node_has_id(tree.root, backend, x),
{
    lemma_node_has_some_id(tree.root, backend);
}

/// The modules of the whole tree are the modules of the subtree at `/`.
pub proof fn whole_tree_is_subtree_at_root(tree: MountTree, backend: Mode, x: Seq<char>)
    ensures
        node_has_id(tree.root, backend, x) <==> (lookup(tree.root, target_path("/"@)) matches Some(n) && node_has_id(
            n,
            backend,
            x,
        )),
{
    reveal_strlit("/");
    let root = "/"@;
    assert(root.len() == 1 && root[0] == '/');
    assert(!crate::paths::is_space(root[0]));
    assert(crate::paths::trim_start(root) == 0);
    assert(crate::paths::trim_end(root) == 1);
    assert(trimmed(root) =~= root);
    assert(root.drop_first().len() == 0);
    assert(components(root) =~= Seq::<Seq<char>>::empty()) by {
        reveal_with_fuel(crate::paths::components_from, 2);
    }
    assert(target_path(root) =~= Seq::<Seq<char>>::empty());
}

/// Every source anywhere in the tree below `root` belongs to a module of `allowed`.
pub open spec fn tree_ids_in(root: MountNode, allowed: Set<Seq<char>>) -> bool {
    forall|q: Seq<Seq<char>>, i: int|
        0 <= i < sources_at(root, q).len() ==> allowed.contains(#[trigger] sources_at(root, q)[i].module_id@)
}

proof fn lemma_source_slot_range(s: Seq<MountSource>, m: Seq<char>, r: Seq<char>, i: int)
    requires
        0 <= i <= s.len(),
    ensures
        i <= source_slot(s, m, r, i) <= s.len(),
    decreases s.len() - i,
{
    if i < s.len() {
        lemma_source_slot_range(s, m, r, i + 1);
    }
}

/// The whole-tree module list and the module list of the subtree at `/` are
/// the same list: both are ordered and hold the same ids.
pub proof fn whole_tree_list_is_root_subtree_list(tree: MountTree, backend: Mode, whole: Seq<String>, at_root: Seq<String>)
    requires
        sorted_names(whole),
        forall|x: Seq<char>| #[trigger] has_name(whole, x) <==> node_has_id(tree.root, backend, x),
        sorted_names(at_root),
        forall|x: Seq<char>| #[trigger] has_name(at_root, x) <==> subtree_ids(tree.root, target_path("/"@), backend, x),
    ensures
        whole.len() == at_root.len(),
        forall|i: int| 0 <= i < whole.len() ==> #[trigger] whole[i]@ == at_root[i]@,
{
    assert forall|x: Seq<char>| #[trigger] has_name(whole, x) <==> has_name(at_root, x) by {
        whole_tree_is_subtree_at_root(tree, backend, x);
    }
    crate::text::lemma_sorted_names_unique(whole, at_root);
}

/// A tree with no node and no source holds no module.
pub proof fn empty_tree_ids_in(root: MountNode, allowed: Set<Seq<char>>)
    requires
        root.children@.len() == 0,
        root.sources@.len() == 0,
    ensures
        tree_ids_in(root, allowed),
{
    assert forall|q: Seq<Seq<char>>, i: int| 0 <= i < sources_at(root, q).len() implies allowed.contains(
        #[trigger] sources_at(root, q)[i].module_id@,
    ) by {
        lemma_fresh_sources(root, q);
    }
}

/// Inserting a source of an allowed module keeps every source of the tree
/// within the allowed modules.
pub proof fn insert_keeps_ids_in(old_root: MountNode, new_root: MountNode, target: Seq<char>, source: MountSource, allowed: Set<Seq<char>>)
    requires
        tree_ids_in(old_root, allowed),
        allowed.contains(source.module_id@),
        lookup(new_root, target_path(target)) matches Some(n) && n.sources@ == stable_sorted(sources_at(old_root, target_path(target)).push(source)),
        forall|q: Seq<Seq<char>>| q != target_path(target) ==> #[trigger] sources_at(new_root, q) == sources_at(old_root, q),
    ensures
        tree_ids_in(new_root, allowed),
{
    let p = target_path(target);
    let olds = sources_at(old_root, p);
    assert forall|q: Seq<Seq<char>>, i: int| 0 <= i < sources_at(new_root, q).len() implies allowed.contains(
        #[trigger] sources_at(new_root, q)[i].module_id@,
    ) by {
        if q == p {
            let news = sources_at(new_root, p);
            let y = news[i];
            lemma_sorted_contains(olds.push(source), y);
            assert(news.contains(y));
            lemma_push_contains(olds.push(source), y);
            assert(olds.push(source).drop_last() =~= olds);
            if y != source {
                let j = choose|j: int| 0 <= j < olds.len() && olds[j] == y;
                assert(allowed.contains(sources_at(old_root, p)[j].module_id@));
            }
        } else {
            assert(allowed.contains(sources_at(old_root, q)[i].module_id@));
        }
    }
}

} // verus!
