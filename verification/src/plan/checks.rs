//! Whole-tree consistency rules the planner enforces once every module is in
//! the shared tree.
use vstd::prelude::*;

use crate::config::{spec_mode_name, Mode};
use crate::errors::{Error, Result};
use crate::mount_tree::{children_have, MountNode, MountSource, NodeFileType};
use crate::text::{append_str, owned, push_char};

verus! {

/// One of `s` is a Magic Mount `.replace` source.
pub open spec fn has_magic_replace(s: Seq<MountSource>) -> bool {
    exists|i: int| 0 <= i < s.len() && #[trigger] s[i].backend == Mode::Magic && s[i].replace
}

/// One of `s` is a source for backend `b`.
pub open spec fn has_backend_source(s: Seq<MountSource>, b: Mode) -> bool {
    exists|i: int| 0 <= i < s.len() && #[trigger] s[i].backend == b
}

/// One of `s` mounts over the whole directory: an OverlayFS or Magic Mount
/// source that is a directory or a `.replace`.
pub open spec fn mounts_directory(s: Seq<MountSource>) -> bool {
    exists|i: int|
        0 <= i < s.len() && (#[trigger] s[i].backend == Mode::Overlay || s[i].backend == Mode::Magic)
            && (s[i].file_type == NodeFileType::Directory || s[i].replace)
}

/// One of `s` is a VFS `.replace` source.
pub open spec fn has_vfs_replace(s: Seq<MountSource>) -> bool {
    exists|i: int| 0 <= i < s.len() && #[trigger] s[i].backend == Mode::Vfs && s[i].replace
}

/// One of `s` is for a backend other than VFS.
pub open spec fn has_non_vfs(s: Seq<MountSource>) -> bool {
    exists|i: int| 0 <= i < s.len() && #[trigger] s[i].backend != Mode::Vfs
}

/// A Magic Mount `.replace` replaces its whole directory after the OverlayFS
/// phase, so no OverlayFS source may lie below it.
pub open spec fn replace_consistent(n: MountNode) -> bool
    decreases n,
{
    &&& !(has_magic_replace(n.sources@) && children_have(n.children@, Mode::Overlay))
    &&& children_replace_consistent(n.children@)
}

pub open spec fn children_replace_consistent(cs: Seq<MountNode>) -> bool
    decreases cs,
{
    cs.len() == 0 || (children_replace_consistent(cs.drop_last()) && replace_consistent(cs.last()))
}

/// No VFS source lies at or below a directory another backend mounts over;
/// `shadowed` says an ancestor already does.
pub open spec fn vfs_unshadowed(n: MountNode, shadowed: bool) -> bool
    decreases n,
{
    &&& !(shadowed && has_backend_source(n.sources@, Mode::Vfs))
    &&& children_vfs_unshadowed(n.children@, shadowed || mounts_directory(n.sources@))
}

pub open spec fn children_vfs_unshadowed(cs: Seq<MountNode>, shadowed: bool) -> bool
    decreases cs,
{
    cs.len() == 0 || (children_vfs_unshadowed(cs.drop_last(), shadowed) && vfs_unshadowed(
        cs.last(),
        shadowed,
    ))
}

/// A VFS `.replace` hides everything real below it, so its subtree holds no
/// source of another backend; `opaque` says an ancestor is such a `.replace`.
pub open spec fn vfs_opaque_exclusive(n: MountNode, opaque: bool) -> bool
    decreases n,
{
    &&& !((opaque || has_vfs_replace(n.sources@)) && has_non_vfs(n.sources@))
    &&& children_vfs_opaque_exclusive(n.children@, opaque || has_vfs_replace(n.sources@))
}

pub open spec fn children_vfs_opaque_exclusive(cs: Seq<MountNode>, opaque: bool) -> bool
    decreases cs,
{
    cs.len() == 0 || (children_vfs_opaque_exclusive(cs.drop_last(), opaque) && vfs_opaque_exclusive(
        cs.last(),
        opaque,
    ))
}

/// The target of a child named `name` below the parent target `target`.
pub open spec fn spec_child_target(target: Seq<char>, name: Seq<char>) -> Seq<char> {
    if name.len() == 0 {
        target
    } else {
        target + seq!['/'] + name
    }
}

/// The target of `node` below the parent target `target`.
fn child_target(target: &str, name: &str) -> (r: String)
    ensures
        r@ == spec_child_target(target@, name@),
{
    if name.unicode_len() == 0 {
        owned(target)
    } else {
        let mut t = owned(target);
        push_char(&mut t, '/');
        append_str(&mut t, name);
        t
    }
}

/// `module:relative`, with ` (.replace)` when asked.
pub open spec fn spec_describe_source(source: MountSource, replace: bool) -> Seq<char> {
    source.module_id@ + seq![':'] + source.relative@ + if replace { " (.replace)"@ } else { Seq::empty() }
}

/// `module:relative`, with ` (.replace)` when asked.
fn describe_source(source: &MountSource, replace: bool) -> (r: String)
    ensures
        r@ == spec_describe_source(*source, replace),
{
    let mut s = owned(source.module_id.as_str());
    push_char(&mut s, ':');
    append_str(&mut s, source.relative.as_str());
    if replace {
        append_str(&mut s, " (.replace)");
    }
    s
}

fn conflict(target: String, first: Mode, first_source: String, second: Mode, second_source: String) -> (e: Error)
    ensures
        e matches Error::PlanConflict { target: t, first_backend: fb, first_source: fs, second_backend: sb, second_source: ss }
            && t == target && fb@ == spec_mode_name(first) && fs == first_source && sb@ == spec_mode_name(second)
            && ss == second_source,
{
    Error::PlanConflict {
        target,
        first_backend: owned(first.as_str()),
        first_source,
        second_backend: owned(second.as_str()),
        second_source,
    }
}

fn find_source<'a>(sources: &'a Vec<MountSource>, magic_replace: bool, backend: Mode) -> (r: Option<&'a MountSource>)
    ensures
        magic_replace ==> (r is Some <==> has_magic_replace(sources@)),
        !magic_replace ==> (r is Some <==> has_backend_source(sources@, backend)),
{
    let mut i: usize = 0;
    while i < sources.len()
        invariant
            0 <= i <= sources@.len(),
            magic_replace ==> forall|j: int| 0 <= j < i ==> !(#[trigger] sources@[j].backend == Mode::Magic && sources@[j].replace),
            !magic_replace ==> forall|j: int| 0 <= j < i ==> #[trigger] sources@[j].backend != backend,
        decreases sources@.len() - i,
    {
        let s = &sources[i];
        if magic_replace {
            if s.backend == Mode::Magic && s.replace {
                return Some(s);
            }
        } else if s.backend == backend {
            return Some(s);
        }
        i = i + 1;
    }
    None
}

/// The first source below `node`, in tree order, for `backend`.
fn first_descendant_source(node: &MountNode, backend: Mode) -> (r: Option<&MountSource>)
    ensures
        r is Some <==> children_have(node.children@, backend),
    decreases node,
{
    let mut k: usize = 0;
    while k < node.children.len()
        invariant
            0 <= k <= node.children@.len(),
            !children_have(node.children@.subrange(0, k as int), backend),
        decreases node.children@.len() - k,
    {
        proof {
            assert(decreases_to!(node => node.children));
            assert(decreases_to!(node.children => node.children@));
            assert(decreases_to!(node.children@ => node.children@[k as int]));
            let next = node.children@.subrange(0, k + 1);
            assert(next.drop_last() =~= node.children@.subrange(0, k as int));
            assert(next.last() == node.children@[k as int]);
        }
        let child = &node.children[k];
        if let Some(source) = child.source_for(backend) {
            proof {
                lemma_grow_has(node.children@, k as int, backend);
            }
            return Some(source);
        }
        if let Some(source) = first_descendant_source(child, backend) {
            proof {
                lemma_grow_has(node.children@, k as int, backend);
            }
            return Some(source);
        }
        assert(!crate::mount_tree::node_has(node.children@[k as int], backend));
        k = k + 1;
    }
    assert(node.children@.subrange(0, node.children@.len() as int) =~= node.children@);
    None
}

proof fn lemma_grow_has(cs: Seq<MountNode>, k: int, b: Mode)
    requires
        0 <= k < cs.len(),
        crate::mount_tree::node_has(cs[k], b),
    ensures
        children_have(cs, b),
    decreases cs.len() - k,
{
    if k == cs.len() - 1 {
        assert(cs.last() == cs[k]);
    } else {
        lemma_grow_has(cs.drop_last(), k, b);
    }
}

/// Rejects a Magic Mount `.replace` with an OverlayFS source below it.
pub fn ensure_replace_backend_consistency(node: &MountNode, target: &str) -> (r: Result<()>)
    ensures
        r is Ok <==> replace_consistent(*node),
        r matches Err(e) ==> e is PlanConflict,
    decreases node,
{
    let current = child_target(target, node.name.as_str());
    if let Some(replace_source) = find_source(&node.sources, true, Mode::Magic) {
        if let Some(overlay_source) = first_descendant_source(node, Mode::Overlay) {
            return Err(conflict(
                current,
                Mode::Magic,
                describe_source(replace_source, true),
                Mode::Overlay,
                describe_source(overlay_source, false),
            ));
        }
    }
    let mut k: usize = 0;
    while k < node.children.len()
        invariant
            0 <= k <= node.children@.len(),
            children_replace_consistent(node.children@.subrange(0, k as int)),
        decreases node.children@.len() - k,
    {
        proof {
            assert(decreases_to!(node => node.children));
            assert(decreases_to!(node.children => node.children@));
            assert(decreases_to!(node.children@ => node.children@[k as int]));
            let next = node.children@.subrange(0, k + 1);
            assert(next.drop_last() =~= node.children@.subrange(0, k as int));
            assert(next.last() == node.children@[k as int]);
        }
        match ensure_replace_backend_consistency(&node.children[k], current.as_str()) {
            Ok(()) => {},
            Err(e) => {
                proof {
                    lemma_replace_prefix(node.children@, k as int);
                }
                return Err(e);
            },
        }
        k = k + 1;
    }
    assert(node.children@.subrange(0, node.children@.len() as int) =~= node.children@);
    Ok(())
}

proof fn lemma_replace_prefix(cs: Seq<MountNode>, k: int)
    requires
        0 <= k < cs.len(),
        !replace_consistent(cs[k]),
    ensures
        !children_replace_consistent(cs),
    decreases cs.len() - k,
{
    if k == cs.len() - 1 {
        assert(cs.last() == cs[k]);
    } else {
        lemma_replace_prefix(cs.drop_last(), k);
    }
}

fn find_directory_mount(sources: &Vec<MountSource>) -> (r: Option<&MountSource>)
    ensures
        r is Some <==> mounts_directory(sources@),
{
    let mut i: usize = 0;
    while i < sources.len()
        invariant
            0 <= i <= sources@.len(),
            forall|j: int| 0 <= j < i ==> !((#[trigger] sources@[j].backend == Mode::Overlay || sources@[j].backend == Mode::Magic)
                && (sources@[j].file_type == NodeFileType::Directory || sources@[j].replace)),
        decreases sources@.len() - i,
    {
        let s = &sources[i];
        if (s.backend == Mode::Overlay || s.backend == Mode::Magic) && (s.file_type
            == NodeFileType::Directory || s.replace) {
            return Some(s);
        }
        i = i + 1;
    }
    None
}

/// Rejects a VFS source at or below a directory that OverlayFS or Magic
/// Mount mounts over; `ancestor_mount` is the nearest such ancestor source.
pub fn ensure_vfs_not_shadowed(node: &MountNode, target: &str, ancestor_mount: Option<&MountSource>) -> (r: Result<()>)
    ensures
        r is Ok <==> vfs_unshadowed(*node, ancestor_mount is Some),
        r matches Err(e) ==> e is PlanConflict,
    decreases node,
{
    let current = child_target(target, node.name.as_str());
    if let Some(mount) = ancestor_mount {
        if let Some(vfs_source) = find_source(&node.sources, false, Mode::Vfs) {
            return Err(conflict(
                current,
                mount.backend,
                describe_source(mount, false),
                Mode::Vfs,
                describe_source(vfs_source, false),
            ));
        }
    }
    let child_mount = match find_directory_mount(&node.sources) {
        Some(source) => Some(source),
        None => ancestor_mount,
    };
    let ghost shadow = ancestor_mount is Some || mounts_directory(node.sources@);
    assert(child_mount is Some == shadow);
    let mut k: usize = 0;
    while k < node.children.len()
        invariant
            0 <= k <= node.children@.len(),
            child_mount is Some == shadow,
            shadow == (ancestor_mount is Some || mounts_directory(node.sources@)),
            children_vfs_unshadowed(node.children@.subrange(0, k as int), shadow),
        decreases node.children@.len() - k,
    {
        proof {
            assert(decreases_to!(node => node.children));
            assert(decreases_to!(node.children => node.children@));
            assert(decreases_to!(node.children@ => node.children@[k as int]));
            let next = node.children@.subrange(0, k + 1);
            assert(next.drop_last() =~= node.children@.subrange(0, k as int));
            assert(next.last() == node.children@[k as int]);
        }
        match ensure_vfs_not_shadowed(&node.children[k], current.as_str(), child_mount) {
            Ok(()) => {},
            Err(e) => {
                proof {
                    lemma_unshadowed_prefix(node.children@, k as int, shadow);
                }
                return Err(e);
            },
        }
        k = k + 1;
    }
    assert(node.children@.subrange(0, node.children@.len() as int) =~= node.children@);
    Ok(())
}

proof fn lemma_unshadowed_prefix(cs: Seq<MountNode>, k: int, shadow: bool)
    requires
        0 <= k < cs.len(),
        !vfs_unshadowed(cs[k], shadow),
    ensures
        !children_vfs_unshadowed(cs, shadow),
    decreases cs.len() - k,
{
    if k == cs.len() - 1 {
        assert(cs.last() == cs[k]);
    } else {
        lemma_unshadowed_prefix(cs.drop_last(), k, shadow);
    }
}

fn find_vfs_replace(sources: &Vec<MountSource>) -> (r: Option<&MountSource>)
    ensures
        r is Some <==> has_vfs_replace(sources@),
{
    let mut i: usize = 0;
    while i < sources.len()
        invariant
            0 <= i <= sources@.len(),
            forall|j: int| 0 <= j < i ==> !(#[trigger] sources@[j].backend == Mode::Vfs && sources@[j].replace),
        decreases sources@.len() - i,
    {
        if sources[i].backend == Mode::Vfs && sources[i].replace {
            return Some(&sources[i]);
        }
        i = i + 1;
    }
    None
}

fn find_non_vfs(sources: &Vec<MountSource>) -> (r: Option<&MountSource>)
    ensures
        r is Some <==> has_non_vfs(sources@),
{
    let mut i: usize = 0;
    while i < sources.len()
        invariant
            0 <= i <= sources@.len(),
            forall|j: int| 0 <= j < i ==> #[trigger] sources@[j].backend == Mode::Vfs,
        decreases sources@.len() - i,
    {
        if sources[i].backend != Mode::Vfs {
            return Some(&sources[i]);
        }
        i = i + 1;
    }
    None
}

/// Rejects sources of other backends inside a VFS `.replace` subtree;
/// `opaque_owner` is the nearest such `.replace` above.
pub fn ensure_vfs_opaque_exclusive(node: &MountNode, target: &str, opaque_owner: Option<&MountSource>) -> (r: Result<()>)
    ensures
        r is Ok <==> vfs_opaque_exclusive(*node, opaque_owner is Some),
        r matches Err(e) ==> e is PlanConflict,
    decreases node,
{
    let current = child_target(target, node.name.as_str());
    let owner = match find_vfs_replace(&node.sources) {
        Some(source) => Some(source),
        None => opaque_owner,
    };
    let ghost opaque = opaque_owner is Some || has_vfs_replace(node.sources@);
    assert(owner is Some == opaque);
    if let Some(owner_source) = owner {
        if let Some(other) = find_non_vfs(&node.sources) {
            return Err(conflict(
                current,
                Mode::Vfs,
                describe_source(owner_source, true),
                other.backend,
                describe_source(other, false),
            ));
        }
    }
    let mut k: usize = 0;
    while k < node.children.len()
        invariant
            0 <= k <= node.children@.len(),
            owner is Some == opaque,
            opaque == (opaque_owner is Some || has_vfs_replace(node.sources@)),
            children_vfs_opaque_exclusive(node.children@.subrange(0, k as int), opaque),
        decreases node.children@.len() - k,
    {
        proof {
            assert(decreases_to!(node => node.children));
            assert(decreases_to!(node.children => node.children@));
            assert(decreases_to!(node.children@ => node.children@[k as int]));
            let next = node.children@.subrange(0, k + 1);
            assert(next.drop_last() =~= node.children@.subrange(0, k as int));
            assert(next.last() == node.children@[k as int]);
        }
        match ensure_vfs_opaque_exclusive(&node.children[k], current.as_str(), owner) {
            Ok(()) => {},
            Err(e) => {
                proof {
                    lemma_opaque_prefix(node.children@, k as int, opaque);
                }
                return Err(e);
            },
        }
        k = k + 1;
    }
    assert(node.children@.subrange(0, node.children@.len() as int) =~= node.children@);
    Ok(())
}

proof fn lemma_opaque_prefix(cs: Seq<MountNode>, k: int, opaque: bool)
    requires
        0 <= k < cs.len(),
        !vfs_opaque_exclusive(cs[k], opaque),
    ensures
        !children_vfs_opaque_exclusive(cs, opaque),
    decreases cs.len() - k,
{
    if k == cs.len() - 1 {
        assert(cs.last() == cs[k]);
    } else {
        lemma_opaque_prefix(cs.drop_last(), k, opaque);
    }
}

} // verus!
