//! What staging the overlay part of a mount tree writes: every overlay
//! source of every node, the node's own sources before its children's.
use vstd::prelude::*;

use crate::config::Mode;
use crate::mount_tree::{MountNode, MountSource, MountTree, NodeFileType};
use crate::text::owned;

verus! {

/// One entry to materialize under `<destination>/<module_id>/<relative>`.
#[derive(Debug)]
pub struct StageStep {
    pub module_id: String,
    pub relative: String,
    pub source_path: String,
    pub file_type: NodeFileType,
    /// A directory that hides the lower layers: it is made opaque.
    pub opaque: bool,
}

/// A step as plain values: module id, relative path, source path, file
/// type and opacity.
pub type StepView = (Seq<char>, Seq<char>, Seq<char>, NodeFileType, bool);

/// The step that stages overlay source `s`.
pub open spec fn step_of(s: MountSource) -> StepView {
    (s.module_id@, s.relative@, s.source_path@, s.file_type, s.file_type == NodeFileType::Directory && s.replace)
}

/// The steps of the overlay sources among `s`, in order.
pub open spec fn own_steps(s: Seq<MountSource>) -> Seq<StepView>
    decreases s.len(),
{
    if s.len() == 0 {
        Seq::empty()
    } else {
        own_steps(s.drop_last()) + if s.last().backend == Mode::Overlay { seq![step_of(s.last())] } else { Seq::empty() }
    }
}

/// The steps of a node: its own, then its children's in order.
pub open spec fn node_steps(n: MountNode) -> Seq<StepView>
    decreases n,
{
    own_steps(n.sources@) + children_steps(n.children@)
}

/// The steps of `cs` and their descendants, in order.
pub open spec fn children_steps(cs: Seq<MountNode>) -> Seq<StepView>
    decreases cs,
{
    if cs.len() == 0 {
        Seq::empty()
    } else {
        children_steps(cs.drop_last()) + node_steps(cs.last())
    }
}

/// The plain values of steps.
pub open spec fn step_views(v: Seq<StageStep>) -> Seq<StepView> {
    Seq::new(v.len(), |k: int| (v[k].module_id@, v[k].relative@, v[k].source_path@, v[k].file_type, v[k].opaque))
}

fn push_own_steps(sources: &Vec<MountSource>, out: &mut Vec<StageStep>)
    ensures
        step_views(final(out)@) == step_views(old(out)@) + own_steps(sources@),
{
    let ghost start = step_views(out@);
    let mut k: usize = 0;
    while k < sources.len()
        invariant
            0 <= k <= sources@.len(),
            step_views(out@) == start + own_steps(sources@.subrange(0, k as int)),
        decreases sources@.len() - k,
    {
        let s = &sources[k];
        let ghost before = step_views(out@);
        if s.backend == Mode::Overlay {
            let opaque = match s.file_type {
                NodeFileType::Directory => s.replace,
                _ => false,
            };
            out.push(StageStep {
                module_id: owned(s.module_id.as_str()),
                relative: owned(s.relative.as_str()),
                source_path: owned(s.source_path.as_str()),
                file_type: s.file_type,
                opaque,
            });
            assert(step_views(out@) =~= before.push(step_of(*s)));
        } else {
            assert(step_views(out@) =~= before);
        }
        proof {
            let next = sources@.subrange(0, k + 1);
            assert(next.drop_last() =~= sources@.subrange(0, k as int));
            assert(next.last() == sources@[k as int]);
            assert(step_views(out@) =~= start + own_steps(next));
        }
        k = k + 1;
    }
    assert(sources@.subrange(0, sources@.len() as int) =~= sources@);
}

fn push_node_steps(node: &MountNode, out: &mut Vec<StageStep>)
    ensures
        step_views(final(out)@) == step_views(old(out)@) + node_steps(*node),
    decreases node,
{
    let ghost start = step_views(out@);
    push_own_steps(&node.sources, out);
    let ghost after_own = step_views(out@);
    let mut k: usize = 0;
    while k < node.children.len()
        invariant
            0 <= k <= node.children@.len(),
            after_own == start + own_steps(node.sources@),
            step_views(out@) == after_own + children_steps(node.children@.subrange(0, k as int)),
        decreases node.children@.len() - k,
    {
        proof {
            assert(decreases_to!(node => node.children));
            assert(decreases_to!(node.children => node.children@));
            assert(decreases_to!(node.children@ => node.children@[k as int]));
        }
        let ghost before = step_views(out@);
        push_node_steps(&node.children[k], out);
        proof {
            let next = node.children@.subrange(0, k + 1);
            assert(next.drop_last() =~= node.children@.subrange(0, k as int));
            assert(next.last() == node.children@[k as int]);
            assert(step_views(out@) =~= after_own + children_steps(next));
        }
        k = k + 1;
    }
    assert(node.children@.subrange(0, node.children@.len() as int) =~= node.children@);
    assert(step_views(out@) =~= start + node_steps(*node));
}

/// What staging the overlay part of `tree` writes, node by node from the
/// root, each node's overlay sources before its children's.
pub fn overlay_staging_steps(tree: &MountTree) -> (r: Vec<StageStep>)
    ensures
        step_views(r@) == node_steps(tree.root),
{
    let mut out: Vec<StageStep> = Vec::new();
    assert(step_views(out@) =~= Seq::<StepView>::empty());
    push_node_steps(&tree.root, &mut out);
    assert(Seq::<StepView>::empty() + node_steps(tree.root) =~= node_steps(tree.root));
    out
}

} // verus!
