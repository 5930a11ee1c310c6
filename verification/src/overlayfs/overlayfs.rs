//! OverlayFS mount planning, behaviour-compatible with the v4.2.0 layout rules:
//! a lowerdir list above the kernel's layer limit is staged bottom-up, option
//! values are escaped for the legacy `mount(2)` fallback, and child mounts are
//! re-created from their path relative to the root.
use vstd::prelude::*;
use vstd::string::*;

use crate::text::{has_prefix, owned, push_char, suffix_from};

verus! {

/// The most layers a single overlayfs mount accepts.
pub const MAX_LAYERS: usize = 64;

/// Whether the legacy mount option syntax needs `c` escaped.
pub open spec fn is_option_separator(c: char) -> bool {
    c == '\\' || c == ',' || c == ':'
}

/// `value` with a backslash before every `\`, `,` and `:`.
pub open spec fn escaped(value: Seq<char>) -> Seq<char>
    decreases value.len(),
{
    if value.len() == 0 {
        seq![]
    } else {
        let c = value.last();
        escaped(value.drop_last()) + if is_option_separator(c) {
            seq!['\\', c]
        } else {
            seq![c]
        }
    }
}

/// Escapes `\`, `,` and `:` in one lowerdir path for the legacy mount fallback.
pub fn escape_mount_option_value(value: &str) -> (escaped_value: String)
    ensures
        escaped_value@ == escaped(value@),
{
    let n = value.unicode_len();
    let mut out = String::new();
    let mut i: usize = 0;
    while i < n
        invariant
            n == value@.len(),
            0 <= i <= n,
            out@ == escaped(value@.subrange(0, i as int)),
        decreases n - i,
    {
        let ch = value.get_char(i);
        assert(value@.subrange(0, i + 1).drop_last() =~= value@.subrange(0, i as int));
        if ch == '\\' || ch == ',' || ch == ':' {
            push_char(&mut out, '\\');
        }
        push_char(&mut out, ch);
        proof {
            let prev = escaped(value@.subrange(0, i as int));
            if is_option_separator(ch) {
                assert(out@ =~= prev + seq!['\\', ch]);
            } else {
                assert(out@ =~= prev + seq![ch]);
            }
        }
        i = i + 1;
    }
    assert(value@.subrange(0, n as int) =~= value@);
    out
}

/// One staging step: `layers` are stacked first, `remaining_layers` stay above them.
#[derive(Debug, Clone, PartialEq, Eq)]
pub struct StagingChunk {
    pub remaining_layers: usize,
    pub layers: Vec<String>,
}

/// The staging steps for `layers`: while more than `MAX_LAYERS` remain, the
/// bottom `MAX_LAYERS - 1` layers form the next chunk.
pub open spec fn staging_plan(layers: Seq<String>) -> Seq<(nat, Seq<String>)>
    decreases layers.len(),
{
    if layers.len() <= MAX_LAYERS {
        seq![]
    } else {
        let split = (layers.len() - (MAX_LAYERS - 1)) as int;
        seq![(split as nat, layers.subrange(split, layers.len() as int))] + staging_plan(
            layers.subrange(0, split),
        )
    }
}

pub open spec fn chunk_view(chunk: StagingChunk) -> (nat, Seq<String>) {
    (chunk.remaining_layers as nat, chunk.layers@)
}

/// Splits a lowerdir sequence longer than `MAX_LAYERS` into staging steps.
pub fn plan_staging_chunks(layers: &[String]) -> (chunks: Vec<StagingChunk>)
    ensures
        chunks@.map_values(|c: StagingChunk| chunk_view(c)) == staging_plan(layers@),
{
    let mut current: Vec<String> = Vec::new();
    let mut k: usize = 0;
    while k < layers.len()
        invariant
            0 <= k <= layers@.len(),
            current@ == layers@.subrange(0, k as int),
        decreases layers@.len() - k,
    {
        current.push(layers[k].clone());
        assert(current@ =~= layers@.subrange(0, k + 1));
        k = k + 1;
    }
    assert(current@ =~= layers@);
    let mut chunks: Vec<StagingChunk> = Vec::new();
    while current.len() > MAX_LAYERS
        invariant
            chunks@.map_values(|c: StagingChunk| chunk_view(c)) + staging_plan(current@)
                == staging_plan(layers@),
        decreases current@.len(),
    {
        let split_idx = current.len() - (MAX_LAYERS - 1);
        let ghost before = current@;
        let staged = current.split_off(split_idx);
        let chunk = StagingChunk { remaining_layers: current.len(), layers: staged };
        let ghost old_chunks = chunks@;
        chunks.push(chunk);
        proof {
            assert(chunks@.map_values(|c: StagingChunk| chunk_view(c)) =~= old_chunks.map_values(
                |c: StagingChunk| chunk_view(c),
            ).push(chunk_view(chunk)));
            assert(staging_plan(before) =~= seq![chunk_view(chunk)] + staging_plan(current@));
        }
    }
    assert(staging_plan(current@) =~= Seq::<(nat, Seq<String>)>::empty());
    assert(chunks@.map_values(|c: StagingChunk| chunk_view(c)) + Seq::<(nat, Seq<String>)>::empty()
        =~= chunks@.map_values(|c: StagingChunk| chunk_view(c)));
    chunks
}

/// Takes the next staging chunk off the bottom of `current_layers`, reserving
/// one slot for the staging mount that will replace it.
pub fn take_staging_chunk(current_layers: &mut Vec<String>) -> (chunk: Option<Vec<String>>)
    ensures
        old(current_layers)@.len() <= MAX_LAYERS ==> chunk is None && final(current_layers)@
            == old(current_layers)@,
        old(current_layers)@.len() > MAX_LAYERS ==> {
            let split = old(current_layers)@.len() - (MAX_LAYERS - 1);
            &&& chunk matches Some(c) && c@ == old(current_layers)@.subrange(
                split,
                old(current_layers)@.len() as int,
            )
            &&& final(current_layers)@ == old(current_layers)@.subrange(0, split)
        },
{
    if current_layers.len() <= MAX_LAYERS {
        return None;
    }
    let split_idx = current_layers.len() - (MAX_LAYERS - 1);
    Some(current_layers.split_off(split_idx))
}

/// Repeatedly staging the bottom layers and stacking the staging mount in their
/// place always leaves an overlay that fits the kernel's layer limit: each step
/// takes exactly `MAX_LAYERS - 1` layers and shrinks the stack by
/// `MAX_LAYERS - 2`, so the reduction terminates at or below `MAX_LAYERS`.
pub proof fn staging_step_shrinks_stack(len: nat)
    requires
        len > MAX_LAYERS,
    ensures
        (len - (MAX_LAYERS - 1)) + 1 < len,
        MAX_LAYERS - 1 <= MAX_LAYERS,
{
}

/// The path of `mount_point` relative to `root`, when it lies strictly below it.
pub open spec fn spec_child_relative_path(root: Seq<char>, mount_point: Seq<char>) -> Option<
    Seq<char>,
> {
    if mount_point != root && has_prefix(mount_point, root) && mount_point.len() > root.len()
        && mount_point[root.len() as int] == '/' {
        Some(mount_point.skip(root.len() as int))
    } else {
        None
    }
}

/// Computes the path of a child mount below `root`; `None` for the root itself
/// and for paths outside it.
pub fn child_relative_path(root: &str, mount_point: &str) -> (relative: Option<String>)
    ensures
        relative matches Some(r) ==> spec_child_relative_path(root@, mount_point@) == Some(r@),
        relative is None ==> spec_child_relative_path(root@, mount_point@) is None,
{
    if crate::text::str_eq(root, mount_point) {
        return None;
    }
    if !crate::text::starts_with(mount_point, root) {
        return None;
    }
    let n = root.unicode_len();
    let m = mount_point.unicode_len();
    if m <= n {
        return None;
    }
    if mount_point.get_char(n) != '/' {
        return None;
    }
    Some(suffix_from(mount_point, n))
}

} // verus!
