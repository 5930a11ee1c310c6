//! Subdirectory-mode OverlayFS: a partition is not overlaid as a whole;
//! each of its top-level directories gets its own overlay, and the mounts
//! found below the partition are overlaid again on top.
//!
//! The caller reads the directory, the mount table and which module
//! directories exist; this module decides what is mounted where, with which
//! options.
use vstd::prelude::*;

use crate::paths::views;
use crate::sys::mountinfo::{path_under, under, MountEntry};
use crate::text::{append_str, has_name, lex_lt, insert_name, owned, push_char, slice_chars, sorted_names, starts_with, str_eq, suffix_from};

verus! {

/// `parts` joined with `:`.
pub open spec fn colon_joined(parts: Seq<Seq<char>>) -> Seq<char>
    decreases parts.len(),
{
    if parts.len() == 0 {
        Seq::empty()
    } else if parts.len() == 1 {
        parts[0]
    } else {
        colon_joined(parts.drop_last()) + seq![':'] + parts.last()
    }
}

/// The view of an optional string.
pub open spec fn opt_view(o: Option<&str>) -> Option<Seq<char>> {
    match o {
        Some(s) => Some(s@),
        None => None,
    }
}

/// The data string of an overlay mount: the lower layers, top first, then
/// `lowest`, joined with `:`; an upper and a work directory only when both
/// are given.
pub open spec fn spec_overlay_options(
    lower_dirs: Seq<Seq<char>>,
    lowest: Seq<char>,
    upperdir: Option<Seq<char>>,
    workdir: Option<Seq<char>>,
) -> Seq<char> {
    let base = "lowerdir="@ + colon_joined(lower_dirs.push(lowest));
    match (upperdir, workdir) {
        (Some(u), Some(w)) => base + ",upperdir="@ + u + ",workdir="@ + w,
        _ => base,
    }
}

/// Composes the data string of an overlay mount.
pub fn overlay_mount_options(lower_dirs: &[String], lowest: &str, upperdir: Option<&str>, workdir: Option<&str>) -> (r: String)
    ensures
        r@ == spec_overlay_options(views(lower_dirs@), lowest@, opt_view(upperdir), opt_view(workdir)),
{
    let ghost all = views(lower_dirs@).push(lowest@);
    let mut joined = String::new();
    let mut i: usize = 0;
    while i < lower_dirs.len()
        invariant
            0 <= i <= lower_dirs@.len(),
            all == views(lower_dirs@).push(lowest@),
            joined@ == colon_joined(all.take(i as int)),
        decreases lower_dirs@.len() - i,
    {
        if i > 0 {
            push_char(&mut joined, ':');
        }
        append_str(&mut joined, lower_dirs[i].as_str());
        proof {
            assert(all.take(i + 1).drop_last() =~= all.take(i as int));
            assert(all.take(i + 1).last() == lower_dirs@[i as int]@);
            if i == 0 {
                assert(joined@ =~= colon_joined(all.take(1)));
            }
        }
        i = i + 1;
    }
    if i > 0 {
        push_char(&mut joined, ':');
    }
    append_str(&mut joined, lowest);
    proof {
        assert(all.take(i + 1).drop_last() =~= all.take(i as int));
        assert(all.take(i + 1) =~= all);
        if i == 0 {
            assert(joined@ =~= colon_joined(all.take(1)));
        }
    }
    let mut data = owned("lowerdir=");
    append_str(&mut data, joined.as_str());
    match (upperdir, workdir) {
        (Some(u), Some(w)) => {
            append_str(&mut data, ",upperdir=");
            append_str(&mut data, u);
            append_str(&mut data, ",workdir=");
            append_str(&mut data, w);
        },
        _ => {},
    }
    data
}

/// The module directories that hold `relative`, in module order, where
/// `present[i]` tells whether `module_roots[i]` followed by `relative` exists.
pub open spec fn spec_child_lower_dirs(roots: Seq<Seq<char>>, relative: Seq<char>, present: Seq<bool>) -> Seq<Seq<char>>
    decreases roots.len(),
{
    if roots.len() == 0 {
        Seq::empty()
    } else {
        let rest = spec_child_lower_dirs(roots.drop_last(), relative, present);
        if present[roots.len() - 1] {
            rest.push(roots.last() + relative)
        } else {
            rest
        }
    }
}

/// The overlay options for one child path: `None` when no module holds it
/// (the child is left alone), else the module directories above `stock_root`.
pub open spec fn spec_child_overlay(roots: Seq<Seq<char>>, relative: Seq<char>, present: Seq<bool>, stock_root: Seq<char>) -> Option<Seq<char>> {
    let lowers = spec_child_lower_dirs(roots, relative, present);
    if lowers.len() == 0 {
        None
    } else {
        Some(spec_overlay_options(lowers, stock_root, None, None))
    }
}

/// Decides the overlay of one child path of a partition.
pub fn child_overlay_options(module_roots: &[String], relative: &str, present: &[bool], stock_root: &str) -> (r: Option<String>)
    requires
        present@.len() == module_roots@.len(),
    ensures
        r matches Some(o) ==> spec_child_overlay(views(module_roots@), relative@, present@, stock_root@) == Some(o@),
        r is None ==> spec_child_overlay(views(module_roots@), relative@, present@, stock_root@) is None,
{
    let mut lowers: Vec<String> = Vec::new();
    let mut i: usize = 0;
    while i < module_roots.len()
        invariant
            0 <= i <= module_roots@.len(),
            present@.len() == module_roots@.len(),
            views(lowers@) == spec_child_lower_dirs(views(module_roots@).take(i as int), relative@, present@),
        decreases module_roots@.len() - i,
    {
        proof {
            assert(views(module_roots@).take(i + 1).drop_last() =~= views(module_roots@).take(i as int));
        }
        if present[i] {
            let mut dir = owned(module_roots[i].as_str());
            append_str(&mut dir, relative);
            lowers.push(dir);
            proof {
                assert(views(lowers@) =~= spec_child_lower_dirs(views(module_roots@).take(i as int), relative@, present@).push(
                    module_roots@[i as int]@ + relative@));
            }
        }
        i = i + 1;
    }
    proof {
        assert(views(module_roots@).take(i as int) =~= views(module_roots@));
    }
    if lowers.len() == 0 {
        None
    } else {
        Some(overlay_mount_options(lowers.as_slice(), stock_root, None, None))
    }
}

/// Top-level names of a partition that are never overlaid on their own.
pub open spec fn excluded_name(name: Seq<char>) -> bool {
    name == "lost+found"@ || name == "odm"@ || name == "product"@ || name == "system_ext"@ || name == "vendor"@
        || name == "apex"@
}

fn is_excluded(name: &str) -> (r: bool)
    ensures
        r == excluded_name(name@),
{
    str_eq(name, "lost+found") || str_eq(name, "odm") || str_eq(name, "product") || str_eq(name, "system_ext")
        || str_eq(name, "vendor") || str_eq(name, "apex")
}

/// An entry of the partition's directory: its name, and whether it is a
/// directory itself (a symlink to one is not).
#[derive(Debug)]
pub struct DirChild {
    pub name: String,
    pub is_dir: bool,
}

/// The entries that get an overlay of their own: real directories whose
/// name is not excluded, in directory order.
pub open spec fn spec_child_names(entries: Seq<DirChild>) -> Seq<Seq<char>>
    decreases entries.len(),
{
    if entries.len() == 0 {
        Seq::empty()
    } else {
        let rest = spec_child_names(entries.drop_last());
        let e = entries.last();
        if e.is_dir && !excluded_name(e.name@) {
            rest.push(e.name@)
        } else {
            rest
        }
    }
}

/// A mount point lies strictly below the partition: below it, and not the
/// partition itself or one of its ancestors.
pub open spec fn nested_below(target: Seq<char>, mount_point: Seq<char>) -> bool {
    under(mount_point, target) && !under(target, mount_point)
}

/// The first index at or after `i` where `t` occurs in `s`, or -1.
pub open spec fn first_match(s: Seq<char>, t: Seq<char>, i: int) -> int
    decreases s.len() + 1 - i,
{
    if i < 0 || i > s.len() || i + t.len() > s.len() {
        -1
    } else if s.subrange(i, i + t.len()) == t {
        i
    } else {
        first_match(s, t, i + 1)
    }
}

/// `s` with its first occurrence of `t` removed (unchanged when there is none).
pub open spec fn without_first(s: Seq<char>, t: Seq<char>) -> Seq<char> {
    let i = first_match(s, t, 0);
    if i < 0 {
        s
    } else {
        s.subrange(0, i) + s.skip(i + t.len())
    }
}

/// Removes the first occurrence of `t` from `s`.
pub fn remove_first(s: &str, t: &str) -> (r: String)
    ensures
        r@ == without_first(s@, t@),
{
    let n = s.unicode_len();
    let m = t.unicode_len();
    let mut i: usize = 0;
    while i <= n && m <= n - i
        invariant
            n == s@.len(),
            m == t@.len(),
            0 <= i <= n + 1,
            first_match(s@, t@, 0) == first_match(s@, t@, i as int),
        decreases n + 1 - i,
    {
        let rest = suffix_from(s, i);
        proof {
            assert(s@.skip(i as int).subrange(0, m as int) =~= s@.subrange(i as int, i + m));
        }
        proof {
            if m == 0 {
                assert(rest@.subrange(0, 0) =~= t@);
            }
        }
        if starts_with(rest.as_str(), t) {
            let mut out = slice_chars(s, 0, i);
            let tail = suffix_from(s, i + m);
            append_str(&mut out, tail.as_str());
            return out;
        }
        i = i + 1;
    }
    owned(s)
}

/// A mount below the partition, to be overlaid again after the partition's
/// own overlays: its mount point, its path inside the partition (the mount
/// point with the partition path removed once), and where its stock content
/// is reached from inside the partition (`.` followed by that path).
#[derive(Debug)]
pub struct NestedOverlay {
    pub mount_point: String,
    pub relative: String,
    pub stock_root: String,
}

/// What a subdirectory-mode overlay of a partition mounts.
#[derive(Debug)]
pub struct OverlayMountPlan {
    /// The top-level directories that get their own overlay.
    pub children: Vec<String>,
    /// The mounts below the partition, each once, in path-text order.
    pub nested: Vec<NestedOverlay>,
}

/// Whether some mount of the table lies below the partition at `p`.
pub open spec fn table_has_nested(target: Seq<char>, mounts: Seq<MountEntry>, p: Seq<char>) -> bool {
    exists|k: int| 0 <= k < mounts.len() && #[trigger] mounts[k].mount_point@ == p && nested_below(target, p)
}

fn nested_mount_points(target: &str, mounts: &[MountEntry]) -> (r: Vec<String>)
    ensures
        sorted_names(r@),
        forall|p: Seq<char>| #[trigger] has_name(r@, p) <==> table_has_nested(target@, mounts@, p),
{
    let mut points: Vec<String> = Vec::new();
    let mut k: usize = 0;
    while k < mounts.len()
        invariant
            0 <= k <= mounts@.len(),
            sorted_names(points@),
            forall|p: Seq<char>| #[trigger] has_name(points@, p) <==> (exists|j: int| 0 <= j < k && #[trigger] mounts@[j].mount_point@ == p
                && nested_below(target@, p)),
        decreases mounts@.len() - k,
    {
        let mp = mounts[k].mount_point.as_str();
        if path_under(mp, target) && !path_under(target, mp) {
            insert_name(&mut points, mp);
        }
        proof {
            assert forall|p: Seq<char>| #[trigger] has_name(points@, p) <==> (exists|j: int| 0 <= j < k + 1
                && #[trigger] mounts@[j].mount_point@ == p && nested_below(target@, p)) by {
                if (exists|j: int| 0 <= j < k + 1 && #[trigger] mounts@[j].mount_point@ == p && nested_below(target@, p)) {
                    let j = choose|j: int| 0 <= j < k + 1 && #[trigger] mounts@[j].mount_point@ == p && nested_below(target@, p);
                    if j < k {
                    }
                }
            }
        }
        k = k + 1;
    }
    points
}

/// Plans the subdirectory-mode overlay of the partition at `target`, from
/// its directory entries and the current mount table.
///
/// The path of a nested mount inside the partition begins with `/`, so its
/// first component is the root: the top-level exclusions never apply to
/// nested mounts, only to the partition's own entries.
pub fn overlay_mount_plan(target: &str, entries: &[DirChild], mounts: &[MountEntry]) -> (r: OverlayMountPlan)
    ensures
        views(r.children@) == spec_child_names(entries@),
        forall|i: int, j: int| 0 <= i < j < r.nested@.len() ==> lex_lt(#[trigger] r.nested@[i].mount_point@, #[trigger] r.nested@[j].mount_point@),
        forall|p: Seq<char>| #[trigger] table_has_nested(target@, mounts@, p)
            <==> (exists|i: int| 0 <= i < r.nested@.len() && #[trigger] r.nested@[i].mount_point@ == p),
        forall|i: int| 0 <= i < r.nested@.len() ==> {
            &&& (#[trigger] r.nested@[i]).relative@ == without_first(r.nested@[i].mount_point@, target@)
            &&& r.nested@[i].stock_root@ == seq!['.'] + r.nested@[i].relative@
        },
{
    let mut children: Vec<String> = Vec::new();
    let mut i: usize = 0;
    while i < entries.len()
        invariant
            0 <= i <= entries@.len(),
            views(children@) == spec_child_names(entries@.take(i as int)),
        decreases entries@.len() - i,
    {
        proof {
            assert(entries@.take(i + 1).drop_last() =~= entries@.take(i as int));
        }
        if entries[i].is_dir && !is_excluded(entries[i].name.as_str()) {
            children.push(owned(entries[i].name.as_str()));
            proof {
                assert(views(children@) =~= spec_child_names(entries@.take(i as int)).push(entries@[i as int].name@));
            }
        }
        i = i + 1;
    }
    proof {
        assert(entries@.take(i as int) =~= entries@);
    }
    let points = nested_mount_points(target, mounts);
    let mut nested: Vec<NestedOverlay> = Vec::new();
    let mut j: usize = 0;
    while j < points.len()
        invariant
            0 <= j <= points@.len(),
            nested@.len() == j,
            forall|q: int| 0 <= q < j ==> (#[trigger] nested@[q]).mount_point@ == points@[q]@,
            forall|q: int| 0 <= q < j ==> {
                &&& (#[trigger] nested@[q]).relative@ == without_first(nested@[q].mount_point@, target@)
                &&& nested@[q].stock_root@ == seq!['.'] + nested@[q].relative@
            },
        decreases points@.len() - j,
    {
        let mp = points[j].as_str();
        let relative = remove_first(mp, target);
        let mut stock_root = String::new();
        push_char(&mut stock_root, '.');
        append_str(&mut stock_root, relative.as_str());
        nested.push(NestedOverlay { mount_point: owned(mp), relative, stock_root });
        j = j + 1;
    }
    proof {
        assert forall|p: Seq<char>| #[trigger] table_has_nested(target@, mounts@, p)
            <==> (exists|i: int| 0 <= i < nested@.len() && #[trigger] nested@[i].mount_point@ == p) by {
            if exists|i: int| 0 <= i < nested@.len() && #[trigger] nested@[i].mount_point@ == p {
                let i = choose|i: int| 0 <= i < nested@.len() && #[trigger] nested@[i].mount_point@ == p;
                assert(has_name(points@, p));
            }
            if table_has_nested(target@, mounts@, p) {
                assert(has_name(points@, p));
                let i = choose|i: int| 0 <= i < points@.len() && #[trigger] points@[i]@ == p;
                assert(nested@[i].mount_point@ == p);
            }
        }
    }
    let plan = OverlayMountPlan { children, nested };
    assert(plan.nested@ == nested@);
    plan
}

} // verus!
