//! The pure decisions of the boot mount pipeline: statistics, the active
//! mount list, mount sources and where shallow overlay sources are staged.
use vstd::prelude::*;

use crate::errors::{Error, Result};
use crate::paths::{components, split_components, trim, trimmed, views};
use crate::plan::paths::join_step;
use crate::scanner::ModuleRecord;
use crate::state::{MountStatistics, RunState};
use crate::sys::mountinfo::{
    has_entry, lemma_path_order, path_lt, path_same, path_under, same_path, snapshot_entry_under, under, MountSnapshot,
};
use crate::text::{append_str, has_name, insert_name, lex_lt, owned, sorted_names, str_eq};

verus! {

/// Targets whose overlay mounts are labelled with the neutral `overlay`
/// source, so that root managers never try to unmount them.
pub open spec fn ignored_unmount_target(t: Seq<char>) -> bool {
    t == "/system/lib"@ || t == "/system/lib64"@ || t == "/vendor/lib"@ || t == "/vendor/lib64"@
}

/// Summarises the execution counters as the boot's statistics.
pub fn pipeline_stats(
    overlay_dir_mounts: usize,
    shallow_overlay_mounts: usize,
    magic_files: usize,
    magic_symlinks: usize,
    ignored_entries: usize,
    magic_dirs: usize,
) -> (s: MountStatistics)
    requires
        overlay_dir_mounts + shallow_overlay_mounts + magic_files + magic_symlinks + magic_dirs
            <= usize::MAX,
    ensures
        s.total_mounts == overlay_dir_mounts + shallow_overlay_mounts + magic_files + magic_symlinks
            + magic_dirs,
        s.successful_mounts == s.total_mounts,
        s.failed_mounts == 0,
        s.files_mounted == magic_files,
        s.symlinks_created == magic_symlinks,
        s.overlayfs_mounts == overlay_dir_mounts + shallow_overlay_mounts,
        s.ignored_entries == ignored_entries,
        s.magic_dirs == magic_dirs,
{
    let successful = overlay_dir_mounts + shallow_overlay_mounts + magic_files + magic_symlinks
        + magic_dirs;
    MountStatistics {
        total_mounts: successful,
        successful_mounts: successful,
        failed_mounts: 0,
        files_mounted: magic_files,
        symlinks_created: magic_symlinks,
        overlayfs_mounts: overlay_dir_mounts + shallow_overlay_mounts,
        ignored_entries,
        magic_dirs,
    }
}

fn add_all(out: &mut Vec<String>, items: &[String])
    requires
        sorted_names(old(out)@),
    ensures
        sorted_names(final(out)@),
        forall|x: Seq<char>| #[trigger] has_name(final(out)@, x) <==> has_name(old(out)@, x) || has_name(items@, x),
{
    let mut i: usize = 0;
    while i < items.len()
        invariant
            0 <= i <= items@.len(),
            sorted_names(out@),
            forall|x: Seq<char>| #[trigger] has_name(out@, x) <==> has_name(old(out)@, x) || has_name(
                items@.subrange(0, i as int),
                x,
            ),
        decreases items@.len() - i,
    {
        let ghost prev = out@;
        insert_name(out, items[i].as_str());
        proof {
            let pre = items@.subrange(0, i as int);
            let next = items@.subrange(0, i + 1);
            assert forall|x: Seq<char>| #[trigger] has_name(out@, x) <==> has_name(old(out)@, x) || has_name(next, x) by {
                assert(has_name(prev, x) <==> has_name(old(out)@, x) || has_name(pre, x));
                if has_name(next, x) {
                    let k = choose|k: int| 0 <= k < next.len() && #[trigger] next[k]@ == x;
                    if k < i {
                        assert(pre[k]@ == x);
                    }
                }
                if has_name(pre, x) {
                    let k = choose|k: int| 0 <= k < pre.len() && #[trigger] pre[k]@ == x;
                    assert(next[k]@ == x);
                }
                if x == items@[i as int]@ {
                    assert(next[i as int]@ == x);
                }
            }
        }
        i = i + 1;
    }
    assert(items@.subrange(0, items@.len() as int) =~= items@);
}

/// Every backend's successful targets in one ordered list without repeats;
/// VFS injection points count as active mount points too.
pub fn merge_active_mounts(overlay: &[String], magic: &[String], vfs: &[String]) -> (r: Vec<String>)
    ensures
        sorted_names(r@),
        forall|x: Seq<char>| #[trigger] has_name(r@, x) <==> has_name(overlay@, x) || has_name(magic@, x)
            || has_name(vfs@, x),
{
    let mut out: Vec<String> = Vec::new();
    add_all(&mut out, overlay);
    add_all(&mut out, magic);
    add_all(&mut out, vfs);
    out
}

/// The mount source name of the active root manager.
pub fn effective_mount_source(ksu_active: bool) -> (r: &'static str)
    ensures
        r@ == (if ksu_active { "KSU"@ } else { "APatch"@ }),
{
    if ksu_active {
        "KSU"
    } else {
        "APatch"
    }
}

/// The mount source for an overlay at `target`: the neutral `overlay` for
/// the partitions that are never unmounted, else the configured one.
pub fn overlay_mount_source<'a>(target: &str, configured: &'a str) -> (r: &'a str)
    ensures
        ignored_unmount_target(trimmed(target@)) ==> r@ == "overlay"@,
        !ignored_unmount_target(trimmed(target@)) ==> r == configured,
{
    let t = trim(target);
    let s = t.as_str();
    proof {
        reveal_strlit("overlay");
    }
    if str_eq(s, "/system/lib") || str_eq(s, "/system/lib64") || str_eq(s, "/vendor/lib") || str_eq(s, "/vendor/lib64") {
        "overlay"
    } else {
        configured
    }
}

/// The module whose source directory holds `source` most deeply, the last
/// one among equally deep candidates, or -1.
pub open spec fn owning_module(source: Seq<char>, modules: Seq<ModuleRecord>, i: int, best: int) -> int
    decreases modules.len() - i,
{
    if i < 0 || i >= modules.len() {
        best
    } else if under(source, modules[i].source_path@) && (best < 0 || components(modules[i].source_path@).len()
        >= components(modules[best].source_path@).len()) {
        owning_module(source, modules, i + 1, i)
    } else {
        owning_module(source, modules, i + 1, best)
    }
}

/// `parts` joined with `/`.
pub open spec fn slash_joined(parts: Seq<Seq<char>>) -> Seq<char>
    decreases parts.len(),
{
    if parts.len() == 0 {
        Seq::empty()
    } else if parts.len() == 1 {
        parts[0]
    } else {
        slash_joined(parts.drop_last()) + seq!['/'] + parts.last()
    }
}

/// Where the file-level overlay `source` is staged: below `storage_root`,
/// in a directory named after its module, at its path inside the module.
pub open spec fn spec_staged_path(source: Seq<char>, modules: Seq<ModuleRecord>, storage_root: Seq<char>) -> Seq<char> {
    let m = modules[owning_module(source, modules, 0, -1)];
    join_step(
        join_step(storage_root, m.id@),
        slash_joined(components(source).skip(components(m.source_path@).len() as int)),
    )
}

/// Places the file-level overlay `source` under the prepared storage.
pub fn staged_overlay_path(source: &str, modules: &[ModuleRecord], storage_root: &str) -> (r: Result<String>)
    ensures
        r is Err <==> owning_module(source@, modules@, 0, -1) < 0,
        r matches Ok(p) ==> p@ == spec_staged_path(source@, modules@, storage_root@),
{
    let mut best: usize = modules.len();
    let mut best_depth: usize = 0;
    let mut i: usize = 0;
    while i < modules.len()
        invariant
            0 <= i <= modules@.len(),
            best <= modules@.len(),
            best < modules@.len() ==> best < i && best_depth == components(modules@[best as int].source_path@).len()
                && under(source@, modules@[best as int].source_path@),
            owning_module(source@, modules@, i as int, if best == modules@.len() { -1 } else { best as int })
                == owning_module(source@, modules@, 0, -1),
        decreases modules@.len() - i,
    {
        let root = modules[i].source_path.as_str();
        if path_under(source, root) {
            let root_parts = split_components(root);
            let depth = root_parts.len();
            proof {
                assert(views(root_parts@).len() == depth);
            }
            if best == modules.len() || depth >= best_depth {
                best = i;
                best_depth = depth;
            }
        }
        i = i + 1;
    }
    if best == modules.len() {
        let mut message = owned("overlay source is outside every scanned module: ");
        append_str(&mut message, source);
        return Err(Error::msg(message));
    }
    let m = &modules[best];
    let parts = split_components(source);
    let mut relative = String::new();
    let mut k: usize = best_depth;
    proof {
        assert(owning_module(source@, modules@, 0, -1) == best as int);
        assert(under(source@, m.source_path@));
        assert(views(parts@).len() == parts@.len());
    }
    let ghost rest = views(parts@).skip(best_depth as int);
    assert(rest.subrange(0, 0) =~= Seq::<Seq<char>>::empty());
    while k < parts.len()
        invariant
            best_depth <= k <= parts@.len(),
            rest == views(parts@).skip(best_depth as int),
            relative@ == slash_joined(rest.subrange(0, k - best_depth)),
        decreases parts@.len() - k,
    {
        proof {
            let pre = rest.subrange(0, k - best_depth + 1);
            assert(pre.drop_last() =~= rest.subrange(0, k - best_depth));
            assert(pre.last() == parts@[k as int]@);
            if k == best_depth {
                assert(pre[0] == parts@[k as int]@);
            }
        }
        if k > best_depth {
            crate::text::push_char(&mut relative, '/');
        }
        append_str(&mut relative, parts[k].as_str());
        proof {
            if k == best_depth {
                assert(relative@ =~= parts@[k as int]@);
            }
        }
        k = k + 1;
    }
    assert(rest.subrange(0, parts@.len() - best_depth) =~= rest);
    let mut path = owned(storage_root);
    join_piece(&mut path, m.id.as_str());
    join_piece(&mut path, relative.as_str());
    Ok(path)
}

fn join_piece(path: &mut String, piece: &str)
    ensures
        final(path)@ == join_step(old(path)@, piece@),
{
    let n = path.unicode_len();
    if n > 0 && path.as_str().get_char(n - 1) != '/' {
        crate::text::push_char(path, '/');
    }
    append_str(path, piece);
}

/// How a rollback of the mount pipeline ended: `clean`, `incomplete` (with
/// the mount targets it left behind) or `unverified`.
#[derive(Debug)]
pub struct RollbackSummary {
    pub status: String,
    pub leftover_targets: Vec<String>,
}

impl RollbackSummary {
    /// Every mount undone and the mount table back to its baseline.
    pub fn clean() -> (r: RollbackSummary)
        ensures
            r.status@ == "clean"@,
            r.leftover_targets@.len() == 0,
    {
        RollbackSummary { status: owned("clean"), leftover_targets: Vec::new() }
    }

    /// The mount table could not be read back to check the rollback.
    pub fn unverified() -> (r: RollbackSummary)
        ensures
            r.status@ == "unverified"@,
            r.leftover_targets@.len() == 0,
    {
        RollbackSummary { status: owned("unverified"), leftover_targets: Vec::new() }
    }

    /// The rollback left mounts behind or removed pre-existing ones.
    pub fn incomplete(leftover_targets: Vec<String>) -> (r: RollbackSummary)
        ensures
            r.status@ == "incomplete"@,
            r.leftover_targets@ == leftover_targets@,
    {
        RollbackSummary { status: owned("incomplete"), leftover_targets }
    }

    /// Judges a rollback from the number of its failed undo actions and the
    /// comparison of the mount table with its baseline (`None` when the
    /// table could not be read): clean only when nothing failed and nothing
    /// was left behind or removed.
    pub fn from_outcome(failures: usize, mismatches: Option<(Vec<String>, Vec<String>)>) -> (r: RollbackSummary)
        ensures
            mismatches is None ==> r.status@ == "unverified"@ && r.leftover_targets@.len() == 0,
            mismatches matches Some((leftover, missing)) ==> if failures == 0 && leftover@.len() == 0
                && missing@.len() == 0 {
                r.status@ == "clean"@ && r.leftover_targets@.len() == 0
            } else {
                r.status@ == "incomplete"@ && r.leftover_targets@ == leftover@
            },
    {
        match mismatches {
            None => RollbackSummary::unverified(),
            Some((leftover, missing)) => {
                if failures == 0 && leftover.len() == 0 && missing.len() == 0 {
                    RollbackSummary::clean()
                } else {
                    RollbackSummary::incomplete(leftover)
                }
            },
        }
    }

    /// Judges the state after a failed commit, when nothing is rolled back
    /// any more: incomplete with whatever is left behind, or unverified.
    pub fn after_commit_failure(mismatches: Option<(Vec<String>, Vec<String>)>) -> (r: RollbackSummary)
        ensures
            mismatches is None ==> r.status@ == "unverified"@ && r.leftover_targets@.len() == 0,
            mismatches matches Some((leftover, _)) ==> r.status@ == "incomplete"@ && r.leftover_targets@ == leftover@,
    {
        match mismatches {
            None => RollbackSummary::unverified(),
            Some((leftover, _)) => RollbackSummary::incomplete(leftover),
        }
    }
}

/// The fields of a run state that recording a mount outcome leaves alone.
pub open spec fn same_plan_fields(a: RunState, b: RunState) -> bool {
    &&& a.timestamp == b.timestamp
    &&& a.pid == b.pid
    &&& a.storage_mode == b.storage_mode
    &&& a.overlay_modules == b.overlay_modules
    &&& a.magic_modules == b.magic_modules
    &&& a.skip_mount_modules == b.skip_mount_modules
    &&& a.vfs_modules == b.vfs_modules
    &&& a.vfs_provider == b.vfs_provider
    &&& a.vfs_error == b.vfs_error
    &&& a.vfs_error_modules == b.vfs_error_modules
    &&& a.vfs_foreign_nomount == b.vfs_foreign_nomount
    &&& a.mode_stats == b.mode_stats
    &&& a.state_load == b.state_load
    &&& a.failure_reason == b.failure_reason
}

/// Whether `reasons` records a reason for module `x`.
pub open spec fn has_reason(reasons: Seq<(String, String)>, x: Seq<char>) -> bool {
    exists|i: int| 0 <= i < reasons.len() && #[trigger] reasons[i].0@ == x
}

/// The reason recorded for a module that carries a mount error marker.
pub open spec fn marker_reason() -> Seq<char> {
    "mount_error marker present"@
}

impl RunState {
    /// Records a failed mount pipeline: nothing counts as mounted, the
    /// statistics show one failed attempt, and the failed stage and the
    /// rollback's outcome are kept.
    pub fn record_mount_failure(&mut self, failed_stage: &str, rollback: &RollbackSummary)
        ensures
            same_plan_fields(*final(self), *old(self)),
            final(self).mount_error_modules == old(self).mount_error_modules,
            final(self).mount_error_reasons == old(self).mount_error_reasons,
            final(self).mount_point@.len() == 0,
            final(self).active_mounts@.len() == 0,
            final(self).overlay_active_mounts@.len() == 0,
            final(self).magic_active_mounts@.len() == 0,
            final(self).vfs_active_mounts@.len() == 0,
            final(self).confirmed_active_mounts@.len() == 0,
            final(self).mount_stats == (MountStatistics {
                total_mounts: 1,
                successful_mounts: 0,
                failed_mounts: 1,
                files_mounted: 0,
                symlinks_created: 0,
                overlayfs_mounts: 0,
                ignored_entries: 0,
                magic_dirs: 0,
            }),
            final(self).failed_stage matches Some(s) && s@ == failed_stage@,
            final(self).rollback_status matches Some(s) && s@ == rollback.status@,
            views(final(self).leftover_mount_targets@) == views(rollback.leftover_targets@),
    {
        self.mount_point = String::new();
        self.active_mounts = Vec::new();
        self.overlay_active_mounts = Vec::new();
        self.magic_active_mounts = Vec::new();
        self.vfs_active_mounts = Vec::new();
        self.confirmed_active_mounts = Vec::new();
        let mut stats = MountStatistics::zero();
        stats.total_mounts = 1;
        stats.failed_mounts = 1;
        self.mount_stats = stats;
        self.failed_stage = Some(owned(failed_stage));
        self.rollback_status = Some(rollback.status.clone());
        let mut leftover: Vec<String> = Vec::new();
        let mut i: usize = 0;
        while i < rollback.leftover_targets.len()
            invariant
                0 <= i <= rollback.leftover_targets@.len(),
                views(leftover@) == views(rollback.leftover_targets@).take(i as int),
            decreases rollback.leftover_targets@.len() - i,
        {
            let ghost before = leftover@;
            leftover.push(rollback.leftover_targets[i].clone());
            assert(views(leftover@) =~= views(before).push(rollback.leftover_targets@[i as int]@));
            assert(views(rollback.leftover_targets@).take(i + 1) =~= views(rollback.leftover_targets@).take(i as int).push(rollback.leftover_targets@[i as int]@));
            i = i + 1;
        }
        assert(views(rollback.leftover_targets@).take(rollback.leftover_targets@.len() as int) =~= views(rollback.leftover_targets@));
        self.leftover_mount_targets = leftover;
    }

    /// Records the mounts that the mount table confirmed, before the
    /// transaction commits: the active list is every backend's confirmed
    /// targets without repeats, each module with a mount error marker gets
    /// its reason, and the rollback status is `pending_commit`. With
    /// unmounting enabled the storage mount point is not kept.
    #[allow(clippy::too_many_arguments)]
    pub fn record_mount_success(
        &mut self,
        overlay_targets: Vec<String>,
        magic_targets: Vec<String>,
        vfs_targets: Vec<String>,
        stats: MountStatistics,
        mount_error_modules: Vec<String>,
        disable_umount: bool,
    )
        ensures
            same_plan_fields(*final(self), *old(self)),
            sorted_names(final(self).active_mounts@),
            forall|x: Seq<char>| #[trigger] has_name(final(self).active_mounts@, x) <==> has_name(overlay_targets@, x)
                || has_name(magic_targets@, x) || has_name(vfs_targets@, x),
            final(self).confirmed_active_mounts@ == final(self).active_mounts@,
            final(self).overlay_active_mounts@ == overlay_targets@,
            final(self).magic_active_mounts@ == magic_targets@,
            final(self).vfs_active_mounts@ == vfs_targets@,
            final(self).mount_stats == stats,
            final(self).mount_error_modules@ == mount_error_modules@,
            forall|i: int, j: int| 0 <= i < j < final(self).mount_error_reasons@.len() ==> lex_lt(
                #[trigger] final(self).mount_error_reasons@[i].0@,
                #[trigger] final(self).mount_error_reasons@[j].0@,
            ),
            forall|i: int| 0 <= i < final(self).mount_error_reasons@.len() ==> (#[trigger] final(self).mount_error_reasons@[i]).1@ == marker_reason(),
            forall|x: Seq<char>| #[trigger] has_reason(final(self).mount_error_reasons@, x) <==> has_name(mount_error_modules@, x),
            final(self).failed_stage is None,
            final(self).rollback_status matches Some(s) && s@ == "pending_commit"@,
            final(self).leftover_mount_targets@.len() == 0,
            !disable_umount ==> final(self).mount_point@.len() == 0,
            disable_umount ==> final(self).mount_point == old(self).mount_point,
    {
        let merged = merge_active_mounts(overlay_targets.as_slice(), magic_targets.as_slice(), vfs_targets.as_slice());
        let mut names: Vec<String> = Vec::new();
        add_all(&mut names, mount_error_modules.as_slice());
        let mut reasons: Vec<(String, String)> = Vec::new();
        let mut i: usize = 0;
        while i < names.len()
            invariant
                0 <= i <= names@.len(),
                reasons@.len() == i,
                forall|k: int| 0 <= k < i ==> (#[trigger] reasons@[k]).0@ == names@[k]@ && reasons@[k].1@ == marker_reason(),
            decreases names@.len() - i,
        {
            reasons.push((names[i].clone(), owned("mount_error marker present")));
            i = i + 1;
        }
        proof {
            assert forall|x: Seq<char>| #[trigger] has_reason(reasons@, x) <==> has_name(mount_error_modules@, x) by {
                if exists|i: int| 0 <= i < reasons@.len() && #[trigger] reasons@[i].0@ == x {
                    let i = choose|i: int| 0 <= i < reasons@.len() && #[trigger] reasons@[i].0@ == x;
                    assert(names@[i]@ == x);
                    assert(has_name(names@, x));
                }
                if has_name(mount_error_modules@, x) {
                    assert(has_name(names@, x));
                    let k = choose|k: int| 0 <= k < names@.len() && #[trigger] names@[k]@ == x;
                    assert(reasons@[k].0@ == x);
                }
            }
        }
        self.active_mounts = merged.clone();
        self.confirmed_active_mounts = merged;
        self.overlay_active_mounts = overlay_targets;
        self.magic_active_mounts = magic_targets;
        self.vfs_active_mounts = vfs_targets;
        self.mount_stats = stats;
        self.mount_error_modules = mount_error_modules;
        self.mount_error_reasons = reasons;
        self.failed_stage = None;
        self.rollback_status = Some(owned("pending_commit"));
        self.leftover_mount_targets = Vec::new();
        if !disable_umount {
            self.mount_point = String::new();
        }
    }

    /// Records that the mount transaction committed.
    pub fn record_commit(&mut self)
        ensures
            same_plan_fields(*final(self), *old(self)),
            final(self).rollback_status matches Some(s) && s@ == "committed"@,
            final(self).failed_stage is None,
            final(self).leftover_mount_targets@.len() == 0,
            final(self).mount_point == old(self).mount_point,
            final(self).active_mounts == old(self).active_mounts,
            final(self).mount_stats == old(self).mount_stats,
    {
        self.rollback_status = Some(owned("committed"));
        self.failed_stage = None;
        self.leftover_mount_targets = Vec::new();
    }
}

/// The snapshot holds `ids` at a mount point naming the path `x`, at or
/// below `root`.
pub open spec fn stack_at(v: Seq<(Seq<char>, Seq<i32>)>, x: Seq<char>, ids: Seq<i32>, root: Seq<char>) -> bool {
    exists|y: Seq<char>| same_path(y, x) && #[trigger] snapshot_entry_under(v, y, ids, root)
}

/// The snapshot has a mount point naming the path `x`, at or below `root`.
pub open spec fn point_at(v: Seq<(Seq<char>, Seq<i32>)>, x: Seq<char>, root: Seq<char>) -> bool {
    exists|y: Seq<char>, ids: Seq<i32>| same_path(y, x) && #[trigger] snapshot_entry_under(v, y, ids, root)
}

/// Below `root`, the current mount point `x` holds a stack the baseline did
/// not have there.
pub open spec fn left_under(baseline: Seq<(Seq<char>, Seq<i32>)>, current: Seq<(Seq<char>, Seq<i32>)>, root: Seq<char>, x: Seq<char>) -> bool {
    exists|ids: Seq<i32>| #[trigger] snapshot_entry_under(current, x, ids, root) && !stack_at(baseline, x, ids, root)
}

/// Below `root`, the baseline mount point `x` is gone.
pub open spec fn gone_under(baseline: Seq<(Seq<char>, Seq<i32>)>, current: Seq<(Seq<char>, Seq<i32>)>, root: Seq<char>, x: Seq<char>) -> bool {
    exists|ids: Seq<i32>| #[trigger] snapshot_entry_under(baseline, x, ids, root) && !point_at(current, x, root)
}

/// A mount point below one of `targets` that the rollback left different
/// from the baseline.
pub open spec fn is_leftover(baseline: Seq<(Seq<char>, Seq<i32>)>, current: Seq<(Seq<char>, Seq<i32>)>, targets: Seq<String>, x: Seq<char>) -> bool {
    exists|k: int| 0 <= k < targets.len() && #[trigger] left_under(baseline, current, targets[k]@, x)
}

/// A baseline mount point below one of `targets` that the rollback removed.
pub open spec fn is_missing(baseline: Seq<(Seq<char>, Seq<i32>)>, current: Seq<(Seq<char>, Seq<i32>)>, targets: Seq<String>, x: Seq<char>) -> bool {
    exists|k: int| 0 <= k < targets.len() && #[trigger] gone_under(baseline, current, targets[k]@, x)
}

fn ids_equal(a: &Vec<i32>, b: &Vec<i32>) -> (r: bool)
    ensures
        r == (a@ == b@),
{
    if a.len() != b.len() {
        return false;
    }
    let mut i: usize = 0;
    while i < a.len()
        invariant
            a@.len() == b@.len(),
            0 <= i <= a@.len(),
            forall|j: int| 0 <= j < i ==> a@[j] == b@[j],
        decreases a@.len() - i,
    {
        if a[i] != b[i] {
            return false;
        }
        i = i + 1;
    }
    assert(a@ =~= b@);
    true
}

/// The index of the entry of `list` naming the path `p`, if any.
fn find_point(list: &Vec<(String, Vec<i32>)>, p: &str) -> (r: Option<usize>)
    ensures
        r matches Some(j) ==> j < list@.len() && same_path(list@[j as int].0@, p@),
        r is None ==> forall|j: int| 0 <= j < list@.len() ==> !same_path(#[trigger] list@[j].0@, p@),
{
    let mut j: usize = 0;
    while j < list.len()
        invariant
            0 <= j <= list@.len(),
            forall|q: int| 0 <= q < j ==> !same_path(#[trigger] list@[q].0@, p@),
        decreases list@.len() - j,
    {
        if path_same(list[j].0.as_str(), p) {
            return Some(j);
        }
        j = j + 1;
    }
    None
}

/// Compares the mount table after a rollback with its baseline below each
/// target that the pipeline mounted: the mount points whose stack changed
/// or appeared (left behind), and the baseline points that are gone
/// (removed), each sorted and without repeats.
pub fn mountinfo_mismatches(baseline: &MountSnapshot, current: &MountSnapshot, targets: &[String]) -> (r: (Vec<String>, Vec<String>))
    ensures
        sorted_names(r.0@),
        sorted_names(r.1@),
        forall|x: Seq<char>| #[trigger] has_name(r.0@, x) <==> is_leftover(baseline@, current@, targets@, x),
        forall|x: Seq<char>| #[trigger] has_name(r.1@, x) <==> is_missing(baseline@, current@, targets@, x),
{
    let mut leftover: Vec<String> = Vec::new();
    let mut missing: Vec<String> = Vec::new();
    let mut k: usize = 0;
    while k < targets.len()
        invariant
            0 <= k <= targets@.len(),
            sorted_names(leftover@),
            sorted_names(missing@),
            forall|x: Seq<char>| #[trigger] has_name(leftover@, x) <==> exists|q: int| 0 <= q < k && #[trigger] left_under(baseline@, current@, targets@[q]@, x),
            forall|x: Seq<char>| #[trigger] has_name(missing@, x) <==> exists|q: int| 0 <= q < k && #[trigger] gone_under(baseline@, current@, targets@[q]@, x),
        decreases targets@.len() - k,
    {
        let root = targets[k].as_str();
        let before = baseline.subtree_ids(root);
        let after = current.subtree_ids(root);
        let ghost left0 = leftover@;
        let ghost miss0 = missing@;
        let mut a: usize = 0;
        while a < after.len()
            invariant
                0 <= a <= after@.len(),
                sorted_names(leftover@),
                forall|i: int, j: int| 0 <= i < j < after@.len() ==> path_lt(#[trigger] after@[i].0@, #[trigger] after@[j].0@),
                forall|i: int, j: int| 0 <= i < j < before@.len() ==> path_lt(#[trigger] before@[i].0@, #[trigger] before@[j].0@),
                forall|x: Seq<char>, ids: Seq<i32>| #[trigger] has_entry(after@, x, ids) <==> snapshot_entry_under(current@, x, ids, root@),
                forall|x: Seq<char>, ids: Seq<i32>| #[trigger] has_entry(before@, x, ids) <==> snapshot_entry_under(baseline@, x, ids, root@),
                forall|x: Seq<char>| #[trigger] has_name(leftover@, x) <==> has_name(left0, x) || exists|q: int|
                    0 <= q < a && #[trigger] after@[q].0@ == x && left_under(baseline@, current@, root@, x),
            decreases after@.len() - a,
        {
            let p = after[a].0.as_str();
            let found = find_point(&before, p);
            let changed = match found {
                None => true,
                Some(j) => !ids_equal(&before[j].1, &after[a].1),
            };
            proof {
                let x = after@[a as int].0@;
                let ids = after@[a as int].1@;
                assert(has_entry(after@, x, ids));
                assert(snapshot_entry_under(current@, x, ids, root@));
                // the current stack at `x` is unique
                assert forall|ids2: Seq<i32>| #[trigger] snapshot_entry_under(current@, x, ids2, root@) implies ids2 == ids by {
                    assert(has_entry(after@, x, ids2));
                    let i = choose|i: int| 0 <= i < after@.len() && #[trigger] after@[i].0@ == x && after@[i].1@ == ids2;
                    if i != a {
                        if i < a {
                            lemma_path_order(after@[i].0@, after@[a as int].0@, x);
                        } else {
                            lemma_path_order(after@[a as int].0@, after@[i].0@, x);
                        }
                    }
                }
                if changed {
                    assert(left_under(baseline@, current@, root@, x)) by {
                        if stack_at(baseline@, x, ids, root@) {
                            let y = choose|y: Seq<char>| same_path(y, x) && #[trigger] snapshot_entry_under(baseline@, y, ids, root@);
                            assert(has_entry(before@, y, ids));
                            let i = choose|i: int| 0 <= i < before@.len() && #[trigger] before@[i].0@ == y && before@[i].1@ == ids;
                            assert(same_path(before@[i].0@, p@));
                            if let Some(j) = found {
                                if j != i {
                                    if (j as int) < i {
                                        lemma_path_order(before@[j as int].0@, before@[i].0@, p@);
                                    } else {
                                        lemma_path_order(before@[i].0@, before@[j as int].0@, p@);
                                    }
                                    lemma_path_order(before@[j as int].0@, p@, before@[i].0@);
                                    lemma_path_order(before@[i].0@, p@, before@[j as int].0@);
                                }
                            }
                        }
                    }
                } else {
                    assert(!left_under(baseline@, current@, root@, x)) by {
                        if let Some(j) = found {
                            let y = before@[j as int].0@;
                            assert(has_entry(before@, y, before@[j as int].1@));
                            assert(snapshot_entry_under(baseline@, y, ids, root@));
                            assert(stack_at(baseline@, x, ids, root@));
                        }
                        if left_under(baseline@, current@, root@, x) {
                            let ids2 = choose|ids2: Seq<i32>| #[trigger] snapshot_entry_under(current@, x, ids2, root@) && !stack_at(baseline@, x, ids2, root@);
                            assert(ids2 == ids);
                        }
                    }
                }
            }
            if changed {
                insert_name(&mut leftover, p);
            }
            a = a + 1;
        }
        a = 0;
        while a < before.len()
            invariant
                0 <= a <= before@.len(),
                sorted_names(missing@),
                forall|x: Seq<char>, ids: Seq<i32>| #[trigger] has_entry(after@, x, ids) <==> snapshot_entry_under(current@, x, ids, root@),
                forall|x: Seq<char>, ids: Seq<i32>| #[trigger] has_entry(before@, x, ids) <==> snapshot_entry_under(baseline@, x, ids, root@),
                forall|x: Seq<char>| #[trigger] has_name(missing@, x) <==> has_name(miss0, x) || exists|q: int|
                    0 <= q < a && #[trigger] before@[q].0@ == x && gone_under(baseline@, current@, root@, x),
            decreases before@.len() - a,
        {
            let p = before[a].0.as_str();
            let absent = find_point(&after, p).is_none();
            proof {
                let x = before@[a as int].0@;
                let ids = before@[a as int].1@;
                assert(has_entry(before@, x, ids));
                assert(snapshot_entry_under(baseline@, x, ids, root@));
                if absent {
                    assert(!point_at(current@, x, root@)) by {
                        if point_at(current@, x, root@) {
                            let (y, ids2) = choose|y: Seq<char>, ids2: Seq<i32>| same_path(y, x) && #[trigger] snapshot_entry_under(current@, y, ids2, root@);
                            assert(has_entry(after@, y, ids2));
                            let i = choose|i: int| 0 <= i < after@.len() && #[trigger] after@[i].0@ == y && after@[i].1@ == ids2;
                            assert(!same_path(after@[i].0@, p@));
                        }
                    }
                    assert(gone_under(baseline@, current@, root@, x));
                } else {
                    assert(point_at(current@, x, root@)) by {
                        let found = choose|j: int| 0 <= j < after@.len() && same_path(#[trigger] after@[j].0@, p@);
                        assert(has_entry(after@, after@[found].0@, after@[found].1@));
                        assert(snapshot_entry_under(current@, after@[found].0@, after@[found].1@, root@));
                    }
                }
            }
            if absent {
                insert_name(&mut missing, p);
            }
            a = a + 1;
        }
        proof {
            assert forall|x: Seq<char>| #[trigger] has_name(leftover@, x) <==> exists|q: int| 0 <= q < k + 1 && #[trigger] left_under(baseline@, current@, targets@[q]@, x) by {
                if left_under(baseline@, current@, root@, x) {
                    let ids = choose|ids: Seq<i32>| #[trigger] snapshot_entry_under(current@, x, ids, root@) && !stack_at(baseline@, x, ids, root@);
                    assert(has_entry(after@, x, ids));
                    let i = choose|i: int| 0 <= i < after@.len() && #[trigger] after@[i].0@ == x && after@[i].1@ == ids;
                    assert(after@[i].0@ == x);
                }
                if exists|q: int| 0 <= q < k + 1 && #[trigger] left_under(baseline@, current@, targets@[q]@, x) {
                    let q = choose|q: int| 0 <= q < k + 1 && #[trigger] left_under(baseline@, current@, targets@[q]@, x);
                    if q == k {
                        assert(left_under(baseline@, current@, root@, x));
                    }
                }
            }
            assert forall|x: Seq<char>| #[trigger] has_name(missing@, x) <==> exists|q: int| 0 <= q < k + 1 && #[trigger] gone_under(baseline@, current@, targets@[q]@, x) by {
                if gone_under(baseline@, current@, root@, x) {
                    let ids = choose|ids: Seq<i32>| #[trigger] snapshot_entry_under(baseline@, x, ids, root@) && !point_at(current@, x, root@);
                    assert(has_entry(before@, x, ids));
                    let i = choose|i: int| 0 <= i < before@.len() && #[trigger] before@[i].0@ == x && before@[i].1@ == ids;
                    assert(before@[i].0@ == x);
                }
                if exists|q: int| 0 <= q < k + 1 && #[trigger] gone_under(baseline@, current@, targets@[q]@, x) {
                    let q = choose|q: int| 0 <= q < k + 1 && #[trigger] gone_under(baseline@, current@, targets@[q]@, x);
                    if q == k {
                        assert(gone_under(baseline@, current@, root@, x));
                    }
                }
            }
        }
        k = k + 1;
    }
    (leftover, missing)
}

} // verus!
