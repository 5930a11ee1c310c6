//! The boot snapshots derived from a plan: the run state at plan time, the
//! module list the UI shows and which modules really mounted.
use vstd::prelude::*;

use crate::config::{rule_index, spec_mode_name, Config, Mode};
use crate::mount_tree::{lookup, node_has_id, own_id, target_path};
use crate::paths::views;
use crate::plan::planner::MountPlan;
use crate::scanner::ModuleRecord;
use crate::state::{AppModule, AppModuleRules, ModeStats, MountStatistics, RunState, NO_STORAGE_MODE};
use crate::appended::{appended_mounted, lemma_append_mounted, lemma_appended_start, lemma_skip_unmounted};
use crate::text::{has_name, insert_name, owned, sorted_names, str_eq};

verus! {

fn copy_names(v: &Vec<String>) -> (r: Vec<String>)
    ensures
        views(r@) == views(v@),
{
    let mut out: Vec<String> = Vec::new();
    let mut i: usize = 0;
    while i < v.len()
        invariant
            0 <= i <= v@.len(),
            views(out@) == views(v@.subrange(0, i as int)),
        decreases v@.len() - i,
    {
        let ghost before = out@;
        out.push(owned(v[i].as_str()));
        assert(views(out@) =~= views(before).push(v@[i as int]@));
        assert(views(v@.subrange(0, i + 1)) =~= views(v@.subrange(0, i as int)).push(v@[i as int]@));
        i = i + 1;
    }
    assert(v@.subrange(0, v@.len() as int) =~= v@);
    out
}

/// The ids of the modules that skip mounting, in scan order.
pub open spec fn skip_ids(modules: Seq<ModuleRecord>) -> Seq<Seq<char>>
    decreases modules.len(),
{
    if modules.len() == 0 {
        Seq::empty()
    } else {
        let rest = skip_ids(modules.drop_last());
        if modules.last().skip_mount {
            rest.push(modules.last().id@)
        } else {
            rest
        }
    }
}

impl RunState {
    /// The run state at plan time: the planned modules per backend, the
    /// skipped modules and the modules carrying a mount error marker. No
    /// overlay storage exists yet, so the storage mode is the sentinel.
    pub fn from_plan(
        config: &Config,
        modules: &[ModuleRecord],
        plan: &MountPlan,
        mount_error_modules: Vec<String>,
        timestamp: u64,
        pid: u32,
    ) -> (state: RunState)
        ensures
            state.storage_mode@ == NO_STORAGE_MODE@,
            state.mount_point@.len() == 0,
            views(state.overlay_modules@) == views(plan.overlay_module_ids@),
            views(state.magic_modules@) == views(plan.magic_module_ids@),
            views(state.vfs_modules@) == views(plan.vfs_module_ids@),
            forall|x: Seq<char>| #[trigger] has_name(state.skip_mount_modules@, x) <==> exists|i: int|
                0 <= i < modules@.len() && #[trigger] modules@[i].skip_mount && modules@[i].id@ == x,
            views(state.skip_mount_modules@) == skip_ids(modules@),
            state.mount_error_modules == mount_error_modules,
            state.mount_error_reasons@.len() == mount_error_modules@.len(),
            forall|i: int| 0 <= i < mount_error_modules@.len() ==> (#[trigger] state.mount_error_reasons@[i]).0@
                == mount_error_modules@[i]@ && state.mount_error_reasons@[i].1@ == "mount_error marker present"@,
            state.mode_stats == (ModeStats {
                overlayfs: plan.overlay_module_ids@.len() as usize,
                magicmount: plan.magic_module_ids@.len() as usize,
                vfs: plan.vfs_module_ids@.len() as usize,
            }),
            state.active_mounts@.len() == 0,
            state.mount_stats == MountStatistics::spec_zero(),
            state.timestamp == timestamp,
            state.pid == pid,
    {
        let mut skip: Vec<String> = Vec::new();
        let mut i: usize = 0;
        while i < modules.len()
            invariant
                0 <= i <= modules@.len(),
                forall|x: Seq<char>| #[trigger] has_name(skip@, x) <==> exists|k: int|
                    0 <= k < i && #[trigger] modules@[k].skip_mount && modules@[k].id@ == x,
                views(skip@) == skip_ids(modules@.take(i as int)),
            decreases modules@.len() - i,
        {
            let ghost before = skip@;
            proof {
                assert(modules@.take(i + 1).drop_last() =~= modules@.take(i as int));
            }
            if modules[i].skip_mount {
                skip.push(owned(modules[i].id.as_str()));
                assert(views(skip@) =~= views(before).push(modules@[i as int].id@));
            }
            proof {
                assert forall|x: Seq<char>| #[trigger] has_name(skip@, x) <==> exists|k: int|
                    0 <= k < i + 1 && #[trigger] modules@[k].skip_mount && modules@[k].id@ == x by {
                    if has_name(skip@, x) {
                        let j = choose|j: int| 0 <= j < skip@.len() && #[trigger] skip@[j]@ == x;
                        if j < before.len() {
                            assert(before[j]@ == x);
                            assert(has_name(before, x));
                            let k = choose|k: int| 0 <= k < i && #[trigger] modules@[k].skip_mount && modules@[k].id@ == x;
                            assert(modules@[k].skip_mount);
                        } else {
                            assert(modules@[i as int].skip_mount);
                        }
                    }
                    if exists|k: int| 0 <= k < i + 1 && #[trigger] modules@[k].skip_mount && modules@[k].id@ == x {
                        let k = choose|k: int| 0 <= k < i + 1 && #[trigger] modules@[k].skip_mount && modules@[k].id@ == x;
                        if k < i {
                            assert(modules@[k].skip_mount);
                            assert(has_name(before, x));
                            let j = choose|j: int| 0 <= j < before.len() && #[trigger] before[j]@ == x;
                            assert(skip@[j]@ == x);
                        } else {
                            assert(skip@[skip@.len() - 1]@ == x);
                        }
                    }
                }
            }
            i = i + 1;
        }
        assert(modules@.take(modules@.len() as int) =~= modules@);
        let mut reasons: Vec<(String, String)> = Vec::new();
        let mut e: usize = 0;
        while e < mount_error_modules.len()
            invariant
                0 <= e <= mount_error_modules@.len(),
                reasons@.len() == e,
                forall|q: int| 0 <= q < e ==> (#[trigger] reasons@[q]).0@ == mount_error_modules@[q]@
                    && reasons@[q].1@ == "mount_error marker present"@,
            decreases mount_error_modules@.len() - e,
        {
            reasons.push((owned(mount_error_modules[e].as_str()), owned("mount_error marker present")));
            e = e + 1;
        }
        let mode_stats = ModeStats {
            overlayfs: plan.overlay_module_ids.len(),
            magicmount: plan.magic_module_ids.len(),
            vfs: plan.vfs_module_ids.len(),
        };
        let mut state = RunState::new(
            owned(NO_STORAGE_MODE),
            String::new(),
            copy_names(&plan.overlay_module_ids),
            copy_names(&plan.magic_module_ids),
            skip,
            Vec::new(),
            Vec::new(),
            Vec::new(),
            MountStatistics::zero(),
            mode_stats,
            timestamp,
            pid,
        );
        state.vfs_modules = copy_names(&plan.vfs_module_ids);
        state.mount_error_modules = mount_error_modules;
        state.mount_error_reasons = reasons;
        state
    }
}

/// The mode a module is listed with: ignore when blacklisted, else the
/// first backend whose planned module list names it.
pub open spec fn spec_listed_mode(plan: MountPlan, blacklisted: bool, id: Seq<char>) -> Mode {
    if blacklisted {
        Mode::Ignore
    } else if has_name(plan.overlay_module_ids@, id) {
        Mode::Overlay
    } else if has_name(plan.magic_module_ids@, id) {
        Mode::Magic
    } else if has_name(plan.vfs_module_ids@, id) {
        Mode::Vfs
    } else {
        Mode::Ignore
    }
}

fn contains(names: &Vec<String>, name: &str) -> (r: bool)
    ensures
        r == has_name(names@, name@),
{
    crate::plan::paths::contains_name(names.as_slice(), name)
}

/// A module's configured rules as the UI shows them.
pub fn app_module_rules(config: &Config, module_id: &str) -> (r: AppModuleRules)
    ensures
        rule_index(config.rules@, module_id@, 0) < 0 ==> r.default_mode is None && r.paths@.len() == 0,
        rule_index(config.rules@, module_id@, 0) >= 0 ==> {
            let rule = config.rules@[rule_index(config.rules@, module_id@, 0)].1;
            &&& (rule.default_mode is None ==> r.default_mode is None)
            &&& (rule.default_mode matches Some(m) ==> r.default_mode matches Some(t) && t@ == spec_mode_name(m))
            &&& r.paths@.len() == rule.paths@.len()
            &&& forall|i: int| 0 <= i < r.paths@.len() ==> (#[trigger] r.paths@[i]).0@ == rule.paths@[i].0@
                && r.paths@[i].1@ == spec_mode_name(rule.paths@[i].1)
        },
{
    match config.rule_for(module_id) {
        None => AppModuleRules { default_mode: None, paths: Vec::new() },
        Some(rule) => {
            let default_mode = match rule.default_mode {
                Some(m) => Some(owned(m.as_str())),
                None => None,
            };
            let mut paths: Vec<(String, String)> = Vec::new();
            let mut i: usize = 0;
            while i < rule.paths.len()
                invariant
                    0 <= i <= rule.paths@.len(),
                    paths@.len() == i,
                    forall|q: int| 0 <= q < i ==> (#[trigger] paths@[q]).0@ == rule.paths@[q].0@
                        && paths@[q].1@ == spec_mode_name(rule.paths@[q].1),
                decreases rule.paths@.len() - i,
            {
                paths.push((owned(rule.paths[i].0.as_str()), owned(rule.paths[i].1.as_str())));
                i = i + 1;
            }
            AppModuleRules { default_mode, paths }
        },
    }
}

/// The module list shown to the UI. `mounted_module_ids` comes from the
/// execution result, never from the plan's selection.
pub fn app_modules(
    modules: &[ModuleRecord],
    config: &Config,
    plan: &MountPlan,
    mount_errors: &[String],
    mounted_module_ids: &[String],
) -> (r: Vec<AppModule>)
    ensures
        r@.len() == modules@.len(),
        forall|i: int| 0 <= i < r@.len() ==> {
            let m = modules@[i];
            let a = #[trigger] r@[i];
            let blacklisted = has_name(config.module_blacklist@, m.id@);
            &&& a.id@ == m.id@
            &&& a.name@ == m.name@
            &&& a.version@ == m.version@
            &&& a.author@ == m.author@
            &&& a.description@ == m.description@
            &&& a.source_path@ == m.source_path@
            &&& a.blacklisted == blacklisted
            &&& a.mode@ == spec_mode_name(spec_listed_mode(*plan, blacklisted, m.id@))
            &&& a.is_mounted == (!blacklisted && has_name(mounted_module_ids@, m.id@))
            &&& a.enabled == (!m.disabled && !blacklisted)
            &&& (a.mount_error is Some) == has_name(mount_errors@, m.id@)
            &&& (a.mount_error matches Some(t) ==> t@ == "mount_error marker present"@)
            &&& a.suggest_ignore == has_name(mount_errors@, m.id@)
        },
{
    let mut out: Vec<AppModule> = Vec::new();
    let mut i: usize = 0;
    while i < modules.len()
        invariant
            0 <= i <= modules@.len(),
            out@.len() == i,
            forall|q: int| 0 <= q < i ==> {
                let m = modules@[q];
                let a = #[trigger] out@[q];
                let blacklisted = has_name(config.module_blacklist@, m.id@);
                &&& a.id@ == m.id@
                &&& a.name@ == m.name@
                &&& a.version@ == m.version@
                &&& a.author@ == m.author@
                &&& a.description@ == m.description@
                &&& a.source_path@ == m.source_path@
                &&& a.blacklisted == blacklisted
                &&& a.mode@ == spec_mode_name(spec_listed_mode(*plan, blacklisted, m.id@))
                &&& a.is_mounted == (!blacklisted && has_name(mounted_module_ids@, m.id@))
                &&& a.enabled == (!m.disabled && !blacklisted)
                &&& (a.mount_error is Some) == has_name(mount_errors@, m.id@)
                &&& (a.mount_error matches Some(t) ==> t@ == "mount_error marker present"@)
                &&& a.suggest_ignore == has_name(mount_errors@, m.id@)
            },
        decreases modules@.len() - i,
    {
        let m = &modules[i];
        let id = m.id.as_str();
        let blacklisted = config.is_module_blacklisted(id);
        assert(blacklisted == has_name(config.module_blacklist@, m.id@));
        let mode = if blacklisted {
            Mode::Ignore
        } else if contains(&plan.overlay_module_ids, id) {
            Mode::Overlay
        } else if contains(&plan.magic_module_ids, id) {
            Mode::Magic
        } else if contains(&plan.vfs_module_ids, id) {
            Mode::Vfs
        } else {
            Mode::Ignore
        };
        let has_error = crate::plan::paths::contains_name(mount_errors, id);
        let mount_error = if has_error {
            Some(owned("mount_error marker present"))
        } else {
            None
        };
        let mounted = crate::plan::paths::contains_name(mounted_module_ids, id);
        out.push(AppModule {
            id: owned(id),
            name: owned(m.name.as_str()),
            version: owned(m.version.as_str()),
            author: owned(m.author.as_str()),
            description: owned(m.description.as_str()),
            mode: owned(mode.as_str()),
            is_mounted: !blacklisted && mounted,
            enabled: !m.disabled && !blacklisted,
            blacklisted,
            source_path: owned(m.source_path.as_str()),
            mount_error,
            suggest_ignore: has_error,
            rules: app_module_rules(config, id),
        });
        i = i + 1;
    }
    out
}

/// Whether file-level overlay rules exist under `target`.
pub open spec fn shallow_target(plan: MountPlan, target: Seq<char>) -> bool {
    exists|i: int| 0 <= i < plan.overlay_files@.len() && #[trigger] plan.overlay_files@[i].0@ == target
}

/// Whether module `x` really mounted: a directory-level overlay target holds
/// its own overlay source, a shallow overlay target holds one in its subtree,
/// or a magic target holds its own magic source.
pub open spec fn mounted_by(plan: MountPlan, overlay_targets: Seq<String>, magic_targets: Seq<String>, x: Seq<char>) -> bool {
    ||| exists|i: int| 0 <= i < overlay_targets.len() && #[trigger] mounted_at(plan, overlay_targets[i]@, x)
    ||| exists|i: int| 0 <= i < magic_targets.len() && #[trigger] magic_at(plan, magic_targets[i]@, x)
}

#[verifier::opaque]
pub open spec fn mounted_at(plan: MountPlan, t: Seq<char>, x: Seq<char>) -> bool {
    lookup(plan.tree.root, target_path(t)) matches Some(n) && (if shallow_target(plan, t) {
        node_has_id(n, Mode::Overlay, x)
    } else {
        own_id(n.sources@, Mode::Overlay, x)
    })
}

#[verifier::opaque]
pub open spec fn magic_at(plan: MountPlan, t: Seq<char>, x: Seq<char>) -> bool {
    lookup(plan.tree.root, target_path(t)) matches Some(n) && own_id(n.sources@, Mode::Magic, x)
}

fn add_names(out: &mut Vec<String>, names: &Vec<String>)
    requires
        sorted_names(old(out)@),
    ensures
        sorted_names(final(out)@),
        forall|x: Seq<char>| #[trigger] has_name(final(out)@, x) <==> has_name(old(out)@, x) || has_name(names@, x),
{
    let mut i: usize = 0;
    while i < names.len()
        invariant
            0 <= i <= names@.len(),
            sorted_names(out@),
            forall|x: Seq<char>| #[trigger] has_name(out@, x) <==> has_name(old(out)@, x) || has_name(names@.subrange(0, i as int), x),
        decreases names@.len() - i,
    {
        let ghost prev = out@;
        insert_name(out, names[i].as_str());
        proof {
            let pre = names@.subrange(0, i as int);
            let next = names@.subrange(0, i + 1);
            assert forall|x: Seq<char>| #[trigger] has_name(out@, x) <==> has_name(old(out)@, x) || has_name(next, x) by {
                assert(has_name(prev, x) <==> has_name(old(out)@, x) || has_name(pre, x));
                if has_name(next, x) {
                    let k = choose|k: int| 0 <= k < next.len() && #[trigger] next[k]@ == x;
                    if k < i {
                        assert(pre[k]@ == x);
                    }
                }
                if has_name(pre, x) {
                    let k = choose|k: int| 0 <= k < pre.len() && #[trigger] pre[k]@ == x;
                    assert(next[k]@ == x);
                }
                if x == names@[i as int]@ {
                    assert(next[i as int]@ == x);
                }
            }
        }
        i = i + 1;
    }
    assert(names@.subrange(0, names@.len() as int) =~= names@);
}

fn is_shallow(plan: &MountPlan, target: &str) -> (r: bool)
    ensures
        r == shallow_target(*plan, target@),
{
    let mut i: usize = 0;
    while i < plan.overlay_files.len()
        invariant
            0 <= i <= plan.overlay_files@.len(),
            forall|j: int| 0 <= j < i ==> #[trigger] plan.overlay_files@[j].0@ != target@,
        decreases plan.overlay_files@.len() - i,
    {
        if str_eq(plan.overlay_files[i].0.as_str(), target) {
            return true;
        }
        i = i + 1;
    }
    false
}

/// The modules that really mounted, derived from the final successful
/// targets rather than the plan's selection; only scanned modules count.
pub fn mounted_module_ids_for_snapshot(
    modules: &[ModuleRecord],
    plan: &MountPlan,
    overlay_targets: &[String],
    magic_targets: &[String],
) -> (r: Vec<String>)
    ensures
        sorted_names(r@),
        forall|x: Seq<char>| #[trigger] has_name(r@, x) <==> mounted_by(*plan, overlay_targets@, magic_targets@, x)
            && exists|k: int| 0 <= k < modules@.len() && #[trigger] modules@[k].id@ == x,
{
    let mut mounted: Vec<String> = Vec::new();
    let mut i: usize = 0;
    while i < overlay_targets.len()
        invariant
            0 <= i <= overlay_targets@.len(),
            sorted_names(mounted@),
            forall|x: Seq<char>| #[trigger] has_name(mounted@, x) <==> exists|q: int| 0 <= q < i && #[trigger] mounted_at(*plan, overlay_targets@[q]@, x),
        decreases overlay_targets@.len() - i,
    {
        let ids = overlay_ids_at(plan, overlay_targets[i].as_str());
        let ghost prev = mounted@;
        add_names(&mut mounted, &ids);
        proof {
            assert forall|x: Seq<char>| #[trigger] has_name(mounted@, x) <==> exists|q: int| 0 <= q < i + 1 && #[trigger] mounted_at(*plan, overlay_targets@[q]@, x) by {
                if has_name(prev, x) {
                    let q = choose|q: int| 0 <= q < i && #[trigger] mounted_at(*plan, overlay_targets@[q]@, x);
                    assert(mounted_at(*plan, overlay_targets@[q]@, x));
                }
                if exists|q: int| 0 <= q < i + 1 && #[trigger] mounted_at(*plan, overlay_targets@[q]@, x) {
                    let q = choose|q: int| 0 <= q < i + 1 && #[trigger] mounted_at(*plan, overlay_targets@[q]@, x);
                    if q < i {
                        assert(has_name(prev, x));
                    }
                }
            }
        }
        i = i + 1;
    }
    let mut j: usize = 0;
    while j < magic_targets.len()
        invariant
            0 <= j <= magic_targets@.len(),
            sorted_names(mounted@),
            forall|x: Seq<char>| #[trigger] has_name(mounted@, x) <==> (exists|q: int| 0 <= q < overlay_targets@.len() && #[trigger] mounted_at(*plan, overlay_targets@[q]@, x))
                || exists|q: int| 0 <= q < j && #[trigger] magic_at(*plan, magic_targets@[q]@, x),
        decreases magic_targets@.len() - j,
    {
        let ids = magic_ids_at(plan, magic_targets[j].as_str());
        let ghost prev = mounted@;
        add_names(&mut mounted, &ids);
        proof {
            assert forall|x: Seq<char>| #[trigger] has_name(mounted@, x) <==> (exists|q: int| 0 <= q < overlay_targets@.len() && #[trigger] mounted_at(*plan, overlay_targets@[q]@, x))
                || exists|q: int| 0 <= q < j + 1 && #[trigger] magic_at(*plan, magic_targets@[q]@, x) by {
                if exists|q: int| 0 <= q < j + 1 && #[trigger] magic_at(*plan, magic_targets@[q]@, x) {
                    let q = choose|q: int| 0 <= q < j + 1 && #[trigger] magic_at(*plan, magic_targets@[q]@, x);
                    if q < j {
                        assert(exists|q2: int| 0 <= q2 < j && #[trigger] magic_at(*plan, magic_targets@[q2]@, x));
                    }
                }
                if exists|q: int| 0 <= q < j && #[trigger] magic_at(*plan, magic_targets@[q]@, x) {
                    let q = choose|q: int| 0 <= q < j && #[trigger] magic_at(*plan, magic_targets@[q]@, x);
                    assert(magic_at(*plan, magic_targets@[q]@, x));
                }
            }
        }
        j = j + 1;
    }
    let mut out: Vec<String> = Vec::new();
    let mut k: usize = 0;
    while k < mounted.len()
        invariant
            0 <= k <= mounted@.len(),
            sorted_names(mounted@),
            sorted_names(out@),
            forall|x: Seq<char>| #[trigger] has_name(out@, x) <==> has_name(mounted@.subrange(0, k as int), x)
                && exists|q: int| 0 <= q < modules@.len() && #[trigger] modules@[q].id@ == x,
        decreases mounted@.len() - k,
    {
        let ghost prev = out@;
        if scanned(modules, mounted[k].as_str()) {
            insert_name(&mut out, mounted[k].as_str());
        }
        proof {
            let pre = mounted@.subrange(0, k as int);
            let next = mounted@.subrange(0, k + 1);
            assert forall|x: Seq<char>| #[trigger] has_name(out@, x) <==> has_name(next, x)
                && exists|q: int| 0 <= q < modules@.len() && #[trigger] modules@[q].id@ == x by {
                if has_name(next, x) {
                    let p = choose|p: int| 0 <= p < next.len() && #[trigger] next[p]@ == x;
                    if p < k {
                        assert(pre[p]@ == x);
                    }
                }
                if has_name(pre, x) {
                    let p = choose|p: int| 0 <= p < pre.len() && #[trigger] pre[p]@ == x;
                    assert(next[p]@ == x);
                }
                if x == mounted@[k as int]@ {
                    assert(next[k as int]@ == x);
                }
            }
        }
        k = k + 1;
    }
    assert(mounted@.subrange(0, mounted@.len() as int) =~= mounted@);
    out
}

fn overlay_ids_at(plan: &MountPlan, target: &str) -> (ids: Vec<String>)
    ensures
        sorted_names(ids@),
        forall|x: Seq<char>| #[trigger] has_name(ids@, x) <==> mounted_at(*plan, target@, x),
{
    reveal(mounted_at);
    if is_shallow(plan, target) {
        plan.tree.module_ids_for_subtree(Mode::Overlay, target)
    } else {
        plan.tree.module_ids_for_target(Mode::Overlay, target)
    }
}

fn magic_ids_at(plan: &MountPlan, target: &str) -> (ids: Vec<String>)
    ensures
        sorted_names(ids@),
        forall|x: Seq<char>| #[trigger] has_name(ids@, x) <==> magic_at(*plan, target@, x),
{
    reveal(magic_at);
    plan.tree.module_ids_for_target(Mode::Magic, target)
}

fn scanned(modules: &[ModuleRecord], id: &str) -> (r: bool)
    ensures
        r == exists|q: int| 0 <= q < modules@.len() && #[trigger] modules@[q].id@ == id@,
{
    let mut i: usize = 0;
    while i < modules.len()
        invariant
            0 <= i <= modules@.len(),
            forall|q: int| 0 <= q < i ==> #[trigger] modules@[q].id@ != id@,
        decreases modules@.len() - i,
    {
        if str_eq(modules[i].id.as_str(), id) {
            return true;
        }
        i = i + 1;
    }
    false
}

/// `r` shows module `id`'s configured rules (see `app_module_rules`).
pub open spec fn shows_rules(config: Config, id: Seq<char>, r: AppModuleRules) -> bool {
    &&& rule_index(config.rules@, id, 0) < 0 ==> r.default_mode is None && r.paths@.len() == 0
    &&& rule_index(config.rules@, id, 0) >= 0 ==> {
        let rule = config.rules@[rule_index(config.rules@, id, 0)].1;
        &&& (rule.default_mode is None ==> r.default_mode is None)
        &&& (rule.default_mode matches Some(m) ==> r.default_mode matches Some(t) && t@ == spec_mode_name(m))
        &&& r.paths@.len() == rule.paths@.len()
        &&& forall|i: int| 0 <= i < r.paths@.len() ==> (#[trigger] r.paths@[i]).0@ == rule.paths@[i].0@
            && r.paths@[i].1@ == spec_mode_name(rule.paths@[i].1)
    }
}

/// `b` is `a` with the configuration's current blacklist and rules: a
/// blacklisted module is disabled; the mounted backend stays as it was.
#[verifier::opaque]
pub open spec fn synced(config: Config, a: AppModule, b: AppModule) -> bool {
    let blacklisted = has_name(config.module_blacklist@, a.id@);
    &&& b == (AppModule { blacklisted, enabled: if blacklisted { false } else { a.enabled }, rules: b.rules, ..a })
    &&& shows_rules(config, a.id@, b.rules)
}

/// Presents the latest saved rules and blacklist on a boot snapshot,
/// keeping each module's mounted backend and status.
pub fn sync_app_module_rules(modules: &mut Vec<AppModule>, config: &Config)
    ensures
        final(modules)@.len() == old(modules)@.len(),
        forall|i: int| 0 <= i < final(modules)@.len() ==> synced(*config, old(modules)@[i], #[trigger] final(modules)@[i]),
        forall|i: int| 0 <= i < final(modules)@.len() ==> (#[trigger] final(modules)@[i]).id == old(modules)@[i].id,
{
    let ghost base = modules@;
    let mut i: usize = 0;
    while i < modules.len()
        invariant
            0 <= i <= modules@.len(),
            modules@.len() == base.len(),
            base == old(modules)@,
            forall|q: int| 0 <= q < i ==> synced(*config, base[q], #[trigger] modules@[q]),
            forall|q: int| 0 <= q < i ==> (#[trigger] modules@[q]).id == base[q].id,
            forall|q: int| i <= q < base.len() ==> #[trigger] modules@[q] == base[q],
        decreases modules@.len() - i,
    {
        let ghost before = modules@;
        let mut m = modules.remove(i);
        let blacklisted = config.is_module_blacklisted(m.id.as_str());
        m.blacklisted = blacklisted;
        if blacklisted {
            m.enabled = false;
        }
        m.rules = app_module_rules(config, m.id.as_str());
        modules.insert(i, m);
        proof {
            reveal(synced);
            assert forall|q: int| 0 <= q < modules@.len() && q != i implies #[trigger] modules@[q] == before[q] by {}
        }
        i = i + 1;
    }
}

/// The module list to show when no boot snapshot exists: the modules as
/// planned now (or unplanned, when planning fails), none of them mounted.
pub fn fallback_app_modules(
    modules: &[ModuleRecord],
    config: &Config,
    vfs_available: bool,
    mount_errors: &[String],
) -> (r: Vec<AppModule>)
    ensures
        r@.len() == modules@.len(),
        forall|i: int| 0 <= i < r@.len() ==> {
            let m = modules@[i];
            let a = #[trigger] r@[i];
            &&& a.id@ == m.id@
            &&& a.name@ == m.name@
            &&& a.version@ == m.version@
            &&& a.author@ == m.author@
            &&& a.description@ == m.description@
            &&& a.source_path@ == m.source_path@
            &&& !a.is_mounted
            &&& a.blacklisted == has_name(config.module_blacklist@, m.id@)
            &&& a.enabled == (!m.disabled && !a.blacklisted)
            &&& (a.mount_error is Some) == has_name(mount_errors@, m.id@)
            &&& a.suggest_ignore == has_name(mount_errors@, m.id@)
        },
{
    let promoted: Vec<String> = Vec::new();
    let plan = match crate::plan::planner::build_plan(&crate::plan::planner::PlanInput {
        modules,
        config,
        promoted_partitions: promoted.as_slice(),
        vfs_available,
    }) {
        Ok(plan) => plan,
        Err(_) => MountPlan::default(),
    };
    let none: Vec<String> = Vec::new();
    proof {
        assert forall|x: Seq<char>| !has_name(none@, x) by {}
    }
    app_modules(modules, config, &plan, mount_errors, none.as_slice())
}

/// The last cached entry for module `id`.
pub open spec fn last_cached(cached: Seq<AppModule>, id: Seq<char>) -> Option<AppModule>
    decreases cached.len(),
{
    if cached.len() == 0 {
        None
    } else if cached.last().id@ == id {
        Some(cached.last())
    } else {
        last_cached(cached.drop_last(), id)
    }
}

/// Whether an earlier listed module has id `id`.
pub open spec fn listed_before(listed: Seq<AppModule>, i: int, id: Seq<char>) -> bool {
    exists|j: int| 0 <= j < i && #[trigger] listed[j].id@ == id
}

/// The `i`-th installed module with the mounted backend and status of its
/// boot snapshot, when it has one not already claimed by an earlier entry.
pub open spec fn with_boot_status(cached: Seq<AppModule>, listed: Seq<AppModule>, i: int) -> AppModule {
    let m = listed[i];
    match last_cached(cached, m.id@) {
        Some(prev) => if listed_before(listed, i, m.id@) {
            m
        } else {
            AppModule { mode: prev.mode, is_mounted: prev.is_mounted, ..m }
        },
        None => m,
    }
}

/// A module of the boot snapshot that is no longer installed but still
/// mounted: kept, disabled, so that its ownership stays visible.
pub open spec fn kept_removed(cached: Seq<AppModule>, listed: Seq<AppModule>, id: Seq<char>) -> bool {
    &&& last_cached(cached, id) matches Some(prev) && prev.is_mounted
    &&& !exists|j: int| 0 <= j < listed.len() && #[trigger] listed[j].id@ == id
}

/// Sets `m` as the entry for its id in an id-ordered table.
fn table_put(table: &mut Vec<AppModule>, m: AppModule, Ghost(cached): Ghost<Seq<AppModule>>)
    requires
        forall|i: int, j: int| 0 <= i < j < old(table)@.len() ==> crate::text::lex_lt(#[trigger] old(table)@[i].id@, #[trigger] old(table)@[j].id@),
        forall|i: int| 0 <= i < old(table)@.len() ==> last_cached(cached, #[trigger] old(table)@[i].id@) == Some(old(table)@[i]),
        forall|x: Seq<char>| #[trigger] last_cached(cached, x) is Some ==> exists|i: int| 0 <= i < old(table)@.len() && #[trigger] old(table)@[i].id@ == x,
    ensures
        forall|i: int, j: int| 0 <= i < j < final(table)@.len() ==> crate::text::lex_lt(#[trigger] final(table)@[i].id@, #[trigger] final(table)@[j].id@),
        forall|i: int| 0 <= i < final(table)@.len() ==> last_cached(cached.push(m), #[trigger] final(table)@[i].id@) == Some(final(table)@[i]),
        forall|x: Seq<char>| #[trigger] last_cached(cached.push(m), x) is Some ==> exists|i: int| 0 <= i < final(table)@.len() && #[trigger] final(table)@[i].id@ == x,
{
    let ghost next = cached.push(m);
    proof {
        assert(next.drop_last() =~= cached);
    }
    let mut p: usize = 0;
    while p < table.len() && crate::text::str_lt(table[p].id.as_str(), m.id.as_str())
        invariant
            0 <= p <= table@.len(),
            table@ == old(table)@,
            forall|q: int| 0 <= q < p ==> crate::text::lex_lt(#[trigger] table@[q].id@, m.id@),
        decreases table@.len() - p,
    {
        p = p + 1;
    }
    let ghost before = table@;
    if p < table.len() && str_eq(table[p].id.as_str(), m.id.as_str()) {
        let ghost key = m.id@;
        table.set(p, m);
        proof {
            assert forall|i: int, j: int| 0 <= i < j < table@.len() implies crate::text::lex_lt(#[trigger] table@[i].id@, #[trigger] table@[j].id@) by {
                assert(table@[i].id@ == before[i].id@ && table@[j].id@ == before[j].id@);
            }
            assert forall|i: int| 0 <= i < table@.len() implies last_cached(next, #[trigger] table@[i].id@) == Some(table@[i]) by {
                if i != p {
                    assert(table@[i] == before[i]);
                    if before[i].id@ == key {
                        crate::text::lemma_lex_irreflexive(key);
                        if i < p {
                            assert(crate::text::lex_lt(before[i].id@, before[p as int].id@));
                        } else {
                            assert(crate::text::lex_lt(before[p as int].id@, before[i].id@));
                        }
                    }
                }
            }
            assert forall|x: Seq<char>| #[trigger] last_cached(next, x) is Some implies exists|i: int| 0 <= i < table@.len() && #[trigger] table@[i].id@ == x by {
                if x == key {
                    assert(table@[p as int].id@ == x);
                } else {
                    assert(last_cached(next, x) == last_cached(cached, x));
                    let i = choose|i: int| 0 <= i < before.len() && #[trigger] before[i].id@ == x;
                    assert(table@[i].id@ == x);
                }
            }
        }
    } else {
        proof {
            if p < before.len() {
                crate::text::lemma_lex_total(before[p as int].id@, m.id@);
            }
        }
        let ghost key = m.id@;
        table.insert(p, m);
        proof {
            assert(table@ =~= before.insert(p as int, table@[p as int]));
            assert forall|q: int| 0 <= q < before.len() implies #[trigger] before[q].id@ != key by {
                if q < p {
                    crate::text::lemma_lex_irreflexive(key);
                } else if q > p {
                    crate::text::lemma_lex_transitive(key, before[p as int].id@, before[q].id@);
                    crate::text::lemma_lex_irreflexive(key);
                }
            }
            assert forall|i: int, j: int| 0 <= i < j < table@.len() implies crate::text::lex_lt(#[trigger] table@[i].id@, #[trigger] table@[j].id@) by {
                if j < p {
                } else if j == p {
                } else if i < p {
                    assert(table@[j] == before[j - 1]);
                    if j - 1 > p {
                        crate::text::lemma_lex_transitive(key, before[p as int].id@, before[j - 1].id@);
                    }
                    crate::text::lemma_lex_transitive(table@[i].id@, key, table@[j].id@);
                } else if i == p {
                    assert(table@[j] == before[j - 1]);
                    if j - 1 > p {
                        crate::text::lemma_lex_transitive(key, before[p as int].id@, before[j - 1].id@);
                    }
                } else {
                    assert(table@[i] == before[i - 1] && table@[j] == before[j - 1]);
                }
            }
            assert forall|i: int| 0 <= i < table@.len() implies last_cached(next, #[trigger] table@[i].id@) == Some(table@[i]) by {
                if i < p {
                    assert(table@[i] == before[i]);
                } else if i > p {
                    assert(table@[i] == before[i - 1]);
                }
            }
            assert forall|x: Seq<char>| #[trigger] last_cached(next, x) is Some implies exists|i: int| 0 <= i < table@.len() && #[trigger] table@[i].id@ == x by {
                if x == key {
                    assert(table@[p as int].id@ == x);
                } else {
                    assert(last_cached(next, x) == last_cached(cached, x));
                    let i = choose|i: int| 0 <= i < before.len() && #[trigger] before[i].id@ == x;
                    if i < p {
                        assert(table@[i].id@ == x);
                    } else {
                        assert(table@[i + 1].id@ == x);
                    }
                }
            }
        }
    }
}

/// The entry found for `id` has that id.
pub proof fn lemma_cached_id(cached: Seq<AppModule>, id: Seq<char>)
    ensures
        last_cached(cached, id) matches Some(m) ==> m.id@ == id,
{
    lemma_last_cached(cached, id);
}

/// Whether some cached entry has id `id`.
proof fn lemma_last_cached(cached: Seq<AppModule>, id: Seq<char>)
    ensures
        last_cached(cached, id) matches Some(m) ==> m.id@ == id,
    decreases cached.len(),
{
    if cached.len() > 0 && cached.last().id@ != id {
        lemma_last_cached(cached.drop_last(), id);
    }
}

/// `table` holds, ordered by id, the last snapshot entry of every id that
/// no module among the first `i` of `listed` has claimed.
pub open spec fn unclaimed_table(table: Seq<AppModule>, cached: Seq<AppModule>, listed: Seq<AppModule>, i: int) -> bool {
    &&& forall|a: int, b: int| 0 <= a < b < table.len() ==> crate::text::lex_lt(#[trigger] table[a].id@, #[trigger] table[b].id@)
    &&& forall|q: int| 0 <= q < table.len() ==> last_cached(cached, #[trigger] table[q].id@) == Some(table[q])
        && !listed_before(listed, i, table[q].id@)
    &&& forall|x: Seq<char>| #[trigger] last_cached(cached, x) is Some && !listed_before(listed, i, x) ==> exists|q: int|
        0 <= q < table.len() && #[trigger] table[q].id@ == x
}

/// The last snapshot entry of every id, ordered by id.
fn snapshot_table(cached: Vec<AppModule>, Ghost(listed): Ghost<Seq<AppModule>>) -> (table: Vec<AppModule>)
    ensures
        unclaimed_table(table@, cached@, listed, 0),
{
    let ghost all = cached@;
    let mut rest = cached;
    let mut table: Vec<AppModule> = Vec::new();
    let mut k: usize = 0;
    assert(all.len() == rest.len());
    assert(all.take(0) =~= Seq::<AppModule>::empty());
    assert(all.skip(0) =~= all);
    while rest.len() > 0
        invariant
            k <= all.len() <= usize::MAX,
            rest@.len() == all.len() - k,
            rest@ == all.skip(k as int),
            forall|i: int, j: int| 0 <= i < j < table@.len() ==> crate::text::lex_lt(#[trigger] table@[i].id@, #[trigger] table@[j].id@),
            forall|i: int| 0 <= i < table@.len() ==> last_cached(all.take(k as int), #[trigger] table@[i].id@) == Some(table@[i]),
            forall|x: Seq<char>| #[trigger] last_cached(all.take(k as int), x) is Some ==> exists|i: int| 0 <= i < table@.len() && #[trigger] table@[i].id@ == x,
        decreases rest@.len(),
    {
        let m = rest.remove(0);
        proof {
            assert(m == all[k as int]);
            assert(rest@ =~= all.skip(k + 1));
            assert(all.take(k + 1) =~= all.take(k as int).push(m));
        }
        table_put(&mut table, m, Ghost(all.take(k as int)));
        k = k + 1;
    }
    proof {
        assert(all.take(k as int) =~= all);
    }
    table
}

/// Gives each listed module the boot status of its unclaimed snapshot
/// entry, claiming it.
#[verifier::rlimit(30)]
fn claim_boot_status(listed: Vec<AppModule>, table: &mut Vec<AppModule>, Ghost(all): Ghost<Seq<AppModule>>) -> (out: Vec<AppModule>)
    requires
        unclaimed_table(old(table)@, all, listed@, 0),
    ensures
        out@.len() == listed@.len(),
        forall|q: int| 0 <= q < listed@.len() ==> #[trigger] out@[q] == with_boot_status(all, listed@, q),
        unclaimed_table(final(table)@, all, listed@, listed@.len() as int),
{
    let ghost names = listed@;
    let mut pending = listed;
    let mut out: Vec<AppModule> = Vec::new();
    let mut i: usize = 0;
    assert(names.len() == pending.len());
    assert(names.skip(0) =~= names);
    while pending.len() > 0
        invariant
            i <= names.len() <= usize::MAX,
            pending@.len() == names.len() - i,
            pending@ == names.skip(i as int),
            out@.len() == i,
            forall|q: int| 0 <= q < i ==> #[trigger] out@[q] == with_boot_status(all, names, q),
            unclaimed_table(table@, all, names, i as int),
        decreases pending@.len(),
    {
        let mut m = pending.remove(0);
        proof {
            assert(m == names[i as int]);
            assert(pending@ =~= names.skip(i + 1));
        }
        let mut j: usize = 0;
        while j < table.len() && !str_eq(table[j].id.as_str(), m.id.as_str())
            invariant
                0 <= j <= table@.len(),
                forall|q: int| 0 <= q < j ==> #[trigger] table@[q].id@ != m.id@,
            decreases table@.len() - j,
        {
            j = j + 1;
        }
        let ghost before_table = table@;
        if j < table.len() {
            let prev = table.remove(j);
            m.mode = prev.mode;
            m.is_mounted = prev.is_mounted;
            proof {
                assert(last_cached(all, names[i as int].id@) == Some(prev));
                assert(!listed_before(names, i as int, names[i as int].id@));
            }
        } else {
            proof {
                if last_cached(all, names[i as int].id@) is Some && !listed_before(names, i as int, names[i as int].id@) {
                    let q = choose|q: int| 0 <= q < table@.len() && #[trigger] table@[q].id@ == names[i as int].id@;
                    assert(table@[q].id@ == m.id@);
                }
            }
        }
        out.push(m);
        proof {
            let id = names[i as int].id@;
            assert forall|q: int| 0 <= q < table@.len() implies last_cached(all, #[trigger] table@[q].id@) == Some(table@[q])
                && !listed_before(names, i + 1, table@[q].id@) by {
                let oq = if j < before_table.len() && q >= j { q + 1 } else { q };
                assert(table@[q] == before_table[oq]);
                if listed_before(names, i + 1, table@[q].id@) {
                    let w = choose|w: int| 0 <= w < i + 1 && #[trigger] names[w].id@ == table@[q].id@;
                    if w < i {
                        assert(listed_before(names, i as int, table@[q].id@));
                    } else {
                        if j < before_table.len() {
                            assert(before_table[j as int].id@ == id);
                            crate::text::lemma_lex_irreflexive(id);
                            if oq < j {
                                assert(crate::text::lex_lt(before_table[oq].id@, before_table[j as int].id@));
                            } else {
                                assert(crate::text::lex_lt(before_table[j as int].id@, before_table[oq].id@));
                            }
                        } else {
                            assert(before_table[oq].id@ != id);
                        }
                    }
                }
            }
            assert forall|x: Seq<char>| #[trigger] last_cached(all, x) is Some && !listed_before(names, i + 1, x) implies exists|q: int|
                0 <= q < table@.len() && #[trigger] table@[q].id@ == x by {
                assert(!listed_before(names, i as int, x)) by {
                    if listed_before(names, i as int, x) {
                        let w = choose|w: int| 0 <= w < i && #[trigger] names[w].id@ == x;
                        assert(listed_before(names, i + 1, x));
                    }
                }
                assert(x != id) by {
                    if x == id {
                        assert(names[i as int].id@ == x);
                        assert(listed_before(names, i + 1, x));
                    }
                }
                let q = choose|q: int| 0 <= q < before_table.len() && #[trigger] before_table[q].id@ == x;
                if j < before_table.len() {
                    assert(q != j);
                    if q < j {
                        assert(table@[q].id@ == x);
                    } else {
                        assert(table@[q - 1].id@ == x);
                    }
                } else {
                    assert(table@[q].id@ == x);
                }
            }
            assert forall|a: int, b: int| 0 <= a < b < table@.len() implies crate::text::lex_lt(#[trigger] table@[a].id@, #[trigger] table@[b].id@) by {
                if j < before_table.len() {
                    let oa = if a >= j { a + 1 } else { a };
                    let ob = if b >= j { b + 1 } else { b };
                    assert(table@[a] == before_table[oa] && table@[b] == before_table[ob]);
                }
            }
        }
        i = i + 1;
    }
    out
}

/// The unclaimed snapshot entries that are still mounted, disabled, in id
/// order, appended to `out`.
#[verifier::rlimit(30)]
fn append_still_mounted(
    out: &mut Vec<AppModule>,
    table: Vec<AppModule>,
    Ghost(all): Ghost<Seq<AppModule>>,
    Ghost(names): Ghost<Seq<AppModule>>,
)
    requires
        unclaimed_table(table@, all, names, names.len() as int),
    ensures
        forall|p: int| old(out)@.len() <= p < final(out)@.len() ==> {
            &&& kept_removed(all, names, #[trigger] final(out)@[p].id@)
            &&& final(out)@[p] == (AppModule { enabled: false, ..last_cached(all, final(out)@[p].id@).unwrap() })
        },
        forall|x: Seq<char>| #[trigger] kept_removed(all, names, x) ==> exists|p: int|
            old(out)@.len() <= p < final(out)@.len() && #[trigger] final(out)@[p].id@ == x,
        appended_mounted(table@, table@.len() as int, old(out)@, final(out)@),
{
    let ghost ft = table@;
    let ghost start = out@;
    let n = out.len();
    let mut table = table;
    let mut t: usize = 0;
    assert(ft.len() == table.len());
    assert(ft.skip(0) =~= ft);
    proof {
        lemma_appended_start(ft, start);
    }
    while table.len() > 0
        invariant
            n == start.len(),
            t <= ft.len() <= usize::MAX,
            table@.len() == ft.len() - t,
            table@ == ft.skip(t as int),
            forall|a: int, b: int| 0 <= a < b < ft.len() ==> crate::text::lex_lt(#[trigger] ft[a].id@, #[trigger] ft[b].id@),
            appended_mounted(ft, t as int, start, out@),
        decreases table@.len(),
    {
        let mut m = table.remove(0);
        proof {
            assert(m == ft[t as int]);
            assert(table@ =~= ft.skip(t + 1));
        }
        if m.is_mounted {
            m.enabled = false;
            let ghost before = out@;
            out.push(m);
            proof {
                lemma_append_mounted(ft, t as int, start, before, out@);
            }
        } else {
            proof {
                lemma_skip_unmounted(ft, t as int, start, out@);
            }
        }
        t = t + 1;
    }
    proof {
        lemma_still_mounted_appended(all, names, ft, start, out@);
    }
}

/// Once every table entry was passed over, what was appended is exactly the
/// snapshot's removed but still mounted modules.
proof fn lemma_still_mounted_appended(
    all: Seq<AppModule>,
    names: Seq<AppModule>,
    ft: Seq<AppModule>,
    start: Seq<AppModule>,
    out: Seq<AppModule>,
)
    requires
        unclaimed_table(ft, all, names, names.len() as int),
        appended_mounted(ft, ft.len() as int, start, out),
    ensures
        forall|p: int| start.len() <= p < out.len() ==> {
            &&& kept_removed(all, names, #[trigger] out[p].id@)
            &&& out[p] == (AppModule { enabled: false, ..last_cached(all, out[p].id@).unwrap() })
        },
        forall|x: Seq<char>| #[trigger] kept_removed(all, names, x) ==> exists|p: int|
            start.len() <= p < out.len() && #[trigger] out[p].id@ == x,
{
    let n = start.len();
    let t = ft.len() as int;
    reveal(crate::appended::from_mounted);
    reveal(crate::appended::covers_mounted);
    assert forall|p: int| n <= p < out.len() implies {
        &&& kept_removed(all, names, #[trigger] out[p].id@)
        &&& out[p] == (AppModule { enabled: false, ..last_cached(all, out[p].id@).unwrap() })
    } by {
        let q = choose|q: int| 0 <= q < t && ft[q].is_mounted && #[trigger] out[p] == (AppModule { enabled: false, ..ft[q] });
        assert(last_cached(all, ft[q].id@) == Some(ft[q]));
        assert(!listed_before(names, names.len() as int, ft[q].id@));
    }
    assert forall|x: Seq<char>| #[trigger] kept_removed(all, names, x) implies exists|p: int| n <= p < out.len() && #[trigger] out[p].id@ == x by {
        assert(!listed_before(names, names.len() as int, x));
        let q = choose|q: int| 0 <= q < ft.len() && #[trigger] ft[q].id@ == x;
        lemma_last_cached(all, x);
        assert(ft[q].is_mounted);
    }
}

/// `out` merges `listed` with the boot snapshot `cached`, before the
/// current rules are shown (see `merge_with_snapshot`).
#[verifier::opaque]
pub open spec fn merged_unsynced(cached: Seq<AppModule>, listed: Seq<AppModule>, out: Seq<AppModule>) -> bool {
    &&& out.len() >= listed.len()
    &&& forall|i: int| 0 <= i < listed.len() ==> #[trigger] out[i] == with_boot_status(cached, listed, i)
    &&& forall|j: int| listed.len() <= j < out.len() ==> {
        &&& kept_removed(cached, listed, #[trigger] out[j].id@)
        &&& out[j] == (AppModule { enabled: false, ..last_cached(cached, out[j].id@).unwrap() })
    }
    &&& forall|a: int, b: int| listed.len() <= a < b < out.len() ==> crate::text::lex_lt(#[trigger] out[a].id@, #[trigger] out[b].id@)
    &&& forall|x: Seq<char>| #[trigger] kept_removed(cached, listed, x) ==> exists|j: int| listed.len() <= j < out.len() && #[trigger] out[j].id@ == x
}

fn merge_unsynced(cached: Vec<AppModule>, listed: Vec<AppModule>) -> (out: Vec<AppModule>)
    ensures
        merged_unsynced(cached@, listed@, out@),
{
    let ghost all = cached@;
    let ghost names = listed@;
    let mut table = snapshot_table(cached, Ghost(names));
    let mut out = claim_boot_status(listed, &mut table, Ghost(all));
    append_still_mounted(&mut out, table, Ghost(all), Ghost(names));
    proof {
        reveal(merged_unsynced);
        reveal(crate::appended::keeps_prefix);
        reveal(crate::appended::ordered_after);
    }
    out
}

proof fn lemma_merged_synced(cached: Seq<AppModule>, listed: Seq<AppModule>, u: Seq<AppModule>, r: Seq<AppModule>, config: Config)
    requires
        merged_unsynced(cached, listed, u),
        r.len() == u.len(),
        forall|i: int| 0 <= i < r.len() ==> synced(config, u[i], #[trigger] r[i]),
        forall|i: int| 0 <= i < r.len() ==> (#[trigger] r[i]).id == u[i].id,
    ensures
        r.len() >= listed.len(),
        forall|i: int| 0 <= i < listed.len() ==> synced(config, with_boot_status(cached, listed, i), #[trigger] r[i]),
        forall|j: int| listed.len() <= j < r.len() ==> {
            &&& kept_removed(cached, listed, #[trigger] r[j].id@)
            &&& synced(config, AppModule { enabled: false, ..last_cached(cached, r[j].id@).unwrap() }, r[j])
        },
        forall|a: int, b: int| listed.len() <= a < b < r.len() ==> crate::text::lex_lt(#[trigger] r[a].id@, #[trigger] r[b].id@),
        forall|x: Seq<char>| #[trigger] kept_removed(cached, listed, x) ==> exists|j: int| listed.len() <= j < r.len() && #[trigger] r[j].id@ == x,
{
    reveal(merged_unsynced);
    assert forall|i: int| 0 <= i < listed.len() implies synced(config, with_boot_status(cached, listed, i), #[trigger] r[i]) by {
        assert(u[i] == with_boot_status(cached, listed, i));
        assert(synced(config, u[i], r[i]));
    }
    assert forall|a: int, b: int| listed.len() <= a < b < r.len() implies crate::text::lex_lt(#[trigger] r[a].id@, #[trigger] r[b].id@) by {
        assert(r[a].id == u[a].id && r[b].id == u[b].id);
    }
    assert forall|x: Seq<char>| #[trigger] kept_removed(cached, listed, x) implies exists|j: int| listed.len() <= j < r.len() && #[trigger] r[j].id@ == x by {
        let j = choose|j: int| listed.len() <= j < u.len() && #[trigger] u[j].id@ == x;
        assert(r[j].id == u[j].id);
    }
    assert forall|j: int| listed.len() <= j < r.len() implies {
        &&& kept_removed(cached, listed, #[trigger] r[j].id@)
        &&& synced(config, AppModule { enabled: false, ..last_cached(cached, r[j].id@).unwrap() }, r[j])
    } by {
        assert(r[j].id == u[j].id);
        assert(synced(config, u[j], r[j]));
        assert(kept_removed(cached, listed, u[j].id@));
    }
}

/// Merges the installed modules as listed now (`listed`) with the boot
/// snapshot (`cached`): each installed module keeps the mounted backend and
/// status the snapshot gave it, modules no longer installed but still
/// mounted stay listed, disabled, ordered by id, and everything shows the
/// configuration's current blacklist and rules.
pub fn merge_with_snapshot(cached: Vec<AppModule>, listed: Vec<AppModule>, config: &Config) -> (r: Vec<AppModule>)
    ensures
        r@.len() >= listed@.len(),
        forall|i: int| 0 <= i < listed@.len() ==> synced(*config, with_boot_status(cached@, listed@, i), #[trigger] r@[i]),
        forall|j: int| listed@.len() <= j < r@.len() ==> {
            &&& kept_removed(cached@, listed@, #[trigger] r@[j].id@)
            &&& synced(*config, AppModule { enabled: false, ..last_cached(cached@, r@[j].id@).unwrap() }, r@[j])
        },
        forall|a: int, b: int| listed@.len() <= a < b < r@.len() ==> crate::text::lex_lt(#[trigger] r@[a].id@, #[trigger] r@[b].id@),
        forall|x: Seq<char>| #[trigger] kept_removed(cached@, listed@, x) ==> exists|j: int| listed@.len() <= j < r@.len() && #[trigger] r@[j].id@ == x,
{
    let ghost all = cached@;
    let ghost names = listed@;
    let mut out = merge_unsynced(cached, listed);
    let ghost u = out@;
    sync_app_module_rules(&mut out, config);
    proof {
        lemma_merged_synced(all, names, u, out@, *config);
    }
    out
}

} // verus!
