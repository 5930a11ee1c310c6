//! The ledger and state bookkeeping of hot VFS operations, of boot and of
//! soft-reboot cleanup.
use vstd::prelude::*;

use crate::errors::{Error, Result};
use crate::pipeline::merge_active_mounts;
use crate::runtime::ledger::{Ledger, OwnedMount};
use crate::runtime::lifecycle::owned_uids;
use crate::runtime::rules::{semantic_equal, spec_semantic_equal, SavedRule};
use crate::state::{AppModule, ModeStats, MountStatistics, RunState};
use crate::text::{append_str, has_name, insert_name, owned, sorted_names, str_eq};

verus! {

/// A hot operation on one module's VFS rules.
#[derive(Debug, Clone, Copy, PartialEq, Eq, Structural)]
pub enum HotAction {
    Load,
    Reload,
    Unload,
}

impl HotAction {
    /// The action named `name`, if any.
    pub fn parse(name: &str) -> (r: Option<HotAction>)
        ensures
            r == (if name@ == "load"@ {
                Some(HotAction::Load)
            } else if name@ == "reload"@ {
                Some(HotAction::Reload)
            } else if name@ == "unload"@ {
                Some(HotAction::Unload)
            } else {
                None
            }),
    {
        if str_eq(name, "load") {
            Some(HotAction::Load)
        } else if str_eq(name, "reload") {
            Some(HotAction::Reload)
        } else if str_eq(name, "unload") {
            Some(HotAction::Unload)
        } else {
            None
        }
    }
}

/// The rules of `rules` that belong to module `id`, in order.
pub open spec fn rules_of(rules: Seq<SavedRule>, id: Seq<char>) -> Seq<SavedRule>
    decreases rules.len(),
{
    if rules.len() == 0 {
        Seq::empty()
    } else {
        let prev = rules_of(rules.drop_last(), id);
        if rules.last().module_id@ == id {
            prev.push(rules.last())
        } else {
            prev
        }
    }
}

/// The module's owned rules before a hot operation, once the operation is
/// allowed: a module with Magic Mount or OverlayFS ownership needs a reboot,
/// `load` needs the module inactive, `reload` and `unload` need it active.
pub fn hot_rules_before(saved: &Ledger, action: HotAction, module_id: &str) -> (r: Result<Vec<SavedRule>>)
    ensures
        has_name(saved.non_vfs_modules@, module_id@) ==> (r matches Err(e) && e.spec_message()
            == "module has active Magic/Overlay ownership; reboot required"@),
        !has_name(saved.non_vfs_modules@, module_id@) ==> {
            let before = rules_of(saved.rules@, module_id@);
            if action == HotAction::Load && before.len() > 0 {
                r matches Err(e) && e.spec_message() == "module is already active; use reload"@
            } else if action != HotAction::Load && before.len() == 0 {
                r matches Err(e) && e.spec_message() == "module has no owned active VFS rules"@
            } else {
                r matches Ok(v) && v@ == before
            }
        },
{
    if crate::plan::paths::contains_name(saved.non_vfs_modules.as_slice(), module_id) {
        return Err(Error::msg(owned("module has active Magic/Overlay ownership; reboot required")));
    }
    let mut before: Vec<SavedRule> = Vec::new();
    let mut i: usize = 0;
    assert(saved.rules@.take(0) =~= Seq::<SavedRule>::empty());
    while i < saved.rules.len()
        invariant
            0 <= i <= saved.rules@.len(),
            before@ == rules_of(saved.rules@.take(i as int), module_id@),
        decreases saved.rules@.len() - i,
    {
        assert(saved.rules@.take(i + 1).drop_last() =~= saved.rules@.take(i as int));
        if str_eq(saved.rules[i].module_id.as_str(), module_id) {
            before.push(saved.rules[i].duplicate());
        }
        i = i + 1;
    }
    assert(saved.rules@.take(saved.rules@.len() as int) =~= saved.rules@);
    if action == HotAction::Load && before.len() > 0 {
        return Err(Error::msg(owned("module is already active; use reload")));
    }
    if action != HotAction::Load && before.len() == 0 {
        return Err(Error::msg(owned("module has no owned active VFS rules")));
    }
    Ok(before)
}

/// Whether module `id` owns a rule of `rules`.
pub open spec fn owns_rule(rules: Seq<SavedRule>, id: Seq<char>) -> bool {
    exists|i: int| 0 <= i < rules.len() && #[trigger] rules[i].module_id@ == id
}

fn owns_rule_exec(rules: &[SavedRule], id: &str) -> (r: bool)
    ensures
        r == owns_rule(rules@, id@),
{
    let mut i: usize = 0;
    while i < rules.len()
        invariant
            0 <= i <= rules@.len(),
            forall|j: int| 0 <= j < i ==> #[trigger] rules@[j].module_id@ != id@,
        decreases rules@.len() - i,
    {
        if str_eq(rules[i].module_id.as_str(), id) {
            return true;
        }
        i = i + 1;
    }
    false
}

/// The snapshot of module `m` after a hot operation: a module without
/// Magic Mount or OverlayFS ownership is mounted exactly when it owns a rule.
pub open spec fn hot_snapshot(m: AppModule, rules: Seq<SavedRule>, non_vfs: Seq<String>) -> AppModule {
    if has_name(non_vfs, m.id@) {
        m
    } else {
        AppModule { is_mounted: owns_rule(rules, m.id@), ..m }
    }
}

/// The modules other than `id`, in order.
pub open spec fn modules_without(modules: Seq<AppModule>, id: Seq<char>) -> Seq<AppModule>
    decreases modules.len(),
{
    if modules.len() == 0 {
        Seq::empty()
    } else {
        let prev = modules_without(modules.drop_last(), id);
        if modules.last().id@ == id {
            prev
        } else {
            prev.push(modules.last())
        }
    }
}

impl Ledger {
    /// Records a committed hot operation on module `module_id`: a new
    /// generation, the module's fresh snapshot (when it is still installed)
    /// in place of the old one, and every VFS-only module's mount flag
    /// following its owned rules.
    pub fn record_hot_apply(&mut self, module_id: &str, updated: Option<AppModule>)
        requires
            old(self).generation < u64::MAX,
        ensures
            final(self).generation == old(self).generation + 1,
            ({
                let base = match updated {
                    Some(m) => modules_without(old(self).modules@, module_id@).push(m),
                    None => old(self).modules@,
                };
                &&& final(self).modules@.len() == base.len()
                &&& forall|i: int| 0 <= i < base.len() ==> #[trigger] final(self).modules@[i] == hot_snapshot(
                    base[i],
                    old(self).rules@,
                    old(self).non_vfs_modules@,
                )
            }),
            final(self).rules == old(self).rules,
            final(self).non_vfs_modules == old(self).non_vfs_modules,
            final(self).phase == old(self).phase,
            final(self).mounts == old(self).mounts,
            final(self).pending_rules == old(self).pending_rules,
            final(self).isolated_uids == old(self).isolated_uids,
            final(self).error == old(self).error,
            final(self).version == old(self).version,
            final(self).boot_id == old(self).boot_id,
            final(self).namespace == old(self).namespace,
            final(self).ksu_unmounts == old(self).ksu_unmounts,
    {
        self.generation = self.generation + 1;
        match updated {
            Some(m) => {
                let mut modules: Vec<AppModule> = Vec::new();
                std::mem::swap(&mut modules, &mut self.modules);
                let ghost all = modules@;
                assert(all.len() == modules.len());
                let mut kept: Vec<AppModule> = Vec::new();
                let mut k: usize = 0;
                assert(all.take(0) =~= Seq::<AppModule>::empty());
                assert(all.skip(0) =~= all);
                while modules.len() > 0
                    invariant
                        k <= all.len() <= usize::MAX,
                        modules@.len() == all.len() - k,
                        modules@ == all.skip(k as int),
                        kept@ == modules_without(all.take(k as int), module_id@),
                    decreases modules@.len(),
                {
                    let x = modules.remove(0);
                    proof {
                        assert(x == all[k as int]);
                        assert(modules@ =~= all.skip(k + 1));
                        assert(all.take(k + 1).drop_last() =~= all.take(k as int));
                    }
                    if !str_eq(x.id.as_str(), module_id) {
                        kept.push(x);
                    }
                    k = k + 1;
                }
                proof {
                    assert(all.take(k as int) =~= all);
                }
                kept.push(m);
                self.modules = kept;
            },
            None => {},
        }
        let ghost base = self.modules@;
        let ghost snap = *self;
        let mut i: usize = 0;
        while i < self.modules.len()
            invariant
                0 <= i <= self.modules@.len(),
                self.modules@.len() == base.len(),
                *self == (Ledger { modules: self.modules, ..snap }),
                self.rules == old(self).rules,
                self.non_vfs_modules == old(self).non_vfs_modules,
                forall|q: int| 0 <= q < i ==> #[trigger] self.modules@[q] == hot_snapshot(base[q], self.rules@, self.non_vfs_modules@),
                forall|q: int| i <= q < base.len() ==> #[trigger] self.modules@[q] == base[q],
            decreases self.modules@.len() - i,
        {
            if !crate::plan::paths::contains_name(self.non_vfs_modules.as_slice(), self.modules[i].id.as_str()) {
                let mounted = owns_rule_exec(self.rules.as_slice(), self.modules[i].id.as_str());
                let ghost before = self.modules@;
                let mut x = self.modules.remove(i);
                x.is_mounted = mounted;
                self.modules.insert(i, x);
                proof {
                    assert forall|q: int| 0 <= q < self.modules@.len() && q != i implies #[trigger] self.modules@[q] == before[q] by {}
                }
            }
            i = i + 1;
        }
    }

    /// Records a completed soft-reboot cleanup: phase `clean`, no error, no
    /// Magic/OverlayFS ownership or pending rule, and no module mounted.
    pub fn record_cleaned(&mut self)
        ensures
            final(self).phase@ == "clean"@,
            final(self).error is None,
            final(self).non_vfs_modules@.len() == 0,
            final(self).pending_rules@.len() == 0,
            final(self).modules@.len() == old(self).modules@.len(),
            forall|i: int| 0 <= i < final(self).modules@.len() ==> #[trigger] final(self).modules@[i] == (AppModule {
                is_mounted: false,
                ..old(self).modules@[i]
            }),
            final(self).rules == old(self).rules,
            final(self).mounts == old(self).mounts,
            final(self).isolated_uids == old(self).isolated_uids,
            final(self).generation == old(self).generation,
    {
        self.phase = owned("clean");
        self.error = None;
        self.non_vfs_modules = Vec::new();
        self.pending_rules = Vec::new();
        let ghost base = self.modules@;
        let ghost snap = *self;
        let mut i: usize = 0;
        while i < self.modules.len()
            invariant
                0 <= i <= self.modules@.len(),
                self.modules@.len() == base.len(),
                *self == (Ledger { modules: self.modules, ..snap }),
                base == old(self).modules@,
                forall|q: int| 0 <= q < i ==> #[trigger] self.modules@[q] == (AppModule { is_mounted: false, ..base[q] }),
                forall|q: int| i <= q < base.len() ==> #[trigger] self.modules@[q] == base[q],
            decreases self.modules@.len() - i,
        {
            let ghost before = self.modules@;
            let mut x = self.modules.remove(i);
            x.is_mounted = false;
            self.modules.insert(i, x);
            proof {
                assert forall|q: int| 0 <= q < self.modules@.len() && q != i implies #[trigger] self.modules@[q] == before[q] by {}
            }
            i = i + 1;
        }
    }

    /// Records the start of a boot: a new generation in phase `applying`.
    pub fn record_boot_start(&mut self)
        requires
            old(self).generation < u64::MAX,
        ensures
            *final(self) == (Ledger {
                generation: (old(self).generation + 1) as u64,
                phase: final(self).phase,
                error: None,
                ..*old(self)
            }),
            final(self).phase@ == "applying"@,
    {
        self.generation = self.generation + 1;
        self.phase = owned("applying");
        self.error = None;
    }
}

/// The pending rules that the kernel's table holds, semantically.
pub open spec fn confirmed_rules(pending: Seq<SavedRule>, current: Seq<SavedRule>) -> Seq<SavedRule> {
    pending.filter(|e: SavedRule| exists|i: int| 0 <= i < current.len() && #[trigger] spec_semantic_equal(e, current[i]))
}

fn present_semantically(current: &[SavedRule], expected: &SavedRule) -> (r: bool)
    ensures
        r == exists|i: int| 0 <= i < current@.len() && #[trigger] spec_semantic_equal(*expected, current@[i]),
{
    let mut i: usize = 0;
    while i < current.len()
        invariant
            0 <= i <= current@.len(),
            forall|j: int| 0 <= j < i ==> !#[trigger] spec_semantic_equal(*expected, current@[j]),
        decreases current@.len() - i,
    {
        if semantic_equal(expected, &current[i]) {
            return true;
        }
        i = i + 1;
    }
    false
}

/// What the kernel showed when a boot finished: its rule table, the
/// isolation uids now present, and whether the planned rules were confirmed.
pub struct BootReadback {
    pub current: Vec<SavedRule>,
    pub observed_uids: Vec<u32>,
    pub verification: Result<()>,
}

impl Ledger {
    /// Records the end of a boot: the captured mounts and KernelSU
    /// registrations, the module snapshot, and, when the kernel was read
    /// back, the pending rules it holds and the isolation uids this boot
    /// added. Pending rules are dropped once confirmed. The phase becomes
    /// `ready` only when the boot succeeded and the rules were confirmed;
    /// otherwise `error`, with the reason. Returns the confirmation.
    pub fn record_boot_finish(
        &mut self,
        successful: bool,
        mounts: Vec<OwnedMount>,
        ksu_unmounts: Vec<String>,
        readback: Option<BootReadback>,
        original_uids: &[u32],
        modules: Vec<AppModule>,
    ) -> (r: Result<()>)
        ensures
            final(self).mounts@ == mounts@,
            final(self).ksu_unmounts matches Some(k) && k@ == ksu_unmounts@,
            final(self).modules@ == modules@,
            match readback {
                Some(b) => {
                    &&& final(self).rules@ == confirmed_rules(old(self).pending_rules@, b.current@)
                    &&& final(self).isolated_uids@ == b.observed_uids@.filter(
                        |uid: u32| old(self).isolated_uids@.contains(uid) && !original_uids@.contains(uid),
                    )
                    &&& r == b.verification
                },
                None => {
                    &&& final(self).rules == old(self).rules
                    &&& final(self).isolated_uids@.len() == 0
                    &&& r is Ok
                },
            },
            r is Ok ==> final(self).pending_rules@.len() == 0,
            r is Err ==> final(self).pending_rules == old(self).pending_rules,
            final(self).phase@ == (if successful && r is Ok { "ready"@ } else { "error"@ }),
            match r {
                Err(e) => final(self).error matches Some(m) && m@ == e.spec_message(),
                Ok(_) => if successful {
                    final(self).error is None
                } else {
                    final(self).error matches Some(m) && m@ == "boot pipeline failed; inspect status before recovery"@
                },
            },
            final(self).generation == old(self).generation,
            final(self).non_vfs_modules == old(self).non_vfs_modules,
    {
        self.mounts = mounts;
        self.ksu_unmounts = Some(ksu_unmounts);
        let verification = match readback {
            Some(b) => {
                let mut kept: Vec<SavedRule> = Vec::new();
                let mut i: usize = 0;
                let ghost pred = |e: SavedRule| exists|q: int| 0 <= q < b.current@.len() && #[trigger] spec_semantic_equal(e, b.current@[q]);
                while i < self.pending_rules.len()
                    invariant
                        0 <= i <= self.pending_rules@.len(),
                        self.pending_rules == old(self).pending_rules,
                        pred == (|e: SavedRule| exists|q: int| 0 <= q < b.current@.len() && #[trigger] spec_semantic_equal(e, b.current@[q])),
                        kept@ == self.pending_rules@.subrange(0, i as int).filter(pred),
                    decreases self.pending_rules@.len() - i,
                {
                    let ghost e = self.pending_rules@[i as int];
                    proof {
                        self.pending_rules@.subrange(0, i as int).lemma_filter_push(e, pred);
                        assert(self.pending_rules@.subrange(0, i + 1) =~= self.pending_rules@.subrange(0, i as int).push(e));
                    }
                    if present_semantically(b.current.as_slice(), &self.pending_rules[i]) {
                        kept.push(self.pending_rules[i].duplicate());
                    }
                    i = i + 1;
                }
                assert(self.pending_rules@.subrange(0, self.pending_rules@.len() as int) =~= self.pending_rules@);
                self.rules = kept;
                let uids = owned_uids(self.isolated_uids.as_slice(), original_uids, b.observed_uids.as_slice());
                self.isolated_uids = uids;
                b.verification
            },
            None => {
                self.isolated_uids = Vec::new();
                Ok(())
            },
        };
        self.modules = modules;
        match &verification {
            Ok(()) => {
                self.pending_rules = Vec::new();
                if successful {
                    self.phase = owned("ready");
                    self.error = None;
                } else {
                    self.phase = owned("error");
                    self.error = Some(owned("boot pipeline failed; inspect status before recovery"));
                }
            },
            Err(e) => {
                self.phase = owned("error");
                self.error = Some(e.message());
            },
        }
        verification
    }
}

/// The outcome of checking the recorded rules against the kernel's table,
/// for the first `n` of them: the rules still present (by virtual path and
/// uid), or the virtual path of the first one that changed.
pub open spec fn remaining_outcome(saved: Seq<SavedRule>, current: Seq<SavedRule>, n: int) -> core::result::Result<
    Seq<SavedRule>,
    Seq<char>,
>
    decreases n,
{
    if n <= 0 {
        Ok(Seq::empty())
    } else {
        match remaining_outcome(saved, current, n - 1) {
            Err(p) => Err(p),
            Ok(kept) => {
                let e = saved[n - 1];
                match first_at(current, e, 0) {
                    None => Ok(kept),
                    Some(actual) => if spec_semantic_equal(e, actual) {
                        Ok(kept.push(e))
                    } else {
                        Err(e.virtual_path@)
                    },
                }
            },
        }
    }
}

/// The first rule of `current`, from the `i`-th on, at `e`'s virtual path
/// for `e`'s uid.
pub open spec fn first_at(current: Seq<SavedRule>, e: SavedRule, i: int) -> Option<SavedRule>
    decreases current.len() - i,
{
    if i < 0 || i >= current.len() {
        None
    } else if current[i].virtual_path@ == e.virtual_path@ && current[i].uid == e.uid {
        Some(current[i])
    } else {
        first_at(current, e, i + 1)
    }
}

proof fn lemma_remaining_err(saved: Seq<SavedRule>, current: Seq<SavedRule>, i: int, n: int)
    requires
        0 <= i <= n,
        remaining_outcome(saved, current, i) is Err,
    ensures
        remaining_outcome(saved, current, n) == remaining_outcome(saved, current, i),
    decreases n - i,
{
    if n > i {
        lemma_remaining_err(saved, current, i, n - 1);
    }
}

/// The recorded rules that are still in the kernel's table, to be removed
/// by a cleanup. A missing rule was removed by an earlier attempt; a rule
/// that changed externally stops the cleanup.
pub fn remaining_owned_rules(saved: &[SavedRule], current: &[SavedRule]) -> (r: Result<Vec<SavedRule>>)
    ensures
        match (r, remaining_outcome(saved@, current@, saved@.len() as int)) {
            (Ok(v), Ok(s)) => v@ == s,
            (Err(e), Err(p)) => e.spec_message() == "owned VFS rule changed externally: "@ + p,
            _ => false,
        },
{
    let mut kept: Vec<SavedRule> = Vec::new();
    let mut i: usize = 0;
    while i < saved.len()
        invariant
            0 <= i <= saved@.len(),
            remaining_outcome(saved@, current@, i as int) == Ok::<Seq<SavedRule>, Seq<char>>(kept@),
        decreases saved@.len() - i,
    {
        let expected = &saved[i];
        let mut j: usize = 0;
        while j < current.len() && !(str_eq(current[j].virtual_path.as_str(), expected.virtual_path.as_str())
            && current[j].uid == expected.uid)
            invariant
                0 <= j <= current@.len(),
                *expected == saved@[i as int],
                first_at(current@, *expected, 0) == first_at(current@, *expected, j as int),
            decreases current@.len() - j,
        {
            j = j + 1;
        }
        if j < current.len() {
            if !semantic_equal(expected, &current[j]) {
                let mut message = owned("owned VFS rule changed externally: ");
                append_str(&mut message, expected.virtual_path.as_str());
                proof {
                    lemma_remaining_err(saved@, current@, i + 1, saved@.len() as int);
                }
                return Err(Error::msg(message));
            }
            kept.push(expected.duplicate());
        }
        i = i + 1;
    }
    Ok(kept)
}

/// The distinct module ids and virtual paths of `rules`, each sorted.
fn rule_names(rules: &[SavedRule]) -> (r: (Vec<String>, Vec<String>))
    ensures
        sorted_names(r.0@),
        sorted_names(r.1@),
        forall|x: Seq<char>| #[trigger] has_name(r.0@, x) <==> exists|i: int| 0 <= i < rules@.len() && #[trigger] rules@[i].module_id@ == x,
        forall|x: Seq<char>| #[trigger] has_name(r.1@, x) <==> exists|i: int| 0 <= i < rules@.len() && #[trigger] rules@[i].virtual_path@ == x,
{
    let mut ids: Vec<String> = Vec::new();
    let mut paths: Vec<String> = Vec::new();
    let mut i: usize = 0;
    while i < rules.len()
        invariant
            0 <= i <= rules@.len(),
            sorted_names(ids@),
            sorted_names(paths@),
            forall|x: Seq<char>| #[trigger] has_name(ids@, x) <==> exists|q: int| 0 <= q < i && #[trigger] rules@[q].module_id@ == x,
            forall|x: Seq<char>| #[trigger] has_name(paths@, x) <==> exists|q: int| 0 <= q < i && #[trigger] rules@[q].virtual_path@ == x,
        decreases rules@.len() - i,
    {
        insert_name(&mut ids, rules[i].module_id.as_str());
        insert_name(&mut paths, rules[i].virtual_path.as_str());
        proof {
            assert forall|x: Seq<char>| #[trigger] has_name(ids@, x) <==> exists|q: int| 0 <= q < i + 1 && #[trigger] rules@[q].module_id@ == x by {
                if x == rules@[i as int].module_id@ {
                    assert(rules@[i as int].module_id@ == x);
                }
            }
            assert forall|x: Seq<char>| #[trigger] has_name(paths@, x) <==> exists|q: int| 0 <= q < i + 1 && #[trigger] rules@[q].virtual_path@ == x by {
                if x == rules@[i as int].virtual_path@ {
                    assert(rules@[i as int].virtual_path@ == x);
                }
            }
        }
        i = i + 1;
    }
    (ids, paths)
}

impl RunState {
    /// Brings the run state in line with the ledger after a hot operation or
    /// a cleanup. A clean ledger clears every Magic Mount and OverlayFS
    /// record. The VFS modules and targets become those of the owned rules,
    /// the active list the union of every backend's targets, and VFS errors
    /// of modules that are active again are dropped.
    pub fn refresh_from_ledger(&mut self, saved: &Ledger)
        ensures
            saved.phase@ == "clean"@ ==> {
                &&& final(self).overlay_modules@.len() == 0
                &&& final(self).magic_modules@.len() == 0
                &&& final(self).overlay_active_mounts@.len() == 0
                &&& final(self).magic_active_mounts@.len() == 0
                &&& final(self).mount_stats == MountStatistics::default_spec()
                &&& final(self).mode_stats.overlayfs == 0
                &&& final(self).mode_stats.magicmount == 0
                &&& final(self).mount_point@.len() == 0
                &&& final(self).storage_mode@ == "none"@
                &&& final(self).rollback_status matches Some(s) && s@ == "clean"@
            },
            saved.phase@ != "clean"@ ==> {
                &&& final(self).overlay_modules == old(self).overlay_modules
                &&& final(self).magic_modules == old(self).magic_modules
                &&& final(self).overlay_active_mounts == old(self).overlay_active_mounts
                &&& final(self).magic_active_mounts == old(self).magic_active_mounts
                &&& final(self).mount_stats == old(self).mount_stats
                &&& final(self).mode_stats.overlayfs == old(self).mode_stats.overlayfs
                &&& final(self).mode_stats.magicmount == old(self).mode_stats.magicmount
                &&& final(self).mount_point == old(self).mount_point
                &&& final(self).storage_mode == old(self).storage_mode
                &&& final(self).rollback_status == old(self).rollback_status
            },
            sorted_names(final(self).vfs_modules@),
            forall|x: Seq<char>| #[trigger] has_name(final(self).vfs_modules@, x) <==> exists|i: int|
                0 <= i < saved.rules@.len() && #[trigger] saved.rules@[i].module_id@ == x,
            sorted_names(final(self).vfs_active_mounts@),
            forall|x: Seq<char>| #[trigger] has_name(final(self).vfs_active_mounts@, x) <==> exists|i: int|
                0 <= i < saved.rules@.len() && #[trigger] saved.rules@[i].virtual_path@ == x,
            final(self).mode_stats.vfs == final(self).vfs_modules@.len(),
            saved.rules@.len() > 0 ==> (final(self).vfs_provider matches Some(p) && p@ == "hm"@),
            saved.rules@.len() == 0 ==> final(self).vfs_provider is None,
            sorted_names(final(self).active_mounts@),
            forall|x: Seq<char>| #[trigger] has_name(final(self).active_mounts@, x) <==> has_name(
                final(self).overlay_active_mounts@,
                x,
            ) || has_name(final(self).magic_active_mounts@, x) || has_name(final(self).vfs_active_mounts@, x),
            final(self).confirmed_active_mounts@ == final(self).active_mounts@,
            final(self).vfs_error_modules@ == old(self).vfs_error_modules@.filter(
                |m: String| !has_name(final(self).vfs_modules@, m@),
            ),
            final(self).vfs_error_modules@.len() == 0 ==> final(self).vfs_error is None,
            final(self).vfs_error_modules@.len() > 0 ==> final(self).vfs_error == old(self).vfs_error,
    {
        if str_eq(saved.phase.as_str(), "clean") {
            self.overlay_modules = Vec::new();
            self.magic_modules = Vec::new();
            self.overlay_active_mounts = Vec::new();
            self.magic_active_mounts = Vec::new();
            self.mount_stats = MountStatistics::zero();
            self.mode_stats = ModeStats { overlayfs: 0, magicmount: 0, vfs: 0 };
            self.mount_point = String::new();
            self.storage_mode = owned("none");
            self.rollback_status = Some(owned("clean"));
        }
        let (ids, paths) = rule_names(saved.rules.as_slice());
        self.vfs_modules = ids;
        self.vfs_active_mounts = paths;
        self.mode_stats.vfs = self.vfs_modules.len();
        self.vfs_provider = if saved.rules.len() > 0 { Some(owned("hm")) } else { None };
        let merged = merge_active_mounts(
            self.overlay_active_mounts.as_slice(),
            self.magic_active_mounts.as_slice(),
            self.vfs_active_mounts.as_slice(),
        );
        self.active_mounts = merged.clone();
        self.confirmed_active_mounts = merged;
        let ghost pred = |m: String| !has_name(self.vfs_modules@, m@);
        let mut errors: Vec<String> = Vec::new();
        std::mem::swap(&mut errors, &mut self.vfs_error_modules);
        let ghost all = errors@;
        let mut kept: Vec<String> = Vec::new();
        let mut i: usize = 0;
        while i < errors.len()
            invariant
                0 <= i <= errors@.len(),
                errors@ == all,
                pred == (|m: String| !has_name(self.vfs_modules@, m@)),
                kept@ == all.subrange(0, i as int).filter(pred),
            decreases errors@.len() - i,
        {
            let m = &errors[i];
            proof {
                all.subrange(0, i as int).lemma_filter_push(*m, pred);
                assert(all.subrange(0, i + 1) =~= all.subrange(0, i as int).push(*m));
            }
            if !crate::plan::paths::contains_name(self.vfs_modules.as_slice(), m.as_str()) {
                kept.push(m.clone());
            }
            i = i + 1;
        }
        assert(all.subrange(0, all.len() as int) =~= all);
        self.vfs_error_modules = kept;
        if self.vfs_error_modules.len() == 0 {
            self.vfs_error = None;
        }
    }
}

} // verus!
