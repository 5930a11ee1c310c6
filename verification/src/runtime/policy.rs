//! Hot-operation policy helpers.
use vstd::prelude::*;

use crate::config::{Config, Mode};
use crate::errors::{Error, Result};
use crate::mount_tree::{tree_ids_in, MountNode};
use crate::plan::checks::{replace_consistent, vfs_opaque_exclusive, vfs_unshadowed};
use crate::plan::planner::{
    build_plan, eligible, eligible_ids, entries_conflict, entry_in_tree, entry_mode, entry_target, planned_entry, planned_with,
    registers, registration_conflict, MountPlan, PlanInput,
};
use crate::runtime::ledger::Ledger;
use crate::runtime::rules::{ancestor, spec_ancestor};
use crate::scanner::{ModuleEntry, ModuleRecord};
use crate::text::{has_name, owned, str_eq};

verus! {

/// `path` is `base` itself or lies below it.
pub open spec fn spec_same_or_below(path: Seq<char>, base: Seq<char>) -> bool {
    path == base || spec_ancestor(base, path)
}

/// Whether `path` is `base` or a path below it, on component boundaries.
pub fn is_same_or_below(path: &str, base: &str) -> (r: bool)
    ensures
        r == spec_same_or_below(path@, base@),
{
    str_eq(path, base) || ancestor(base, path)
}

/// Whether one of the two paths contains the other.
pub fn paths_overlap(a: &str, b: &str) -> (r: bool)
    ensures
        r == (spec_same_or_below(a@, b@) || spec_same_or_below(b@, a@)),
{
    is_same_or_below(a, b) || is_same_or_below(b, a)
}

/// `module` as a temporary load sees it: the persistent disable marker does
/// not apply.
pub open spec fn enabled_view(copy: ModuleRecord, module: ModuleRecord) -> bool {
    &&& copy.id@ == module.id@
    &&& copy.name@ == module.name@
    &&& copy.version@ == module.version@
    &&& copy.author@ == module.author@
    &&& copy.description@ == module.description@
    &&& !copy.disabled
    &&& copy.skip_mount == module.skip_mount
    &&& copy.has_mount_files == module.has_mount_files
    &&& copy.source_path@ == module.source_path@
    &&& copy.entries@.len() == module.entries@.len()
    &&& forall|i: int|
        0 <= i < module.entries@.len() ==> {
            &&& (#[trigger] copy.entries@[i]).relative@ == module.entries@[i].relative@
            &&& copy.entries@[i].file_type == module.entries@[i].file_type
            &&& copy.entries@[i].replace == module.entries@[i].replace
        }
}

fn enabled_copy(module: &ModuleRecord) -> (r: ModuleRecord)
    ensures
        enabled_view(r, *module),
{
    let mut entries: Vec<ModuleEntry> = Vec::new();
    let mut i: usize = 0;
    while i < module.entries.len()
        invariant
            0 <= i <= module.entries@.len(),
            entries@.len() == i,
            forall|k: int|
                0 <= k < i ==> {
                    &&& (#[trigger] entries@[k]).relative@ == module.entries@[k].relative@
                    &&& entries@[k].file_type == module.entries@[k].file_type
                    &&& entries@[k].replace == module.entries@[k].replace
                },
        decreases module.entries@.len() - i,
    {
        let e = &module.entries[i];
        entries.push(ModuleEntry { relative: owned(e.relative.as_str()), file_type: e.file_type, replace: e.replace });
        i = i + 1;
    }
    ModuleRecord {
        id: owned(module.id.as_str()),
        name: owned(module.name.as_str()),
        version: owned(module.version.as_str()),
        author: owned(module.author.as_str()),
        description: owned(module.description.as_str()),
        disabled: false,
        skip_mount: module.skip_mount,
        has_mount_files: module.has_mount_files,
        source_path: owned(module.source_path.as_str()),
        entries,
    }
}

/// Two planned entries of the module claim one target with conflicting
/// backends, when the module is planned alone with VFS available.
pub open spec fn hot_conflict(module: ModuleRecord, config: Config, promoted: Seq<String>) -> bool {
    module.has_mount_files && exists|e1: int, e2: int|
        #![trigger registers(module, e1, config, promoted, true), registers(module, e2, config, promoted, true)]
        registers(module, e1, config, promoted, true) && registers(module, e2, config, promoted, true) && entry_target(
            module,
            e1,
            promoted,
        ) == entry_target(module, e2, promoted) && entries_conflict(module, e1, module, e2, config, true)
}

/// The module a temporary load plans: the module, enabled.
pub closed spec fn enabled_copy_spec(module: ModuleRecord) -> ModuleRecord {
    ModuleRecord { disabled: false, ..module }
}

proof fn lemma_copy_conflicts(copy: ModuleRecord, module: ModuleRecord, config: Config, promoted: Seq<String>)
    requires
        enabled_view(copy, module),
        !module.skip_mount,
        !has_name(config.module_blacklist@, module.id@),
    ensures
        registration_conflict(seq![copy], config, promoted, true) <==> hot_conflict(module, config, promoted),
        eligible_ids(seq![copy], config) == eligible_ids(seq![enabled_copy_spec(module)], config),
{
    reveal(entry_target);
    reveal(entry_mode);
    assert forall|e: int| #[trigger] registers(copy, e, config, promoted, true) == registers(module, e, config, promoted, true) by {
        if 0 <= e < module.entries@.len() {
            assert(copy.entries@[e].relative@ == module.entries@[e].relative@);
        }
    }
    let mods = seq![copy];
    if registration_conflict(mods, config, promoted, true) {
        let (i1, e1, i2, e2) = choose|i1: int, e1: int, i2: int, e2: int|
            #![trigger registers(mods[i1], e1, config, promoted, true), registers(mods[i2], e2, config, promoted, true)]
            0 <= i1 < mods.len() && 0 <= i2 < mods.len() && eligible(mods[i1], config) && eligible(mods[i2], config)
                && registers(mods[i1], e1, config, promoted, true) && registers(mods[i2], e2, config, promoted, true)
                && entry_target(mods[i1], e1, promoted) == entry_target(mods[i2], e2, promoted)
                && entries_conflict(mods[i1], e1, mods[i2], e2, config, true);
        assert(mods[i1] == copy && mods[i2] == copy);
        assert(registers(module, e1, config, promoted, true) && registers(module, e2, config, promoted, true));
        assert(copy.entries@[e1].relative@ == module.entries@[e1].relative@);
        assert(copy.entries@[e2].relative@ == module.entries@[e2].relative@);
    }
    if hot_conflict(module, config, promoted) {
        let (e1, e2) = choose|e1: int, e2: int|
            #![trigger registers(module, e1, config, promoted, true), registers(module, e2, config, promoted, true)]
            registers(module, e1, config, promoted, true) && registers(module, e2, config, promoted, true) && entry_target(
                module,
                e1,
                promoted,
            ) == entry_target(module, e2, promoted) && entries_conflict(module, e1, module, e2, config, true);
        assert(registers(copy, e1, config, promoted, true) && registers(copy, e2, config, promoted, true));
        assert(copy.entries@[e1].relative@ == module.entries@[e1].relative@);
        assert(copy.entries@[e2].relative@ == module.entries@[e2].relative@);
        assert(mods[0] == copy);
        assert(eligible(mods[0], config));
    }
    let c2 = enabled_copy_spec(module);
    assert(eligible_ids(seq![copy], config) =~= eligible_ids(seq![c2], config)) by {
        assert forall|id: Seq<char>| eligible_ids(seq![copy], config).contains(id) <==> eligible_ids(seq![c2], config).contains(id) by {
            if eligible_ids(seq![copy], config).contains(id) {
                assert(seq![c2][0].id@ == id);
            }
            if eligible_ids(seq![c2], config).contains(id) {
                assert(seq![copy][0].id@ == id);
            }
        }
    }
}

/// Whether the module is refused before planning: it is skipped,
/// blacklisted, or marked for removal.
pub open spec fn hot_refused(module: ModuleRecord, config: Config, remove_marker: bool) -> bool {
    module.skip_mount || has_name(config.module_blacklist@, module.id@) || remove_marker
}

/// Plans loading one module while the system runs. Only a module whose whole
/// plan is VFS can be loaded this way: one that already owns Magic Mount or
/// OverlayFS mounts, one that is skipped, blacklisted or carries the removal
/// marker (`remove_marker`), and one whose plan needs another backend are
/// refused. The module is planned alone, as enabled, with VFS available.
///
/// The VFS targets of the plan still have to be checked against the managed
/// mounts of `saved`, with [`hot_targets_clear`], once the VFS rules are built.
pub fn plan_hot_module(
    module: &ModuleRecord,
    config: &Config,
    promoted: &[String],
    saved: &Ledger,
    remove_marker: bool,
) -> (r: Result<MountPlan>)
    ensures
        has_name(saved.non_vfs_modules@, module.id@) ==> (r matches Err(e) && e.spec_message()
            == "module has active Magic/Overlay ownership; reboot required"@),
        !has_name(saved.non_vfs_modules@, module.id@) && hot_refused(*module, *config, remove_marker) ==> (r matches Err(
            e,
        ) && e.spec_message() == "module is skipped, blacklisted, or pending removal"@),
        r matches Ok(plan) ==> {
            &&& !has_name(saved.non_vfs_modules@, module.id@)
            &&& !hot_refused(*module, *config, remove_marker)
            &&& plan.magic_module_ids@.len() == 0
            &&& plan.overlay_module_ids@.len() == 0
            &&& plan.vfs_module_ids@.len() > 0
            &&& forall|x: Seq<char>| #[trigger] has_name(plan.vfs_module_ids@, x) ==> x == module.id@
            &&& module.has_mount_files ==> forall|i: int| 0 <= i < module.entries@.len() && planned_entry(*module, i, promoted@)
                ==> #[trigger] entry_in_tree(plan.tree.root, *module, i, *config, promoted@, true)
        },
        r matches Err(e) ==> {
            ||| has_name(saved.non_vfs_modules@, module.id@)
            ||| hot_refused(*module, *config, remove_marker)
            ||| (e is PlanConflict && (hot_conflict(*module, *config, promoted@) || exists|t: MountNode| #[trigger] tree_ids_in(
                t,
                eligible_ids(seq![enabled_copy_spec(*module)], *config),
            ) && !(replace_consistent(t) && vfs_unshadowed(t, false) && vfs_opaque_exclusive(t, false))))
            ||| e.spec_message() == "hot operations require a pure VFS file plan; mixed backends require reboot"@
        },
        !has_name(saved.non_vfs_modules@, module.id@) && !hot_refused(*module, *config, remove_marker)
            && hot_conflict(*module, *config, promoted@) ==> (r matches Err(e) && e is PlanConflict),
{
    if crate::plan::paths::contains_name(saved.non_vfs_modules.as_slice(), module.id.as_str()) {
        return Err(Error::msg(owned("module has active Magic/Overlay ownership; reboot required")));
    }
    if module.skip_mount || config.is_module_blacklisted(module.id.as_str()) || remove_marker {
        return Err(Error::msg(owned("module is skipped, blacklisted, or pending removal")));
    }
    let requested = enabled_copy(module);
    let modules = vec![requested];
    let input = PlanInput { modules: modules.as_slice(), config, promoted_partitions: promoted, vfs_available: true };
    proof {
        lemma_copy_conflicts(modules@[0], *module, *config, promoted@);
        assert(modules@ =~= seq![modules@[0]]);
    }
    let plan = match build_plan(&input) {
        Ok(plan) => plan,
        Err(e) => return Err(e),
    };
    if plan.magic_module_ids.len() > 0 || plan.overlay_module_ids.len() > 0 || plan.vfs_module_ids.len() == 0 {
        return Err(Error::msg(owned("hot operations require a pure VFS file plan; mixed backends require reboot")));
    }
    proof {
        assert forall|x: Seq<char>| #[trigger] has_name(plan.vfs_module_ids@, x) implies x == module.id@ by {
            assert(planned_with(modules@, *config, promoted@, true, x, Mode::Vfs));
        }
        let copy = modules@[0];
        assert forall|i: int| module.has_mount_files && 0 <= i < module.entries@.len() && planned_entry(*module, i, promoted@)
            implies #[trigger] entry_in_tree(plan.tree.root, *module, i, *config, promoted@, true) by {
            assert(copy.entries@[i].relative@ == module.entries@[i].relative@);
            assert(copy.entries@[i].file_type == module.entries@[i].file_type);
            assert(planned_entry(copy, i, promoted@));
            assert(eligible(copy, *config));
            assert(entry_in_tree(plan.tree.root, copy, i, *config, promoted@, true));
            assert(entry_target(copy, i, promoted@) == entry_target(*module, i, promoted@)) by {
                reveal(entry_target);
            }
            assert(entry_mode(copy, i, *config, true) == entry_mode(*module, i, *config, true)) by {
                reveal(entry_mode);
            }
        }
    }
    Ok(plan)
}

/// The spec of a VFS target overlapping one of the managed mounts.
pub open spec fn overlaps_managed(target: Seq<char>, saved: Ledger) -> bool {
    exists|m: int| 0 <= m < saved.mounts@.len() && (spec_same_or_below(target, #[trigger] saved.mounts@[m].target@)
        || spec_same_or_below(saved.mounts@[m].target@, target))
}

/// Refuses the first VFS target that is, contains or lies below a managed
/// mount of `saved`; a hot load must not shadow what the boot mounted.
pub fn hot_targets_clear(targets: &[String], saved: &Ledger) -> (r: Result<()>)
    ensures
        r is Ok <==> forall|i: int| 0 <= i < targets@.len() ==> !overlaps_managed(#[trigger] targets@[i]@, *saved),
        r matches Err(e) ==> exists|i: int| 0 <= i < targets@.len() && overlaps_managed(#[trigger] targets@[i]@, *saved)
            && e.spec_message() == "VFS target overlaps an active managed mount: "@ + targets@[i]@,
{
    let mut i: usize = 0;
    while i < targets.len()
        invariant
            0 <= i <= targets@.len(),
            forall|k: int| 0 <= k < i ==> !overlaps_managed(#[trigger] targets@[k]@, *saved),
        decreases targets@.len() - i,
    {
        let target = targets[i].as_str();
        let mut m: usize = 0;
        while m < saved.mounts.len()
            invariant
                0 <= m <= saved.mounts@.len(),
                0 <= i < targets@.len(),
                target@ == targets@[i as int]@,
                forall|q: int| 0 <= q < m ==> !(spec_same_or_below(target@, #[trigger] saved.mounts@[q].target@)
                    || spec_same_or_below(saved.mounts@[q].target@, target@)),
            decreases saved.mounts@.len() - m,
        {
            if paths_overlap(target, saved.mounts[m].target.as_str()) {
                let mut message = owned("VFS target overlaps an active managed mount: ");
                crate::text::append_str(&mut message, target);
                assert(spec_same_or_below(target@, saved.mounts@[m as int].target@) || spec_same_or_below(
                    saved.mounts@[m as int].target@,
                    target@,
                ));
                assert(overlaps_managed(targets@[i as int]@, *saved));
                return Err(Error::msg(message));
            }
            m = m + 1;
        }
        i = i + 1;
    }
    Ok(())
}

} // verus!
