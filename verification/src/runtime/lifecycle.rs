//! Lifecycle checks shared by initial boot and soft-reboot preparation.
use vstd::prelude::*;

use crate::errors::{Error, Result};
use crate::runtime::rules::{present_in, semantic_equal, SavedRule};
use crate::state::RunState;
use crate::text::{append_str, has_prefix, owned, starts_with, str_eq, str_lt, lex_lt};

verus! {

/// Partitions besides `/system` that Hybrid Mount manages.
pub open spec fn spec_managed_partition(name: Seq<char>) -> bool {
    name == "vendor"@ || name == "product"@ || name == "system_ext"@ || name == "odm"@ || name
        == "oem"@
}

/// Whether `name` is a managed partition other than `system`.
pub fn is_managed_partition(name: &str) -> (r: bool)
    ensures
        r == spec_managed_partition(name@),
{
    str_eq(name, "vendor") || str_eq(name, "product") || str_eq(name, "system_ext") || str_eq(
        name,
        "odm",
    ) || str_eq(name, "oem")
}

/// `/system` or `/<managed partition>`.
pub open spec fn is_partition_root(target: Seq<char>) -> bool {
    target == "/system"@ || (target.len() > 0 && target[0] == '/' && spec_managed_partition(
        target.skip(1),
    ))
}

fn partition_root(target: &str) -> (r: bool)
    ensures
        r == is_partition_root(target@),
{
    if str_eq(target, "/system") {
        return true;
    }
    let n = crate::text::char_len(target);
    if n == 0 {
        return false;
    }
    let rest = crate::text::suffix_from(target, 1);
    target.get_char(0) == '/' && is_managed_partition(rest.as_str())
}

/// A mount that looks like an ordinary partition: ext4 or erofs from a block device.
pub open spec fn is_stock_mount(m: (String, String, Option<String>)) -> bool {
    (m.1@ == "ext4"@ || m.1@ == "erofs"@) && match m.2 {
        Some(src) => has_prefix(src@, "/dev/block/"@),
        None => false,
    }
}

/// `target` is mounted in `current` by something other than a single stock
/// partition mount on a partition root.
pub open spec fn untracked_mount_at(
    current: Seq<(String, String, Option<String>)>,
    target: Seq<char>,
) -> bool {
    (exists|i: int| 0 <= i < current.len() && #[trigger] current[i].0@ == target) && !(
    is_partition_root(target) && exists|i: int|
        0 <= i < current.len() && #[trigger] current[i].0@ == target && is_stock_mount(current[i])
            && forall|j: int| 0 <= j < current.len() && j != i ==> #[trigger] current[j].0@ != target)
}

/// A partition root — `/system`, `/vendor`, `/product`, `/system_ext`, `/odm`
/// or `/oem` — with exactly one mount, an ordinary ext4 or erofs partition
/// from a block device, is never reported as untracked.
pub proof fn stock_partition_mount_is_tracked(current: Seq<(String, String, Option<String>)>, target: Seq<char>, i: int)
    requires
        target == "/system"@ || target == "/vendor"@ || target == "/product"@ || target == "/system_ext"@ || target == "/odm"@
            || target == "/oem"@,
        0 <= i < current.len(),
        current[i].0@ == target,
        current[i].1@ == "ext4"@ || current[i].1@ == "erofs"@,
        current[i].2 matches Some(src) && has_prefix(src@, "/dev/block/"@),
        forall|j: int| 0 <= j < current.len() && j != i ==> #[trigger] current[j].0@ != target,
    ensures
        !untracked_mount_at(current, target),
{
    reveal_strlit("/system");
    reveal_strlit("/vendor");
    reveal_strlit("/product");
    reveal_strlit("/system_ext");
    reveal_strlit("/odm");
    reveal_strlit("/oem");
    reveal_strlit("vendor");
    reveal_strlit("product");
    reveal_strlit("system_ext");
    reveal_strlit("odm");
    reveal_strlit("oem");
    if target != "/system"@ {
        assert(target.len() > 0 && target[0] == '/');
        if target == "/vendor"@ {
            assert(target.skip(1) =~= "vendor"@);
        } else if target == "/product"@ {
            assert(target.skip(1) =~= "product"@);
        } else if target == "/system_ext"@ {
            assert(target.skip(1) =~= "system_ext"@);
        } else if target == "/odm"@ {
            assert(target.skip(1) =~= "odm"@);
        } else {
            assert(target.skip(1) =~= "oem"@);
        }
    }
    assert(is_partition_root(target));
    assert(is_stock_mount(current[i]));
}

/// The partition roots that may keep one ordinary partition mount.
proof fn lemma_partition_roots(target: Seq<char>)
    ensures
        is_partition_root(target) <==> (target == "/system"@ || target == "/vendor"@ || target == "/product"@ || target
            == "/system_ext"@ || target == "/odm"@ || target == "/oem"@),
{
    reveal_strlit("/system");
    reveal_strlit("/vendor");
    reveal_strlit("/product");
    reveal_strlit("/system_ext");
    reveal_strlit("/odm");
    reveal_strlit("/oem");
    reveal_strlit("vendor");
    reveal_strlit("product");
    reveal_strlit("system_ext");
    reveal_strlit("odm");
    reveal_strlit("oem");
    if target == "/vendor"@ {
        assert(target.skip(1) =~= "vendor"@);
    } else if target == "/product"@ {
        assert(target.skip(1) =~= "product"@);
    } else if target == "/system_ext"@ {
        assert(target.skip(1) =~= "system_ext"@);
    } else if target == "/odm"@ {
        assert(target.skip(1) =~= "odm"@);
    } else if target == "/oem"@ {
        assert(target.skip(1) =~= "oem"@);
    }
    if target.len() > 0 && target[0] == '/' {
        let rest = target.skip(1);
        assert(target =~= seq!['/'] + rest);
        if rest == "vendor"@ {
            assert(target =~= "/vendor"@);
        } else if rest == "product"@ {
            assert(target =~= "/product"@);
        } else if rest == "system_ext"@ {
            assert(target =~= "/system_ext"@);
        } else if rest == "odm"@ {
            assert(target =~= "/odm"@);
        } else if rest == "oem"@ {
            assert(target =~= "/oem"@);
        }
    }
}

/// What counts as an untracked mount: `target` is mounted, and it is not a
/// partition root (`/system`, `/vendor`, `/product`, `/system_ext`, `/odm`,
/// `/oem`) holding exactly one mount that is ext4 or erofs from a device
/// under `/dev/block/`.
pub proof fn untracked_mount_meaning(current: Seq<(String, String, Option<String>)>, target: Seq<char>)
    ensures
        untracked_mount_at(current, target) <==> (exists|i: int| 0 <= i < current.len() && #[trigger] current[i].0@ == target) && !(
            (target == "/system"@ || target == "/vendor"@ || target == "/product"@ || target == "/system_ext"@ || target == "/odm"@
                || target == "/oem"@) && exists|i: int|
                0 <= i < current.len() && #[trigger] current[i].0@ == target && (current[i].1@ == "ext4"@ || current[i].1@ == "erofs"@)
                    && (current[i].2 matches Some(src) && src@.len() >= 11 && src@.subrange(0, 11) == "/dev/block/"@)
                    && forall|j: int| 0 <= j < current.len() && j != i ==> #[trigger] current[j].0@ != target),
{
    lemma_partition_roots(target);
    reveal_strlit("/dev/block/");
    assert("/dev/block/"@.len() == 11);
}

/// Every target the saved state names: overlay, magic and leftover targets and
/// the storage mount point.
pub open spec fn state_target(state: RunState, t: Seq<char>) -> bool {
    (exists|i: int| 0 <= i < state.overlay_active_mounts@.len() && #[trigger] state.overlay_active_mounts@[i]@ == t)
        || (exists|i: int| 0 <= i < state.magic_active_mounts@.len() && #[trigger] state.magic_active_mounts@[i]@ == t)
        || (exists|i: int| 0 <= i < state.leftover_mount_targets@.len() && #[trigger] state.leftover_mount_targets@[i]@ == t)
        || (state.mount_point@.len() > 0 && state.mount_point@ == t)
}

fn untracked_at(current: &[(String, String, Option<String>)], target: &str) -> (r: bool)
    ensures
        r == untracked_mount_at(current@, target@),
{
    let mut count: usize = 0;
    let mut first: usize = 0;
    let mut i: usize = 0;
    while i < current.len()
        invariant
            0 <= i <= current@.len(),
            count <= i,
            count == 0 ==> forall|k: int| 0 <= k < i ==> #[trigger] current@[k].0@ != target@,
            count >= 1 ==> first < i && current@[first as int].0@ == target@ && forall|k: int|
                0 <= k < first ==> #[trigger] current@[k].0@ != target@,
            count == 1 ==> forall|k: int|
                0 <= k < i && k != first ==> #[trigger] current@[k].0@ != target@,
            count >= 2 ==> exists|k: int|
                0 <= k < i && k != first && #[trigger] current@[k].0@ == target@,
        decreases current@.len() - i,
    {
        if str_eq(current[i].0.as_str(), target) {
            if count == 0 {
                first = i;
            }
            if count < 2 {
                count = count + 1;
            }
        }
        i = i + 1;
    }
    if count == 0 {
        return false;
    }
    if !partition_root(target) || count != 1 {
        proof {
            if count >= 2 {
                let k = choose|k: int|
                    0 <= k < i && k != first && #[trigger] current@[k].0@ == target@;
                assert forall|m: int|
                    0 <= m < current@.len() && #[trigger] current@[m].0@ == target@
                        && is_stock_mount(current@[m]) implies !(forall|j: int|
                    0 <= j < current@.len() && j != m ==> #[trigger] current@[j].0@ != target@) by {
                    if m == first {
                        assert(current@[k].0@ == target@);
                    } else {
                        assert(current@[first as int].0@ == target@);
                    }
                }
            }
        }
        return true;
    }
    let entry = &current[first];
    let fs = entry.1.as_str();
    let stock_fs = str_eq(fs, "ext4") || str_eq(fs, "erofs");
    let block = match &entry.2 {
        Some(src) => starts_with(src.as_str(), "/dev/block/"),
        None => false,
    };
    proof {
        if !(stock_fs && block) {
            assert forall|m: int|
                0 <= m < current@.len() && #[trigger] current@[m].0@ == target@ && is_stock_mount(
                    current@[m],
                ) implies !(forall|j: int|
                0 <= j < current@.len() && j != m ==> #[trigger] current@[j].0@ != target@) by {
                assert(m == first);
            }
        }
    }
    !(stock_fs && block)
}

/// The refusal for an untracked mount at `target`.
pub open spec fn spec_untracked_message(target: Seq<char>) -> Seq<char> {
    "untracked mount at "@ + target + "; a full reboot is required before runtime management"@
}

fn untracked_message(target: &str) -> (r: String)
    ensures
        r@ == spec_untracked_message(target@),
{
    let mut message = owned("untracked mount at ");
    append_str(&mut message, target);
    append_str(&mut message, "; a full reboot is required before runtime management");
    message
}

/// Refuses runtime management while a target of the saved boot state is
/// still mounted by something the ledger cannot account for. A single ordinary
/// partition mount (ext4 or erofs from a block device) may survive across
/// physical boots; nested targets and stacks are ambiguous.
pub fn reject_legacy_mounts(state: &RunState, current: &[(String, String, Option<String>)]) -> (r:
    Result<()>)
    ensures
        r is Ok <==> forall|t: Seq<char>| state_target(*state, t) ==> !untracked_mount_at(current@, t),
{
    let mut worst: Option<&str> = None;
    let mut i: usize = 0;
    while i < state.overlay_active_mounts.len()
        invariant
            0 <= i <= state.overlay_active_mounts@.len(),
            worst matches Some(w) ==> untracked_mount_at(current@, w@) && state_target(*state, w@),
            worst is None ==> forall|k: int| 0 <= k < i ==> !untracked_mount_at(current@, #[trigger] state.overlay_active_mounts@[k]@),
        decreases state.overlay_active_mounts@.len() - i,
    {
        let t = state.overlay_active_mounts[i].as_str();
        if untracked_at(current, t) {
            worst = Some(smaller(worst, t));
        }
        i = i + 1;
    }
    let mut i: usize = 0;
    while i < state.magic_active_mounts.len()
        invariant
            0 <= i <= state.magic_active_mounts@.len(),
            worst matches Some(w) ==> untracked_mount_at(current@, w@) && state_target(*state, w@),
            worst is None ==> forall|k: int| 0 <= k < state.overlay_active_mounts@.len() ==> !untracked_mount_at(current@, #[trigger] state.overlay_active_mounts@[k]@),
            worst is None ==> forall|k: int| 0 <= k < i ==> !untracked_mount_at(current@, #[trigger] state.magic_active_mounts@[k]@),
        decreases state.magic_active_mounts@.len() - i,
    {
        let t = state.magic_active_mounts[i].as_str();
        if untracked_at(current, t) {
            worst = Some(smaller(worst, t));
        }
        i = i + 1;
    }
    let mut i: usize = 0;
    while i < state.leftover_mount_targets.len()
        invariant
            0 <= i <= state.leftover_mount_targets@.len(),
            worst matches Some(w) ==> untracked_mount_at(current@, w@) && state_target(*state, w@),
            worst is None ==> forall|k: int| 0 <= k < state.overlay_active_mounts@.len() ==> !untracked_mount_at(current@, #[trigger] state.overlay_active_mounts@[k]@),
            worst is None ==> forall|k: int| 0 <= k < state.magic_active_mounts@.len() ==> !untracked_mount_at(current@, #[trigger] state.magic_active_mounts@[k]@),
            worst is None ==> forall|k: int| 0 <= k < i ==> !untracked_mount_at(current@, #[trigger] state.leftover_mount_targets@[k]@),
        decreases state.leftover_mount_targets@.len() - i,
    {
        let t = state.leftover_mount_targets[i].as_str();
        if untracked_at(current, t) {
            worst = Some(smaller(worst, t));
        }
        i = i + 1;
    }
    let mp = state.mount_point.as_str();
    if crate::text::char_len(mp) > 0 && untracked_at(current, mp) {
        worst = Some(smaller(worst, mp));
    }
    match worst {
        Some(target) => {
            proof {
                assert(state_target(*state, target@));
                assert(untracked_mount_at(current@, target@));
            }
            Err(Error::msg(untracked_message(target)))
        },
        None => Ok(()),
    }
}

/// The lexicographically smaller of the current candidate and `t`.
fn smaller<'a>(current: Option<&'a str>, t: &'a str) -> (r: &'a str)
    ensures
        match current {
            Some(c) => r == if crate::text::lex_lt(c@, t@) { c } else { t },
            None => r == t,
        },
{
    match current {
        Some(c) => if str_lt(c, t) {
            c
        } else {
            t
        },
        None => t,
    }
}

/// The isolation uids this runtime owns: those observed now that it requested
/// and that were not already present before it started.
pub fn owned_uids(requested: &[u32], original: &[u32], observed: &[u32]) -> (owned_list: Vec<u32>)
    ensures
        owned_list@ == observed@.filter(
            |uid: u32| requested@.contains(uid) && !original@.contains(uid),
        ),
{
    let ghost pred = |uid: u32| requested@.contains(uid) && !original@.contains(uid);
    let mut out: Vec<u32> = Vec::new();
    let mut i: usize = 0;
    while i < observed.len()
        invariant
            0 <= i <= observed@.len(),
            out@ == observed@.subrange(0, i as int).filter(pred),
            pred == (|uid: u32| requested@.contains(uid) && !original@.contains(uid)),
        decreases observed@.len() - i,
    {
        let uid = observed[i];
        let wanted = contains_uid(requested, uid);
        let preexisting = contains_uid(original, uid);
        proof {
            observed@.subrange(0, i as int).lemma_filter_push(uid, pred);
            assert(observed@.subrange(0, i + 1) =~= observed@.subrange(0, i as int).push(uid));
            assert(pred(uid) == (wanted && !preexisting));
        }
        if wanted && !preexisting {
            out.push(uid);
        }
        i = i + 1;
    }
    assert(observed@.subrange(0, observed@.len() as int) =~= observed@);
    out
}

/// Whether `uids` contains `uid`.
pub fn contains_uid(uids: &[u32], uid: u32) -> (r: bool)
    ensures
        r == uids@.contains(uid),
{
    let mut i: usize = 0;
    while i < uids.len()
        invariant
            0 <= i <= uids@.len(),
            forall|k: int| 0 <= k < i ==> uids@[k] != uid,
        decreases uids@.len() - i,
    {
        if uids[i] == uid {
            assert(uids@[i as int] == uid);
            return true;
        }
        i = i + 1;
    }
    false
}

/// The index of the first planned rule for `target`.
pub open spec fn first_planned(planned: Seq<SavedRule>, target: Seq<char>, k: int) -> bool {
    0 <= k < planned.len() && planned[k].virtual_path@ == target && forall|j: int|
        0 <= j < k ==> #[trigger] planned[j].virtual_path@ != target
}

/// Every advertised target has a planned rule, and the first planned rule for
/// it is still live in `observed`.
pub open spec fn boot_rules_confirmed(
    planned: Seq<SavedRule>,
    active_targets: Seq<String>,
    observed: Seq<SavedRule>,
) -> bool {
    forall|i: int|
        0 <= i < active_targets.len() ==> #[trigger] target_confirmed(
            planned,
            active_targets[i]@,
            observed,
        )
}

/// The first planned rule for `target` exists and is live in `observed`.
pub open spec fn target_confirmed(
    planned: Seq<SavedRule>,
    target: Seq<char>,
    observed: Seq<SavedRule>,
) -> bool {
    exists|k: int| #[trigger] first_planned(planned, target, k) && present_in(observed, planned[k])
}

/// Confirms that every advertised VFS target still carries its planned rule at
/// the final ownership commit. A degraded boot advertises no target.
pub fn confirm_boot_rules(
    planned: &[SavedRule],
    active_targets: &[String],
    observed: &[SavedRule],
) -> (r: Result<()>)
    ensures
        r is Ok <==> boot_rules_confirmed(planned@, active_targets@, observed@),
{
    let mut i: usize = 0;
    while i < active_targets.len()
        invariant
            0 <= i <= active_targets@.len(),
            forall|q: int|
                0 <= q < i ==> #[trigger] target_confirmed(planned@, active_targets@[q]@, observed@),
        decreases active_targets@.len() - i,
    {
        let target = active_targets[i].as_str();
        let mut k: usize = 0;
        while k < planned.len() && !str_eq(planned[k].virtual_path.as_str(), target)
            invariant
                0 <= k <= planned@.len(),
                forall|j: int| 0 <= j < k ==> #[trigger] planned@[j].virtual_path@ != target@,
            decreases planned@.len() - k,
        {
            k = k + 1;
        }
        if k == planned.len() {
            proof {
                assert forall|m: int| !#[trigger] first_planned(planned@, active_targets@[i as int]@, m) by {
                }
                assert(!target_confirmed(planned@, active_targets@[i as int]@, observed@));
            }
            let mut message = owned("unplanned active VFS target: ");
            append_str(&mut message, target);
            return Err(Error::msg(message));
        }
        let expected = &planned[k];
        let mut found = false;
        let mut j: usize = 0;
        while j < observed.len()
            invariant
                0 <= j <= observed@.len(),
                found ==> present_in(observed@, *expected),
                !found ==> forall|q: int| 0 <= q < j ==> !crate::runtime::rules::spec_semantic_equal(*expected, #[trigger] observed@[q]),
            decreases observed@.len() - j,
        {
            if !found && semantic_equal(expected, &observed[j]) {
                found = true;
            }
            j = j + 1;
        }
        proof {
            assert(first_planned(planned@, active_targets@[i as int]@, k as int));
            if found {
                assert(target_confirmed(planned@, active_targets@[i as int]@, observed@));
            }
            if !found {
                assert forall|m: int| #[trigger] first_planned(planned@, active_targets@[i as int]@, m) implies !present_in(observed@, planned@[m]) by {
                    assert(m == k);
                }
                assert(!target_confirmed(planned@, active_targets@[i as int]@, observed@));
            }
        }
        if !found {
            let mut message = owned("VFS rule changed before boot ownership commit: ");
            append_str(&mut message, target);
            return Err(Error::msg(message));
        }
        i = i + 1;
    }
    Ok(())
}

} // verus!
