//! Which partitions this boot manages, and which of them are promoted to
//! partitions of their own under `/system`.
use vstd::prelude::*;

use crate::paths::views;
use crate::text::{has_name, insert_name, owned, sorted_names, str_eq};

verus! {

/// The partitions Hybrid Mount may manage, `system` first.
pub open spec fn spec_partition_candidates() -> Seq<Seq<char>> {
    seq!["system"@, "vendor"@, "product"@, "system_ext"@, "odm"@, "oem"@]
}

/// The partitions Hybrid Mount may manage, `system` first; each is managed
/// when `/<name>` exists.
pub fn partition_candidates() -> (r: Vec<String>)
    ensures
        views(r@) == spec_partition_candidates(),
        r@.len() == 6,
        r@[0]@ == "system"@,
        has_name(r@, "vendor"@),
        has_name(r@, "product"@),
        has_name(r@, "system_ext"@),
        has_name(r@, "odm"@),
        has_name(r@, "oem"@),
{
    let mut r: Vec<String> = Vec::new();
    r.push(owned("system"));
    r.push(owned("vendor"));
    r.push(owned("product"));
    r.push(owned("system_ext"));
    r.push(owned("odm"));
    r.push(owned("oem"));
    assert(views(r@) =~= spec_partition_candidates());
    assert(r@[1]@ == "vendor"@);
    assert(r@[2]@ == "product"@);
    assert(r@[3]@ == "system_ext"@);
    assert(r@[4]@ == "odm"@);
    assert(r@[5]@ == "oem"@);
    r
}

/// The candidates are `system` and the partitions it may hold as partitions
/// of their own: `vendor`, `product`, `system_ext`, `odm` and `oem`, each
/// once, and nothing else.
pub proof fn candidates_are_the_partition_roots(x: Seq<char>)
    ensures
        spec_partition_candidates().len() == 6,
        spec_partition_candidates().contains(x) <==> (x == "system"@ || x == "vendor"@ || x == "product"@ || x == "system_ext"@
            || x == "odm"@ || x == "oem"@),
        spec_partition_candidates()[0] == "system"@,
        forall|i: int, j: int| 0 <= i < j < 6 ==> spec_partition_candidates()[i] != spec_partition_candidates()[j],
{
    let c = spec_partition_candidates();
    reveal_strlit("system");
    reveal_strlit("vendor");
    reveal_strlit("product");
    reveal_strlit("system_ext");
    reveal_strlit("odm");
    reveal_strlit("oem");
    if x == "system"@ { assert(c[0] == x); }
    if x == "vendor"@ { assert(c[1] == x); }
    if x == "product"@ { assert(c[2] == x); }
    if x == "system_ext"@ { assert(c[3] == x); }
    if x == "odm"@ { assert(c[4] == x); }
    if x == "oem"@ { assert(c[5] == x); }
    assert forall|i: int, j: int| 0 <= i < j < 6 implies c[i] != c[j] by {
        assert(c[i].len() != c[j].len() || c[i][0] != c[j][0] || c[i][1] != c[j][1]);
    }
}

/// Every candidate whose root exists is managed, and only those: on a
/// device with `/system`, `/vendor` and `/product`, the managed partitions
/// are exactly `product`, `system` and `vendor`.
pub proof fn existing_partition_roots_are_managed(candidates: Seq<String>, exists: Seq<bool>, managed: Seq<String>, x: Seq<char>)
    requires
        views(candidates) == spec_partition_candidates(),
        exists.len() == candidates.len(),
        forall|y: Seq<char>| #[trigger] has_name(managed, y) <==> exists|i: int|
            0 <= i < candidates.len() && #[trigger] candidates[i]@ == y && exists[i],
        x == "system"@ || x == "vendor"@ || x == "product"@ || x == "system_ext"@ || x == "odm"@ || x == "oem"@,
    ensures
        has_name(managed, x) <==> exists|i: int| 0 <= i < candidates.len() && candidates[i]@ == x && #[trigger] exists[i],
        exists|i: int| 0 <= i < candidates.len() && #[trigger] candidates[i]@ == x,
{
    candidates_are_the_partition_roots(x);
    let c = spec_partition_candidates();
    let i = choose|i: int| 0 <= i < c.len() && c[i] == x;
    assert(views(candidates)[i] == candidates[i]@);
    assert(candidates[i]@ == x);
    if has_name(managed, x) {
        let k = choose|k: int| 0 <= k < candidates.len() && #[trigger] candidates[k]@ == x && exists[k];
        assert(exists[k]);
    }
    if exists|k: int| 0 <= k < candidates.len() && candidates[k]@ == x && #[trigger] exists[k] {
        let k = choose|k: int| 0 <= k < candidates.len() && candidates[k]@ == x && #[trigger] exists[k];
        assert(candidates[k]@ == x);
    }
}

/// The managed partitions: the candidates whose root exists (`exists[i]`
/// for `candidates[i]`), sorted and without repeats.
pub fn managed_partition_names(candidates: &[String], exists: &[bool]) -> (r: Vec<String>)
    requires
        exists@.len() == candidates@.len(),
    ensures
        sorted_names(r@),
        forall|x: Seq<char>| #[trigger] has_name(r@, x) <==> exists|i: int|
            0 <= i < candidates@.len() && #[trigger] candidates@[i]@ == x && exists@[i],
{
    let mut r: Vec<String> = Vec::new();
    let mut i: usize = 0;
    while i < candidates.len()
        invariant
            0 <= i <= candidates@.len(),
            exists@.len() == candidates@.len(),
            sorted_names(r@),
            forall|x: Seq<char>| #[trigger] has_name(r@, x) <==> exists|k: int|
                0 <= k < i && #[trigger] candidates@[k]@ == x && exists@[k],
        decreases candidates@.len() - i,
    {
        if exists[i] {
            insert_name(&mut r, candidates[i].as_str());
        }
        proof {
            assert forall|x: Seq<char>| #[trigger] has_name(r@, x) <==> exists|k: int|
                0 <= k < i + 1 && #[trigger] candidates@[k]@ == x && exists@[k] by {
                if x == candidates@[i as int]@ && exists@[i as int] {
                    assert(candidates@[i as int]@ == x);
                }
            }
        }
        i = i + 1;
    }
    r
}

/// Whether `partition` counts as promoted only when `/system/<partition>`
/// is a symlink: every partition but `odm`.
pub open spec fn spec_requires_symlink(partition: Seq<char>) -> bool {
    partition != "odm"@
}

/// Whether `partition` is promoted only when `/system/<partition>` is a
/// symlink (the built-in rules: `vendor`, `system_ext` and `product` do,
/// `odm` does not, and any other partition does).
pub fn requires_symlink(partition: &str) -> (r: bool)
    ensures
        r == spec_requires_symlink(partition@),
{
    !str_eq(partition, "odm")
}

/// The promoted partitions among the managed ones: those whose rule needs
/// no symlink, and those whose `/system/<partition>` is one (`links[i]` for
/// `managed[i]`), sorted and without repeats.
pub fn detect_promoted_partitions(managed: &[String], links: &[bool]) -> (r: Vec<String>)
    requires
        links@.len() == managed@.len(),
    ensures
        sorted_names(r@),
        forall|x: Seq<char>| #[trigger] has_name(r@, x) <==> exists|i: int|
            0 <= i < managed@.len() && #[trigger] managed@[i]@ == x && (!spec_requires_symlink(x) || links@[i]),
{
    let mut r: Vec<String> = Vec::new();
    let mut i: usize = 0;
    while i < managed.len()
        invariant
            0 <= i <= managed@.len(),
            links@.len() == managed@.len(),
            sorted_names(r@),
            forall|x: Seq<char>| #[trigger] has_name(r@, x) <==> exists|k: int|
                0 <= k < i && #[trigger] managed@[k]@ == x && (!spec_requires_symlink(x) || links@[k]),
        decreases managed@.len() - i,
    {
        let name = managed[i].as_str();
        let keep = !requires_symlink(name) || links[i];
        if keep {
            insert_name(&mut r, name);
        }
        proof {
            assert forall|x: Seq<char>| #[trigger] has_name(r@, x) <==> exists|k: int|
                0 <= k < i + 1 && #[trigger] managed@[k]@ == x && (!spec_requires_symlink(x) || links@[k]) by {
                if x == managed@[i as int]@ && keep {
                    assert(managed@[i as int]@ == x);
                }
            }
        }
        i = i + 1;
    }
    r
}

} // verus!
