//! Mount table snapshots shared by mount confirmation and rollback queries.
//!
//! Paths are compared the way `std::path::Path` compares them: component by
//! component, absolute paths before relative ones, so `/system/etc` orders
//! before `/system-x` and `/system/` is the same mount point as `/system`.
use vstd::prelude::*;

use crate::paths::{components, split_components, views};
use crate::text::{append_str, has_name, lex_lt, lemma_lex_irreflexive, lemma_lex_total, lemma_lex_transitive, owned, str_eq, str_lt, u64_decimal};

verus! {

/// One mount as the kernel's mount table reports it, reduced to the fields
/// the mount pipeline reads.
#[derive(Debug)]
pub struct MountEntry {
    pub mount_point: String,
    pub fs_type: String,
    pub mount_source: Option<String>,
    pub mnt_id: i32,
    /// Device major:minor, as reported by the kernel.
    pub majmin: String,
    /// Peer group id from the `shared:` field, present only while the mount is shared.
    pub shared: Option<u32>,
    /// Mount id from the `master:` field, present only while the mount is a slave.
    pub master: Option<u32>,
}

/// One optional field of a mount table line.
#[derive(Debug, Clone, Copy, PartialEq, Eq, Structural)]
pub enum PropagationField {
    Shared(u32),
    Master(u32),
    Other,
}

/// The last `shared:` group among `fields`.
pub open spec fn last_shared(fields: Seq<PropagationField>) -> Option<u32>
    decreases fields.len(),
{
    if fields.len() == 0 {
        None
    } else {
        match fields.last() {
            PropagationField::Shared(id) => Some(id),
            _ => last_shared(fields.drop_last()),
        }
    }
}

/// The last `master:` id among `fields`.
pub open spec fn last_master(fields: Seq<PropagationField>) -> Option<u32>
    decreases fields.len(),
{
    if fields.len() == 0 {
        None
    } else {
        match fields.last() {
            PropagationField::Master(id) => Some(id),
            _ => last_master(fields.drop_last()),
        }
    }
}

/// The propagation state as diagnostics print it.
pub open spec fn spec_propagation(shared: Option<u32>, master: Option<u32>) -> Seq<char> {
    match (shared, master) {
        (Some(group), _) => "shared:"@ + crate::text::decimal(group as nat),
        (None, Some(id)) => "slave:"@ + crate::text::decimal(id as nat),
        (None, None) => "private"@,
    }
}

impl MountEntry {
    /// Keeps the fields the pipeline reads, with the propagation state taken
    /// from the line's optional fields.
    pub fn from_fields(
        mount_point: String,
        fs_type: String,
        mount_source: Option<String>,
        mnt_id: i32,
        majmin: String,
        optional_fields: &[PropagationField],
    ) -> (e: MountEntry)
        ensures
            e.mount_point == mount_point,
            e.fs_type == fs_type,
            e.mount_source == mount_source,
            e.mnt_id == mnt_id,
            e.majmin == majmin,
            e.shared == last_shared(optional_fields@),
            e.master == last_master(optional_fields@),
    {
        let mut shared: Option<u32> = None;
        let mut master: Option<u32> = None;
        let mut i: usize = 0;
        while i < optional_fields.len()
            invariant
                0 <= i <= optional_fields@.len(),
                shared == last_shared(optional_fields@.subrange(0, i as int)),
                master == last_master(optional_fields@.subrange(0, i as int)),
            decreases optional_fields@.len() - i,
        {
            let field = optional_fields[i];
            assert(optional_fields@.subrange(0, i + 1).drop_last() =~= optional_fields@.subrange(0, i as int));
            match field {
                PropagationField::Shared(id) => {
                    shared = Some(id);
                },
                PropagationField::Master(id) => {
                    master = Some(id);
                },
                PropagationField::Other => {},
            }
            i = i + 1;
        }
        assert(optional_fields@.subrange(0, optional_fields@.len() as int) =~= optional_fields@);
        MountEntry { mount_point, fs_type, mount_source, mnt_id, majmin, shared, master }
    }

    /// Human-readable propagation state, used by boot diagnostics.
    pub fn propagation(&self) -> (r: String)
        ensures
            r@ == spec_propagation(self.shared, self.master),
    {
        match (self.shared, self.master) {
            (Some(group), _) => {
                let mut r = owned("shared:");
                let n = u64_decimal(group as u64);
                append_str(&mut r, n.as_str());
                r
            },
            (None, Some(id)) => {
                let mut r = owned("slave:");
                let n = u64_decimal(id as u64);
                append_str(&mut r, n.as_str());
                r
            },
            (None, None) => owned("private"),
        }
    }
}

/// Whether `p` is an absolute path.
pub open spec fn is_absolute(p: Seq<char>) -> bool {
    p.len() > 0 && p[0] == '/'
}

/// Lexicographic order of component lists.
pub open spec fn comps_lt(a: Seq<Seq<char>>, b: Seq<Seq<char>>) -> bool
    decreases a.len(),
{
    if a.len() == 0 {
        b.len() > 0
    } else if b.len() == 0 {
        false
    } else if a[0] != b[0] {
        lex_lt(a[0], b[0])
    } else {
        comps_lt(a.drop_first(), b.drop_first())
    }
}

/// The same path, component for component.
pub open spec fn same_path(a: Seq<char>, b: Seq<char>) -> bool {
    is_absolute(a) == is_absolute(b) && components(a) == components(b)
}

/// `Path` order: absolute before relative, then component by component.
pub open spec fn path_lt(a: Seq<char>, b: Seq<char>) -> bool {
    (is_absolute(a) && !is_absolute(b)) || (is_absolute(a) == is_absolute(b) && comps_lt(
        components(a),
        components(b),
    ))
}

/// `p` lies at or below `root`, component for component.
pub open spec fn under(p: Seq<char>, root: Seq<char>) -> bool {
    &&& is_absolute(p) == is_absolute(root)
    &&& components(root).len() <= components(p).len()
    &&& components(p).subrange(0, components(root).len() as int) == components(root)
}

proof fn lemma_comps_irreflexive(a: Seq<Seq<char>>)
    ensures
        !comps_lt(a, a),
    decreases a.len(),
{
    if a.len() > 0 {
        lemma_comps_irreflexive(a.drop_first());
    }
}

proof fn lemma_comps_transitive(a: Seq<Seq<char>>, b: Seq<Seq<char>>, c: Seq<Seq<char>>)
    requires
        comps_lt(a, b),
        comps_lt(b, c),
    ensures
        comps_lt(a, c),
    decreases a.len(),
{
    if a.len() > 0 && b.len() > 0 && c.len() > 0 {
        if a[0] == b[0] && b[0] == c[0] {
            lemma_comps_transitive(a.drop_first(), b.drop_first(), c.drop_first());
        } else if a[0] == b[0] {
        } else if b[0] == c[0] {
        } else {
            lemma_lex_transitive(a[0], b[0], c[0]);
            if a[0] == c[0] {
                lemma_lex_transitive(a[0], b[0], a[0]);
                lemma_lex_irreflexive(a[0]);
            }
        }
    }
}

proof fn lemma_comps_total(a: Seq<Seq<char>>, b: Seq<Seq<char>>)
    ensures
        a == b || comps_lt(a, b) || comps_lt(b, a),
    decreases a.len(),
{
    if a.len() > 0 && b.len() > 0 {
        if a[0] == b[0] {
            lemma_comps_total(a.drop_first(), b.drop_first());
            if a.drop_first() == b.drop_first() {
                assert(a =~= seq![a[0]] + a.drop_first());
                assert(b =~= seq![b[0]] + b.drop_first());
            }
        } else {
            lemma_lex_total(a[0], b[0]);
        }
    } else if a.len() == 0 && b.len() == 0 {
        assert(a =~= b);
    }
}

/// `path_lt` is a strict order that is total up to `same_path`.
pub proof fn lemma_path_order(a: Seq<char>, b: Seq<char>, c: Seq<char>)
    ensures
        !path_lt(a, a),
        path_lt(a, b) && path_lt(b, c) ==> path_lt(a, c),
        same_path(a, b) || path_lt(a, b) || path_lt(b, a),
        path_lt(a, b) ==> !same_path(a, b) && !path_lt(b, a),
{
    lemma_comps_irreflexive(components(a));
    lemma_comps_total(components(a), components(b));
    if path_lt(a, b) && path_lt(b, c) {
        if is_absolute(a) == is_absolute(b) && is_absolute(b) == is_absolute(c) {
            lemma_comps_transitive(components(a), components(b), components(c));
        }
    }
    if path_lt(a, b) && path_lt(b, a) {
        lemma_comps_transitive(components(a), components(b), components(a));
    }
}

fn is_abs(p: &str) -> (r: bool)
    ensures
        r == is_absolute(p@),
{
    p.unicode_len() > 0 && p.get_char(0) == '/'
}

fn comps_less(a: &Vec<String>, b: &Vec<String>) -> (r: bool)
    ensures
        r == comps_lt(views(a@), views(b@)),
{
    let mut i: usize = 0;
    assert(views(a@).skip(0) =~= views(a@));
    assert(views(b@).skip(0) =~= views(b@));
    while i < a.len() && i < b.len()
        invariant
            0 <= i <= a@.len(),
            i <= b@.len(),
            comps_lt(views(a@), views(b@)) == comps_lt(views(a@).skip(i as int), views(b@).skip(i as int)),
        decreases a@.len() - i,
    {
        proof {
            let x = views(a@).skip(i as int);
            let y = views(b@).skip(i as int);
            assert(x[0] == a@[i as int]@);
            assert(y[0] == b@[i as int]@);
            assert(x.drop_first() =~= views(a@).skip(i + 1));
            assert(y.drop_first() =~= views(b@).skip(i + 1));
        }
        if !str_eq(a[i].as_str(), b[i].as_str()) {
            return str_lt(a[i].as_str(), b[i].as_str());
        }
        i = i + 1;
    }
    i < b.len() && i == a.len()
}

fn comps_equal(a: &Vec<String>, b: &Vec<String>) -> (r: bool)
    ensures
        r == (views(a@) == views(b@)),
{
    if a.len() != b.len() {
        assert(views(a@).len() != views(b@).len());
        return false;
    }
    let mut i: usize = 0;
    while i < a.len()
        invariant
            a@.len() == b@.len(),
            0 <= i <= a@.len(),
            forall|j: int| 0 <= j < i ==> #[trigger] views(a@)[j] == views(b@)[j],
        decreases a@.len() - i,
    {
        if !str_eq(a[i].as_str(), b[i].as_str()) {
            assert(views(a@)[i as int] != views(b@)[i as int]);
            return false;
        }
        i = i + 1;
    }
    assert(views(a@) =~= views(b@));
    true
}

/// `a` orders before `b` as paths.
pub fn path_less(a: &str, b: &str) -> (r: bool)
    ensures
        r == path_lt(a@, b@),
{
    let aa = is_abs(a);
    let ba = is_abs(b);
    if aa != ba {
        return aa;
    }
    let ac = split_components(a);
    let bc = split_components(b);
    comps_less(&ac, &bc)
}

/// `a` and `b` name the same path.
pub fn path_same(a: &str, b: &str) -> (r: bool)
    ensures
        r == same_path(a@, b@),
{
    if is_abs(a) != is_abs(b) {
        return false;
    }
    let ac = split_components(a);
    let bc = split_components(b);
    comps_equal(&ac, &bc)
}

/// `p` lies at or below `root`.
pub fn path_under(p: &str, root: &str) -> (r: bool)
    ensures
        r == under(p@, root@),
{
    if is_abs(p) != is_abs(root) {
        return false;
    }
    let pc = split_components(p);
    let rc = split_components(root);
    assert(views(rc@).len() == rc@.len() && views(pc@).len() == pc@.len());
    if rc.len() > pc.len() {
        return false;
    }
    let mut i: usize = 0;
    while i < rc.len()
        invariant
            rc@.len() <= pc@.len(),
            views(pc@) == components(p@),
            views(rc@) == components(root@),
            is_absolute(p@) == is_absolute(root@),
            0 <= i <= rc@.len(),
            forall|j: int| 0 <= j < i ==> #[trigger] views(pc@)[j] == views(rc@)[j],
        decreases rc@.len() - i,
    {
        if !str_eq(pc[i].as_str(), rc[i].as_str()) {
            assert(views(pc@).subrange(0, views(rc@).len() as int)[i as int] != views(rc@)[i as int]);
            return false;
        }
        i = i + 1;
    }
    assert(views(pc@).subrange(0, views(rc@).len() as int) =~= views(rc@));
    true
}

/// The mount whose mount point is `path`, among `entries` as read from the
/// mount table.
pub fn mount_entry_at(entries: Vec<MountEntry>, path: &str) -> (r: Option<MountEntry>)
    ensures
        r is None <==> forall|i: int| 0 <= i < entries@.len() ==> !same_path(#[trigger] entries@[i].mount_point@, path@),
        r matches Some(e) ==> exists|i: int| 0 <= i < entries@.len() && #[trigger] entries@[i] == e && same_path(e.mount_point@, path@)
            && forall|j: int| 0 <= j < i ==> !same_path(#[trigger] entries@[j].mount_point@, path@),
{
    let mut list = entries;
    let ghost all = list@;
    let mut i: usize = 0;
    let n = list.len();
    while i < n
        invariant
            list@ == all,
            all == entries@,
            n == all.len(),
            0 <= i <= n,
            forall|j: int| 0 <= j < i ==> !same_path(#[trigger] all[j].mount_point@, path@),
        decreases n - i,
    {
        if path_same(list[i].mount_point.as_str(), path) {
            let e = list.swap_remove(i);
            assert(e == all[i as int]);
            assert(same_path(all[i as int].mount_point@, path@));
            assert(0 <= i < all.len() && all[i as int] == e && same_path(e.mount_point@, path@)
                && forall|j: int| 0 <= j < i ==> !same_path(#[trigger] all[j].mount_point@, path@));
            return Some(e);
        }
        i = i + 1;
    }
    None
}

/// Strictly increasing mount ids.
pub open spec fn increasing_ids(s: Seq<i32>) -> bool {
    forall|i: int, j: int| 0 <= i < j < s.len() ==> #[trigger] s[i] < #[trigger] s[j]
}

fn insert_id(ids: &mut Vec<i32>, id: i32)
    requires
        increasing_ids(old(ids)@),
    ensures
        increasing_ids(final(ids)@),
        forall|x: i32| #[trigger] final(ids)@.contains(x) <==> old(ids)@.contains(x) || x == id,
{
    let mut p: usize = 0;
    while p < ids.len() && ids[p] < id
        invariant
            0 <= p <= ids@.len(),
            ids@ == old(ids)@,
            increasing_ids(ids@),
            forall|k: int| 0 <= k < p ==> #[trigger] ids@[k] < id,
        decreases ids@.len() - p,
    {
        p = p + 1;
    }
    if p < ids.len() && ids[p] == id {
        assert(ids@[p as int] == id);
        return;
    }
    let ghost prev = ids@;
    ids.insert(p, id);
    proof {
        assert forall|i: int, j: int| 0 <= i < j < ids@.len() implies #[trigger] ids@[i] < #[trigger] ids@[j] by {
            if j < p {
            } else if j == p {
            } else if i < p {
                assert(ids@[j] == prev[j - 1]);
                assert(prev[j - 1] >= prev[p as int]);
            } else if i == p {
                assert(ids@[j] == prev[j - 1]);
                if j - 1 > p {
                    assert(prev[p as int] < prev[j - 1]);
                }
            } else {
                assert(ids@[i] == prev[i - 1] && ids@[j] == prev[j - 1]);
            }
        }
        assert forall|x: i32| #[trigger] ids@.contains(x) <==> prev.contains(x) || x == id by {
            if ids@.contains(x) {
                let k = choose|k: int| 0 <= k < ids@.len() && ids@[k] == x;
                if k < p {
                    assert(prev[k] == x);
                } else if k > p {
                    assert(prev[k - 1] == x);
                }
            }
            if prev.contains(x) {
                let k = choose|k: int| 0 <= k < prev.len() && prev[k] == x;
                if k < p {
                    assert(ids@[k] == x);
                } else {
                    assert(ids@[k + 1] == x);
                }
            }
            if x == id {
                assert(ids@[p as int] == x);
            }
        }
    }
}

/// The mount points of one moment, each with the ids of the mounts stacked
/// on it.
#[derive(Debug)]
pub struct MountSnapshot {
    points: Vec<String>,
    ids: Vec<Vec<i32>>,
}

/// Mount points strictly increasing in path order, so no path appears twice.
pub open spec fn ordered_points(points: Seq<String>) -> bool {
    forall|i: int, j: int| 0 <= i < j < points.len() ==> path_lt(#[trigger] points[i]@, #[trigger] points[j]@)
}

/// Whether `points` has a point naming the path `q`.
pub open spec fn has_point(points: Seq<String>, q: Seq<char>) -> bool {
    exists|i: int| 0 <= i < points.len() && same_path(#[trigger] points[i]@, q)
}

/// Whether one of `records` is mount `id` at the path `q`.
pub open spec fn recorded(records: Seq<(String, i32)>, q: Seq<char>, id: i32) -> bool {
    exists|i: int| 0 <= i < records.len() && same_path(#[trigger] records[i].0@, q) && records[i].1 == id
}

/// Whether one of `records` is at the path `q`.
pub open spec fn recorded_path(records: Seq<(String, i32)>, q: Seq<char>) -> bool {
    exists|i: int| 0 <= i < records.len() && same_path(#[trigger] records[i].0@, q)
}

/// Mount `id` is stacked on the point naming `q`.
pub open spec fn stacked(points: Seq<String>, ids: Seq<Vec<i32>>, q: Seq<char>, id: i32) -> bool {
    exists|i: int| 0 <= i < points.len() && same_path(#[trigger] points[i]@, q) && ids[i]@.contains(id)
}

/// Whether the snapshot view has a mount point naming the path `q`.
pub open spec fn snapshot_has(v: Seq<(Seq<char>, Seq<i32>)>, q: Seq<char>) -> bool {
    exists|i: int| 0 <= i < v.len() && same_path(#[trigger] v[i].0, q)
}

/// Whether mount `id` is stacked on the snapshot's point naming `q`.
pub open spec fn snapshot_stacks(v: Seq<(Seq<char>, Seq<i32>)>, q: Seq<char>, id: i32) -> bool {
    exists|i: int| 0 <= i < v.len() && same_path(#[trigger] v[i].0, q) && v[i].1.contains(id)
}

/// `x` is one of the first `n` points and lies strictly below `root`.
pub open spec fn point_below(points: Seq<String>, n: int, x: Seq<char>, root: Seq<char>) -> bool {
    exists|k: int| 0 <= k < n && k < points.len() && #[trigger] points[k]@ == x && under(x, root) && !same_path(x, root)
}

/// `x` is a mount point of the snapshot view strictly below `root`.
pub open spec fn snapshot_below(v: Seq<(Seq<char>, Seq<i32>)>, x: Seq<char>, root: Seq<char>) -> bool {
    exists|k: int| 0 <= k < v.len() && #[trigger] v[k].0 == x && under(x, root) && !same_path(x, root)
}

/// Whether `r` holds the entry `(x, ids)`.
pub open spec fn has_entry(r: Seq<(String, Vec<i32>)>, x: Seq<char>, ids: Seq<i32>) -> bool {
    exists|i: int| 0 <= i < r.len() && #[trigger] r[i].0@ == x && r[i].1@ == ids
}

/// Whether the snapshot view holds `(x, ids)` with `x` at or below `root`.
pub open spec fn snapshot_entry_under(v: Seq<(Seq<char>, Seq<i32>)>, x: Seq<char>, ids: Seq<i32>, root: Seq<char>) -> bool {
    exists|i: int| 0 <= i < v.len() && #[trigger] v[i] == (x, ids) && under(x, root)
}

/// Deeper paths first; among equally deep ones, the later path first.
pub open spec fn deeper_first(a: Seq<char>, b: Seq<char>) -> bool {
    components(a).len() > components(b).len() || (components(a).len() == components(b).len()
        && path_lt(b, a))
}

impl View for MountSnapshot {
    /// Each mount point with the ids stacked on it, in path order.
    type V = Seq<(Seq<char>, Seq<i32>)>;

    closed spec fn view(&self) -> Seq<(Seq<char>, Seq<i32>)> {
        Seq::new(self.points@.len(), |i: int| (self.points@[i]@, self.ids@[i]@))
    }
}

impl MountSnapshot {
    #[verifier::type_invariant]
    closed spec fn well_formed(&self) -> bool {
        &&& ordered_points(self.points@)
        &&& self.ids@.len() == self.points@.len()
        &&& forall|i: int| 0 <= i < self.ids@.len() ==> increasing_ids(#[trigger] self.ids@[i]@)
    }

    /// Groups `(mount point, mount id)` records by mount point.
    pub fn from_records(records: Vec<(String, i32)>) -> (s: MountSnapshot)
        ensures
            forall|i: int, j: int| 0 <= i < j < s@.len() ==> path_lt(#[trigger] s@[i].0, #[trigger] s@[j].0),
            forall|q: Seq<char>| #[trigger] snapshot_has(s@, q) <==> recorded_path(records@, q),
            forall|q: Seq<char>, id: i32| #[trigger] snapshot_stacks(s@, q, id) <==> recorded(records@, q, id),
            forall|i: int| 0 <= i < s@.len() ==> increasing_ids(#[trigger] s@[i].1),
    {
        let mut points: Vec<String> = Vec::new();
        let mut ids: Vec<Vec<i32>> = Vec::new();
        let mut records = records;
        let ghost all = records@;
        let n = records.len();
        let mut r: usize = 0;
        while r < n
            invariant
                records@ == all,
                n == all.len(),
                0 <= r <= n,
                ordered_points(points@),
                ids@.len() == points@.len(),
                forall|i: int| 0 <= i < ids@.len() ==> increasing_ids(#[trigger] ids@[i]@),
                forall|q: Seq<char>| #[trigger] has_point(points@, q) <==> recorded_path(all.subrange(0, r as int), q),
                forall|q: Seq<char>, id: i32| #[trigger] stacked(points@, ids@, q, id) <==> recorded(all.subrange(0, r as int), q, id),
            decreases n - r,
        {
            let path = owned(records[r].0.as_str());
            let id = records[r].1;
            add_record(&mut points, &mut ids, path, id);
            proof {
                let pre = all.subrange(0, r as int);
                let next = all.subrange(0, r + 1);
                assert(next =~= pre.push(all[r as int]));
                assert forall|q: Seq<char>| #[trigger] has_point(points@, q) <==> recorded_path(next, q) by {
                    if recorded_path(next, q) {
                        let k = choose|k: int| 0 <= k < next.len() && same_path(#[trigger] next[k].0@, q);
                        if k < r {
                            assert(pre[k] == next[k]);
                        }
                    }
                    if recorded_path(pre, q) {
                        let k = choose|k: int| 0 <= k < pre.len() && same_path(#[trigger] pre[k].0@, q);
                        assert(next[k] == pre[k]);
                    }
                    if same_path(all[r as int].0@, q) {
                        assert(next[r as int] == all[r as int]);
                    }
                }
                assert forall|q: Seq<char>, x: i32| #[trigger] stacked(points@, ids@, q, x) <==> recorded(next, q, x) by {
                    if recorded(next, q, x) {
                        let k = choose|k: int| 0 <= k < next.len() && same_path(#[trigger] next[k].0@, q) && next[k].1 == x;
                        if k < r {
                            assert(pre[k] == next[k]);
                        }
                    }
                    if recorded(pre, q, x) {
                        let k = choose|k: int| 0 <= k < pre.len() && same_path(#[trigger] pre[k].0@, q) && pre[k].1 == x;
                        assert(next[k] == pre[k]);
                    }
                    if same_path(all[r as int].0@, q) && x == all[r as int].1 {
                        assert(next[r as int] == all[r as int]);
                    }
                }
            }
            r = r + 1;
        }
        assert(all.subrange(0, n as int) =~= all);
        let s = MountSnapshot { points, ids };
        proof {
            assert forall|q: Seq<char>| #[trigger] snapshot_has(s@, q) <==> has_point(s.points@, q) by {
                if has_point(s.points@, q) {
                    let k = choose|k: int| 0 <= k < s.points@.len() && same_path(#[trigger] s.points@[k]@, q);
                    assert(s@[k].0 == s.points@[k]@);
                }
            }
            assert forall|q: Seq<char>, id: i32| #[trigger] snapshot_stacks(s@, q, id) <==> stacked(s.points@, s.ids@, q, id) by {
                if stacked(s.points@, s.ids@, q, id) {
                    let k = choose|k: int| 0 <= k < s.points@.len() && same_path(#[trigger] s.points@[k]@, q) && s.ids@[k]@.contains(id);
                    assert(s@[k].0 == s.points@[k]@);
                }
            }
        }
        s
    }

    /// One snapshot entry per distinct path, each with mount id 0.
    pub fn from_paths(points: Vec<String>) -> (s: MountSnapshot)
        ensures
            forall|i: int, j: int| 0 <= i < j < s@.len() ==> path_lt(#[trigger] s@[i].0, #[trigger] s@[j].0),
            forall|q: Seq<char>| #[trigger] snapshot_has(s@, q) <==> has_point(points@, q),
    {
        let mut records: Vec<(String, i32)> = Vec::new();
        let mut points = points;
        let ghost all = points@;
        let n = points.len();
        let mut i: usize = 0;
        while i < n
            invariant
                points@ == all,
                n == all.len(),
                0 <= i <= n,
                records@.len() == i,
                forall|k: int| 0 <= k < i ==> (#[trigger] records@[k]).0@ == all[k]@,
            decreases n - i,
        {
            records.push((owned(points[i].as_str()), 0));
            i = i + 1;
        }
        let s = MountSnapshot::from_records(records);
        proof {
            assert forall|q: Seq<char>| recorded_path(records@, q) <==> #[trigger] has_point(all, q) by {
                if recorded_path(records@, q) {
                    let k = choose|k: int| 0 <= k < records@.len() && same_path(#[trigger] records@[k].0@, q);
                    assert(all[k]@ == records@[k].0@);
                }
                if has_point(all, q) {
                    let k = choose|k: int| 0 <= k < all.len() && same_path(#[trigger] all[k]@, q);
                    assert(records@[k].0@ == all[k]@);
                }
            }
        }
        s
    }

    /// The mount points, in path order.
    pub fn points(&self) -> (r: &[String])
        ensures
            r@.len() == self@.len(),
            forall|i: int| 0 <= i < r@.len() ==> #[trigger] r@[i]@ == self@[i].0,
    {
        &self.points
    }

    /// Whether some mount point is exactly `path`.
    pub fn contains(&self, path: &str) -> (r: bool)
        ensures
            r == snapshot_has(self@, path@),
    {
        let mut i: usize = 0;
        while i < self.points.len()
            invariant
                0 <= i <= self.points@.len(),
                forall|j: int| 0 <= j < i ==> !same_path(#[trigger] self.points@[j]@, path@),
            decreases self.points@.len() - i,
        {
            if path_same(self.points[i].as_str(), path) {
                assert(self@[i as int].0 == self.points@[i as int]@);
                return true;
            }
            i = i + 1;
        }
        proof {
            assert forall|j: int| 0 <= j < self@.len() implies !same_path(#[trigger] self@[j].0, path@) by {
                assert(self@[j].0 == self.points@[j]@);
            }
        }
        false
    }

    /// The mount points strictly below `root`, deepest first.
    pub fn descendants(&self, root: &str) -> (r: Vec<String>)
        ensures
            forall|i: int, j: int| 0 <= i < j < r@.len() ==> deeper_first(#[trigger] r@[i]@, #[trigger] r@[j]@),
            forall|x: Seq<char>| #[trigger] has_name(r@, x) <==> snapshot_below(self@, x, root@),
    {
        proof {
            use_type_invariant(self);
        }
        let mut out: Vec<String> = Vec::new();
        let mut i: usize = 0;
        while i < self.points.len()
            invariant
                0 <= i <= self.points@.len(),
                ordered_points(self.points@),
                forall|a: int, b: int| 0 <= a < b < out@.len() ==> deeper_first(#[trigger] out@[a]@, #[trigger] out@[b]@),
                forall|x: Seq<char>| #[trigger] has_name(out@, x) <==> point_below(self.points@, i as int, x, root@),
            decreases self.points@.len() - i,
        {
            let point = self.points[i].as_str();
            if path_under(point, root) && !path_same(point, root) {
                proof {
                    assert forall|k: int| 0 <= k < out@.len() implies !same_path(#[trigger] out@[k]@, point@) by {
                        let x = out@[k]@;
                        assert(has_name(out@, x));
                        let m = choose|m: int| 0 <= m < i && m < self.points@.len() && #[trigger] self.points@[m]@ == x && under(x, root@) && !same_path(x, root@);
                        lemma_path_order(self.points@[m]@, self.points@[i as int]@, self.points@[i as int]@);
                    }
                }
                insert_deeper_first(&mut out, point);
            }
            proof {
                assert forall|x: Seq<char>| #[trigger] has_name(out@, x) <==> point_below(self.points@, i + 1, x, root@) by {
                    if point_below(self.points@, i + 1, x, root@) {
                        let k = choose|k: int| 0 <= k < i + 1 && k < self.points@.len() && #[trigger] self.points@[k]@ == x && under(x, root@) && !same_path(x, root@);
                        if k < i {
                            assert(point_below(self.points@, i as int, x, root@));
                        }
                    }
                    if point_below(self.points@, i as int, x, root@) {
                        let k = choose|k: int| 0 <= k < i && k < self.points@.len() && #[trigger] self.points@[k]@ == x && under(x, root@) && !same_path(x, root@);
                        assert(point_below(self.points@, i + 1, x, root@));
                    }
                }
            }
            i = i + 1;
        }
        proof {
            assert forall|x: Seq<char>| point_below(self.points@, self.points@.len() as int, x, root@)
                <==> #[trigger] snapshot_below(self@, x, root@) by {
                if point_below(self.points@, self.points@.len() as int, x, root@) {
                    let k = choose|k: int| 0 <= k < self.points@.len() && k < self.points@.len() && #[trigger] self.points@[k]@ == x && under(x, root@) && !same_path(x, root@);
                    assert(self@[k].0 == x);
                }
                if snapshot_below(self@, x, root@) {
                    let k = choose|k: int| 0 <= k < self@.len() && #[trigger] self@[k].0 == x && under(x, root@) && !same_path(x, root@);
                    assert(self.points@[k]@ == x);
                }
            }
        }
        out
    }

    /// The mount points at or below `root`, in path order, each with its ids.
    pub fn subtree_ids(&self, root: &str) -> (r: Vec<(String, Vec<i32>)>)
        ensures
            forall|i: int, j: int| 0 <= i < j < r@.len() ==> path_lt(#[trigger] r@[i].0@, #[trigger] r@[j].0@),
            forall|x: Seq<char>, ids: Seq<i32>| #[trigger] has_entry(r@, x, ids) <==> snapshot_entry_under(self@, x, ids, root@),
    {
        proof {
            use_type_invariant(self);
        }
        let mut out: Vec<(String, Vec<i32>)> = Vec::new();
        let ghost picked: Seq<int> = Seq::empty();
        let mut i: usize = 0;
        while i < self.points.len()
            invariant
                0 <= i <= self.points@.len(),
                self.ids@.len() == self.points@.len(),
                ordered_points(self.points@),
                picked.len() == out@.len(),
                forall|k: int| 0 <= k < picked.len() ==> 0 <= #[trigger] picked[k] < i
                    && out@[k].0@ == self.points@[picked[k]]@ && out@[k].1@ == self.ids@[picked[k]]@
                    && under(self.points@[picked[k]]@, root@),
                forall|a: int, b: int| 0 <= a < b < picked.len() ==> #[trigger] picked[a] < #[trigger] picked[b],
                forall|k: int| 0 <= k < i && under(#[trigger] self.points@[k]@, root@) ==> exists|m: int| 0 <= m < picked.len() && picked[m] == k,
            decreases self.points@.len() - i,
        {
            let ghost before = picked;
            if path_under(self.points[i].as_str(), root) {
                let copy = copy_ids(&self.ids[i]);
                out.push((owned(self.points[i].as_str()), copy));
                proof {
                    picked = picked.push(i as int);
                }
            }
            proof {
                assert forall|k: int| 0 <= k < i + 1 && under(#[trigger] self.points@[k]@, root@) implies exists|m: int| 0 <= m < picked.len() && picked[m] == k by {
                    if k == i {
                        assert(picked[picked.len() - 1] == k);
                    } else {
                        let m = choose|m: int| 0 <= m < before.len() && before[m] == k;
                        assert(picked[m] == k);
                    }
                }
            }
            i = i + 1;
        }
        proof {
            assert forall|a: int, b: int| 0 <= a < b < out@.len() implies path_lt(#[trigger] out@[a].0@, #[trigger] out@[b].0@) by {
                assert(picked[a] < picked[b]);
            }
            assert forall|x: Seq<char>, ids: Seq<i32>| #[trigger] has_entry(out@, x, ids) <==> snapshot_entry_under(self@, x, ids, root@) by {
                if has_entry(out@, x, ids) {
                    let k = choose|k: int| 0 <= k < out@.len() && #[trigger] out@[k].0@ == x && out@[k].1@ == ids;
                    assert(self@[picked[k]] == (x, ids));
                }
                if snapshot_entry_under(self@, x, ids, root@) {
                    let k = choose|k: int| 0 <= k < self@.len() && #[trigger] self@[k] == (x, ids) && under(x, root@);
                    assert(self.points@[k]@ == x);
                    let m = choose|m: int| 0 <= m < picked.len() && picked[m] == k;
                    assert(out@[m].0@ == x);
                }
            }
        }
        out
    }
}

fn copy_ids(ids: &Vec<i32>) -> (r: Vec<i32>)
    ensures
        r@ == ids@,
{
    let mut out: Vec<i32> = Vec::new();
    let mut i: usize = 0;
    while i < ids.len()
        invariant
            0 <= i <= ids@.len(),
            out@ == ids@.subrange(0, i as int),
        decreases ids@.len() - i,
    {
        out.push(ids[i]);
        assert(out@ =~= ids@.subrange(0, i + 1));
        i = i + 1;
    }
    assert(ids@.subrange(0, ids@.len() as int) =~= ids@);
    out
}

/// Inserts `point`, which names no path of `out`, so that `out` stays
/// deepest first.
fn insert_deeper_first(out: &mut Vec<String>, point: &str)
    requires
        forall|a: int, b: int| 0 <= a < b < old(out)@.len() ==> deeper_first(#[trigger] old(out)@[a]@, #[trigger] old(out)@[b]@),
        forall|k: int| 0 <= k < old(out)@.len() ==> !same_path(#[trigger] old(out)@[k]@, point@),
    ensures
        forall|a: int, b: int| 0 <= a < b < final(out)@.len() ==> deeper_first(#[trigger] final(out)@[a]@, #[trigger] final(out)@[b]@),
        forall|x: Seq<char>| #[trigger] has_name(final(out)@, x) <==> has_name(old(out)@, x) || x == point@,
{
    let mut p: usize = 0;
    while p < out.len() && deeper(out[p].as_str(), point)
        invariant
            0 <= p <= out@.len(),
            out@ == old(out)@,
            forall|k: int| 0 <= k < p ==> deeper_first(#[trigger] out@[k]@, point@),
        decreases out@.len() - p,
    {
        p = p + 1;
    }
    let ghost prev = out@;
    out.insert(p, owned(point));
    proof {
        assert forall|a: int, b: int| 0 <= a < b < out@.len() implies deeper_first(#[trigger] out@[a]@, #[trigger] out@[b]@) by {
            if p < prev.len() {
                assert(!deeper_first(prev[p as int]@, point@));
                lemma_path_order(prev[p as int]@, point@, point@);
                assert(!same_path(prev[p as int]@, point@));
            }
            if b < p {
            } else if b == p {
            } else if a < p {
                assert(out@[b] == prev[b - 1]);
                if b - 1 > p {
                    lemma_deeper_first_transitive(point@, prev[p as int]@, prev[b - 1]@);
                }
                lemma_deeper_first_transitive(out@[a]@, point@, out@[b]@);
            } else if a == p {
                assert(out@[b] == prev[b - 1]);
                if b - 1 > p {
                    lemma_deeper_first_transitive(point@, prev[p as int]@, prev[b - 1]@);
                }
            } else {
                assert(out@[a] == prev[a - 1] && out@[b] == prev[b - 1]);
            }
        }
        assert forall|x: Seq<char>| #[trigger] has_name(out@, x) <==> has_name(prev, x) || x == point@ by {
            if has_name(out@, x) {
                let k = choose|k: int| 0 <= k < out@.len() && #[trigger] out@[k]@ == x;
                if k < p {
                    assert(prev[k]@ == x);
                } else if k > p {
                    assert(prev[k - 1]@ == x);
                }
            }
            if has_name(prev, x) {
                let k = choose|k: int| 0 <= k < prev.len() && #[trigger] prev[k]@ == x;
                if k < p {
                    assert(out@[k]@ == x);
                } else {
                    assert(out@[k + 1]@ == x);
                }
            }
            if x == point@ {
                assert(out@[p as int]@ == x);
            }
        }
    }
}

fn deeper(a: &str, b: &str) -> (r: bool)
    ensures
        r == deeper_first(a@, b@),
{
    let da = split_components(a).len();
    let db = split_components(b).len();
    da > db || (da == db && path_less(b, a))
}

proof fn lemma_deeper_first_transitive(a: Seq<char>, b: Seq<char>, c: Seq<char>)
    requires
        deeper_first(a, b),
        deeper_first(b, c),
    ensures
        deeper_first(a, c),
{
    lemma_path_order(c, b, a);
}

/// Adds one record to ordered points and their id lists.
fn add_record(points: &mut Vec<String>, ids: &mut Vec<Vec<i32>>, path: String, id: i32)
    requires
        ordered_points(old(points)@),
        old(ids)@.len() == old(points)@.len(),
        forall|i: int| 0 <= i < old(ids)@.len() ==> increasing_ids(#[trigger] old(ids)@[i]@),
    ensures
        ordered_points(final(points)@),
        final(ids)@.len() == final(points)@.len(),
        forall|i: int| 0 <= i < final(ids)@.len() ==> increasing_ids(#[trigger] final(ids)@[i]@),
        forall|q: Seq<char>| #[trigger] has_point(final(points)@, q) <==> has_point(old(points)@, q) || same_path(path@, q),
        forall|q: Seq<char>, x: i32| #[trigger] stacked(final(points)@, final(ids)@, q, x) <==> stacked(old(points)@, old(ids)@, q, x)
            || (same_path(path@, q) && x == id),
{
    let mut p: usize = 0;
    while p < points.len() && path_less(points[p].as_str(), path.as_str())
        invariant
            0 <= p <= points@.len(),
            points@ == old(points)@,
            ordered_points(points@),
            forall|k: int| 0 <= k < p ==> path_lt(#[trigger] points@[k]@, path@),
        decreases points@.len() - p,
    {
        p = p + 1;
    }
    let ghost old_points = points@;
    let ghost old_ids = ids@;
    proof {
        if p < old_points.len() {
            lemma_path_order(old_points[p as int]@, path@, path@);
        }
        // Every point after `p` orders after the path, so none names it.
        assert forall|k: int| p < k < old_points.len() implies path_lt(path@, #[trigger] old_points[k]@) || same_path(path@, old_points[p as int]@) by {
            lemma_path_order(path@, old_points[p as int]@, old_points[k]@);
        }
    }
    if p < points.len() && path_same(points[p].as_str(), path.as_str()) {
        let mut list = ids.remove(p);
        let ghost old_list = list@;
        insert_id(&mut list, id);
        ids.insert(p, list);
        proof {
            assert forall|i: int| 0 <= i < ids@.len() implies increasing_ids(#[trigger] ids@[i]@) by {
                if i != p {
                    assert(ids@[i] == old_ids[i]);
                }
            }
            assert forall|q: Seq<char>| #[trigger] has_point(points@, q) <==> has_point(old_points, q) || same_path(path@, q) by {
                if same_path(path@, q) {
                    assert(same_path(points@[p as int]@, q));
                }
            }
            assert forall|q: Seq<char>, x: i32| #[trigger] stacked(points@, ids@, q, x) <==> stacked(old_points, old_ids, q, x)
                || (same_path(path@, q) && x == id) by {
                if stacked(points@, ids@, q, x) {
                    let k = choose|k: int| 0 <= k < points@.len() && same_path(#[trigger] points@[k]@, q) && ids@[k]@.contains(x);
                    if k != p {
                        assert(ids@[k] == old_ids[k]);
                    } else if old_list.contains(x) {
                        assert(old_ids[k]@.contains(x));
                    }
                }
                if stacked(old_points, old_ids, q, x) {
                    let k = choose|k: int| 0 <= k < old_points.len() && same_path(#[trigger] old_points[k]@, q) && old_ids[k]@.contains(x);
                    if k != p {
                        assert(ids@[k] == old_ids[k]);
                    } else {
                        assert(ids@[k]@.contains(x));
                    }
                }
                if same_path(path@, q) && x == id {
                    assert(ids@[p as int]@.contains(x));
                    assert(same_path(points@[p as int]@, q));
                }
            }
        }
        return;
    }
    points.insert(p, path);
    let fresh = vec![id];
    ids.insert(p, fresh);
    proof {
        assert(fresh@ =~= seq![id]);
        assert forall|a: int, b: int| 0 <= a < b < points@.len() implies path_lt(#[trigger] points@[a]@, #[trigger] points@[b]@) by {
            if b < p {
            } else if b == p {
            } else if a < p {
                assert(points@[b] == old_points[b - 1]);
                lemma_path_order(points@[a]@, points@[p as int]@, points@[b]@);
                if b - 1 > p {
                    lemma_path_order(points@[p as int]@, old_points[p as int]@, old_points[b - 1]@);
                }
            } else if a == p {
                assert(points@[b] == old_points[b - 1]);
                if b - 1 > p {
                    lemma_path_order(points@[p as int]@, old_points[p as int]@, old_points[b - 1]@);
                }
            } else {
                assert(points@[a] == old_points[a - 1] && points@[b] == old_points[b - 1]);
            }
        }
        assert forall|i: int| 0 <= i < ids@.len() implies increasing_ids(#[trigger] ids@[i]@) by {
            if i < p {
                assert(ids@[i] == old_ids[i]);
            } else if i > p {
                assert(ids@[i] == old_ids[i - 1]);
            }
        }
        assert forall|q: Seq<char>| #[trigger] has_point(points@, q) <==> has_point(old_points, q) || same_path(path@, q) by {
            if has_point(points@, q) {
                let k = choose|k: int| 0 <= k < points@.len() && same_path(#[trigger] points@[k]@, q);
                if k < p {
                    assert(old_points[k] == points@[k]);
                } else if k > p {
                    assert(old_points[k - 1] == points@[k]);
                }
            }
            if has_point(old_points, q) {
                let k = choose|k: int| 0 <= k < old_points.len() && same_path(#[trigger] old_points[k]@, q);
                if k < p {
                    assert(points@[k] == old_points[k]);
                } else {
                    assert(points@[k + 1] == old_points[k]);
                }
            }
            if same_path(path@, q) {
                assert(same_path(points@[p as int]@, q));
            }
        }
        assert forall|q: Seq<char>, x: i32| #[trigger] stacked(points@, ids@, q, x) <==> stacked(old_points, old_ids, q, x)
            || (same_path(path@, q) && x == id) by {
            if stacked(points@, ids@, q, x) {
                let k = choose|k: int| 0 <= k < points@.len() && same_path(#[trigger] points@[k]@, q) && ids@[k]@.contains(x);
                if k < p {
                    assert(old_points[k] == points@[k] && old_ids[k] == ids@[k]);
                } else if k > p {
                    assert(old_points[k - 1] == points@[k] && old_ids[k - 1] == ids@[k]);
                } else {
                    assert(ids@[k]@ == seq![id]);
                }
            }
            if stacked(old_points, old_ids, q, x) {
                let k = choose|k: int| 0 <= k < old_points.len() && same_path(#[trigger] old_points[k]@, q) && old_ids[k]@.contains(x);
                if k < p {
                    assert(points@[k] == old_points[k] && ids@[k] == old_ids[k]);
                } else {
                    assert(points@[k + 1] == old_points[k] && ids@[k + 1] == old_ids[k]);
                }
            }
            if same_path(path@, q) && x == id {
                assert(ids@[p as int]@[0] == x);
                assert(same_path(points@[p as int]@, q));
            }
        }
    }
}

} // verus!
