//! Owned VFS rule reconciliation.
//!
//! The caller owns the rules in `before` and wants `after` installed instead.
//! Records that the caller does not own ("foreign" records) are never removed,
//! and an owned target may not collide with, sit above or sit below a foreign
//! record for the same uid. Every decision is made on snapshots read back from
//! the kernel; the kernel itself is reached through [`RuleKernel`].
use vstd::prelude::*;
use vstd::string::*;

use crate::errors::{Error, Result};
use crate::text::{append_str, count_char, decimal, count_occurrences, lex_lt, owned, str_eq, str_lt, u64_decimal};

verus! {

/// Whiteout marker in a rule's flags.
pub const FLAG_WHITEOUT: u32 = 2;
/// Opaque directory marker in a rule's flags.
pub const FLAG_OPAQUE: u32 = 4;
/// Set by the kernel on directories it synthesised for a rule's parents.
pub const FLAG_VIRTUAL_DIR: u32 = 8;
/// Bits the kernel adds after resolving directory topology; they never describe
/// an owned operation.
pub const DERIVED_FLAGS: u32 = 9;

/// One VFS redirection record as saved in the ledger and listed by the kernel.
#[derive(Debug, Clone, PartialEq, Eq)]
pub struct SavedRule {
    pub module_id: String,
    pub virtual_path: String,
    pub real_path: String,
    pub flags: u32,
    pub uid: u32,
}

impl SavedRule {
    /// A field-by-field copy.
    pub fn duplicate(&self) -> (r: SavedRule)
        ensures
            r == *self,
    {
        SavedRule {
            module_id: self.module_id.clone(),
            virtual_path: self.virtual_path.clone(),
            real_path: self.real_path.clone(),
            flags: self.flags,
            uid: self.uid,
        }
    }
}

/// The kernel side of the rule table.
pub trait RuleKernel {
    fn list(&mut self) -> Result<Vec<SavedRule>>;

    fn put(&mut self, rules: &[SavedRule]) -> Result<()>;

    fn delete(&mut self, rules: &[SavedRule]) -> Result<()>;
}

/// Two records address the same target: same uid and same virtual path.
pub open spec fn spec_same_key(left: SavedRule, right: SavedRule) -> bool {
    left.uid == right.uid && left.virtual_path@ == right.virtual_path@
}

pub open spec fn semantic_flags(flags: u32) -> u32 {
    flags & !DERIVED_FLAGS
}

/// `actual` carries the same operation as `expected`, ignoring owner labels and
/// kernel-derived flag bits.
pub open spec fn spec_semantic_equal(expected: SavedRule, actual: SavedRule) -> bool {
    spec_same_key(expected, actual) && expected.real_path@ == actual.real_path@ && semantic_flags(
        expected.flags,
    ) == semantic_flags(actual.flags)
}

/// A directory the kernel synthesised as a parent of some rule.
pub open spec fn spec_derived_parent(rule: SavedRule) -> bool {
    rule.flags & FLAG_VIRTUAL_DIR != 0 && semantic_flags(rule.flags) == 0
        && rule.real_path@.len() == 0
}

/// `parent` is a proper ancestor directory of `child`.
pub open spec fn spec_ancestor(parent: Seq<char>, child: Seq<char>) -> bool {
    parent != child && parent.len() <= child.len() && child.subrange(0, parent.len() as int)
        == parent && (parent == seq!['/'] || (parent.len() < child.len() && child[parent.len() as int]
        == '/'))
}

fn same_key(left: &SavedRule, right: &SavedRule) -> (r: bool)
    ensures
        r == spec_same_key(*left, *right),
{
    left.uid == right.uid && str_eq(left.virtual_path.as_str(), right.virtual_path.as_str())
}

/// Whether `actual` carries the operation `expected` describes.
pub fn semantic_equal(expected: &SavedRule, actual: &SavedRule) -> (r: bool)
    ensures
        r == spec_semantic_equal(*expected, *actual),
{
    same_key(expected, actual) && str_eq(expected.real_path.as_str(), actual.real_path.as_str())
        && expected.flags & !DERIVED_FLAGS == actual.flags & !DERIVED_FLAGS
}

/// Whether `rule` is a kernel-synthesised parent directory.
pub fn derived_parent(rule: &SavedRule) -> (r: bool)
    ensures
        r == spec_derived_parent(*rule),
{
    rule.flags & FLAG_VIRTUAL_DIR != 0 && rule.flags & !DERIVED_FLAGS == 0
        && rule.real_path.as_str().unicode_len() == 0
}

/// Whether `parent` is a proper ancestor directory of `child`.
pub fn ancestor(parent: &str, child: &str) -> (r: bool)
    ensures
        r == spec_ancestor(parent@, child@),
{
    if str_eq(parent, child) {
        return false;
    }
    if !crate::text::starts_with(child, parent) {
        return false;
    }
    let n = parent.unicode_len();
    if str_eq(parent, "/") {
        proof {
            reveal_strlit("/");
            assert("/"@ =~= seq!['/']);
        }
        return true;
    }
    proof {
        reveal_strlit("/");
        if parent@ == seq!['/'] {
            assert("/"@ =~= parent@);
        }
    }
    n < child.unicode_len() && child.get_char(n) == '/'
}

/// Every expected rule is present, semantically, in `current`.
pub open spec fn all_present(current: Seq<SavedRule>, expected: Seq<SavedRule>) -> bool {
    forall|i: int| 0 <= i < expected.len() ==> #[trigger] present_in(current, expected[i])
}

/// `rule` is present, semantically, in `current`.
pub open spec fn present_in(current: Seq<SavedRule>, rule: SavedRule) -> bool {
    exists|j: int| 0 <= j < current.len() && #[trigger] spec_semantic_equal(rule, current[j])
}

/// No two rules address the same target.
pub open spec fn unique_keys(rules: Seq<SavedRule>) -> bool {
    forall|i: int, j: int|
        0 <= i < j < rules.len() ==> !spec_same_key(#[trigger] rules[i], #[trigger] rules[j])
}

pub open spec fn has_key_in(rules: Seq<SavedRule>, rule: SavedRule) -> bool {
    exists|j: int| 0 <= j < rules.len() && #[trigger] spec_same_key(rules[j], rule)
}

fn uid_text(uid: u32) -> (r: String)
    ensures
        r@ == decimal(uid as nat),
{
    u64_decimal(uid as u64)
}

fn transaction_error(detail: String) -> (e: Error)
    ensures
        e == (Error::VfsProtocol { detail }),
{
    Error::VfsProtocol { detail }
}

/// `<prefix><virtual path> (uid <uid>)`.
pub open spec fn spec_rule_message(prefix: Seq<char>, rule: SavedRule) -> Seq<char> {
    prefix + rule.virtual_path@ + " (uid "@ + decimal(rule.uid as nat) + ")"@
}

fn rule_message(prefix: &str, rule: &SavedRule) -> (r: String)
    ensures
        r@ == spec_rule_message(prefix@, *rule),
{
    let mut message = owned(prefix);
    append_str(&mut message, rule.virtual_path.as_str());
    append_str(&mut message, " (uid ");
    let uid = uid_text(rule.uid);
    append_str(&mut message, uid.as_str());
    append_str(&mut message, ")");
    message
}

fn contains_semantic(current: &[SavedRule], rule: &SavedRule) -> (found: bool)
    ensures
        found == present_in(current@, *rule),
{
    let mut j: usize = 0;
    while j < current.len()
        invariant
            0 <= j <= current@.len(),
            forall|k: int| 0 <= k < j ==> !spec_semantic_equal(*rule, #[trigger] current@[k]),
        decreases current@.len() - j,
    {
        if semantic_equal(rule, &current[j]) {
            return true;
        }
        j = j + 1;
    }
    false
}

fn contains_key(rules: &[SavedRule], rule: &SavedRule) -> (found: bool)
    ensures
        found == has_key_in(rules@, *rule),
{
    let mut j: usize = 0;
    while j < rules.len()
        invariant
            0 <= j <= rules@.len(),
            forall|k: int| 0 <= k < j ==> !spec_same_key(#[trigger] rules@[k], *rule),
        decreases rules@.len() - j,
    {
        if same_key(&rules[j], rule) {
            return true;
        }
        j = j + 1;
    }
    false
}

/// Succeeds exactly when every expected rule is present in `current`.
pub fn verify_present(current: &[SavedRule], expected: &[SavedRule]) -> (r: Result<()>)
    ensures
        r is Ok <==> all_present(current@, expected@),
{
    let mut i: usize = 0;
    while i < expected.len()
        invariant
            0 <= i <= expected@.len(),
            forall|k: int| 0 <= k < i ==> #[trigger] present_in(current@, expected@[k]),
        decreases expected@.len() - i,
    {
        if !contains_semantic(current, &expected[i]) {
            return Err(transaction_error(rule_message("owned rule missing or changed: ", &expected[i])));
        }
        i = i + 1;
    }
    Ok(())
}

/// `e` is the error for a rule of `rules` that repeats the target of an
/// earlier one.
pub open spec fn duplicate_error(e: Error, rules: Seq<SavedRule>) -> bool {
    exists|i: int, j: int|
        0 <= i < j < rules.len() && spec_same_key(#[trigger] rules[i], #[trigger] rules[j]) && (e matches Error::VfsProtocol { detail }
            && detail@ == spec_rule_message("duplicate owned rule: "@, rules[j]))
}

/// Succeeds exactly when no two rules address the same target; otherwise
/// names the later rule of a repeated target.
pub fn validate_unique(rules: &[SavedRule]) -> (r: Result<()>)
    ensures
        r is Ok <==> unique_keys(rules@),
        r matches Err(e) ==> duplicate_error(e, rules@),
{
    let mut i: usize = 0;
    while i < rules.len()
        invariant
            0 <= i <= rules@.len(),
            forall|a: int, b: int|
                0 <= a < b < i ==> !spec_same_key(#[trigger] rules@[a], #[trigger] rules@[b]),
        decreases rules@.len() - i,
    {
        let mut j: usize = 0;
        while j < i
            invariant
                0 <= j <= i < rules@.len(),
                forall|a: int| 0 <= a < j ==> !spec_same_key(#[trigger] rules@[a], rules@[i as int]),
            decreases i - j,
        {
            if same_key(&rules[j], &rules[i]) {
                let e = transaction_error(rule_message("duplicate owned rule: ", &rules[i]));
                assert(spec_same_key(rules@[j as int], rules@[i as int]));
                assert(duplicate_error(e, rules@));
                return Err(e);
            }
            j = j + 1;
        }
        i = i + 1;
    }
    Ok(())
}

/// An obsolete owned record is gone: it was not re-requested, and no
/// non-derived record holds its key any more.
pub open spec fn obsolete_removed(
    current: Seq<SavedRule>,
    expected: Seq<SavedRule>,
    old: SavedRule,
) -> bool {
    has_key_in(expected, old) || !exists|j: int|
        0 <= j < current.len() && #[trigger] spec_same_key(current[j], old) && !spec_derived_parent(
            current[j],
        )
}

pub open spec fn result_ok(
    current: Seq<SavedRule>,
    expected: Seq<SavedRule>,
    obsolete: Seq<SavedRule>,
) -> bool {
    all_present(current, expected) && forall|i: int|
        0 <= i < obsolete.len() ==> #[trigger] obsolete_removed(current, expected, obsolete[i])
}

fn has_live_key(current: &[SavedRule], old: &SavedRule) -> (found: bool)
    ensures
        found == exists|j: int|
            0 <= j < current@.len() && #[trigger] spec_same_key(current@[j], *old)
                && !spec_derived_parent(current@[j]),
{
    let mut j: usize = 0;
    while j < current.len()
        invariant
            0 <= j <= current@.len(),
            forall|k: int|
                0 <= k < j ==> !(#[trigger] spec_same_key(current@[k], *old) && !spec_derived_parent(
                    current@[k],
                )),
        decreases current@.len() - j,
    {
        if same_key(&current[j], old) && !derived_parent(&current[j]) {
            return true;
        }
        j = j + 1;
    }
    false
}

/// Checks a readback: every expected rule is present and every obsolete
/// record that was not re-requested is gone.
pub fn verify_result(current: &[SavedRule], expected: &[SavedRule], obsolete: &[SavedRule]) -> (r:
    Result<()>)
    ensures
        r is Ok <==> result_ok(current@, expected@, obsolete@),
{
    verify_present(current, expected)?;
    let mut i: usize = 0;
    while i < obsolete.len()
        invariant
            0 <= i <= obsolete@.len(),
            forall|k: int|
                0 <= k < i ==> #[trigger] obsolete_removed(current@, expected@, obsolete@[k]),
        decreases obsolete@.len() - i,
    {
        let old = &obsolete[i];
        if !contains_key(expected, old) && has_live_key(current, old) {
            assert(!obsolete_removed(current@, expected@, obsolete@[i as int]));
            return Err(transaction_error(rule_message("obsolete rule remains: ", old)));
        }
        i = i + 1;
    }
    Ok(())
}

/// The directory depth of a rule's target: the number of `/` in its path.
pub open spec fn depth(rule: SavedRule) -> nat {
    count_char(rule.virtual_path@, '/')
}

/// The strict order used to apply batches: by depth (deepest or shallowest
/// first), then by path, then by uid.
pub open spec fn rule_before(a: SavedRule, b: SavedRule, deepest_first: bool) -> bool {
    if depth(a) != depth(b) {
        if deepest_first {
            depth(a) > depth(b)
        } else {
            depth(a) < depth(b)
        }
    } else if a.virtual_path@ != b.virtual_path@ {
        lex_lt(a.virtual_path@, b.virtual_path@)
    } else {
        a.uid < b.uid
    }
}

pub open spec fn sorted_rules(rules: Seq<SavedRule>, deepest_first: bool) -> bool {
    forall|i: int, j: int|
        0 <= i < j < rules.len() ==> !rule_before(
            #[trigger] rules[j],
            #[trigger] rules[i],
            deepest_first,
        )
}

proof fn lemma_rule_before_transitive(a: SavedRule, b: SavedRule, c: SavedRule, d: bool)
    requires
        rule_before(a, b, d),
        rule_before(b, c, d),
    ensures
        rule_before(a, c, d),
{
    if depth(a) == depth(b) && depth(b) == depth(c) {
        if a.virtual_path@ != b.virtual_path@ && b.virtual_path@ != c.virtual_path@ {
            crate::text::lemma_lex_transitive(a.virtual_path@, b.virtual_path@, c.virtual_path@);
            if a.virtual_path@ == c.virtual_path@ {
                crate::text::lemma_lex_asymmetric(a.virtual_path@, b.virtual_path@);
            }
        }
    }
}

proof fn lemma_rule_before_asymmetric(a: SavedRule, b: SavedRule, d: bool)
    requires
        rule_before(a, b, d),
    ensures
        !rule_before(b, a, d),
{
    if depth(a) == depth(b) && a.virtual_path@ != b.virtual_path@ {
        crate::text::lemma_lex_asymmetric(a.virtual_path@, b.virtual_path@);
    }
}

fn before_in_order(a: &SavedRule, b: &SavedRule, deepest_first: bool) -> (r: bool)
    ensures
        r == rule_before(*a, *b, deepest_first),
{
    let da = count_occurrences(a.virtual_path.as_str(), '/');
    let db = count_occurrences(b.virtual_path.as_str(), '/');
    if da != db {
        if deepest_first {
            da > db
        } else {
            da < db
        }
    } else if !str_eq(a.virtual_path.as_str(), b.virtual_path.as_str()) {
        str_lt(a.virtual_path.as_str(), b.virtual_path.as_str())
    } else {
        a.uid < b.uid
    }
}

proof fn lemma_insert_multiset<A>(s: Seq<A>, p: int, x: A)
    requires
        0 <= p <= s.len(),
    ensures
        s.insert(p, x).to_multiset() =~= s.to_multiset().insert(x),
{
    broadcast use vstd::multiset::group_multiset_axioms;

    let a = s.subrange(0, p);
    let b = s.subrange(p, s.len() as int);
    assert(s =~= a + b);
    vstd::seq_lib::lemma_multiset_commutative(a, b);
    vstd::seq_lib::lemma_multiset_commutative(a.push(x), b);
    a.to_multiset_ensures();
}

/// Inserts `rule` into sorted `rules` after every entry it does not precede.
fn insert_sorted(rules: &mut Vec<SavedRule>, rule: SavedRule, deepest_first: bool)
    requires
        sorted_rules(old(rules)@, deepest_first),
    ensures
        sorted_rules(final(rules)@, deepest_first),
        final(rules)@.to_multiset() == old(rules)@.to_multiset().insert(rule),
{
    let mut p: usize = 0;
    let mut stop = false;
    while p < rules.len() && !stop
        invariant
            0 <= p <= rules@.len(),
            rules@ == old(rules)@,
            sorted_rules(rules@, deepest_first),
            forall|k: int| 0 <= k < p ==> !rule_before(rule, #[trigger] rules@[k], deepest_first),
            stop ==> p < rules@.len() && rule_before(rule, rules@[p as int], deepest_first),
        decreases rules@.len() - p + if stop { 0int } else { 1int },
    {
        if before_in_order(&rule, &rules[p], deepest_first) {
            stop = true;
        } else {
            p = p + 1;
        }
    }
    let ghost prev = rules@;
    proof {
        prev.insert_ensures(p as int, rule);
        assert(p < prev.len() ==> rule_before(rule, prev[p as int], deepest_first));
    }
    rules.insert(p, rule);
    proof {
        let s = rules@;
        assert(s =~= prev.insert(p as int, rule));
        assert forall|i: int, j: int| 0 <= i < j < s.len() implies !rule_before(
            #[trigger] s[j],
            #[trigger] s[i],
            deepest_first,
        ) by {
            if j < p {
                assert(s[i] == prev[i] && s[j] == prev[j]);
            } else if j == p {
                assert(s[i] == prev[i]);
            } else if i == p {
                assert(s[j] == prev[j - 1]);
                assert(rule_before(rule, prev[p as int], deepest_first));
                if j - 1 > p {
                    assert(!rule_before(prev[j - 1], prev[p as int], deepest_first));
                }
                if rule_before(s[j], rule, deepest_first) {
                    if j - 1 == p {
                        lemma_rule_before_asymmetric(rule, prev[p as int], deepest_first);
                    } else {
                        lemma_rule_before_transitive(s[j], rule, prev[p as int], deepest_first);
                    }
                }
            } else if i < p {
                assert(s[i] == prev[i] && s[j] == prev[j - 1]);
            } else {
                assert(s[i] == prev[i - 1] && s[j] == prev[j - 1]);
            }
        }
        prev.to_multiset_ensures();
        lemma_insert_multiset(prev, p as int, rule);
    }
}

/// `rules` in batch order: deepest first for removals, shallowest first for additions.
pub fn ordered(rules: Vec<SavedRule>, deepest_first: bool) -> (r: Vec<SavedRule>)
    ensures
        sorted_rules(r@, deepest_first),
        r@.to_multiset() == rules@.to_multiset(),
{
    let mut out: Vec<SavedRule> = Vec::new();
    let mut i: usize = 0;
    assert(out@ =~= rules@.subrange(0, 0));
    while i < rules.len()
        invariant
            0 <= i <= rules@.len(),
            sorted_rules(out@, deepest_first),
            out@.to_multiset() == rules@.subrange(0, i as int).to_multiset(),
        decreases rules@.len() - i,
    {
        let rule = rules[i].duplicate();
        insert_sorted(&mut out, rule, deepest_first);
        proof {
            assert(rules@.subrange(0, i + 1) =~= rules@.subrange(0, i as int).push(rules@[i as int]));
            rules@.subrange(0, i as int).to_multiset_ensures();
        }
        i = i + 1;
    }
    assert(rules@.subrange(0, rules@.len() as int) =~= rules@);
    out
}

/// The records in `initial` whose key is not owned (not in `before`), in order.
pub open spec fn foreign_of(initial: Seq<SavedRule>, before: Seq<SavedRule>) -> Seq<SavedRule>
    decreases initial.len(),
{
    if initial.len() == 0 {
        seq![]
    } else {
        let rest = foreign_of(initial.drop_last(), before);
        if has_key_in(before, initial.last()) {
            rest
        } else {
            rest.push(initial.last())
        }
    }
}

/// A foreign record blocks an owned target for the same uid when it holds the
/// same key, an ancestor or a descendant of it; a kernel-derived parent
/// directory above the owned target is allowed.
pub open spec fn conflicts(actual: SavedRule, owned: SavedRule) -> bool {
    actual.uid == owned.uid && !(spec_derived_parent(actual) && spec_ancestor(
        actual.virtual_path@,
        owned.virtual_path@,
    )) && (spec_same_key(actual, owned) || spec_ancestor(actual.virtual_path@, owned.virtual_path@)
        || spec_ancestor(owned.virtual_path@, actual.virtual_path@))
}

pub open spec fn free_of_conflicts(foreign: Seq<SavedRule>, owned: Seq<SavedRule>) -> bool {
    forall|i: int, j: int|
        0 <= i < foreign.len() && 0 <= j < owned.len() ==> !conflicts(
            #[trigger] foreign[i],
            #[trigger] owned[j],
        )
}

/// The preconditions for a rule transaction on the kernel snapshot `initial`:
/// unique targets on both sides, every owned rule still intact, and no foreign
/// record in the way of an owned target, old or new.
pub open spec fn snapshot_ok(
    initial: Seq<SavedRule>,
    before: Seq<SavedRule>,
    after: Seq<SavedRule>,
) -> bool {
    &&& unique_keys(before)
    &&& unique_keys(after)
    &&& all_present(initial, before)
    &&& free_of_conflicts(foreign_of(initial, before), before)
    &&& free_of_conflicts(foreign_of(initial, before), after)
}

fn conflict(actual: &SavedRule, owned: &SavedRule) -> (r: bool)
    ensures
        r == conflicts(*actual, *owned),
{
    if actual.uid != owned.uid {
        return false;
    }
    if derived_parent(actual) && ancestor(actual.virtual_path.as_str(), owned.virtual_path.as_str()) {
        return false;
    }
    same_key(actual, owned) || ancestor(actual.virtual_path.as_str(), owned.virtual_path.as_str())
        || ancestor(owned.virtual_path.as_str(), actual.virtual_path.as_str())
}

fn check_conflicts(foreign: &[SavedRule], owned: &[SavedRule]) -> (r: Result<()>)
    ensures
        r is Ok <==> free_of_conflicts(foreign@, owned@),
{
    let mut i: usize = 0;
    while i < foreign.len()
        invariant
            0 <= i <= foreign@.len(),
            forall|a: int, b: int|
                0 <= a < i && 0 <= b < owned@.len() ==> !conflicts(
                    #[trigger] foreign@[a],
                    #[trigger] owned@[b],
                ),
        decreases foreign@.len() - i,
    {
        let mut j: usize = 0;
        while j < owned.len()
            invariant
                0 <= i < foreign@.len(),
                0 <= j <= owned@.len(),
                forall|b: int| 0 <= b < j ==> !conflicts(foreign@[i as int], #[trigger] owned@[b]),
            decreases owned@.len() - j,
        {
            if conflict(&foreign[i], &owned[j]) {
                let mut message = rule_message("foreign rule conflicts with owned target ", &owned[j]);
                append_str(&mut message, ": ");
                let detail = rule_message("", &foreign[i]);
                append_str(&mut message, detail.as_str());
                return Err(transaction_error(message));
            }
            j = j + 1;
        }
        i = i + 1;
    }
    Ok(())
}

/// The foreign records of `initial`: those whose key `before` does not own.
pub fn foreign_records(initial: &[SavedRule], before: &[SavedRule]) -> (foreign: Vec<SavedRule>)
    ensures
        foreign@ == foreign_of(initial@, before@),
{
    let mut foreign: Vec<SavedRule> = Vec::new();
    let mut i: usize = 0;
    while i < initial.len()
        invariant
            0 <= i <= initial@.len(),
            foreign@ == foreign_of(initial@.subrange(0, i as int), before@),
        decreases initial@.len() - i,
    {
        assert(initial@.subrange(0, i + 1).drop_last() =~= initial@.subrange(0, i as int));
        if !contains_key(before, &initial[i]) {
            foreign.push(initial[i].duplicate());
        }
        i = i + 1;
    }
    assert(initial@.subrange(0, initial@.len() as int) =~= initial@);
    foreign
}

/// Validates ownership and target conflicts on the snapshot `initial` and
/// returns its foreign records.
pub fn validate_snapshot(initial: &[SavedRule], before: &[SavedRule], after: &[SavedRule]) -> (r:
    Result<Vec<SavedRule>>)
    ensures
        r is Ok <==> snapshot_ok(initial@, before@, after@),
        r matches Ok(foreign) ==> foreign@ == foreign_of(initial@, before@),
        !unique_keys(before@) <==> (r matches Err(e) && duplicate_error(e, before@)),
        unique_keys(before@) && !unique_keys(after@) ==> (r matches Err(e) && duplicate_error(e, after@)),
{
    validate_unique(before)?;
    validate_unique(after)?;
    verify_present(initial, before)?;
    let foreign = foreign_records(initial, before);
    check_conflicts(foreign.as_slice(), before)?;
    check_conflicts(foreign.as_slice(), after)?;
    Ok(foreign)
}

/// The owned records of `before` that `after` no longer requests, in order.
pub open spec fn obsolete_of(before: Seq<SavedRule>, after: Seq<SavedRule>) -> Seq<SavedRule>
    decreases before.len(),
{
    if before.len() == 0 {
        seq![]
    } else {
        let rest = obsolete_of(before.drop_last(), after);
        if has_key_in(after, before.last()) {
            rest
        } else {
            rest.push(before.last())
        }
    }
}

fn obsolete_records(before: &[SavedRule], after: &[SavedRule]) -> (obsolete: Vec<SavedRule>)
    ensures
        obsolete@ == obsolete_of(before@, after@),
{
    let mut obsolete: Vec<SavedRule> = Vec::new();
    let mut i: usize = 0;
    while i < before.len()
        invariant
            0 <= i <= before@.len(),
            obsolete@ == obsolete_of(before@.subrange(0, i as int), after@),
        decreases before@.len() - i,
    {
        assert(before@.subrange(0, i + 1).drop_last() =~= before@.subrange(0, i as int));
        if !contains_key(after, &before[i]) {
            obsolete.push(before[i].duplicate());
        }
        i = i + 1;
    }
    assert(before@.subrange(0, before@.len() as int) =~= before@);
    obsolete
}

fn copy_rules(rules: &[SavedRule]) -> (copy: Vec<SavedRule>)
    ensures
        copy@ == rules@,
{
    let mut copy: Vec<SavedRule> = Vec::new();
    let mut i: usize = 0;
    while i < rules.len()
        invariant
            0 <= i <= rules@.len(),
            copy@ == rules@.subrange(0, i as int),
        decreases rules@.len() - i,
    {
        copy.push(rules[i].duplicate());
        assert(copy@ =~= rules@.subrange(0, i + 1));
        i = i + 1;
    }
    assert(rules@.subrange(0, rules@.len() as int) =~= rules@);
    copy
}

/// The foreign records that are real rules rather than derived parents.
pub open spec fn preserved_of(foreign: Seq<SavedRule>) -> Seq<SavedRule>
    decreases foreign.len(),
{
    if foreign.len() == 0 {
        seq![]
    } else {
        let rest = preserved_of(foreign.drop_last());
        if spec_derived_parent(foreign.last()) {
            rest
        } else {
            rest.push(foreign.last())
        }
    }
}

fn preserved_records(foreign: &[SavedRule]) -> (preserved: Vec<SavedRule>)
    ensures
        preserved@ == preserved_of(foreign@),
{
    let mut preserved: Vec<SavedRule> = Vec::new();
    let mut i: usize = 0;
    while i < foreign.len()
        invariant
            0 <= i <= foreign@.len(),
            preserved@ == preserved_of(foreign@.subrange(0, i as int)),
        decreases foreign@.len() - i,
    {
        assert(foreign@.subrange(0, i + 1).drop_last() =~= foreign@.subrange(0, i as int));
        if !derived_parent(&foreign[i]) {
            preserved.push(foreign[i].duplicate());
        }
        i = i + 1;
    }
    assert(foreign@.subrange(0, foreign@.len() as int) =~= foreign@);
    preserved
}

/// The checks a readback must pass after a rule transaction: every wanted rule
/// is present, every dropped owned rule is gone, and every real foreign record
/// survived.
pub open spec fn applied_ok(
    current: Seq<SavedRule>,
    wanted: Seq<SavedRule>,
    dropped: Seq<SavedRule>,
    foreign: Seq<SavedRule>,
) -> bool {
    result_ok(current, wanted, dropped) && all_present(current, preserved_of(foreign))
}

/// Checks a readback after applying `wanted` in place of `dropped`.
pub fn check_applied(
    current: &[SavedRule],
    wanted: &[SavedRule],
    dropped: &[SavedRule],
    foreign: &[SavedRule],
) -> (r: Result<()>)
    ensures
        r is Ok <==> applied_ok(current@, wanted@, dropped@, foreign@),
{
    verify_result(current, wanted, dropped)?;
    let preserved = preserved_records(foreign);
    verify_present(current, preserved.as_slice())
}

/// Checks that the kernel still holds every owned rule.
pub fn verify_owned<K: RuleKernel>(kernel: &mut K, before: &[SavedRule]) -> (r: Result<()>) {
    let current = kernel.list()?;
    verify_present(current.as_slice(), before)
}

/// Validates ownership and target conflicts before a mutation intent is
/// recorded; reconciliation repeats this check on a fresh snapshot.
pub fn preflight<K: RuleKernel>(kernel: &mut K, before: &[SavedRule], after: &[SavedRule]) -> (r:
    Result<()>)
    ensures
        !unique_keys(before@) || !unique_keys(after@) ==> r is Err,
        r is Ok ==> exists|initial: Seq<SavedRule>| #[trigger] snapshot_ok(initial, before@, after@),
{
    let initial = kernel.list()?;
    validate_snapshot(initial.as_slice(), before, after)?;
    Ok(())
}

fn apply_owned<K: RuleKernel>(
    kernel: &mut K,
    obsolete: &[SavedRule],
    desired: &[SavedRule],
    before: &[SavedRule],
    after: &[SavedRule],
    foreign: &[SavedRule],
    put_attempted: &mut bool,
) -> (r: Result<()>)
    ensures
        *final(put_attempted) == (*old(put_attempted) || desired@.len() > 0) || r is Err,
        r is Ok ==> exists|current: Seq<SavedRule>| #[trigger] applied_ok(current, after@, before@, foreign@),
{
    if obsolete.len() > 0 {
        kernel.delete(obsolete)?;
    }
    if desired.len() > 0 {
        *put_attempted = true;
        kernel.put(desired)?;
    }
    let current = kernel.list()?;
    let checked = check_applied(current.as_slice(), after, before, foreign);
    assert(checked is Ok ==> applied_ok(current@, after@, before@, foreign@));
    checked
}

/// Reconciles the rules owned by the caller without clearing unrelated kernel
/// state: obsolete owned rules are removed deepest first, every requested rule
/// is (re)inserted shallowest first, and the result is read back. On failure
/// the previous owned state is restored as far as the kernel allows, and the
/// error says whether that recovery verified clean.
///
/// The caller must serialise its writers; the kernel interface cannot publish a
/// batch atomically or exclude external writers between readback and mutation.
pub fn reconcile<K: RuleKernel>(kernel: &mut K, before: &[SavedRule], after: &[SavedRule]) -> (r:
    Result<()>)
    ensures
        !unique_keys(before@) || !unique_keys(after@) ==> r is Err,
        r is Ok ==> exists|initial: Seq<SavedRule>, current: Seq<SavedRule>| #[trigger] snapshot_ok(initial, before@, after@)
            && #[trigger] applied_ok(current, after@, before@, foreign_of(initial, before@)),
{
    let initial = kernel.list()?;
    let foreign = validate_snapshot(initial.as_slice(), before, after)?;
    let obsolete = ordered(obsolete_records(before, after), true);
    let desired = ordered(copy_rules(after), false);
    let mut put_attempted = false;
    let applied = apply_owned(
        kernel,
        obsolete.as_slice(),
        desired.as_slice(),
        before,
        after,
        foreign.as_slice(),
        &mut put_attempted,
    );
    match applied {
        Ok(()) => {
            assert(snapshot_ok(initial@, before@, after@));
            assert(foreign@ == foreign_of(initial@, before@));
            Ok(())
        },
        Err(cause) => {
            let empty: Vec<SavedRule> = Vec::new();
            let attempted = if put_attempted {
                after
            } else {
                empty.as_slice()
            };
            let recovery = rollback(kernel, before, attempted, foreign.as_slice());
            let mut message = owned("owned rule transaction failed: ");
            let cause_text = cause.message();
            append_str(&mut message, cause_text.as_str());
            match recovery {
                Ok(()) => {
                    append_str(&mut message, "; rollback clean");
                },
                Err(recovery) => {
                    append_str(&mut message, "; rollback incomplete: ");
                    let recovery_text = recovery.message();
                    append_str(&mut message, recovery_text.as_str());
                },
            }
            Err(transaction_error(message))
        },
    }
}

/// Rules a failed transaction introduced that are still live: requested, not
/// previously owned, and present in `current`.
pub open spec fn introduced_of(
    attempted: Seq<SavedRule>,
    before: Seq<SavedRule>,
    current: Seq<SavedRule>,
) -> Seq<SavedRule>
    decreases attempted.len(),
{
    if attempted.len() == 0 {
        seq![]
    } else {
        let rest = introduced_of(attempted.drop_last(), before, current);
        let x = attempted.last();
        if !has_key_in(before, x) && present_in(current, x) {
            rest.push(x)
        } else {
            rest
        }
    }
}

/// An old owned rule may be restored when it is missing and every record now
/// holding its key is a derived parent or one the failed transaction wrote.
pub open spec fn restorable(
    old: SavedRule,
    current: Seq<SavedRule>,
    attempted: Seq<SavedRule>,
) -> bool {
    !present_in(current, old) && forall|k: int|
        0 <= k < current.len() && #[trigger] spec_same_key(old, current[k]) ==> (
        spec_derived_parent(current[k]) || exists|n: int|
            0 <= n < attempted.len() && #[trigger] spec_semantic_equal(attempted[n], current[k]))
}

pub open spec fn restore_of(
    before: Seq<SavedRule>,
    current: Seq<SavedRule>,
    attempted: Seq<SavedRule>,
) -> Seq<SavedRule>
    decreases before.len(),
{
    if before.len() == 0 {
        seq![]
    } else {
        let rest = restore_of(before.drop_last(), current, attempted);
        if restorable(before.last(), current, attempted) {
            rest.push(before.last())
        } else {
            rest
        }
    }
}

/// The live rules a failed transaction introduced.
pub fn introduced_records(attempted: &[SavedRule], before: &[SavedRule], current: &[SavedRule]) -> (r:
    Vec<SavedRule>)
    ensures
        r@ == introduced_of(attempted@, before@, current@),
{
    let mut out: Vec<SavedRule> = Vec::new();
    let mut i: usize = 0;
    while i < attempted.len()
        invariant
            0 <= i <= attempted@.len(),
            out@ == introduced_of(attempted@.subrange(0, i as int), before@, current@),
        decreases attempted@.len() - i,
    {
        assert(attempted@.subrange(0, i + 1).drop_last() =~= attempted@.subrange(0, i as int));
        if !contains_key(before, &attempted[i]) && contains_semantic(current, &attempted[i]) {
            out.push(attempted[i].duplicate());
        }
        i = i + 1;
    }
    assert(attempted@.subrange(0, attempted@.len() as int) =~= attempted@);
    out
}

fn written_by(attempted: &[SavedRule], actual: &SavedRule) -> (r: bool)
    ensures
        r == exists|n: int|
            0 <= n < attempted@.len() && #[trigger] spec_semantic_equal(attempted@[n], *actual),
{
    let mut n: usize = 0;
    while n < attempted.len()
        invariant
            0 <= n <= attempted@.len(),
            forall|k: int| 0 <= k < n ==> !spec_semantic_equal(#[trigger] attempted@[k], *actual),
        decreases attempted@.len() - n,
    {
        if semantic_equal(&attempted[n], actual) {
            return true;
        }
        n = n + 1;
    }
    false
}

fn is_restorable(old: &SavedRule, current: &[SavedRule], attempted: &[SavedRule]) -> (r: bool)
    ensures
        r == restorable(*old, current@, attempted@),
{
    if contains_semantic(current, old) {
        return false;
    }
    let mut k: usize = 0;
    while k < current.len()
        invariant
            0 <= k <= current@.len(),
            forall|q: int|
                0 <= q < k && #[trigger] spec_same_key(*old, current@[q]) ==> (spec_derived_parent(
                    current@[q],
                ) || exists|n: int|
                    0 <= n < attempted@.len() && #[trigger] spec_semantic_equal(
                        attempted@[n],
                        current@[q],
                    )),
        decreases current@.len() - k,
    {
        if same_key(old, &current[k]) && !derived_parent(&current[k]) && !written_by(
            attempted,
            &current[k],
        ) {
            return false;
        }
        k = k + 1;
    }
    true
}

/// The previously owned rules that may be put back.
pub fn restore_records(before: &[SavedRule], current: &[SavedRule], attempted: &[SavedRule]) -> (r:
    Vec<SavedRule>)
    ensures
        r@ == restore_of(before@, current@, attempted@),
{
    let mut out: Vec<SavedRule> = Vec::new();
    let mut i: usize = 0;
    while i < before.len()
        invariant
            0 <= i <= before@.len(),
            out@ == restore_of(before@.subrange(0, i as int), current@, attempted@),
        decreases before@.len() - i,
    {
        assert(before@.subrange(0, i + 1).drop_last() =~= before@.subrange(0, i as int));
        if is_restorable(&before[i], current, attempted) {
            out.push(before[i].duplicate());
        }
        i = i + 1;
    }
    assert(before@.subrange(0, before@.len() as int) =~= before@);
    out
}

/// Best-effort recovery after a failed transaction: removes the introduced
/// rules one by one, restores what it may of `before`, and reports the outcome
/// from a final readback.
fn rollback<K: RuleKernel>(
    kernel: &mut K,
    before: &[SavedRule],
    attempted: &[SavedRule],
    foreign: &[SavedRule],
) -> (r: Result<()>) {
    let current = kernel.list()?;
    let introduced = ordered(introduced_records(attempted, before, current.as_slice()), true);
    let mut i: usize = 0;
    while i < introduced.len()
        decreases introduced@.len() - i,
    {
        let one = vec![introduced[i].duplicate()];
        let _ = kernel.delete(one.as_slice());
        i = i + 1;
    }
    let current = kernel.list()?;
    let restore = ordered(restore_records(before, current.as_slice(), attempted), false);
    let mut j: usize = 0;
    while j < restore.len()
        decreases restore@.len() - j,
    {
        let one = vec![restore[j].duplicate()];
        let _ = kernel.put(one.as_slice());
        j = j + 1;
    }
    let current = kernel.list()?;
    check_applied(current.as_slice(), before, attempted, foreign)
}

} // verus!
