//! Module records as the read-only module scan reports them, and the
//! `module.prop` format.
use vstd::prelude::*;

use crate::errors::{Error, Result};
use crate::mount_tree::NodeFileType;
use crate::paths::{trim, trimmed, views};
use crate::sys::kconfig::{first_eq, pieces_from};
use crate::text::{
    append_str, has_name, insert_name, lemma_lex_asymmetric, lemma_lex_irreflexive, lemma_lex_total,
    lemma_lex_transitive, lex_lt, owned, push_char, slice_chars, sorted_names, str_eq, str_lt,
};

verus! {

/// One mountable entry inside a module: `relative` is relative to the module
/// root (such as `system/etc/hosts`) and always uses `/`.
#[derive(Debug)]
pub struct ModuleEntry {
    pub relative: String,
    pub file_type: NodeFileType,
    pub replace: bool,
}

/// A scanned module.
#[derive(Debug)]
pub struct ModuleRecord {
    pub id: String,
    pub name: String,
    pub version: String,
    pub author: String,
    pub description: String,
    pub disabled: bool,
    pub skip_mount: bool,
    pub has_mount_files: bool,
    pub source_path: String,
    pub entries: Vec<ModuleEntry>,
}

impl ModuleRecord {
    /// Whether the module takes part in mounting.
    pub fn mountable(&self) -> (r: bool)
        ensures
            r == (self.has_mount_files && !self.disabled && !self.skip_mount),
    {
        self.has_mount_files && !self.disabled && !self.skip_mount
    }
}

/// One `module.prop` line: a `key=value` pair, both trimmed, unless the
/// trimmed line is empty, a `#` comment, or holds no `=`.
pub open spec fn prop_line(line: Seq<char>) -> Option<(Seq<char>, Seq<char>)> {
    let t = trimmed(line);
    let i = first_eq(t);
    if t.len() == 0 || t[0] == '#' || i < 0 {
        None
    } else {
        Some((trimmed(t.subrange(0, i)), trimmed(t.skip(i + 1))))
    }
}

/// The properties of `lines`, a later line overriding an earlier one.
pub open spec fn prop_map(lines: Seq<Seq<char>>) -> Map<Seq<char>, Seq<char>>
    decreases lines.len(),
{
    if lines.len() == 0 {
        Map::empty()
    } else {
        let m = prop_map(lines.drop_last());
        match prop_line(lines.last()) {
            Some(kv) => m.insert(kv.0, kv.1),
            None => m,
        }
    }
}

/// The properties of a `module.prop` text.
pub open spec fn spec_prop(text: Seq<char>) -> Map<Seq<char>, Seq<char>> {
    prop_map(pieces_from(text, Seq::empty(), Seq::empty()))
}

/// `props` lists exactly the map `m`, keys strictly ascending.
pub open spec fn lists_map(props: Seq<(String, String)>, m: Map<Seq<char>, Seq<char>>) -> bool {
    &&& forall|i: int, j: int| 0 <= i < j < props.len() ==> lex_lt(#[trigger] props[i].0@, #[trigger] props[j].0@)
    &&& forall|i: int| 0 <= i < props.len() ==> m.contains_key(#[trigger] props[i].0@) && m[props[i].0@] == props[i].1@
    &&& forall|k: Seq<char>| #[trigger] m.contains_key(k) ==> exists|i: int| 0 <= i < props.len() && #[trigger] props[i].0@ == k
}

/// Sets `key` to `value` in a key-ordered property list.
fn upsert(props: &mut Vec<(String, String)>, key: String, value: String, Ghost(m): Ghost<Map<Seq<char>, Seq<char>>>)
    requires
        lists_map(old(props)@, m),
    ensures
        lists_map(final(props)@, m.insert(key@, value@)),
{
    let mut p: usize = 0;
    while p < props.len() && str_lt(props[p].0.as_str(), key.as_str())
        invariant
            0 <= p <= props@.len(),
            props@ == old(props)@,
            forall|q: int| 0 <= q < p ==> lex_lt(#[trigger] props@[q].0@, key@),
        decreases props@.len() - p,
    {
        p = p + 1;
    }
    let ghost before = props@;
    let ghost m2 = m.insert(key@, value@);
    if p < props.len() && str_eq(props[p].0.as_str(), key.as_str()) {
        props.set(p, (key, value));
        proof {
            assert forall|i: int, j: int| 0 <= i < j < props@.len() implies lex_lt(#[trigger] props@[i].0@, #[trigger] props@[j].0@) by {
                assert(props@[i].0@ == before[i].0@ && props@[j].0@ == before[j].0@);
            }
            assert forall|i: int| 0 <= i < props@.len() implies m2.contains_key(#[trigger] props@[i].0@) && m2[props@[i].0@] == props@[i].1@ by {
                if i != p {
                    assert(props@[i] == before[i]);
                    lemma_lex_irreflexive(key@);
                    if i < p {
                        assert(lex_lt(before[i].0@, before[p as int].0@));
                    } else {
                        assert(lex_lt(before[p as int].0@, before[i].0@));
                    }
                    lemma_lex_irreflexive(before[i].0@);
                }
            }
            assert forall|k: Seq<char>| #[trigger] m2.contains_key(k) implies exists|i: int| 0 <= i < props@.len() && #[trigger] props@[i].0@ == k by {
                if k == key@ {
                    assert(props@[p as int].0@ == k);
                } else {
                    let i = choose|i: int| 0 <= i < before.len() && #[trigger] before[i].0@ == k;
                    assert(props@[i].0@ == k);
                }
            }
        }
    } else {
        proof {
            if p < before.len() {
                lemma_lex_total(before[p as int].0@, key@);
            }
            assert forall|q: int| 0 <= q < before.len() implies #[trigger] before[q].0@ != key@ by {
                if q < p {
                    lemma_lex_irreflexive(key@);
                } else if q > p {
                    lemma_lex_transitive(key@, before[p as int].0@, before[q].0@);
                    lemma_lex_irreflexive(key@);
                }
            }
        }
        props.insert(p, (key, value));
        proof {
            assert(props@ =~= before.insert(p as int, props@[p as int]));
            assert forall|i: int, j: int| 0 <= i < j < props@.len() implies lex_lt(#[trigger] props@[i].0@, #[trigger] props@[j].0@) by {
                if j < p {
                } else if j == p {
                } else if i < p {
                    assert(props@[j] == before[j - 1]);
                    if j - 1 > p {
                        lemma_lex_transitive(key@, before[p as int].0@, before[j - 1].0@);
                    }
                    lemma_lex_transitive(props@[i].0@, key@, props@[j].0@);
                } else if i == p {
                    assert(props@[j] == before[j - 1]);
                    if j - 1 > p {
                        lemma_lex_transitive(key@, before[p as int].0@, before[j - 1].0@);
                    }
                } else {
                    assert(props@[i] == before[i - 1] && props@[j] == before[j - 1]);
                }
            }
            assert forall|i: int| 0 <= i < props@.len() implies m2.contains_key(#[trigger] props@[i].0@) && m2[props@[i].0@] == props@[i].1@ by {
                if i < p {
                    assert(props@[i] == before[i]);
                } else if i > p {
                    assert(props@[i] == before[i - 1]);
                }
            }
            assert forall|k: Seq<char>| #[trigger] m2.contains_key(k) implies exists|i: int| 0 <= i < props@.len() && #[trigger] props@[i].0@ == k by {
                if k == key@ {
                    assert(props@[p as int].0@ == k);
                } else {
                    let i = choose|i: int| 0 <= i < before.len() && #[trigger] before[i].0@ == k;
                    if i < p {
                        assert(props@[i].0@ == k);
                    } else {
                        assert(props@[i + 1].0@ == k);
                    }
                }
            }
        }
    }
}

/// The index of the first `=` in `s`.
fn find_eq(s: &str) -> (r: Option<usize>)
    ensures
        r matches Some(i) ==> i == first_eq(s@) && i < s@.len(),
        r is None ==> first_eq(s@) == -1,
{
    let n = s.unicode_len();
    let mut i: usize = 0;
    while i < n && s.get_char(i) != '='
        invariant
            n == s@.len(),
            0 <= i <= n,
            forall|j: int| 0 <= j < i ==> s@[j] != '=',
        decreases n - i,
    {
        i = i + 1;
    }
    if i == n {
        return None;
    }
    proof {
        let c = choose|c: int| 0 <= c < s@.len() && s@[c] == '=' && forall|j: int| 0 <= j < c ==> s@[j] != '=';
        assert(c == i) by {
            if c < i {
            } else if c > i {
            }
        }
    }
    Some(i)
}

/// Parses one line into a `key=value` pair.
fn parse_prop_line(line: &str) -> (r: Option<(String, String)>)
    ensures
        match (r, prop_line(line@)) {
            (Some(kv), Some(s)) => kv.0@ == s.0 && kv.1@ == s.1,
            (None, None) => true,
            _ => false,
        },
{
    let t = trim(line);
    let ts = t.as_str();
    let n = ts.unicode_len();
    if n == 0 || ts.get_char(0) == '#' {
        return None;
    }
    let i = match find_eq(ts) {
        None => {
            return None;
        },
        Some(i) => i,
    };
    let k = slice_chars(ts, 0, i);
    let v = slice_chars(ts, i + 1, n);
    assert(t@.subrange(i + 1, n as int) =~= t@.skip(i + 1));
    Some((trim(k.as_str()), trim(v.as_str())))
}

#[verifier::rlimit(40)]
/// Reads a `module.prop` text: `key=value` lines, blank lines and `#`
/// comments skipped, keys and values trimmed, a later line overriding an
/// earlier one; listed by key.
pub fn parse_prop(text: &str) -> (r: Vec<(String, String)>)
    ensures
        lists_map(r@, spec_prop(text@)),
{
    let n = text.unicode_len();
    let mut props: Vec<(String, String)> = Vec::new();
    let mut start: usize = 0;
    let mut i: usize = 0;
    let ghost mut acc: Seq<Seq<char>> = Seq::empty();
    assert(text@.skip(0) =~= text@);
    assert(text@.subrange(0, 0) =~= Seq::<char>::empty());
    while i < n
        invariant
            n == text@.len(),
            0 <= start <= i <= n,
            pieces_from(text@.skip(i as int), acc, text@.subrange(start as int, i as int)) == pieces_from(
                text@,
                Seq::empty(),
                Seq::empty(),
            ),
            lists_map(props@, prop_map(acc)),
        decreases n - i,
    {
        let c = text.get_char(i);
        let ghost rest = text@.skip(i as int);
        assert(rest.drop_first() =~= text@.skip(i + 1));
        assert(rest[0] == c);
        if c == '\n' {
            let line = slice_chars(text, start, i);
            let ghost m = prop_map(acc);
            match parse_prop_line(line.as_str()) {
                Some((key, value)) => {
                    upsert(&mut props, key, value, Ghost(m));
                },
                None => {},
            }
            proof {
                let next = acc.push(line@);
                assert(next.drop_last() =~= acc);
                acc = next;
                assert(text@.subrange(i + 1, i + 1) =~= Seq::<char>::empty());
            }
            start = i + 1;
        } else {
            assert(text@.subrange(start as int, i + 1) =~= text@.subrange(start as int, i as int).push(c));
        }
        i = i + 1;
    }
    let line = slice_chars(text, start, n);
    let ghost m = prop_map(acc);
    match parse_prop_line(line.as_str()) {
        Some((key, value)) => {
            upsert(&mut props, key, value, Ghost(m));
        },
        None => {},
    }
    proof {
        assert(text@.skip(n as int) =~= Seq::<char>::empty());
        let lines = pieces_from(text@, Seq::empty(), Seq::empty());
        assert(lines == acc.push(line@));
        assert(lines.drop_last() =~= acc);
    }
    props
}

/// The value of the first entry of `props` named `key`, from the `i`-th on.
pub open spec fn prop_lookup(props: Seq<(String, String)>, key: Seq<char>, i: int) -> Option<Seq<char>>
    decreases props.len() - i,
{
    if i < 0 || i >= props.len() {
        None
    } else if props[i].0@ == key {
        Some(props[i].1@)
    } else {
        prop_lookup(props, key, i + 1)
    }
}

fn prop_value(props: &[(String, String)], key: &str) -> (r: Option<String>)
    ensures
        match (r, prop_lookup(props@, key@, 0)) {
            (Some(v), Some(s)) => v@ == s,
            (None, None) => true,
            _ => false,
        },
{
    let mut i: usize = 0;
    while i < props.len()
        invariant
            0 <= i <= props@.len(),
            prop_lookup(props@, key@, 0) == prop_lookup(props@, key@, i as int),
        decreases props@.len() - i,
    {
        if str_eq(props[i].0.as_str(), key) {
            return Some(props[i].1.clone());
        }
        i = i + 1;
    }
    None
}

/// A module id: an ASCII letter, then at least one ASCII letter, digit,
/// `.`, `_` or `-`.
pub open spec fn valid_module_id(id: Seq<char>) -> bool {
    &&& id.len() >= 2
    &&& (('a' <= id[0] && id[0] <= 'z') || ('A' <= id[0] && id[0] <= 'Z'))
    &&& forall|i: int| 1 <= i < id.len() ==> id_char(#[trigger] id[i])
}

pub open spec fn id_char(c: char) -> bool {
    ('a' <= c && c <= 'z') || ('A' <= c && c <= 'Z') || ('0' <= c && c <= '9') || c == '.' || c == '_' || c == '-'
}

/// Checks that `id` is a valid module id.
pub fn validate_module_id(id: &str) -> (r: Result<()>)
    ensures
        r is Ok <==> valid_module_id(id@),
        r matches Err(e) ==> e.spec_message() == "Invalid module ID: "@ + id@,
{
    let n = id.unicode_len();
    let mut ok = n >= 2;
    if ok {
        let c = id.get_char(0);
        ok = ('a' <= c && c <= 'z') || ('A' <= c && c <= 'Z');
    }
    let mut i: usize = 1;
    while ok && i < n
        invariant
            n == id@.len(),
            1 <= i <= n || n == 0,
            ok ==> n >= 2 && (('a' <= id@[0] && id@[0] <= 'z') || ('A' <= id@[0] && id@[0] <= 'Z')),
            ok ==> forall|j: int| 1 <= j < i ==> id_char(#[trigger] id@[j]),
            !ok ==> !valid_module_id(id@),
        decreases n - i,
    {
        let c = id.get_char(i);
        if !(('a' <= c && c <= 'z') || ('A' <= c && c <= 'Z') || ('0' <= c && c <= '9') || c == '.' || c == '_' || c == '-') {
            ok = false;
        }
        i = i + 1;
    }
    if ok {
        Ok(())
    } else {
        let mut message = owned("Invalid module ID: ");
        append_str(&mut message, id);
        Err(Error::msg(message))
    }
}

/// What the module scan found in one module directory besides its
/// properties.
pub struct ModuleScan {
    pub source_path: String,
    /// A `disable` or `remove` marker is present.
    pub disabled: bool,
    /// A `skip_mount` marker is present.
    pub skip_mount: bool,
    /// Some partition directory exists in the module.
    pub has_mount_files: bool,
    pub entries: Vec<ModuleEntry>,
}

impl ModuleRecord {
    /// The record of a scanned module, from its `module.prop` entries; none
    /// when `id`, `name`, `version`, `author` or `description` is missing or
    /// the id is invalid. The first entry of a key counts.
    pub fn from_prop(props: &[(String, String)], scan: ModuleScan) -> (r: Option<ModuleRecord>)
        ensures
            r is Some <==> {
                &&& prop_lookup(props@, "id"@, 0) matches Some(id) && valid_module_id(id)
                &&& prop_lookup(props@, "name"@, 0) is Some
                &&& prop_lookup(props@, "version"@, 0) is Some
                &&& prop_lookup(props@, "author"@, 0) is Some
                &&& prop_lookup(props@, "description"@, 0) is Some
            },
            r matches Some(m) ==> {
                &&& prop_lookup(props@, "id"@, 0) == Some(m.id@)
                &&& prop_lookup(props@, "name"@, 0) == Some(m.name@)
                &&& prop_lookup(props@, "version"@, 0) == Some(m.version@)
                &&& prop_lookup(props@, "author"@, 0) == Some(m.author@)
                &&& prop_lookup(props@, "description"@, 0) == Some(m.description@)
                &&& m.source_path == scan.source_path
                &&& m.disabled == scan.disabled
                &&& m.skip_mount == scan.skip_mount
                &&& m.has_mount_files == scan.has_mount_files
                &&& m.entries == scan.entries
            },
    {
        let id = prop_value(props, "id")?;
        let name = prop_value(props, "name")?;
        let version = prop_value(props, "version")?;
        let author = prop_value(props, "author")?;
        let description = prop_value(props, "description")?;
        if validate_module_id(id.as_str()).is_err() {
            return None;
        }
        Some(ModuleRecord {
            id,
            name,
            version,
            author,
            description,
            disabled: scan.disabled,
            skip_mount: scan.skip_mount,
            has_mount_files: scan.has_mount_files,
            source_path: scan.source_path,
            entries: scan.entries,
        })
    }
}

/// The partition directories a module scan walks: `system` and every extra
/// partition, sorted and without repeats.
pub fn scan_partitions(extra_partitions: &[String]) -> (r: Vec<String>)
    ensures
        sorted_names(r@),
        forall|x: Seq<char>| #[trigger] has_name(r@, x) <==> x == "system"@ || has_name(extra_partitions@, x),
{
    let mut r: Vec<String> = Vec::new();
    insert_name(&mut r, "system");
    let mut i: usize = 0;
    while i < extra_partitions.len()
        invariant
            0 <= i <= extra_partitions@.len(),
            sorted_names(r@),
            forall|x: Seq<char>| #[trigger] has_name(r@, x) <==> x == "system"@ || exists|k: int|
                0 <= k < i && #[trigger] extra_partitions@[k]@ == x,
        decreases extra_partitions@.len() - i,
    {
        insert_name(&mut r, extra_partitions[i].as_str());
        proof {
            assert forall|x: Seq<char>| #[trigger] has_name(r@, x) <==> x == "system"@ || exists|k: int|
                0 <= k < i + 1 && #[trigger] extra_partitions@[k]@ == x by {
                if x == extra_partitions@[i as int]@ {
                    assert(extra_partitions@[i as int]@ == x);
                }
            }
        }
        i = i + 1;
    }
    r
}

/// The entry path of `relative` (its components) inside `partition`.
pub fn entry_relative(partition: &str, components: &[String]) -> (r: String)
    ensures
        r@ == partition@ + "/"@ + crate::plan::paths::joined(views(components@)),
{
    let mut r = owned(partition);
    push_char(&mut r, '/');
    proof {
        reveal_strlit("/");
        assert(r@ =~= partition@ + "/"@);
    }
    let ghost base = r@;
    let mut i: usize = 0;
    assert(views(components@).take(0) =~= Seq::<Seq<char>>::empty());
    while i < components.len()
        invariant
            0 <= i <= components@.len(),
            base == partition@ + "/"@,
            r@ == base + crate::plan::paths::joined(views(components@).take(i as int)),
        decreases components@.len() - i,
    {
        proof {
            let pre = views(components@).take(i + 1);
            assert(pre.drop_last() =~= views(components@).take(i as int));
            assert(pre.last() == components@[i as int]@);
        }
        if i > 0 {
            push_char(&mut r, '/');
        }
        append_str(&mut r, components[i].as_str());
        proof {
            let pre = views(components@).take(i + 1);
            if i == 0 {
                assert(crate::plan::paths::joined(views(components@).take(0)) =~= Seq::<char>::empty());
                assert(crate::plan::paths::joined(pre) == pre[0]);
            }
            assert(r@ =~= base + crate::plan::paths::joined(pre));
        }
        i = i + 1;
    }
    assert(views(components@).take(components@.len() as int) =~= views(components@));
    r
}

/// Entries ordered by path, ties kept in scan order.
pub open spec fn entries_by_path(s: Seq<ModuleEntry>) -> bool {
    forall|i: int, j: int| 0 <= i < j < s.len() ==> !lex_lt(#[trigger] s[j].relative@, #[trigger] s[i].relative@)
}

/// Orders module entries by path.
pub fn sort_entries(entries: Vec<ModuleEntry>) -> (r: Vec<ModuleEntry>)
    ensures
        entries_by_path(r@),
        r@.to_multiset() == entries@.to_multiset(),
{
    let mut out: Vec<ModuleEntry> = Vec::new();
    let mut rest = entries;
    proof {
        broadcast use vstd::seq_lib::group_to_multiset_ensures, vstd::multiset::group_multiset_properties;
        assert(out@.to_multiset() =~= vstd::multiset::Multiset::<ModuleEntry>::empty());
        assert(out@.to_multiset().add(rest@.to_multiset()) =~= entries@.to_multiset());
    }
    while rest.len() > 0
        invariant
            entries_by_path(out@),
            out@.to_multiset().add(rest@.to_multiset()) == entries@.to_multiset(),
        decreases rest@.len(),
    {
        let ghost before_rest = rest@;
        let e = rest.pop().unwrap();
        proof {
            assert(before_rest =~= rest@.push(e));
            vstd::seq_lib::to_multiset_build(rest@, e);
        }
        let mut p: usize = 0;
        while p < out.len() && !str_lt(e.relative.as_str(), out[p].relative.as_str())
            invariant
                0 <= p <= out@.len(),
                forall|k: int| 0 <= k < p ==> !lex_lt(e.relative@, #[trigger] out@[k].relative@),
            decreases out@.len() - p,
        {
            p = p + 1;
        }
        let ghost before = out@;
        out.insert(p, e);
        proof {
            vstd::seq_lib::to_multiset_insert(before, p as int, e);
            assert forall|i: int, j: int| 0 <= i < j < out@.len() implies !lex_lt(#[trigger] out@[j].relative@, #[trigger] out@[i].relative@) by {
                if j < p {
                    assert(out@[i] == before[i] && out@[j] == before[j]);
                } else if j == p {
                    assert(out@[i] == before[i]);
                } else if i > p {
                    assert(out@[i] == before[i - 1] && out@[j] == before[j - 1]);
                } else if i == p {
                    assert(out@[j] == before[j - 1]);
                    if lex_lt(before[j - 1].relative@, e.relative@) {
                        lemma_lex_transitive(before[j - 1].relative@, e.relative@, before[p as int].relative@);
                        if j - 1 == p {
                            lemma_lex_irreflexive(before[p as int].relative@);
                        }
                    }
                } else {
                    assert(out@[i] == before[i] && out@[j] == before[j - 1]);
                }
            }
            broadcast use vstd::multiset::group_multiset_axioms;
            assert(out@.to_multiset().add(rest@.to_multiset()) =~= entries@.to_multiset());
        }
    }
    proof {
        broadcast use vstd::seq_lib::group_to_multiset_ensures, vstd::multiset::group_multiset_properties;
        assert(rest@.to_multiset() =~= vstd::multiset::Multiset::<ModuleEntry>::empty());
        assert(out@.to_multiset() =~= out@.to_multiset().add(rest@.to_multiset()));
    }
    out
}

/// Modules ordered by id, ties kept in scan order.
pub open spec fn modules_by_id(s: Seq<ModuleRecord>) -> bool {
    forall|i: int, j: int| 0 <= i < j < s.len() ==> !lex_lt(#[trigger] s[j].id@, #[trigger] s[i].id@)
}

/// Orders scanned modules by id.
pub fn sort_modules(modules: Vec<ModuleRecord>) -> (r: Vec<ModuleRecord>)
    ensures
        modules_by_id(r@),
        r@.to_multiset() == modules@.to_multiset(),
{
    let mut out: Vec<ModuleRecord> = Vec::new();
    let mut rest = modules;
    proof {
        broadcast use vstd::seq_lib::group_to_multiset_ensures, vstd::multiset::group_multiset_properties;
        assert(out@.to_multiset() =~= vstd::multiset::Multiset::<ModuleRecord>::empty());
        assert(out@.to_multiset().add(rest@.to_multiset()) =~= modules@.to_multiset());
    }
    while rest.len() > 0
        invariant
            modules_by_id(out@),
            out@.to_multiset().add(rest@.to_multiset()) == modules@.to_multiset(),
        decreases rest@.len(),
    {
        let ghost before_rest = rest@;
        let m = rest.pop().unwrap();
        proof {
            assert(before_rest =~= rest@.push(m));
            vstd::seq_lib::to_multiset_build(rest@, m);
        }
        let mut p: usize = 0;
        while p < out.len() && !str_lt(m.id.as_str(), out[p].id.as_str())
            invariant
                0 <= p <= out@.len(),
                forall|k: int| 0 <= k < p ==> !lex_lt(m.id@, #[trigger] out@[k].id@),
            decreases out@.len() - p,
        {
            p = p + 1;
        }
        let ghost before = out@;
        out.insert(p, m);
        proof {
            vstd::seq_lib::to_multiset_insert(before, p as int, m);
            assert forall|i: int, j: int| 0 <= i < j < out@.len() implies !lex_lt(#[trigger] out@[j].id@, #[trigger] out@[i].id@) by {
                if j < p {
                    assert(out@[i] == before[i] && out@[j] == before[j]);
                } else if j == p {
                    assert(out@[i] == before[i]);
                } else if i > p {
                    assert(out@[i] == before[i - 1] && out@[j] == before[j - 1]);
                } else if i == p {
                    assert(out@[j] == before[j - 1]);
                    if lex_lt(before[j - 1].id@, m.id@) {
                        lemma_lex_transitive(before[j - 1].id@, m.id@, before[p as int].id@);
                        if j - 1 == p {
                            lemma_lex_irreflexive(before[p as int].id@);
                        }
                    }
                } else {
                    assert(out@[i] == before[i] && out@[j] == before[j - 1]);
                }
            }
            broadcast use vstd::multiset::group_multiset_axioms;
            assert(out@.to_multiset().add(rest@.to_multiset()) =~= modules@.to_multiset());
        }
    }
    proof {
        broadcast use vstd::seq_lib::group_to_multiset_ensures, vstd::multiset::group_multiset_properties;
        assert(rest@.to_multiset() =~= vstd::multiset::Multiset::<ModuleRecord>::empty());
        assert(out@.to_multiset() =~= out@.to_multiset().add(rest@.to_multiset()));
    }
    out
}

} // verus!
