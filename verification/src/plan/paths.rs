//! Module-relative paths as the planner reads them: split on every `/`,
//! mapped onto partition targets and joined under a module's source.
use vstd::prelude::*;

use crate::mount_tree::NodeFileType;
use crate::paths::{trim, views};
use crate::scanner::ModuleEntry;
use crate::text::{append_str, has_name, owned, push_char, str_eq};

verus! {

/// The pieces of `s` between `/` separators, empty pieces kept, after the
/// pieces `acc` and the partial piece `cur`.
pub open spec fn split_from(s: Seq<char>, acc: Seq<Seq<char>>, cur: Seq<char>) -> Seq<Seq<char>>
    decreases s.len(),
{
    if s.len() == 0 {
        acc.push(cur)
    } else if s[0] == '/' {
        split_from(s.drop_first(), acc.push(cur), Seq::empty())
    } else {
        split_from(s.drop_first(), acc, cur.push(s[0]))
    }
}

/// `str::split('/')`: the pieces of `s` between separators, empty ones kept.
pub open spec fn split_all(s: Seq<char>) -> Seq<Seq<char>> {
    split_from(s, Seq::empty(), Seq::empty())
}

/// `parts` joined with `/`.
pub open spec fn joined(parts: Seq<Seq<char>>) -> Seq<char>
    decreases parts.len(),
{
    if parts.len() == 0 {
        Seq::empty()
    } else if parts.len() == 1 {
        parts[0]
    } else {
        joined(parts.drop_last()) + seq!['/'] + parts.last()
    }
}

proof fn lemma_split_from_nonempty(s: Seq<char>, acc: Seq<Seq<char>>, cur: Seq<char>)
    ensures
        split_from(s, acc, cur).len() >= acc.len() + 1,
    decreases s.len(),
{
    if s.len() > 0 {
        if s[0] == '/' {
            lemma_split_from_nonempty(s.drop_first(), acc.push(cur), Seq::empty());
        } else {
            lemma_split_from_nonempty(s.drop_first(), acc, cur.push(s[0]));
        }
    }
}

/// `str::split('/')` into owned pieces.
pub fn split_parts(s: &str) -> (r: Vec<String>)
    ensures
        views(r@) == split_all(s@),
        r@.len() >= 1,
{
    let n = s.unicode_len();
    let mut out: Vec<String> = Vec::new();
    let mut cur = String::new();
    let mut i: usize = 0;
    assert(s@.skip(0) =~= s@);
    assert(views(out@) =~= Seq::<Seq<char>>::empty());
    assert(cur@ =~= Seq::<char>::empty());
    while i < n
        invariant
            n == s@.len(),
            0 <= i <= n,
            split_from(s@.skip(i as int), views(out@), cur@) == split_all(s@),
        decreases n - i,
    {
        let c = s.get_char(i);
        assert(s@.skip(i as int).drop_first() =~= s@.skip(i + 1));
        if c == '/' {
            let ghost before = out@;
            out.push(cur);
            assert(views(out@) =~= views(before).push(cur@));
            cur = String::new();
            assert(cur@ =~= Seq::<char>::empty());
        } else {
            push_char(&mut cur, c);
        }
        i = i + 1;
    }
    let ghost before = out@;
    out.push(cur);
    assert(views(out@) =~= views(before).push(cur@));
    proof {
        lemma_split_from_nonempty(s@, Seq::empty(), Seq::empty());
    }
    out
}

/// Joins `parts[from..]` with `/`.
pub fn join_from(parts: &Vec<String>, from: usize) -> (r: String)
    requires
        from <= parts@.len(),
    ensures
        r@ == joined(views(parts@).skip(from as int)),
{
    let mut out = String::new();
    let mut i = from;
    assert(views(parts@).skip(from as int).subrange(0, 0) =~= Seq::<Seq<char>>::empty());
    while i < parts.len()
        invariant
            from <= i <= parts@.len(),
            out@ == joined(views(parts@).skip(from as int).subrange(0, i - from)),
        decreases parts@.len() - i,
    {
        let ghost tail = views(parts@).skip(from as int);
        proof {
            let pre = tail.subrange(0, i - from + 1);
            assert(pre.drop_last() =~= tail.subrange(0, i - from));
            assert(pre.last() == parts@[i as int]@);
            if i == from {
                assert(pre[0] == parts@[i as int]@);
            }
        }
        if i > from {
            push_char(&mut out, '/');
        }
        append_str(&mut out, parts[i].as_str());
        proof {
            if i == from {
                assert(out@ =~= parts@[i as int]@);
            }
        }
        i = i + 1;
    }
    assert(views(parts@).skip(from as int).subrange(0, parts@.len() - from) =~= views(parts@).skip(from as int));
    out
}

/// Whether the name set `names` contains `name`.
pub fn contains_name(names: &[String], name: &str) -> (r: bool)
    ensures
        r == has_name(names@, name@),
{
    let mut i: usize = 0;
    while i < names.len()
        invariant
            0 <= i <= names@.len(),
            forall|j: int| 0 <= j < i ==> #[trigger] names@[j]@ != name@,
        decreases names@.len() - i,
    {
        if str_eq(names[i].as_str(), name) {
            return true;
        }
        i = i + 1;
    }
    false
}

/// The partition a module-relative path belongs to and its mount target:
/// `system/<promoted>/...` and `<promoted>/...` go to the promoted partition,
/// everything else to `system`.
pub open spec fn spec_map_target(relative: Seq<char>, promoted: Seq<String>) -> (Seq<char>, Seq<char>) {
    let parts = split_all(relative);
    if parts.len() >= 2 && parts[0] == "system"@ && has_name(promoted, parts[1]) {
        (parts[1], seq!['/'] + joined(parts.skip(1)))
    } else if has_name(promoted, parts[0]) {
        (parts[0], seq!['/'] + relative)
    } else {
        ("system"@, seq!['/'] + relative)
    }
}

/// Maps a module-relative path to its `(partition, target)`.
pub fn map_target(relative: &str, promoted: &[String]) -> (r: (String, String))
    ensures
        (r.0@, r.1@) == spec_map_target(relative@, promoted@),
{
    let parts = split_parts(relative);
    proof {
        reveal_strlit("system");
        reveal_strlit("/");
    }
    if parts.len() >= 2 && str_eq(parts[0].as_str(), "system") && contains_name(promoted, parts[1].as_str()) {
        let partition = owned(parts[1].as_str());
        let mut target = owned("/");
        let rest = join_from(&parts, 1);
        append_str(&mut target, rest.as_str());
        (partition, target)
    } else if contains_name(promoted, parts[0].as_str()) {
        let mut target = owned("/");
        append_str(&mut target, relative);
        (owned(parts[0].as_str()), target)
    } else {
        let mut target = owned("/");
        append_str(&mut target, relative);
        (owned("system"), target)
    }
}

/// `key` without surrounding white space and leading `/`.
pub open spec fn spec_normalize_rule_path(key: Seq<char>) -> Seq<char> {
    strip_leading_slashes(crate::paths::trimmed(key))
}

/// `s` without its leading `/` characters.
pub open spec fn strip_leading_slashes(s: Seq<char>) -> Seq<char>
    decreases s.len(),
{
    if s.len() > 0 && s[0] == '/' {
        strip_leading_slashes(s.drop_first())
    } else {
        s
    }
}

/// A rule key as the planner compares it.
#[verifier::spinoff_prover]
#[verifier::rlimit(40)]
pub fn normalize_rule_path(key: &str) -> (r: String)
    ensures
        r@ == spec_normalize_rule_path(key@),
{
    let t = trim(key);
    let n = t.unicode_len();
    let mut i: usize = 0;
    assert(t@.skip(0) =~= t@);
    while i < n && t.get_char(i) == '/'
        invariant
            n == t@.len(),
            0 <= i <= n,
            strip_leading_slashes(t@.skip(i as int)) == strip_leading_slashes(t@),
        decreases n - i,
    {
        assert(t@.skip(i as int).drop_first() =~= t@.skip(i + 1));
        i = i + 1;
    }
    crate::text::suffix_from(t.as_str(), i)
}

/// Whether a proper `/`-prefix of `relative` is one of `overlay`.
pub open spec fn spec_has_overlay_ancestor(relative: Seq<char>, overlay: Seq<String>) -> bool {
    exists|pos: int| 0 <= pos < relative.len() && relative[pos] == '/' && #[trigger] has_name(overlay, relative.subrange(0, pos))
}

/// Whether some proper `/`-prefix of `relative` is an overlay path.
pub fn has_overlay_ancestor(relative: &str, overlay: &[String]) -> (r: bool)
    ensures
        r == spec_has_overlay_ancestor(relative@, overlay@),
{
    let n = relative.unicode_len();
    let mut pos: usize = 0;
    while pos < n
        invariant
            n == relative@.len(),
            0 <= pos <= n,
            forall|q: int| 0 <= q < pos && relative@[q] == '/' ==> !#[trigger] has_name(overlay@, relative@.subrange(0, q)),
        decreases n - pos,
    {
        if relative.get_char(pos) == '/' {
            let parent = crate::text::slice_chars(relative, 0, pos);
            if contains_name(overlay, parent.as_str()) {
                return true;
            }
        }
        pos = pos + 1;
    }
    false
}

/// One `Path::join` step with a component that holds no `/`.
pub open spec fn join_step(path: Seq<char>, component: Seq<char>) -> Seq<char> {
    if path.len() > 0 && path.last() != '/' {
        path + seq!['/'] + component
    } else {
        path + component
    }
}

/// `root` joined with each of `parts` in turn.
pub open spec fn join_all(root: Seq<char>, parts: Seq<Seq<char>>) -> Seq<char>
    decreases parts.len(),
{
    if parts.len() == 0 {
        root
    } else {
        join_step(join_all(root, parts.drop_last()), parts.last())
    }
}

/// `root` joined with every `/`-separated piece of `relative`.
pub fn join_relative(root: &str, relative: &str) -> (r: String)
    ensures
        r@ == join_all(root@, split_all(relative@)),
{
    let parts = split_parts(relative);
    let mut path = owned(root);
    let mut i: usize = 0;
    assert(views(parts@).subrange(0, 0) =~= Seq::<Seq<char>>::empty());
    while i < parts.len()
        invariant
            0 <= i <= parts@.len(),
            path@ == join_all(root@, views(parts@).subrange(0, i as int)),
        decreases parts@.len() - i,
    {
        proof {
            let pre = views(parts@).subrange(0, i + 1);
            assert(pre.drop_last() =~= views(parts@).subrange(0, i as int));
            assert(pre.last() == parts@[i as int]@);
        }
        let n = path.unicode_len();
        if n > 0 && path.as_str().get_char(n - 1) != '/' {
            push_char(&mut path, '/');
        }
        append_str(&mut path, parts[i].as_str());
        i = i + 1;
    }
    assert(views(parts@).subrange(0, parts@.len() as int) =~= views(parts@));
    path
}

/// `system/<promoted>` kept as a symlink: layout metadata, not a contribution.
pub open spec fn spec_promoted_alias(entry: ModuleEntry, promoted: Seq<String>) -> bool {
    let parts = split_all(entry.relative@);
    entry.file_type == NodeFileType::Symlink && parts.len() == 2 && parts[0] == "system"@
        && has_name(promoted, parts[1])
}

/// `<promoted>/<promoted>` self-named symlink left by older installers.
pub open spec fn spec_self_alias(entry: ModuleEntry, promoted: Seq<String>) -> bool {
    let parts = split_all(entry.relative@);
    entry.file_type == NodeFileType::Symlink && parts.len() == 2 && has_name(promoted, parts[0])
        && parts[1] == parts[0]
}

/// Whether `entry` is a promoted partition's alias under `system`.
pub fn is_promoted_partition_alias(entry: &ModuleEntry, promoted: &[String]) -> (r: bool)
    ensures
        r == spec_promoted_alias(*entry, promoted@),
{
    if entry.file_type != NodeFileType::Symlink {
        return false;
    }
    let parts = split_parts(entry.relative.as_str());
    proof {
        reveal_strlit("system");
    }
    parts.len() == 2 && str_eq(parts[0].as_str(), "system") && contains_name(promoted, parts[1].as_str())
}

/// Whether `entry` is a promoted partition's self-named symlink.
pub fn is_redundant_partition_self_alias(entry: &ModuleEntry, promoted: &[String]) -> (r: bool)
    ensures
        r == spec_self_alias(*entry, promoted@),
{
    if entry.file_type != NodeFileType::Symlink {
        return false;
    }
    let parts = split_parts(entry.relative.as_str());
    parts.len() == 2 && contains_name(promoted, parts[0].as_str()) && str_eq(parts[1].as_str(), parts[0].as_str())
}

/// Components before the first layer directory: `system/<promoted>` is two,
/// any other root one.
pub open spec fn spec_partition_root_len(parts: Seq<Seq<char>>, promoted: Seq<String>) -> int {
    if parts.len() >= 2 && parts[0] == "system"@ && has_name(promoted, parts[1]) {
        2
    } else {
        1
    }
}

/// The number of leading components that name the partition root.
pub fn partition_root_len(parts: &Vec<String>, promoted: &[String]) -> (r: usize)
    ensures
        r == spec_partition_root_len(views(parts@), promoted@),
{
    proof {
        reveal_strlit("system");
    }
    if parts.len() >= 2 && str_eq(parts[0].as_str(), "system") && contains_name(promoted, parts[1].as_str()) {
        2
    } else {
        1
    }
}

} // verus!
