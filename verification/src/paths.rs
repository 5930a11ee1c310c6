//! Slash-separated path text: components, whitespace trimming and parents.
use vstd::prelude::*;

use crate::text::{push_char, slice_chars};

verus! {

/// Unicode `White_Space`, the characters `str::trim` removes.
pub open spec fn is_space(c: char) -> bool {
    ||| c == '\t' || c == '\n' || c == '\u{0B}' || c == '\u{0C}' || c == '\r' || c == ' '
    ||| c == '\u{85}' || c == '\u{A0}' || c == '\u{1680}'
    ||| ('\u{2000}' <= c && c <= '\u{200A}')
    ||| c == '\u{2028}' || c == '\u{2029}' || c == '\u{202F}' || c == '\u{205F}' || c == '\u{3000}'
}

fn space(c: char) -> (r: bool)
    ensures
        r == is_space(c),
{
    c == '\t' || c == '\n' || c == '\u{0B}' || c == '\u{0C}' || c == '\r' || c == ' ' || c
        == '\u{85}' || c == '\u{A0}' || c == '\u{1680}' || ('\u{2000}' <= c && c <= '\u{200A}')
        || c == '\u{2028}' || c == '\u{2029}' || c == '\u{202F}' || c == '\u{205F}' || c
        == '\u{3000}'
}

/// The components of `s` left after `acc` and the partial component `cur`:
/// maximal runs of characters other than `/`, empty runs dropped.
pub open spec fn components_from(s: Seq<char>, acc: Seq<Seq<char>>, cur: Seq<char>) -> Seq<
    Seq<char>,
>
    decreases s.len(),
{
    if s.len() == 0 {
        if cur.len() > 0 {
            acc.push(cur)
        } else {
            acc
        }
    } else if s[0] == '/' {
        components_from(
            s.drop_first(),
            if cur.len() > 0 {
                acc.push(cur)
            } else {
                acc
            },
            Seq::empty(),
        )
    } else {
        components_from(s.drop_first(), acc, cur.push(s[0]))
    }
}

/// The non-empty `/`-separated components of `s`, in order.
pub open spec fn components(s: Seq<char>) -> Seq<Seq<char>> {
    components_from(s, Seq::empty(), Seq::empty())
}

/// The views of a list of strings.
pub open spec fn views(v: Seq<String>) -> Seq<Seq<char>> {
    v.map_values(|s: String| s@)
}

/// Splits `path` into its non-empty `/`-separated components.
pub fn split_components(path: &str) -> (r: Vec<String>)
    ensures
        views(r@) == components(path@),
{
    let n = path.unicode_len();
    let mut out: Vec<String> = Vec::new();
    let mut cur = String::new();
    let mut i: usize = 0;
    assert(path@.skip(0) =~= path@);
    assert(views(out@) =~= Seq::<Seq<char>>::empty());
    assert(cur@ =~= Seq::<char>::empty());
    while i < n
        invariant
            n == path@.len(),
            0 <= i <= n,
            components_from(path@.skip(i as int), views(out@), cur@) == components(path@),
        decreases n - i,
    {
        let c = path.get_char(i);
        let ghost rest = path@.skip(i as int);
        assert(rest.drop_first() =~= path@.skip(i + 1));
        if c == '/' {
            if cur.unicode_len() > 0 {
                let ghost before = out@;
                out.push(cur);
                assert(views(out@) =~= views(before).push(cur@));
                cur = String::new();
            } else {
                cur = String::new();
            }
            assert(cur@ =~= Seq::<char>::empty());
        } else {
            push_char(&mut cur, c);
        }
        i = i + 1;
    }
    if cur.unicode_len() > 0 {
        let ghost before = out@;
        out.push(cur);
        assert(views(out@) =~= views(before).push(cur@));
    }
    out
}

/// `s` without leading and trailing white space.
pub open spec fn trimmed(s: Seq<char>) -> Seq<char> {
    s.subrange(trim_start(s), trim_end(s))
}

/// Index of the first non-space character, or the length.
pub open spec fn trim_start(s: Seq<char>) -> int {
    if exists|i: int| 0 <= i < s.len() && !is_space(#[trigger] s[i]) {
        choose|i: int|
            0 <= i < s.len() && !is_space(s[i]) && forall|j: int| 0 <= j < i ==> is_space(#[trigger] s[j])
    } else {
        s.len() as int
    }
}

/// One past the last non-space character, at least `trim_start(s)`.
pub open spec fn trim_end(s: Seq<char>) -> int {
    if exists|i: int| 0 <= i < s.len() && !is_space(#[trigger] s[i]) {
        1 + choose|i: int|
            0 <= i < s.len() && !is_space(s[i]) && forall|j: int| i < j < s.len() ==> is_space(#[trigger] s[j])
    } else {
        s.len() as int
    }
}

/// `s` without leading and trailing white space (`str::trim`).
pub fn trim(s: &str) -> (r: String)
    ensures
        r@ == trimmed(s@),
{
    let n = s.unicode_len();
    let mut a: usize = 0;
    while a < n && space(s.get_char(a))
        invariant
            n == s@.len(),
            0 <= a <= n,
            forall|j: int| 0 <= j < a ==> is_space(#[trigger] s@[j]),
        decreases n - a,
    {
        a = a + 1;
    }
    if a == n {
        assert(!exists|i: int| 0 <= i < s@.len() && !is_space(#[trigger] s@[i]));
        assert(s@.subrange(n as int, n as int) =~= Seq::<char>::empty());
        return String::new();
    }
    let mut b: usize = n;
    while b > a && space(s.get_char(b - 1))
        invariant
            n == s@.len(),
            a < n,
            !is_space(s@[a as int]),
            a <= b <= n,
            forall|j: int| b <= j < n ==> is_space(#[trigger] s@[j]),
        decreases b,
    {
        b = b - 1;
    }
    proof {
        let first = choose|i: int|
            0 <= i < s@.len() && !is_space(s@[i]) && forall|j: int| 0 <= j < i ==> is_space(#[trigger] s@[j]);
        assert(first == a as int) by {
            if first < a {
            } else if first > a {
            }
        }
        assert(0 <= b - 1 < s@.len() && !is_space(s@[b - 1]) && forall|j: int|
            b - 1 < j < s@.len() ==> is_space(#[trigger] s@[j]));
        let last = choose|i: int|
            0 <= i < s@.len() && !is_space(s@[i]) && forall|j: int| i < j < s@.len() ==> is_space(#[trigger] s@[j]);
        assert(last == b - 1) by {
            if last < b - 1 {
            } else if last > b - 1 {
            }
        }
    }
    slice_chars(s, a, b)
}

/// `s` with trailing `/` removed, keeping a lone leading `/`.
pub open spec fn strip_trailing(s: Seq<char>) -> Seq<char>
    decreases s.len(),
{
    if s.len() > 1 && s.last() == '/' {
        strip_trailing(s.drop_last())
    } else {
        s
    }
}

/// The parent of a plain path: everything before its last component, the
/// root `/` kept; a path with no `/` has the empty parent, and `/` is its own.
pub open spec fn parent_of(s: Seq<char>) -> Seq<char> {
    let t = strip_trailing(s);
    if t =~= seq!['/'] {
        t
    } else if exists|i: int| 0 <= i < t.len() && t[i] == '/' {
        let i = choose|i: int|
            0 <= i < t.len() && t[i] == '/' && forall|j: int| i < j < t.len() ==> t[j] != '/';
        if i == 0 {
            seq!['/']
        } else {
            strip_trailing(t.subrange(0, i))
        }
    } else {
        Seq::empty()
    }
}

fn strip_trailing_slashes(s: &str) -> (r: usize)
    ensures
        r <= s@.len(),
        s@.subrange(0, r as int) == strip_trailing(s@),
{
    let mut e = s.unicode_len();
    assert(s@.subrange(0, e as int) =~= s@);
    while e > 1 && s.get_char(e - 1) == '/'
        invariant
            e <= s@.len(),
            strip_trailing(s@.subrange(0, e as int)) == strip_trailing(s@),
        decreases e,
    {
        assert(s@.subrange(0, e as int).drop_last() =~= s@.subrange(0, e - 1));
        e = e - 1;
    }
    e
}

/// The parent directory of `path` (`PathBuf::pop` for plain paths).
pub fn parent_path(path: &str) -> (r: String)
    ensures
        r@ == parent_of(path@),
{
    let e = strip_trailing_slashes(path);
    let t = slice_chars(path, 0, e);
    if e == 1 && path.get_char(0) == '/' {
        assert(t@ =~= seq!['/']);
        return t;
    }
    let mut i: usize = e;
    while i > 0 && path.get_char(i - 1) != '/'
        invariant
            e <= path@.len(),
            t@ == path@.subrange(0, e as int),
            0 <= i <= e,
            forall|j: int| i <= j < e ==> t@[j] != '/',
        decreases i,
    {
        i = i - 1;
    }
    if i == 0 {
        assert(!exists|k: int| 0 <= k < t@.len() && t@[k] == '/');
        assert(!(t@ =~= seq!['/'])) by {
            if t@ =~= seq!['/'] {
                assert(t@[0] == '/');
            }
        }
        return String::new();
    }
    proof {
        let k = i - 1;
        assert(t@[k] == '/');
        let c = choose|c: int|
            0 <= c < t@.len() && t@[c] == '/' && forall|j: int| c < j < t@.len() ==> t@[j] != '/';
        assert(c == k) by {
            if c < k {
            } else if c > k {
            }
        }
        assert(!(t@ =~= seq!['/'])) by {
            if t@ =~= seq!['/'] {
                assert(e == 1);
            }
        }
    }
    if i == 1 {
        let mut root = String::new();
        push_char(&mut root, '/');
        assert(root@ =~= seq!['/']);
        return root;
    }
    let head = slice_chars(path, 0, i - 1);
    let f = strip_trailing_slashes(head.as_str());
    assert(t@.subrange(0, i - 1) =~= head@);
    slice_chars(head.as_str(), 0, f)
}

} // verus!
