//! Character-level string helpers shared by the path, option and report code.
//!
//! Paths and names are handled as sequences of Unicode scalar values; the
//! ordering used for sorting is the code-point lexicographic order, which is
//! the order `str::cmp` gives for UTF-8 text.
use vstd::prelude::*;
use vstd::string::*;

verus! {

/// Code-point lexicographic "strictly less than" on character sequences.
pub open spec fn lex_lt(a: Seq<char>, b: Seq<char>) -> bool
    decreases a.len(),
{
    if a.len() == 0 {
        b.len() > 0
    } else if b.len() == 0 {
        false
    } else if a[0] != b[0] {
        (a[0] as int) < (b[0] as int)
    } else {
        lex_lt(a.drop_first(), b.drop_first())
    }
}

/// Lexicographic "less than or equal".
pub open spec fn lex_le(a: Seq<char>, b: Seq<char>) -> bool {
    a == b || lex_lt(a, b)
}

pub proof fn lemma_lex_irreflexive(a: Seq<char>)
    ensures
        !lex_lt(a, a),
    decreases a.len(),
{
    if a.len() > 0 {
        lemma_lex_irreflexive(a.drop_first());
    }
}

pub proof fn lemma_lex_transitive(a: Seq<char>, b: Seq<char>, c: Seq<char>)
    requires
        lex_lt(a, b),
        lex_lt(b, c),
    ensures
        lex_lt(a, c),
    decreases a.len(),
{
    if a.len() > 0 && b.len() > 0 && c.len() > 0 {
        if a[0] == b[0] && b[0] == c[0] {
            lemma_lex_transitive(a.drop_first(), b.drop_first(), c.drop_first());
        }
    }
}

pub proof fn lemma_lex_total(a: Seq<char>, b: Seq<char>)
    ensures
        a == b || lex_lt(a, b) || lex_lt(b, a),
    decreases a.len(),
{
    if a.len() > 0 && b.len() > 0 {
        if a[0] == b[0] {
            lemma_lex_total(a.drop_first(), b.drop_first());
            if a.drop_first() == b.drop_first() {
                assert(a =~= seq![a[0]] + a.drop_first());
                assert(b =~= seq![b[0]] + b.drop_first());
            }
        } else {
            assert((a[0] as int) != (b[0] as int));
        }
    } else if a.len() == 0 && b.len() == 0 {
        assert(a =~= b);
    }
}

pub proof fn lemma_lex_asymmetric(a: Seq<char>, b: Seq<char>)
    requires
        lex_lt(a, b),
    ensures
        !lex_lt(b, a),
        a != b,
{
    if lex_lt(b, a) {
        lemma_lex_transitive(a, b, a);
        lemma_lex_irreflexive(a);
    }
    if a == b {
        lemma_lex_irreflexive(a);
    }
}

/// Skipping a common prefix does not change the lexicographic comparison.
proof fn lemma_lex_skip(a: Seq<char>, b: Seq<char>, i: int)
    requires
        0 <= i <= a.len(),
        i <= b.len(),
        a.subrange(0, i) == b.subrange(0, i),
    ensures
        lex_lt(a, b) == lex_lt(a.skip(i), b.skip(i)),
    decreases i,
{
    if i > 0 {
        assert(a[0] == a.subrange(0, i)[0]);
        assert(b[0] == b.subrange(0, i)[0]);
        assert(a.drop_first().subrange(0, i - 1) =~= a.subrange(0, i).drop_first());
        assert(b.drop_first().subrange(0, i - 1) =~= b.subrange(0, i).drop_first());
        lemma_lex_skip(a.drop_first(), b.drop_first(), i - 1);
        assert(a.drop_first().skip(i - 1) =~= a.skip(i));
        assert(b.drop_first().skip(i - 1) =~= b.skip(i));
    } else {
        assert(a.skip(0) =~= a);
        assert(b.skip(0) =~= b);
    }
}

/// Whether `s` begins with `prefix`.
pub open spec fn has_prefix(s: Seq<char>, prefix: Seq<char>) -> bool {
    prefix.len() <= s.len() && s.subrange(0, prefix.len() as int) == prefix
}

/// The number of occurrences of `c` in `s`.
pub open spec fn count_char(s: Seq<char>, c: char) -> nat
    decreases s.len(),
{
    if s.len() == 0 {
        0
    } else {
        count_char(s.drop_last(), c) + if s.last() == c { 1nat } else { 0nat }
    }
}

/// Decimal rendering of an unsigned integer, most significant digit first.
pub open spec fn decimal(n: nat) -> Seq<char>
    decreases n,
{
    if n < 10 {
        seq![digit_char(n)]
    } else {
        decimal(n / 10).push(digit_char(n % 10))
    }
}

pub open spec fn digit_char(d: nat) -> char {
    if d == 0 { '0' }
    else if d == 1 { '1' }
    else if d == 2 { '2' }
    else if d == 3 { '3' }
    else if d == 4 { '4' }
    else if d == 5 { '5' }
    else if d == 6 { '6' }
    else if d == 7 { '7' }
    else if d == 8 { '8' }
    else { '9' }
}

/// Appends one character to a string (`String::push`).
#[verifier::external_body]
pub fn push_char(s: &mut String, c: char)
    ensures
        final(s)@ == old(s)@.push(c),
{
    s.push(c);
}

/// An owned copy of `s`.
pub fn owned(s: &str) -> (r: String)
    ensures
        r@ == s@,
{
    s.to_owned()
}

/// Number of characters in `s`.
pub fn char_len(s: &str) -> (n: usize)
    ensures
        n == s@.len(),
{
    s.unicode_len()
}

/// Character equality of two strings.
pub fn str_eq(a: &str, b: &str) -> (r: bool)
    ensures
        r == (a@ == b@),
{
    let n = a.unicode_len();
    let m = b.unicode_len();
    if n != m {
        return false;
    }
    let mut i: usize = 0;
    while i < n
        invariant
            n == a@.len(),
            m == b@.len(),
            n == m,
            0 <= i <= n,
            forall|k: int| 0 <= k < i ==> a@[k] == b@[k],
        decreases n - i,
    {
        if a.get_char(i) != b.get_char(i) {
            return false;
        }
        i = i + 1;
    }
    assert(a@ =~= b@);
    true
}

/// Code-point lexicographic comparison: `a < b`.
pub fn str_lt(a: &str, b: &str) -> (r: bool)
    ensures
        r == lex_lt(a@, b@),
{
    let n = a.unicode_len();
    let m = b.unicode_len();
    let mut i: usize = 0;
    while i < n && i < m
        invariant
            n == a@.len(),
            m == b@.len(),
            0 <= i <= n,
            i <= m,
            a@.subrange(0, i as int) == b@.subrange(0, i as int),
        decreases n - i,
    {
        let x = a.get_char(i);
        let y = b.get_char(i);
        if x != y {
            proof {
                lemma_lex_skip(a@, b@, i as int);
                assert(a@.skip(i as int)[0] == x);
                assert(b@.skip(i as int)[0] == y);
            }
            return (x as u32) < (y as u32);
        }
        assert(a@.subrange(0, i + 1) =~= a@.subrange(0, i as int).push(x));
        assert(b@.subrange(0, i + 1) =~= b@.subrange(0, i as int).push(y));
        i = i + 1;
    }
    proof {
        lemma_lex_skip(a@, b@, i as int);
    }
    i < m && i == n
}

/// Whether `s` starts with `prefix`.
pub fn starts_with(s: &str, prefix: &str) -> (r: bool)
    ensures
        r == has_prefix(s@, prefix@),
{
    let n = s.unicode_len();
    let p = prefix.unicode_len();
    if p > n {
        return false;
    }
    let mut i: usize = 0;
    while i < p
        invariant
            n == s@.len(),
            p == prefix@.len(),
            p <= n,
            0 <= i <= p,
            forall|k: int| 0 <= k < i ==> s@[k] == prefix@[k],
        decreases p - i,
    {
        if s.get_char(i) != prefix.get_char(i) {
            return false;
        }
        i = i + 1;
    }
    assert(s@.subrange(0, p as int) =~= prefix@);
    true
}

/// The characters of `s` from `from` to the end, as an owned string.
pub fn suffix_from(s: &str, from: usize) -> (r: String)
    requires
        from <= s@.len(),
    ensures
        r@ == s@.skip(from as int),
{
    let n = s.unicode_len();
    let sub = s.substring_char(from, n);
    assert(s@.subrange(from as int, n as int) =~= s@.skip(from as int));
    sub.to_owned()
}

/// The characters of `s` in `[from, to)`, as an owned string.
pub fn slice_chars(s: &str, from: usize, to: usize) -> (r: String)
    requires
        from <= to <= s@.len(),
    ensures
        r@ == s@.subrange(from as int, to as int),
{
    let sub = s.substring_char(from, to);
    sub.to_owned()
}

/// Appends `t` to `s`.
pub fn append_str(s: &mut String, t: &str)
    ensures
        final(s)@ == old(s)@ + t@,
{
    s.append(t);
}

/// The decimal text of `n`.
pub fn u64_decimal(n: u64) -> (r: String)
    ensures
        r@ == decimal(n as nat),
    decreases n,
{
    let d = n % 10;
    let c = if d == 0 { '0' } else if d == 1 { '1' } else if d == 2 { '2' } else if d == 3 {
        '3'
    } else if d == 4 { '4' } else if d == 5 { '5' } else if d == 6 { '6' } else if d == 7 {
        '7'
    } else if d == 8 { '8' } else { '9' };
    if n < 10 {
        let mut r = String::new();
        push_char(&mut r, c);
        assert(r@ =~= seq![digit_char(n as nat)]);
        r
    } else {
        let mut r = u64_decimal(n / 10);
        push_char(&mut r, c);
        r
    }
}

/// The number of occurrences of `c` in `s`.
pub fn count_occurrences(s: &str, c: char) -> (r: usize)
    ensures
        r == count_char(s@, c),
{
    let n = s.unicode_len();
    let mut i: usize = 0;
    let mut count: usize = 0;
    while i < n
        invariant
            n == s@.len(),
            0 <= i <= n,
            count == count_char(s@.subrange(0, i as int), c),
            count <= i,
        decreases n - i,
    {
        let x = s.get_char(i);
        assert(s@.subrange(0, i + 1).drop_last() =~= s@.subrange(0, i as int));
        if x == c {
            count = count + 1;
        }
        i = i + 1;
    }
    assert(s@.subrange(0, n as int) =~= s@);
    count
}


/// Strictly increasing in code-point order, hence free of duplicates.
pub open spec fn sorted_names(v: Seq<String>) -> bool {
    forall|i: int, j: int| 0 <= i < j < v.len() ==> lex_lt(#[trigger] v[i]@, #[trigger] v[j]@)
}

/// Two strictly ordered name lists that hold the same names are the same list.
pub proof fn lemma_sorted_names_unique(a: Seq<String>, b: Seq<String>)
    requires
        sorted_names(a),
        sorted_names(b),
        forall|x: Seq<char>| #[trigger] has_name(a, x) <==> has_name(b, x),
    ensures
        a.len() == b.len(),
        forall|i: int| 0 <= i < a.len() ==> #[trigger] a[i]@ == b[i]@,
    decreases a.len(),
{
    if a.len() == 0 {
        if b.len() > 0 {
            assert(has_name(b, b[0]@));
            assert(!has_name(a, b[0]@));
        }
    } else if b.len() == 0 {
        assert(has_name(a, a[0]@));
        assert(!has_name(b, a[0]@));
    } else {
        assert(has_name(a, a[0]@));
        assert(has_name(b, b[0]@));
        assert(has_name(a, b[0]@));
        assert(has_name(b, a[0]@));
        let j = choose|j: int| 0 <= j < b.len() && #[trigger] b[j]@ == a[0]@;
        let i = choose|i: int| 0 <= i < a.len() && #[trigger] a[i]@ == b[0]@;
        if j > 0 {
            assert(lex_lt(b[0]@, b[j]@));
            if i > 0 {
                assert(lex_lt(a[0]@, a[i]@));
                lemma_lex_transitive(a[0]@, b[0]@, a[0]@);
            }
            lemma_lex_irreflexive(a[0]@);
        }
        assert(a[0]@ == b[0]@);
        let a1 = a.drop_first();
        let b1 = b.drop_first();
        assert forall|x: Seq<char>| #[trigger] has_name(a1, x) <==> has_name(b1, x) by {
            if has_name(a1, x) {
                let k = choose|k: int| 0 <= k < a1.len() && #[trigger] a1[k]@ == x;
                assert(a[k + 1]@ == x);
                assert(lex_lt(a[0]@, a[k + 1]@));
                lemma_lex_irreflexive(x);
                assert(has_name(a, x));
                let q = choose|q: int| 0 <= q < b.len() && #[trigger] b[q]@ == x;
                assert(q != 0);
                assert(b1[q - 1]@ == x);
            }
            if has_name(b1, x) {
                let k = choose|k: int| 0 <= k < b1.len() && #[trigger] b1[k]@ == x;
                assert(b[k + 1]@ == x);
                assert(lex_lt(b[0]@, b[k + 1]@));
                lemma_lex_irreflexive(x);
                assert(has_name(b, x));
                assert(has_name(a, x));
                let q = choose|q: int| 0 <= q < a.len() && #[trigger] a[q]@ == x;
                assert(q != 0);
                assert(a1[q - 1]@ == x);
            }
        }
        lemma_sorted_names_unique(a1, b1);
        assert forall|i: int| 0 <= i < a.len() implies #[trigger] a[i]@ == b[i]@ by {
            if i > 0 {
                assert(a1[i - 1]@ == b1[i - 1]@);
            }
        }
    }
}

/// Whether some element of `v` reads `name`.
pub open spec fn has_name(v: Seq<String>, name: Seq<char>) -> bool {
    exists|i: int| 0 <= i < v.len() && #[trigger] v[i]@ == name
}

/// Inserts `name` into a strictly ordered list of names unless it is there.
pub fn insert_name(v: &mut Vec<String>, name: &str)
    requires
        sorted_names(old(v)@),
    ensures
        sorted_names(final(v)@),
        forall|x: Seq<char>| #[trigger] has_name(final(v)@, x) <==> has_name(old(v)@, x) || x == name@,
{
    let mut p: usize = 0;
    while p < v.len() && str_lt(v[p].as_str(), name)
        invariant
            0 <= p <= v@.len(),
            v@ == old(v)@,
            sorted_names(v@),
            forall|k: int| 0 <= k < p ==> lex_lt(#[trigger] v@[k]@, name@),
        decreases v@.len() - p,
    {
        p = p + 1;
    }
    if p < v.len() && str_eq(v[p].as_str(), name) {
        assert forall|x: Seq<char>| #[trigger] has_name(v@, x) <==> has_name(old(v)@, x) || x == name@ by {
            if x == name@ {
                assert(v@[p as int]@ == x);
            }
        }
        return;
    }
    let ghost prev = v@;
    proof {
        if p < prev.len() {
            lemma_lex_total(prev[p as int]@, name@);
        }
    }
    v.insert(p, owned(name));
    proof {
        assert(v@ =~= prev.insert(p as int, v@[p as int]));
        assert forall|i: int, j: int| 0 <= i < j < v@.len() implies lex_lt(#[trigger] v@[i]@, #[trigger] v@[j]@) by {
            if j < p {
            } else if j == p {
            } else if i < p {
                assert(v@[j] == prev[j - 1]);
                if j - 1 > p {
                    lemma_lex_transitive(name@, prev[p as int]@, prev[j - 1]@);
                }
                lemma_lex_transitive(v@[i]@, name@, v@[j]@);
            } else if i == p {
                assert(v@[j] == prev[j - 1]);
                if j - 1 > p {
                    lemma_lex_transitive(name@, prev[p as int]@, prev[j - 1]@);
                }
            } else {
                assert(v@[i] == prev[i - 1] && v@[j] == prev[j - 1]);
            }
        }
        assert forall|x: Seq<char>| #[trigger] has_name(v@, x) <==> has_name(prev, x) || x == name@ by {
            if has_name(v@, x) {
                let k = choose|k: int| 0 <= k < v@.len() && #[trigger] v@[k]@ == x;
                if k < p {
                    assert(prev[k]@ == x);
                } else if k > p {
                    assert(prev[k - 1]@ == x);
                }
            }
            if has_name(prev, x) {
                let k = choose|k: int| 0 <= k < prev.len() && #[trigger] prev[k]@ == x;
                if k < p {
                    assert(v@[k]@ == x);
                } else {
                    assert(v@[k + 1]@ == x);
                }
            }
            if x == name@ {
                assert(v@[p as int]@ == x);
            }
        }
    }
}

} // verus!
