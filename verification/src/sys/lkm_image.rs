//! In-memory adaptation of a packaged kernel module image: its metadata,
//! its unresolved symbols, a rewritten version magic, and the one retry
//! that an explicit version magic rejection allows. The packaged file is
//! never rewritten.
use vstd::prelude::*;

use object::{Object, ObjectSection, ObjectSymbol};
use vstd::string::StringSliceAdditionalSpecFns;

use crate::text::{append_str, owned, push_char};

verus! {

// ---------------------------------------------------------------------------
// Bytes

/// `n` little-endian bytes of `v`.
pub open spec fn le_seq(v: nat, n: nat) -> Seq<u8>
    decreases n,
{
    if n == 0 {
        Seq::empty()
    } else {
        seq![(v % 256) as u8] + le_seq(v / 256, (n - 1) as nat)
    }
}

pub proof fn lemma_le_seq_len(v: nat, n: nat)
    ensures
        le_seq(v, n).len() == n,
    decreases n,
{
    if n > 0 {
        lemma_le_seq_len(v / 256, (n - 1) as nat);
    }
}

/// The value of little-endian bytes.
pub open spec fn le_value(b: Seq<u8>) -> nat
    decreases b.len(),
{
    if b.len() == 0 {
        0
    } else {
        b[0] as nat + 256 * le_value(b.skip(1))
    }
}

/// The eight little-endian bytes of `v`.
fn u64_le(v: u64) -> (r: Vec<u8>)
    ensures
        r@ == le_seq(v as nat, 8),
        r@.len() == 8,
{
    proof {
        lemma_le_seq_len(v as nat, 8);
    }
    let mut r: Vec<u8> = Vec::new();
    let mut rest: u64 = v;
    let mut k: usize = 0;
    while k < 8
        invariant
            0 <= k <= 8,
            r@ + le_seq(rest as nat, (8 - k) as nat) == le_seq(v as nat, 8),
        decreases 8 - k,
    {
        let ghost before = r@;
        r.push((rest % 256) as u8);
        proof {
            assert(le_seq(rest as nat, (8 - k) as nat) == seq![(rest % 256) as u8] + le_seq((rest / 256) as nat, (8 - k - 1) as nat));
            assert(r@ + le_seq((rest / 256) as nat, (8 - k - 1) as nat) =~= before + le_seq(rest as nat, (8 - k) as nat));
        }
        rest = rest / 256;
        k = k + 1;
    }
    assert(le_seq(rest as nat, 0) =~= Seq::<u8>::empty());
    assert(r@ =~= r@ + Seq::<u8>::empty());
    r
}

/// The little-endian value of `b[from..from + 8]`.
fn read_u64_le(b: &[u8], from: usize) -> (r: u64)
    requires
        from + 8 <= b@.len(),
    ensures
        r as nat == le_value(b@.subrange(from as int, from + 8)),
{
    let n = b.len();
    let mut acc: u64 = 0;
    let mut k: usize = 8;
    while k > 0
        invariant
            n == b@.len(),
            0 <= k <= 8,
            from + 8 <= b@.len(),
            acc as nat == le_value(b@.subrange(from + k, from + 8)),
            (acc as nat) < pow256((8 - k) as nat),
        decreases k,
    {
        let ghost tail = b@.subrange(from + k, from + 8);
        let ghost whole = b@.subrange(from + k - 1, from + 8);
        assert(whole.skip(1) =~= tail);
        assert(whole[0] == b@[from + k - 1]);
        proof {
            lemma_pow256_step((8 - k) as nat);
            assert(acc * 256 + 255 < pow256((8 - k + 1) as nat)) by (nonlinear_arith)
                requires
                    acc < pow256((8 - k) as nat),
                    pow256((8 - k + 1) as nat) == 256 * pow256((8 - k) as nat);
            lemma_pow256_bound((8 - k + 1) as nat);
        }
        acc = acc * 256 + b[from + (k - 1)] as u64;
        k = k - 1;
    }
    acc
}

/// `256` to the power `n`.
pub open spec fn pow256(n: nat) -> nat
    decreases n,
{
    if n == 0 {
        1
    } else {
        256 * pow256((n - 1) as nat)
    }
}

proof fn lemma_pow256_step(n: nat)
    ensures
        pow256(n + 1) == 256 * pow256(n),
{
}

proof fn lemma_pow256_bound(n: nat)
    requires
        n <= 8,
    ensures
        pow256(n) <= 0x1_0000_0000_0000_0000,
    decreases n,
{
    if n > 0 {
        lemma_pow256_bound((n - 1) as nat);
        if n < 8 {
            lemma_pow256_mono((n - 1) as nat);
        }
        reveal_with_fuel(pow256, 9);
    }
}

proof fn lemma_pow256_mono(n: nat)
    requires
        n < 8,
    ensures
        pow256(n) <= pow256(7),
    decreases 7 - n,
{
    if n < 7 {
        lemma_pow256_mono(n + 1);
    }
}

/// `b` with `src` written over it from `at`.
pub open spec fn overwrite(b: Seq<u8>, at: int, src: Seq<u8>) -> Seq<u8> {
    b.take(at) + src + b.skip(at + src.len())
}

/// Writes `src` over `b` from `at`.
fn write_at(b: &mut Vec<u8>, at: usize, src: &[u8])
    requires
        at + src@.len() <= old(b)@.len(),
    ensures
        final(b)@ == overwrite(old(b)@, at as int, src@),
{
    let ghost start = b@;
    let n = b.len();
    let mut k: usize = 0;
    while k < src.len()
        invariant
            n == start.len(),
            at + src@.len() <= start.len(),
            b@.len() == start.len(),
            0 <= k <= src@.len(),
            forall|p: int| 0 <= p < b@.len() ==> #[trigger] b@[p] == if at <= p < at + k { src@[p - at] } else { start[p] },
        decreases src@.len() - k,
    {
        b.set(at + k, src[k]);
        k = k + 1;
    }
    assert(b@ =~= overwrite(start, at as int, src@));
}

// ---------------------------------------------------------------------------
// Module metadata

/// The index of the first zero byte of `s` at or after `i`, or its length.
pub open spec fn zero_at(s: Seq<u8>, i: int) -> int
    decreases s.len() - i,
{
    if i >= s.len() {
        s.len() as int
    } else if s[i] == 0 {
        i
    } else {
        zero_at(s, i + 1)
    }
}

/// The pieces of `s[i..]` between zero bytes; the last piece may be empty.
pub open spec fn pieces_from(s: Seq<u8>, i: int) -> Seq<Seq<u8>>
    decreases s.len() - i,
{
    if i > s.len() || i < 0 {
        Seq::empty()
    } else {
        let e = zero_at(s, i);
        proof {
            lemma_zero_at(s, i);
        }
        if e >= s.len() {
            seq![s.subrange(i, s.len() as int)]
        } else {
            seq![s.subrange(i, e)] + pieces_from(s, e + 1)
        }
    }
}

pub proof fn lemma_zero_at(s: Seq<u8>, i: int)
    requires
        0 <= i <= s.len(),
    ensures
        i <= zero_at(s, i) <= s.len(),
        zero_at(s, i) < s.len() ==> s[zero_at(s, i)] == 0,
        forall|k: int| i <= k < zero_at(s, i) ==> s[k] != 0,
    decreases s.len() - i,
{
    if i < s.len() && s[i] != 0 {
        lemma_zero_at(s, i + 1);
    }
}

/// The bytes of `name=`-style keys.
pub open spec fn key_bytes(key: Seq<char>) -> Seq<u8> {
    Seq::new(key.len(), |i: int| key[i] as u8)
}

/// The value after `prefix` in the first piece that starts with it.
pub open spec fn first_field(pieces: Seq<Seq<u8>>, prefix: Seq<u8>) -> Option<Seq<u8>>
    decreases pieces.len(),
{
    if pieces.len() == 0 {
        None
    } else if prefix.len() <= pieces[0].len() && pieces[0].take(prefix.len() as int) == prefix {
        Some(pieces[0].skip(prefix.len() as int))
    } else {
        first_field(pieces.skip(1), prefix)
    }
}

/// The metadata entries that survive a version magic rewrite, each ended
/// by a zero byte.
pub open spec fn kept_metadata(pieces: Seq<Seq<u8>>) -> Seq<u8>
    decreases pieces.len(),
{
    if pieces.len() == 0 {
        Seq::empty()
    } else {
        let p = pieces.last();
        let keep = p.len() > 0 && !(9 <= p.len() && p.take(9) == key_bytes("vermagic="@));
        kept_metadata(pieces.drop_last()) + if keep { p.push(0) } else { Seq::empty() }
    }
}

/// Whether `b` starts with `prefix`.
fn bytes_start_with(b: &[u8], from: usize, to: usize, prefix: &[u8]) -> (r: bool)
    requires
        from <= to <= b@.len(),
    ensures
        r == (prefix@.len() <= to - from && b@.subrange(from as int, to as int).take(prefix@.len() as int) == prefix@),
{
    if prefix.len() > to - from {
        return false;
    }
    let mut k: usize = 0;
    while k < prefix.len()
        invariant
            from <= to <= b@.len(),
            prefix@.len() <= to - from,
            0 <= k <= prefix@.len(),
            forall|q: int| 0 <= q < k ==> b@[from + q] == prefix@[q],
        decreases prefix@.len() - k,
    {
        if b[from + k] != prefix[k] {
            assert(b@.subrange(from as int, to as int).take(prefix@.len() as int)[k as int] != prefix@[k as int]);
            return false;
        }
        k = k + 1;
    }
    assert(b@.subrange(from as int, to as int).take(prefix@.len() as int) =~= prefix@);
    true
}

/// The bytes of `s`, an ASCII key.
fn ascii_key(s: &str) -> (r: Vec<u8>)
    requires
        forall|i: int| 0 <= i < s@.len() ==> (s@[i] as u32) < 128,
    ensures
        r@ == key_bytes(s@),
{
    let n = crate::text::char_len(s);
    let mut r: Vec<u8> = Vec::new();
    let mut k: usize = 0;
    while k < n
        invariant
            n == s@.len(),
            forall|i: int| 0 <= i < s@.len() ==> (s@[i] as u32) < 128,
            0 <= k <= n,
            r@ == key_bytes(s@).take(k as int),
        decreases n - k,
    {
        let c = s.get_char(k);
        r.push(c as u8);
        assert(r@ =~= key_bytes(s@).take(k + 1));
        k = k + 1;
    }
    assert(key_bytes(s@).take(n as int) =~= key_bytes(s@));
    r
}

/// The metadata entries of `modinfo` that survive a version magic rewrite.
fn surviving_metadata(modinfo: &[u8], vermagic_key: &[u8]) -> (r: Vec<u8>)
    requires
        vermagic_key@ == key_bytes("vermagic="@),
    ensures
        r@ == kept_metadata(pieces_from(modinfo@, 0)),
{
    let ghost s = modinfo@;
    let mut out: Vec<u8> = Vec::new();
    let mut start: usize = 0;
    let ghost mut done: Seq<Seq<u8>> = Seq::empty();
    proof {
        reveal_strlit("vermagic=");
    }
    loop
        invariant
            s == modinfo@,
            vermagic_key@ == key_bytes("vermagic="@),
            key_bytes("vermagic="@).len() == 9,
            0 <= start <= s.len(),
            done + pieces_from(s, start as int) == pieces_from(s, 0),
            out@ == kept_metadata(done),
        decreases s.len() - start,
    {
        let mut e = start;
        while e < modinfo.len() && modinfo[e] != 0
            invariant
                start <= e <= s.len(),
                s == modinfo@,
                forall|k: int| start <= k < e ==> s[k] != 0,
            decreases s.len() - e,
        {
            e = e + 1;
        }
        proof {
            lemma_zero_at(s, start as int);
            assert(zero_at(s, start as int) == e as int) by {
                lemma_zero_at_is(s, start as int, e as int);
            }
        }
        let ghost piece = s.subrange(start as int, e as int);
        let keep = e > start && !bytes_start_with(modinfo, start, e, vermagic_key);
        if keep {
            let mut k = start;
            while k < e
                invariant
                    start <= k <= e <= s.len(),
                    s == modinfo@,
                    out@ == kept_metadata(done) + s.subrange(start as int, k as int),
                decreases e - k,
            {
                out.push(modinfo[k]);
                assert(s.subrange(start as int, k + 1) =~= s.subrange(start as int, k as int).push(s[k as int]));
                k = k + 1;
            }
            out.push(0);
        }
        proof {
            let nd = done.push(piece);
            assert(nd.drop_last() =~= done);
            assert(out@ =~= kept_metadata(nd));
            done = nd;
        }
        if e >= modinfo.len() {
            proof {
                assert(pieces_from(s, start as int) =~= seq![piece]);
            }
            assert(done =~= pieces_from(s, 0));
            return out;
        }
        proof {
            assert(pieces_from(s, start as int) == seq![piece] + pieces_from(s, e + 1));
            assert(done + pieces_from(s, e + 1) =~= done.drop_last() + pieces_from(s, start as int));
        }
        start = e + 1;
    }
}

proof fn lemma_zero_at_is(s: Seq<u8>, i: int, e: int)
    requires
        0 <= i <= e <= s.len(),
        forall|k: int| i <= k < e ==> s[k] != 0,
        e == s.len() || s[e] == 0,
    ensures
        zero_at(s, i) == e,
    decreases e - i,
{
    if i < e {
        lemma_zero_at_is(s, i + 1, e);
    }
}


/// Whether `a` is a power of two.
pub open spec fn is_pow2(a: nat) -> bool
    decreases a,
{
    if a == 1 {
        true
    } else if a < 2 || a % 2 != 0 {
        false
    } else {
        is_pow2(a / 2)
    }
}

fn power_of_two(a: u64) -> (r: bool)
    ensures
        r == is_pow2(a as nat),
{
    let mut v = a;
    while v >= 2 && v % 2 == 0
        invariant
            is_pow2(a as nat) == is_pow2(v as nat),
        decreases v,
    {
        v = v / 2;
    }
    v == 1
}

/// `n` rounded up to a multiple of `a`.
pub open spec fn round_up(n: nat, a: nat) -> nat {
    (((n + a - 1) as nat) / a) * a
}

/// A module image and what its checks learnt of it.
pub struct ModuleImage {
    pub bytes: Vec<u8>,
    pub name: String,
    pub vermagic: String,
    /// Byte offset of the metadata section's header.
    pub modinfo_header: usize,
    /// Alignment of the metadata section.
    pub modinfo_alignment: usize,
    /// The metadata section as it was packaged.
    pub modinfo: Vec<u8>,
    /// The unresolved symbols, each with the offset of its symbol table entry.
    pub undefined: Vec<(String, usize)>,
}

/// Why an insertion attempt failed: the OS error code, when there is one,
/// and the error's text.
pub struct InsertError {
    pub os_code: Option<i32>,
    pub text: String,
}

impl ModuleImage {
    /// The image's layout facts hold for its bytes: the metadata header and
    /// every unresolved symbol entry lie inside them.
    pub open spec fn wf(&self) -> bool {
        &&& is_pow2(self.modinfo_alignment as nat)
        &&& self.modinfo_alignment <= 64 * 1024 * 1024
        &&& self.modinfo_header + 64 <= self.bytes@.len()
        &&& forall|i: int| 0 <= i < self.undefined@.len() ==> #[trigger] self.undefined@[i].1 + 24 <= self.bytes@.len()
    }
}

/// The metadata that a rewrite with version magic `required` (as bytes)
/// appends.
pub open spec fn rewritten_metadata(modinfo: Seq<u8>, required: Seq<u8>) -> Seq<u8> {
    kept_metadata(pieces_from(modinfo, 0)) + key_bytes("vermagic="@) + required + seq![0u8]
}

/// The image bytes after appending `md` at the next multiple of the
/// alignment and pointing the metadata header at it.
pub open spec fn rewritten_bytes(bytes: Seq<u8>, header: int, alignment: nat, md: Seq<u8>) -> Seq<u8> {
    let start = round_up(bytes.len(), alignment);
    let grown = bytes + Seq::new((start - bytes.len()) as nat, |i: int| 0u8) + md;
    overwrite(overwrite(grown, header + 24, le_seq(start, 8)), header + 32, le_seq(md.len(), 8))
}

/// Whether a requested version magic can be written: not empty, at most
/// 512 bytes, without zero bytes or line feeds.
pub open spec fn valid_requested(required: Seq<u8>) -> bool {
    &&& 0 < required.len() <= 512
    &&& forall|i: int| 0 <= i < required.len() ==> required[i] != 0 && required[i] != 10
}

fn check_requested(required: &[u8]) -> (r: bool)
    ensures
        r == valid_requested(required@),
{
    if required.len() == 0 || required.len() > 512 {
        return false;
    }
    let mut k: usize = 0;
    while k < required.len()
        invariant
            0 <= k <= required@.len(),
            forall|i: int| 0 <= i < k ==> required@[i] != 0 && required@[i] != 10,
        decreases required@.len() - k,
    {
        if required[k] == 0 || required[k] == 10 {
            return false;
        }
        k = k + 1;
    }
    true
}

impl ModuleImage {
    /// Rewrites the version magic: the metadata entries other than the old
    /// version magic, then `vermagic=<required>`, are appended at the next
    /// multiple of the metadata alignment, and the metadata header points
    /// there. The packaged metadata kept on the image stays as it was.
    pub fn patch_vermagic(&mut self, required: &str) -> (r: Result<(), String>)
        requires
            old(self).wf(),
        ensures
            final(self).wf(),
            r is Ok <==> valid_requested(required.spec_bytes())
                && old(self).bytes@.len() + old(self).modinfo_alignment as nat - 1 <= usize::MAX,
            r is Ok ==> {
                &&& final(self).bytes@ == rewritten_bytes(old(self).bytes@, old(self).modinfo_header as int,
                    old(self).modinfo_alignment as nat, rewritten_metadata(old(self).modinfo@, required.spec_bytes()))
                &&& final(self).vermagic@ == required@
                &&& final(self).name == old(self).name
                &&& final(self).modinfo == old(self).modinfo
                &&& final(self).undefined == old(self).undefined
                &&& final(self).modinfo_header == old(self).modinfo_header
                &&& final(self).modinfo_alignment == old(self).modinfo_alignment
            },
            r is Err ==> *final(self) == *old(self),
    {
        let req = required.as_bytes_vec();
        if !check_requested(req.as_slice()) {
            return Err(owned("invalid requested vermagic"));
        }
        let len = self.bytes.len();
        let a = self.modinfo_alignment;
        if len > usize::MAX - (a - 1) {
            return Err(owned("module size overflow"));
        }
        proof {
            reveal_strlit("vermagic=");
        }
        let key = ascii_key("vermagic=");
        let mut metadata = surviving_metadata(self.modinfo.as_slice(), key.as_slice());
        let mut k: usize = 0;
        while k < key.len()
            invariant
                0 <= k <= key@.len(),
                metadata@ == kept_metadata(pieces_from(self.modinfo@, 0)) + key@.take(k as int),
            decreases key@.len() - k,
        {
            metadata.push(key[k]);
            assert(key@.take(k + 1) =~= key@.take(k as int).push(key@[k as int]));
            k = k + 1;
        }
        let mut k: usize = 0;
        while k < req.len()
            invariant
                0 <= k <= req@.len(),
                metadata@ == kept_metadata(pieces_from(self.modinfo@, 0)) + key@ + req@.take(k as int),
            decreases req@.len() - k,
        {
            metadata.push(req[k]);
            assert(req@.take(k + 1) =~= req@.take(k as int).push(req@[k as int]));
            k = k + 1;
        }
        metadata.push(0);
        assert(key@.take(key@.len() as int) =~= key@);
        assert(req@.take(req@.len() as int) =~= req@);
        let ghost md = metadata@;
        assert(md == rewritten_metadata(self.modinfo@, required.spec_bytes()));
        let t = len + (a - 1);
        let start = t - t % a;
        proof {
            vstd::arithmetic::div_mod::lemma_fundamental_div_mod(t as int, a as int);
            assert(start == (t / a) * a) by (nonlinear_arith)
                requires
                    t == a * (t / a) + t % a,
                    start == t - t % a;
            assert(start as nat == round_up(len as nat, a as nat));
            assert(start >= len) by (nonlinear_arith)
                requires
                    t == len + a - 1,
                    0 <= t % a < a,
                    start == t - t % a;
        }
        let h = self.modinfo_header;
        let mut bytes: Vec<u8> = Vec::new();
        std::mem::swap(&mut bytes, &mut self.bytes);
        let ghost old_bytes = bytes@;
        while bytes.len() < start
            invariant
                old_bytes.len() == len <= start,
                bytes@.len() <= start,
                bytes@ == old_bytes + Seq::new((bytes@.len() - len) as nat, |i: int| 0u8),
            decreases start - bytes@.len(),
        {
            bytes.push(0);
            assert(bytes@ =~= old_bytes + Seq::new((bytes@.len() - len) as nat, |i: int| 0u8));
        }
        let mut k: usize = 0;
        while k < metadata.len()
            invariant
                start <= usize::MAX,
                bytes@ == old_bytes + Seq::new((start - len) as nat, |i: int| 0u8) + md.take(k as int),
                md == metadata@,
                0 <= k <= md.len(),
            decreases md.len() - k,
        {
            bytes.push(metadata[k]);
            assert(md.take(k + 1) =~= md.take(k as int).push(md[k as int]));
            k = k + 1;
        }
        assert(md.take(md.len() as int) =~= md);
        assert(old_bytes == old(self).bytes@);
        assert(bytes@.len() == start + md.len());
        assert(h + 64 <= len);
        let start_le = u64_le(start as u64);
        let len_le = u64_le(metadata.len() as u64);
        write_at(&mut bytes, h + 24, start_le.as_slice());
        write_at(&mut bytes, h + 32, len_le.as_slice());
        self.bytes = bytes;
        self.vermagic = owned(required);
        proof {
            assert(self.bytes@ =~= rewritten_bytes(old_bytes, h as int, a as nat, md));
            assert forall|i: int| 0 <= i < self.undefined@.len() implies #[trigger] self.undefined@[i].1 + 24 <= self.bytes@.len() by {}
        }
        Ok(())
    }
}


// ---------------------------------------------------------------------------
// Kernel diagnostics and the retry

/// Whether `c` has the Unicode `White_Space` property.
pub open spec fn is_white_space(c: char) -> bool {
    let v = c as u32;
    ||| 9 <= v <= 13
    ||| v == 32
    ||| v == 0x85
    ||| v == 0xa0
    ||| v == 0x1680
    ||| 0x2000 <= v <= 0x200a
    ||| v == 0x2028
    ||| v == 0x2029
    ||| v == 0x202f
    ||| v == 0x205f
    ||| v == 0x3000
}

/// `char::is_whitespace`.
pub fn white_space(c: char) -> (r: bool)
    ensures
        r == is_white_space(c),
{
    let v = c as u32;
    (9 <= v && v <= 13) || v == 32 || v == 0x85 || v == 0xa0 || v == 0x1680 || (0x2000 <= v && v <= 0x200a)
        || v == 0x2028 || v == 0x2029 || v == 0x202f || v == 0x205f || v == 0x3000
}

/// The first index at or after `i` where `s` holds `c`, or its length.
pub open spec fn find_char(s: Seq<char>, c: char, i: int) -> int
    decreases s.len() - i,
{
    if i >= s.len() {
        s.len() as int
    } else if s[i] == c {
        i
    } else {
        find_char(s, c, i + 1)
    }
}

/// The first index at or after `i` where `s` holds no white space, or its length.
pub open spec fn skip_white(s: Seq<char>, i: int) -> int
    decreases s.len() - i,
{
    if i >= s.len() {
        s.len() as int
    } else if !is_white_space(s[i]) {
        i
    } else {
        skip_white(s, i + 1)
    }
}

proof fn lemma_find_char(s: Seq<char>, c: char, i: int)
    requires
        0 <= i <= s.len(),
    ensures
        i <= find_char(s, c, i) <= s.len(),
    decreases s.len() - i,
{
    if i < s.len() && s[i] != c {
        lemma_find_char(s, c, i + 1);
    }
}

proof fn lemma_skip_white(s: Seq<char>, i: int)
    requires
        0 <= i <= s.len(),
    ensures
        i <= skip_white(s, i) <= s.len(),
        skip_white(s, i) < s.len() ==> !is_white_space(s[skip_white(s, i)]),
        forall|k: int| i <= k < skip_white(s, i) ==> is_white_space(#[trigger] s[k]),
    decreases s.len() - i,
{
    if i < s.len() && is_white_space(s[i]) {
        lemma_skip_white(s, i + 1);
    }
}

fn find_char_from(s: &str, c: char, from: usize) -> (r: usize)
    requires
        from <= s@.len(),
    ensures
        r == find_char(s@, c, from as int),
{
    let n = crate::text::char_len(s);
    let mut i = from;
    while i < n && s.get_char(i) != c
        invariant
            n == s@.len(),
            from <= i <= n,
            find_char(s@, c, from as int) == find_char(s@, c, i as int),
        decreases n - i,
    {
        i = i + 1;
    }
    i
}

fn skip_white_from(s: &str, from: usize) -> (r: usize)
    requires
        from <= s@.len(),
    ensures
        r == skip_white(s@, from as int),
{
    let n = crate::text::char_len(s);
    let mut i = from;
    while i < n && white_space(s.get_char(i))
        invariant
            n == s@.len(),
            from <= i <= n,
            skip_white(s@, from as int) == skip_white(s@, i as int),
        decreases n - i,
    {
        i = i + 1;
    }
    i
}

/// The kernel message of a log record: the text after the first `;`, or
/// the whole record.
pub open spec fn record_message(record: Seq<char>) -> Seq<char> {
    let semi = find_char(record, ';', 0);
    if semi < record.len() {
        record.skip(semi + 1)
    } else {
        record
    }
}

/// The version magic the kernel asks of module `name` after rejecting
/// `vermagic`, as a log record states it: the message, without leading
/// white space, must read `<name>: version magic '<vermagic>' should be
/// '<required>'`, and `required` must be new and not empty.
pub open spec fn requested_of(name: Seq<char>, vermagic: Seq<char>, record: Seq<char>) -> Option<Seq<char>> {
    let message = record_message(record);
    let t = message.skip(skip_white(message, 0));
    let prefix = name + ": version magic '"@ + vermagic + "' should be '"@;
    if prefix.len() <= t.len() && t.take(prefix.len() as int) == prefix {
        let rest = t.skip(prefix.len() as int);
        let q = find_char(rest, '\'', 0);
        let required = rest.take(q);
        if q < rest.len() && required != vermagic && required.len() > 0 {
            Some(required)
        } else {
            None
        }
    } else {
        None
    }
}

impl ModuleImage {
    /// The version magic that kernel log `record` asks of this very module
    /// after rejecting its current version magic, if it asks one.
    pub fn requested_vermagic(&self, record: &str) -> (r: Option<String>)
        ensures
            r matches Some(t) ==> requested_of(self.name@, self.vermagic@, record@) == Some(t@),
            r is None ==> requested_of(self.name@, self.vermagic@, record@) is None,
    {
        let n = crate::text::char_len(record);
        let semi = find_char_from(record, ';', 0);
        proof {
            lemma_find_char(record@, ';', 0);
        }
        let message = if semi < n { crate::text::suffix_from(record, semi + 1) } else { owned(record) };
        assert(message@ == record_message(record@));
        let m = crate::text::char_len(message.as_str());
        let lead = skip_white_from(message.as_str(), 0);
        proof {
            lemma_skip_white(message@, 0);
        }
        let trimmed = crate::text::suffix_from(message.as_str(), lead);
        let mut prefix = owned(self.name.as_str());
        append_str(&mut prefix, ": version magic '");
        append_str(&mut prefix, self.vermagic.as_str());
        append_str(&mut prefix, "' should be '");
        if !crate::text::starts_with(trimmed.as_str(), prefix.as_str()) {
            return None;
        }
        let p = crate::text::char_len(prefix.as_str());
        let rest = crate::text::suffix_from(trimmed.as_str(), p);
        let rn = crate::text::char_len(rest.as_str());
        let q = find_char_from(rest.as_str(), '\'', 0);
        proof {
            lemma_find_char(rest@, '\'', 0);
        }
        if q >= rn {
            return None;
        }
        let required = crate::text::slice_chars(rest.as_str(), 0, q);
        assert(required@ =~= rest@.take(q as int));
        if q == 0 || crate::text::str_eq(required.as_str(), self.vermagic.as_str()) {
            return None;
        }
        Some(required)
    }
}

/// The message when the kernel rejected the version magic but named none.
pub open spec fn no_diagnostic_message(text: Seq<char>) -> Seq<char> {
    "module rejected without a matching vermagic diagnostic: "@ + text
}

/// The message when the adapted image was rejected again.
pub open spec fn still_rejected_message(text: Seq<char>) -> Seq<char> {
    "module still rejected after vermagic adaptation: "@ + text
}

/// The message when the first attempt failed for another reason.
pub open spec fn insert_failed_message(text: Seq<char>) -> Seq<char> {
    "insert module: "@ + text
}

/// The OS error code of a rejected version magic (`ENOEXEC`).
pub const ENOEXEC: i32 = 8;

fn prefixed(prefix: &str, text: &str) -> (r: String)
    ensures
        r@ == prefix@ + text@,
{
    let mut r = owned(prefix);
    append_str(&mut r, text);
    r
}

/// Inserts the image with `insert`. A successful insertion is never
/// repeated; only a first failure with `ENOEXEC` permits one retry, with
/// the version magic that `requested` reads from the kernel's diagnostic
/// written into the image. Without such a diagnostic the image stays as it
/// was and the failure is reported.
pub fn load_with_vermagic_retry<I, Q>(image: &mut ModuleImage, insert: I, requested: Q) -> (r: Result<(), String>)
    where
        I: Fn(&[u8]) -> Result<(), InsertError>,
        Q: Fn(&ModuleImage) -> Option<String>,
    requires
        old(image).wf(),
        forall|b: &[u8]| insert.requires((b,)),
        forall|m: &ModuleImage| requested.requires((m,)),
    ensures
        final(image).wf(),
        exists|b: &[u8], first: Result<(), InsertError>| {
            &&& b@ == old(image).bytes@
            &&& #[trigger] insert.ensures((b,), first)
            &&& match first {
                Ok(()) => r is Ok && *final(image) == *old(image),
                Err(e) => if e.os_code != Some(ENOEXEC) {
                    &&& r matches Err(m) && m@ == insert_failed_message(e.text@)
                    &&& *final(image) == *old(image)
                } else {
                    exists|m: &ModuleImage, want: Option<String>| {
                        &&& *m == *old(image)
                        &&& #[trigger] requested.ensures((m,), want)
                        &&& match want {
                            None => {
                                &&& r matches Err(msg) && msg@ == no_diagnostic_message(e.text@)
                                &&& *final(image) == *old(image)
                            },
                            Some(q) => if !(valid_requested(vstd::utf8::encode_utf8(q@))
                                && old(image).bytes@.len() + old(image).modinfo_alignment - 1 <= usize::MAX) {
                                &&& r is Err
                                &&& *final(image) == *old(image)
                            } else {
                                &&& final(image).bytes@ == rewritten_bytes(old(image).bytes@, old(image).modinfo_header as int,
                                    old(image).modinfo_alignment as nat, rewritten_metadata(old(image).modinfo@, vstd::utf8::encode_utf8(q@)))
                                &&& final(image).vermagic@ == q@
                                &&& final(image).name == old(image).name
                                &&& final(image).modinfo == old(image).modinfo
                                &&& final(image).undefined == old(image).undefined
                                &&& final(image).modinfo_header == old(image).modinfo_header
                                &&& final(image).modinfo_alignment == old(image).modinfo_alignment
                                &&& exists|b2: &[u8], second: Result<(), InsertError>| {
                                    &&& b2@ == final(image).bytes@
                                    &&& #[trigger] insert.ensures((b2,), second)
                                    &&& (second is Ok <==> r is Ok)
                                    &&& (second matches Err(e2) ==> r matches Err(msg) && msg@ == still_rejected_message(e2.text@))
                                }
                            },
                        }
                    }
                },
            }
        },
{
    let first_bytes = image.bytes.as_slice();
    let first = insert(first_bytes);
    let ghost gf = first;
    assert(insert.ensures((first_bytes,), gf));
    match first {
        Ok(()) => Ok(()),
        Err(e) => {
            if e.os_code != Some(ENOEXEC) {
                return Err(prefixed("insert module: ", e.text.as_str()));
            }
            let view: &ModuleImage = &*image;
            let want = requested(view);
            let ghost gw = want;
            assert(requested.ensures((view,), gw));
            match want {
                None => Err(prefixed("module rejected without a matching vermagic diagnostic: ", e.text.as_str())),
                Some(q) => {
                    let qs = q.as_str();
                    assert(qs.spec_bytes() == vstd::utf8::encode_utf8(q@));
                    image.patch_vermagic(qs)?;
                    let second_bytes = image.bytes.as_slice();
                    let second = insert(second_bytes);
                    let ghost gs = second;
                    assert(insert.ensures((second_bytes,), gs));
                    match second {
                        Ok(()) => Ok(()),
                        Err(e2) => Err(prefixed("module still rejected after vermagic adaptation: ", e2.text.as_str())),
                    }
                },
            }
        },
    }
}


// ---------------------------------------------------------------------------
// Resolving symbols against the kernel's symbol list

/// The first index at or after `i` where `s` holds white space, or its length.
pub open spec fn token_end(s: Seq<char>, i: int) -> int
    decreases s.len() - i,
{
    if i >= s.len() {
        s.len() as int
    } else if is_white_space(s[i]) {
        i
    } else {
        token_end(s, i + 1)
    }
}

proof fn lemma_token_end(s: Seq<char>, i: int)
    requires
        0 <= i <= s.len(),
    ensures
        i <= token_end(s, i) <= s.len(),
        i < s.len() && !is_white_space(s[i]) ==> i < token_end(s, i),
        forall|k: int| i <= k < token_end(s, i) ==> !is_white_space(#[trigger] s[k]),
        token_end(s, i) < s.len() ==> is_white_space(s[token_end(s, i)]),
    decreases s.len() - i,
{
    if i < s.len() && !is_white_space(s[i]) {
        lemma_token_end(s, i + 1);
    }
}

/// The white-space separated fields of `s[i..]`.
pub open spec fn tokens_from(s: Seq<char>, i: int) -> Seq<Seq<char>>
    decreases s.len() - i,
{
    if i < 0 || i >= s.len() {
        Seq::empty()
    } else {
        let j = skip_white(s, i);
        if j >= s.len() {
            Seq::empty()
        } else {
            let e = token_end(s, j);
            proof {
                lemma_skip_white_pub(s, i);
                lemma_token_end_pub(s, j);
            }
            seq![s.subrange(j, e)] + tokens_from(s, e)
        }
    }
}

pub proof fn lemma_skip_white_pub(s: Seq<char>, i: int)
    requires
        0 <= i <= s.len(),
    ensures
        i <= skip_white(s, i) <= s.len(),
        skip_white(s, i) < s.len() ==> !is_white_space(s[skip_white(s, i)]),
{
    lemma_skip_white(s, i);
}

pub proof fn lemma_token_end_pub(s: Seq<char>, i: int)
    requires
        0 <= i <= s.len(),
    ensures
        i <= token_end(s, i) <= s.len(),
        i < s.len() && !is_white_space(s[i]) ==> i < token_end(s, i),
{
    lemma_token_end(s, i);
}

/// The lines of `s[i..]`, split at line feeds; a final line feed ends
/// the last line.
pub open spec fn lines_from(s: Seq<char>, i: int) -> Seq<Seq<char>>
    decreases s.len() - i,
{
    if i < 0 || i >= s.len() {
        Seq::empty()
    } else {
        let e = find_char(s, '\n', i);
        proof {
            lemma_find_char_pub(s, '\n', i);
        }
        if e >= s.len() {
            seq![s.subrange(i, e)]
        } else {
            seq![s.subrange(i, e)] + lines_from(s, e + 1)
        }
    }
}

pub proof fn lemma_find_char_pub(s: Seq<char>, c: char, i: int)
    requires
        0 <= i <= s.len(),
    ensures
        i <= find_char(s, c, i) <= s.len(),
{
    lemma_find_char(s, c, i);
}

/// The value of a hexadecimal digit.
pub open spec fn hex_digit(c: char) -> Option<nat> {
    let v = c as u32;
    if 48 <= v <= 57 {
        Some((v - 48) as nat)
    } else if 97 <= v <= 102 {
        Some((v - 87) as nat)
    } else if 65 <= v <= 70 {
        Some((v - 55) as nat)
    } else {
        None
    }
}

/// The value of hexadecimal digits, most significant first.
pub open spec fn hex_num(d: Seq<char>) -> nat
    decreases d.len(),
{
    if d.len() == 0 {
        0
    } else {
        hex_num(d.drop_last()) * 16 + hex_digit(d.last()).unwrap_or(0)
    }
}

/// The digits of a hexadecimal number: `s` without one leading `+`.
pub open spec fn hex_digits(s: Seq<char>) -> Seq<char> {
    if s.len() > 0 && s[0] == '+' {
        s.skip(1)
    } else {
        s
    }
}

/// Whether every character of `d` is a hexadecimal digit.
pub open spec fn all_hex(d: Seq<char>) -> bool {
    forall|k: int| 0 <= k < d.len() ==> #[trigger] hex_digit(d[k]) is Some
}

/// `u64::from_str_radix(s, 16)`: an optional `+`, then at least one
/// hexadecimal digit, with a value that fits in 64 bits.
pub open spec fn hex_value(s: Seq<char>) -> Option<u64> {
    let d = hex_digits(s);
    if d.len() == 0 || !all_hex(d) || hex_num(d) > u64::MAX {
        None
    } else {
        Some(hex_num(d) as u64)
    }
}

proof fn lemma_hex_num_grows(d: Seq<char>, k: int)
    requires
        0 <= k <= d.len(),
    ensures
        hex_num(d.take(k)) <= hex_num(d),
    decreases d.len() - k,
{
    if k < d.len() {
        lemma_hex_num_grows(d, k + 1);
        assert(d.take(k + 1).drop_last() =~= d.take(k));
    } else {
        assert(d.take(k) =~= d);
    }
}

fn digit_of(c: char) -> (r: Option<u64>)
    ensures
        r matches Some(v) ==> hex_digit(c) == Some(v as nat),
        r is None ==> hex_digit(c) is None,
{
    let v = c as u32;
    if 48 <= v && v <= 57 {
        Some((v - 48) as u64)
    } else if 97 <= v && v <= 102 {
        Some((v - 87) as u64)
    } else if 65 <= v && v <= 70 {
        Some((v - 55) as u64)
    } else {
        None
    }
}

/// `u64::from_str_radix(s, 16)`.
pub fn parse_hex(s: &str) -> (r: Option<u64>)
    ensures
        r == hex_value(s@),
{
    let n = crate::text::char_len(s);
    let start: usize = if n > 0 && s.get_char(0) == '+' { 1 } else { 0 };
    let ghost d = hex_digits(s@);
    assert(d =~= s@.skip(start as int));
    if start >= n {
        assert(d.len() == 0);
        return None;
    }
    let mut acc: u64 = 0;
    let mut i = start;
    while i < n
        invariant
            n == s@.len(),
            start <= i <= n,
            d == s@.skip(start as int),
            d == hex_digits(s@),
            d.len() == n - start,
            d.len() > 0,
            acc as nat == hex_num(d.take(i - start)),
            forall|k: int| 0 <= k < i - start ==> #[trigger] hex_digit(d[k]) is Some,
        decreases n - i,
    {
        let c = s.get_char(i);
        assert(c == d[i - start]);
        match digit_of(c) {
            None => {
                assert(!all_hex(d)) by {
                    assert(hex_digit(d[i - start]) is None);
                }
                return None;
            },
            Some(v) => {
                assert(d.take(i - start + 1).drop_last() =~= d.take(i - start));
                if acc > (u64::MAX - v) / 16 {
                    proof {
                        assert(hex_num(d.take(i - start + 1)) > u64::MAX) by (nonlinear_arith)
                            requires
                                hex_num(d.take(i - start + 1)) == acc * 16 + v,
                                acc > (u64::MAX - v) / 16,
                                v < 16;
                        lemma_hex_num_grows(d, i - start + 1);
                    }
                    let mut j = i + 1;
                    while j < n
                        invariant
                            n == s@.len(),
                            start <= i < j <= n,
                            d == s@.skip(start as int),
                            d == hex_digits(s@),
                            d.len() == n - start,
                            hex_num(d) > u64::MAX,
                            forall|k: int| 0 <= k < j - start ==> #[trigger] hex_digit(d[k]) is Some,
                        decreases n - j,
                    {
                        let cj = s.get_char(j);
                        assert(cj == d[j - start]);
                        if digit_of(cj).is_none() {
                            assert(!all_hex(d)) by {
                                assert(hex_digit(d[j - start]) is None);
                            }
                            return None;
                        }
                        j = j + 1;
                    }
                    return None;
                }
                proof {
                    assert(acc * 16 + v <= u64::MAX) by (nonlinear_arith)
                        requires
                            acc <= (u64::MAX - v) / 16,
                            v < 16;
                }
                acc = acc * 16 + v;
            },
        }
        i = i + 1;
    }
    assert(d.take(n - start) =~= d);
    Some(acc)
}


/// The first index at or after `i` where `p` occurs in `s`, or -1.
pub open spec fn find_sub(s: Seq<char>, p: Seq<char>, i: int) -> int
    decreases s.len() + 1 - i,
{
    if i < 0 || i + p.len() > s.len() {
        -1
    } else if s.subrange(i, i + p.len()) == p {
        i
    } else {
        find_sub(s, p, i + 1)
    }
}

/// A kernel symbol's name without the compiler's `.llvm.` or `$` suffix.
pub open spec fn canonical_name(name: Seq<char>) -> Seq<char> {
    let l = find_sub(name, ".llvm."@, 0);
    if l >= 0 {
        name.take(l)
    } else {
        let d = find_char(name, '$', 0);
        if d < name.len() {
            name.take(d)
        } else {
            name
        }
    }
}

/// A usable line of the kernel's symbol list: exactly three fields, the
/// first a nonzero hexadecimal address; the address and the third field,
/// the name.
pub open spec fn kallsyms_entry(line: Seq<char>) -> Option<(u64, Seq<char>)> {
    let t = tokens_from(line, 0);
    if t.len() == 3 {
        match hex_value(t[0]) {
            Some(a) => if a != 0 { Some((a, t[2])) } else { None },
            None => None,
        }
    } else {
        None
    }
}

/// Whether `names` holds `n`.
pub open spec fn names_have(names: Seq<Seq<char>>, n: Seq<char>) -> bool {
    exists|k: int| 0 <= k < names.len() && names[k] == n
}

/// A symbol's candidate address after one more matching line: the first
/// address seen, an exact name over a suffixed one, and a conflict of
/// equally exact addresses marked by address 0.
pub open spec fn slot_step(slot: Option<(u64, bool)>, a: u64, exact: bool) -> Option<(u64, bool)> {
    match slot {
        None => Some((a, exact)),
        Some((p, w)) => if !w && exact {
            Some((a, true))
        } else if w == exact && p != a {
            Some((0, exact))
        } else {
            slot
        },
    }
}

/// The candidate for unresolved name `target` after `line`.
pub open spec fn line_slot(slot: Option<(u64, bool)>, names: Seq<Seq<char>>, target: Seq<char>, line: Seq<char>) -> Option<(u64, bool)> {
    match kallsyms_entry(line) {
        None => slot,
        Some((a, name)) => {
            let exact = names_have(names, name);
            let key = if exact { name } else { canonical_name(name) };
            if names_have(names, key) && key == target {
                slot_step(slot, a, exact)
            } else {
                slot
            }
        },
    }
}

/// The candidate for `target` after all of `lines`.
pub open spec fn final_slot(lines: Seq<Seq<char>>, names: Seq<Seq<char>>, target: Seq<char>) -> Option<(u64, bool)>
    decreases lines.len(),
{
    if lines.len() == 0 {
        None
    } else {
        line_slot(final_slot(lines.drop_last(), names, target), names, target, lines.last())
    }
}

/// The names of the unresolved symbols.
pub open spec fn undefined_names(u: Seq<(String, usize)>) -> Seq<Seq<char>> {
    Seq::new(u.len(), |k: int| u[k].0@)
}

/// The address that symbol `k` resolves to, or none.
pub open spec fn resolved_address(lines: Seq<Seq<char>>, u: Seq<(String, usize)>, k: int) -> Option<u64> {
    match final_slot(lines, undefined_names(u), u[k].0@) {
        Some((a, _)) => if a != 0 { Some(a) } else { None },
        None => None,
    }
}

/// The symbol table entry of `sym` made absolute at address `a`.
pub open spec fn absolute_entry(b: Seq<u8>, at: int, a: u64) -> Seq<u8> {
    overwrite(overwrite(b, at + 6, seq![0xf1u8, 0xffu8]), at + 8, le_seq(a as nat, 8))
}

/// The image bytes with the first `k` unresolved symbols that resolve
/// made absolute.
pub open spec fn resolved_bytes(b: Seq<u8>, lines: Seq<Seq<char>>, u: Seq<(String, usize)>, k: int) -> Seq<u8>
    decreases k,
{
    if k <= 0 {
        b
    } else {
        let prev = resolved_bytes(b, lines, u, k - 1);
        match resolved_address(lines, u, k - 1) {
            Some(a) => absolute_entry(prev, u[k - 1].1 as int, a),
            None => prev,
        }
    }
}

/// How many of the first `k` unresolved symbols resolve.
pub open spec fn resolved_count(lines: Seq<Seq<char>>, u: Seq<(String, usize)>, k: int) -> nat
    decreases k,
{
    if k <= 0 {
        0
    } else {
        resolved_count(lines, u, k - 1) + if resolved_address(lines, u, k - 1) is Some { 1nat } else { 0nat }
    }
}

/// `line` is a usable kernel symbol line naming `target` exactly.
pub open spec fn exact_line_for(line: Seq<char>, target: Seq<char>) -> bool {
    kallsyms_entry(line) matches Some((_, n)) && n == target
}

/// The address of a usable kernel symbol line.
pub open spec fn entry_address(line: Seq<char>) -> u64 {
    match kallsyms_entry(line) {
        Some((a, _)) => a,
        None => 0,
    }
}

/// The name of a usable kernel symbol line.
pub open spec fn entry_name(line: Seq<char>) -> Seq<char> {
    match kallsyms_entry(line) {
        Some((_, n)) => n,
        None => Seq::empty(),
    }
}

/// Whether a candidate came from an exact name.
pub open spec fn slot_exact(slot: Option<(u64, bool)>) -> bool {
    match slot {
        Some((_, w)) => w,
        None => false,
    }
}

/// Some line of `lines` names `target` exactly.
spec fn has_exact(lines: Seq<Seq<char>>, target: Seq<char>) -> bool {
    exists|i: int| 0 <= i < lines.len() && #[trigger] exact_line_for(lines[i], target)
}

/// Every line of `lines` that names `target` exactly gives address `a`.
spec fn exact_agree(lines: Seq<Seq<char>>, target: Seq<char>, a: u64) -> bool {
    forall|i: int| 0 <= i < lines.len() && #[trigger] exact_line_for(lines[i], target) ==> entry_address(lines[i]) == a
}

/// Two lines of `lines` name `target` exactly at different addresses.
spec fn exact_disagree(lines: Seq<Seq<char>>, target: Seq<char>) -> bool {
    exists|i: int, j: int|
        0 <= i < lines.len() && 0 <= j < lines.len() && #[trigger] exact_line_for(lines[i], target) && #[trigger] exact_line_for(lines[j], target)
            && entry_address(lines[i]) != entry_address(lines[j])
}

/// How the candidate for `target` stands after `lines`: without an exact
/// line it is absent or came from suffixed names only; with exact lines that
/// agree on `a` it is `a`, exact; with exact lines that disagree it is the
/// conflict marker, exact.
proof fn lemma_final_slot_exact(lines: Seq<Seq<char>>, names: Seq<Seq<char>>, target: Seq<char>, a: u64)
    requires
        names_have(names, target),
    ensures
        !has_exact(lines, target) ==> (final_slot(lines, names, target) is None || !slot_exact(final_slot(lines, names, target))),
        has_exact(lines, target) && exact_agree(lines, target, a) ==> final_slot(lines, names, target) == Some((a, true)),
        exact_disagree(lines, target) ==> final_slot(lines, names, target) == Some((0u64, true)),
    decreases lines.len(),
{
    if lines.len() == 0 {
        return;
    }
    let prefix = lines.drop_last();
    let l = lines.last();
    let n = lines.len() - 1;
    assert forall|i: int| 0 <= i < prefix.len() implies #[trigger] prefix[i] == lines[i] by {}
    assert(lines[n] == l);
    let prev = final_slot(prefix, names, target);
    assert(final_slot(lines, names, target) == line_slot(prev, names, target, l));
    let ex = exact_line_for(l, target);
    // What the last line does to the candidate.
    if ex {
        let a2 = entry_address(l);
        assert(a2 != 0);
        assert(names_have(names, entry_name(l)));
        assert(line_slot(prev, names, target, l) == slot_step(prev, a2, true));
    } else {
        match kallsyms_entry(l) {
            None => {},
            Some((a2, name)) => {
                if names_have(names, name) {
                    assert(name != target);
                }
                assert(line_slot(prev, names, target, l) == prev || line_slot(prev, names, target, l) == slot_step(prev, a2, false));
            },
        }
    }
    // The induction hypothesis, for the value each case needs.
    if exact_disagree(prefix, target) {
        lemma_final_slot_exact(prefix, names, target, a);
        let (i, j) = choose|i: int, j: int|
            0 <= i < prefix.len() && 0 <= j < prefix.len() && #[trigger] exact_line_for(prefix[i], target) && #[trigger] exact_line_for(prefix[j], target)
                && entry_address(prefix[i]) != entry_address(prefix[j]);
        assert(exact_line_for(lines[i], target) && exact_line_for(lines[j], target));
        assert(exact_disagree(lines, target));
        if has_exact(lines, target) && exact_agree(lines, target, a) {
            assert(entry_address(lines[i]) == a);
            assert(entry_address(lines[j]) == a);
        }
    } else if has_exact(prefix, target) {
        let i0 = choose|i: int| 0 <= i < prefix.len() && #[trigger] exact_line_for(prefix[i], target);
        let b = entry_address(prefix[i0]);
        assert forall|i: int| 0 <= i < prefix.len() && #[trigger] exact_line_for(prefix[i], target) implies entry_address(prefix[i]) == b by {
            if entry_address(prefix[i]) != b {
                assert(exact_disagree(prefix, target));
            }
        }
        lemma_final_slot_exact(prefix, names, target, b);
        assert(prev == Some((b, true)));
        assert(exact_line_for(lines[i0], target));
        if ex {
            let a2 = entry_address(l);
            if a2 != b {
                assert(exact_disagree(lines, target)) by {
                    assert(exact_line_for(lines[i0], target) && exact_line_for(lines[n], target));
                }
                if exact_agree(lines, target, a) {
                    assert(entry_address(lines[i0]) == a);
                    assert(entry_address(lines[n]) == a);
                }
            } else {
                assert(!exact_disagree(lines, target)) by {
                    if exact_disagree(lines, target) {
                        let (i, j) = choose|i: int, j: int|
                            0 <= i < lines.len() && 0 <= j < lines.len() && #[trigger] exact_line_for(lines[i], target) && #[trigger] exact_line_for(lines[j], target)
                                && entry_address(lines[i]) != entry_address(lines[j]);
                        if i < n {
                            assert(exact_line_for(prefix[i], target));
                        }
                        if j < n {
                            assert(exact_line_for(prefix[j], target));
                        }
                    }
                }
                if exact_agree(lines, target, a) {
                    assert(entry_address(lines[i0]) == a);
                }
            }
        } else {
            assert(!exact_disagree(lines, target)) by {
                if exact_disagree(lines, target) {
                    let (i, j) = choose|i: int, j: int|
                        0 <= i < lines.len() && 0 <= j < lines.len() && #[trigger] exact_line_for(lines[i], target) && #[trigger] exact_line_for(lines[j], target)
                            && entry_address(lines[i]) != entry_address(lines[j]);
                    assert(i < n && j < n);
                    assert(exact_line_for(prefix[i], target) && exact_line_for(prefix[j], target));
                }
            }
            if exact_agree(lines, target, a) {
                assert(entry_address(lines[i0]) == a);
            }
        }
    } else {
        lemma_final_slot_exact(prefix, names, target, a);
        assert(!exact_disagree(lines, target)) by {
            if exact_disagree(lines, target) {
                let (i, j) = choose|i: int, j: int|
                    0 <= i < lines.len() && 0 <= j < lines.len() && #[trigger] exact_line_for(lines[i], target) && #[trigger] exact_line_for(lines[j], target)
                        && entry_address(lines[i]) != entry_address(lines[j]);
                if i < n {
                    assert(exact_line_for(prefix[i], target));
                }
                if j < n {
                    assert(exact_line_for(prefix[j], target));
                }
            }
        }
        if has_exact(lines, target) {
            let i = choose|i: int| 0 <= i < lines.len() && #[trigger] exact_line_for(lines[i], target);
            if i < n {
                assert(exact_line_for(prefix[i], target));
            }
            assert(ex);
            if exact_agree(lines, target, a) {
                assert(entry_address(lines[n]) == a);
            }
        }
        if !has_exact(lines, target) {
            assert(!ex) by {
                if ex {
                    assert(exact_line_for(lines[n], target));
                }
            }
        }
    }
}

/// `line` is a usable kernel symbol line naming `target` only through a
/// compiler suffix: its own name is no unresolved name, and without the
/// suffix it reads `target`.
pub open spec fn suffixed_line_for(line: Seq<char>, names: Seq<Seq<char>>, target: Seq<char>) -> bool {
    kallsyms_entry(line) matches Some((_, n)) && !names_have(names, n) && canonical_name(n) == target
}

spec fn has_suffixed(lines: Seq<Seq<char>>, names: Seq<Seq<char>>, target: Seq<char>) -> bool {
    exists|i: int| 0 <= i < lines.len() && #[trigger] suffixed_line_for(lines[i], names, target)
}

spec fn suffixed_agree(lines: Seq<Seq<char>>, names: Seq<Seq<char>>, target: Seq<char>, a: u64) -> bool {
    forall|i: int| 0 <= i < lines.len() && #[trigger] suffixed_line_for(lines[i], names, target) ==> entry_address(lines[i]) == a
}

spec fn suffixed_disagree(lines: Seq<Seq<char>>, names: Seq<Seq<char>>, target: Seq<char>) -> bool {
    exists|i: int, j: int|
        0 <= i < lines.len() && 0 <= j < lines.len() && #[trigger] suffixed_line_for(lines[i], names, target)
            && #[trigger] suffixed_line_for(lines[j], names, target) && entry_address(lines[i]) != entry_address(lines[j])
}

/// Without an exact line for `target`, its candidate comes from the suffixed
/// lines alone: none, their one address, or the conflict marker.
proof fn lemma_final_slot_suffixed(lines: Seq<Seq<char>>, names: Seq<Seq<char>>, target: Seq<char>, a: u64)
    requires
        names_have(names, target),
        !has_exact(lines, target),
    ensures
        !has_suffixed(lines, names, target) ==> final_slot(lines, names, target) is None,
        has_suffixed(lines, names, target) && suffixed_agree(lines, names, target, a) ==> final_slot(lines, names, target) == Some((a, false)),
        suffixed_disagree(lines, names, target) ==> final_slot(lines, names, target) == Some((0u64, false)),
    decreases lines.len(),
{
    if lines.len() == 0 {
        return;
    }
    let prefix = lines.drop_last();
    let l = lines.last();
    let n = lines.len() - 1;
    assert forall|i: int| 0 <= i < prefix.len() implies #[trigger] prefix[i] == lines[i] by {}
    assert(lines[n] == l);
    assert(!has_exact(prefix, target)) by {
        if has_exact(prefix, target) {
            let i = choose|i: int| 0 <= i < prefix.len() && #[trigger] exact_line_for(prefix[i], target);
            assert(exact_line_for(lines[i], target));
        }
    }
    assert(!exact_line_for(l, target)) by {
        if exact_line_for(l, target) {
            assert(exact_line_for(lines[n], target));
        }
    }
    let prev = final_slot(prefix, names, target);
    assert(final_slot(lines, names, target) == line_slot(prev, names, target, l));
    let sx = suffixed_line_for(l, names, target);
    let a2 = entry_address(l);
    if sx {
        assert(line_slot(prev, names, target, l) == slot_step(prev, a2, false));
    } else {
        match kallsyms_entry(l) {
            None => {},
            Some((x, name)) => {
                if names_have(names, name) {
                    assert(name != target);
                }
                assert(line_slot(prev, names, target, l) == prev);
            },
        }
    }
    if suffixed_disagree(prefix, names, target) {
        lemma_final_slot_suffixed(prefix, names, target, a);
        let (i, j) = choose|i: int, j: int|
            0 <= i < prefix.len() && 0 <= j < prefix.len() && #[trigger] suffixed_line_for(prefix[i], names, target)
                && #[trigger] suffixed_line_for(prefix[j], names, target) && entry_address(prefix[i]) != entry_address(prefix[j]);
        assert(suffixed_line_for(lines[i], names, target) && suffixed_line_for(lines[j], names, target));
        assert(suffixed_disagree(lines, names, target));
        if has_suffixed(lines, names, target) && suffixed_agree(lines, names, target, a) {
            assert(entry_address(lines[i]) == a);
            assert(entry_address(lines[j]) == a);
        }
    } else if has_suffixed(prefix, names, target) {
        let i0 = choose|i: int| 0 <= i < prefix.len() && #[trigger] suffixed_line_for(prefix[i], names, target);
        let b = entry_address(prefix[i0]);
        assert forall|i: int| 0 <= i < prefix.len() && #[trigger] suffixed_line_for(prefix[i], names, target) implies entry_address(prefix[i]) == b by {
            if entry_address(prefix[i]) != b {
                assert(suffixed_disagree(prefix, names, target));
            }
        }
        lemma_final_slot_suffixed(prefix, names, target, b);
        assert(prev == Some((b, false)));
        assert(suffixed_line_for(lines[i0], names, target));
        if sx && a2 != b {
            assert(suffixed_disagree(lines, names, target)) by {
                assert(suffixed_line_for(lines[i0], names, target) && suffixed_line_for(lines[n], names, target));
            }
            if suffixed_agree(lines, names, target, a) {
                assert(entry_address(lines[i0]) == a);
                assert(entry_address(lines[n]) == a);
            }
        } else {
            assert(!suffixed_disagree(lines, names, target)) by {
                if suffixed_disagree(lines, names, target) {
                    let (i, j) = choose|i: int, j: int|
                        0 <= i < lines.len() && 0 <= j < lines.len() && #[trigger] suffixed_line_for(lines[i], names, target)
                            && #[trigger] suffixed_line_for(lines[j], names, target) && entry_address(lines[i]) != entry_address(lines[j]);
                    if i < n {
                        assert(suffixed_line_for(prefix[i], names, target));
                    }
                    if j < n {
                        assert(suffixed_line_for(prefix[j], names, target));
                    }
                }
            }
            if suffixed_agree(lines, names, target, a) {
                assert(entry_address(lines[i0]) == a);
            }
        }
    } else {
        lemma_final_slot_suffixed(prefix, names, target, a);
        assert(!suffixed_disagree(lines, names, target)) by {
            if suffixed_disagree(lines, names, target) {
                let (i, j) = choose|i: int, j: int|
                    0 <= i < lines.len() && 0 <= j < lines.len() && #[trigger] suffixed_line_for(lines[i], names, target)
                        && #[trigger] suffixed_line_for(lines[j], names, target) && entry_address(lines[i]) != entry_address(lines[j]);
                if i < n {
                    assert(suffixed_line_for(prefix[i], names, target));
                }
                if j < n {
                    assert(suffixed_line_for(prefix[j], names, target));
                }
            }
        }
        if has_suffixed(lines, names, target) {
            let i = choose|i: int| 0 <= i < lines.len() && #[trigger] suffixed_line_for(lines[i], names, target);
            if i < n {
                assert(suffixed_line_for(prefix[i], names, target));
            }
            if suffixed_agree(lines, names, target, a) {
                assert(entry_address(lines[n]) == a);
            }
        } else {
            assert(!sx) by {
                if sx {
                    assert(suffixed_line_for(lines[n], names, target));
                }
            }
        }
    }
}

/// A name the kernel lists only with compiler suffixes resolves to their
/// address when they all give the same one, and stays unresolved when two
/// of them differ; with neither it stays unresolved.
pub proof fn suffixed_kernel_name_resolution(lines: Seq<Seq<char>>, u: Seq<(String, usize)>, k: int, a: u64)
    requires
        0 <= k < u.len(),
        forall|i: int| 0 <= i < lines.len() ==> !#[trigger] exact_line_for(lines[i], u[k].0@),
    ensures
        (exists|i: int| 0 <= i < lines.len() && #[trigger] suffixed_line_for(lines[i], undefined_names(u), u[k].0@) && entry_address(lines[i]) == a)
            && (forall|i: int| 0 <= i < lines.len() && #[trigger] suffixed_line_for(lines[i], undefined_names(u), u[k].0@) ==> entry_address(lines[i]) == a)
            ==> resolved_address(lines, u, k) == Some(a),
        (exists|i: int, j: int|
            0 <= i < lines.len() && 0 <= j < lines.len() && #[trigger] suffixed_line_for(lines[i], undefined_names(u), u[k].0@)
                && #[trigger] suffixed_line_for(lines[j], undefined_names(u), u[k].0@) && entry_address(lines[i]) != entry_address(lines[j]))
            ==> resolved_address(lines, u, k) is None,
        (forall|i: int| 0 <= i < lines.len() ==> !#[trigger] suffixed_line_for(lines[i], undefined_names(u), u[k].0@))
            ==> resolved_address(lines, u, k) is None,
{
    let target = u[k].0@;
    let names = undefined_names(u);
    assert(names[k] == target);
    assert(names_have(names, target));
    assert(!has_exact(lines, target));
    lemma_final_slot_suffixed(lines, names, target, a);
    if exists|i: int| 0 <= i < lines.len() && #[trigger] suffixed_line_for(lines[i], names, target) && entry_address(lines[i]) == a {
        let i = choose|i: int| 0 <= i < lines.len() && #[trigger] suffixed_line_for(lines[i], names, target) && entry_address(lines[i]) == a;
        assert(kallsyms_entry(lines[i]) is Some);
        assert(a != 0);
    }
}

/// Where no `.` stands in `s[i..j)` and `p` (starting with `.`) occurs at
/// `j`, the first occurrence from `i` is at `j`.
proof fn lemma_find_sub_at(s: Seq<char>, p: Seq<char>, i: int, j: int)
    requires
        0 <= i <= j,
        p.len() > 0,
        p[0] == '.',
        j + p.len() <= s.len(),
        s.subrange(j, j + p.len()) == p,
        forall|k: int| i <= k < j ==> s[k] != '.',
    ensures
        find_sub(s, p, i) == j,
    decreases j - i,
{
    if i < j {
        assert(s.subrange(i, i + p.len())[0] == s[i]);
        lemma_find_sub_at(s, p, i + 1, j);
    }
}

/// Where no `.` stands in `s` from `i`, a pattern starting with `.` does not
/// occur there.
proof fn lemma_find_sub_none(s: Seq<char>, p: Seq<char>, i: int)
    requires
        0 <= i,
        p.len() > 0,
        p[0] == '.',
        forall|k: int| i <= k < s.len() ==> s[k] != '.',
    ensures
        find_sub(s, p, i) == -1,
    decreases s.len() + 1 - i,
{
    if i + p.len() <= s.len() {
        assert(s.subrange(i, i + p.len())[0] == s[i]);
        lemma_find_sub_none(s, p, i + 1);
    }
}

/// Where `c` does not stand in `s[i..j)` but at `j`, it is first found at `j`.
proof fn lemma_find_char_at(s: Seq<char>, c: char, i: int, j: int)
    requires
        0 <= i <= j < s.len(),
        s[j] == c,
        forall|k: int| i <= k < j ==> s[k] != c,
    ensures
        find_char(s, c, i) == j,
    decreases j - i,
{
    if i < j {
        lemma_find_char_at(s, c, i + 1, j);
    }
}

/// Where `c` does not stand in `s` from `i`, it is not found.
proof fn lemma_find_char_none(s: Seq<char>, c: char, i: int)
    requires
        0 <= i,
        forall|k: int| i <= k < s.len() ==> s[k] != c,
    ensures
        find_char(s, c, i) == s.len(),
    decreases s.len() - i,
{
    if i < s.len() {
        lemma_find_char_none(s, c, i + 1);
    }
}

/// A plain symbol name (no `.` or `$`) is its own canonical name and keeps
/// it under an `.llvm.` suffix, and under a `$` suffix whose rest holds no
/// `.`: `kern_path.llvm.123` and `kern_path$x` both stand for `kern_path`.
pub proof fn compiler_suffixes_are_stripped(n: Seq<char>, rest: Seq<char>)
    requires
        forall|k: int| 0 <= k < n.len() ==> n[k] != '.' && n[k] != '$',
    ensures
        canonical_name(n) == n,
        canonical_name(n + ".llvm."@ + rest) == n,
        (forall|k: int| 0 <= k < rest.len() ==> rest[k] != '.') ==> canonical_name(n + "$"@ + rest) == n,
{
    reveal_strlit(".llvm.");
    reveal_strlit("$");
    let p = ".llvm."@;
    assert(p.len() == 6 && p[0] == '.');
    lemma_find_sub_none(n, p, 0);
    lemma_find_char_none(n, '$', 0);
    let a = n + p + rest;
    assert(a.subrange(n.len() as int, n.len() + 6int) =~= p);
    assert forall|k: int| 0 <= k < n.len() implies a[k] != '.' by {
        assert(a[k] == n[k]);
    }
    lemma_find_sub_at(a, p, 0, n.len() as int);
    assert(a.take(n.len() as int) =~= n);
    if forall|k: int| 0 <= k < rest.len() ==> rest[k] != '.' {
        let b = n + "$"@ + rest;
        assert forall|k: int| 0 <= k < b.len() implies b[k] != '.' by {
            if k < n.len() {
                assert(b[k] == n[k]);
            } else if k > n.len() {
                assert(b[k] == rest[k - n.len() - 1]);
            }
        }
        lemma_find_sub_none(b, p, 0);
        assert forall|k: int| 0 <= k < n.len() implies b[k] != '$' by {
            assert(b[k] == n[k]);
        }
        lemma_find_char_at(b, '$', 0, n.len() as int);
        assert(b.take(n.len() as int) =~= n);
    }
}

/// An unresolved name that the kernel lists exactly, always at the same
/// address `a`, resolves to `a`: lines that name it only with a compiler
/// suffix (`.llvm.` or `$`) never change that, wherever they stand.
pub proof fn exact_kernel_name_wins(lines: Seq<Seq<char>>, u: Seq<(String, usize)>, k: int, a: u64)
    requires
        0 <= k < u.len(),
        exists|i: int| 0 <= i < lines.len() && #[trigger] kallsyms_entry(lines[i]) == Some((a, u[k].0@)),
        forall|i: int| 0 <= i < lines.len() && #[trigger] exact_line_for(lines[i], u[k].0@) ==> entry_address(lines[i]) == a,
    ensures
        resolved_address(lines, u, k) == Some(a),
{
    let target = u[k].0@;
    let names = undefined_names(u);
    assert(names[k] == target);
    assert(names_have(names, target));
    let i0 = choose|i: int| 0 <= i < lines.len() && #[trigger] kallsyms_entry(lines[i]) == Some((a, u[k].0@));
    assert(exact_line_for(lines[i0], target));
    assert(a != 0);
    lemma_final_slot_exact(lines, names, target, a);
}

/// An unresolved name that the kernel lists exactly at two different
/// addresses stays unresolved, whatever else the list holds.
pub proof fn ambiguous_kernel_name_stays_unresolved(lines: Seq<Seq<char>>, u: Seq<(String, usize)>, k: int, i: int, j: int, a: u64, b: u64)
    requires
        0 <= k < u.len(),
        0 <= i < lines.len(),
        0 <= j < lines.len(),
        kallsyms_entry(lines[i]) == Some((a, u[k].0@)),
        kallsyms_entry(lines[j]) == Some((b, u[k].0@)),
        a != b,
    ensures
        resolved_address(lines, u, k) is None,
{
    let target = u[k].0@;
    let names = undefined_names(u);
    assert(names[k] == target);
    assert(names_have(names, target));
    assert(exact_line_for(lines[i], target) && exact_line_for(lines[j], target));
    assert(exact_disagree(lines, target));
    lemma_final_slot_exact(lines, names, target, a);
}

fn token_end_from(s: &str, from: usize) -> (r: usize)
    requires
        from <= s@.len(),
    ensures
        r == token_end(s@, from as int),
{
    let n = crate::text::char_len(s);
    let mut i = from;
    while i < n && !white_space(s.get_char(i))
        invariant
            n == s@.len(),
            from <= i <= n,
            token_end(s@, from as int) == token_end(s@, i as int),
        decreases n - i,
    {
        i = i + 1;
    }
    i
}

/// The white-space separated fields of `line`.
fn line_tokens(line: &str) -> (r: Vec<String>)
    ensures
        r@.len() == tokens_from(line@, 0).len(),
        forall|k: int| 0 <= k < r@.len() ==> #[trigger] r@[k]@ == tokens_from(line@, 0)[k],
{
    let n = crate::text::char_len(line);
    let mut out: Vec<String> = Vec::new();
    let mut i: usize = 0;
    let ghost mut done: Seq<Seq<char>> = Seq::empty();
    loop
        invariant
            n == line@.len(),
            0 <= i <= n,
            done + tokens_from(line@, i as int) == tokens_from(line@, 0),
            out@.len() == done.len(),
            forall|k: int| 0 <= k < out@.len() ==> #[trigger] out@[k]@ == done[k],
        decreases n - i,
    {
        let j = skip_white_from(line, i);
        proof {
            lemma_skip_white(line@, i as int);
        }
        if j >= n {
            assert(tokens_from(line@, i as int) =~= Seq::<Seq<char>>::empty());
            assert(done =~= tokens_from(line@, 0));
            return out;
        }
        let e = token_end_from(line, j);
        proof {
            lemma_token_end(line@, j as int);
        }
        let t = crate::text::slice_chars(line, j, e);
        proof {
            assert(tokens_from(line@, i as int) == seq![line@.subrange(j as int, e as int)] + tokens_from(line@, e as int));
            done = done.push(t@);
            assert(done + tokens_from(line@, e as int) =~= done.drop_last() + tokens_from(line@, i as int));
        }
        out.push(t);
        i = e;
    }
}

fn find_sub_from(s: &str, p: &str) -> (r: Option<usize>)
    ensures
        r matches Some(k) ==> k == find_sub(s@, p@, 0),
        r is None ==> find_sub(s@, p@, 0) == -1,
{
    let n = crate::text::char_len(s);
    let m = crate::text::char_len(p);
    let mut i: usize = 0;
    while m <= n && i <= n - m
        invariant
            n == s@.len(),
            m == p@.len(),
            i <= n,
            find_sub(s@, p@, 0) == find_sub(s@, p@, i as int),
        decreases n + 1 - i,
    {
        let window = crate::text::slice_chars(s, i, i + m);
        if crate::text::str_eq(window.as_str(), p) {
            return Some(i);
        }
        if i == n {
            assert(m == 0);
            assert(window@ =~= p@);
            return None;
        }
        i = i + 1;
    }
    None
}

/// The name a kernel symbol is known by without compiler suffixes.
pub fn canonical(name: &str) -> (r: String)
    ensures
        r@ == canonical_name(name@),
{
    match find_sub_from(name, ".llvm.") {
        Some(l) => {
            proof {
                lemma_find_sub_bound(name@, ".llvm."@, 0);
            }
            crate::text::slice_chars(name, 0, l)
        },
        None => {
            let n = crate::text::char_len(name);
            let d = find_char_from(name, '$', 0);
            proof {
                lemma_find_char(name@, '$', 0);
            }
            if d < n {
                crate::text::slice_chars(name, 0, d)
            } else {
                owned(name)
            }
        },
    }
}

proof fn lemma_find_sub_bound(s: Seq<char>, p: Seq<char>, i: int)
    requires
        0 <= i,
    ensures
        find_sub(s, p, i) >= 0 ==> i <= find_sub(s, p, i) && find_sub(s, p, i) + p.len() <= s.len(),
    decreases s.len() + 1 - i,
{
    if i + p.len() <= s.len() && s.subrange(i, i + p.len()) != p {
        lemma_find_sub_bound(s, p, i + 1);
    }
}

/// Whether some unresolved symbol is named `n`.
fn undefined_has(u: &Vec<(String, usize)>, n: &str) -> (r: bool)
    ensures
        r == names_have(undefined_names(u@), n@),
{
    let mut k: usize = 0;
    while k < u.len()
        invariant
            0 <= k <= u@.len(),
            forall|q: int| 0 <= q < k ==> undefined_names(u@)[q] != n@,
        decreases u@.len() - k,
    {
        if crate::text::str_eq(u[k].0.as_str(), n) {
            assert(undefined_names(u@)[k as int] == n@);
            return true;
        }
        k = k + 1;
    }
    false
}

fn step_slot(slot: Option<(u64, bool)>, a: u64, exact: bool) -> (r: Option<(u64, bool)>)
    ensures
        r == slot_step(slot, a, exact),
{
    match slot {
        None => Some((a, exact)),
        Some((p, w)) => if !w && exact {
            Some((a, true))
        } else if w == exact && p != a {
            Some((0, exact))
        } else {
            slot
        },
    }
}

impl ModuleImage {
    /// Resolves the unresolved symbols against the kernel's symbol list
    /// `kallsyms`, one `address kind name` line each. Only nonzero
    /// addresses count, since another module could be unloaded; a name
    /// matches exactly or without its compiler suffix, an exact match wins
    /// over a suffixed one, and a name with two different equally exact
    /// addresses stays unresolved. Each resolved entry becomes absolute at
    /// its address; the count of them is returned.
    pub fn resolve_symbols(&mut self, kallsyms: &str) -> (r: Result<usize, String>)
        requires
            old(self).wf(),
        ensures
            final(self).wf(),
            r == Ok::<usize, String>(resolved_count(lines_from(kallsyms@, 0), old(self).undefined@, old(self).undefined@.len() as int) as usize),
            final(self).bytes@ == resolved_bytes(old(self).bytes@, lines_from(kallsyms@, 0), old(self).undefined@, old(self).undefined@.len() as int),
            final(self).name == old(self).name,
            final(self).vermagic == old(self).vermagic,
            final(self).modinfo == old(self).modinfo,
            final(self).undefined == old(self).undefined,
            final(self).modinfo_header == old(self).modinfo_header,
            final(self).modinfo_alignment == old(self).modinfo_alignment,
    {
        let ghost names = undefined_names(self.undefined@);
        let ghost lines = lines_from(kallsyms@, 0);
        let count_u = self.undefined.len();
        let mut slots: Vec<Option<(u64, bool)>> = Vec::new();
        while slots.len() < count_u
            invariant
                count_u == self.undefined@.len(),
                slots@.len() <= count_u,
                forall|k: int| 0 <= k < slots@.len() ==> #[trigger] slots@[k] is None,
            decreases count_u - slots@.len(),
        {
            slots.push(None);
        }
        let n = crate::text::char_len(kallsyms);
        let mut i: usize = 0;
        let ghost mut done: Seq<Seq<char>> = Seq::empty();
        while i < n
            invariant
                n == kallsyms@.len(),
                0 <= i <= n,
                names == undefined_names(self.undefined@),
                lines == lines_from(kallsyms@, 0),
                done + lines_from(kallsyms@, i as int) == lines,
                slots@.len() == count_u,
                count_u == self.undefined@.len(),
                forall|k: int| 0 <= k < count_u ==> #[trigger] slots@[k] == final_slot(done, names, names[k]),
            decreases n - i,
        {
            let e = find_char_from(kallsyms, '\n', i);
            proof {
                lemma_find_char(kallsyms@, '\n', i as int);
            }
            let line = crate::text::slice_chars(kallsyms, i, e);
            let tokens = line_tokens(line.as_str());
            let ghost entry = kallsyms_entry(line@);
            let mut hit: Option<(u64, String)> = None;
            if tokens.len() == 3 {
                match parse_hex(tokens[0].as_str()) {
                    Some(a) => {
                        if a != 0 {
                            hit = Some((a, owned(tokens[2].as_str())));
                        }
                    },
                    None => {},
                }
            }
            assert(hit matches Some(h) ==> entry == Some((h.0, h.1@)));
            assert(hit is None ==> entry is None);
            let ghost before = slots@;
            if let Some((a, name)) = hit {
                let ghost name_v = name@;
                let exact = undefined_has(&self.undefined, name.as_str());
                let key = if exact { name } else { canonical(name.as_str()) };
                if undefined_has(&self.undefined, key.as_str()) {
                    let mut k: usize = 0;
                    while k < count_u
                        invariant
                            0 <= k <= count_u,
                            slots@.len() == count_u,
                            count_u == self.undefined@.len(),
                            names == undefined_names(self.undefined@),
                            entry == Some((a, name_v)),
                            entry == kallsyms_entry(line@),
                            exact == names_have(names, name_v),
                            key@ == (if exact { name_v } else { canonical_name(name_v) }),
                            names_have(names, key@),
                            forall|q: int| 0 <= q < count_u ==> #[trigger] before[q] == final_slot(done, names, names[q]),
                            forall|q: int| 0 <= q < k ==> #[trigger] slots@[q] == line_slot(before[q], names, names[q], line@),
                            forall|q: int| k <= q < count_u ==> #[trigger] slots@[q] == before[q],
                        decreases count_u - k,
                    {
                        assert(names[k as int] == self.undefined@[k as int].0@);
                        assert(slots@[k as int] == before[k as int]);
                        assert(line_slot(before[k as int], names, names[k as int], line@) == if key@ == names[k as int] {
                            slot_step(before[k as int], a, exact)
                        } else {
                            before[k as int]
                        });
                        let ghost prev = slots@;
                        if crate::text::str_eq(self.undefined[k].0.as_str(), key.as_str()) {
                            let next = step_slot(slots[k], a, exact);
                            slots.set(k, next);
                        }
                        assert(slots@[k as int] == line_slot(before[k as int], names, names[k as int], line@));
                        assert(forall|q: int| 0 <= q < count_u && q != k ==> slots@[q] == prev[q]);
                        k = k + 1;
                    }
                } else {
                    assert forall|q: int| 0 <= q < count_u implies #[trigger] slots@[q] == line_slot(before[q], names, names[q], line@) by {}
                }
            }
            assert forall|q: int| 0 <= q < count_u implies #[trigger] slots@[q] == final_slot(done.push(line@), names, names[q]) by {
                assert(done.push(line@).drop_last() =~= done);
            }
            proof {
                let nd = done.push(line@);
                if e >= n {
                    assert(lines_from(kallsyms@, i as int) =~= seq![line@]);
                    assert(lines_from(kallsyms@, n as int) =~= Seq::<Seq<char>>::empty());
                    assert(nd + lines_from(kallsyms@, n as int) =~= done + lines_from(kallsyms@, i as int));
                } else {
                    assert(lines_from(kallsyms@, i as int) == seq![line@] + lines_from(kallsyms@, e + 1));
                    assert(nd + lines_from(kallsyms@, e + 1) =~= done + lines_from(kallsyms@, i as int));
                }
                done = nd;
            }
            if e >= n {
                i = n;
            } else {
                i = e + 1;
            }
        }
        assert(done =~= lines);
        let mut bytes: Vec<u8> = Vec::new();
        std::mem::swap(&mut bytes, &mut self.bytes);
        let ghost old_bytes = bytes@;
        let blen = bytes.len();
        let mut resolved: usize = 0;
        let mut k: usize = 0;
        while k < count_u
            invariant
                0 <= k <= count_u,
                count_u == self.undefined@.len(),
                slots@.len() == count_u,
                forall|q: int| 0 <= q < count_u ==> #[trigger] slots@[q] == final_slot(lines, names, names[q]),
                names == undefined_names(self.undefined@),
                bytes@.len() == old_bytes.len(),
                blen == old_bytes.len(),
                bytes@ == resolved_bytes(old_bytes, lines, self.undefined@, k as int),
                resolved as nat == resolved_count(lines, self.undefined@, k as int),
                resolved <= k,
                forall|q: int| 0 <= q < self.undefined@.len() ==> #[trigger] self.undefined@[q].1 + 24 <= old_bytes.len(),
            decreases count_u - k,
        {
            if let Some((a, _)) = slots[k] {
                if a != 0 {
                    let off = self.undefined[k].1;
                    let kind = vec![0xf1u8, 0xffu8];
                    write_at(&mut bytes, off + 6, kind.as_slice());
                    let addr = u64_le(a);
                    write_at(&mut bytes, off + 8, addr.as_slice());
                    resolved = resolved + 1;
                }
            }
            k = k + 1;
        }
        self.bytes = bytes;
        Ok(resolved)
    }
}


// ---------------------------------------------------------------------------
// Reading the ELF layout

/// What `object::File::parse` reports when `bytes` is no object file it reads.
pub uninterp spec fn elf_parse_error(bytes: Seq<u8>) -> Option<Seq<char>>;
/// Whether `object` reads `bytes` as an ELF file.
pub uninterp spec fn elf_is_elf(bytes: Seq<u8>) -> bool;
/// Whether `object` reads `bytes` as a 64-bit file.
pub uninterp spec fn elf_is_64(bytes: Seq<u8>) -> bool;
/// Whether `object` reads `bytes` as a little-endian file.
pub uninterp spec fn elf_little_endian(bytes: Seq<u8>) -> bool;
/// Whether `object` reads `bytes` as an AArch64 file.
pub uninterp spec fn elf_is_aarch64(bytes: Seq<u8>) -> bool;
/// Whether `object` reads `bytes` as a relocatable file.
pub uninterp spec fn elf_is_relocatable(bytes: Seq<u8>) -> bool;
/// The index of the section called `name`, if there is one.
pub uninterp spec fn elf_section_index(bytes: Seq<u8>, name: Seq<char>) -> Option<usize>;
/// The alignment of the section called `name`, if there is one.
pub uninterp spec fn elf_section_align(bytes: Seq<u8>, name: Seq<char>) -> Option<u64>;
/// The data of the section called `name`, if there is one.
pub uninterp spec fn elf_section_data(bytes: Seq<u8>, name: Seq<char>) -> Option<Result<Seq<u8>, Seq<char>>>;
/// The file range of the section called `name`, if there is one.
pub uninterp spec fn elf_section_range(bytes: Seq<u8>, name: Seq<char>) -> Option<Option<(u64, u64)>>;
/// The symbols `object` walks in the symbol table, in order: each one's index,
/// whether it is undefined, and its name or the error reading it; none when
/// `bytes` does not parse.
pub uninterp spec fn elf_symbols(bytes: Seq<u8>) -> Option<Seq<(usize, bool, Result<Seq<char>, Seq<char>>)>>;

/// `object::File::parse`: its error text, or none when `bytes` parses.
#[verifier::external_body]
fn object_parse_error(bytes: &[u8]) -> (r: Option<String>)
    ensures
        r is None <==> elf_parse_error(bytes@) is None,
        r matches Some(t) ==> elf_parse_error(bytes@) == Some(t@),
{
    object::File::parse(bytes).err().map(|err| err.to_string())
}

/// `Object::format` is ELF (false when `bytes` does not parse).
#[verifier::external_body]
fn object_is_elf(bytes: &[u8]) -> (r: bool)
    ensures
        r == elf_is_elf(bytes@),
{
    object::File::parse(bytes).is_ok_and(|file| matches!(file.format(), object::BinaryFormat::Elf))
}

/// `Object::is_64` (false when `bytes` does not parse).
#[verifier::external_body]
fn object_is_64(bytes: &[u8]) -> (r: bool)
    ensures
        r == elf_is_64(bytes@),
{
    object::File::parse(bytes).is_ok_and(|file| file.is_64())
}

/// `Object::endianness` is little-endian (false when `bytes` does not parse).
#[verifier::external_body]
fn object_little_endian(bytes: &[u8]) -> (r: bool)
    ensures
        r == elf_little_endian(bytes@),
{
    object::File::parse(bytes).is_ok_and(|file| matches!(file.endianness(), object::Endianness::Little))
}

/// `Object::architecture` is AArch64 (false when `bytes` does not parse).
#[verifier::external_body]
fn object_is_aarch64(bytes: &[u8]) -> (r: bool)
    ensures
        r == elf_is_aarch64(bytes@),
{
    object::File::parse(bytes).is_ok_and(|file| matches!(file.architecture(), object::Architecture::Aarch64))
}

/// `Object::kind` is relocatable (false when `bytes` does not parse).
#[verifier::external_body]
fn object_is_relocatable(bytes: &[u8]) -> (r: bool)
    ensures
        r == elf_is_relocatable(bytes@),
{
    object::File::parse(bytes).is_ok_and(|file| matches!(file.kind(), object::ObjectKind::Relocatable))
}

/// `ObjectSection::index` of the section `Object::section_by_name` finds.
#[verifier::external_body]
fn object_section_index(bytes: &[u8], name: &str) -> (r: Option<usize>)
    ensures
        r == elf_section_index(bytes@, name@),
{
    let file = object::File::parse(bytes).ok()?;
    file.section_by_name(name).map(|section| section.index().0)
}

/// `ObjectSection::align` of the section `Object::section_by_name` finds.
#[verifier::external_body]
fn object_section_align(bytes: &[u8], name: &str) -> (r: Option<u64>)
    ensures
        r == elf_section_align(bytes@, name@),
{
    let file = object::File::parse(bytes).ok()?;
    file.section_by_name(name).map(|section| section.align())
}

/// `ObjectSection::data` of the section `Object::section_by_name` finds.
#[verifier::external_body]
fn object_section_data(bytes: &[u8], name: &str) -> (r: Option<Result<Vec<u8>, String>>)
    ensures
        r is None <==> elf_section_data(bytes@, name@) is None,
        r matches Some(Ok(d)) ==> elf_section_data(bytes@, name@) == Some(Ok::<Seq<u8>, Seq<char>>(d@)),
        r matches Some(Err(t)) ==> elf_section_data(bytes@, name@) == Some(Err::<Seq<u8>, Seq<char>>(t@)),
{
    let file = object::File::parse(bytes).ok()?;
    let section = file.section_by_name(name)?;
    Some(section.data().map(|data| data.to_vec()).map_err(|err| err.to_string()))
}

/// `ObjectSection::file_range` of the section `Object::section_by_name` finds.
#[verifier::external_body]
fn object_section_range(bytes: &[u8], name: &str) -> (r: Option<Option<(u64, u64)>>)
    ensures
        r == elf_section_range(bytes@, name@),
{
    let file = object::File::parse(bytes).ok()?;
    file.section_by_name(name).map(|section| section.file_range())
}

/// The plain values of symbol entries.
pub open spec fn symbol_entry_views(v: Seq<(usize, bool, Result<String, String>)>) -> Seq<(usize, bool, Result<Seq<char>, Seq<char>>)> {
    Seq::new(v.len(), |k: int| (v[k].0, v[k].1, match v[k].2 {
        Ok(n) => Ok(n@),
        Err(t) => Err(t@),
    }))
}

/// `Object::symbols`: each symbol's `ObjectSymbol::index`, `is_undefined` and
/// `name`, in the order the iterator gives them.
#[verifier::external_body]
fn object_symbols(bytes: &[u8]) -> (r: Option<Vec<(usize, bool, Result<String, String>)>>)
    ensures
        r is None <==> elf_symbols(bytes@) is None,
        r matches Some(v) ==> elf_symbols(bytes@) == Some(symbol_entry_views(v@)),
{
    let file = object::File::parse(bytes).ok()?;
    Some(file.symbols().map(|symbol| (symbol.index().0, symbol.is_undefined(), symbol.name().map(|name| name.to_owned()).map_err(|err| err.to_string()))).collect())
}

/// The text of the error `String::from_utf8` reports for `bytes`.
pub uninterp spec fn utf8_error_text(bytes: Seq<u8>) -> Seq<char>;

/// `String::from_utf8`: the text of `bytes` when they are UTF-8, else the
/// error's text.
#[verifier::external_body]
fn utf8_text(bytes: Vec<u8>) -> (r: Result<String, String>)
    ensures
        r is Ok <==> vstd::utf8::valid_utf8(bytes@),
        r matches Ok(t) ==> t@ == vstd::utf8::decode_utf8(bytes@),
        r matches Err(t) ==> t@ == utf8_error_text(bytes@),
{
    String::from_utf8(bytes).map_err(|err| err.to_string())
}

/// A section of the module as `object` reads it.
pub struct SectionFacts {
    pub index: usize,
    pub align: u64,
    pub data: Result<Vec<u8>, String>,
}

/// What the module checks read of an ELF file.
pub struct ElfLayout {
    /// The parse error, when the file does not parse.
    pub parse_error: Option<String>,
    /// ELF, 64-bit, little-endian, AArch64 and relocatable.
    pub supported: bool,
    pub modinfo: Option<SectionFacts>,
    /// The file range of `.symtab`: none without the section, `Some(None)`
    /// when it has no data in the file.
    pub symtab_range: Option<Option<(u64, u64)>>,
    /// The undefined symbols in table order, each with its index, or the
    /// first name that could not be read.
    pub symbols: Result<Vec<(String, usize)>, String>,
}

/// A section's facts as plain values.
pub struct SectionView {
    pub index: usize,
    pub align: u64,
    pub data: Result<Seq<u8>, Seq<char>>,
}

/// An ELF layout as plain values.
pub struct LayoutView {
    pub parse_error: Option<Seq<char>>,
    pub supported: bool,
    pub modinfo: Option<SectionView>,
    pub symtab_range: Option<Option<(u64, u64)>>,
    pub symbols: Result<Seq<(Seq<char>, usize)>, Seq<char>>,
}

impl ElfLayout {
    pub open spec fn view(&self) -> LayoutView {
        LayoutView {
            parse_error: match self.parse_error {
                Some(t) => Some(t@),
                None => None,
            },
            supported: self.supported,
            modinfo: match self.modinfo {
                Some(m) => Some(SectionView {
                    index: m.index,
                    align: m.align,
                    data: match m.data {
                        Ok(d) => Ok(d@),
                        Err(t) => Err(t@),
                    },
                }),
                None => None,
            },
            symtab_range: self.symtab_range,
            symbols: match self.symbols {
                Ok(v) => Ok(symbol_views(v@)),
                Err(t) => Err(t@),
            },
        }
    }
}

/// The undefined symbols among entries `i..` of `es`, each with its index,
/// or the first name that could not be read.
pub open spec fn undefined_from(es: Seq<(usize, bool, Result<Seq<char>, Seq<char>>)>, i: int) -> Result<Seq<(Seq<char>, usize)>, Seq<char>>
    decreases es.len() - i,
{
    if i >= es.len() || i < 0 {
        Ok(Seq::empty())
    } else if !es[i].1 {
        undefined_from(es, i + 1)
    } else {
        match es[i].2 {
            Err(t) => Err(t),
            Ok(n) => match undefined_from(es, i + 1) {
                Ok(rest) => Ok(seq![(n, es[i].0)] + rest),
                Err(t) => Err(t),
            },
        }
    }
}

/// The layout `object` reads of `bytes`; the undefined symbols are read when
/// `.symtab` has data in the file.
pub open spec fn layout_of(bytes: Seq<u8>) -> LayoutView {
    LayoutView {
        parse_error: elf_parse_error(bytes),
        supported: elf_is_elf(bytes) && elf_is_64(bytes) && elf_little_endian(bytes) && elf_is_aarch64(bytes)
            && elf_is_relocatable(bytes),
        modinfo: match (elf_section_index(bytes, ".modinfo"@), elf_section_align(bytes, ".modinfo"@), elf_section_data(bytes, ".modinfo"@)) {
            (Some(index), Some(align), Some(data)) => Some(SectionView { index, align, data }),
            _ => None,
        },
        symtab_range: elf_section_range(bytes, ".symtab"@),
        symbols: match elf_section_range(bytes, ".symtab"@) {
            Some(Some(_)) => match elf_symbols(bytes) {
                Some(es) => undefined_from(es, 0),
                None => Ok(Seq::empty()),
            },
            _ => Ok(Seq::empty()),
        },
    }
}


/// Reads the layout facts of `bytes` with `object`.
pub fn read_layout(bytes: &[u8]) -> (r: ElfLayout)
    ensures
        r.view() == layout_of(bytes@),
{
    let parse_error = object_parse_error(bytes);
    let supported = object_is_elf(bytes) && object_is_64(bytes) && object_little_endian(bytes) && object_is_aarch64(bytes)
        && object_is_relocatable(bytes);
    proof {
        reveal_strlit(".modinfo");
        reveal_strlit(".symtab");
    }
    let modinfo = match (object_section_index(bytes, ".modinfo"), object_section_align(bytes, ".modinfo"), object_section_data(bytes, ".modinfo")) {
        (Some(index), Some(align), Some(data)) => Some(SectionFacts { index, align, data }),
        _ => None,
    };
    let symtab_range = object_section_range(bytes, ".symtab");
    let symbols = match symtab_range {
        Some(Some(_)) => read_undefined(bytes),
        _ => Ok(Vec::new()),
    };
    let r = ElfLayout { parse_error, supported, modinfo, symtab_range, symbols };
    proof {
        assert(r.view().modinfo == layout_of(bytes@).modinfo);
        match symtab_range {
            Some(Some(_)) => {},
            _ => {
                assert(r.view().symbols matches Ok(v) && v =~= Seq::<(Seq<char>, usize)>::empty());
            },
        }
        assert(r.view().symbols == layout_of(bytes@).symbols);
        assert(r.view().parse_error == layout_of(bytes@).parse_error);
    }
    r
}

/// `r` with `done` in front of its symbols.
pub open spec fn after_symbols(done: Seq<(Seq<char>, usize)>, r: Result<Seq<(Seq<char>, usize)>, Seq<char>>) -> Result<Seq<(Seq<char>, usize)>, Seq<char>> {
    match r {
        Ok(rest) => Ok(done + rest),
        Err(t) => Err(t),
    }
}

/// The plain values of read symbols.
pub open spec fn symbol_views(v: Seq<(String, usize)>) -> Seq<(Seq<char>, usize)> {
    Seq::new(v.len(), |k: int| (v[k].0@, v[k].1))
}

/// The undefined symbols of the symbol table, in table order.
fn read_undefined(bytes: &[u8]) -> (r: Result<Vec<(String, usize)>, String>)
    ensures
        ({
            let want = match elf_symbols(bytes@) {
                Some(es) => undefined_from(es, 0),
                None => Ok(Seq::empty()),
            };
            match r {
                Ok(v) => want == Ok::<Seq<(Seq<char>, usize)>, Seq<char>>(symbol_views(v@)),
                Err(t) => want == Err::<Seq<(Seq<char>, usize)>, Seq<char>>(t@),
            }
        }),
{
    let entries = match object_symbols(bytes) {
        Some(v) => v,
        None => {
            let none: Vec<(String, usize)> = Vec::new();
            assert(symbol_views(none@) =~= Seq::<(Seq<char>, usize)>::empty());
            return Ok(none);
        },
    };
    let ghost es = symbol_entry_views(entries@);
    let mut out: Vec<(String, usize)> = Vec::new();
    let mut i: usize = 0;
    assert(after_symbols(symbol_views(out@), undefined_from(es, 0)) =~= undefined_from(es, 0)) by {
        match undefined_from(es, 0) {
            Ok(rest) => {
                assert(symbol_views(out@) + rest =~= rest);
            },
            Err(_) => {},
        }
    }
    while i < entries.len()
        invariant
            0 <= i <= entries@.len(),
            es == symbol_entry_views(entries@),
            elf_symbols(bytes@) == Some(es),
            undefined_from(es, 0) == after_symbols(symbol_views(out@), undefined_from(es, i as int)),
        decreases entries@.len() - i,
    {
        let ghost done = symbol_views(out@);
        let (index, undefined) = (entries[i].0, entries[i].1);
        assert(es[i as int].0 == index && es[i as int].1 == undefined);
        if undefined {
            match &entries[i].2 {
                Err(t) => {
                    assert(es[i as int].2 == Err::<Seq<char>, Seq<char>>(t@));
                    return Err(owned(t.as_str()));
                },
                Ok(n) => {
                    let ghost nv = n@;
                    assert(es[i as int].2 == Ok::<Seq<char>, Seq<char>>(nv));
                    out.push((owned(n.as_str()), index));
                    proof {
                        let nd = symbol_views(out@);
                        assert(nd =~= done.push((nv, index)));
                        match undefined_from(es, i + 1) {
                            Ok(rest) => {
                                assert(done + (seq![(nv, index)] + rest) =~= nd + rest);
                            },
                            Err(_) => {},
                        }
                    }
                },
            }
        }
        i = i + 1;
    }
    proof {
        assert(symbol_views(out@) + Seq::<(Seq<char>, usize)>::empty() =~= symbol_views(out@));
    }
    Ok(out)
}


// ---------------------------------------------------------------------------
// Accepting a module image

/// A byte that may stand in a module name.
pub open spec fn name_byte(c: u8) -> bool {
    (48 <= c <= 57) || (65 <= c <= 90) || (97 <= c <= 122) || c == 95
}

/// A module name: not empty, ASCII letters, digits and `_` only.
pub open spec fn module_name_ok(nb: Seq<u8>) -> bool {
    nb.len() > 0 && forall|k: int| 0 <= k < nb.len() ==> #[trigger] name_byte(nb[k])
}

/// The value of metadata entry `key`: the rest of the first entry that
/// starts with `key=`.
pub open spec fn modinfo_value(d: Seq<u8>, key: Seq<char>) -> Option<Seq<u8>> {
    first_field(pieces_from(d, 0), key_bytes(key))
}

/// The alignment a section declares, at least 1.
pub open spec fn declared_alignment(align: u64) -> nat {
    if align == 0 { 1 } else { align as nat }
}

/// The section header offset the ELF header declares.
pub open spec fn section_offset(b: Seq<u8>) -> nat {
    le_value(b.subrange(40, 48))
}

/// The unresolved symbols with a name, each with its entry's offset.
pub open spec fn undefined_entries(syms: Seq<(Seq<char>, usize)>, symoff: int) -> Seq<(Seq<char>, int)>
    decreases syms.len(),
{
    if syms.len() == 0 {
        Seq::empty()
    } else {
        let s = syms.last();
        undefined_entries(syms.drop_last(), symoff) + if s.0.len() > 0 { seq![(s.0, symoff + s.1 * 24)] } else { Seq::empty() }
    }
}

/// Whether the module checks accept an image of `b` whose ELF layout is
/// `l`: a little-endian AArch64 ELF64 relocatable file; a `.modinfo`
/// section with a power-of-two alignment of at most 64 MiB and readable
/// data holding UTF-8 `name=` and `vermagic=` entries, the name made of
/// ASCII letters, digits and `_`; 64-byte section headers, the metadata
/// header inside the image; a `.symtab` section inside the image, every
/// named undefined symbol's entry inside it.
pub open spec fn accepted(b: Seq<u8>, l: LayoutView) -> bool {
    &&& l.parse_error is None
    &&& l.supported
    &&& l.modinfo matches Some(m)
    &&& declared_alignment(m.align) <= usize::MAX
    &&& is_pow2(declared_alignment(m.align))
    &&& declared_alignment(m.align) <= 64 * 1024 * 1024
    &&& m.data matches Ok(d)
    &&& modinfo_value(d, "name="@) matches Some(nb)
    &&& vstd::utf8::valid_utf8(nb)
    &&& modinfo_value(d, "vermagic="@) matches Some(vb)
    &&& vstd::utf8::valid_utf8(vb)
    &&& module_name_ok(nb)
    &&& b.len() >= 60
    &&& section_offset(b) <= usize::MAX
    &&& b[58] == 64 && b[59] == 0
    &&& m.index * 64 <= usize::MAX
    &&& section_offset(b) + m.index * 64 + 64 <= b.len()
    &&& l.symtab_range matches Some(Some((off, size)))
    &&& off + size <= b.len()
    &&& l.symbols matches Ok(syms)
    &&& forall|k: int| 0 <= k < syms.len() && (#[trigger] syms[k]).0.len() > 0 ==> syms[k].1 * 24 + 24 <= size
}

/// The image the checks accept: `b` with its name, version magic,
/// metadata and the offsets of its named undefined symbols.
pub open spec fn accepted_image(img: ModuleImage, b: Seq<u8>, l: LayoutView) -> bool {
    let m = l.modinfo.unwrap();
    let d = m.data->Ok_0;
    let (off, size) = l.symtab_range.unwrap().unwrap();
    let entries = undefined_entries(l.symbols->Ok_0, off as int);
    &&& img.bytes@ == b
    &&& img.name@ == vstd::utf8::decode_utf8(modinfo_value(d, "name="@).unwrap())
    &&& img.vermagic@ == vstd::utf8::decode_utf8(modinfo_value(d, "vermagic="@).unwrap())
    &&& img.modinfo@ == d
    &&& img.modinfo_alignment == declared_alignment(m.align)
    &&& img.modinfo_header == section_offset(b) + m.index * 64
    &&& img.undefined@.len() == entries.len()
    &&& forall|k: int| 0 <= k < entries.len() ==> (#[trigger] img.undefined@[k]).0@ == entries[k].0 && img.undefined@[k].1 == entries[k].1
    &&& img.wf()
}

/// The value after `key` in the first metadata entry that starts with it.
fn modinfo_field(d: &[u8], key: &[u8]) -> (r: Option<Vec<u8>>)
    ensures
        r matches Some(v) ==> first_field(pieces_from(d@, 0), key@) == Some(v@),
        r is None ==> first_field(pieces_from(d@, 0), key@) is None,
{
    let ghost s = d@;
    let mut start: usize = 0;
    loop
        invariant
            s == d@,
            0 <= start <= s.len(),
            first_field(pieces_from(s, 0), key@) == first_field(pieces_from(s, start as int), key@),
        decreases s.len() - start,
    {
        let mut e = start;
        while e < d.len() && d[e] != 0
            invariant
                start <= e <= s.len(),
                s == d@,
                forall|k: int| start <= k < e ==> s[k] != 0,
            decreases s.len() - e,
        {
            e = e + 1;
        }
        proof {
            lemma_zero_at_is(s, start as int, e as int);
        }
        let ghost piece = s.subrange(start as int, e as int);
        proof {
            if e >= s.len() {
                assert(pieces_from(s, start as int) =~= seq![piece]);
            } else {
                assert(pieces_from(s, start as int) == seq![piece] + pieces_from(s, e + 1));
            }
        }
        if bytes_start_with(d, start, e, key) {
            let mut v: Vec<u8> = Vec::new();
            let mut k = start + key.len();
            while k < e
                invariant
                    start + key@.len() <= k <= e <= s.len(),
                    s == d@,
                    v@ == s.subrange(start + key@.len(), k as int),
                decreases e - k,
            {
                v.push(d[k]);
                assert(v@ =~= s.subrange(start + key@.len(), k + 1));
                k = k + 1;
            }
            proof {
                assert(piece.skip(key@.len() as int) =~= v@);
                assert((seq![piece] + pieces_from(s, e + 1))[0] == piece);
            }
            return Some(v);
        }
        if e >= d.len() {
            proof {
                assert(seq![piece].skip(1) =~= Seq::<Seq<u8>>::empty());
            }
            return None;
        }
        proof {
            assert((seq![piece] + pieces_from(s, e + 1)).skip(1) =~= pieces_from(s, e + 1));
        }
        start = e + 1;
    }
}

fn valid_module_name(nb: &[u8]) -> (r: bool)
    ensures
        r == module_name_ok(nb@),
{
    if nb.len() == 0 {
        return false;
    }
    let mut k: usize = 0;
    while k < nb.len()
        invariant
            0 <= k <= nb@.len(),
            forall|q: int| 0 <= q < k ==> #[trigger] name_byte(nb@[q]),
        decreases nb@.len() - k,
    {
        let c = nb[k];
        if !((48 <= c && c <= 57) || (65 <= c && c <= 90) || (97 <= c && c <= 122) || c == 95) {
            assert(!name_byte(nb@[k as int]));
            return false;
        }
        k = k + 1;
    }
    true
}

proof fn lemma_entries_bound(syms: Seq<(Seq<char>, usize)>, symoff: int, size: int, len: int)
    requires
        forall|k: int| 0 <= k < syms.len() && (#[trigger] syms[k]).0.len() > 0 ==> syms[k].1 * 24 + 24 <= size,
        symoff + size <= len,
        symoff >= 0,
    ensures
        forall|k: int| 0 <= k < undefined_entries(syms, symoff).len() ==> #[trigger] undefined_entries(syms, symoff)[k].1 + 24 <= len,
    decreases syms.len(),
{
    if syms.len() > 0 {
        let prev = syms.drop_last();
        assert forall|k: int| 0 <= k < prev.len() && (#[trigger] prev[k]).0.len() > 0 implies prev[k].1 * 24 + 24 <= size by {
            assert(prev[k] == syms[k]);
        }
        lemma_entries_bound(prev, symoff, size, len);
        let last = syms.last();
        assert(syms[syms.len() - 1] == last);
        let pe = undefined_entries(prev, symoff);
        let tail: Seq<(Seq<char>, int)> = if last.0.len() > 0 { seq![(last.0, symoff + last.1 * 24)] } else { Seq::empty() };
        assert(undefined_entries(syms, symoff) == pe + tail);
        assert forall|k: int| 0 <= k < undefined_entries(syms, symoff).len() implies #[trigger] undefined_entries(syms, symoff)[k].1 + 24 <= len by {
            if k < pe.len() {
                assert(undefined_entries(syms, symoff)[k] == pe[k]);
            } else {
                assert(undefined_entries(syms, symoff)[k] == tail[k - pe.len()]);
            }
        }
    }
}

proof fn lemma_symbol_outside(b: Seq<u8>, l: LayoutView, syms: Seq<(Seq<char>, usize)>, off: u64, size: u64, k: int)
    requires
        l.symbols == Ok::<Seq<(Seq<char>, usize)>, Seq<char>>(syms),
        l.symtab_range == Some(Some((off, size))),
        0 <= k < syms.len(),
        syms[k].0.len() > 0,
        syms[k].1 * 24 + 24 > size,
    ensures
        !accepted(b, l),
{
    if accepted(b, l) {
        assert(l.symbols matches Ok(s2) && s2 == syms);
        assert(forall|q: int| 0 <= q < syms.len() && (#[trigger] syms[q]).0.len() > 0 ==> syms[q].1 * 24 + 24 <= size);
        assert(syms[k].1 * 24 + 24 <= size);
    }
}

impl ModuleImage {
    /// Checks an image against the ELF layout `object` read of it, and keeps
    /// what loading needs: name, version magic, metadata location and the
    /// named undefined symbols with their symbol table offsets.
    pub fn from_layout(bytes: Vec<u8>, layout: ElfLayout) -> (r: Result<ModuleImage, String>)
        ensures
            r is Ok <==> accepted(bytes@, layout.view()),
            r matches Ok(img) ==> accepted_image(img, bytes@, layout.view()),
    {
        let ghost lv = layout.view();
        let ghost b = bytes@;
        if let Some(err) = layout.parse_error {
            return Err(err);
        }
        if !layout.supported {
            return Err(owned("LKM loader requires a little-endian AArch64 ELF64 relocatable module"));
        }
        let section = match layout.modinfo {
            Some(section) => section,
            None => {
                return Err(owned("missing .modinfo"));
            },
        };
        let align: u64 = if section.align == 0 { 1 } else { section.align };
        if align > usize::MAX as u64 {
            return Err(owned("module metadata alignment is too large"));
        }
        let alignment = align as usize;
        if !power_of_two(align) || alignment > 64 * 1024 * 1024 {
            return Err(owned("invalid module metadata alignment"));
        }
        let modinfo = match section.data {
            Ok(d) => d,
            Err(t) => {
                return Err(t);
            },
        };
        proof {
            reveal_strlit("name=");
            reveal_strlit("vermagic=");
        }
        let name_key = ascii_key("name=");
        let name_bytes = match modinfo_field(modinfo.as_slice(), name_key.as_slice()) {
            Some(v) => v,
            None => {
                return Err(owned("missing module metadata"));
            },
        };
        let ghost nb = name_bytes@;
        let name_ok = valid_module_name(name_bytes.as_slice());
        let name = match utf8_text(name_bytes) {
            Ok(t) => t,
            Err(t) => {
                return Err(t);
            },
        };
        let vermagic_key = ascii_key("vermagic=");
        let vermagic_bytes = match modinfo_field(modinfo.as_slice(), vermagic_key.as_slice()) {
            Some(v) => v,
            None => {
                return Err(owned("missing module metadata"));
            },
        };
        let vermagic = match utf8_text(vermagic_bytes) {
            Ok(t) => t,
            Err(t) => {
                return Err(t);
            },
        };
        if !name_ok {
            return Err(owned("invalid module name"));
        }
        if bytes.len() < 48 {
            return Err(owned("truncated ELF header"));
        }
        let shoff64 = read_u64_le(bytes.as_slice(), 40);
        if shoff64 > usize::MAX as u64 {
            return Err(owned("section offset is too large"));
        }
        let shoff = shoff64 as usize;
        if bytes.len() < 60 || bytes[58] != 64 || bytes[59] != 0 {
            return Err(owned("unsupported ELF section header size"));
        }
        if section.index > usize::MAX / 64 || shoff > usize::MAX - section.index * 64 {
            return Err(owned("section header overflow"));
        }
        let modinfo_header = shoff + section.index * 64;
        if modinfo_header > usize::MAX - 64 {
            return Err(owned("ELF range overflow"));
        }
        if modinfo_header + 64 > bytes.len() {
            return Err(owned("ELF section outside the module image"));
        }
        let (symoff64, symsize64) = match layout.symtab_range {
            None => {
                return Err(owned("missing .symtab"));
            },
            Some(None) => {
                return Err(owned("missing symbol data"));
            },
            Some(Some(range)) => range,
        };
        if symoff64 > usize::MAX as u64 {
            return Err(owned("symbol offset is too large"));
        }
        if symsize64 > usize::MAX as u64 {
            return Err(owned("symbol table is too large"));
        }
        let symoff = symoff64 as usize;
        let symsize = symsize64 as usize;
        if symoff > usize::MAX - symsize {
            return Err(owned("ELF range overflow"));
        }
        if symoff + symsize > bytes.len() {
            return Err(owned("ELF section outside the module image"));
        }
        let symbols = match layout.symbols {
            Ok(v) => v,
            Err(t) => {
                return Err(t);
            },
        };
        let ghost syms = symbol_views(symbols@);
        let mut undefined: Vec<(String, usize)> = Vec::new();
        let mut k: usize = 0;
        while k < symbols.len()
            invariant
                0 <= k <= symbols@.len(),
                syms == symbol_views(symbols@),
                lv == layout.view(),
                b == bytes@,
                lv.symbols == Ok::<Seq<(Seq<char>, usize)>, Seq<char>>(syms),
                lv.symtab_range == Some(Some((symoff64, symsize64))),
                symsize == symsize64,
                symoff + symsize <= b.len(),
                symoff + symsize <= usize::MAX,
                forall|q: int| 0 <= q < k && (#[trigger] syms[q]).0.len() > 0 ==> syms[q].1 * 24 + 24 <= symsize,
                undefined@.len() == undefined_entries(syms.take(k as int), symoff as int).len(),
                forall|q: int| 0 <= q < undefined@.len() ==> (#[trigger] undefined@[q]).0@ == undefined_entries(syms.take(k as int), symoff as int)[q].0
                    && undefined@[q].1 == undefined_entries(syms.take(k as int), symoff as int)[q].1,
            decreases symbols@.len() - k,
        {
            let (sym_name, index) = (&symbols[k].0, symbols[k].1);
            assert(syms.take(k + 1).drop_last() =~= syms.take(k as int));
            assert(syms.take(k + 1).last() == syms[k as int]);
            if crate::text::char_len(sym_name.as_str()) == 0 {
                k = k + 1;
                continue;
            }
            assert(syms[k as int].0 == sym_name@ && syms[k as int].1 == index);
            if index > usize::MAX / 24 {
                proof {
                    assert(index * 24 + 24 > symsize) by (nonlinear_arith)
                        requires
                            index > usize::MAX / 24,
                            symsize <= usize::MAX;
                    lemma_symbol_outside(b, lv, syms, symoff64, symsize64, k as int);
                }
                return Err(owned("symbol offset overflow"));
            }
            let offset = index * 24;
            if offset > symsize || symsize - offset < 24 {
                proof {
                    lemma_symbol_outside(b, lv, syms, symoff64, symsize64, k as int);
                }
                return Err(owned("symbol outside .symtab"));
            }
            let ghost before = undefined@;
            undefined.push((owned(sym_name.as_str()), symoff + offset));
            proof {
                assert forall|q: int| 0 <= q < undefined@.len() implies (#[trigger] undefined@[q]).0@ == undefined_entries(syms.take(k + 1), symoff as int)[q].0
                    && undefined@[q].1 == undefined_entries(syms.take(k + 1), symoff as int)[q].1 by {
                    if q < before.len() {
                        assert(undefined@[q] == before[q]);
                    }
                }
            }
            k = k + 1;
        }
        assert(syms.take(symbols@.len() as int) =~= syms);
        proof {
            lemma_entries_bound(syms, symoff as int, symsize as int, b.len() as int);
        }
        Ok(ModuleImage { bytes, name, vermagic, modinfo_header, modinfo_alignment: alignment, modinfo, undefined })
    }

    /// Reads and checks a packaged module image (see `from_layout`).
    pub fn parse(bytes: Vec<u8>) -> (r: Result<ModuleImage, String>)
        ensures
            r is Ok <==> accepted(bytes@, layout_of(bytes@)),
            r matches Ok(img) ==> accepted_image(img, bytes@, layout_of(bytes@)),
    {
        let layout = read_layout(bytes.as_slice());
        ModuleImage::from_layout(bytes, layout)
    }
}

} // verus!
