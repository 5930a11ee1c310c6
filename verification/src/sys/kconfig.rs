//! Kernel build options, as the kernel publishes them gzip-compressed.
use std::io::Read;

use vstd::prelude::*;

use crate::errors::{Error, Result};
use crate::paths::{trim, trimmed};
use crate::text::{slice_chars, str_eq};

verus! {

/// What reading the first gzip member in `data` to a string gives: its text
/// when it decompresses and is valid UTF-8, otherwise the decoder's error text.
pub uninterp spec fn gunzipped_text(data: Seq<u8>) -> core::result::Result<Seq<char>, Seq<char>>;

/// Decompresses the first gzip member of `data` into text
/// (`flate2::read::GzDecoder` read to a string). The outcome, text or the
/// displayed I/O error, is named by [`gunzipped_text`].
#[verifier::external_body]
fn gunzip_text(data: &[u8]) -> (r: core::result::Result<String, String>)
    ensures
        r is Ok <==> gunzipped_text(data@) is Ok,
        r matches Ok(t) ==> t@ == gunzipped_text(data@)->Ok_0,
        r matches Err(m) ==> m@ == gunzipped_text(data@)->Err_0,
{
    let mut text = String::new();
    match flate2::read::GzDecoder::new(data).read_to_string(&mut text) {
        Ok(_) => Ok(text),
        Err(e) => Err(e.to_string()),
    }
}

/// The pieces of `s` between `\n` characters, after `acc` and the partial
/// piece `cur`, empty pieces kept.
pub open spec fn pieces_from(s: Seq<char>, acc: Seq<Seq<char>>, cur: Seq<char>) -> Seq<Seq<char>>
    decreases s.len(),
{
    if s.len() == 0 {
        acc.push(cur)
    } else if s[0] == '\n' {
        pieces_from(s.drop_first(), acc.push(cur), Seq::empty())
    } else {
        pieces_from(s.drop_first(), acc, cur.push(s[0]))
    }
}

/// The first `=` in `line`, or -1.
pub open spec fn first_eq(line: Seq<char>) -> int {
    if exists|i: int| 0 <= i < line.len() && line[i] == '=' {
        choose|i: int| 0 <= i < line.len() && line[i] == '=' && forall|j: int| 0 <= j < i ==> line[j] != '='
    } else {
        -1
    }
}

/// A `key=y` line that is not a comment.
pub open spec fn line_enables(line: Seq<char>, key: Seq<char>) -> bool {
    let i = first_eq(line);
    !(line.len() > 0 && line[0] == '#') && i >= 0 && trimmed(line.subrange(0, i)) == key && trimmed(
        line.skip(i + 1),
    ) == "y"@
}

/// Whether some line of the configuration text sets `key` to `y`. A
/// trailing `\r` never matters here, since both sides are trimmed.
pub open spec fn config_enables(text: Seq<char>, key: Seq<char>) -> bool {
    let lines = pieces_from(text, Seq::empty(), Seq::empty());
    exists|i: int| 0 <= i < lines.len() && #[trigger] line_enables(lines[i], key)
}

fn check_line(line: &str, key: &str) -> (r: bool)
    ensures
        r == line_enables(line@, key@),
{
    let n = line.unicode_len();
    if n > 0 && line.get_char(0) == '#' {
        return false;
    }
    let mut i: usize = 0;
    while i < n && line.get_char(i) != '='
        invariant
            n == line@.len(),
            0 <= i <= n,
            forall|j: int| 0 <= j < i ==> line@[j] != '=',
        decreases n - i,
    {
        i = i + 1;
    }
    if i == n {
        return false;
    }
    proof {
        let c = choose|c: int| 0 <= c < line@.len() && line@[c] == '=' && forall|j: int| 0 <= j < c ==> line@[j] != '=';
        assert(c == i) by {
            if c < i {
            } else if c > i {
            }
        }
        reveal_strlit("y");
    }
    let k = slice_chars(line, 0, i);
    let v = slice_chars(line, i + 1, n);
    assert(line@.subrange(i + 1, n as int) =~= line@.skip(i + 1));
    let kt = trim(k.as_str());
    let vt = trim(v.as_str());
    str_eq(kt.as_str(), key) && str_eq(vt.as_str(), "y")
}

/// Whether the configuration text sets `key` to `y`.
pub fn config_text_enables(text: &str, key: &str) -> (r: bool)
    ensures
        r == config_enables(text@, key@),
{
    let n = text.unicode_len();
    let mut start: usize = 0;
    let mut i: usize = 0;
    let ghost mut acc: Seq<Seq<char>> = Seq::empty();
    assert(text@.skip(0) =~= text@);
    assert(text@.subrange(0, 0) =~= Seq::<char>::empty());
    while i < n
        invariant
            n == text@.len(),
            0 <= start <= i <= n,
            pieces_from(text@.skip(i as int), acc, text@.subrange(start as int, i as int)) == pieces_from(text@, Seq::empty(), Seq::empty()),
            forall|q: int| 0 <= q < acc.len() ==> !#[trigger] line_enables(acc[q], key@),
        decreases n - i,
    {
        let c = text.get_char(i);
        let ghost rest = text@.skip(i as int);
        assert(rest.drop_first() =~= text@.skip(i + 1));
        assert(rest[0] == c);
        if c == '\n' {
            let line = slice_chars(text, start, i);
            if check_line(line.as_str(), key) {
                proof {
                    let lines = pieces_from(text@, Seq::empty(), Seq::empty());
                    lemma_pieces_keep(text@.skip(i + 1), acc.push(line@), Seq::empty());
                    assert(lines[acc.len() as int] == line@);
                }
                return true;
            }
            proof {
                acc = acc.push(line@);
                assert(text@.subrange(i + 1, i + 1) =~= Seq::<char>::empty());
            }
            start = i + 1;
        } else {
            assert(text@.subrange(start as int, i + 1) =~= text@.subrange(start as int, i as int).push(c));
        }
        i = i + 1;
    }
    let line = slice_chars(text, start, n);
    proof {
        assert(text@.skip(n as int) =~= Seq::<char>::empty());
        let lines = pieces_from(text@, Seq::empty(), Seq::empty());
        assert(lines == acc.push(line@));
    }
    if check_line(line.as_str(), key) {
        proof {
            let lines = pieces_from(text@, Seq::empty(), Seq::empty());
            assert(lines[acc.len() as int] == line@);
        }
        return true;
    }
    proof {
        let lines = pieces_from(text@, Seq::empty(), Seq::empty());
        assert forall|q: int| 0 <= q < lines.len() implies !#[trigger] line_enables(lines[q], key@) by {
            if q < acc.len() {
                assert(lines[q] == acc[q]);
            }
        }
    }
    false
}

/// Pieces already collected stay in front.
proof fn lemma_pieces_keep(s: Seq<char>, acc: Seq<Seq<char>>, cur: Seq<char>)
    ensures
        pieces_from(s, acc, cur).len() > acc.len(),
        forall|q: int| 0 <= q < acc.len() ==> #[trigger] pieces_from(s, acc, cur)[q] == acc[q],
    decreases s.len(),
{
    if s.len() > 0 {
        if s[0] == '\n' {
            lemma_pieces_keep(s.drop_first(), acc.push(cur), Seq::empty());
            assert forall|q: int| 0 <= q < acc.len() implies #[trigger] pieces_from(s, acc, cur)[q] == acc[q] by {
                assert(pieces_from(s.drop_first(), acc.push(cur), Seq::empty())[q] == acc.push(cur)[q]);
            }
        } else {
            lemma_pieces_keep(s.drop_first(), acc, cur.push(s[0]));
        }
    }
}

/// Whether the kernel was built with `key=y`, read from the gzip-compressed
/// configuration the kernel publishes.
pub fn check_kernel_config(compressed: &[u8], key: &str) -> (r: Result<bool>)
    ensures
        r is Err <==> gunzipped_text(compressed@) is Err,
        r matches Ok(b) ==> gunzipped_text(compressed@) matches Ok(t) && b == config_enables(t, key@),
        r matches Err(e) ==> e.spec_message() == gunzipped_text(compressed@)->Err_0,
{
    match gunzip_text(compressed) {
        Ok(text) => Ok(config_text_enables(text.as_str(), key)),
        Err(message) => Err(Error::msg(message)),
    }
}

} // verus!
