//! Choosing the ext4 sysfs concealment module for a kernel.
//!
//! The bundled module matrix is keyed by the kernel's `major.minor` and the
//! Android release it was built for, read from the kernel release string
//! (`5.10.198-android12-9`) or supplied by the device.
use vstd::prelude::*;

use crate::text::has_prefix;

verus! {

/// Whether `c` is an ASCII decimal digit.
pub open spec fn is_digit(c: char) -> bool {
    '0' <= c && c <= '9'
}

/// The number of leading ASCII digits of `s`.
pub open spec fn digit_run(s: Seq<char>) -> nat
    decreases s.len(),
{
    if s.len() > 0 && is_digit(s[0]) {
        1 + digit_run(s.drop_first())
    } else {
        0
    }
}

/// The decimal value of a string of digits.
pub open spec fn digits_value(s: Seq<char>) -> nat
    decreases s.len(),
{
    if s.len() == 0 {
        0
    } else {
        digits_value(s.drop_last()) * 10 + ((s.last() as int) - ('0' as int)) as nat
    }
}

/// The number that `s` starts with, when it starts with a digit and the
/// number fits in a `u32`.
pub open spec fn leading_number(s: Seq<char>) -> Option<u32> {
    let n = digit_run(s);
    if n > 0 && digits_value(s.subrange(0, n as int)) <= u32::MAX {
        Some(digits_value(s.subrange(0, n as int)) as u32)
    } else {
        None
    }
}

proof fn lemma_digit_run_facts(s: Seq<char>)
    ensures
        digit_run(s) <= s.len(),
        forall|i: int| 0 <= i < digit_run(s) ==> is_digit(#[trigger] s[i]),
        digit_run(s) < s.len() ==> !is_digit(s[digit_run(s) as int]),
    decreases s.len(),
{
    if s.len() > 0 && is_digit(s[0]) {
        lemma_digit_run_facts(s.drop_first());
        assert forall|i: int| 0 <= i < digit_run(s) implies is_digit(#[trigger] s[i]) by {
            if i > 0 {
                assert(s[i] == s.drop_first()[i - 1]);
            }
        }
    }
}

proof fn lemma_digits_value_grows(s: Seq<char>, i: int)
    requires
        0 <= i < s.len(),
        forall|k: int| 0 <= k < s.len() ==> is_digit(#[trigger] s[k]),
    ensures
        digits_value(s.subrange(0, i + 1)) == digits_value(s.subrange(0, i)) * 10 + ((s[i] as int)
            - ('0' as int)),
        digits_value(s.subrange(0, i)) <= digits_value(s.subrange(0, i + 1)),
{
    assert(s.subrange(0, i + 1).drop_last() =~= s.subrange(0, i));
}

/// The number at the start of `s`, as [`leading_number`] defines it.
fn read_number(s: &str, from: usize) -> (r: (Option<u32>, usize))
    requires
        from <= s@.len(),
    ensures
        r.0 == leading_number(s@.skip(from as int)),
        r.1 == from + digit_run(s@.skip(from as int)),
{
    let n = s.unicode_len();
    let ghost t = s@.skip(from as int);
    proof {
        lemma_digit_run_facts(t);
    }
    let mut i: usize = from;
    let mut value: u64 = 0;
    let mut overflow = false;
    while i < n && '0' <= s.get_char(i) && s.get_char(i) <= '9'
        invariant
            n == s@.len(),
            from <= i <= n,
            t == s@.skip(from as int),
            forall|k: int| 0 <= k < i - from ==> is_digit(#[trigger] t[k]),
            i - from <= digit_run(t),
            digit_run(t) <= t.len(),
            forall|k: int| 0 <= k < digit_run(t) ==> is_digit(#[trigger] t[k]),
            digit_run(t) < t.len() ==> !is_digit(t[digit_run(t) as int]),
            !overflow ==> value == digits_value(t.subrange(0, i - from)) && value <= u32::MAX,
            overflow ==> digits_value(t.subrange(0, i - from)) > u32::MAX,
        decreases n - i,
    {
        let c = s.get_char(i);
        let ghost k = i - from;
        proof {
            assert(t[k] == c);
            let pre = t.subrange(0, k + 1);
            assert(forall|q: int| 0 <= q < pre.len() ==> is_digit(#[trigger] pre[q]));
            lemma_digits_value_grows(pre, k);
            assert(pre.subrange(0, k) =~= t.subrange(0, k));
            assert(pre.subrange(0, k + 1) =~= pre);
        }
        if !overflow {
            let d = (c as u64) - ('0' as u64);
            let next = value * 10 + d;
            if next > u32::MAX as u64 {
                overflow = true;
            } else {
                value = next;
            }
        }
        i = i + 1;
    }
    proof {
        if i < n {
            assert(t[i - from] == s@[i as int]);
        }
        assert(i - from == digit_run(t));
    }
    if i == from || overflow {
        (None, i)
    } else {
        (Some(value as u32), i)
    }
}

/// An Android major version such as `14` or `15.0.0`: the number it starts with.
pub fn parse_android_major(value: &str) -> (r: Option<u32>)
    ensures
        r == leading_number(value@),
{
    assert(value@.skip(0) =~= value@);
    read_number(value, 0).0
}

/// The index of the first `android` in `s`, or -1.
pub open spec fn android_tag_at(s: Seq<char>) -> int {
    if exists|i: int| 0 <= i && i + 7 <= s.len() && #[trigger] s.subrange(i, i + 7) == "android"@ {
        choose|i: int|
            0 <= i && i + 7 <= s.len() && #[trigger] s.subrange(i, i + 7) == "android"@ && forall|j: int|
                0 <= j < i ==> #[trigger] s.subrange(j, j + 7) != "android"@
    } else {
        -1
    }
}

/// The Android release a GKI kernel was built for: the number right after
/// the first `android` in the release string.
pub open spec fn spec_android_major(release: Seq<char>) -> Option<u32> {
    let i = android_tag_at(release);
    if i < 0 {
        None
    } else {
        leading_number(release.skip(i + 7))
    }
}

/// The Android release a GKI kernel was built for, read from its release
/// string (`6.6.1-android15-8` is 15).
pub fn android_major_from_kernel_release(release: &str) -> (r: Option<u32>)
    ensures
        r == spec_android_major(release@),
{
    proof {
        reveal_strlit("android");
    }
    let n = release.unicode_len();
    if n < 7 {
        assert(!exists|i: int| 0 <= i && i + 7 <= release@.len() && #[trigger] release@.subrange(i, i + 7) == "android"@);
        return None;
    }
    let mut i: usize = 0;
    while i <= n - 7
        invariant
            n == release@.len(),
            n >= 7,
            0 <= i <= n - 6,
            forall|j: int| 0 <= j < i ==> #[trigger] release@.subrange(j, j + 7) != "android"@,
        decreases n - i,
    {
        let window = crate::text::slice_chars(release, i, i + 7);
        if crate::text::str_eq(window.as_str(), "android") {
            proof {
                let c = choose|c: int|
                    0 <= c && c + 7 <= release@.len() && #[trigger] release@.subrange(c, c + 7) == "android"@ && forall|j: int|
                        0 <= j < c ==> #[trigger] release@.subrange(j, j + 7) != "android"@;
                assert(c == i) by {
                    if c < i {
                    } else if c > i {
                    }
                }
            }
            return read_number(release, i + 7).0;
        }
        i = i + 1;
    }
    proof {
        assert forall|c: int| 0 <= c && c + 7 <= release@.len() implies #[trigger] release@.subrange(c, c + 7) != "android"@ by {
        }
    }
    None
}

/// `major.minor` from the start of a kernel release string.
pub open spec fn spec_major_minor(release: Seq<char>) -> Option<(u32, u32)> {
    let a = digit_run(release);
    match leading_number(release) {
        Some(major) => if a < release.len() && release[a as int] == '.' {
            match leading_number(release.skip(a as int + 1)) {
                Some(minor) => Some((major, minor)),
                None => None,
            }
        } else {
            None
        },
        None => None,
    }
}

/// The kernel's `major.minor` (`5.10.198-android12-9` is `(5, 10)`).
pub fn kernel_major_minor(release: &str) -> (r: Option<(u32, u32)>)
    ensures
        r == spec_major_minor(release@),
{
    assert(release@.skip(0) =~= release@);
    let (major, at) = read_number(release, 0);
    match major {
        Some(major) => {
            if at < release.unicode_len() && release.get_char(at) == '.' {
                match read_number(release, at + 1).0 {
                    Some(minor) => Some((major, minor)),
                    None => None,
                }
            } else {
                None
            }
        },
        None => None,
    }
}

/// The bundled concealment module for a kernel: its `major.minor` and the
/// Android release (supplied, else read from the release string).
pub open spec fn spec_lkm_filename(release: Seq<char>, android_major: Option<u32>) -> Option<Seq<char>> {
    let android = match android_major {
        Some(v) => Some(v),
        None => spec_android_major(release),
    };
    match spec_major_minor(release) {
        None => None,
        Some((4, 14)) => Some("nuke-android-4.14.ko"@),
        Some((5, 10)) => if android == Some(12u32) {
            Some("nuke-android12-5.10.ko"@)
        } else if android == Some(13u32) {
            Some("nuke-android13-5.10.ko"@)
        } else {
            None
        },
        Some((5, 15)) => if android == Some(13u32) {
            Some("nuke-android13-5.15.ko"@)
        } else if android == Some(14u32) {
            Some("nuke-android14-5.15.ko"@)
        } else {
            None
        },
        Some((6, 1)) => if android == Some(14u32) {
            Some("nuke-android14-6.1.ko"@)
        } else {
            None
        },
        Some((6, 6)) => if android == Some(15u32) {
            Some("nuke-android15-6.6.ko"@)
        } else {
            None
        },
        Some((6, 12)) => if android == Some(16u32) {
            Some("nuke-android16-6.12.ko"@)
        } else {
            None
        },
        _ => None,
    }
}

/// The packaged module filename for this kernel, if one is shipped.
pub fn select_lkm_filename(release: &str, android_major: Option<u32>) -> (r: Option<&'static str>)
    ensures
        r matches Some(name) ==> spec_lkm_filename(release@, android_major) == Some(name@),
        r is None <==> spec_lkm_filename(release@, android_major) is None,
{
    let android = match android_major {
        Some(v) => Some(v),
        None => android_major_from_kernel_release(release),
    };
    match kernel_major_minor(release) {
        None => None,
        Some((major, minor)) => {
            if major == 4 && minor == 14 {
                Some("nuke-android-4.14.ko")
            } else if major == 5 && minor == 10 && android == Some(12u32) {
                Some("nuke-android12-5.10.ko")
            } else if major == 5 && minor == 10 && android == Some(13u32) {
                Some("nuke-android13-5.10.ko")
            } else if major == 5 && minor == 15 && android == Some(13u32) {
                Some("nuke-android13-5.15.ko")
            } else if major == 5 && minor == 15 && android == Some(14u32) {
                Some("nuke-android14-5.15.ko")
            } else if major == 6 && minor == 1 && android == Some(14u32) {
                Some("nuke-android14-6.1.ko")
            } else if major == 6 && minor == 6 && android == Some(15u32) {
                Some("nuke-android15-6.6.ko")
            } else if major == 6 && minor == 12 && android == Some(16u32) {
                Some("nuke-android16-6.12.ko")
            } else {
                None
            }
        },
    }
}

} // verus!
