//! Unpredictable names for private runtime directories.
use vstd::prelude::*;

use crate::text::{append_str, owned, push_char};

verus! {

/// The characters a directory name is made of.
pub const NAME_ALPHABET: &'static str = "abcdefghijklmnopqrstuvwxyzABCDEFGHIJKLMNOPQRSTUVWXYZ0123456789";

/// The shortest name; lengths vary over `NAME_LEN_VARIANTS` values from here.
pub const MIN_NAME_LEN: usize = 22;

pub const NAME_LEN_VARIANTS: usize = 9;

/// How many random bytes one name consumes at most: one for the length,
/// one per character.
pub const RANDOM_BYTES: usize = 31;

/// The `i`-th character of the name alphabet.
pub open spec fn alphabet_char(i: int) -> char {
    NAME_ALPHABET@[i]
}

/// The name that the random bytes `random` choose: the first byte picks the
/// length, each following byte one character.
pub open spec fn spec_name(random: Seq<u8>) -> Seq<char> {
    let len = MIN_NAME_LEN + (random[0] as int) % (NAME_LEN_VARIANTS as int);
    Seq::new(len as nat, |k: int| alphabet_char((random[k + 1] as int) % 62))
}

/// Fills `dest` with bytes from the operating system's random source
/// (`getrandom::fill`); a failure comes back as the error's text. Nothing is
/// claimed of the bytes or of the text; the length stays.
#[verifier::external_body]
fn fill_random(dest: &mut Vec<u8>) -> (r: Option<String>)
    ensures
        final(dest)@.len() == old(dest)@.len(),
{
    match getrandom::fill(dest.as_mut_slice()) {
        Ok(()) => None,
        Err(error) => Some(error.to_string()),
    }
}

/// The directory name that `random` chooses.
pub fn name_from_bytes(random: &[u8]) -> (name: String)
    requires
        random@.len() >= RANDOM_BYTES,
    ensures
        name@ == spec_name(random@),
{
    proof {
        reveal_strlit("abcdefghijklmnopqrstuvwxyzABCDEFGHIJKLMNOPQRSTUVWXYZ0123456789");
    }
    let len = MIN_NAME_LEN + (random[0] as usize) % NAME_LEN_VARIANTS;
    let ghost want = spec_name(random@);
    assert(want.len() == len);
    let mut name = String::new();
    let mut k: usize = 0;
    while k < len
        invariant
            len <= 30,
            random@.len() >= RANDOM_BYTES,
            want == spec_name(random@),
            want.len() == len,
            0 <= k <= len,
            name@ == want.take(k as int),
            NAME_ALPHABET@.len() == 62,
        decreases len - k,
    {
        let index = (random[k + 1] as usize) % 62;
        let c = NAME_ALPHABET.get_char(index);
        push_char(&mut name, c);
        assert(want.take(k + 1) =~= want.take(k as int).push(c));
        k = k + 1;
    }
    assert(want.take(len as int) =~= want);
    name
}

/// A fresh random directory name: 22 to 30 characters from the name
/// alphabet, with nothing of the project or the time in it.
pub fn random_name() -> (r: crate::errors::Result<String>)
    ensures
        r matches Err(e) ==> e is Msg && crate::text::has_prefix(e.spec_message(), "getrandom for temporary directory: "@),
        r matches Ok(name) ==> MIN_NAME_LEN <= name@.len() < MIN_NAME_LEN + NAME_LEN_VARIANTS
            && forall|k: int| 0 <= k < name@.len() ==> NAME_ALPHABET@.contains(#[trigger] name@[k]),
{
    let mut random: Vec<u8> = vec![0u8; 31];
    if let Some(detail) = fill_random(&mut random) {
        let mut message = owned("getrandom for temporary directory: ");
        let ghost head = message@;
        append_str(&mut message, detail.as_str());
        assert(message@.subrange(0, head.len() as int) =~= head);
        return Err(crate::errors::Error::msg(message));
    }
    let name = name_from_bytes(random.as_slice());
    proof {
        reveal_strlit("abcdefghijklmnopqrstuvwxyzABCDEFGHIJKLMNOPQRSTUVWXYZ0123456789");
        assert forall|k: int| 0 <= k < name@.len() implies NAME_ALPHABET@.contains(#[trigger] name@[k]) by {
            let i = (random@[k + 1] as int) % 62;
            assert(NAME_ALPHABET@[i] == name@[k]);
        }
    }
    Ok(name)
}

} // verus!
