//! The kernel module interface name (`android<N>-<major>.<minor>`) of a
//! kernel release string, which selects the kernel module to load.
use vstd::prelude::*;

use crate::text::{append_str, owned};

verus! {

/// The capture groups of `pattern`'s first match in `text` (group 0 is the
/// whole match), none without a match, or the error text of an invalid
/// pattern, as `regex_lite` computes them.
pub uninterp spec fn regex_captures(pattern: Seq<char>, text: Seq<char>) -> Result<Option<Seq<Option<Seq<char>>>>, Seq<char>>;

/// The plain values of read capture groups.
pub open spec fn group_views(groups: Seq<Option<String>>) -> Seq<Option<Seq<char>>> {
    Seq::new(groups.len(), |k: int| match groups[k] {
        Some(t) => Some(t@),
        None => None,
    })
}

/// `regex_lite::Regex::new(pattern)` and then `Regex::captures(text)`,
/// each group taken as its text.
#[verifier::external_body]
fn capture_groups(pattern: &str, text: &str) -> (r: Result<Option<Vec<Option<String>>>, String>)
    ensures
        match r {
            Ok(Some(groups)) => regex_captures(pattern@, text@) == Ok::<Option<Seq<Option<Seq<char>>>>, Seq<char>>(Some(group_views(groups@))),
            Ok(None) => regex_captures(pattern@, text@) == Ok::<Option<Seq<Option<Seq<char>>>>, Seq<char>>(None),
            Err(t) => regex_captures(pattern@, text@) == Err::<Option<Seq<Option<Seq<char>>>>, Seq<char>>(t@),
        },
{
    let regex = regex_lite::Regex::new(pattern).map_err(|err| err.to_string())?;
    Ok(regex.captures(text).map(|captures| captures.iter().map(|group| group.map(|m| m.as_str().to_owned())).collect()))
}

/// The pattern of a kernel release: an optional prefix ending in a space,
/// `major.minor`, an optional suffix, `android<N>`, and the rest.
pub const KMI_PATTERN: &'static str = r"(.* )?(\d+\.\d+)(\S+)?(android\d+)(.*)";

/// The text of group `k`, or the empty text when it did not take part.
pub open spec fn group_text(groups: Seq<Option<Seq<char>>>, k: int) -> Seq<char> {
    if 0 <= k < groups.len() {
        match groups[k] {
            Some(t) => t,
            None => Seq::empty(),
        }
    } else {
        Seq::empty()
    }
}

/// The interface name a match names: `<group 4>-<group 2>`.
pub open spec fn kmi_name(groups: Seq<Option<Seq<char>>>) -> Seq<char> {
    group_text(groups, 4) + "-"@ + group_text(groups, 2)
}

/// The message when a release names no interface.
pub open spec fn no_kmi_message() -> Seq<char> {
    "Failed to get KMI from boot/modules"@
}

fn group_or_empty(groups: &Vec<Option<String>>, k: usize) -> (r: String)
    ensures
        r@ == group_text(group_views(groups@), k as int),
{
    if k < groups.len() {
        match &groups[k] {
            Some(t) => owned(t.as_str()),
            None => String::new(),
        }
    } else {
        String::new()
    }
}

/// The interface name of a match of the kernel release pattern, or the
/// refusal when there was no match.
pub fn kmi_from_captures(captures: Option<Vec<Option<String>>>) -> (r: Result<String, String>)
    ensures
        match captures {
            Some(groups) => r matches Ok(t) && t@ == kmi_name(group_views(groups@)),
            None => r matches Err(t) && t@ == no_kmi_message(),
        },
{
    match captures {
        Some(groups) => {
            let mut name = group_or_empty(&groups, 4);
            append_str(&mut name, "-");
            let kernel = group_or_empty(&groups, 2);
            append_str(&mut name, kernel.as_str());
            Ok(name)
        },
        None => Err(owned("Failed to get KMI from boot/modules")),
    }
}

/// The kernel module interface name of kernel release `version`, such as
/// `android12-5.10` for `5.10.198-android12-9-g0123`.
pub fn parse_kmi(version: &str) -> (r: Result<String, String>)
    ensures
        match regex_captures(KMI_PATTERN@, version@) {
            Ok(Some(groups)) => r matches Ok(t) && t@ == kmi_name(groups),
            Ok(None) => r matches Err(t) && t@ == no_kmi_message(),
            Err(e) => r matches Err(t) && t@ == e,
        },
{
    match capture_groups(KMI_PATTERN, version) {
        Ok(captures) => kmi_from_captures(captures),
        Err(e) => Err(e),
    }
}

} // verus!
