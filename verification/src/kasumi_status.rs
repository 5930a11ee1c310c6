//! Kasumi runtime status: the hook list, the reported status and the check
//! that refuses work while the runtime cannot operate. The probes themselves
//! (device queries, loaded-module checks) are made by the caller.
use vstd::prelude::*;

use crate::errors::{Error, Result};
use crate::paths::{trim, trimmed, views};
use crate::sys::kconfig::pieces_from;
use crate::text::{append_str, owned, slice_chars};

verus! {

/// A line without its surrounding white space.
#[verifier::opaque]
pub open spec fn trimmed_line(line: Seq<char>) -> Seq<char> {
    trimmed(line)
}

/// The non-empty lines of `lines`, trimmed, in order.
pub open spec fn spec_hook_lines(lines: Seq<Seq<char>>) -> Seq<Seq<char>>
    decreases lines.len(),
{
    if lines.len() == 0 {
        Seq::empty()
    } else {
        let rest = spec_hook_lines(lines.drop_last());
        if trimmed_line(lines.last()).len() > 0 {
            rest.push(trimmed_line(lines.last()))
        } else {
            rest
        }
    }
}

/// The text split at every `\n`, empty pieces kept.
pub fn text_lines(text: &str) -> (r: Vec<String>)
    ensures
        views(r@) == pieces_from(text@, Seq::empty(), Seq::empty()),
{
    let n = text.unicode_len();
    let mut start: usize = 0;
    let mut i: usize = 0;
    let mut out: Vec<String> = Vec::new();
    assert(text@.skip(0) =~= text@);
    assert(text@.subrange(0, 0) =~= Seq::<char>::empty());
    assert(views(out@) =~= Seq::<Seq<char>>::empty());
    while i < n
        invariant
            n == text@.len(),
            0 <= start <= i <= n,
            pieces_from(text@.skip(i as int), views(out@), text@.subrange(start as int, i as int)) == pieces_from(
                text@,
                Seq::empty(),
                Seq::empty(),
            ),
        decreases n - i,
    {
        let c = text.get_char(i);
        let ghost rest = text@.skip(i as int);
        assert(rest.drop_first() =~= text@.skip(i + 1));
        assert(rest[0] == c);
        if c == '\n' {
            let line = slice_chars(text, start, i);
            let ghost before = views(out@);
            out.push(line);
            assert(views(out@) =~= before.push(text@.subrange(start as int, i as int)));
            assert(text@.subrange(i + 1, i + 1) =~= Seq::<char>::empty());
            start = i + 1;
        } else {
            assert(text@.subrange(start as int, i + 1) =~= text@.subrange(start as int, i as int).push(c));
        }
        i = i + 1;
    }
    let line = slice_chars(text, start, n);
    let ghost before = views(out@);
    out.push(line);
    assert(views(out@) =~= before.push(text@.subrange(start as int, n as int)));
    assert(text@.skip(n as int) =~= Seq::<char>::empty());
    out
}

/// The hook names the runtime lists, one per line: lines trimmed, empty
/// lines dropped.
#[verifier::spinoff_prover]
#[verifier::rlimit(60)]
pub fn hook_lines_from(hooks: &str) -> (r: Vec<String>)
    ensures
        views(r@) == spec_hook_lines(pieces_from(hooks@, Seq::empty(), Seq::empty())),
{
    let lines = text_lines(hooks);
    let ghost all = views(lines@);
    let mut out: Vec<String> = Vec::new();
    let mut i: usize = 0;
    while i < lines.len()
        invariant
            0 <= i <= lines@.len(),
            all == views(lines@),
            views(out@) == spec_hook_lines(all.take(i as int)),
        decreases lines@.len() - i,
    {
        proof {
            assert(all.take(i + 1).drop_last() =~= all.take(i as int));
            assert(all.take(i + 1).last() == lines@[i as int]@);
        }
        let t = trim(lines[i].as_str());
        assert(t@ == trimmed_line(all[i as int])) by {
            reveal(trimmed_line);
        }
        if t.unicode_len() > 0 {
            let ghost before = views(out@);
            out.push(t);
            assert(views(out@) =~= before.push(t@));
        }
        i = i + 1;
    }
    assert(all.take(lines@.len() as int) =~= all);
    out
}

/// The status reported for the runtime: its live status when Kasumi is
/// enabled; otherwise `disabled_runtime_present` while anything of it is
/// still live (available, module loaded, or rules installed), else `disabled`.
pub open spec fn spec_runtime_status(enabled: bool, live_status: Seq<char>, available: bool, lkm_loaded: bool, rule_count: nat) -> Seq<char> {
    if enabled {
        live_status
    } else if available || lkm_loaded || rule_count > 0 {
        "disabled_runtime_present"@
    } else {
        "disabled"@
    }
}

/// Chooses the reported runtime status.
pub fn runtime_status(enabled: bool, live_status: &str, available: bool, lkm_loaded: bool, rule_count: usize) -> (r: String)
    ensures
        r@ == spec_runtime_status(enabled, live_status@, available, lkm_loaded, rule_count as nat),
{
    if enabled {
        owned(live_status)
    } else if available || lkm_loaded || rule_count > 0 {
        owned("disabled_runtime_present")
    } else {
        owned("disabled")
    }
}

/// Refuses `description` while the runtime cannot operate, naming its status.
pub fn require_live(can_operate: bool, description: &str, status_name: &str) -> (r: Result<()>)
    ensures
        r is Ok <==> can_operate,
        r matches Err(e) ==> e.spec_message() == "Kasumi is not available for "@ + description@ + " (status="@
            + status_name@ + ")"@,
{
    if can_operate {
        return Ok(());
    }
    let mut message = owned("Kasumi is not available for ");
    append_str(&mut message, description);
    append_str(&mut message, " (status=");
    append_str(&mut message, status_name);
    append_str(&mut message, ")");
    Err(Error::msg(message))
}

} // verus!
