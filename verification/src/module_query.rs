//! The module list that queries answer: the boot snapshot merged with the
//! installed modules, and the mount error markers after they are cleared.
use vstd::prelude::*;

use crate::config::Config;
use crate::scanner::ModuleRecord;
use crate::snapshot::{
    fallback_app_modules, kept_removed, last_cached, lemma_cached_id, listed_before, merge_with_snapshot, shows_rules,
    with_boot_status,
};
use crate::state::AppModule;
use crate::text::{append_str, decimal, has_name, owned};

verus! {

/// Whether a module before the `i`-th installed one has id `id`.
pub open spec fn installed_before(installed: Seq<ModuleRecord>, i: int, id: Seq<char>) -> bool {
    exists|j: int| 0 <= j < i && #[trigger] installed[j].id@ == id
}

/// A module of the boot snapshot that is no longer installed but whose
/// last snapshot entry is still mounted.
pub open spec fn removed_but_mounted(cached: Seq<AppModule>, installed: Seq<ModuleRecord>, id: Seq<char>) -> bool {
    &&& last_cached(cached, id) matches Some(prev) && prev.is_mounted
    &&& !installed_before(installed, installed.len() as int, id)
}

/// The module list a query answers: the installed modules as planned now,
/// in order, each with the mounted backend and status of its boot snapshot
/// entry (the first module of an id claims it), then the snapshot's
/// modules that are gone but still mounted, disabled, in id order; all with
/// the configuration's current blacklist and rules. The snapshot itself is
/// never rewritten by a query.
pub fn merge_module_snapshot(
    cached: Vec<AppModule>,
    installed: &[ModuleRecord],
    config: &Config,
    vfs_available: bool,
    mount_errors: &[String],
) -> (r: Vec<AppModule>)
    ensures
        r@.len() >= installed@.len(),
        forall|i: int| 0 <= i < installed@.len() ==> {
            let m = installed@[i];
            let a = #[trigger] r@[i];
            let blacklisted = has_name(config.module_blacklist@, m.id@);
            &&& a.id@ == m.id@
            &&& a.name@ == m.name@
            &&& a.version@ == m.version@
            &&& a.author@ == m.author@
            &&& a.description@ == m.description@
            &&& a.source_path@ == m.source_path@
            &&& a.blacklisted == blacklisted
            &&& a.enabled == (!m.disabled && !blacklisted)
            &&& a.suggest_ignore == has_name(mount_errors@, m.id@)
            &&& (a.mount_error is Some) == has_name(mount_errors@, m.id@)
            &&& shows_rules(*config, m.id@, a.rules)
            &&& match last_cached(cached@, m.id@) {
                Some(prev) => if installed_before(installed@, i, m.id@) {
                    !a.is_mounted
                } else {
                    a.mode == prev.mode && a.is_mounted == prev.is_mounted
                },
                None => !a.is_mounted,
            }
        },
        forall|j: int| installed@.len() <= j < r@.len() ==> {
            let a = #[trigger] r@[j];
            let prev = last_cached(cached@, a.id@).unwrap();
            let blacklisted = has_name(config.module_blacklist@, a.id@);
            &&& removed_but_mounted(cached@, installed@, a.id@)
            &&& a == (AppModule { enabled: false, blacklisted, rules: a.rules, ..prev })
            &&& shows_rules(*config, a.id@, a.rules)
        },
        forall|a: int, b: int| installed@.len() <= a < b < r@.len() ==> crate::text::lex_lt(#[trigger] r@[a].id@, #[trigger] r@[b].id@),
        forall|x: Seq<char>| #[trigger] removed_but_mounted(cached@, installed@, x) ==> exists|j: int|
            installed@.len() <= j < r@.len() && #[trigger] r@[j].id@ == x,
{
    let listed = fallback_app_modules(installed, config, vfs_available, mount_errors);
    let ghost l = listed@;
    let ghost c = cached@;
    let r = merge_with_snapshot(cached, listed, config);
    proof {
        reveal(crate::snapshot::synced);
        assert forall|i: int, x: Seq<char>| 0 <= i <= installed@.len() implies
            #[trigger] listed_before(l, i, x) == installed_before(installed@, i, x) by {
            if listed_before(l, i, x) {
                let j = choose|j: int| 0 <= j < i && #[trigger] l[j].id@ == x;
                assert(installed@[j].id@ == x);
            }
            if installed_before(installed@, i, x) {
                let j = choose|j: int| 0 <= j < i && #[trigger] installed@[j].id@ == x;
                assert(l[j].id@ == x);
            }
        }
        assert forall|x: Seq<char>| #[trigger] kept_removed(c, l, x) == removed_but_mounted(c, installed@, x) by {
            assert(listed_before(l, installed@.len() as int, x) == installed_before(installed@, installed@.len() as int, x));
        }
        assert forall|i: int| 0 <= i < installed@.len() implies {
            let m = installed@[i];
            let a = #[trigger] r@[i];
            let blacklisted = has_name(config.module_blacklist@, m.id@);
            &&& a.id@ == m.id@
            &&& a.name@ == m.name@
            &&& a.version@ == m.version@
            &&& a.author@ == m.author@
            &&& a.description@ == m.description@
            &&& a.source_path@ == m.source_path@
            &&& a.blacklisted == blacklisted
            &&& a.enabled == (!m.disabled && !blacklisted)
            &&& a.suggest_ignore == has_name(mount_errors@, m.id@)
            &&& (a.mount_error is Some) == has_name(mount_errors@, m.id@)
            &&& shows_rules(*config, m.id@, a.rules)
            &&& match last_cached(c, m.id@) {
                Some(prev) => if installed_before(installed@, i, m.id@) {
                    !a.is_mounted
                } else {
                    a.mode == prev.mode && a.is_mounted == prev.is_mounted
                },
                None => !a.is_mounted,
            }
        } by {
            assert(crate::snapshot::synced(*config, with_boot_status(c, l, i), r@[i]));
            assert(listed_before(l, i, l[i].id@) == installed_before(installed@, i, installed@[i].id@));
        }
        assert forall|j: int| installed@.len() <= j < r@.len() implies {
            let a = #[trigger] r@[j];
            let prev = last_cached(c, a.id@).unwrap();
            let blacklisted = has_name(config.module_blacklist@, a.id@);
            &&& removed_but_mounted(c, installed@, a.id@)
            &&& a == (AppModule { enabled: false, blacklisted, rules: a.rules, ..prev })
            &&& shows_rules(*config, a.id@, a.rules)
        } by {
            assert(kept_removed(c, l, r@[j].id@));
            lemma_cached_id(c, r@[j].id@);
        }
        assert forall|x: Seq<char>| #[trigger] removed_but_mounted(c, installed@, x) implies exists|j: int|
            installed@.len() <= j < r@.len() && #[trigger] r@[j].id@ == x by {
            assert(kept_removed(c, l, x));
        }
    }
    r
}

/// The mount error text of a module that still carries a marker.
pub open spec fn marker_text() -> Seq<char> {
    "mount_error marker present"@
}

/// Shows the mount error markers that remain after a clear: a module keeps
/// its error, and the suggestion to ignore it, only while its marker does.
pub fn clear_app_module_errors(modules: &mut Vec<AppModule>, remaining_errors: &[String])
    ensures
        final(modules)@.len() == old(modules)@.len(),
        forall|i: int| 0 <= i < final(modules)@.len() ==> {
            let m = #[trigger] final(modules)@[i];
            let has = has_name(remaining_errors@, old(modules)@[i].id@);
            &&& m == (AppModule { mount_error: m.mount_error, suggest_ignore: has, ..old(modules)@[i] })
            &&& (m.mount_error is Some) == has
            &&& (m.mount_error matches Some(t) ==> t@ == marker_text())
        },
{
    let ghost base = modules@;
    let mut i: usize = 0;
    while i < modules.len()
        invariant
            0 <= i <= modules@.len(),
            modules@.len() == base.len(),
            base == old(modules)@,
            forall|q: int| 0 <= q < i ==> {
                let m = #[trigger] modules@[q];
                let has = has_name(remaining_errors@, base[q].id@);
                &&& m == (AppModule { mount_error: m.mount_error, suggest_ignore: has, ..base[q] })
                &&& (m.mount_error is Some) == has
                &&& (m.mount_error matches Some(t) ==> t@ == marker_text())
            },
            forall|q: int| i <= q < base.len() ==> #[trigger] modules@[q] == base[q],
        decreases modules@.len() - i,
    {
        let ghost before = modules@;
        let mut m = modules.remove(i);
        let has = crate::plan::paths::contains_name(remaining_errors, m.id.as_str());
        m.mount_error = if has { Some(owned("mount_error marker present")) } else { None };
        m.suggest_ignore = has;
        modules.insert(i, m);
        proof {
            assert forall|q: int| 0 <= q < modules@.len() && q != i implies #[trigger] modules@[q] == before[q] by {}
        }
        i = i + 1;
    }
}

/// The answer to a clear request: `{"ok":true,"removed":N}`.
pub fn clear_errors_payload(removed: u64) -> (r: String)
    ensures
        r@ == "{\"ok\":true,\"removed\":"@ + decimal(removed as nat) + "}"@,
{
    let mut r = owned("{\"ok\":true,\"removed\":");
    let n = crate::text::u64_decimal(removed);
    append_str(&mut r, n.as_str());
    append_str(&mut r, "}");
    r
}

} // verus!
