//! How one module's configured rules decide the backend of each entry.
use vstd::prelude::*;

use crate::config::{rule_index, Config, Mode};
use crate::plan::paths::{normalize_rule_path, spec_normalize_rule_path};
use crate::runtime::policy::{is_same_or_below, spec_same_or_below};
use crate::text::str_eq;

verus! {

/// `mode`, except that VFS becomes Ignore when the kernel offers no VFS backend.
pub open spec fn degrade(mode: Mode, vfs_available: bool) -> Mode {
    if mode == Mode::Vfs && !vfs_available {
        Mode::Ignore
    } else {
        mode
    }
}

/// The module's default mode: its own, else the global one.
pub open spec fn spec_module_default(config: Config, id: Seq<char>, vfs_available: bool) -> Mode {
    let i = rule_index(config.rules@, id, 0);
    degrade(
        if i >= 0 && config.rules@[i].1.default_mode is Some {
            config.rules@[i].1.default_mode->0
        } else {
            config.default_mode
        },
        vfs_available,
    )
}

/// The module's path rules with normalized keys, in configuration order.
pub open spec fn spec_module_keys(config: Config, id: Seq<char>, vfs_available: bool) -> Seq<(Seq<char>, Mode)> {
    let i = rule_index(config.rules@, id, 0);
    if i < 0 {
        Seq::empty()
    } else {
        config.rules@[i].1.paths@.map_values(
            |p: (String, Mode)| (spec_normalize_rule_path(p.0@), degrade(p.1, vfs_available)),
        )
    }
}

/// The first longest key at or above `relative`, scanning from `i` with the
/// best so far at `best`, or -1.
pub open spec fn best_rule(keys: Seq<(Seq<char>, Mode)>, relative: Seq<char>, i: int, best: int) -> int
    decreases keys.len() - i,
{
    if i < 0 || i >= keys.len() {
        best
    } else if spec_same_or_below(relative, keys[i].0) && (best < 0 || keys[i].0.len() > keys[best].0.len()) {
        best_rule(keys, relative, i + 1, i)
    } else {
        best_rule(keys, relative, i + 1, best)
    }
}

/// The mode of the longest rule key at or above `relative`, else the default.
pub open spec fn resolve_keys(keys: Seq<(Seq<char>, Mode)>, default_mode: Mode, relative: Seq<char>) -> Mode {
    let b = best_rule(keys, relative, 0, -1);
    if b < 0 {
        default_mode
    } else {
        keys[b].1
    }
}

/// The backend the configuration assigns to a module entry.
pub open spec fn spec_resolve(config: Config, id: Seq<char>, vfs_available: bool, relative: Seq<char>) -> Mode {
    resolve_keys(
        spec_module_keys(config, id, vfs_available),
        spec_module_default(config, id, vfs_available),
        relative,
    )
}

/// One module's rules, resolved against the configuration.
pub struct ModuleRulesView {
    pub default_mode: Mode,
    /// Normalized key and mode, in configuration order.
    pub path_rules: Vec<(String, Mode)>,
}

/// The key views and modes of `rules`.
pub open spec fn rule_views(rules: Seq<(String, Mode)>) -> Seq<(Seq<char>, Mode)> {
    rules.map_values(|r: (String, Mode)| (r.0@, r.1))
}

fn degrade_mode(mode: Mode, vfs_available: bool) -> (r: Mode)
    ensures
        r == degrade(mode, vfs_available),
{
    if mode == Mode::Vfs && !vfs_available {
        Mode::Ignore
    } else {
        mode
    }
}

impl ModuleRulesView {
    /// The view of module `id`'s rules.
    pub fn new(id: &str, config: &Config, vfs_available: bool) -> (v: ModuleRulesView)
        ensures
            v.default_mode == spec_module_default(*config, id@, vfs_available),
            rule_views(v.path_rules@) == spec_module_keys(*config, id@, vfs_available),
    {
        let rule = config.rule_for(id);
        let mut path_rules: Vec<(String, Mode)> = Vec::new();
        let default_mode = match rule {
            Some(r) => match r.default_mode {
                Some(m) => m,
                None => config.default_mode,
            },
            None => config.default_mode,
        };
        match rule {
            Some(r) => {
                let mut i: usize = 0;
                while i < r.paths.len()
                    invariant
                        0 <= i <= r.paths@.len(),
                        rule_views(path_rules@) == r.paths@.subrange(0, i as int).map_values(
                            |p: (String, Mode)| (spec_normalize_rule_path(p.0@), degrade(p.1, vfs_available)),
                        ),
                    decreases r.paths@.len() - i,
                {
                    let key = normalize_rule_path(r.paths[i].0.as_str());
                    let mode = degrade_mode(r.paths[i].1, vfs_available);
                    let ghost before = path_rules@;
                    path_rules.push((key, mode));
                    assert(rule_views(path_rules@) =~= rule_views(before).push((key@, mode)));
                    assert(r.paths@.subrange(0, i + 1).map_values(
                        |p: (String, Mode)| (spec_normalize_rule_path(p.0@), degrade(p.1, vfs_available)),
                    ) =~= r.paths@.subrange(0, i as int).map_values(
                        |p: (String, Mode)| (spec_normalize_rule_path(p.0@), degrade(p.1, vfs_available)),
                    ).push((spec_normalize_rule_path(r.paths@[i as int].0@), degrade(r.paths@[i as int].1, vfs_available))));
                    i = i + 1;
                }
                assert(r.paths@.subrange(0, r.paths@.len() as int) =~= r.paths@);
            },
            None => {
                assert(rule_views(path_rules@) =~= Seq::<(Seq<char>, Mode)>::empty());
            },
        }
        ModuleRulesView { default_mode: degrade_mode(default_mode, vfs_available), path_rules }
    }

    /// The backend of the entry at `relative`: the longest matching path
    /// rule, else the module default.
    pub fn resolve_mode(&self, relative: &str) -> (m: Mode)
        ensures
            m == resolve_keys(rule_views(self.path_rules@), self.default_mode, relative@),
    {
        let ghost keys = rule_views(self.path_rules@);
        let mut best: usize = self.path_rules.len();
        let mut i: usize = 0;
        while i < self.path_rules.len()
            invariant
                keys == rule_views(self.path_rules@),
                0 <= i <= self.path_rules@.len(),
                best <= self.path_rules@.len(),
                best_rule(keys, relative@, i as int, if best == self.path_rules@.len() { -1 } else { best as int })
                    == best_rule(keys, relative@, 0, -1),
                best < self.path_rules@.len() ==> best < i,
            decreases self.path_rules@.len() - i,
        {
            let key = self.path_rules[i].0.as_str();
            if is_same_or_below(relative, key) && (best == self.path_rules.len() || key.unicode_len()
                > self.path_rules[best].0.unicode_len()) {
                best = i;
            }
            i = i + 1;
        }
        if best == self.path_rules.len() {
            self.default_mode
        } else {
            self.path_rules[best].1
        }
    }

    /// Whether a path rule sends the whole `system` to OverlayFS.
    pub fn has_whole_system_overlay_rule(&self) -> (r: bool)
        ensures
            r == exists|i: int| 0 <= i < self.path_rules@.len() && #[trigger] self.path_rules@[i].0@ == "system"@
                && self.path_rules@[i].1 == Mode::Overlay,
    {
        let mut i: usize = 0;
        while i < self.path_rules.len()
            invariant
                0 <= i <= self.path_rules@.len(),
                forall|j: int| 0 <= j < i ==> !(#[trigger] self.path_rules@[j].0@ == "system"@ && self.path_rules@[j].1 == Mode::Overlay),
            decreases self.path_rules@.len() - i,
        {
            if str_eq(self.path_rules[i].0.as_str(), "system") && self.path_rules[i].1 == Mode::Overlay {
                return true;
            }
            i = i + 1;
        }
        false
    }
}

} // verus!
