//! The mount backends and the per-module rules that assign them.
use vstd::prelude::*;

use crate::text::str_eq;

verus! {

/// A mount backend.
#[derive(Debug, Clone, Copy, PartialEq, Eq, Hash, Structural)]
pub enum Mode {
    Overlay,
    Magic,
    Vfs,
    Ignore,
}

pub open spec fn spec_mode_name(mode: Mode) -> Seq<char> {
    match mode {
        Mode::Overlay => "overlay"@,
        Mode::Magic => "magic"@,
        Mode::Vfs => "vfs"@,
        Mode::Ignore => "ignore"@,
    }
}

impl Mode {
    /// The backend's name as written in the configuration and the UI.
    pub fn as_str(&self) -> (name: &'static str)
        ensures
            name@ == spec_mode_name(*self),
    {
        match self {
            Mode::Overlay => "overlay",
            Mode::Magic => "magic",
            Mode::Vfs => "vfs",
            Mode::Ignore => "ignore",
        }
    }
}

/// One module's configured rules.
#[derive(Debug)]
pub struct ModuleRule {
    /// `None` inherits the global default mode.
    pub default_mode: Option<Mode>,
    /// Path rule to mode, ordered by path.
    pub paths: Vec<(String, Mode)>,
}

/// The planner's view of the configuration.
#[derive(Debug)]
pub struct Config {
    pub default_mode: Mode,
    /// Module id to its rules, ordered by module id.
    pub rules: Vec<(String, ModuleRule)>,
    /// Modules that are never mounted.
    pub module_blacklist: Vec<String>,
}

/// The index of the first rule entry for module `id`, or -1.
pub open spec fn rule_index(rules: Seq<(String, ModuleRule)>, id: Seq<char>, i: int) -> int
    decreases rules.len() - i,
{
    if i < 0 || i >= rules.len() {
        -1
    } else if rules[i].0@ == id {
        i
    } else {
        rule_index(rules, id, i + 1)
    }
}

impl Default for Config {
    /// OverlayFS for every module, no per-module rules, nothing blacklisted.
    fn default() -> (c: Config)
        ensures
            c.default_mode == Mode::Overlay,
            c.rules@.len() == 0,
            c.module_blacklist@.len() == 0,
    {
        Config { default_mode: Mode::Overlay, rules: Vec::new(), module_blacklist: Vec::new() }
    }
}

impl Config {
    /// Whether module `id` is on the blacklist.
    pub fn is_module_blacklisted(&self, id: &str) -> (r: bool)
        ensures
            r == exists|i: int| 0 <= i < self.module_blacklist@.len() && #[trigger] self.module_blacklist@[i]@ == id@,
    {
        let mut i: usize = 0;
        while i < self.module_blacklist.len()
            invariant
                0 <= i <= self.module_blacklist@.len(),
                forall|j: int| 0 <= j < i ==> #[trigger] self.module_blacklist@[j]@ != id@,
            decreases self.module_blacklist@.len() - i,
        {
            if str_eq(self.module_blacklist[i].as_str(), id) {
                return true;
            }
            i = i + 1;
        }
        false
    }

    /// The rules configured for module `id`.
    pub fn rule_for(&self, id: &str) -> (r: Option<&ModuleRule>)
        ensures
            rule_index(self.rules@, id@, 0) < 0 ==> r is None,
            rule_index(self.rules@, id@, 0) >= 0 ==> r == Some(&self.rules@[rule_index(self.rules@, id@, 0)].1),
    {
        let mut i: usize = 0;
        while i < self.rules.len() && !str_eq(self.rules[i].0.as_str(), id)
            invariant
                0 <= i <= self.rules@.len(),
                rule_index(self.rules@, id@, i as int) == rule_index(self.rules@, id@, 0),
            decreases self.rules@.len() - i,
        {
            i = i + 1;
        }
        if i < self.rules.len() {
            Some(&self.rules[i].1)
        } else {
            None
        }
    }
}

} // verus!
