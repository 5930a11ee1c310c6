//! Persisted boot snapshots: the run state, the module list shown to the UI,
//! mount statistics and the install-state report.
use vstd::prelude::*;

use crate::text::owned;

verus! {

/// A module as listed for the UI, with its backend and mount result.
#[derive(Debug, Clone)]
pub struct AppModule {
    pub id: String,
    pub name: String,
    pub version: String,
    pub author: String,
    pub description: String,
    pub mode: String,
    pub is_mounted: bool,
    pub enabled: bool,
    /// Blocked by the bundled or persistent blacklist.
    pub blacklisted: bool,
    pub source_path: String,
    pub mount_error: Option<String>,
    pub suggest_ignore: bool,
    pub rules: AppModuleRules,
}

/// A module's configured rules as shown to the UI.
#[derive(Debug, Clone)]
pub struct AppModuleRules {
    /// `None` inherits the global default mode.
    pub default_mode: Option<String>,
    /// Path rule to mode name, ordered by path.
    pub paths: Vec<(String, String)>,
}

/// Mount counters for one boot.
#[derive(Debug, Clone, Default, PartialEq, Eq, Structural)]
pub struct MountStatistics {
    pub total_mounts: usize,
    pub successful_mounts: usize,
    pub failed_mounts: usize,
    pub files_mounted: usize,
    pub symlinks_created: usize,
    pub overlayfs_mounts: usize,
    pub ignored_entries: usize,
    /// Magic Mount directory targets (move and replace).
    pub magic_dirs: usize,
}

impl MountStatistics {
    /// All counters at zero.
    pub open spec fn spec_zero() -> MountStatistics {
        MountStatistics {
            total_mounts: 0,
            successful_mounts: 0,
            failed_mounts: 0,
            files_mounted: 0,
            symlinks_created: 0,
            overlayfs_mounts: 0,
            ignored_entries: 0,
            magic_dirs: 0,
        }
    }

    pub fn zero() -> (s: MountStatistics)
        ensures
            s == Self::spec_zero(),
            s == (MountStatistics {
                total_mounts: 0,
                successful_mounts: 0,
                failed_mounts: 0,
                files_mounted: 0,
                symlinks_created: 0,
                overlayfs_mounts: 0,
                ignored_entries: 0,
                magic_dirs: 0,
            }),
    {
        MountStatistics {
            total_mounts: 0,
            successful_mounts: 0,
            failed_mounts: 0,
            files_mounted: 0,
            symlinks_created: 0,
            overlayfs_mounts: 0,
            ignored_entries: 0,
            magic_dirs: 0,
        }
    }
}

/// Modules per backend.
#[derive(Debug, Clone, Default, PartialEq, Eq, Structural)]
pub struct ModeStats {
    pub overlayfs: usize,
    pub magicmount: usize,
    pub vfs: usize,
}

/// Provenance of the saved run state.
#[derive(Debug, Clone, Copy, Default, PartialEq, Eq, Structural)]
pub enum StateLoadKind {
    #[default]
    Missing,
    Loaded,
    Corrupt,
    IoError,
}

#[derive(Debug, Clone, Default, PartialEq, Eq)]
pub struct StateLoadInfo {
    pub kind: StateLoadKind,
    pub detail: Option<String>,
}

impl StateLoadInfo {
    /// A state read and parsed successfully.
    pub fn loaded() -> (info: StateLoadInfo)
        ensures
            info.kind == StateLoadKind::Loaded,
            info.detail is None,
    {
        StateLoadInfo { kind: StateLoadKind::Loaded, detail: None }
    }

    /// A state file that could not be parsed.
    pub fn corrupt(detail: String) -> (info: StateLoadInfo)
        ensures
            info.kind == StateLoadKind::Corrupt,
            info.detail == Some(detail),
    {
        StateLoadInfo { kind: StateLoadKind::Corrupt, detail: Some(detail) }
    }

    /// A state file that could not be read.
    pub fn io_error(detail: String) -> (info: StateLoadInfo)
        ensures
            info.kind == StateLoadKind::IoError,
            info.detail == Some(detail),
    {
        StateLoadInfo { kind: StateLoadKind::IoError, detail: Some(detail) }
    }

    /// No state file existed.
    pub fn missing() -> (info: StateLoadInfo)
        ensures
            info.kind == StateLoadKind::Missing,
            info.detail is None,
    {
        StateLoadInfo { kind: StateLoadKind::Missing, detail: None }
    }
}

/// The storage mode recorded before any overlay staging exists.
pub const NO_STORAGE_MODE: &'static str = "none";

/// The boot snapshot written after planning and updated by each phase.
#[derive(Debug, Clone)]
pub struct RunState {
    pub timestamp: u64,
    pub pid: u32,
    pub storage_mode: String,
    pub mount_point: String,
    pub overlay_modules: Vec<String>,
    pub magic_modules: Vec<String>,
    pub skip_mount_modules: Vec<String>,
    /// Deduplicated active targets from every backend.
    pub active_mounts: Vec<String>,
    pub overlay_active_mounts: Vec<String>,
    pub magic_active_mounts: Vec<String>,
    pub vfs_modules: Vec<String>,
    pub vfs_active_mounts: Vec<String>,
    pub vfs_provider: Option<String>,
    pub vfs_error: Option<String>,
    pub vfs_error_modules: Vec<String>,
    pub vfs_foreign_nomount: bool,
    pub confirmed_active_mounts: Vec<String>,
    pub mount_error_modules: Vec<String>,
    /// Module id to failure reason, ordered by module id.
    pub mount_error_reasons: Vec<(String, String)>,
    pub mount_stats: MountStatistics,
    pub mode_stats: ModeStats,
    pub state_load: StateLoadInfo,
    pub failed_stage: Option<String>,
    pub failure_reason: Option<String>,
    pub rollback_status: Option<String>,
    pub leftover_mount_targets: Vec<String>,
}

impl RunState {
    /// Everything empty, nothing failed, provenance `Missing`.
    pub open spec fn is_blank(&self) -> bool {
        &&& self.timestamp == 0
        &&& self.pid == 0
        &&& self.storage_mode@.len() == 0
        &&& self.mount_point@.len() == 0
        &&& self.overlay_modules@.len() == 0
        &&& self.magic_modules@.len() == 0
        &&& self.skip_mount_modules@.len() == 0
        &&& self.active_mounts@.len() == 0
        &&& self.overlay_active_mounts@.len() == 0
        &&& self.magic_active_mounts@.len() == 0
        &&& self.vfs_modules@.len() == 0
        &&& self.vfs_active_mounts@.len() == 0
        &&& self.vfs_provider is None
        &&& self.vfs_error is None
        &&& self.vfs_error_modules@.len() == 0
        &&& !self.vfs_foreign_nomount
        &&& self.confirmed_active_mounts@.len() == 0
        &&& self.mount_error_modules@.len() == 0
        &&& self.mount_error_reasons@.len() == 0
        &&& self.mount_stats == MountStatistics::default_spec()
        &&& self.mode_stats == (ModeStats { overlayfs: 0, magicmount: 0, vfs: 0 })
        &&& self.state_load.kind == StateLoadKind::Missing
        &&& self.state_load.detail is None
        &&& self.failed_stage is None
        &&& self.failure_reason is None
        &&& self.rollback_status is None
        &&& self.leftover_mount_targets@.len() == 0
    }

    /// A snapshot built at `timestamp` by process `pid`.
    #[allow(clippy::too_many_arguments)]
    pub fn new(
        storage_mode: String,
        mount_point: String,
        overlay_modules: Vec<String>,
        magic_modules: Vec<String>,
        skip_mount_modules: Vec<String>,
        active_mounts: Vec<String>,
        overlay_active_mounts: Vec<String>,
        magic_active_mounts: Vec<String>,
        mount_stats: MountStatistics,
        mode_stats: ModeStats,
        timestamp: u64,
        pid: u32,
    ) -> (state: RunState)
        ensures
            state.timestamp == timestamp,
            state.pid == pid,
            state.storage_mode == storage_mode,
            state.mount_point == mount_point,
            state.overlay_modules == overlay_modules,
            state.magic_modules == magic_modules,
            state.skip_mount_modules == skip_mount_modules,
            state.active_mounts == active_mounts,
            state.overlay_active_mounts == overlay_active_mounts,
            state.magic_active_mounts == magic_active_mounts,
            state.vfs_modules@.len() == 0,
            state.vfs_active_mounts@.len() == 0,
            state.vfs_provider is None,
            state.vfs_error is None,
            state.vfs_error_modules@.len() == 0,
            !state.vfs_foreign_nomount,
            state.confirmed_active_mounts@.len() == 0,
            state.mount_error_modules@.len() == 0,
            state.mount_error_reasons@.len() == 0,
            state.mount_stats == mount_stats,
            state.mode_stats == mode_stats,
            state.state_load.kind == StateLoadKind::Loaded,
            state.state_load.detail is None,
            state.failed_stage is None,
            state.failure_reason is None,
            state.rollback_status is None,
            state.leftover_mount_targets@.len() == 0,
    {
        RunState {
            timestamp,
            pid,
            storage_mode,
            mount_point,
            overlay_modules,
            magic_modules,
            skip_mount_modules,
            active_mounts,
            overlay_active_mounts,
            magic_active_mounts,
            vfs_modules: Vec::new(),
            vfs_active_mounts: Vec::new(),
            vfs_provider: None,
            vfs_error: None,
            vfs_error_modules: Vec::new(),
            vfs_foreign_nomount: false,
            confirmed_active_mounts: Vec::new(),
            mount_error_modules: Vec::new(),
            mount_error_reasons: Vec::new(),
            mount_stats,
            mode_stats,
            state_load: StateLoadInfo::loaded(),
            failed_stage: None,
            failure_reason: None,
            rollback_status: None,
            leftover_mount_targets: Vec::new(),
        }
    }

    /// A fail-closed snapshot for an error before any mount side effect: no
    /// storage, no modules, no targets, and a clean rollback.
    pub fn from_startup_failure(stage: &str, reason: String, timestamp: u64, pid: u32) -> (state:
        RunState)
        ensures
            state.timestamp == timestamp,
            state.pid == pid,
            state.storage_mode@ == NO_STORAGE_MODE@,
            state.mount_point@.len() == 0,
            state.overlay_modules@.len() == 0,
            state.magic_modules@.len() == 0,
            state.skip_mount_modules@.len() == 0,
            state.active_mounts@.len() == 0,
            state.overlay_active_mounts@.len() == 0,
            state.magic_active_mounts@.len() == 0,
            state.vfs_modules@.len() == 0,
            state.vfs_active_mounts@.len() == 0,
            state.leftover_mount_targets@.len() == 0,
            state.mount_error_modules@.len() == 0,
            state.mount_stats == MountStatistics::default_spec(),
            state.mode_stats == (ModeStats { overlayfs: 0, magicmount: 0, vfs: 0 }),
            state.state_load.kind == StateLoadKind::Loaded,
            state.failed_stage matches Some(s) && s@ == stage@,
            state.failure_reason == Some(reason),
            state.rollback_status matches Some(s) && s@ == "clean"@,
    {
        let mut state = RunState::new(
            owned(NO_STORAGE_MODE),
            String::new(),
            Vec::new(),
            Vec::new(),
            Vec::new(),
            Vec::new(),
            Vec::new(),
            Vec::new(),
            MountStatistics::zero(),
            ModeStats { overlayfs: 0, magicmount: 0, vfs: 0 },
            timestamp,
            pid,
        );
        state.failed_stage = Some(owned(stage));
        state.failure_reason = Some(reason);
        state.rollback_status = Some(owned("clean"));
        state
    }

    /// The state used when no snapshot exists.
    pub fn blank() -> (state: RunState)
        ensures
            state.is_blank(),
    {
        RunState {
            timestamp: 0,
            pid: 0,
            storage_mode: String::new(),
            mount_point: String::new(),
            overlay_modules: Vec::new(),
            magic_modules: Vec::new(),
            skip_mount_modules: Vec::new(),
            active_mounts: Vec::new(),
            overlay_active_mounts: Vec::new(),
            magic_active_mounts: Vec::new(),
            vfs_modules: Vec::new(),
            vfs_active_mounts: Vec::new(),
            vfs_provider: None,
            vfs_error: None,
            vfs_error_modules: Vec::new(),
            vfs_foreign_nomount: false,
            confirmed_active_mounts: Vec::new(),
            mount_error_modules: Vec::new(),
            mount_error_reasons: Vec::new(),
            mount_stats: MountStatistics::zero(),
            mode_stats: ModeStats { overlayfs: 0, magicmount: 0, vfs: 0 },
            state_load: StateLoadInfo::missing(),
            failed_stage: None,
            failure_reason: None,
            rollback_status: None,
            leftover_mount_targets: Vec::new(),
        }
    }
}

impl MountStatistics {
    pub open spec fn default_spec() -> MountStatistics {
        MountStatistics {
            total_mounts: 0,
            successful_mounts: 0,
            failed_mounts: 0,
            files_mounted: 0,
            symlinks_created: 0,
            overlayfs_mounts: 0,
            ignored_entries: 0,
            magic_dirs: 0,
        }
    }
}

impl Default for RunState {
    fn default() -> (state: RunState)
        ensures
            state.is_blank(),
    {
        RunState::blank()
    }
}

/// Install compatibility report.
#[derive(Debug, Clone)]
pub struct InstallState {
    pub installed: bool,
    pub self_module: bool,
    pub binary: bool,
    pub config_exists: bool,
    pub overlay_supported: bool,
    pub tmpfs_supported: bool,
    /// Current ext4 staging concealment result; `None` until verified.
    pub nuke_supported: Option<bool>,
    pub nuke_type: String,
    pub vfs_supported: bool,
    pub vfs_type: String,
    pub mount_source: String,
    pub compatible: bool,
}

/// How the VFS provider module is present on the device.
#[derive(Debug, Clone, Copy, PartialEq, Eq)]
pub enum ModulePresence {
    /// Listed in `/proc/modules`.
    Loadable,
    /// Present only under `/sys/module`, built into the kernel image.
    BuiltIn,
    NotPresent,
}

pub open spec fn spec_vfs_type_label(presence: ModulePresence) -> Seq<char> {
    match presence {
        ModulePresence::Loadable => "lkm"@,
        ModulePresence::BuiltIn => "builtin"@,
        ModulePresence::NotPresent => "unknown"@,
    }
}

/// The `vfs_type` label for a provider presence.
pub fn vfs_type_label(presence: ModulePresence) -> (label: &'static str)
    ensures
        label@ == spec_vfs_type_label(presence),
{
    match presence {
        ModulePresence::Loadable => "lkm",
        ModulePresence::BuiltIn => "builtin",
        ModulePresence::NotPresent => "unknown",
    }
}

/// The install report from the probed facts: installed needs the module, the
/// binary and a config; compatible needs the module, the binary and overlayfs.
/// Probes this builder cannot run are reported as unverified.
pub fn build_install_state(
    self_module: bool,
    binary: bool,
    config_exists: bool,
    overlay_supported: bool,
    vfs_supported: bool,
    mount_source: &str,
) -> (state: InstallState)
    ensures
        state.installed == (self_module && binary && config_exists),
        state.compatible == (self_module && binary && overlay_supported),
        state.self_module == self_module,
        state.binary == binary,
        state.config_exists == config_exists,
        state.overlay_supported == overlay_supported,
        !state.tmpfs_supported,
        state.nuke_supported is None,
        state.nuke_type@ == "unknown"@,
        state.vfs_supported == vfs_supported,
        state.vfs_type@ == "unknown"@,
        state.mount_source@ == mount_source@,
{
    InstallState {
        installed: self_module && binary && config_exists,
        self_module,
        binary,
        config_exists,
        overlay_supported,
        tmpfs_supported: false,
        nuke_supported: None,
        nuke_type: owned("unknown"),
        vfs_supported,
        vfs_type: owned("unknown"),
        mount_source: owned(mount_source),
        compatible: self_module && binary && overlay_supported,
    }
}

} // verus!
