//! Overlay staging storage: backend names, cleanup policy and ext4 image sizing.
pub mod ext4;

use vstd::prelude::*;

verus! {

/// The staging backend (matches `overlay_mode` in `config.toml`).
#[derive(Debug, Clone, Copy, PartialEq, Eq)]
pub enum StorageMode {
    Tmpfs,
    Ext4,
}

impl StorageMode {
    pub open spec fn spec_name(self) -> Seq<char> {
        match self {
            StorageMode::Tmpfs => "tmpfs"@,
            StorageMode::Ext4 => "ext4"@,
        }
    }

    /// The configuration and state name of the mode.
    pub fn as_str(self) -> (name: &'static str)
        ensures
            name@ == self.spec_name(),
    {
        match self {
            StorageMode::Tmpfs => "tmpfs",
            StorageMode::Ext4 => "ext4",
        }
    }
}

/// Only the ext4 backend leaves an image file behind to remove.
pub fn should_cleanup_image(storage_mode: StorageMode) -> (cleanup: bool)
    ensures
        cleanup == (storage_mode == StorageMode::Ext4),
{
    match storage_mode {
        StorageMode::Ext4 => true,
        StorageMode::Tmpfs => false,
    }
}

} // verus!
