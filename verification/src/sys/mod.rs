//! System-facing helpers: fault gates, subprocess specs, mount snapshots,
//! the cleanup journal and kernel module loading decisions.
pub mod faults;
pub mod kconfig;
pub mod kmi;
pub mod lkm;
pub mod lkm_image;
pub mod mount;
pub mod mountinfo;
pub mod nuke;
pub mod process;
pub mod temp;
pub mod transaction;
