//! Runtime ownership: the VFS rule table, the boot-scoped ledger and the
//! lifecycle checks shared by boot and soft-reboot cleanup.
pub mod rules;
pub mod ledger;
pub mod lifecycle;
pub mod hot;
pub mod mounts;
pub mod policy;
pub mod transaction;
