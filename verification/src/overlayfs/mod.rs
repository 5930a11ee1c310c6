//! OverlayFS backend algorithms: option escaping, layer splitting, child
//! mount paths, and unwinding the mounts of a failed operation.
#[allow(clippy::module_inception)]
pub mod overlayfs;
pub mod subdirectory;
pub mod transaction;
