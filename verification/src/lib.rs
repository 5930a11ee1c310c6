//! Hybrid Mount's planning, ownership and bookkeeping logic, verified with Verus.
pub mod appended;
pub mod config;
pub mod custom_bind;
pub mod module_query;
pub mod mount_flow;
pub mod mount_tree;
pub mod errors;
pub mod execution;
pub mod kasumi_status;
pub mod overlayfs;
pub mod partitions;
pub mod paths;
pub mod pipeline;
pub mod plan;
pub mod runtime;
pub mod scanner;
pub mod snapshot;
pub mod staging;
pub mod state;
pub mod storage;
pub mod sys;
pub mod test_support;
pub mod text;
