//! The hybrid mount planner.
//!
//! Rule precedence: path rules, then the module's default mode, then the
//! global default mode. A file path goes to exactly one backend; plain
//! structural directories can be shared, and a real conflict is a boot error.
//!
//! Output: overlay operations grouped by target, with directory rules used
//! directly as lower layers and file rules left to the executor as shallow
//! layers, and one backend-labelled node tree for the executors.
pub mod checks;
pub mod layers;
pub mod paths;
pub mod rules;
pub mod planner;
