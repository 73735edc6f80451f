//! Backward value traces over the recorded dataflow.

pub mod asked;
pub mod call_context;
pub mod coverage;
pub mod path;
pub mod preference;
pub mod slicer;
