//! Reconstructs a call graph and a per-function execution-cost profile
//! from a raw execution trace of a stack-machine virtual machine.
//!
//! The trace carries no call or return markers: frame boundaries are
//! inferred from the frame-pointer and allocation-pointer columns alone,
//! and a static debug map resolves each boundary address to the scope
//! chain active there.

pub mod call_map;
pub mod errors;
pub mod utils;
