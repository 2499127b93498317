//! Calling conventions for wasm exports whose arguments and results travel as
//! streams of scalar values, and the rewriting that turns such exports into
//! ordinary wasm functions.

pub mod calling_test;
pub mod magic_arg;
pub mod naming;
pub mod postprocess;
pub mod rewrite;
pub mod support;
pub mod value;
pub mod wasm;
pub mod wrapping;
