use vstd::prelude::*;

pub mod acceptance;
pub mod cmt;
pub mod consistency;
pub mod engine;
pub mod filling;
pub mod hasher;
pub mod log;
pub mod model;
pub mod mountain;
pub mod mr;
pub mod presets;
pub mod proofs;
pub mod reads;
pub mod rebuild;
pub mod shape;
pub mod soundness;
pub mod sha;
pub mod storage;
pub mod topology;

verus! {

/// Arity used by the binary presets.
pub const LOG_ARITY: u64 = 2;

} // verus!
