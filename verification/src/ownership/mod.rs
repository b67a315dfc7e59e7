//! Ownership pass: validates move safety on a per-owner lattice and
//! schedules the frees codegen emits.
use vstd::prelude::*;

pub mod flow;
pub mod frees;
pub mod gated;
pub mod lattice;
pub mod pass;
pub mod owners;
pub mod preserve;
pub mod semantics;
pub mod sidecar;
pub mod stmt;
pub mod visit;
pub mod walk;

pub use pass::check;

verus! {

} // verus!
