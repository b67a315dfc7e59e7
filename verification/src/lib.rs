//! Front-end passes of the Ryo compiler: the builtin registry, the
//! indentation pre-processor, AST lowering, and the ownership pass.
use vstd::prelude::*;

pub mod ast;
pub mod astgen;
pub mod builder;
pub mod builtins;
pub mod diag;
pub mod indent;
pub mod ownership;
pub mod text;
pub mod tir;
pub mod types;
pub mod uir;
pub mod vecmap;

verus! {

} // verus!
