//! Backward symbolic execution over LLVM bitcode functions: decide whether
//! a function can reach a panic — an `unreachable` terminator — and, when
//! it can, let the solver exhibit integer arguments that drive execution
//! there.
//!
//! The pipeline extracts a control-flow graph over the basic blocks plus a
//! synthetic terminal node, orders it topologically, compiles each block
//! into a verification condition that propagates panic reachability
//! backward, constrains the integer parameters to their signed ranges,
//! demands that the entry block's predicate is false, and asks the solver
//! for a counter-example. Functions with cycles are reported and skipped.
//!
//! Every formula handed to the solver is built by verified code whose
//! contracts state its exact shape, and an evaluation semantics over those
//! formulas ties the verdict to the satisfiability of the compiled
//! problem.

pub mod analysis;
pub mod cfg;
pub mod compile;
pub mod ir;
pub mod laws;
pub mod names;
pub mod pretty;
pub mod smt;
pub mod term;
pub mod topo;

use vstd::prelude::*;

verus! {

/// A safety verdict for one analyzed function.
#[derive(Clone, Copy, PartialEq, Eq, Structural, Debug)]
pub enum Verdict {
    Safe,
    Unsafe,
    Unknown,
}

} // verus!
