//! Generator for ASCII-safe x86 instruction sequences.
//!
//! The library rewrites an arbitrary byte payload into x86 instructions whose
//! own encoded bytes all lie in the safe alphabet `0x01..=0x7F`, such that
//! executing those instructions reconstructs the payload on the stack at
//! runtime.  It also produces safe-alphabet stack-pointer positioning code and
//! far jumps, both sized by fixpoint iteration.

pub mod codec;
pub mod encode;
pub mod instructions;
pub mod opcode;
pub mod position;
pub mod select;
pub mod sim;
pub mod solver;

use vstd::prelude::*;

verus! {

/// The ways generation can fail.  Every failure is reported as a value; no
/// verified function of this crate panics.
#[derive(Debug, Clone, Copy, PartialEq, Eq, Structural)]
pub enum EncodeError {
    /// The constraint solver could not rebalance a delta into safe lines.
    UnencodableValue,
    /// A fixpoint sizing loop failed to stabilize within its iteration cap.
    NonConvergent,
    /// A computed immediate fits none of the supported 1/2/4-byte widths.
    UnsupportedWidth,
}

} // verus!
