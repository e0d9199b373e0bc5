//! Target for the EVM bytecode grammar: every terminal is a byte, so the
//! generated inputs are bytecode streams. The grammar carries no semantic
//! constraints, so nothing is checked or repaired for it.

use vstd::prelude::*;

verus! {

/// The grammar target of the EVM bytecode grammar: a marker type
/// that names it.
pub struct Evm;

} // verus!
