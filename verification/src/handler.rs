//! Handler records: the entries of a frame's handler stack.
//!
//! One record per protected region entered and not yet exited. The stack
//! exists so that a thrown payload or an abrupt transfer can find the nearest
//! `finally` without re-reading bytecode operands that are no longer at hand.

use vstd::prelude::*;

verus! {

/// One active protected region.
#[derive(Clone, Copy, Debug)]
pub struct HandlerRecord {
    /// Resolved finally entry point, when the region has one.
    pub finally_address: Option<u32>,
}

/// How many records an abrupt `return`/`break`/`continue` unwinds before one
/// with a `finally` intercepts it; the whole stack when none does.
pub open spec fn deferral_depth(handlers: Seq<HandlerRecord>) -> nat
    decreases handlers.len(),
{
    if handlers.len() == 0 {
        0
    } else if handlers.last().finally_address is Some {
        0
    } else {
        1 + deferral_depth(handlers.drop_last())
    }
}

} // verus!
