//! The deferred-completion slot and the result values the controller hands
//! back to the dispatch loop.

use vstd::prelude::*;

verus! {

/// The per-frame completion slot. Set just before control jumps into a
/// `finally` body for any reason other than normal fallthrough; consulted
/// exactly once at the body's normal end to decide whether a suspended
/// abrupt completion must be resumed. Payloads, return values and jump
/// labels are opaque handles to this layer.
#[derive(Clone, Copy, Debug, PartialEq, Eq)]
pub enum Completion {
    /// No deferred completion: control simply falls through.
    Fallthrough,
    /// A suspended `return` carrying the value to return.
    Return(u64),
    /// A suspended throw carrying the payload.
    Throw(u64),
    /// A suspended `break` carrying its target label.
    Break(u32),
    /// A suspended `continue` carrying its target label.
    Continue(u32),
}

/// Where exception dispatch sends control.
#[derive(Clone, Copy, Debug, PartialEq, Eq)]
pub enum ThrowTarget {
    /// No active handler on this frame: hand the payload to the caller.
    Propagate(u64),
    /// Jump to this catch entry point, with the payload bound for the body.
    EnterCatch(u32),
    /// Jump to this finally entry point; the throw is suspended in the
    /// completion slot.
    EnterFinally(u32),
}

/// How an abrupt `return`/`break`/`continue` leaves the active regions.
#[derive(Clone, Copy, Debug, PartialEq, Eq)]
pub enum Unwound {
    /// A `finally` intercepted the transfer: jump to this entry point; the
    /// transfer is suspended in the completion slot.
    Deferred(u32),
    /// Every active region is unwound: perform the transfer now.
    Proceed,
}

/// What the dispatch loop must do after the normal end of a `finally` body.
#[derive(Clone, Copy, Debug, PartialEq, Eq)]
pub enum Resume {
    /// Nothing was suspended: fall through to the next instruction.
    Next,
    /// Resume a suspended `return` with this value.
    DoReturn(u64),
    /// Resume a suspended throw: dispatch this payload from the next-outer
    /// handler.
    Rethrow(u64),
    /// Resume a suspended `break` to this label.
    DoBreak(u32),
    /// Resume a suspended `continue` to this label.
    DoContinue(u32),
}

/// A defect in the upstream compiler or dispatch loop; fatal to the frame.
#[derive(Clone, Copy, Debug, PartialEq, Eq)]
pub enum Fault {
    /// A region-exit marker executed with no active region to close.
    UnmatchedRegionExit,
    /// The innermost handler record offers neither a catch nor a finally.
    MissingHandlerTarget,
    /// A finally-end marker executed with no finally boundary to consume.
    UnmatchedFinallyEnd,
}

/// The action owed at the normal end of a `finally` body for each value of
/// the completion slot.
pub open spec fn resume_of(c: Completion) -> Resume {
    match c {
        Completion::Fallthrough => Resume::Next,
        Completion::Return(value) => Resume::DoReturn(value),
        Completion::Throw(payload) => Resume::Rethrow(payload),
        Completion::Break(label) => Resume::DoBreak(label),
        Completion::Continue(label) => Resume::DoContinue(label),
    }
}

} // verus!
