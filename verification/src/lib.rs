//! Control-flow core for `try`/`catch`/`finally` protected regions of a
//! bytecode-interpreted engine.
//!
//! The crate keeps three interdependent pieces of per-frame state consistent
//! across every exit path from a protected region: the environment stack of
//! scope markers, the stack of active handler records, and the single deferred
//! completion slot. The region controller drives them on region entry, region
//! exit, exception dispatch, abrupt exits (`return`/`break`/`continue`), and
//! at the normal end of a `finally` body.

pub mod completion;
pub mod controller;
pub mod frame;
pub mod handler;
pub mod laws;
pub mod marker;

use vstd::prelude::*;

verus! {

/// Reserved instruction address meaning "no catch" / "no finally".
pub const NO_ADDRESS: u32 = 0xffff_ffff;

/// Turns a compiler-encoded jump target into an explicit optional address.
/// The reserved value [`NO_ADDRESS`] never travels past this boundary.
pub fn decode_address(raw: u32) -> (addr: Option<u32>)
    ensures
        addr == (if raw == NO_ADDRESS {
            Option::<u32>::None
        } else {
            Option::<u32>::Some(raw)
        }),
{
    if raw == NO_ADDRESS {
        Option::None
    } else {
        Option::Some(raw)
    }
}

impl frame::Frame {
    /// Region entry as the bytecode encodes it: two raw operands, each
    /// possibly the reserved sentinel. The compiler never emits a region
    /// with both absent.
    pub fn enter_region(&mut self, catch_raw: u32, finally_raw: u32)
        requires
            old(self)@.wf(),
            catch_raw != NO_ADDRESS || finally_raw != NO_ADDRESS,
        ensures
            final(self)@ == controller::enter_model(
                old(self)@,
                if catch_raw == NO_ADDRESS {
                    Option::<u32>::None
                } else {
                    Option::<u32>::Some(catch_raw)
                },
                if finally_raw == NO_ADDRESS {
                    Option::<u32>::None
                } else {
                    Option::<u32>::Some(finally_raw)
                },
            ),
            final(self)@.wf(),
    {
        let catch_address = decode_address(catch_raw);
        let finally_address = decode_address(finally_raw);
        self.try_start(catch_address, finally_address);
    }
}

} // verus!
