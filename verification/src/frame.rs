//! The per-frame state the region controller drives.
//!
//! A frame owns its three pieces of control state exclusively: the
//! environment stack of scope markers, the handler stack of active protected
//! regions, and the single deferred-completion slot. The live scope count
//! stands for the length of the frame's list of scope records, which a
//! collaborator truncates on the controller's behalf.

use vstd::prelude::*;

use crate::completion::Completion;
use crate::handler::HandlerRecord;
use crate::marker::{region_marker_count, plain_marker, ScopeMarker};

verus! {

/// Control state of one executing frame.
#[derive(Debug)]
pub struct Frame {
    /// Scope markers, innermost on top.
    pub env_stack: Vec<ScopeMarker>,
    /// One record per active protected region, innermost on top.
    pub handler_stack: Vec<HandlerRecord>,
    /// The deferred-completion slot.
    pub completion: Completion,
    /// Number of live scope records the frame currently holds.
    pub live_scopes: usize,
}

/// Mathematical model of a frame's control state.
#[verifier::ext_equal]
pub struct FrameModel {
    pub env: Seq<ScopeMarker>,
    pub handlers: Seq<HandlerRecord>,
    pub completion: Completion,
    pub live: nat,
}

impl FrameModel {
    /// Every region boundary on the environment stack is matched by exactly
    /// one handler record: regions entered and not yet exited.
    pub open spec fn wf(self) -> bool {
        region_marker_count(self.env) == self.handlers.len()
    }
}

/// Effect of entering a plain block that pushed `count` scope records.
pub open spec fn open_scopes_model(m: FrameModel, count: usize) -> FrameModel {
    FrameModel { env: m.env.push(plain_marker(count)), live: (m.live + count) as nat, ..m }
}

impl View for Frame {
    type V = FrameModel;

    open spec fn view(&self) -> FrameModel {
        FrameModel {
            env: self.env_stack@,
            handlers: self.handler_stack@,
            completion: self.completion,
            live: self.live_scopes as nat,
        }
    }
}

impl Frame {
    /// A fresh frame: no scopes, no active regions, nothing deferred.
    pub fn new() -> (frame: Frame)
        ensures
            frame@ == (FrameModel {
                env: Seq::<ScopeMarker>::empty(),
                handlers: Seq::<HandlerRecord>::empty(),
                completion: Completion::Fallthrough,
                live: 0,
            }),
            frame@.wf(),
    {
        let frame = Frame {
            env_stack: Vec::new(),
            handler_stack: Vec::new(),
            completion: Completion::Fallthrough,
            live_scopes: 0,
        };
        proof {
            assert(frame@ =~= FrameModel {
                env: Seq::<ScopeMarker>::empty(),
                handlers: Seq::<HandlerRecord>::empty(),
                completion: Completion::Fallthrough,
                live: 0,
            });
        }
        frame
    }

    /// Enters a plain block that pushed `count` scope records: one marker so
    /// that unwinding past this block discards exactly those records.
    pub fn open_scopes(&mut self, count: usize)
        requires
            old(self)@.live + count <= usize::MAX,
        ensures
            final(self)@ == open_scopes_model(old(self)@, count),
            old(self)@.wf() ==> final(self)@.wf(),
    {
        self.env_stack.push(ScopeMarker {
            scope_count: count,
            is_region_boundary: false,
            is_finally_boundary: false,
            catch_address: Option::None,
            finally_address: Option::None,
        });
        self.live_scopes = self.live_scopes + count;
        proof {
            crate::marker::lemma_region_count_push(old(self)@.env, plain_marker(count));
            assert(self@ =~= FrameModel {
                env: old(self)@.env.push(plain_marker(count)),
                live: (old(self)@.live + count) as nat,
                ..old(self)@
            });
        }
    }
}

} // verus!
