use region_control::completion::{Completion, Resume, ThrowTarget, Unwound};
use region_control::frame::Frame;

#[test]
fn nested_regions_round_trip() {
    let mut f = Frame::new();
    f.open_scopes(2);
    let live_before = f.live_scopes;
    let depth_before = f.handler_stack.len();
    let env_before = f.env_stack.len();

    f.try_start(Some(10), None);
    f.open_scopes(1);
    f.try_start(Some(20), None);
    f.open_scopes(4);
    f.try_end().unwrap();
    f.try_end().unwrap();

    assert_eq!(f.live_scopes, live_before);
    assert_eq!(f.handler_stack.len(), depth_before);
    assert_eq!(f.env_stack.len(), env_before);
    assert_eq!(f.completion, Completion::Fallthrough);
}

#[test]
fn round_trip_with_finally_boundaries() {
    let mut f = Frame::new();
    f.open_scopes(3);

    f.try_start(None, Some(10));
    f.try_start(Some(20), Some(30));
    f.try_end().unwrap();
    assert_eq!(f.finally_end().unwrap(), Resume::Next);
    f.try_end().unwrap();
    assert_eq!(f.finally_end().unwrap(), Resume::Next);

    assert_eq!(f.live_scopes, 3);
    assert_eq!(f.handler_stack.len(), 0);
    assert_eq!(f.env_stack.len(), 1);
}

#[test]
fn throw_in_bare_finally_runs_finally_then_propagates() {
    let mut f = Frame::new();
    f.try_start(None, Some(50));
    f.open_scopes(2);
    assert_eq!(f.dispatch_throw(9).unwrap(), ThrowTarget::EnterFinally(50));
    assert_eq!(f.completion, Completion::Throw(9));
    assert_eq!(f.live_scopes, 0);
    assert_eq!(f.handler_stack.len(), 0);
    assert_eq!(f.finally_end().unwrap(), Resume::Rethrow(9));
    assert_eq!(f.completion, Completion::Fallthrough);
    assert_eq!(f.dispatch_throw(9).unwrap(), ThrowTarget::Propagate(9));
    assert_eq!(f.env_stack.len(), 0);
}

#[test]
fn throw_runs_catch_then_finally_once_each() {
    let mut f = Frame::new();
    f.try_start(Some(100), Some(200));
    f.open_scopes(2);
    assert_eq!(f.dispatch_throw(7).unwrap(), ThrowTarget::EnterCatch(100));
    assert_eq!(f.completion, Completion::Fallthrough);
    assert_eq!(f.live_scopes, 0);
    // the catch body completes normally and the region exits into the finally
    f.try_end().unwrap();
    assert_eq!(f.finally_end().unwrap(), Resume::Next);
    assert_eq!(f.env_stack.len(), 0);
    assert_eq!(f.handler_stack.len(), 0);
}

#[test]
fn rethrow_from_catch_body_reaches_same_finally() {
    let mut f = Frame::new();
    f.try_start(Some(100), Some(200));
    assert_eq!(f.dispatch_throw(8).unwrap(), ThrowTarget::EnterCatch(100));
    // the catch body throws anew: the region's own finally must still run
    assert_eq!(f.dispatch_throw(9).unwrap(), ThrowTarget::EnterFinally(200));
    assert_eq!(f.completion, Completion::Throw(9));
    assert_eq!(f.finally_end().unwrap(), Resume::Rethrow(9));
    assert_eq!(f.dispatch_throw(9).unwrap(), ThrowTarget::Propagate(9));
}

#[test]
fn return_runs_finally_before_returning() {
    let mut f = Frame::new();
    f.try_start(None, Some(70));
    f.open_scopes(1);
    assert_eq!(f.abrupt_exit(Completion::Return(42)), Unwound::Deferred(70));
    assert_eq!(f.completion, Completion::Return(42));
    assert_eq!(f.live_scopes, 0);
    assert_eq!(f.finally_end().unwrap(), Resume::DoReturn(42));
    assert_eq!(f.abrupt_exit(Completion::Return(42)), Unwound::Proceed);
}

#[test]
fn return_in_finally_overrides_suspended_return() {
    let mut f = Frame::new();
    f.try_start(None, Some(70));
    assert_eq!(f.abrupt_exit(Completion::Return(1)), Unwound::Deferred(70));
    assert_eq!(f.completion, Completion::Return(1));
    // the finally body executes a return of its own: the newer value wins
    assert_eq!(f.abrupt_exit(Completion::Return(2)), Unwound::Proceed);
    assert_eq!(f.completion, Completion::Fallthrough);
}

#[test]
fn return_through_two_finallys_innermost_first() {
    let mut f = Frame::new();
    f.try_start(None, Some(10));
    f.try_start(None, Some(20));
    assert_eq!(f.abrupt_exit(Completion::Return(5)), Unwound::Deferred(20));
    assert_eq!(f.finally_end().unwrap(), Resume::DoReturn(5));
    assert_eq!(f.abrupt_exit(Completion::Return(5)), Unwound::Deferred(10));
    assert_eq!(f.finally_end().unwrap(), Resume::DoReturn(5));
    assert_eq!(f.abrupt_exit(Completion::Return(5)), Unwound::Proceed);
}

#[test]
fn nested_finallys_run_innermost_first_on_throw() {
    let mut f = Frame::new();
    f.try_start(None, Some(11));
    f.try_start(None, Some(22));
    assert_eq!(f.dispatch_throw(3).unwrap(), ThrowTarget::EnterFinally(22));
    assert_eq!(f.finally_end().unwrap(), Resume::Rethrow(3));
    assert_eq!(f.dispatch_throw(3).unwrap(), ThrowTarget::EnterFinally(11));
    assert_eq!(f.finally_end().unwrap(), Resume::Rethrow(3));
    assert_eq!(f.dispatch_throw(3).unwrap(), ThrowTarget::Propagate(3));
    assert_eq!(f.env_stack.len(), 0);
    assert_eq!(f.handler_stack.len(), 0);
}

#[test]
fn bare_finally_inside_catching_region() {
    // region A: catch at 100, finally at 200; inner region B: no catch,
    // finally at 300; B's body throws.
    let mut f = Frame::new();
    f.open_scopes(2);
    f.try_start(Some(100), Some(200));
    f.open_scopes(1);
    f.try_start(None, Some(300));
    f.open_scopes(3);

    // scopes unwound to B's boundary, the throw suspended, control at 300
    assert_eq!(f.dispatch_throw(77).unwrap(), ThrowTarget::EnterFinally(300));
    assert_eq!(f.completion, Completion::Throw(77));
    assert_eq!(f.live_scopes, 3);
    assert_eq!(f.handler_stack.len(), 1);

    // the finally at 300 falls through; the suspended throw resumes
    assert_eq!(f.finally_end().unwrap(), Resume::Rethrow(77));
    assert_eq!(f.completion, Completion::Fallthrough);

    // the rethrow reaches A's catch at 100, scopes unwound to A's boundary
    assert_eq!(f.dispatch_throw(77).unwrap(), ThrowTarget::EnterCatch(100));
    assert_eq!(f.live_scopes, 2);

    // A's catch body completes; A exits normally into its finally at 200
    f.try_end().unwrap();
    assert_eq!(f.finally_end().unwrap(), Resume::Next);
    assert_eq!(f.live_scopes, 2);
    assert_eq!(f.handler_stack.len(), 0);
    assert_eq!(f.env_stack.len(), 1);
}

#[test]
fn break_skips_catch_only_region() {
    let mut f = Frame::new();
    f.try_start(Some(30), None);
    assert_eq!(f.abrupt_exit(Completion::Break(3)), Unwound::Proceed);
    assert_eq!(f.handler_stack.len(), 0);
    assert_eq!(f.env_stack.len(), 0);
}

#[test]
fn continue_defers_to_outer_finally_past_catch_only_region() {
    let mut f = Frame::new();
    f.try_start(None, Some(40));
    f.try_start(Some(30), None);
    assert_eq!(f.abrupt_exit(Completion::Continue(2)), Unwound::Deferred(40));
    assert_eq!(f.completion, Completion::Continue(2));
    assert_eq!(f.finally_end().unwrap(), Resume::DoContinue(2));
}

#[test]
fn region_entry_clears_stale_completion() {
    let mut f = Frame::new();
    f.completion = Completion::Return(9);
    f.try_start(Some(1), None);
    assert_eq!(f.completion, Completion::Fallthrough);
    f.try_end().unwrap();
    assert_eq!(f.completion, Completion::Fallthrough);
}

#[test]
fn raw_operands_decode_at_entry() {
    let mut f = Frame::new();
    // catch absent (sentinel), finally at 90
    f.enter_region(u32::MAX, 90);
    assert_eq!(f.handler_stack.len(), 1);
    assert_eq!(f.handler_stack[0].finally_address, Some(90));
    assert_eq!(f.env_stack.len(), 2);
    assert!(f.env_stack[0].is_finally_boundary);
    assert!(f.env_stack[1].is_region_boundary);
    assert_eq!(f.env_stack[1].catch_address, None);
    // catch at 15, finally absent
    f.enter_region(15, u32::MAX);
    assert_eq!(f.env_stack.len(), 3);
    assert_eq!(f.env_stack[2].catch_address, Some(15));
    assert_eq!(f.handler_stack[1].finally_address, None);
}

#[test]
fn rethrow_from_catch_only_region_escapes() {
    let mut f = Frame::new();
    f.try_start(Some(100), None);
    assert_eq!(f.dispatch_throw(1).unwrap(), ThrowTarget::EnterCatch(100));
    assert_eq!(f.handler_stack.len(), 0);
    // a throw from the catch body has no finally of its own to run
    assert_eq!(f.dispatch_throw(2).unwrap(), ThrowTarget::Propagate(2));
}
