use region_control::completion::{Completion, Fault, Resume, ThrowTarget};
use region_control::frame::Frame;
use region_control::handler::HandlerRecord;
use region_control::marker::ScopeMarker;
use region_control::{decode_address, NO_ADDRESS};

#[test]
fn decode_keeps_real_addresses() {
    assert_eq!(decode_address(0), Some(0));
    assert_eq!(decode_address(7), Some(7));
    assert_eq!(decode_address(NO_ADDRESS - 1), Some(NO_ADDRESS - 1));
}

#[test]
fn decode_drops_the_sentinel() {
    assert_eq!(decode_address(NO_ADDRESS), None);
    assert_eq!(decode_address(u32::MAX), None);
}

#[test]
fn region_exit_without_entry_is_a_fault() {
    let mut f = Frame::new();
    assert_eq!(f.try_end(), Err(Fault::UnmatchedRegionExit));
    assert_eq!(f.env_stack.len(), 0);
    assert_eq!(f.live_scopes, 0);
}

#[test]
fn finally_end_without_boundary_is_a_fault() {
    let mut f = Frame::new();
    assert_eq!(f.finally_end(), Err(Fault::UnmatchedFinallyEnd));
    // a region boundary on top blocks it as well
    f.try_start(Some(4), None);
    assert_eq!(f.finally_end(), Err(Fault::UnmatchedFinallyEnd));
}

#[test]
fn handler_with_neither_target_is_a_fault() {
    let mut f = Frame::new();
    f.env_stack.push(ScopeMarker {
        scope_count: 0,
        is_region_boundary: true,
        is_finally_boundary: false,
        catch_address: None,
        finally_address: None,
    });
    f.handler_stack.push(HandlerRecord { finally_address: None });
    assert_eq!(f.dispatch_throw(1), Err(Fault::MissingHandlerTarget));
    // the frame is left untouched for the host to inspect
    assert_eq!(f.env_stack.len(), 1);
    assert_eq!(f.handler_stack.len(), 1);
}

#[test]
fn throw_with_no_handler_propagates() {
    let mut f = Frame::new();
    assert_eq!(f.dispatch_throw(123), Ok(ThrowTarget::Propagate(123)));
}

#[test]
fn unwind_saturates_instead_of_underflowing() {
    // an inner handler already truncated the scopes: the markers promise
    // more records than are live, and the unwind must clamp at zero
    let mut f = Frame::new();
    f.live_scopes = 1;
    f.env_stack.push(ScopeMarker {
        scope_count: 0,
        is_region_boundary: true,
        is_finally_boundary: false,
        catch_address: Some(5),
        finally_address: None,
    });
    f.env_stack.push(ScopeMarker {
        scope_count: 7,
        is_region_boundary: false,
        is_finally_boundary: false,
        catch_address: None,
        finally_address: None,
    });
    f.handler_stack.push(HandlerRecord { finally_address: None });
    assert_eq!(f.try_end(), Ok(()));
    assert_eq!(f.live_scopes, 0);
    assert_eq!(f.completion, Completion::Fallthrough);
}

#[test]
fn finally_end_truncates_scopes_the_body_left_behind() {
    let mut f = Frame::new();
    f.try_start(None, Some(60));
    f.try_end().unwrap();
    // the finally body opens a scope and never closes it; its end cleans up
    f.open_scopes(5);
    assert_eq!(f.finally_end().unwrap(), Resume::Next);
    assert_eq!(f.live_scopes, 0);
    assert_eq!(f.env_stack.len(), 0);
}
