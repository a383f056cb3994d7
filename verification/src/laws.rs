//! Properties of the controller as a whole, stated over the model-level
//! transitions and proved once and for all.

use vstd::prelude::*;

use crate::completion::{Completion, Fault, Resume, ThrowTarget, Unwound};
use crate::controller::{abrupt_model, enter_model, exit_model, finally_model, throw_model};
use crate::frame::{open_scopes_model, FrameModel};
use crate::handler::{deferral_depth, HandlerRecord};
use crate::marker::{
    finally_marker, finally_unwind_keep, finally_unwind_ok, finally_unwind_scopes,
    lemma_marker_sum_push, lemma_region_count_push, lemma_unwind_n_push_plain,
    lemma_unwind_region_count, lemma_unwind_sum_split, marker_sum, plain_marker, region_marker,
    region_marker_count, scopes_after, top_region_marker, unwind_keep, unwind_keep_n,
    unwind_scopes, unwind_scopes_n, ScopeMarker,
};

verus! {

/// One step of a trace of region entries and exits, with no exception.
pub enum RegionOp {
    /// Region entry with the given catch and finally addresses.
    Enter(Option<u32>, Option<u32>),
    /// Normal region exit.
    Exit,
    /// A plain block inside the innermost region that pushed this many
    /// scope records.
    Open(usize),
}

/// The state transition of one trace step. A step outside its guard (a
/// region with neither address, an exit with no active region) leaves the
/// state alone; a well-nested trace never takes such a step.
pub open spec fn step_model(m: FrameModel, op: RegionOp) -> FrameModel {
    match op {
        RegionOp::Enter(catch_address, finally_address) => if catch_address is Some
            || finally_address is Some {
            enter_model(m, catch_address, finally_address)
        } else {
            m
        },
        RegionOp::Exit => if m.handlers.len() > 0 {
            exit_model(m)
        } else {
            m
        },
        RegionOp::Open(count) => open_scopes_model(m, count),
    }
}

/// The state after running a whole trace, first step first.
pub open spec fn run_model(m: FrameModel, ops: Seq<RegionOp>) -> FrameModel
    decreases ops.len(),
{
    if ops.len() == 0 {
        m
    } else {
        run_model(step_model(m, ops.first()), ops.drop_first())
    }
}

/// A trace is well nested from a given region depth: every entry names a
/// catch or a finally, every exit closes an open region, and the trace ends
/// back at depth zero.
pub open spec fn well_nested_from(ops: Seq<RegionOp>, depth: nat) -> bool
    decreases ops.len(),
{
    if ops.len() == 0 {
        depth == 0
    } else {
        match ops.first() {
            RegionOp::Enter(catch_address, finally_address) => (catch_address is Some
                || finally_address is Some) && well_nested_from(ops.drop_first(), depth + 1),
            RegionOp::Exit => depth >= 1 && well_nested_from(ops.drop_first(), (depth - 1) as nat),
            RegionOp::Open(_) => depth >= 1 && well_nested_from(ops.drop_first(), depth),
        }
    }
}

/// A complete trace: properly paired entries and exits, with block scopes
/// opened only inside some region.
pub open spec fn well_nested(ops: Seq<RegionOp>) -> bool {
    well_nested_from(ops, 0)
}

/// Unwinding a stack whose top part holds at least one region boundary
/// never reaches below that part.
proof fn lemma_unwind_append(base: Seq<ScopeMarker>, ext: Seq<ScopeMarker>)
    requires
        region_marker_count(ext) >= 1,
    ensures
        unwind_keep(base + ext) == base + unwind_keep(ext),
        unwind_scopes(base + ext) == unwind_scopes(ext),
    decreases ext.len(),
{
    if ext.len() == 0 {
    } else {
        assert((base + ext).drop_last() =~= base + ext.drop_last());
        assert((base + ext).last() == ext.last());
        if ext.last().is_region_boundary {
        } else {
            lemma_unwind_append(base, ext.drop_last());
        }
    }
}

/// The induction behind the round-trip law: from any state whose stack
/// extends a base by markers the remaining trace accounts for, a trace that
/// is well nested at the extension's depth ends with the base's live scope
/// count and handler depth.
proof fn lemma_trace_restores(
    base: FrameModel,
    s: FrameModel,
    ext: Seq<ScopeMarker>,
    ops: Seq<RegionOp>,
    depth: nat,
)
    requires
        s.wf(),
        s.env == base.env + ext,
        region_marker_count(ext) == depth,
        marker_sum(unwind_keep_n(ext, depth)) == 0,
        s.handlers.len() == base.handlers.len() + depth,
        s.live == base.live + marker_sum(ext),
        well_nested_from(ops, depth),
    ensures
        run_model(s, ops).live == base.live,
        run_model(s, ops).handlers.len() == base.handlers.len(),
        run_model(s, ops).wf(),
    decreases ops.len(),
{
    if ops.len() == 0 {
    } else {
        match ops.first() {
            RegionOp::Enter(catch_address, finally_address) => {
                let s2 = enter_model(s, catch_address, finally_address);
                let boundary = region_marker(catch_address, finally_address);
                let ext2 = if finally_address is Some {
                    ext.push(finally_marker(finally_address.unwrap())).push(boundary)
                } else {
                    ext.push(boundary)
                };
                assert(unwind_keep_n(ext2, depth + 1) == unwind_keep_n(
                    unwind_keep(ext2),
                    depth,
                ));
                if finally_address is Some {
                    let fin = finally_marker(finally_address.unwrap());
                    assert(s2.env =~= base.env + ext2);
                    lemma_region_count_push(ext, fin);
                    lemma_region_count_push(ext.push(fin), boundary);
                    lemma_region_count_push(s.env, fin);
                    lemma_region_count_push(s.env.push(fin), boundary);
                    lemma_marker_sum_push(ext, fin);
                    lemma_marker_sum_push(ext.push(fin), boundary);
                    assert(ext2.last() == boundary);
                    assert(ext2.drop_last() =~= ext.push(fin));
                    assert(unwind_keep(ext2) == ext.push(fin));
                    if depth >= 1 {
                        lemma_unwind_n_push_plain(ext, fin, depth);
                    } else {
                        assert(unwind_keep_n(ext.push(fin), 0) == ext.push(fin));
                        assert(unwind_keep_n(ext, 0) == ext);
                    }
                } else {
                    assert(s2.env =~= base.env + ext2);
                    lemma_region_count_push(ext, boundary);
                    lemma_region_count_push(s.env, boundary);
                    lemma_marker_sum_push(ext, boundary);
                    assert(ext2.last() == boundary);
                    assert(ext2.drop_last() =~= ext);
                    assert(unwind_keep(ext2) == ext);
                }
                lemma_trace_restores(base, s2, ext2, ops.drop_first(), depth + 1);
            },
            RegionOp::Exit => {
                let s2 = exit_model(s);
                lemma_unwind_append(base.env, ext);
                lemma_unwind_sum_split(ext);
                lemma_unwind_region_count(ext);
                lemma_unwind_region_count(s.env);
                let ext2 = unwind_keep(ext);
                assert(unwind_keep_n(ext, depth) == unwind_keep_n(ext2, (depth - 1) as nat));
                assert(s2.live == base.live + marker_sum(ext2));
                lemma_trace_restores(base, s2, ext2, ops.drop_first(), (depth - 1) as nat);
            },
            RegionOp::Open(count) => {
                let s2 = open_scopes_model(s, count);
                let opened = plain_marker(count);
                let ext2 = ext.push(opened);
                assert(s2.env =~= base.env + ext2);
                lemma_region_count_push(ext, opened);
                lemma_region_count_push(s.env, opened);
                lemma_marker_sum_push(ext, opened);
                lemma_unwind_n_push_plain(ext, opened, depth);
                lemma_trace_restores(base, s2, ext2, ops.drop_first(), depth);
            },
        }
    }
}

/// Round trip: for every well-nested trace of region entries and exits,
/// with any block scopes opened inside them and no exception thrown, the
/// live scope count and the handler stack depth after the outermost exit
/// equal their values before the outermost entry, however deep the nesting.
pub proof fn lemma_region_round_trip(m: FrameModel, ops: Seq<RegionOp>)
    requires
        m.wf(),
        well_nested(ops),
    ensures
        run_model(m, ops).live == m.live,
        run_model(m, ops).handlers.len() == m.handlers.len(),
        run_model(m, ops).wf(),
{
    assert(m.env =~= m.env + Seq::<ScopeMarker>::empty());
    assert(unwind_keep_n(Seq::<ScopeMarker>::empty(), 0) == Seq::<ScopeMarker>::empty());
    assert(marker_sum(Seq::<ScopeMarker>::empty()) == 0);
    lemma_trace_restores(m, m, Seq::empty(), ops, 0);
}


/// A throw inside a bare `try…finally` body (no catch) enters that
/// `finally` exactly once, with the throw suspended in the completion slot;
/// the `finally`'s normal end owes the same payload onward, to the next
/// enclosing handler or the caller, with the region fully dismantled and
/// the body's scopes truncated.
pub proof fn lemma_bare_finally_throw(m: FrameModel, fin: u32, count: usize, payload: u64)
    requires
        m.wf(),
        m.live + count <= usize::MAX,
    ensures
        ({
            let body = open_scopes_model(enter_model(m, None, Some(fin)), count);
            let (suspended, target) = throw_model(body, payload);
            let (resumed, action) = finally_model(suspended);
            &&& target == Ok::<ThrowTarget, Fault>(ThrowTarget::EnterFinally(fin))
            &&& suspended.completion == Completion::Throw(payload)
            &&& suspended.handlers == m.handlers
            &&& suspended.live == m.live
            &&& action == Ok::<Resume, Fault>(Resume::Rethrow(payload))
            &&& resumed.env == m.env
            &&& resumed.handlers == m.handlers
            &&& resumed.live == m.live
            &&& resumed.completion == Completion::Fallthrough
        }),
{
    let body = open_scopes_model(enter_model(m, None, Some(fin)), count);
    let fin_m = finally_marker(fin);
    let reg_m = region_marker(None, Some(fin));
    let plain = plain_marker(count);
    let stage = m.env.push(fin_m).push(reg_m);
    assert(body.env.last() == plain);
    assert(body.env.drop_last() =~= stage);
    assert(unwind_keep(body.env) == unwind_keep(stage));
    assert(unwind_scopes(body.env) == plain.scope_count + unwind_scopes(stage));
    assert(stage.last() == reg_m);
    assert(unwind_keep(stage) == stage.drop_last());
    assert(stage.drop_last() =~= m.env.push(fin_m));
    assert(unwind_scopes(stage) == 0);
    assert(top_region_marker(body.env) == top_region_marker(stage));
    assert(top_region_marker(stage) == reg_m);
    assert(body.handlers.last() == HandlerRecord { finally_address: Some(fin) });
    assert(body.handlers.drop_last() =~= m.handlers);
    assert(m.env.push(fin_m).last() == fin_m);
    assert(m.env.push(fin_m).drop_last() =~= m.env);
    assert(finally_unwind_ok(m.env.push(fin_m)));
    assert(finally_unwind_keep(m.env.push(fin_m)) == m.env);
    assert(finally_unwind_scopes(m.env.push(fin_m)) == 0);
    assert(scopes_after(body.live, count as nat) == m.live);
}

/// A throw inside a `try` with both a catch and a finally runs the catch
/// body and then the finally body, in that order, exactly once each: the
/// throw enters the catch with the region re-armed, the catch's normal exit
/// leads into the finally, and the finally's normal end falls through with
/// the whole region dismantled.
pub proof fn lemma_catch_then_finally(m: FrameModel, c: u32, fin: u32, count: usize, payload: u64)
    requires
        m.wf(),
        m.live + count <= usize::MAX,
    ensures
        ({
            let body = open_scopes_model(enter_model(m, Some(c), Some(fin)), count);
            let (in_catch, target) = throw_model(body, payload);
            let after_catch = exit_model(in_catch);
            let (done, action) = finally_model(after_catch);
            &&& target == Ok::<ThrowTarget, Fault>(ThrowTarget::EnterCatch(c))
            &&& in_catch.completion == Completion::Fallthrough
            &&& in_catch.handlers == m.handlers.push(HandlerRecord { finally_address: Some(fin) })
            &&& in_catch.live == m.live
            &&& after_catch.handlers == m.handlers
            &&& after_catch.live == m.live
            &&& action == Ok::<Resume, Fault>(Resume::Next)
            &&& done.env == m.env
            &&& done.handlers == m.handlers
            &&& done.live == m.live
            &&& done.completion == Completion::Fallthrough
        }),
{
    let body = open_scopes_model(enter_model(m, Some(c), Some(fin)), count);
    let fin_m = finally_marker(fin);
    let reg_m = region_marker(Some(c), Some(fin));
    let plain = plain_marker(count);
    let stage = m.env.push(fin_m).push(reg_m);
    assert(body.env.last() == plain);
    assert(body.env.drop_last() =~= stage);
    assert(unwind_keep(body.env) == unwind_keep(stage));
    assert(unwind_scopes(body.env) == plain.scope_count + unwind_scopes(stage));
    assert(stage.last() == reg_m);
    assert(unwind_keep(stage) == stage.drop_last());
    assert(stage.drop_last() =~= m.env.push(fin_m));
    assert(unwind_scopes(stage) == 0);
    assert(top_region_marker(body.env) == top_region_marker(stage));
    assert(top_region_marker(stage) == reg_m);
    let (in_catch, target) = throw_model(body, payload);
    let rearmed = region_marker(None, Some(fin));
    assert(in_catch.env == m.env.push(fin_m).push(rearmed));
    assert(in_catch.env.last() == rearmed);
    assert(in_catch.env.drop_last() =~= m.env.push(fin_m));
    assert(unwind_keep(in_catch.env) == in_catch.env.drop_last());
    assert(unwind_scopes(in_catch.env) == 0);
    assert(in_catch.handlers.drop_last() =~= m.handlers);
    assert(m.env.push(fin_m).last() == fin_m);
    assert(m.env.push(fin_m).drop_last() =~= m.env);
    assert(scopes_after(body.live, count as nat) == m.live);
}

/// A `return` inside a `try…finally` defers to the `finally` before the
/// function returns: the transfer is suspended, the `finally` body runs,
/// and its normal end resumes the return with the original value.
pub proof fn lemma_return_defers_to_finally(m: FrameModel, fin: u32, count: usize, value: u64)
    requires
        m.wf(),
        m.live + count <= usize::MAX,
    ensures
        ({
            let body = open_scopes_model(enter_model(m, None, Some(fin)), count);
            let (suspended, outcome) = abrupt_model(body, Completion::Return(value));
            let (resumed, action) = finally_model(suspended);
            &&& outcome == Unwound::Deferred(fin)
            &&& suspended.completion == Completion::Return(value)
            &&& suspended.handlers == m.handlers
            &&& suspended.live == m.live
            &&& action == Ok::<Resume, Fault>(Resume::DoReturn(value))
            &&& resumed.env == m.env
            &&& resumed.live == m.live
            &&& resumed.completion == Completion::Fallthrough
        }),
{
    let body = open_scopes_model(enter_model(m, None, Some(fin)), count);
    let fin_m = finally_marker(fin);
    let reg_m = region_marker(None, Some(fin));
    let plain = plain_marker(count);
    let stage = m.env.push(fin_m).push(reg_m);
    assert(body.handlers.last() == HandlerRecord { finally_address: Some(fin) });
    assert(deferral_depth(body.handlers) == 0);
    assert(unwind_keep_n(body.env, 1) == unwind_keep_n(unwind_keep(body.env), 0));
    assert(unwind_keep_n(unwind_keep(body.env), 0) == unwind_keep(body.env));
    assert(unwind_scopes_n(body.env, 1) == unwind_scopes(body.env) + unwind_scopes_n(
        unwind_keep(body.env),
        0,
    ));
    assert(unwind_scopes_n(unwind_keep(body.env), 0) == 0);
    assert(body.env.last() == plain);
    assert(body.env.drop_last() =~= stage);
    assert(unwind_keep(body.env) == unwind_keep(stage));
    assert(unwind_scopes(body.env) == plain.scope_count + unwind_scopes(stage));
    assert(stage.last() == reg_m);
    assert(unwind_keep(stage) == stage.drop_last());
    assert(stage.drop_last() =~= m.env.push(fin_m));
    assert(unwind_scopes(stage) == 0);
    assert(m.env.push(fin_m).last() == fin_m);
    assert(m.env.push(fin_m).drop_last() =~= m.env);
    assert(scopes_after(body.live, unwind_scopes_n(body.env, 1)) == m.live);
    let (suspended, outcome) = abrupt_model(body, Completion::Return(value));
    assert(suspended.handlers =~= m.handlers);
}

/// The completion slot is overwritten, never stacked: a new abrupt
/// completion recorded while an older one is suspended replaces it, so the
/// newer `return` (or throw) wins and the older value is discarded.
pub proof fn lemma_newer_completion_wins(m: FrameModel, pending: Completion)
    requires
        m.wf(),
        pending is Return || pending is Break || pending is Continue,
    ensures
        ({
            let (after, outcome) = abrupt_model(m, pending);
            &&& outcome is Deferred ==> after.completion == pending
            &&& outcome is Proceed ==> after.completion == Completion::Fallthrough
        }),
{
}

/// Two nested `try…finally` regions around a throw run both `finally`
/// bodies, innermost first, before the payload reaches the caller.
pub proof fn lemma_nested_finallys_innermost_first(m: FrameModel, fa: u32, fb: u32, payload: u64)
    requires
        m.wf(),
        m.handlers.len() == 0,
    ensures
        ({
            let outer = enter_model(m, None, Some(fa));
            let inner = enter_model(outer, None, Some(fb));
            let (s1, t1) = throw_model(inner, payload);
            let (s2, a1) = finally_model(s1);
            let (s3, t2) = throw_model(s2, payload);
            let (s4, a2) = finally_model(s3);
            let (s5, t3) = throw_model(s4, payload);
            &&& t1 == Ok::<ThrowTarget, Fault>(ThrowTarget::EnterFinally(fb))
            &&& a1 == Ok::<Resume, Fault>(Resume::Rethrow(payload))
            &&& t2 == Ok::<ThrowTarget, Fault>(ThrowTarget::EnterFinally(fa))
            &&& a2 == Ok::<Resume, Fault>(Resume::Rethrow(payload))
            &&& t3 == Ok::<ThrowTarget, Fault>(ThrowTarget::Propagate(payload))
            &&& s5.env == m.env
            &&& s5.handlers.len() == 0
            &&& s5.live == m.live
        }),
{
    let fa_m = finally_marker(fa);
    let ra_m = region_marker(None, Some(fa));
    let fb_m = finally_marker(fb);
    let rb_m = region_marker(None, Some(fb));
    let outer = enter_model(m, None, Some(fa));
    let inner = enter_model(outer, None, Some(fb));
    let stage3 = m.env.push(fa_m).push(ra_m).push(fb_m);
    assert(inner.env.last() == rb_m);
    assert(inner.env.drop_last() =~= stage3);
    assert(unwind_keep(inner.env) == inner.env.drop_last());
    assert(unwind_scopes(inner.env) == 0);
    assert(top_region_marker(inner.env) == rb_m);
    assert(inner.handlers.last() == HandlerRecord { finally_address: Some(fb) });
    assert(inner.handlers.drop_last() =~= outer.handlers);
    let (s1, t1) = throw_model(inner, payload);
    assert(s1.env =~= stage3);
    assert(stage3.last() == fb_m);
    assert(stage3.drop_last() =~= m.env.push(fa_m).push(ra_m));
    assert(finally_unwind_ok(s1.env));
    assert(finally_unwind_keep(s1.env) == stage3.drop_last());
    assert(finally_unwind_scopes(s1.env) == 0);
    let (s2, a1) = finally_model(s1);
    assert(s2.env =~= m.env.push(fa_m).push(ra_m));
    assert(s2.env.last() == ra_m);
    assert(s2.env.drop_last() =~= m.env.push(fa_m));
    assert(unwind_keep(s2.env) == s2.env.drop_last());
    assert(unwind_scopes(s2.env) == 0);
    assert(top_region_marker(s2.env) == ra_m);
    assert(s2.handlers.len() == 1);
    assert(s2.handlers.last() == HandlerRecord { finally_address: Some(fa) });
    assert(s2.handlers.drop_last() =~= m.handlers);
    let (s3, t2) = throw_model(s2, payload);
    assert(s3.env =~= m.env.push(fa_m));
    assert(s3.env.last() == fa_m);
    assert(s3.env.drop_last() =~= m.env);
    assert(finally_unwind_ok(s3.env));
    assert(finally_unwind_keep(s3.env) == m.env);
    assert(finally_unwind_scopes(s3.env) == 0);
    let (s4, a2) = finally_model(s3);
    assert(s4.handlers.len() == 0);
}

/// Unwinding never underflows the live scope count: a truncation discards
/// at most what is live, saturates at zero, and an outer unwind running
/// after an inner handler already truncated composes into one saturating
/// truncation rather than wrapping around.
pub proof fn lemma_unwind_never_underflows(live: nat, inner: nat, outer: nat)
    ensures
        scopes_after(live, inner) <= live,
        inner >= live ==> scopes_after(live, inner) == 0,
        scopes_after(scopes_after(live, inner), outer) == scopes_after(live, inner + outer),
{
}


} // verus!
