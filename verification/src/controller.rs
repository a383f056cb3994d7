//! The region controller: the state machine that drives a frame's
//! environment stack, handler stack and completion slot on region entry,
//! region exit, exception dispatch, abrupt exits and finally resumption.
//!
//! Every operation is specified by a model-level transition function over
//! [`FrameModel`]; the executable methods are proved to implement those
//! transitions exactly.

use vstd::prelude::*;

use crate::completion::{resume_of, Completion, Fault, Resume, ThrowTarget, Unwound};
use crate::frame::{Frame, FrameModel};
use crate::handler::{deferral_depth, HandlerRecord};
use crate::marker::{
    capped, finally_unwind_keep, finally_unwind_ok, finally_unwind_scopes, finally_marker,
    lemma_finally_unwind_region_count, lemma_region_count_push, lemma_scopes_after_capped,
    lemma_scopes_after_compose, lemma_unwind_n_step, lemma_unwind_region_count, region_marker,
    region_marker_count, scopes_after, top_region_marker, unwind_keep, unwind_keep_n,
    unwind_scopes, unwind_scopes_n, ScopeMarker,
};

verus! {

/// Region entry: a finally boundary (when the region has a `finally`) below
/// the region boundary itself, one new handler record, and a cleared
/// completion slot. No scope record is touched.
pub open spec fn enter_model(
    m: FrameModel,
    catch_address: Option<u32>,
    finally_address: Option<u32>,
) -> FrameModel {
    FrameModel {
        env: if finally_address is Some {
            m.env.push(finally_marker(finally_address.unwrap())).push(
                region_marker(catch_address, finally_address),
            )
        } else {
            m.env.push(region_marker(catch_address, finally_address))
        },
        handlers: m.handlers.push(HandlerRecord { finally_address }),
        completion: Completion::Fallthrough,
        live: m.live,
    }
}

/// Normal region exit: the innermost handler record is discarded, the
/// environment stack is unwound through the region boundary (the finally
/// boundary below it, if any, stays live for the `finally` body), the
/// discarded markers' scope counts are truncated away, and the completion
/// slot is cleared.
pub open spec fn exit_model(m: FrameModel) -> FrameModel {
    FrameModel {
        env: unwind_keep(m.env),
        handlers: m.handlers.drop_last(),
        completion: Completion::Fallthrough,
        live: scopes_after(m.live, unwind_scopes(m.env)),
    }
}

/// Exception dispatch against the innermost handler record: a catch takes
/// the payload (re-arming the region so that a rethrow from the catch body
/// still finds its `finally`), else a `finally` intercepts the throw, else
/// the record is a compiler-contract violation; with no record at all the
/// payload propagates to the caller.
pub open spec fn throw_model(m: FrameModel, payload: u64) -> (FrameModel, Result<
    ThrowTarget,
    Fault,
>) {
    if m.handlers.len() == 0 {
        (m, Ok(ThrowTarget::Propagate(payload)))
    } else {
        let boundary = top_region_marker(m.env);
        let fin = m.handlers.last().finally_address;
        let unwound = FrameModel {
            env: unwind_keep(m.env),
            handlers: m.handlers,
            completion: Completion::Fallthrough,
            live: scopes_after(m.live, unwind_scopes(m.env)),
        };
        if boundary.catch_address is Some {
            if fin is Some {
                (
                    FrameModel { env: unwound.env.push(region_marker(None, fin)), ..unwound },
                    Ok(ThrowTarget::EnterCatch(boundary.catch_address.unwrap())),
                )
            } else {
                (
                    FrameModel { handlers: m.handlers.drop_last(), ..unwound },
                    Ok(ThrowTarget::EnterCatch(boundary.catch_address.unwrap())),
                )
            }
        } else if fin is Some {
            (
                FrameModel {
                    handlers: m.handlers.drop_last(),
                    completion: Completion::Throw(payload),
                    ..unwound
                },
                Ok(ThrowTarget::EnterFinally(fin.unwrap())),
            )
        } else {
            (m, Err(Fault::MissingHandlerTarget))
        }
    }
}

/// Abrupt `return`/`break`/`continue`: regions without a `finally` are
/// unwound outright, innermost first; the first one with a `finally`
/// suspends the transfer in the completion slot and receives control. With
/// no such region the transfer proceeds at once.
pub open spec fn abrupt_model(m: FrameModel, pending: Completion) -> (FrameModel, Unwound) {
    let d = deferral_depth(m.handlers);
    let n = m.handlers.len();
    if d == n {
        (
            FrameModel {
                env: unwind_keep_n(m.env, n),
                handlers: Seq::empty(),
                completion: Completion::Fallthrough,
                live: scopes_after(m.live, unwind_scopes_n(m.env, n)),
            },
            Unwound::Proceed,
        )
    } else {
        (
            FrameModel {
                env: unwind_keep_n(m.env, d + 1),
                handlers: m.handlers.take(n - d - 1),
                completion: pending,
                live: scopes_after(m.live, unwind_scopes_n(m.env, d + 1)),
            },
            Unwound::Deferred(m.handlers[n - d - 1].finally_address.unwrap()),
        )
    }
}

/// Normal end of a `finally` body: its finally boundary is consumed (with
/// any scopes the body left behind), the completion slot is cleared first,
/// and whatever it held is the action owed to the dispatch loop.
pub open spec fn finally_model(m: FrameModel) -> (FrameModel, Result<Resume, Fault>) {
    if finally_unwind_ok(m.env) {
        (
            FrameModel {
                env: finally_unwind_keep(m.env),
                handlers: m.handlers,
                completion: Completion::Fallthrough,
                live: scopes_after(m.live, finally_unwind_scopes(m.env)),
            },
            Ok(resume_of(m.completion)),
        )
    } else {
        (m, Err(Fault::UnmatchedFinallyEnd))
    }
}

/// Finds the innermost region boundary without touching the stack: its
/// index, and the (saturated) total of scope counts at and above it.
fn scan_region_top(env: &Vec<ScopeMarker>) -> (found: (usize, usize))
    requires
        region_marker_count(env@) >= 1,
    ensures
        found.0 < env@.len(),
        env@[found.0 as int] == top_region_marker(env@),
        env@[found.0 as int].is_region_boundary,
        unwind_keep(env@) == env@.take(found.0 as int),
        found.1 as nat == capped(unwind_scopes(env@)),
{
    let ghost whole = env@;
    let mut j: usize = env.len();
    let mut discarded: usize = 0;
    let ghost mut gsum: nat = 0nat;
    proof {
        assert(whole.take(j as int) =~= whole);
        if whole.len() == 0 {
            assert(region_marker_count(whole) == 0);
        }
    }
    loop
        invariant
            0 < j <= whole.len(),
            env@ == whole,
            region_marker_count(whole.take(j as int)) >= 1,
            unwind_keep(whole) == unwind_keep(whole.take(j as int)),
            top_region_marker(whole) == top_region_marker(whole.take(j as int)),
            unwind_scopes(whole) == gsum + unwind_scopes(whole.take(j as int)),
            discarded as nat == capped(gsum),
        decreases j,
    {
        let m = env[j - 1];
        proof {
            assert(whole.take(j as int).drop_last() =~= whole.take(j as int - 1));
            assert(whole.take(j as int).last() == whole[j as int - 1]);
        }
        let next = if discarded <= usize::MAX - m.scope_count {
            discarded + m.scope_count
        } else {
            usize::MAX
        };
        if m.is_region_boundary {
            proof {
                gsum = (gsum + m.scope_count) as nat;
            }
            return (j - 1, next);
        }
        discarded = next;
        proof {
            gsum = (gsum + m.scope_count) as nat;
            if j - 1 == 0 {
                assert(region_marker_count(whole.take(0)) == 0);
            }
        }
        j = j - 1;
    }
}

/// Finds the innermost finally boundary without touching the stack, unless a
/// region boundary or the stack's bottom comes first.
fn scan_finally_top(env: &Vec<ScopeMarker>) -> (found: Option<(usize, usize)>)
    ensures
        finally_unwind_ok(env@) <==> found is Some,
        found is Some ==> found.unwrap().0 < env@.len(),
        found is Some ==> finally_unwind_keep(env@) == env@.take(found.unwrap().0 as int),
        found is Some ==> found.unwrap().1 as nat == capped(finally_unwind_scopes(env@)),
{
    let ghost whole = env@;
    let mut j: usize = env.len();
    let mut discarded: usize = 0;
    let ghost mut gsum: nat = 0nat;
    proof {
        assert(whole.take(j as int) =~= whole);
    }
    loop
        invariant
            0 <= j <= whole.len(),
            env@ == whole,
            finally_unwind_ok(whole) == finally_unwind_ok(whole.take(j as int)),
            finally_unwind_keep(whole) == finally_unwind_keep(whole.take(j as int)),
            finally_unwind_scopes(whole) == gsum + finally_unwind_scopes(whole.take(j as int)),
            discarded as nat == capped(gsum),
        decreases j,
    {
        if j == 0 {
            return Option::None;
        }
        let m = env[j - 1];
        proof {
            assert(whole.take(j as int).drop_last() =~= whole.take(j as int - 1));
            assert(whole.take(j as int).last() == whole[j as int - 1]);
        }
        if m.is_region_boundary {
            return Option::None;
        }
        let next = if discarded <= usize::MAX - m.scope_count {
            discarded + m.scope_count
        } else {
            usize::MAX
        };
        if m.is_finally_boundary {
            proof {
                gsum = (gsum + m.scope_count) as nat;
            }
            return Option::Some((j - 1, next));
        }
        discarded = next;
        proof {
            gsum = (gsum + m.scope_count) as nat;
        }
        j = j - 1;
    }
}

impl Frame {
    /// Pops markers until and including the innermost region boundary and
    /// truncates the live scope count by the accumulated scope counts,
    /// saturating at zero. Returns the boundary popped.
    fn unwind_region(&mut self) -> (boundary: ScopeMarker)
        requires
            region_marker_count(old(self)@.env) >= 1,
        ensures
            boundary == top_region_marker(old(self)@.env),
            final(self)@ == (FrameModel {
                env: unwind_keep(old(self)@.env),
                live: scopes_after(old(self)@.live, unwind_scopes(old(self)@.env)),
                ..old(self)@
            }),
    {
        let (i, discarded) = scan_region_top(&self.env_stack);
        let boundary = self.env_stack[i];
        self.env_stack.truncate(i);
        self.live_scopes = if self.live_scopes >= discarded {
            self.live_scopes - discarded
        } else {
            0
        };
        proof {
            lemma_scopes_after_capped(old(self)@.live, unwind_scopes(old(self)@.env));
            assert(self@ =~= FrameModel {
                env: unwind_keep(old(self)@.env),
                live: scopes_after(old(self)@.live, unwind_scopes(old(self)@.env)),
                ..old(self)@
            });
        }
        boundary
    }

    /// Region entry. The compiler resolves the two addresses; it never emits
    /// a region with neither a catch nor a finally.
    pub fn try_start(&mut self, catch_address: Option<u32>, finally_address: Option<u32>)
        requires
            old(self)@.wf(),
            catch_address is Some || finally_address is Some,
        ensures
            final(self)@ == enter_model(old(self)@, catch_address, finally_address),
            final(self)@.wf(),
    {
        match finally_address {
            Option::Some(addr) => {
                self.env_stack.push(ScopeMarker {
                    scope_count: 0,
                    is_region_boundary: false,
                    is_finally_boundary: true,
                    catch_address: Option::None,
                    finally_address: Option::Some(addr),
                });
            },
            Option::None => {},
        }
        self.completion = Completion::Fallthrough;
        self.env_stack.push(ScopeMarker {
            scope_count: 0,
            is_region_boundary: true,
            is_finally_boundary: false,
            catch_address,
            finally_address,
        });
        self.handler_stack.push(HandlerRecord { finally_address });
        proof {
            if finally_address is Some {
                lemma_region_count_push(old(self)@.env, finally_marker(finally_address.unwrap()));
                lemma_region_count_push(
                    old(self)@.env.push(finally_marker(finally_address.unwrap())),
                    region_marker(catch_address, finally_address),
                );
            } else {
                lemma_region_count_push(
                    old(self)@.env,
                    region_marker(catch_address, finally_address),
                );
            }
            assert(self@ =~= enter_model(old(self)@, catch_address, finally_address));
        }
    }

    /// Normal region exit. Fails, leaving the frame untouched, when no
    /// region is active: a region-exit marker with no matching entry.
    pub fn try_end(&mut self) -> (result: Result<(), Fault>)
        requires
            old(self)@.wf(),
        ensures
            final(self)@.wf(),
            old(self)@.handlers.len() == 0 ==> result == Err::<(), Fault>(
                Fault::UnmatchedRegionExit,
            ) && final(self)@ == old(self)@,
            old(self)@.handlers.len() > 0 ==> result == Ok::<(), Fault>(()) && final(self)@
                == exit_model(old(self)@),
    {
        if self.handler_stack.len() == 0 {
            return Err(Fault::UnmatchedRegionExit);
        }
        self.handler_stack.pop();
        self.unwind_region();
        self.completion = Completion::Fallthrough;
        proof {
            lemma_unwind_region_count(old(self)@.env);
            assert(self@ =~= exit_model(old(self)@));
        }
        Ok(())
    }

    /// Exception dispatch for a thrown payload, against the innermost
    /// active region. When the region still has a `finally`, the catch body
    /// runs with the region re-armed catchless, so a rethrow from it still
    /// reaches that `finally`; a catch-only region is dismantled at catch
    /// entry, so a rethrow from its catch body reaches the next-outer
    /// handler. A `finally` entered by dispatch owes the throw a
    /// resumption.
    pub fn dispatch_throw(&mut self, payload: u64) -> (target: Result<ThrowTarget, Fault>)
        requires
            old(self)@.wf(),
        ensures
            final(self)@.wf(),
            final(self)@ == throw_model(old(self)@, payload).0,
            target == throw_model(old(self)@, payload).1,
    {
        if self.handler_stack.len() == 0 {
            return Ok(ThrowTarget::Propagate(payload));
        }
        let hidx = self.handler_stack.len() - 1;
        let fin = self.handler_stack[hidx].finally_address;
        let (ridx, _) = scan_region_top(&self.env_stack);
        let catch = self.env_stack[ridx].catch_address;
        match catch {
            Option::Some(catch_addr) => {
                self.unwind_region();
                proof {
                    lemma_unwind_region_count(old(self)@.env);
                }
                match fin {
                    Option::Some(_) => {
                        self.env_stack.push(ScopeMarker {
                            scope_count: 0,
                            is_region_boundary: true,
                            is_finally_boundary: false,
                            catch_address: Option::None,
                            finally_address: fin,
                        });
                        proof {
                            lemma_region_count_push(
                                unwind_keep(old(self)@.env),
                                region_marker(None, fin),
                            );
                        }
                    },
                    Option::None => {
                        self.handler_stack.pop();
                    },
                }
                self.completion = Completion::Fallthrough;
                proof {
                    assert(self@ =~= throw_model(old(self)@, payload).0);
                }
                Ok(ThrowTarget::EnterCatch(catch_addr))
            },
            Option::None => {
                match fin {
                    Option::Some(fin_addr) => {
                        self.unwind_region();
                        self.handler_stack.pop();
                        self.completion = Completion::Throw(payload);
                        proof {
                            lemma_unwind_region_count(old(self)@.env);
                            assert(self@ =~= throw_model(old(self)@, payload).0);
                        }
                        Ok(ThrowTarget::EnterFinally(fin_addr))
                    },
                    Option::None => Err(Fault::MissingHandlerTarget),
                }
            },
        }
    }

    /// Abrupt exit via `return`, `break` or `continue`: each region without
    /// a `finally` is unwound as on normal exit, innermost first, until one
    /// with a `finally` suspends the transfer, or none is left and the
    /// transfer proceeds. A `return` always escapes the whole frame; the
    /// dispatch loop routes a `break` or `continue` here only when its
    /// target lies outside every region active on the frame. The completion
    /// slot is overwritten unconditionally: a newer abrupt completion
    /// replaces an older suspended one.
    pub fn abrupt_exit(&mut self, pending: Completion) -> (outcome: Unwound)
        requires
            old(self)@.wf(),
            pending is Return || pending is Break || pending is Continue,
        ensures
            final(self)@.wf(),
            final(self)@ == abrupt_model(old(self)@, pending).0,
            outcome == abrupt_model(old(self)@, pending).1,
    {
        let ghost m0 = self@;
        let n0 = self.handler_stack.len();
        let mut skipped: usize = 0;
        proof {
            assert(m0.handlers.take(n0 as int) =~= m0.handlers);
        }
        loop
            invariant
                m0 == old(self)@,
                m0.wf(),
                n0 == m0.handlers.len(),
                skipped <= n0,
                self@.wf(),
                self.env_stack@ == unwind_keep_n(m0.env, skipped as nat),
                self.handler_stack@ == m0.handlers.take(n0 - skipped),
                self.live_scopes as nat == scopes_after(
                    m0.live,
                    unwind_scopes_n(m0.env, skipped as nat),
                ),
                self.completion == m0.completion,
                deferral_depth(m0.handlers) == skipped + deferral_depth(
                    m0.handlers.take(n0 - skipped),
                ),
            decreases n0 - skipped,
        {
            if self.handler_stack.len() == 0 {
                self.completion = Completion::Fallthrough;
                proof {
                    assert(skipped == n0);
                    assert(deferral_depth(m0.handlers) == n0);
                    assert(self@.handlers =~= Seq::<HandlerRecord>::empty());
                    assert(self@ =~= abrupt_model(m0, pending).0);
                }
                return Unwound::Proceed;
            }
            let hidx = self.handler_stack.len() - 1;
            let fin = self.handler_stack[hidx].finally_address;
            proof {
                assert(m0.handlers.take(n0 - skipped).drop_last() =~= m0.handlers.take(
                    n0 - skipped - 1,
                ));
                assert(m0.handlers.take(n0 - skipped).last() == m0.handlers[n0 - skipped - 1]);
            }
            self.handler_stack.pop();
            self.unwind_region();
            proof {
                lemma_unwind_region_count(unwind_keep_n(m0.env, skipped as nat));
                lemma_unwind_n_step(m0.env, skipped as nat);
                lemma_scopes_after_compose(
                    m0.live,
                    unwind_scopes_n(m0.env, skipped as nat),
                    unwind_scopes(unwind_keep_n(m0.env, skipped as nat)),
                );
            }
            match fin {
                Option::Some(addr) => {
                    self.completion = pending;
                    proof {
                        assert(deferral_depth(m0.handlers.take(n0 - skipped)) == 0);
                        assert(deferral_depth(m0.handlers) == skipped < n0);
                        assert(self@ =~= abrupt_model(m0, pending).0);
                    }
                    return Unwound::Deferred(addr);
                },
                Option::None => {
                    proof {
                        assert(deferral_depth(m0.handlers.take(n0 - skipped)) == 1
                            + deferral_depth(m0.handlers.take(n0 - skipped - 1)));
                        assert(skipped < n0);
                    }
                    skipped = skipped + 1;
                },
            }
        }
    }

    /// The normal end of a `finally` body: consumes the finally boundary
    /// (failing, with the frame untouched, when none is there to consume),
    /// clears the completion slot first, and reports the suspended
    /// completion — if any — that the dispatch loop must now resume. The
    /// cleared-first order is what lets a newer completion, recorded while
    /// the body ran, discard the older one instead of stacking with it.
    pub fn finally_end(&mut self) -> (resume: Result<Resume, Fault>)
        requires
            old(self)@.wf(),
        ensures
            final(self)@.wf(),
            final(self)@ == finally_model(old(self)@).0,
            resume == finally_model(old(self)@).1,
    {
        match scan_finally_top(&self.env_stack) {
            Option::Some(found) => {
                let (i, discarded) = found;
                self.env_stack.truncate(i);
                self.live_scopes = if self.live_scopes >= discarded {
                    self.live_scopes - discarded
                } else {
                    0
                };
                let action = match self.completion {
                    Completion::Fallthrough => Resume::Next,
                    Completion::Return(value) => Resume::DoReturn(value),
                    Completion::Throw(payload) => Resume::Rethrow(payload),
                    Completion::Break(label) => Resume::DoBreak(label),
                    Completion::Continue(label) => Resume::DoContinue(label),
                };
                self.completion = Completion::Fallthrough;
                proof {
                    lemma_finally_unwind_region_count(old(self)@.env);
                    lemma_scopes_after_capped(
                        old(self)@.live,
                        finally_unwind_scopes(old(self)@.env),
                    );
                    assert(self@ =~= finally_model(old(self)@).0);
                }
                Ok(action)
            },
            Option::None => Err(Fault::UnmatchedFinallyEnd),
        }
    }
}

} // verus!
