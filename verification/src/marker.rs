//! Scope markers: the entries of a frame's environment stack.
//!
//! A marker records how many live scope records were pushed since the marker
//! below it, and whether it is a protected-region boundary (the unwind target
//! of a `try`) or a finally boundary (pushed directly below a region boundary
//! when the region has a `finally`, so that unwinding can stop just above it
//! and leave it for the `finally` body). Markers are created on region entry
//! or block entry and consumed by unwinding; they are never mutated in place.

use vstd::prelude::*;

verus! {

/// One entry of the environment stack.
#[derive(Clone, Copy, Debug)]
pub struct ScopeMarker {
    /// Number of live scope records pushed since the previous marker.
    pub scope_count: usize,
    /// True for the marker pushed at a `try`'s start: the unwind target.
    pub is_region_boundary: bool,
    /// True for the marker pushed below a region boundary when the region has
    /// a `finally`; it stays live after the region itself is unwound.
    pub is_finally_boundary: bool,
    /// Resolved catch entry point, kept on the region boundary so that
    /// exception dispatch can find it without re-reading bytecode operands.
    pub catch_address: Option<u32>,
    /// Resolved finally entry point, when the region has one.
    pub finally_address: Option<u32>,
}

/// Marker for a plain block that pushed `scope_count` scope records.
pub open spec fn plain_marker(scope_count: usize) -> ScopeMarker {
    ScopeMarker {
        scope_count,
        is_region_boundary: false,
        is_finally_boundary: false,
        catch_address: None,
        finally_address: None,
    }
}

/// Marker pushed at a region's start; the unwind target for that region.
pub open spec fn region_marker(catch_address: Option<u32>, finally_address: Option<u32>) -> ScopeMarker {
    ScopeMarker {
        scope_count: 0,
        is_region_boundary: true,
        is_finally_boundary: false,
        catch_address,
        finally_address,
    }
}

/// Marker pushed below the region marker when the region has a `finally`.
pub open spec fn finally_marker(finally_address: u32) -> ScopeMarker {
    ScopeMarker {
        scope_count: 0,
        is_region_boundary: false,
        is_finally_boundary: true,
        catch_address: None,
        finally_address: Some(finally_address),
    }
}

/// How many region boundaries the stack holds; always equal to the number of
/// active handler records on a well-formed frame.
pub open spec fn region_marker_count(env: Seq<ScopeMarker>) -> nat
    decreases env.len(),
{
    if env.len() == 0 {
        0
    } else {
        region_marker_count(env.drop_last()) + if env.last().is_region_boundary {
            1nat
        } else {
            0nat
        }
    }
}

/// The stack left after popping markers from the top until and including the
/// first region boundary.
pub open spec fn unwind_keep(env: Seq<ScopeMarker>) -> Seq<ScopeMarker>
    decreases env.len(),
{
    if env.len() == 0 {
        env
    } else if env.last().is_region_boundary {
        env.drop_last()
    } else {
        unwind_keep(env.drop_last())
    }
}

/// The number of live scope records discarded by that unwind: the sum of the
/// popped markers' scope counts.
pub open spec fn unwind_scopes(env: Seq<ScopeMarker>) -> nat
    decreases env.len(),
{
    if env.len() == 0 {
        0
    } else if env.last().is_region_boundary {
        env.last().scope_count as nat
    } else {
        (env.last().scope_count + unwind_scopes(env.drop_last())) as nat
    }
}

/// The topmost region boundary: the marker the next unwind stops at.
pub open spec fn top_region_marker(env: Seq<ScopeMarker>) -> ScopeMarker
    decreases env.len(),
{
    if env.len() == 0 {
        arbitrary()
    } else if env.last().is_region_boundary {
        env.last()
    } else {
        top_region_marker(env.drop_last())
    }
}

/// Whether a finally boundary sits above every region boundary, so that the
/// normal end of a `finally` body has a matching marker to consume.
pub open spec fn finally_unwind_ok(env: Seq<ScopeMarker>) -> bool
    decreases env.len(),
{
    if env.len() == 0 {
        false
    } else if env.last().is_region_boundary {
        false
    } else if env.last().is_finally_boundary {
        true
    } else {
        finally_unwind_ok(env.drop_last())
    }
}

/// The stack left after popping markers from the top until and including the
/// first finally boundary.
pub open spec fn finally_unwind_keep(env: Seq<ScopeMarker>) -> Seq<ScopeMarker>
    decreases env.len(),
{
    if env.len() == 0 {
        env
    } else if env.last().is_region_boundary {
        env
    } else if env.last().is_finally_boundary {
        env.drop_last()
    } else {
        finally_unwind_keep(env.drop_last())
    }
}

/// The number of live scope records discarded by that unwind.
pub open spec fn finally_unwind_scopes(env: Seq<ScopeMarker>) -> nat
    decreases env.len(),
{
    if env.len() == 0 {
        0
    } else if env.last().is_region_boundary {
        0
    } else if env.last().is_finally_boundary {
        env.last().scope_count as nat
    } else {
        (env.last().scope_count + finally_unwind_scopes(env.drop_last())) as nat
    }
}

/// Live scope count after discarding `popped` scope records: a saturating
/// subtraction, so that an unwind running after an inner handler has already
/// truncated the scopes can never underflow.
pub open spec fn scopes_after(live: nat, popped: nat) -> nat {
    if popped >= live {
        0
    } else {
        (live - popped) as nat
    }
}

/// Pushing a marker adds one region boundary exactly when the marker is one.
pub proof fn lemma_region_count_push(env: Seq<ScopeMarker>, m: ScopeMarker)
    ensures
        region_marker_count(env.push(m)) == region_marker_count(env) + if m.is_region_boundary {
            1nat
        } else {
            0nat
        },
{
    assert(env.push(m).drop_last() =~= env);
    assert(env.push(m).last() == m);
}

/// Unwinding to a region boundary removes exactly one region boundary.
pub proof fn lemma_unwind_region_count(env: Seq<ScopeMarker>)
    requires
        region_marker_count(env) >= 1,
    ensures
        region_marker_count(unwind_keep(env)) == region_marker_count(env) - 1,
    decreases env.len(),
{
    if env.len() == 0 {
    } else if env.last().is_region_boundary {
    } else {
        lemma_unwind_region_count(env.drop_last());
    }
}

/// Consuming a finally boundary removes no region boundary: the handler
/// stack pairing is untouched by the end of a `finally` body.
pub proof fn lemma_finally_unwind_region_count(env: Seq<ScopeMarker>)
    requires
        finally_unwind_ok(env),
    ensures
        region_marker_count(finally_unwind_keep(env)) == region_marker_count(env),
    decreases env.len(),
{
    if env.len() == 0 {
    } else if env.last().is_region_boundary {
    } else if env.last().is_finally_boundary {
    } else {
        lemma_finally_unwind_region_count(env.drop_last());
    }
}

/// Two truncations compose into one over the summed discard count; in
/// particular an outer unwind after an inner truncation saturates instead of
/// underflowing.
pub proof fn lemma_scopes_after_compose(live: nat, a: nat, b: nat)
    ensures
        scopes_after(scopes_after(live, a), b) == scopes_after(live, a + b),
{
}

/// The stack left after `n` successive region unwinds.
pub open spec fn unwind_keep_n(env: Seq<ScopeMarker>, n: nat) -> Seq<ScopeMarker>
    decreases n,
{
    if n == 0 {
        env
    } else {
        unwind_keep_n(unwind_keep(env), (n - 1) as nat)
    }
}

/// The number of live scope records discarded by `n` successive unwinds.
pub open spec fn unwind_scopes_n(env: Seq<ScopeMarker>, n: nat) -> nat
    decreases n,
{
    if n == 0 {
        0
    } else {
        unwind_scopes(env) + unwind_scopes_n(unwind_keep(env), (n - 1) as nat)
    }
}

/// One more unwind after `n` unwinds is the same as `n + 1` unwinds.
pub proof fn lemma_unwind_n_step(env: Seq<ScopeMarker>, n: nat)
    ensures
        unwind_keep_n(env, n + 1) == unwind_keep(unwind_keep_n(env, n)),
        unwind_scopes_n(env, n + 1) == unwind_scopes_n(env, n) + unwind_scopes(unwind_keep_n(env, n)),
    decreases n,
{
    assert(unwind_keep_n(env, n + 1) == unwind_keep_n(unwind_keep(env), n));
    assert(unwind_scopes_n(env, n + 1) == unwind_scopes(env) + unwind_scopes_n(unwind_keep(env), n));
    if n == 0 {
        assert(unwind_keep_n(unwind_keep(env), 0) == unwind_keep(env));
        assert(unwind_keep_n(env, 0) == env);
        assert(unwind_scopes_n(unwind_keep(env), 0) == 0);
    } else {
        lemma_unwind_n_step(unwind_keep(env), (n - 1) as nat);
    }
}

/// `n` unwinds remove exactly `n` region boundaries.
pub proof fn lemma_unwind_n_region_count(env: Seq<ScopeMarker>, n: nat)
    requires
        region_marker_count(env) >= n,
    ensures
        region_marker_count(unwind_keep_n(env, n)) == region_marker_count(env) - n,
    decreases n,
{
    if n > 0 {
        lemma_unwind_region_count(env);
        lemma_unwind_n_region_count(unwind_keep(env), (n - 1) as nat);
    }
}


/// A discard count as the saturating accumulation loop represents it.
pub open spec fn capped(n: nat) -> nat {
    if n > usize::MAX as nat {
        usize::MAX as nat
    } else {
        n
    }
}

/// Saturating the accumulated count changes nothing about the truncation:
/// the live scope count fits in a machine word, so a capped count still
/// exceeds it whenever the true count does.
pub proof fn lemma_scopes_after_capped(live: nat, n: nat)
    requires
        live <= usize::MAX,
    ensures
        scopes_after(live, capped(n)) == scopes_after(live, n),
{
}


/// Total scope count recorded across a whole stack segment.
pub open spec fn marker_sum(env: Seq<ScopeMarker>) -> nat
    decreases env.len(),
{
    if env.len() == 0 {
        0
    } else {
        (marker_sum(env.drop_last()) + env.last().scope_count) as nat
    }
}

/// Pushing a marker adds exactly its scope count to the total.
pub proof fn lemma_marker_sum_push(env: Seq<ScopeMarker>, m: ScopeMarker)
    ensures
        marker_sum(env.push(m)) == marker_sum(env) + m.scope_count,
{
    assert(env.push(m).drop_last() =~= env);
    assert(env.push(m).last() == m);
}

/// An unwind splits the total scope count: what it discards plus what the
/// remaining markers still record.
pub proof fn lemma_unwind_sum_split(env: Seq<ScopeMarker>)
    requires
        region_marker_count(env) >= 1,
    ensures
        unwind_scopes(env) + marker_sum(unwind_keep(env)) == marker_sum(env),
    decreases env.len(),
{
    if env.len() == 0 {
    } else if env.last().is_region_boundary {
    } else {
        lemma_unwind_sum_split(env.drop_last());
    }
}

/// Pushing a marker that is no region boundary changes neither where `n`
/// unwinds stop (for `n` at least one) nor what they keep.
pub proof fn lemma_unwind_n_push_plain(env: Seq<ScopeMarker>, m: ScopeMarker, n: nat)
    requires
        !m.is_region_boundary,
        n >= 1,
    ensures
        unwind_keep_n(env.push(m), n) == unwind_keep_n(env, n),
{
    assert(env.push(m).last() == m);
    assert(env.push(m).drop_last() =~= env);
    assert(unwind_keep(env.push(m)) == unwind_keep(env));
    assert(unwind_keep_n(env.push(m), n) == unwind_keep_n(unwind_keep(env.push(m)), (n - 1) as nat));
    assert(unwind_keep_n(env, n) == unwind_keep_n(unwind_keep(env), (n - 1) as nat));
}

} // verus!
