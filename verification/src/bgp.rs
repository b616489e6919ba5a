//! BGP: the session state machine, best-path selection, and the per-tick
//! processing of sessions, imports, best paths and advertisements.

use vstd::prelude::*;

use crate::events::BgpFsmEvent;
use crate::models::{origin_rank, origin_rank_of, BgpOrigin, BgpRoute, BgpSessionState, RouteView};

verus! {

// ── Session state machine ──

/// One step of a session towards `Established`, which stays put: the
/// state machine's advance on an event that does not end the session.
pub open spec fn next_session_state(state: BgpSessionState) -> BgpSessionState {
    match state {
        BgpSessionState::Idle => BgpSessionState::Connect,
        BgpSessionState::Connect => BgpSessionState::OpenSent,
        BgpSessionState::OpenSent => BgpSessionState::OpenConfirm,
        BgpSessionState::OpenConfirm => BgpSessionState::Established,
        BgpSessionState::Established => BgpSessionState::Established,
    }
}

/// The session state after an event (RFC 4271): `Stop` and the expiry of
/// the hold timer end the session, back to `Idle`, from every state; any
/// other event advances it one step (see `next_session_state`).
pub open spec fn session_on_event(state: BgpSessionState, event: BgpFsmEvent) -> BgpSessionState {
    match event {
        BgpFsmEvent::Stop | BgpFsmEvent::HoldTimerExpired => BgpSessionState::Idle,
        _ => next_session_state(state),
    }
}

/// Advances the BGP session state machine of a neighbor on an event.
pub fn advance_bgp_fsm(state: &BgpSessionState, event: &BgpFsmEvent) -> (r: BgpSessionState)
    ensures
        r == session_on_event(*state, *event),
{
    match event {
        BgpFsmEvent::Stop | BgpFsmEvent::HoldTimerExpired => BgpSessionState::Idle,
        _ => match state {
            BgpSessionState::Idle => BgpSessionState::Connect,
            BgpSessionState::Connect => BgpSessionState::OpenSent,
            BgpSessionState::OpenSent => BgpSessionState::OpenConfirm,
            BgpSessionState::OpenConfirm => BgpSessionState::Established,
            BgpSessionState::Established => BgpSessionState::Established,
        },
    }
}

/// A stopped session, or one whose hold timer expired, is `Idle` whatever
/// state it was in; a `Start` from `Idle` begins connecting.
pub proof fn law_session_ends_on_stop(state: BgpSessionState)
    ensures
        session_on_event(state, BgpFsmEvent::Stop) == BgpSessionState::Idle,
        session_on_event(state, BgpFsmEvent::HoldTimerExpired) == BgpSessionState::Idle,
        session_on_event(BgpSessionState::Idle, BgpFsmEvent::Start) == BgpSessionState::Connect,
{
}

/// `n` steps of the session state machine.
pub open spec fn session_after(state: BgpSessionState, n: nat) -> BgpSessionState
    decreases n,
{
    if n == 0 {
        state
    } else {
        session_after(next_session_state(state), (n - 1) as nat)
    }
}

/// Every session is established after at most four steps, and an
/// established session stays established.
pub proof fn law_session_establishes(state: BgpSessionState, n: nat)
    requires
        n >= 4,
    ensures
        session_after(state, n) == BgpSessionState::Established,
        next_session_state(BgpSessionState::Established) == BgpSessionState::Established,
    decreases n,
{
    lemma_established_stays(n);
    reveal_with_fuel(session_after, 5);
    if n > 4 {
        law_session_establishes(next_session_state(state), (n - 1) as nat);
    }
}

proof fn lemma_established_stays(n: nat)
    ensures
        session_after(BgpSessionState::Established, n) == BgpSessionState::Established,
    decreases n,
{
    if n > 0 {
        lemma_established_stays((n - 1) as nat);
    }
}

// ── Best-path selection ──

/// The first AS of a path (the neighboring AS), if any.
pub open spec fn first_as(p: Seq<u32>) -> Option<u32> {
    if p.len() > 0 {
        Some(p[0])
    } else {
        None
    }
}

/// Whether route `a` is preferred over route `b`, by the first of these
/// that tells them apart: higher weight; higher LOCAL_PREF; locally
/// originated over learned; shorter AS path; lower origin (IGP < EGP <
/// Incomplete); lower MED, compared only when both paths start with the
/// same neighboring AS; lower router id of the advertising peer.
pub open spec fn preferred(a: RouteView, b: RouteView) -> bool {
    let x = a.attributes;
    let y = b.attributes;
    if x.weight != y.weight {
        x.weight > y.weight
    } else if x.local_pref != y.local_pref {
        x.local_pref > y.local_pref
    } else if (a.received_from is None) != (b.received_from is None) {
        a.received_from is None
    } else if x.as_path.len() != y.as_path.len() {
        x.as_path.len() < y.as_path.len()
    } else if x.origin != y.origin {
        origin_rank(x.origin) < origin_rank(y.origin)
    } else if first_as(x.as_path) == first_as(y.as_path) && x.med != y.med {
        x.med < y.med
    } else {
        match (a.received_from, b.received_from) {
            (Some(p), Some(q)) => p < q,
            _ => false,
        }
    }
}

/// The candidate that a scan over the first `n` candidates keeps: it
/// starts with the first and switches whenever a later candidate is
/// preferred over the one kept.
pub open spec fn best_index(c: Seq<RouteView>, n: int) -> int
    decreases n,
{
    if n <= 1 {
        0
    } else {
        let b = best_index(c, n - 1);
        if preferred(c[n - 1], c[b]) {
            n - 1
        } else {
            b
        }
    }
}

/// Whether route `a` is preferred over route `b` (see `preferred`).
pub fn is_preferred(a: &BgpRoute, b: &BgpRoute) -> (r: bool)
    ensures
        r == preferred(a@, b@),
{
    let aa = &a.attributes;
    let ba = &b.attributes;
    if aa.weight != ba.weight {
        return aa.weight > ba.weight;
    }
    if aa.local_pref != ba.local_pref {
        return aa.local_pref > ba.local_pref;
    }
    let a_local = a.received_from.is_none();
    let b_local = b.received_from.is_none();
    if a_local != b_local {
        return a_local;
    }
    if aa.as_path.len() != ba.as_path.len() {
        return aa.as_path.len() < ba.as_path.len();
    }
    if aa.origin != ba.origin {
        return origin_rank_of(aa.origin) < origin_rank_of(ba.origin);
    }
    let a_neighbor_as: Option<u32> = if aa.as_path.len() > 0 {
        Some(aa.as_path[0])
    } else {
        None
    };
    let b_neighbor_as: Option<u32> = if ba.as_path.len() > 0 {
        Some(ba.as_path[0])
    } else {
        None
    };
    if a_neighbor_as == b_neighbor_as && aa.med != ba.med {
        return aa.med < ba.med;
    }
    match (a.received_from, b.received_from) {
        (Some(a_from), Some(b_from)) => a_from < b_from,
        _ => false,
    }
}

/// Index of the best route among `candidates` (BGP best-path selection):
/// `None` when there are none; otherwise the candidate kept by a scan
/// that starts with the first and switches to each later candidate that
/// is preferred over the one kept.
pub fn select_best_path(candidates: &[BgpRoute]) -> (r: Option<usize>)
    ensures
        candidates@.len() == 0 ==> r is None,
        candidates@.len() > 0 ==> r == Some(
            best_index(candidates@.map_values(|x: BgpRoute| x@), candidates@.len() as int) as usize,
        ),
{
    let ghost cv = candidates@.map_values(|x: BgpRoute| x@);
    if candidates.len() == 0 {
        return None;
    }
    if candidates.len() == 1 {
        return Some(0);
    }
    let mut best_idx: usize = 0;
    let mut i: usize = 1;
    while i < candidates.len()
        invariant
            cv == candidates@.map_values(|x: BgpRoute| x@),
            1 <= i <= candidates@.len(),
            best_idx == best_index(cv, i as int),
            best_idx < i,
        decreases candidates@.len() - i,
    {
        if is_preferred(&candidates[i], &candidates[best_idx]) {
            best_idx = i;
        }
        i += 1;
    }
    Some(best_idx)
}

pub proof fn lemma_best_index_bounds(c: Seq<RouteView>, n: int)
    requires
        1 <= n,
    ensures
        0 <= best_index(c, n) < n,
    decreases n,
{
    if n > 1 {
        lemma_best_index_bounds(c, n - 1);
    }
}

/// No route is preferred over itself, and of two routes at most one is
/// preferred over the other: `is_preferred(a, a)` is false, and
/// `is_preferred(a, b)` and `is_preferred(b, a)` are never both true.
pub proof fn law_preference_asymmetric(a: RouteView, b: RouteView)
    ensures
        !preferred(a, a),
        preferred(a, b) ==> !preferred(b, a),
{
}

/// Origins rank IGP before EGP before Incomplete: of two routes alike in
/// weight, LOCAL_PREF, being locally originated or learned, and AS-path
/// length, but with different origins, the one with the IGP origin is
/// preferred over the other, and an EGP one over an Incomplete one.
pub proof fn law_origin_order(a: RouteView, b: RouteView)
    requires
        a.attributes.weight == b.attributes.weight,
        a.attributes.local_pref == b.attributes.local_pref,
        (a.received_from is None) == (b.received_from is None),
        a.attributes.as_path.len() == b.attributes.as_path.len(),
    ensures
        a.attributes.origin == BgpOrigin::Igp && b.attributes.origin != BgpOrigin::Igp ==> preferred(a, b),
        a.attributes.origin == BgpOrigin::Egp && b.attributes.origin == BgpOrigin::Incomplete ==> preferred(a, b),
        a.attributes.origin == BgpOrigin::Incomplete && b.attributes.origin != BgpOrigin::Incomplete ==> !preferred(
            a,
            b,
        ),
{
}

/// No candidate after the selected one is preferred over it.
pub proof fn law_selected_not_beaten_later(c: Seq<RouteView>, j: int)
    requires
        c.len() > 0,
        best_index(c, c.len() as int) < j < c.len(),
    ensures
        !preferred(c[j], c[best_index(c, c.len() as int)]),
{
    lemma_not_beaten_later(c, c.len() as int, j);
}

proof fn lemma_not_beaten_later(c: Seq<RouteView>, n: int, j: int)
    requires
        1 <= n <= c.len(),
        best_index(c, n) < j < n,
    ensures
        !preferred(c[j], c[best_index(c, n)]),
    decreases n,
{
    lemma_best_index_bounds(c, n);
    if n > 1 {
        let b = best_index(c, n - 1);
        lemma_best_index_bounds(c, n - 1);
        if preferred(c[n - 1], c[b]) {
        } else {
            if j < n - 1 {
                lemma_not_beaten_later(c, n - 1, j);
            }
        }
    }
}

/// A candidate that is preferred over every other candidate is the one
/// selected.
pub proof fn law_dominant_route_selected(c: Seq<RouteView>, w: int)
    requires
        0 <= w < c.len(),
        forall|j: int| 0 <= j < c.len() && j != w ==> preferred(c[w], #[trigger] c[j]),
    ensures
        best_index(c, c.len() as int) == w,
{
    lemma_dominant(c, c.len() as int, w);
}

proof fn lemma_dominant(c: Seq<RouteView>, n: int, w: int)
    requires
        0 <= w < n <= c.len(),
        forall|j: int| 0 <= j < c.len() && j != w ==> preferred(c[w], #[trigger] c[j]),
    ensures
        best_index(c, n) == w,
    decreases n,
{
    if n > 1 {
        if w < n - 1 {
            lemma_dominant(c, n - 1, w);
            assert(preferred(c[w], c[n - 1]));
            law_preference_asymmetric(c[w], c[n - 1]);
        } else {
            lemma_best_index_bounds(c, n - 1);
            let b = best_index(c, n - 1);
            assert(preferred(c[w], c[b]));
        }
    }
}

} // verus!
