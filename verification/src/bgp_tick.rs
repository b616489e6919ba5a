//! BGP across the whole network, tick by tick: sessions advance towards
//! `Established`, established neighbors' routes are imported through
//! their import policies, best paths are selected into the RIB, and best
//! routes are advertised to neighbors through their export policies.

use vstd::prelude::*;

use crate::bgp::{advance_bgp_fsm, best_index, lemma_best_index_bounds, first_as, next_session_state, select_best_path};
use crate::events::{BgpFsmEvent, EventQueue};
use crate::ipv4::{ipv4_string, ipv4_text};
use crate::models::{
    admin_distance_of, key_index, lemma_table_view_update, lookup, routes_view, table_view,
    AttrsView, BgpAttributes, BgpNeighbor, BgpProcess, BgpProcessView, BgpRoute,
    BgpSessionState, NeighborView, PolicyAction, PolicyView, RibEntry, RibView, RoutePolicy,
    RouteProtocol, RouteView, Router, RouterView, Topology, TopologyView,
};
use crate::ospf::{rebuild_fib, retain_not_protocol, with_rebuilt_fib, without_protocol};
use crate::policies::{apply_policy, apply_policy_spec};
use crate::table::{
    find_key, get_key, insert_key, insert_view, lemma_key_index, lemma_key_index_is,
};
use crate::topology::{
    all_positions, as_positions, lemma_all_positions_valid, lemma_as_positions_valid,
    lemma_same_shape_valid, lemma_sizes_fit, lemma_with_router, pos_valid, router_at,
    same_shape, with_router, RouterPos,
};

verus! {

broadcast use lemma_table_view_update;

// ── Sessions ──

/// A neighbor after one tick: a session not yet established advances one
/// step, and its uptime is set to the tick.
pub open spec fn advance_neighbor(n: NeighborView, tick: u64) -> NeighborView {
    if n.state != BgpSessionState::Established {
        NeighborView { state: next_session_state(n.state), uptime_ticks: tick, ..n }
    } else {
        n
    }
}

/// A router with each of its BGP sessions advanced.
pub open spec fn sessions_advanced(r: RouterView, tick: u64) -> RouterView {
    match r.bgp_process {
        Some(b) => RouterView {
            bgp_process: Some(
                BgpProcessView {
                    neighbors: b.neighbors.map_values(
                        |e: (Seq<char>, NeighborView)| (e.0, advance_neighbor(e.1, tick)),
                    ),
                    ..b
                },
            ),
            ..r
        },
        None => r,
    }
}

fn advance_sessions(r: &mut Router, tick: u64)
    ensures
        final(r)@ == sessions_advanced(old(r)@, tick),
{
    match &mut r.bgp_process {
        Some(b) => {
            let ghost b0 = b@;
            let ghost n0 = b0.neighbors;
            let mut k: usize = 0;
            while k < b.neighbors.len()
                invariant
                    n0 == b0.neighbors,
                    k <= n0.len(),
                    b@.neighbors.len() == n0.len(),
                    b@ == (BgpProcessView { neighbors: b@.neighbors, ..b0 }),
                    forall|j: int|
                        0 <= j < n0.len() ==> #[trigger] b@.neighbors[j] == (if j < k {
                            (n0[j].0, advance_neighbor(n0[j].1, tick))
                        } else {
                            n0[j]
                        }),
                decreases n0.len() - k,
            {
                let ghost before = b.neighbors@;
                proof {
                    assert(table_view(before)[k as int] == n0[k as int]);
                }
                if b.neighbors[k].1.state != BgpSessionState::Established {
                    let s = advance_bgp_fsm(&b.neighbors[k].1.state, &BgpFsmEvent::Start);
                    b.neighbors[k].1.state = s;
                    b.neighbors[k].1.uptime_ticks = tick;
                    proof {
                        let on = before[k as int];
                        assert(b.neighbors@[k as int].0 == on.0);
                        assert(b.neighbors@[k as int].1 == (BgpNeighbor { state: s, uptime_ticks: tick, ..on.1 }));
                        assert(b.neighbors@[k as int].1@ == advance_neighbor(on.1@, tick));
                        assert(table_view(b.neighbors@)[k as int] == (on.0@, advance_neighbor(on.1@, tick)));
                        assert(b@.neighbors[k as int] == (n0[k as int].0, advance_neighbor(
                            n0[k as int].1,
                            tick,
                        )));
                    }
                }
                proof {
                    assert forall|j: int| 0 <= j < n0.len() && j != k implies #[trigger] b@.neighbors[j] == (if j < k {
                            (n0[j].0, advance_neighbor(n0[j].1, tick))
                        } else {
                            n0[j]
                        }) by {
                        assert(b.neighbors@[j] == before[j]);
                    }
                }
                k += 1;
            }
            proof {
                assert(b@.neighbors =~= n0.map_values(
                    |e: (Seq<char>, NeighborView)| (e.0, advance_neighbor(e.1, tick)),
                ));
            }
        },
        None => {},
    }
}

// ── Imports ──

/// A route as a policy lets it through: rejected routes give `None`; a
/// name that is not a known policy lets the route through unchanged.
pub open spec fn through_policy(
    name: Option<Seq<char>>,
    policies: Seq<(Seq<char>, PolicyView)>,
    route: RouteView,
) -> Option<RouteView> {
    match name {
        Some(n) => match lookup(policies, n) {
            Some(p) => if apply_policy_spec(p, route).0 == PolicyAction::Reject {
                None
            } else {
                Some(apply_policy_spec(p, route).1)
            },
            None => Some(route),
        },
        None => Some(route),
    }
}

/// The routes imported from the first `k` entries of a neighbor's
/// Adj-RIB-In, through its import policy.
pub open spec fn imports_from(
    n: NeighborView,
    policies: Seq<(Seq<char>, PolicyView)>,
    k: int,
) -> Seq<(Seq<char>, RouteView)>
    decreases k,
{
    if k <= 0 {
        Seq::empty()
    } else {
        let prev = imports_from(n, policies, k - 1);
        match through_policy(n.import_policy, policies, n.adj_rib_in[k - 1].1) {
            Some(r) => prev.push((n.adj_rib_in[k - 1].0, r)),
            None => prev,
        }
    }
}

/// The routes imported from the first `k` neighbors: those of each
/// established session, in order.
pub open spec fn imports(
    ns: Seq<(Seq<char>, NeighborView)>,
    policies: Seq<(Seq<char>, PolicyView)>,
    k: int,
) -> Seq<(Seq<char>, RouteView)>
    decreases k,
{
    if k <= 0 {
        Seq::empty()
    } else {
        imports(ns, policies, k - 1) + if ns[k - 1].1.state == BgpSessionState::Established {
            imports_from(ns[k - 1].1, policies, ns[k - 1].1.adj_rib_in.len() as int)
        } else {
            Seq::empty()
        }
    }
}

/// A Loc-RIB with one more candidate for a prefix.
pub open spec fn add_candidate(
    rib: Seq<(Seq<char>, Seq<RouteView>)>,
    prefix: Seq<char>,
    route: RouteView,
) -> Seq<(Seq<char>, Seq<RouteView>)> {
    let i = key_index(rib, prefix);
    if i < rib.len() {
        rib.update(i, (prefix, rib[i].1.push(route)))
    } else {
        rib.push((prefix, seq![route]))
    }
}

pub open spec fn add_candidates(
    rib: Seq<(Seq<char>, Seq<RouteView>)>,
    rs: Seq<(Seq<char>, RouteView)>,
    k: int,
) -> Seq<(Seq<char>, Seq<RouteView>)>
    decreases k,
{
    if k <= 0 {
        rib
    } else {
        add_candidate(add_candidates(rib, rs, k - 1), rs[k - 1].0, rs[k - 1].1)
    }
}

/// A router with the routes of its established sessions added to its
/// Loc-RIB as candidates.
pub open spec fn routes_imported(r: RouterView, policies: Seq<(Seq<char>, PolicyView)>) -> RouterView {
    match r.bgp_process {
        Some(b) => {
            let rs = imports(b.neighbors, policies, b.neighbors.len() as int);
            RouterView {
                bgp_process: Some(
                    BgpProcessView { loc_rib: add_candidates(b.loc_rib, rs, rs.len() as int), ..b },
                ),
                ..r
            }
        },
        None => r,
    }
}

fn pass_policy(name: &Option<String>, policies: &Vec<(String, RoutePolicy)>, route: &mut BgpRoute) -> (keep: bool)
    ensures
        match through_policy(
            crate::models::opt_string_view(*name),
            table_view(policies@),
            old(route)@,
        ) {
            Some(x) => keep && final(route)@ == x,
            None => !keep,
        },
{
    match name {
        Some(n) => match get_key(policies, n) {
            Some(p) => {
                let a = apply_policy(p, route);
                match a {
                    PolicyAction::Reject => false,
                    _ => true,
                }
            },
            None => true,
        },
        None => true,
    }
}

fn import_candidates(b: &BgpProcess, policies: &Vec<(String, RoutePolicy)>) -> (r: Vec<
    (String, BgpRoute),
>)
    ensures
        table_view(r@) == imports(b@.neighbors, table_view(policies@), b@.neighbors.len() as int),
{
    let ghost pv = table_view(policies@);
    let ghost ns = b@.neighbors;
    let mut out: Vec<(String, BgpRoute)> = Vec::new();
    proof {
        assert(table_view(out@) =~= Seq::<(Seq<char>, RouteView)>::empty());
    }
    let mut k: usize = 0;
    while k < b.neighbors.len()
        invariant
            ns == b@.neighbors,
            pv == table_view(policies@),
            k <= ns.len(),
            table_view(out@) == imports(ns, pv, k as int),
        decreases ns.len() - k,
    {
        let n = &b.neighbors[k].1;
        proof {
            assert(ns[k as int].1 == n@);
        }
        let ghost base = out@;
        if n.state == BgpSessionState::Established {
            let mut j: usize = 0;
            while j < n.adj_rib_in.len()
                invariant
                    ns == b@.neighbors,
                    pv == table_view(policies@),
                    k < ns.len(),
                    ns[k as int].1 == n@,
                    j <= n@.adj_rib_in.len(),
                    table_view(base) == imports(ns, pv, k as int),
                    table_view(out@) == table_view(base) + imports_from(n@, pv, j as int),
                decreases n@.adj_rib_in.len() - j,
            {
                let mut route = n.adj_rib_in[j].1.clone();
                proof {
                    assert(n@.adj_rib_in[j as int] == (n.adj_rib_in@[j as int].0@, route@));
                }
                let keep = pass_policy(&n.import_policy, policies, &mut route);
                if keep {
                    let ghost before = out@;
                    out.push((n.adj_rib_in[j].0.clone(), route));
                    proof {
                        assert(table_view(out@) =~= table_view(before).push(
                            (n.adj_rib_in@[j as int].0@, route@),
                        ));
                    }
                }
                j += 1;
            }
        }
        proof {
            assert(table_view(out@) =~= imports(ns, pv, k + 1));
        }
        k += 1;
    }
    out
}

/// The view of a Loc-RIB.
pub open spec fn loc_rib_view(s: Seq<(String, Vec<BgpRoute>)>) -> Seq<(Seq<char>, Seq<RouteView>)> {
    s.map_values(|e: (String, Vec<BgpRoute>)| (e.0@, routes_view(e.1@)))
}

fn find_prefix(rib: &Vec<(String, Vec<BgpRoute>)>, k: &String) -> (r: Option<usize>)
    ensures
        match r {
            Some(i) => i < rib@.len() && i == key_index(loc_rib_view(rib@), k@),
            None => key_index(loc_rib_view(rib@), k@) == rib@.len(),
        },
{
    let ghost v = loc_rib_view(rib@);
    let mut i: usize = 0;
    while i < rib.len()
        invariant
            v == loc_rib_view(rib@),
            i <= rib@.len(),
            forall|j: int| 0 <= j < i ==> (#[trigger] v[j]).0 != k@,
        decreases rib@.len() - i,
    {
        if rib[i].0 == *k {
            proof {
                lemma_key_index_is(v, k@, i as int);
            }
            return Some(i);
        }
        i += 1;
    }
    proof {
        lemma_key_index_is(v, k@, i as int);
    }
    None
}

fn add_candidate_exec(rib: &mut Vec<(String, Vec<BgpRoute>)>, prefix: String, route: BgpRoute)
    ensures
        loc_rib_view(final(rib)@) == add_candidate(loc_rib_view(old(rib)@), prefix@, route@),
{
    let ghost v0 = loc_rib_view(rib@);
    let ghost pv = prefix@;
    let ghost rv = route@;
    proof {
        lemma_key_index(v0, pv);
    }
    match find_prefix(rib, &prefix) {
        Some(i) => {
            let ghost before = rib@;
            rib[i].1.push(route);
            proof {
                assert(routes_view(rib@[i as int].1@) =~= routes_view(before[i as int].1@).push(rv));
                assert(loc_rib_view(rib@) =~= v0.update(i as int, (pv, v0[i as int].1.push(rv))));
            }
        },
        None => {
            let ghost before = rib@;
            let mut rs: Vec<BgpRoute> = Vec::new();
            rs.push(route);
            rib.push((prefix, rs));
            proof {
                assert(routes_view(rib@[before.len() as int].1@) =~= seq![rv]);
                assert(loc_rib_view(rib@) =~= v0.push((pv, seq![rv])));
            }
        },
    }
}

fn import_routes(r: &mut Router, policies: &Vec<(String, RoutePolicy)>)
    ensures
        final(r)@ == routes_imported(old(r)@, table_view(policies@)),
{
    match &mut r.bgp_process {
        Some(b) => {
            let rs = import_candidates(b, policies);
            let ghost b0 = b@;
            let ghost rv = table_view(rs@);
            let mut k: usize = 0;
            while k < rs.len()
                invariant
                    rv == table_view(rs@),
                    k <= rs@.len(),
                    b@ == (BgpProcessView { loc_rib: b@.loc_rib, ..b0 }),
                    b@.loc_rib == add_candidates(b0.loc_rib, rv, k as int),
                    b@.loc_rib == loc_rib_view(b.loc_rib@),
                decreases rs@.len() - k,
            {
                add_candidate_exec(&mut b.loc_rib, rs[k].0.clone(), rs[k].1.clone());
                k += 1;
            }
        },
        None => {},
    }
}


// ── Best paths ──

/// The selected candidate for a prefix, marked best.
pub open spec fn best_of(c: Seq<RouteView>) -> Option<RouteView> {
    if c.len() == 0 {
        None
    } else {
        Some(RouteView { is_best: true, ..c[best_index(c, c.len() as int)] })
    }
}

/// The best route of each of the first `k` Loc-RIB prefixes.
pub open spec fn bests_of(rib: Seq<(Seq<char>, Seq<RouteView>)>, k: int) -> Seq<
    (Seq<char>, RouteView),
>
    decreases k,
{
    if k <= 0 {
        Seq::empty()
    } else {
        let prev = bests_of(rib, k - 1);
        match best_of(rib[k - 1].1) {
            Some(b) => insert_view(prev, rib[k - 1].0, b),
            None => prev,
        }
    }
}

/// eBGP when the path's first AS is not the local one; iBGP otherwise.
pub open spec fn bgp_protocol(route: RouteView, local_asn: u32) -> RouteProtocol {
    match first_as(route.attributes.as_path) {
        Some(a) => if a != local_asn {
            RouteProtocol::BgpExternal
        } else {
            RouteProtocol::BgpInternal
        },
        None => RouteProtocol::BgpInternal,
    }
}

/// The RIB entry of a best route.
pub open spec fn bgp_entry(prefix: Seq<char>, route: RouteView, local_asn: u32) -> RibView {
    let p = bgp_protocol(route, local_asn);
    RibView {
        prefix,
        next_hop: route.attributes.next_hop,
        protocol: p,
        metric: route.attributes.med,
        admin_distance: admin_distance_of(p),
        bgp_attributes: Some(route.attributes),
    }
}

/// Offers a best route's entry to the RIB: it goes in when the prefix has
/// no entry or one with a higher administrative distance.
pub open spec fn offer_bgp(rib: Seq<(Seq<char>, RibView)>, e: RibView) -> Seq<(Seq<char>, RibView)> {
    match lookup(rib, e.prefix) {
        Some(x) => if e.admin_distance < x.admin_distance {
            insert_view(rib, e.prefix, e)
        } else {
            rib
        },
        None => insert_view(rib, e.prefix, e),
    }
}

pub open spec fn offer_bests(
    rib: Seq<(Seq<char>, RibView)>,
    bests: Seq<(Seq<char>, RouteView)>,
    local_asn: u32,
    k: int,
) -> Seq<(Seq<char>, RibView)>
    decreases k,
{
    if k <= 0 {
        rib
    } else {
        offer_bgp(offer_bests(rib, bests, local_asn, k - 1), bgp_entry(bests[k - 1].0, bests[k - 1].1, local_asn))
    }
}

/// A router after best-path selection: the best route of each prefix is
/// recorded; the RIB loses its BGP routes and is offered each best route;
/// the FIB is rebuilt.
pub open spec fn best_paths_selected(r: RouterView) -> RouterView {
    match r.bgp_process {
        Some(b) => {
            let bests = bests_of(b.loc_rib, b.loc_rib.len() as int);
            let r1 = without_protocol(r.rib, RouteProtocol::BgpExternal, r.rib.len() as int);
            let r2 = without_protocol(r1, RouteProtocol::BgpInternal, r1.len() as int);
            with_rebuilt_fib(
                RouterView {
                    rib: offer_bests(r2, bests, b.local_asn, bests.len() as int),
                    bgp_process: Some(BgpProcessView { best_routes: bests, ..b }),
                    ..r
                },
            )
        },
        None => r,
    }
}

fn best_routes_of(b: &BgpProcess) -> (r: Vec<(String, BgpRoute)>)
    ensures
        table_view(r@) == bests_of(b@.loc_rib, b@.loc_rib.len() as int),
{
    let ghost lr = b@.loc_rib;
    let mut out: Vec<(String, BgpRoute)> = Vec::new();
    proof {
        assert(table_view(out@) =~= Seq::<(Seq<char>, RouteView)>::empty());
    }
    let mut k: usize = 0;
    while k < b.loc_rib.len()
        invariant
            lr == b@.loc_rib,
            lr.len() == b.loc_rib@.len(),
            k <= lr.len(),
            table_view(out@) == bests_of(lr, k as int),
        decreases lr.len() - k,
    {
        let cands = &b.loc_rib[k].1;
        proof {
            assert(lr[k as int] == (b.loc_rib@[k as int].0@, routes_view(cands@)));
        }
        proof {
            assert(cands@.map_values(|x: BgpRoute| x@) =~= routes_view(cands@));
            if cands@.len() > 0 {
                lemma_best_index_bounds(routes_view(cands@), cands@.len() as int);
            }
        }
        let sl = cands.as_slice();
        let nc = cands.len();
        proof {
            assert(nc == cands@.len());
            assert(sl@ == cands@);
            assert(sl@.map_values(|x: BgpRoute| x@) =~= routes_view(cands@));
        }
        match select_best_path(sl) {
            Some(idx) => {
                let mut best = cands[idx].clone();
                best.is_best = true;
                proof {
                    let cv = routes_view(cands@);
                    let bi = best_index(cv, cv.len() as int);
                    assert(cv.len() == sl@.len());
                    assert(0 <= bi < cv.len());
                    assert(idx as int == bi);
                    assert(cv[idx as int] == cands@[idx as int]@);
                    assert(best@ == best_of(routes_view(cands@))->0);
                }
                insert_key(&mut out, b.loc_rib[k].0.clone(), best);
            },
            None => {},
        }
        k += 1;
    }
    out
}

fn bgp_protocol_of(route: &BgpRoute, local_asn: u32) -> (p: RouteProtocol)
    ensures
        p == bgp_protocol(route@, local_asn),
{
    if route.attributes.as_path.len() > 0 && route.attributes.as_path[0] != local_asn {
        RouteProtocol::BgpExternal
    } else {
        RouteProtocol::BgpInternal
    }
}

fn select_best_paths(r: &mut Router)
    ensures
        final(r)@ == best_paths_selected(old(r)@),
{
    let ghost r0 = r@;
    let (bests, local_asn) = match &r.bgp_process {
        Some(b) => (best_routes_of(b), b.local_asn),
        None => {
            return ;
        },
    };
    let ghost bv = table_view(bests@);
    retain_not_protocol(&mut r.rib, RouteProtocol::BgpExternal);
    retain_not_protocol(&mut r.rib, RouteProtocol::BgpInternal);
    let ghost base = table_view(r.rib@);
    let mut k: usize = 0;
    while k < bests.len()
        invariant
            bv == table_view(bests@),
            k <= bests@.len(),
            r@ == (RouterView { rib: r@.rib, ..r0 }),
            r@.rib == offer_bests(base, bv, local_asn, k as int),
            r0.bgp_process matches Some(b) && b.local_asn == local_asn,
        decreases bests@.len() - k,
    {
        let prefix = &bests[k].0;
        let route = &bests[k].1;
        let protocol = bgp_protocol_of(route, local_asn);
        let entry = RibEntry {
            prefix: prefix.clone(),
            next_hop: route.attributes.next_hop,
            protocol,
            metric: route.attributes.med,
            admin_distance: protocol.admin_distance(),
            bgp_attributes: Some(route.attributes.clone()),
        };
        let should_install = match get_key(&r.rib, prefix) {
            Some(existing) => entry.admin_distance < existing.admin_distance,
            None => true,
        };
        if should_install {
            insert_key(&mut r.rib, prefix.clone(), entry);
        }
        k += 1;
    }
    match &mut r.bgp_process {
        Some(b) => {
            b.best_routes = bests;
        },
        None => {},
    }
    rebuild_fib(r);
}


// ── Advertisements ──

/// The route a router advertises to a neighbor for one of its best
/// routes: towards an eBGP neighbor its AS is prepended to the path and
/// the next hop becomes its router id; none when the route would go back
/// to the peer it came from, or the export policy rejects it.
pub open spec fn export_route(
    r: RouterView,
    local_asn: u32,
    n: NeighborView,
    policies: Seq<(Seq<char>, PolicyView)>,
    route: RouteView,
) -> Option<RouteView> {
    let adv = if n.is_ebgp {
        RouteView {
            attributes: AttrsView {
                as_path: seq![local_asn] + route.attributes.as_path,
                next_hop: r.router_id_ip,
                ..route.attributes
            },
            ..route
        }
    } else {
        route
    };
    if adv.received_from == Some(n.neighbor_ip) {
        None
    } else {
        through_policy(n.export_policy, policies, adv)
    }
}

/// Index in `ps`, from `i` on, of the first router whose id is `ip`.
pub open spec fn router_with_ip(t: TopologyView, ps: Seq<RouterPos>, ip: u32, i: int) -> int
    decreases ps.len() - i,
{
    if i < 0 || i >= ps.len() {
        ps.len() as int
    } else if router_at(t, ps[i]).router_id_ip == ip {
        i
    } else {
        router_with_ip(t, ps, ip, i + 1)
    }
}

/// An advertisement: the receiving router's position, the key of the
/// sender among its neighbors, the prefix and the route.
pub type AdvertView = (RouterPos, Seq<char>, Seq<char>, RouteView);

/// The advertisements of one best route to the first `k` neighbors: one
/// per established neighbor that is an AS router and to which the route
/// is exported, marked as received from the advertising router.
pub open spec fn adverts_to(
    t: TopologyView,
    ps: Seq<RouterPos>,
    r: RouterView,
    b: BgpProcessView,
    e: (Seq<char>, RouteView),
    k: int,
) -> Seq<AdvertView>
    decreases k,
{
    if k <= 0 {
        Seq::empty()
    } else {
        let prev = adverts_to(t, ps, r, b, e, k - 1);
        let n = b.neighbors[k - 1].1;
        if n.state == BgpSessionState::Established {
            match export_route(r, b.local_asn, n, t.policies, e.1) {
                Some(adv) => {
                    let ti = router_with_ip(t, ps, n.neighbor_ip, 0);
                    if ti < ps.len() {
                        prev.push(
                            (
                                ps[ti],
                                ipv4_text(r.router_id_ip),
                                e.0,
                                RouteView { received_from: Some(r.router_id_ip), ..adv },
                            ),
                        )
                    } else {
                        prev
                    }
                },
                None => prev,
            }
        } else {
            prev
        }
    }
}

/// The advertisements of a router's first `k` best routes.
pub open spec fn adverts_of(
    t: TopologyView,
    ps: Seq<RouterPos>,
    r: RouterView,
    b: BgpProcessView,
    k: int,
) -> Seq<AdvertView>
    decreases k,
{
    if k <= 0 {
        Seq::empty()
    } else {
        adverts_of(t, ps, r, b, k - 1) + adverts_to(
            t,
            ps,
            r,
            b,
            b.best_routes[k - 1],
            b.neighbors.len() as int,
        )
    }
}

/// The advertisements of the routers at the first `k` positions.
pub open spec fn adverts(t: TopologyView, ps: Seq<RouterPos>, k: int) -> Seq<AdvertView>
    decreases k,
{
    if k <= 0 {
        Seq::empty()
    } else {
        let r = router_at(t, ps[k - 1]);
        adverts(t, ps, k - 1) + match r.bgp_process {
            Some(b) => adverts_of(t, ps, r, b, b.best_routes.len() as int),
            None => Seq::empty(),
        }
    }
}

/// A router receiving an advertisement: the route goes into the
/// Adj-RIB-In of the neighbor keyed `key`, when it has one.
pub open spec fn deliver(r: RouterView, key: Seq<char>, prefix: Seq<char>, route: RouteView) -> RouterView {
    match r.bgp_process {
        Some(b) => {
            let i = key_index(b.neighbors, key);
            if i < b.neighbors.len() {
                let n = b.neighbors[i].1;
                RouterView {
                    bgp_process: Some(
                        BgpProcessView {
                            neighbors: b.neighbors.update(
                                i,
                                (
                                    b.neighbors[i].0,
                                    NeighborView {
                                        adj_rib_in: insert_view(n.adj_rib_in, prefix, route),
                                        ..n
                                    },
                                ),
                            ),
                            ..b
                        },
                    ),
                    ..r
                }
            } else {
                r
            }
        },
        None => r,
    }
}

pub open spec fn deliveries(t: TopologyView, advs: Seq<AdvertView>, k: int) -> TopologyView
    decreases k,
{
    if k <= 0 {
        t
    } else {
        let prev = deliveries(t, advs, k - 1);
        let a = advs[k - 1];
        with_router(prev, a.0, deliver(router_at(prev, a.0), a.1, a.2, a.3))
    }
}

/// What advertising does: the advertisements of every AS router, made
/// from the topology as it stands, are then delivered in order.
pub open spec fn advertise_spec(t: TopologyView) -> TopologyView {
    let ps = as_positions(t.autonomous_systems, t.autonomous_systems.len() as int);
    let a = adverts(t, ps, ps.len() as int);
    deliveries(t, a, a.len() as int)
}

pub open spec fn adverts_view(s: Seq<(RouterPos, String, String, BgpRoute)>) -> Seq<AdvertView> {
    s.map_values(|a: (RouterPos, String, String, BgpRoute)| (a.0, a.1@, a.2@, a.3@))
}

fn find_router_by_ip(topology: &Topology, ps: &Vec<RouterPos>, ip: u32) -> (r: Option<RouterPos>)
    requires
        forall|j: int| 0 <= j < ps@.len() ==> pos_valid(topology@, #[trigger] ps@[j]),
    ensures
        ({
            let i = router_with_ip(topology@, ps@, ip, 0);
            match r {
                Some(p) => 0 <= i < ps@.len() && p == ps@[i],
                None => i == ps@.len(),
            }
        }),
{
    let mut i: usize = 0;
    while i < ps.len()
        invariant
            forall|j: int| 0 <= j < ps@.len() ==> pos_valid(topology@, #[trigger] ps@[j]),
            i <= ps@.len(),
            router_with_ip(topology@, ps@, ip, i as int) == router_with_ip(topology@, ps@, ip, 0),
        decreases ps@.len() - i,
    {
        if topology.router_ref(ps[i]).router_id_ip == ip {
            return Some(ps[i]);
        }
        i += 1;
    }
    None
}

fn export_route_exec(
    r: &Router,
    local_asn: u32,
    n: &BgpNeighbor,
    policies: &Vec<(String, RoutePolicy)>,
    route: &BgpRoute,
) -> (res: Option<BgpRoute>)
    ensures
        match export_route(r@, local_asn, n@, table_view(policies@), route@) {
            Some(x) => res matches Some(y) && y@ == x,
            None => res is None,
        },
{
    let mut adv = route.clone();
    if n.is_ebgp {
        let ghost p0 = adv.attributes.as_path@;
        adv.attributes.as_path.insert(0, local_asn);
        adv.attributes.next_hop = r.router_id_ip;
        proof {
            assert(adv.attributes.as_path@ =~= seq![local_asn] + p0);
        }
    }
    let back = match adv.received_from {
        Some(x) => x == n.neighbor_ip,
        None => false,
    };
    if back {
        return None;
    }
    if pass_policy(&n.export_policy, policies, &mut adv) {
        Some(adv)
    } else {
        None
    }
}

fn push_advert(out: &mut Vec<(RouterPos, String, String, BgpRoute)>, a: (RouterPos, String, String, BgpRoute))
    ensures
        adverts_view(final(out)@) == adverts_view(old(out)@).push((a.0, a.1@, a.2@, a.3@)),
{
    let ghost before = out@;
    out.push(a);
    proof {
        assert(adverts_view(out@) =~= adverts_view(before).push((a.0, a.1@, a.2@, a.3@)));
    }
}

fn collect_adverts(topology: &Topology, ps: &Vec<RouterPos>) -> (r: Vec<(RouterPos, String, String, BgpRoute)>)
    requires
        forall|j: int| 0 <= j < ps@.len() ==> pos_valid(topology@, #[trigger] ps@[j]),
    ensures
        adverts_view(r@) == adverts(topology@, ps@, ps@.len() as int),
{
    let ghost t = topology@;
    let mut out: Vec<(RouterPos, String, String, BgpRoute)> = Vec::new();
    proof {
        assert(adverts_view(out@) =~= Seq::<AdvertView>::empty());
    }
    let mut k: usize = 0;
    while k < ps.len()
        invariant
            t == topology@,
            forall|j: int| 0 <= j < ps@.len() ==> pos_valid(t, #[trigger] ps@[j]),
            k <= ps@.len(),
            adverts_view(out@) == adverts(t, ps@, k as int),
        decreases ps@.len() - k,
    {
        let r = topology.router_ref(ps[k]);
        let ghost base = adverts_view(out@);
        match &r.bgp_process {
            Some(b) => {
                let ghost bv = b@;
                let mut i: usize = 0;
                while i < b.best_routes.len()
                    invariant
                        t == topology@,
                        forall|j: int| 0 <= j < ps@.len() ==> pos_valid(t, #[trigger] ps@[j]),
                        k < ps@.len(),
                        r@ == router_at(t, ps@[k as int]),
                        r.bgp_process == Some(*b),
                        bv == b@,
                        i <= b.best_routes@.len(),
                        adverts_view(out@) == base + adverts_of(t, ps@, r@, bv, i as int),
                    decreases b.best_routes@.len() - i,
                {
                    let prefix = &b.best_routes[i].0;
                    let best = &b.best_routes[i].1;
                    proof {
                        assert(bv.best_routes[i as int] == (prefix@, best@));
                    }
                    let ghost mid = adverts_view(out@);
                    let mut j: usize = 0;
                    while j < b.neighbors.len()
                        invariant
                            t == topology@,
                            forall|j: int| 0 <= j < ps@.len() ==> pos_valid(t, #[trigger] ps@[j]),
                            r@ == router_at(t, ps@[k as int]),
                            bv == b@,
                            i < bv.best_routes.len(),
                            bv.best_routes[i as int] == (prefix@, best@),
                            j <= b.neighbors@.len(),
                            adverts_view(out@) == mid + adverts_to(
                                t,
                                ps@,
                                r@,
                                bv,
                                (prefix@, best@),
                                j as int,
                            ),
                        decreases b.neighbors@.len() - j,
                    {
                        let n = &b.neighbors[j].1;
                        proof {
                            assert(bv.neighbors[j as int].1 == n@);
                        }
                        if n.state == BgpSessionState::Established {
                            match export_route_exec(r, b.local_asn, n, &topology.policies, best) {
                                Some(adv) => {
                                    match find_router_by_ip(topology, ps, n.neighbor_ip) {
                                        Some(target) => {
                                            let mut adv = adv;
                                            adv.received_from = Some(r.router_id_ip);
                                            push_advert(
                                                &mut out,
                                                (target, ipv4_string(r.router_id_ip), prefix.clone(), adv),
                                            );
                                        },
                                        None => {},
                                    }
                                },
                                None => {},
                            }
                        }
                        proof {
                            assert(adverts_view(out@) =~= mid + adverts_to(
                                t,
                                ps@,
                                r@,
                                bv,
                                (prefix@, best@),
                                j + 1,
                            ));
                        }
                        j += 1;
                    }
                    proof {
                        assert(adverts_view(out@) =~= base + adverts_of(t, ps@, r@, bv, i + 1));
                    }
                    i += 1;
                }
            },
            None => {},
        }
        proof {
            assert(adverts_view(out@) =~= adverts(t, ps@, k + 1));
        }
        k += 1;
    }
    out
}

fn deliver_exec(r: &mut Router, key: &String, prefix: String, route: BgpRoute)
    ensures
        final(r)@ == deliver(old(r)@, key@, prefix@, route@),
{
    match &mut r.bgp_process {
        Some(b) => {
            proof {
                lemma_key_index(b@.neighbors, key@);
            }
            match find_key(&b.neighbors, key) {
                Some(i) => {
                    insert_key(&mut b.neighbors[i].1.adj_rib_in, prefix, route);
                },
                None => {},
            }
        },
        None => {},
    }
}

/// Sends each AS router's best routes to its established neighbors that
/// are AS routers, through their export policies, into the receivers'
/// Adj-RIB-In.
fn advertise_routes(topology: &mut Topology)
    ensures
        final(topology)@ == advertise_spec(old(topology)@),
{
    let ghost t0 = topology@;
    let ps = crate::ospf_tick::as_router_positions_exec(topology);
    let advs = collect_adverts(topology, &ps);
    let ghost av = adverts_view(advs@);
    proof {
        lemma_sizes_fit(topology);
        lemma_as_positions_valid(t0, t0.autonomous_systems.len() as int);
    }
    let mut k: usize = 0;
    while k < advs.len()
        invariant
            av == adverts_view(advs@),
            av == adverts(t0, ps@, ps@.len() as int),
            ps@ == as_positions(t0.autonomous_systems, t0.autonomous_systems.len() as int),
            forall|j: int| 0 <= j < ps@.len() ==> pos_valid(t0, #[trigger] ps@[j]),
            k <= advs@.len(),
            same_shape(t0, topology@),
            topology@ == deliveries(t0, av, k as int),
        decreases advs@.len() - k,
    {
        let a = &advs[k];
        proof {
            lemma_adverts_valid(t0, ps@, ps@.len() as int);
            assert(av[k as int] == (a.0, a.1@, a.2@, a.3@));
            lemma_same_shape_valid(t0, topology@, a.0);
        }
        let ghost tp = topology@;
        let rm = topology.router_mut(a.0);
        deliver_exec(rm, &a.1, a.2.clone(), a.3.clone());
        proof {
            lemma_with_router(tp, a.0, router_at(topology@, a.0));
        }
        k += 1;
    }
}

proof fn lemma_adverts_valid(t: TopologyView, ps: Seq<RouterPos>, k: int)
    requires
        0 <= k <= ps.len(),
        forall|j: int| 0 <= j < ps.len() ==> pos_valid(t, #[trigger] ps[j]),
    ensures
        forall|m: int|
            0 <= m < adverts(t, ps, k).len() ==> pos_valid(t, (#[trigger] adverts(t, ps, k)[m]).0),
    decreases k,
{
    if k > 0 {
        lemma_adverts_valid(t, ps, k - 1);
        let r = router_at(t, ps[k - 1]);
        match r.bgp_process {
            Some(b) => {
                lemma_adverts_of_valid(t, ps, r, b, b.best_routes.len() as int);
                let prev = adverts(t, ps, k - 1);
                let more = adverts_of(t, ps, r, b, b.best_routes.len() as int);
                assert forall|m: int| 0 <= m < adverts(t, ps, k).len() implies pos_valid(
                    t,
                    (#[trigger] adverts(t, ps, k)[m]).0,
                ) by {
                    if m < prev.len() {
                        assert(adverts(t, ps, k)[m] == prev[m]);
                    } else {
                        assert(adverts(t, ps, k)[m] == more[m - prev.len()]);
                    }
                }
            },
            None => {
                assert(adverts(t, ps, k) =~= adverts(t, ps, k - 1));
            },
        }
    }
}

proof fn lemma_adverts_of_valid(t: TopologyView, ps: Seq<RouterPos>, r: RouterView, b: BgpProcessView, k: int)
    requires
        forall|j: int| 0 <= j < ps.len() ==> pos_valid(t, #[trigger] ps[j]),
    ensures
        forall|m: int|
            0 <= m < adverts_of(t, ps, r, b, k).len() ==> pos_valid(
                t,
                (#[trigger] adverts_of(t, ps, r, b, k)[m]).0,
            ),
    decreases k,
{
    if k > 0 {
        lemma_adverts_of_valid(t, ps, r, b, k - 1);
        let e = b.best_routes[k - 1];
        lemma_adverts_to_valid(t, ps, r, b, e, b.neighbors.len() as int);
        let prev = adverts_of(t, ps, r, b, k - 1);
        let more = adverts_to(t, ps, r, b, e, b.neighbors.len() as int);
        assert forall|m: int| 0 <= m < adverts_of(t, ps, r, b, k).len() implies pos_valid(
            t,
            (#[trigger] adverts_of(t, ps, r, b, k)[m]).0,
        ) by {
            if m < prev.len() {
                assert(adverts_of(t, ps, r, b, k)[m] == prev[m]);
            } else {
                assert(adverts_of(t, ps, r, b, k)[m] == more[m - prev.len()]);
            }
        }
    }
}

proof fn lemma_router_with_ip(t: TopologyView, ps: Seq<RouterPos>, ip: u32, i: int)
    requires
        0 <= i <= ps.len(),
    ensures
        i <= router_with_ip(t, ps, ip, i) <= ps.len(),
    decreases ps.len() - i,
{
    if i < ps.len() && router_at(t, ps[i]).router_id_ip != ip {
        lemma_router_with_ip(t, ps, ip, i + 1);
    }
}

proof fn lemma_adverts_to_valid(
    t: TopologyView,
    ps: Seq<RouterPos>,
    r: RouterView,
    b: BgpProcessView,
    e: (Seq<char>, RouteView),
    k: int,
)
    requires
        forall|j: int| 0 <= j < ps.len() ==> pos_valid(t, #[trigger] ps[j]),
    ensures
        forall|m: int|
            0 <= m < adverts_to(t, ps, r, b, e, k).len() ==> pos_valid(
                t,
                (#[trigger] adverts_to(t, ps, r, b, e, k)[m]).0,
            ),
    decreases k,
{
    if k > 0 {
        lemma_adverts_to_valid(t, ps, r, b, e, k - 1);
        let n = b.neighbors[k - 1].1;
        lemma_router_with_ip(t, ps, n.neighbor_ip, 0);
        let ti = router_with_ip(t, ps, n.neighbor_ip, 0);
        if ti < ps.len() {
            assert(pos_valid(t, ps[ti]));
        }
        let prev = adverts_to(t, ps, r, b, e, k - 1);
        assert forall|m: int| 0 <= m < adverts_to(t, ps, r, b, e, k).len() implies pos_valid(
            t,
            (#[trigger] adverts_to(t, ps, r, b, e, k)[m]).0,
        ) by {
            if m < prev.len() {
                assert(adverts_to(t, ps, r, b, e, k)[m] == prev[m]);
            }
        }
    }
}


// ── The tick ──

/// The phases of a BGP tick that change each router on its own.
#[derive(Clone, Copy)]
pub enum BgpPhase {
    Sessions { tick: u64 },
    Imports,
    BestPaths,
}

/// What a phase does to one router, given the network's policies.
pub open spec fn phase_step(ph: BgpPhase, r: RouterView, policies: Seq<(Seq<char>, PolicyView)>) -> RouterView {
    match ph {
        BgpPhase::Sessions { tick } => sessions_advanced(r, tick),
        BgpPhase::Imports => routes_imported(r, policies),
        BgpPhase::BestPaths => best_paths_selected(r),
    }
}

/// A phase applied to the routers at the first `k` positions, in turn.
pub open spec fn phase_steps(t: TopologyView, ph: BgpPhase, ps: Seq<RouterPos>, k: int) -> TopologyView
    decreases k,
{
    if k <= 0 {
        t
    } else {
        let prev = phase_steps(t, ph, ps, k - 1);
        with_router(prev, ps[k - 1], phase_step(ph, router_at(prev, ps[k - 1]), t.policies))
    }
}

/// A phase applied to every router.
pub open spec fn phase_spec(t: TopologyView, ph: BgpPhase) -> TopologyView {
    phase_steps(t, ph, all_positions(t), all_positions(t).len() as int)
}

/// What a tick does: sessions advance, routes are imported, best paths
/// selected, then best routes advertised.
pub open spec fn tick_bgp_spec(t: TopologyView, tick: u64) -> TopologyView {
    let t1 = phase_spec(t, BgpPhase::Sessions { tick });
    let t2 = phase_spec(t1, BgpPhase::Imports);
    let t3 = phase_spec(t2, BgpPhase::BestPaths);
    advertise_spec(t3)
}

fn apply_phase(r: &mut Router, ph: BgpPhase, policies: &Vec<(String, RoutePolicy)>)
    ensures
        final(r)@ == phase_step(ph, old(r)@, table_view(policies@)),
{
    match ph {
        BgpPhase::Sessions { tick } => advance_sessions(r, tick),
        BgpPhase::Imports => import_routes(r, policies),
        BgpPhase::BestPaths => select_best_paths(r),
    }
}

fn run_phase(topology: &mut Topology, ph: BgpPhase)
    ensures
        final(topology)@ == phase_spec(old(topology)@, ph),
{
    let ghost t0 = topology@;
    let ps = topology.router_positions();
    proof {
        lemma_sizes_fit(topology);
        lemma_all_positions_valid(t0);
    }
    let mut policies: Vec<(String, RoutePolicy)> = Vec::new();
    std::mem::swap(&mut topology.policies, &mut policies);
    proof {
        assert(topology@.policies =~= Seq::<(Seq<char>, PolicyView)>::empty());
        assert(topology@ =~= (TopologyView { policies: Seq::empty(), ..phase_steps(t0, ph, ps@, 0) }));
    }
    let mut i: usize = 0;
    while i < ps.len()
        invariant
            ps@ == all_positions(t0),
            forall|j: int| 0 <= j < ps@.len() ==> pos_valid(t0, #[trigger] ps@[j]),
            i <= ps@.len(),
            table_view(policies@) == t0.policies,
            same_shape(t0, topology@),
            topology@ == (TopologyView {
                policies: Seq::empty(),
                ..phase_steps(t0, ph, ps@, i as int)
            }),
        decreases ps@.len() - i,
    {
        let p = ps[i];
        proof {
            lemma_same_shape_valid(t0, topology@, p);
        }
        let ghost tp = topology@;
        let rm = topology.router_mut(p);
        apply_phase(rm, ph, &policies);
        proof {
            lemma_with_router(tp, p, router_at(topology@, p));
        }
        i += 1;
    }
    std::mem::swap(&mut topology.policies, &mut policies);
    proof {
        lemma_phase_keeps_policies(t0, ph, ps@, ps@.len() as int);
    }
}

proof fn lemma_phase_keeps_policies(t: TopologyView, ph: BgpPhase, ps: Seq<RouterPos>, k: int)
    ensures
        phase_steps(t, ph, ps, k).policies == t.policies,
        phase_steps(t, ph, ps, k).links == t.links,
    decreases k,
{
    if k > 0 {
        lemma_phase_keeps_policies(t, ph, ps, k - 1);
        let prev = phase_steps(t, ph, ps, k - 1);
        match ps[k - 1] {
            RouterPos::Standalone(_) => {},
            RouterPos::InAs(_, _) => {},
        }
    }
}

/// One BGP tick: every session not yet established advances one step;
/// each router imports its established neighbors' routes through their
/// import policies into its Loc-RIB; each selects its best paths into
/// its RIB and FIB; each AS router advertises its best routes to its
/// established neighbors.
pub fn tick_bgp(topology: &mut Topology, current_tick: u64, event_queue: &mut EventQueue)
    ensures
        final(topology)@ == tick_bgp_spec(old(topology)@, current_tick),
        final(event_queue)@ == old(event_queue)@,
        final(event_queue).wf() == old(event_queue).wf(),
{
    run_phase(topology, BgpPhase::Sessions { tick: current_tick });
    run_phase(topology, BgpPhase::Imports);
    run_phase(topology, BgpPhase::BestPaths);
    advertise_routes(topology);
}


// ── Laws ──

/// Every route recorded as best is marked best, and is one of the
/// candidates of its prefix apart from that mark.
pub proof fn law_bests_marked(rib: Seq<(Seq<char>, Seq<RouteView>)>, n: int)
    requires
        0 <= n <= rib.len(),
    ensures
        forall|i: int|
            0 <= i < bests_of(rib, n).len() ==> (#[trigger] bests_of(rib, n)[i]).1.is_best,
    decreases n,
{
    if n > 0 {
        law_bests_marked(rib, n - 1);
        let prev = bests_of(rib, n - 1);
        match best_of(rib[n - 1].1) {
            Some(b) => {
                let cur = bests_of(rib, n);
                lemma_key_index(prev, rib[n - 1].0);
                assert forall|i: int| 0 <= i < cur.len() implies (#[trigger] cur[i]).1.is_best by {
                    if i < prev.len() && i != key_index(prev, rib[n - 1].0) {
                        assert(cur[i] == prev[i]);
                    }
                }
            },
            None => {},
        }
    }
}

/// A neighbor whose session is not established contributes no route to
/// the import.
pub proof fn law_unestablished_neighbor_imports_nothing(
    ns: Seq<(Seq<char>, NeighborView)>,
    policies: Seq<(Seq<char>, PolicyView)>,
    j: int,
)
    requires
        0 <= j < ns.len(),
        ns[j].1.state != BgpSessionState::Established,
    ensures
        imports(ns, policies, j + 1) == imports(ns, policies, j),
{
    assert(imports(ns, policies, j + 1) =~= imports(ns, policies, j));
}

/// A route that the neighbor's import policy rejects is not imported.
pub proof fn law_rejected_route_not_imported(
    n: NeighborView,
    policies: Seq<(Seq<char>, PolicyView)>,
    k: int,
)
    requires
        0 <= k < n.adj_rib_in.len(),
        through_policy(n.import_policy, policies, n.adj_rib_in[k].1) is None,
    ensures
        imports_from(n, policies, k + 1) == imports_from(n, policies, k),
{
}

/// An export policy that rejects a route keeps it from every neighbor
/// using it: no advertisement is made of it.
pub proof fn law_rejected_route_not_exported(
    r: RouterView,
    local_asn: u32,
    n: NeighborView,
    policies: Seq<(Seq<char>, PolicyView)>,
    route: RouteView,
    name: Seq<char>,
)
    requires
        n.export_policy == Some(name),
        lookup(policies, name) matches Some(p) && apply_policy_spec(
            p,
            if n.is_ebgp {
                RouteView {
                    attributes: AttrsView {
                        as_path: seq![local_asn] + route.attributes.as_path,
                        next_hop: r.router_id_ip,
                        ..route.attributes
                    },
                    ..route
                }
            } else {
                route
            },
        ).0 == PolicyAction::Reject,
    ensures
        export_route(r, local_asn, n, policies, route) is None,
{
}

} // verus!
