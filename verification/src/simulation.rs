//! The simulation engine: the network, the clock and the event queue, and
//! one tick of simulation (due events, adjacencies, OSPF, BGP, traffic).

use vstd::prelude::*;

use crate::bgp::{advance_bgp_fsm, session_on_event};
use crate::bgp_tick::{tick_bgp, tick_bgp_spec};
use crate::events::{due_count, BgpFsmEvent, EventQueue, EventType, SimEvent};
use crate::models::{
    key_index, lemma_table_view_update, table_view, BgpProcessView, LinkView, NeighborView,
    RouterView, Topology, TopologyView, TrafficFlow,
};
use crate::netops::{apply_to_routers, map_routers, RouterOp, RouterOpView};
use crate::ospf_tick::{
    flood_lsa_to_area, flood_spec, neighbors_spec, ospf_tick_ready, ospf_tick_ready_exec,
    originations, push_all, tick_ospf, tick_ospf_spec, update_ospf_neighbors,
};
use crate::table::{find_key, lemma_key_index};
use crate::text::string_from;
use crate::topology::{find_router, router_at, router_named, with_router};
use crate::traffic::{
    compute_flows, flows_spec, flows_view, update_link_utilization, utilization_spec,
};

verus! {

broadcast use lemma_table_view_update;

/// The simulation clock.
#[derive(Debug, Clone, Copy)]
pub struct SimulationState {
    pub tick: u64,
    pub running: bool,
    pub tick_rate_ms: u64,
}

/// A change of a BGP session's state, as reported to observers.
#[derive(Debug)]
pub struct BgpStateChange {
    pub router: String,
    pub neighbor: String,
    pub state: String,
}

/// A change of a route, as reported to observers.
#[derive(Debug)]
pub struct RouteChange {
    pub router: String,
    pub prefix: String,
    pub action: String,
    pub via: String,
}

/// What one tick reports: the tick and the traffic flows (the lists of
/// convergence events, session and route changes are reported empty).
#[derive(Debug)]
pub struct TickUpdate {
    pub tick: u64,
    pub ospf_converged: Vec<String>,
    pub bgp_state_changes: Vec<BgpStateChange>,
    pub route_changes: Vec<RouteChange>,
    pub traffic_flows: Vec<TrafficFlow>,
}

/// The network, the clock and the pending events.
#[derive(Debug)]
pub struct SimulationEngine {
    pub topology: Topology,
    pub state: SimulationState,
    pub event_queue: EventQueue,
}

// ── Events ──

/// A router after a session event for its neighbor keyed `key`: that
/// session moves as the state machine does on the event (when the router
/// runs BGP and has that neighbor).
pub open spec fn session_event(r: RouterView, key: Seq<char>, event: BgpFsmEvent) -> RouterView {
    match r.bgp_process {
        Some(b) => {
            let i = key_index(b.neighbors, key);
            if i < b.neighbors.len() {
                let n = b.neighbors[i].1;
                RouterView {
                    bgp_process: Some(
                        BgpProcessView {
                            neighbors: b.neighbors.update(
                                i,
                                (b.neighbors[i].0, NeighborView { state: session_on_event(n.state, event), ..n }),
                            ),
                            ..b
                        },
                    ),
                    ..r
                }
            } else {
                r
            }
        },
        None => r,
    }
}

/// What an event does to the network.
/// - A link state change sets the link's state and, on every AS router
///   holding one of its two interfaces, that interface's state, marking
///   OSPF for a new SPF run; nothing when the link is unknown.
/// - An LSA flood floods the source's LSA to the area (the source router
///   must exist and run OSPF).
/// - A session event advances the named router's session with the named
///   neighbor.
/// - Traffic start and stop switch every generator with that id.
/// - Update and policy-change events change nothing (the BGP tick does
///   that work).
pub open spec fn event_effect(t: TopologyView, e: EventType) -> TopologyView {
    match e {
        EventType::LinkStateChange { link_id, is_up } => {
            let i = key_index(t.links, link_id@);
            if i < t.links.len() {
                let l = t.links[i].1;
                let t1 = TopologyView {
                    links: t.links.update(i, (t.links[i].0, LinkView { is_up, ..l })),
                    ..t
                };
                let t2 = map_routers(
                    t1,
                    RouterOpView::InterfaceState { iface: l.interface_a_id, up: is_up },
                    false,
                );
                map_routers(
                    t2,
                    RouterOpView::InterfaceState { iface: l.interface_b_id, up: is_up },
                    false,
                )
            } else {
                t
            }
        },
        EventType::LsaFlood { lsa_key, source_router_id, area_id } => flood_spec(
            t,
            lsa_key@,
            source_router_id@,
            area_id,
        ),
        EventType::BgpSessionEvent { router_id, neighbor_ip, event } => {
            match find_router(t, router_id@) {
                Some(p) => with_router(t, p, session_event(router_at(t, p), neighbor_ip@, event)),
                None => t,
            }
        },
        EventType::TrafficStart { generator_id } => map_routers(
            t,
            RouterOpView::GeneratorActive { generator: generator_id@, active: true },
            true,
        ),
        EventType::TrafficStop { generator_id } => map_routers(
            t,
            RouterOpView::GeneratorActive { generator: generator_id@, active: false },
            true,
        ),
        _ => t,
    }
}

/// The network after the first `k` events, in order.
pub open spec fn apply_events(t: TopologyView, evs: Seq<SimEvent>, k: int) -> TopologyView
    decreases k,
{
    if k <= 0 {
        t
    } else {
        event_effect(apply_events(t, evs, k - 1), evs[k - 1].event_type)
    }
}

// ── Floods need their source ──

/// An event that floods an LSA names a router that runs OSPF.
pub open spec fn flood_source_ok(t: TopologyView, e: EventType) -> bool {
    match e {
        EventType::LsaFlood { lsa_key, source_router_id, area_id } => router_named(
            t,
            source_router_id@,
        ) matches Some(r) && r.ospf_process is Some,
        _ => true,
    }
}

/// Every LSA flood among the events names a router that runs OSPF.
pub open spec fn floods_have_sources(t: TopologyView, evs: Seq<SimEvent>) -> bool {
    forall|i: int| 0 <= i < evs.len() ==> flood_source_ok(t, (#[trigger] evs[i]).event_type)
}

/// Two router tables with the same keys in the same places, where every
/// router that runs OSPF in the first still runs it in the second.
pub open spec fn table_keeps_ospf(s: Seq<(Seq<char>, RouterView)>, u: Seq<(Seq<char>, RouterView)>) -> bool {
    &&& s.len() == u.len()
    &&& forall|i: int|
        0 <= i < s.len() ==> (#[trigger] s[i]).0 == u[i].0 && (s[i].1.ospf_process is Some
            ==> u[i].1.ospf_process is Some)
}

/// Two networks with their routers at the same keys, where every router
/// that runs OSPF in the first still runs it in the second.
pub open spec fn keeps_ospf(a: TopologyView, b: TopologyView) -> bool {
    &&& table_keeps_ospf(a.standalone_routers, b.standalone_routers)
    &&& a.autonomous_systems.len() == b.autonomous_systems.len()
    &&& forall|x: int|
        0 <= x < a.autonomous_systems.len() ==> table_keeps_ospf(
            (#[trigger] a.autonomous_systems[x]).1.routers,
            b.autonomous_systems[x].1.routers,
        )
}

proof fn lemma_keeps_refl(t: TopologyView)
    ensures
        keeps_ospf(t, t),
{
}

proof fn lemma_keeps_trans(a: TopologyView, b: TopologyView, c: TopologyView)
    requires
        keeps_ospf(a, b),
        keeps_ospf(b, c),
    ensures
        keeps_ospf(a, c),
{
    assert forall|x: int| 0 <= x < a.autonomous_systems.len() implies table_keeps_ospf(
        (#[trigger] a.autonomous_systems[x]).1.routers,
        c.autonomous_systems[x].1.routers,
    ) by {
        assert(table_keeps_ospf(b.autonomous_systems[x].1.routers, c.autonomous_systems[x].1.routers));
    }
}

proof fn lemma_key_index_same(s: Seq<(Seq<char>, RouterView)>, u: Seq<(Seq<char>, RouterView)>, k: Seq<char>)
    requires
        table_keeps_ospf(s, u),
    ensures
        key_index(s, k) == key_index(u, k),
{
    lemma_key_index(s, k);
    assert forall|j: int| 0 <= j < key_index(s, k) implies (#[trigger] u[j]).0 != k by {
        assert(s[j].0 == u[j].0);
    }
    if key_index(s, k) < s.len() {
        assert(s[key_index(s, k)].0 == u[key_index(s, k)].0);
    }
    crate::table::lemma_key_index_is(u, k, key_index(s, k));
}

proof fn lemma_as_holding_same(a: TopologyView, b: TopologyView, id: Seq<char>, x: int)
    requires
        keeps_ospf(a, b),
        0 <= x,
    ensures
        crate::topology::as_holding(a.autonomous_systems, id, x) == crate::topology::as_holding(
            b.autonomous_systems,
            id,
            x,
        ),
    decreases a.autonomous_systems.len() - x,
{
    if x < a.autonomous_systems.len() {
        assert(table_keeps_ospf(a.autonomous_systems[x].1.routers, b.autonomous_systems[x].1.routers));
        lemma_key_index_same(a.autonomous_systems[x].1.routers, b.autonomous_systems[x].1.routers, id);
        lemma_as_holding_same(a, b, id, x + 1);
    }
}

/// A router that runs OSPF in one network still does, under the same key,
/// in a network that keeps OSPF routers.
proof fn lemma_named_keeps(a: TopologyView, b: TopologyView, id: Seq<char>)
    requires
        keeps_ospf(a, b),
        crate::topology::sizes_fit(a),
        router_named(a, id) matches Some(r) && r.ospf_process is Some,
    ensures
        router_named(b, id) matches Some(r) && r.ospf_process is Some,
{
    lemma_key_index_same(a.standalone_routers, b.standalone_routers, id);
    lemma_as_holding_same(a, b, id, 0);
    crate::topology::lemma_find_router_valid(a, id);
    crate::topology::lemma_as_holding(a.autonomous_systems, id, 0);
    let x = crate::topology::as_holding(a.autonomous_systems, id, 0);
    if key_index(a.standalone_routers, id) >= a.standalone_routers.len() && x < a.autonomous_systems.len() {
        assert(table_keeps_ospf(a.autonomous_systems[x].1.routers, b.autonomous_systems[x].1.routers));
        lemma_key_index_same(a.autonomous_systems[x].1.routers, b.autonomous_systems[x].1.routers, id);
    }
}

proof fn lemma_source_ok_keeps(a: TopologyView, b: TopologyView, e: EventType)
    requires
        keeps_ospf(a, b),
        crate::topology::sizes_fit(a),
        flood_source_ok(a, e),
    ensures
        flood_source_ok(b, e),
{
    match e {
        EventType::LsaFlood { lsa_key, source_router_id, area_id } => {
            lemma_named_keeps(a, b, source_router_id@);
        },
        _ => {},
    }
}

proof fn lemma_with_router_keeps(t: TopologyView, p: crate::topology::RouterPos, r: RouterView)
    requires
        crate::topology::pos_valid(t, p),
        router_at(t, p).ospf_process is Some ==> r.ospf_process is Some,
    ensures
        keeps_ospf(t, with_router(t, p, r)),
{
    let t2 = with_router(t, p, r);
    match p {
        crate::topology::RouterPos::Standalone(i) => {
            assert(table_keeps_ospf(t.standalone_routers, t2.standalone_routers));
        },
        crate::topology::RouterPos::InAs(a, i) => {
            assert forall|x: int| 0 <= x < t.autonomous_systems.len() implies table_keeps_ospf(
                (#[trigger] t.autonomous_systems[x]).1.routers,
                t2.autonomous_systems[x].1.routers,
            ) by {
                if x == a {
                    let s = t.autonomous_systems[x].1.routers;
                    let u = t2.autonomous_systems[x].1.routers;
                    assert forall|j: int| 0 <= j < s.len() implies (#[trigger] s[j]).0 == u[j].0 && (
                    s[j].1.ospf_process is Some ==> u[j].1.ospf_process is Some) by {
                        if j == i {
                        }
                    }
                }
            }
        },
    }
}

proof fn lemma_op_keeps_ospf(op: RouterOpView, r: RouterView)
    ensures
        r.ospf_process is Some ==> crate::netops::op_spec(op, r).ospf_process is Some,
{
}

proof fn lemma_map_routers_keeps(t: TopologyView, op: RouterOpView, standalone: bool)
    ensures
        keeps_ospf(t, map_routers(t, op, standalone)),
{
    let t2 = map_routers(t, op, standalone);
    assert forall|i: int| 0 <= i < t.standalone_routers.len() implies (
    #[trigger] t.standalone_routers[i]).0 == t2.standalone_routers[i].0 && (
    t.standalone_routers[i].1.ospf_process is Some ==> t2.standalone_routers[i].1.ospf_process is Some) by {
        lemma_op_keeps_ospf(op, t.standalone_routers[i].1);
    }
    assert forall|x: int| 0 <= x < t.autonomous_systems.len() implies table_keeps_ospf(
        (#[trigger] t.autonomous_systems[x]).1.routers,
        t2.autonomous_systems[x].1.routers,
    ) by {
        let s = t.autonomous_systems[x].1.routers;
        let u = t2.autonomous_systems[x].1.routers;
        assert forall|j: int| 0 <= j < s.len() implies (#[trigger] s[j]).0 == u[j].0 && (
        s[j].1.ospf_process is Some ==> u[j].1.ospf_process is Some) by {
            lemma_op_keeps_ospf(op, s[j].1);
        }
    }
}

proof fn lemma_keeps_valid(a: TopologyView, b: TopologyView, p: crate::topology::RouterPos)
    requires
        keeps_ospf(a, b),
        crate::topology::pos_valid(a, p),
    ensures
        crate::topology::pos_valid(b, p),
        router_at(a, p).ospf_process is Some ==> router_at(b, p).ospf_process is Some,
{
    match p {
        crate::topology::RouterPos::InAs(x, i) => {
            assert(table_keeps_ospf(a.autonomous_systems[x as int].1.routers, b.autonomous_systems[x as int].1.routers));
        },
        _ => {},
    }
}

proof fn lemma_flood_steps_keeps(
    t: TopologyView,
    ps: Seq<crate::topology::RouterPos>,
    lsa: crate::models::LsaView,
    src: Seq<char>,
    area_id: u32,
    k: int,
)
    requires
        0 <= k <= ps.len(),
        forall|j: int| 0 <= j < ps.len() ==> crate::topology::pos_valid(t, #[trigger] ps[j]),
    ensures
        keeps_ospf(t, crate::ospf_tick::flood_steps(t, ps, lsa, src, area_id, k)),
    decreases k,
{
    if k > 0 {
        lemma_flood_steps_keeps(t, ps, lsa, src, area_id, k - 1);
        let t1 = crate::ospf_tick::flood_steps(t, ps, lsa, src, area_id, k - 1);
        let p = ps[k - 1];
        lemma_keeps_valid(t, t1, p);
        let r = router_at(t1, p);
        if r.id != src && crate::ospf::has_area(r, area_id) {
            lemma_with_router_keeps(t1, p, crate::ospf::install_spec(r, area_id, lsa).1);
            lemma_keeps_trans(t, t1, crate::ospf_tick::flood_steps(t, ps, lsa, src, area_id, k));
        }
    } else {
        lemma_keeps_refl(t);
    }
}

/// What an event does keeps every router and its OSPF process, when a
/// flood names a router that runs OSPF.
proof fn lemma_event_keeps(t: TopologyView, e: EventType)
    requires
        crate::topology::sizes_fit(t),
        flood_source_ok(t, e),
    ensures
        keeps_ospf(t, event_effect(t, e)),
{
    match e {
        EventType::LinkStateChange { link_id, is_up } => {
            let i = key_index(t.links, link_id@);
            if i < t.links.len() {
                let l = t.links[i].1;
                let t1 = TopologyView {
                    links: t.links.update(i, (t.links[i].0, LinkView { is_up, ..l })),
                    ..t
                };
                let op_a = RouterOpView::InterfaceState { iface: l.interface_a_id, up: is_up };
                let op_b = RouterOpView::InterfaceState { iface: l.interface_b_id, up: is_up };
                let t2 = map_routers(t1, op_a, false);
                lemma_map_routers_keeps(t1, op_a, false);
                lemma_map_routers_keeps(t2, op_b, false);
                lemma_keeps_trans(t, t2, map_routers(t2, op_b, false));
            } else {
                lemma_keeps_refl(t);
            }
        },
        EventType::LsaFlood { lsa_key, source_router_id, area_id } => {
            let src = source_router_id@;
            match crate::models::lookup(router_named(t, src)->0.ospf_process->0.lsdb, lsa_key@) {
                Some(lsa) => {
                    crate::topology::lemma_all_positions_valid(t);
                    let ps = crate::topology::all_positions(t);
                    lemma_flood_steps_keeps(t, ps, lsa, src, area_id, ps.len() as int);
                },
                None => {
                    lemma_keeps_refl(t);
                },
            }
        },
        EventType::BgpSessionEvent { router_id, neighbor_ip, event } => {
            crate::topology::lemma_find_router_valid(t, router_id@);
            match find_router(t, router_id@) {
                Some(p) => {
                    lemma_with_router_keeps(t, p, session_event(router_at(t, p), neighbor_ip@, event));
                },
                None => {
                    lemma_keeps_refl(t);
                },
            }
        },
        EventType::TrafficStart { generator_id } => {
            lemma_map_routers_keeps(
                t,
                RouterOpView::GeneratorActive { generator: generator_id@, active: true },
                true,
            );
        },
        EventType::TrafficStop { generator_id } => {
            lemma_map_routers_keeps(
                t,
                RouterOpView::GeneratorActive { generator: generator_id@, active: false },
                true,
            );
        },
        _ => {
            lemma_keeps_refl(t);
        },
    }
}

// ── A tick ──

/// The network when OSPF runs in a tick: after the due events and the
/// adjacency update.
pub open spec fn before_ospf(t: TopologyView, evs: Seq<SimEvent>) -> TopologyView {
    neighbors_spec(apply_events(t, evs, evs.len() as int))
}

/// The OSPF tick, when every LSA it originates has a sequence number;
/// otherwise OSPF is left as it is for this tick.
pub open spec fn ospf_step(t: TopologyView) -> TopologyView {
    if ospf_tick_ready(t) {
        tick_ospf_spec(t)
    } else {
        t
    }
}

/// The network after the routing protocols of a tick.
pub open spec fn routed(t: TopologyView, evs: Seq<SimEvent>, tick: u64) -> TopologyView {
    tick_bgp_spec(ospf_step(before_ospf(t, evs)), tick)
}

/// The network at the end of a tick: link loads from the tick's flows.
pub open spec fn stepped(t: TopologyView, evs: Seq<SimEvent>, tick: u64) -> TopologyView {
    utilization_spec(routed(t, evs, tick), flows_spec(routed(t, evs, tick)))
}

impl SimulationEngine {
    /// The engine's event queue is in due order.
    pub open spec fn wf(&self) -> bool {
        self.event_queue.wf()
    }

    /// An engine with an empty network, stopped at tick 0, ticking every
    /// 200 ms, with no events.
    pub fn new() -> (e: Self)
        ensures
            e.wf(),
            e.topology@.autonomous_systems.len() == 0,
            e.topology@.standalone_routers.len() == 0,
            e.topology@.links.len() == 0,
            e.topology@.policies.len() == 0,
            e.state.tick == 0,
            !e.state.running,
            e.state.tick_rate_ms == 200,
            e.event_queue@.len() == 0,
    {
        SimulationEngine {
            topology: Topology::new(),
            state: SimulationState { tick: 0, running: false, tick_rate_ms: 200 },
            event_queue: EventQueue::new(),
        }
    }

    fn advance_session(&mut self, router_id: &String, neighbor_ip: &String, event: &crate::events::BgpFsmEvent)
        ensures
            final(self).topology@ == (match find_router(old(self).topology@, router_id@) {
                Some(p) => with_router(
                    old(self).topology@,
                    p,
                    session_event(router_at(old(self).topology@, p), neighbor_ip@, *event),
                ),
                None => old(self).topology@,
            }),
            final(self).state == old(self).state,
            final(self).event_queue == old(self).event_queue,
    {
        match self.topology.get_router_mut(router_id.as_str()) {
            Some(router) => {
                match &mut router.bgp_process {
                    Some(b) => {
                        proof {
                            lemma_key_index(b@.neighbors, neighbor_ip@);
                        }
                        match find_key(&b.neighbors, neighbor_ip) {
                            Some(i) => {
                                let s = advance_bgp_fsm(&b.neighbors[i].1.state, event);
                                b.neighbors[i].1.state = s;
                            },
                            None => {},
                        }
                    },
                    None => {},
                }
            },
            None => {},
        }
    }

    /// Applies an event to the network.
    fn process_event(&mut self, event: &SimEvent)
        requires
            flood_source_ok(old(self).topology@, event.event_type),
        ensures
            final(self).topology@ == event_effect(old(self).topology@, event.event_type),
            final(self).state == old(self).state,
            final(self).event_queue == old(self).event_queue,
    {
        match &event.event_type {
            EventType::LinkStateChange { link_id, is_up } => {
                let ghost t0 = self.topology@;
                match find_key(&self.topology.links, link_id) {
                    Some(i) => {
                        self.topology.links[i].1.is_up = *is_up;
                        let a = self.topology.links[i].1.interface_a_id.clone();
                        let b = self.topology.links[i].1.interface_b_id.clone();
                        apply_to_routers(
                            &mut self.topology,
                            &RouterOp::InterfaceState { iface: a, up: *is_up },
                            false,
                        );
                        apply_to_routers(
                            &mut self.topology,
                            &RouterOp::InterfaceState { iface: b, up: *is_up },
                            false,
                        );
                    },
                    None => {},
                }
            },
            EventType::LsaFlood { lsa_key, source_router_id, area_id } => {
                flood_lsa_to_area(
                    &mut self.topology,
                    lsa_key.as_str(),
                    source_router_id.as_str(),
                    *area_id,
                );
            },
            EventType::BgpSessionEvent { router_id, neighbor_ip, event } => {
                self.advance_session(router_id, neighbor_ip, event);
            },
            EventType::TrafficStart { generator_id } => {
                apply_to_routers(
                    &mut self.topology,
                    &RouterOp::GeneratorActive { generator: generator_id.clone(), active: true },
                    true,
                );
            },
            EventType::TrafficStop { generator_id } => {
                apply_to_routers(
                    &mut self.topology,
                    &RouterOp::GeneratorActive { generator: generator_id.clone(), active: false },
                    true,
                );
            },
            _ => {},
        }
    }

    /// Whether every LSA flood due by `tick` names a router that runs OSPF,
    /// as `step` needs of the floods it applies.
    pub fn floods_ready(&self, tick: u64) -> (r: bool)
        requires
            self.wf(),
        ensures
            r == floods_have_sources(
                self.topology@,
                self.event_queue@.take(due_count(self.event_queue@, tick)),
            ),
    {
        let ghost q = self.event_queue@;
        let ghost t = self.topology@;
        proof {
            self.event_queue.lemma_in_due_order();
            crate::events::lemma_due_prefix(q, tick);
        }
        let n = self.event_queue.len();
        let mut i: usize = 0;
        while i < n && self.event_queue.get(i).scheduled_tick <= tick
            invariant
                q == self.event_queue@,
                t == self.topology@,
                n == q.len(),
                i <= n,
                0 <= due_count(q, tick) <= q.len(),
                forall|j: int| 0 <= j < q.len() ==> (j < due_count(q, tick) <==> (#[trigger] q[j]).scheduled_tick <= tick),
                forall|j: int| 0 <= j < i ==> (#[trigger] q[j]).scheduled_tick <= tick && flood_source_ok(t, q[j].event_type),
            decreases n - i,
        {
            let e = self.event_queue.get(i);
            match &e.event_type {
                EventType::LsaFlood { lsa_key, source_router_id, area_id } => {
                    let ok = match self.topology.get_router(source_router_id.as_str()) {
                        Some(r) => r.ospf_process.is_some(),
                        None => false,
                    };
                    if !ok {
                        proof {
                            let d = q.take(due_count(q, tick));
                            assert(d[i as int] == q[i as int]);
                            assert(!flood_source_ok(t, d[i as int].event_type));
                        }
                        return false;
                    }
                },
                _ => {},
            }
            i += 1;
        }
        proof {
            let dc = due_count(q, tick);
            if i < n {
                assert(q[i as int].scheduled_tick > tick);
            }
            assert(i == dc) by {
                if i < dc {
                    assert(q[i as int].scheduled_tick <= tick);
                }
                if dc < i {
                    assert(q[dc].scheduled_tick <= tick);
                }
            }
            let d = q.take(dc);
            assert forall|j: int| 0 <= j < d.len() implies flood_source_ok(t, (#[trigger] d[j]).event_type) by {
                assert(d[j] == q[j]);
            }
        }
        true
    }

    /// Runs one tick: the clock advances; the events due by the new tick
    /// are applied in order (every LSA flood among them must name a router
    /// that runs OSPF; see `floods_ready`); OSPF adjacencies are updated;
    /// OSPF runs (when every LSA it would originate has a sequence number),
    /// then BGP; the traffic flows are traced and the link loads recomputed
    /// from them.
    #[verifier::rlimit(40)]
    pub fn step(&mut self) -> (u: TickUpdate)
        requires
            old(self).wf(),
            old(self).state.tick < u64::MAX - 2,
            floods_have_sources(
                old(self).topology@,
                old(self).event_queue@.take(
                    due_count(old(self).event_queue@, (old(self).state.tick + 1) as u64),
                ),
            ),
        ensures
            final(self).wf(),
            final(self).state == (SimulationState { tick: (old(self).state.tick + 1) as u64, ..old(self).state }),
            u.tick == final(self).state.tick,
            ({
                let tick = final(self).state.tick;
                let evs = old(self).event_queue@.take(due_count(old(self).event_queue@, tick));
                let rest = old(self).event_queue@.skip(due_count(old(self).event_queue@, tick));
                let t1 = before_ospf(old(self).topology@, evs);
                &&& final(self).topology@ == stepped(old(self).topology@, evs, tick)
                &&& flows_view(u.traffic_flows@) == flows_spec(routed(old(self).topology@, evs, tick))
                &&& ospf_tick_ready(t1) ==> exists|floods: Seq<SimEvent>|
                    #![trigger push_all(rest, floods, floods.len() as int)]
                    floods.len() == originations(t1).len() && (forall|i: int|
                        0 <= i < floods.len() ==> crate::ospf_tick::is_origination_flood(
                            #[trigger] floods[i],
                            t1,
                            originations(t1)[i],
                            tick,
                        )) && final(self).event_queue@ == push_all(rest, floods, floods.len() as int)
                &&& !ospf_tick_ready(t1) ==> final(self).event_queue@ == rest
            }),
            u.ospf_converged@.len() == 0,
            u.bgp_state_changes@.len() == 0,
            u.route_changes@.len() == 0,
    {
        self.state.tick = self.state.tick + 1;
        let tick = self.state.tick;
        let ghost t0 = self.topology@;
        let ghost q0 = self.event_queue@;
        let events = self.event_queue.drain_for_tick(tick);
        let ghost evs = events@;
        proof {
            crate::topology::lemma_sizes_fit(&self.topology);
            lemma_keeps_refl(t0);
        }
        let mut k: usize = 0;
        while k < events.len()
            invariant
                evs == events@,
                k <= evs.len(),
                self.topology@ == apply_events(t0, evs, k as int),
                floods_have_sources(t0, evs),
                crate::topology::sizes_fit(t0),
                keeps_ospf(t0, self.topology@),
                self.wf(),
                self.state.tick == tick,
                self.event_queue@ == q0.skip(due_count(q0, tick)),
                self.state == old(self).state.update_tick(tick),
            decreases evs.len() - k,
        {
            let ghost cur = self.topology@;
            proof {
                crate::topology::lemma_sizes_fit(&self.topology);
                assert(flood_source_ok(t0, evs[k as int].event_type));
                lemma_source_ok_keeps(t0, cur, evs[k as int].event_type);
                lemma_event_keeps(cur, evs[k as int].event_type);
            }
            self.process_event(&events[k]);
            proof {
                lemma_keeps_trans(t0, cur, self.topology@);
            }
            k += 1;
        }
        update_ospf_neighbors(&mut self.topology);
        if ospf_tick_ready_exec(&self.topology) {
            tick_ospf(&mut self.topology, tick, &mut self.event_queue);
        }
        tick_bgp(&mut self.topology, tick, &mut self.event_queue);
        let flows = compute_flows(&self.topology);
        update_link_utilization(&mut self.topology, flows.as_slice());
        TickUpdate {
            tick,
            ospf_converged: Vec::new(),
            bgp_state_changes: Vec::new(),
            route_changes: Vec::new(),
            traffic_flows: flows,
        }
    }
}

impl SimulationState {
    pub open spec fn update_tick(self, tick: u64) -> SimulationState {
        SimulationState { tick, ..self }
    }
}


/// Whether an event sets the link keyed `link` up or down.
pub open spec fn is_link_state_event(et: EventType, link: Seq<char>, up: bool) -> bool {
    et matches EventType::LinkStateChange { link_id: l, is_up: u } && l@ == link && u == up
}

/// A tick rate clamped to 10–5000 ms.
pub open spec fn clamped_rate(ms: u64) -> u64 {
    if ms < 10 {
        10
    } else if ms > 5000 {
        5000
    } else {
        ms
    }
}

/// Clamps a requested tick rate to 10–5000 ms.
pub fn clamp_tick_rate(ms: u64) -> (r: u64)
    ensures
        r == clamped_rate(ms),
{
    let lo = if ms < 10 {
        10
    } else {
        ms
    };
    if lo > 5000 {
        5000
    } else {
        lo
    }
}

impl SimulationEngine {
    /// Lets the simulation run.
    pub fn start(&mut self)
        ensures
            final(self).state == (SimulationState { running: true, ..old(self).state }),
            final(self).topology == old(self).topology,
            final(self).event_queue == old(self).event_queue,
    {
        self.state.running = true;
    }

    /// Stops the simulation.
    pub fn stop(&mut self)
        ensures
            final(self).state == (SimulationState { running: false, ..old(self).state }),
            final(self).topology == old(self).topology,
            final(self).event_queue == old(self).event_queue,
    {
        self.state.running = false;
    }

    /// Sets the tick rate, clamped to 10–5000 ms; gives the rate set.
    pub fn set_tick_rate(&mut self, ms: u64) -> (r: u64)
        ensures
            r == clamped_rate(ms),
            final(self).state == (SimulationState { tick_rate_ms: clamped_rate(ms), ..old(self).state }),
            final(self).topology == old(self).topology,
            final(self).event_queue == old(self).event_queue,
    {
        self.state.tick_rate_ms = clamp_tick_rate(ms);
        self.state.tick_rate_ms
    }

    /// Replaces the network, stopped at tick 0 (pending events stay).
    pub fn replace_topology(&mut self, topology: Topology)
        ensures
            final(self).topology@ == topology@,
            final(self).state == (SimulationState { tick: 0, running: false, ..old(self).state }),
            final(self).event_queue == old(self).event_queue,
    {
        self.topology = topology;
        self.state.tick = 0;
        self.state.running = false;
    }

    /// Empties the network, stopped at tick 0 (pending events stay).
    pub fn reset(&mut self)
        ensures
            final(self).topology@.autonomous_systems.len() == 0,
            final(self).topology@.standalone_routers.len() == 0,
            final(self).topology@.links.len() == 0,
            final(self).topology@.policies.len() == 0,
            final(self).state == (SimulationState { tick: 0, running: false, ..old(self).state }),
            final(self).event_queue == old(self).event_queue,
    {
        self.replace_topology(Topology::new());
    }

    /// Loads the sample network, stopped at tick 0.
    pub fn load_sample(&mut self)
        ensures
            crate::store::as_facts(final(self).topology@) == seq![
                (
                    crate::store::as_id_text(65001),
                    65001u32,
                    "AS-Alpha"@,
                    seq![("rtr-r1"@, 0x0101_0101u32), ("rtr-r2"@, 0x0202_0202u32), ("rtr-r3"@, 0x0303_0303u32)],
                ),
                (
                    crate::store::as_id_text(65002),
                    65002u32,
                    "AS-Beta"@,
                    seq![("rtr-r4"@, 0x0404_0404u32), ("rtr-r5"@, 0x0505_0505u32)],
                ),
            ],
            crate::store::link_table(final(self).topology@) == seq![
                ("link-rtr-r1-eth0-rtr-r2-eth0"@, "rtr-r1-eth0"@, "rtr-r2-eth0"@, 1_000_000_000u64),
                ("link-rtr-r1-eth1-rtr-r3-eth0"@, "rtr-r1-eth1"@, "rtr-r3-eth0"@, 1_000_000_000u64),
                ("link-rtr-r2-eth1-rtr-r3-eth1"@, "rtr-r2-eth1"@, "rtr-r3-eth1"@, 1_000_000_000u64),
                ("link-rtr-r4-eth1-rtr-r5-eth0"@, "rtr-r4-eth1"@, "rtr-r5-eth0"@, 1_000_000_000u64),
                ("link-rtr-r1-eth2-rtr-r4-eth0"@, "rtr-r1-eth2"@, "rtr-r4-eth0"@, 1_000_000_000u64),
            ],
            forall|i: int|
                0 <= i < final(self).topology@.links.len() ==> (#[trigger] final(self).topology@.links[i]).1.is_up
                    && final(self).topology@.links[i].1.current_load == 0,
            crate::store::router_labels(final(self).topology@) == seq![
                seq![
                    ("R1"@, crate::store::as_id_text(65001)),
                    ("R2"@, crate::store::as_id_text(65001)),
                    ("R3"@, crate::store::as_id_text(65001)),
                ],
                seq![("R4"@, crate::store::as_id_text(65002)), ("R5"@, crate::store::as_id_text(65002))],
            ],
            crate::store::router_setups(final(self).topology@) == crate::store::sample_setups(),
            crate::store::as_links_recorded(final(self).topology@),
            crate::topology::tables_distinct(final(self).topology@),
            crate::store::as_routers_not_yet_run(final(self).topology@),
            forall|a: int|
                0 <= a < final(self).topology@.autonomous_systems.len() ==> (
                #[trigger] final(self).topology@.autonomous_systems[a]).1.ospf_areas.len() == 0,
            final(self).topology@.standalone_routers.len() == 0,
            final(self).topology@.policies.len() == 0,
            final(self).state == (SimulationState { tick: 0, running: false, ..old(self).state }),
            final(self).event_queue == old(self).event_queue,
    {
        self.replace_topology(crate::store::create_sample_topology());
    }

    /// Schedules a link to go up or down at the next tick, with priority 5.
    pub fn schedule_link_state(&mut self, link_id: &str, is_up: bool)
        requires
            old(self).wf(),
            old(self).state.tick < u64::MAX,
        ensures
            final(self).wf(),
            final(self).topology == old(self).topology,
            final(self).state == old(self).state,
            exists|et: EventType|
                #[trigger] is_link_state_event(et, link_id@, is_up) && ({
                    let e = SimEvent {
                        scheduled_tick: (old(self).state.tick + 1) as u64,
                        priority: 5,
                        event_type: et,
                    };
                    final(self).event_queue@ == old(self).event_queue@.insert(
                        crate::events::insertion_point(old(self).event_queue@, e),
                        e,
                    )
                }),
    {
        let et = EventType::LinkStateChange { link_id: string_from(link_id), is_up };
        let ghost etv = et;
        self.event_queue.schedule(self.state.tick + 1, 5, et);
        proof {
            assert(is_link_state_event(etv, link_id@, is_up));
        }
    }
}

} // verus!
