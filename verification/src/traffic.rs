//! Traffic: the path of each active generator's traffic through the
//! network, found by walking forwarding tables hop by hop, and the load
//! it puts on each link.

use vstd::prelude::*;

use crate::ipv4::{ipv4_network_parse, net_contains, network_of, parse_ipv4_net, Ipv4Net};
use crate::models::{
    key_index, lemma_table_view_update, lookup, strings_view, table_view, FibEntry, FibView,
    GeneratorView, InterfaceView, LinkView, Router, RouterView, Topology, TopologyView, TrafficFlow, FlowView,
};
use crate::netops::first_with_iface;
use crate::ospf::{find_local_interface, iface_on_network};
use crate::table::{get_key, lemma_key_index};
use crate::text::string_from;
use crate::topology::{
    all_positions, lemma_all_positions_valid, lemma_sizes_fit, pos_valid, router_at,
    router_named, RouterPos,
};

verus! {

broadcast use lemma_table_view_update;

/// The most routers a traced flow visits.
pub const MAX_HOPS: usize = 64;

// ── Longest-prefix match ──

/// Among the first `k` FIB entries whose prefix text parses as a network
/// containing `dest_ip`: the index and prefix length of the first one
/// with the greatest prefix length.
pub open spec fn lpm_scan(fib: Seq<(Seq<char>, FibView)>, dest_ip: u32, k: int) -> Option<(int, u8)>
    decreases k,
{
    if k <= 0 {
        None
    } else {
        let prev = lpm_scan(fib, dest_ip, k - 1);
        match ipv4_network_parse(fib[k - 1].1.prefix) {
            Some((a, p)) => if net_contains(Ipv4Net { addr: a, prefix: p }, dest_ip) {
                match prev {
                    Some((_, best)) => if p > best {
                        Some((k - 1, p))
                    } else {
                        prev
                    },
                    None => Some((k - 1, p)),
                }
            } else {
                prev
            },
            None => prev,
        }
    }
}

/// The FIB entry that forwards traffic for `dest` (CIDR text): the most
/// specific entry whose network contains the network address of `dest`;
/// none when `dest` does not parse or no entry matches.
pub open spec fn lpm(fib: Seq<(Seq<char>, FibView)>, dest: Seq<char>) -> Option<FibView> {
    match ipv4_network_parse(dest) {
        None => None,
        Some((a, p)) => match lpm_scan(fib, network_of(Ipv4Net { addr: a, prefix: p }), fib.len() as int) {
            Some((i, _)) => Some(fib[i].1),
            None => None,
        },
    }
}

proof fn lemma_lpm_scan(fib: Seq<(Seq<char>, FibView)>, dest_ip: u32, k: int)
    requires
        0 <= k <= fib.len(),
    ensures
        lpm_scan(fib, dest_ip, k) matches Some((i, _)) ==> 0 <= i < k,
    decreases k,
{
    if k > 0 {
        lemma_lpm_scan(fib, dest_ip, k - 1);
    }
}

/// Whether FIB entry `j` parses as a network that contains `ip`, with
/// prefix length `p`.
pub open spec fn entry_matches(fib: Seq<(Seq<char>, FibView)>, ip: u32, j: int, p: u8) -> bool {
    ipv4_network_parse(fib[j].1.prefix) matches Some((a, q)) && q == p && net_contains(
        Ipv4Net { addr: a, prefix: q },
        ip,
    )
}

/// Longest-prefix match picks the most specific entry: the chosen entry
/// contains the address, no matching entry has a longer prefix, and no
/// earlier matching entry has one as long; when nothing is chosen, no
/// entry matches.
pub proof fn law_lpm_most_specific(fib: Seq<(Seq<char>, FibView)>, ip: u32, k: int)
    requires
        0 <= k <= fib.len(),
    ensures
        match lpm_scan(fib, ip, k) {
            Some((i, p)) => {
                &&& 0 <= i < k
                &&& entry_matches(fib, ip, i, p)
                &&& forall|j: int, q: u8| 0 <= j < k && #[trigger] entry_matches(fib, ip, j, q) ==> q <= p
                &&& forall|j: int, q: u8| 0 <= j < i && #[trigger] entry_matches(fib, ip, j, q) ==> q < p
            },
            None => forall|j: int, q: u8| 0 <= j < k ==> !#[trigger] entry_matches(fib, ip, j, q),
        },
    decreases k,
{
    if k > 0 {
        law_lpm_most_specific(fib, ip, k - 1);
    }
}

/// Longest-prefix match of `dest_prefix` in a FIB.
fn longest_prefix_match<'a>(fib: &'a Vec<(String, FibEntry)>, dest_prefix: &str) -> (r: Option<
    &'a FibEntry,
>)
    ensures
        match r {
            Some(e) => lpm(table_view(fib@), dest_prefix@) == Some(e@),
            None => lpm(table_view(fib@), dest_prefix@) is None,
        },
{
    let ghost fv = table_view(fib@);
    let dest = match parse_ipv4_net(dest_prefix) {
        Some(d) => d,
        None => {
            return None;
        },
    };
    let dest_ip = dest.network();
    let mut best: Option<(usize, u8)> = None;
    let mut k: usize = 0;
    while k < fib.len()
        invariant
            fv == table_view(fib@),
            k <= fib@.len(),
            match best {
                Some((i, l)) => lpm_scan(fv, dest_ip, k as int) == Some((i as int, l)),
                None => lpm_scan(fv, dest_ip, k as int) is None,
            },
        decreases fib@.len() - k,
    {
        proof {
            lemma_lpm_scan(fv, dest_ip, k as int);
        }
        match parse_ipv4_net(fib[k].1.prefix.as_str()) {
            Some(fp) => {
                if fp.contains(dest_ip) {
                    match best {
                        Some((_, l)) => {
                            if fp.prefix > l {
                                best = Some((k, fp.prefix));
                            }
                        },
                        None => {
                            best = Some((k, fp.prefix));
                        },
                    }
                }
            },
            None => {},
        }
        k += 1;
    }
    proof {
        lemma_lpm_scan(fv, dest_ip, fv.len() as int);
    }
    match best {
        Some((i, _)) => Some(&fib[i].1),
        None => None,
    }
}

// ── Tracing ──

/// Whether a router has an up interface on the network of `dest`.
pub open spec fn connected_to(r: RouterView, dest: Seq<char>) -> bool {
    match ipv4_network_parse(dest) {
        Some((a, p)) => iface_on_network(r.interfaces, Ipv4Net { addr: a, prefix: p }, 0)
            < r.interfaces.len(),
        None => false,
    }
}

/// Whether a router has a connected interface on the destination's
/// network.
fn has_connected_prefix(router: &Router, dest_prefix: &str) -> (r: bool)
    ensures
        r == connected_to(router@, dest_prefix@),
{
    match parse_ipv4_net(dest_prefix) {
        Some(d) => find_local_interface(router, &d).is_some(),
        None => false,
    }
}

/// Following traffic for `dest` from router `cur`, with the routers
/// already visited and the links crossed so far, for at most `fuel` more
/// routers: the links crossed and whether the traffic is dropped.  It is
/// dropped on a routing loop, an unknown router, no forwarding entry, an
/// unknown outgoing interface, an unknown or down link, or no router at
/// the link's far end; it is delivered when the outgoing interface has no
/// link (the destination is attached there) or the next router has an
/// interface on the destination's network.
pub open spec fn trace(
    t: TopologyView,
    cur: Seq<char>,
    dest: Seq<char>,
    visited: Seq<Seq<char>>,
    path: Seq<Seq<char>>,
    fuel: nat,
) -> (Seq<Seq<char>>, bool)
    decreases fuel,
{
    if fuel == 0 || visited.contains(cur) {
        (path, true)
    } else {
        match router_named(t, cur) {
            None => (path, true),
            Some(r) => match lpm(r.fib, dest) {
                None => (path, true),
                Some(e) => match lookup(r.interfaces, e.out_interface_id) {
                    None => (path, true),
                    Some(oi) => match oi.link_id {
                        None => (path, false),
                        Some(lid) => {
                            let p2 = path.push(lid);
                            match lookup(t.links, lid) {
                                None => (p2, true),
                                Some(l) => if !l.is_up {
                                    (p2, true)
                                } else {
                                    let remote = if l.interface_a_id == oi.id {
                                        l.interface_b_id
                                    } else {
                                        l.interface_a_id
                                    };
                                    let ps = all_positions(t);
                                    let ni = first_with_iface(t, ps, remote, 0);
                                    if ni >= ps.len() {
                                        (p2, true)
                                    } else if connected_to(router_at(t, ps[ni]), dest) {
                                        (p2, false)
                                    } else {
                                        trace(
                                            t,
                                            router_at(t, ps[ni]).id,
                                            dest,
                                            visited.push(cur),
                                            p2,
                                            (fuel - 1) as nat,
                                        )
                                    }
                                },
                            }
                        },
                    },
                },
            },
        }
    }
}

/// A flow with the outcome of a trace.
pub open spec fn flow_view(id: Seq<char>, rate_bps: u64, outcome: (Seq<Seq<char>>, bool)) -> FlowView {
    FlowView { generator_id: id, path: outcome.0, rate_bps, is_blackholed: outcome.1 }
}

/// The flow of a generator on router `rid`.
pub open spec fn flow_of(t: TopologyView, rid: Seq<char>, g: GeneratorView) -> FlowView {
    flow_view(
        g.id,
        g.rate_bps,
        trace(t, rid, g.dest_prefix, Seq::empty(), Seq::empty(), MAX_HOPS as nat),
    )
}

/// Traffic for a destination that the current router forwards out of an
/// interface without a link is delivered there: the trace ends, not
/// dropped, with the path it was given.
pub proof fn law_unlinked_out_interface_delivers(
    t: TopologyView,
    cur: Seq<char>,
    dest: Seq<char>,
    visited: Seq<Seq<char>>,
    path: Seq<Seq<char>>,
    fuel: nat,
    r: RouterView,
    e: FibView,
    oi: InterfaceView,
)
    requires
        fuel > 0,
        !visited.contains(cur),
        router_named(t, cur) == Some(r),
        lpm(r.fib, dest) == Some(e),
        lookup(r.interfaces, e.out_interface_id) == Some(oi),
        oi.link_id is None,
    ensures
        trace(t, cur, dest, visited, path, fuel) == (path, false),
{
}

/// A generator whose destination its own router forwards out of an
/// interface without a link (the destination is attached there) has a
/// delivered flow that crosses no link.
pub proof fn law_local_destination_delivered(
    t: TopologyView,
    rid: Seq<char>,
    g: GeneratorView,
    r: RouterView,
    e: FibView,
    oi: InterfaceView,
)
    requires
        router_named(t, rid) == Some(r),
        lpm(r.fib, g.dest_prefix) == Some(e),
        lookup(r.interfaces, e.out_interface_id) == Some(oi),
        oi.link_id is None,
    ensures
        !flow_of(t, rid, g).is_blackholed,
        flow_of(t, rid, g).path.len() == 0,
{
    law_unlinked_out_interface_delivers(t, rid, g.dest_prefix, Seq::empty(), Seq::empty(), MAX_HOPS as nat, r, e, oi);
}

fn contains_string(v: &Vec<String>, s: &String) -> (r: bool)
    ensures
        r == strings_view(v@).contains(s@),
{
    let mut i: usize = 0;
    while i < v.len()
        invariant
            i <= v@.len(),
            forall|j: int| 0 <= j < i ==> (#[trigger] strings_view(v@)[j]) != s@,
        decreases v@.len() - i,
    {
        if v[i] == *s {
            proof {
                assert(strings_view(v@)[i as int] == s@);
            }
            return true;
        }
        i += 1;
    }
    false
}

/// The first router (standalone ones first, then each AS's) that has an
/// interface keyed `iface_id`.
fn router_with_interface<'a>(topology: &'a Topology, ps: &Vec<RouterPos>, iface_id: &String) -> (r:
    Option<&'a Router>)
    requires
        ps@ == all_positions(topology@),
        forall|j: int| 0 <= j < ps@.len() ==> pos_valid(topology@, #[trigger] ps@[j]),
    ensures
        ({
            let i = first_with_iface(topology@, ps@, iface_id@, 0);
            match r {
                Some(x) => 0 <= i < ps@.len() && x@ == router_at(topology@, ps@[i]),
                None => i >= ps@.len(),
            }
        }),
{
    let mut i: usize = 0;
    while i < ps.len()
        invariant
            forall|j: int| 0 <= j < ps@.len() ==> pos_valid(topology@, #[trigger] ps@[j]),
            i <= ps@.len(),
            first_with_iface(topology@, ps@, iface_id@, i as int) == first_with_iface(
                topology@,
                ps@,
                iface_id@,
                0,
            ),
        decreases ps@.len() - i,
    {
        let router = topology.router_ref(ps[i]);
        proof {
            lemma_key_index(router@.interfaces, iface_id@);
        }
        match get_key(&router.interfaces, iface_id) {
            Some(_) => {
                return Some(router);
            },
            None => {},
        }
        i += 1;
    }
    None
}

fn push_string(v: &mut Vec<String>, s: String)
    ensures
        strings_view(final(v)@) == strings_view(old(v)@).push(s@),
{
    let ghost before = v@;
    v.push(s);
    proof {
        assert(strings_view(v@) =~= strings_view(before).push(s@));
    }
}

fn finish_flow(generator_id: String, path: Vec<String>, rate_bps: u64, blackholed: bool) -> (f:
    TrafficFlow)
    ensures
        f@ == flow_view(generator_id@, rate_bps, (strings_view(path@), blackholed)),
{
    let f = TrafficFlow { generator_id, path, rate_bps, is_blackholed: blackholed };
    proof {
        assert(f@ =~= flow_view(f.generator_id@, rate_bps, (strings_view(f.path@), blackholed)));
    }
    f
}

/// Traces the traffic of a generator on router `source_router_id` towards
/// `dest_prefix`, hop by hop through the forwarding tables.
fn trace_flow(
    topology: &Topology,
    source_router_id: &str,
    dest_prefix: &str,
    generator_id: String,
    rate_bps: u64,
) -> (f: TrafficFlow)
    ensures
        f@ == flow_view(
            generator_id@,
            rate_bps,
            trace(
                topology@,
                source_router_id@,
                dest_prefix@,
                Seq::empty(),
                Seq::empty(),
                MAX_HOPS as nat,
            ),
        ),
{
    let ghost t = topology@;
    let ghost d = dest_prefix@;
    let ghost want = trace(t, source_router_id@, d, Seq::empty(), Seq::empty(), MAX_HOPS as nat);
    let ps = topology.router_positions();
    proof {
        lemma_sizes_fit(topology);
        lemma_all_positions_valid(t);
    }
    let mut path: Vec<String> = Vec::new();
    let mut visited: Vec<String> = Vec::new();
    let mut current = string_from(source_router_id);
    proof {
        assert(strings_view(path@) =~= Seq::<Seq<char>>::empty());
        assert(strings_view(visited@) =~= Seq::<Seq<char>>::empty());
    }
    let mut fuel: usize = MAX_HOPS;
    while fuel > 0
        invariant
            t == topology@,
            d == dest_prefix@,
            ps@ == all_positions(t),
            forall|j: int| 0 <= j < ps@.len() ==> pos_valid(t, #[trigger] ps@[j]),
            fuel <= MAX_HOPS,
            want == trace(t, source_router_id@, d, Seq::empty(), Seq::empty(), MAX_HOPS as nat),
            trace(t, current@, d, strings_view(visited@), strings_view(path@), fuel as nat) == want,
        decreases fuel,
    {
        let ghost v0 = strings_view(visited@);
        let ghost c0 = current@;
        let ghost p0 = strings_view(path@);
        if contains_string(&visited, &current) {
            proof {
                assert(want == (p0, true));
            }
            return finish_flow(generator_id, path, rate_bps, true);
        }
        push_string(&mut visited, current.clone());
        let router = match topology.get_router(current.as_str()) {
            Some(r) => r,
            None => {
                proof {
                    assert(want == (p0, true));
                }
                return finish_flow(generator_id, path, rate_bps, true);
            },
        };
        let entry = match longest_prefix_match(&router.fib, dest_prefix) {
            Some(e) => e,
            None => {
                proof {
                    assert(want == (p0, true));
                }
                return finish_flow(generator_id, path, rate_bps, true);
            },
        };
        let out_iface = match get_key(&router.interfaces, &entry.out_interface_id) {
            Some(i) => i,
            None => {
                proof {
                    assert(want == (p0, true));
                }
                return finish_flow(generator_id, path, rate_bps, true);
            },
        };
        let link_id = match &out_iface.link_id {
            Some(l) => l,
            None => {
                proof {
                    assert(want == (p0, false));
                }
                return finish_flow(generator_id, path, rate_bps, false);
            },
        };
        push_string(&mut path, link_id.clone());
        let ghost p2 = p0.push(link_id@);
        let link = match get_key(&topology.links, link_id) {
            Some(l) => l,
            None => {
                proof {
                    assert(want == (p2, true));
                }
                return finish_flow(generator_id, path, rate_bps, true);
            },
        };
        if !link.is_up {
            proof {
                assert(want == (p2, true));
            }
            return finish_flow(generator_id, path, rate_bps, true);
        }
        let remote = if link.interface_a_id == out_iface.id {
            &link.interface_b_id
        } else {
            &link.interface_a_id
        };
        let next = match router_with_interface(topology, &ps, remote) {
            Some(n) => n,
            None => {
                proof {
                    assert(want == (p2, true));
                }
                return finish_flow(generator_id, path, rate_bps, true);
            },
        };
        if has_connected_prefix(next, dest_prefix) {
            proof {
                assert(want == (p2, false));
            }
            return finish_flow(generator_id, path, rate_bps, false);
        }
        current = next.id.clone();
        fuel -= 1;
        proof {
            assert(strings_view(visited@) == v0.push(c0));
        }
    }
    proof {
        assert(want == (strings_view(path@), true));
    }
    finish_flow(generator_id, path, rate_bps, true)
}


// ── Flows ──

/// The flows of the first `k` generators of a router: one per active one.
pub open spec fn router_flows(t: TopologyView, r: RouterView, k: int) -> Seq<FlowView>
    decreases k,
{
    if k <= 0 {
        Seq::empty()
    } else {
        let prev = router_flows(t, r, k - 1);
        let g = r.traffic_generators[k - 1];
        if g.is_active {
            prev.push(flow_of(t, r.id, g))
        } else {
            prev
        }
    }
}

/// The flows of the routers at the first `k` positions.
pub open spec fn flows_upto(t: TopologyView, ps: Seq<RouterPos>, k: int) -> Seq<FlowView>
    decreases k,
{
    if k <= 0 {
        Seq::empty()
    } else {
        let r = router_at(t, ps[k - 1]);
        flows_upto(t, ps, k - 1) + router_flows(t, r, r.traffic_generators.len() as int)
    }
}

/// The flow of every active generator, router by router (standalone
/// routers first, then each AS's), each traced from its router.
pub open spec fn flows_spec(t: TopologyView) -> Seq<FlowView> {
    flows_upto(t, all_positions(t), all_positions(t).len() as int)
}

pub open spec fn flows_view(f: Seq<TrafficFlow>) -> Seq<FlowView> {
    f.map_values(|x: TrafficFlow| x@)
}

/// Traces the traffic of every active generator.
pub fn compute_flows(topology: &Topology) -> (r: Vec<TrafficFlow>)
    ensures
        flows_view(r@) == flows_spec(topology@),
{
    let ghost t = topology@;
    let ps = topology.router_positions();
    proof {
        lemma_sizes_fit(topology);
        lemma_all_positions_valid(t);
    }
    let mut flows: Vec<TrafficFlow> = Vec::new();
    proof {
        assert(flows_view(flows@) =~= Seq::<FlowView>::empty());
    }
    let mut k: usize = 0;
    while k < ps.len()
        invariant
            t == topology@,
            ps@ == all_positions(t),
            forall|j: int| 0 <= j < ps@.len() ==> pos_valid(t, #[trigger] ps@[j]),
            k <= ps@.len(),
            flows_view(flows@) == flows_upto(t, ps@, k as int),
        decreases ps@.len() - k,
    {
        let router = topology.router_ref(ps[k]);
        let ghost base = flows_view(flows@);
        let ghost gv = router@.traffic_generators;
        let mut i: usize = 0;
        while i < router.traffic_generators.len()
            invariant
                t == topology@,
                router@ == router_at(t, ps@[k as int]),
                gv == router@.traffic_generators,
                gv.len() == router.traffic_generators@.len(),
                i <= gv.len(),
                flows_view(flows@) == base + router_flows(t, router@, i as int),
            decreases gv.len() - i,
        {
            let g = &router.traffic_generators[i];
            proof {
                assert(gv[i as int] == g@);
            }
            if g.is_active {
                let f = trace_flow(topology, router.id.as_str(), g.dest_prefix.as_str(), g.id.clone(), g.rate_bps);
                let ghost before = flows@;
                flows.push(f);
                proof {
                    assert(flows_view(flows@) =~= flows_view(before).push(f@));
                }
            }
            proof {
                assert(flows_view(flows@) =~= base + router_flows(t, router@, i + 1));
            }
            i += 1;
        }
        proof {
            assert(flows_view(flows@) =~= flows_upto(t, ps@, k + 1));
        }
        k += 1;
    }
    flows
}

// ── Link loads ──

/// A load raised by a rate, saturating at the largest `u128`.
pub open spec fn raised(load: u128, rate: u64) -> u128 {
    if load + rate > u128::MAX {
        u128::MAX
    } else {
        (load + rate) as u128
    }
}

/// The links with the first link keyed `id` carrying `rate` more.
pub open spec fn add_load(links: Seq<(Seq<char>, LinkView)>, id: Seq<char>, rate: u64) -> Seq<
    (Seq<char>, LinkView),
> {
    let i = key_index(links, id);
    if i < links.len() {
        links.update(
            i,
            (links[i].0, LinkView { current_load: raised(links[i].1.current_load, rate), ..links[i].1 }),
        )
    } else {
        links
    }
}

/// The loads after the first `k` links of a path carry `rate`.
pub open spec fn path_loads(
    links: Seq<(Seq<char>, LinkView)>,
    path: Seq<Seq<char>>,
    rate: u64,
    k: int,
) -> Seq<(Seq<char>, LinkView)>
    decreases k,
{
    if k <= 0 {
        links
    } else {
        add_load(path_loads(links, path, rate, k - 1), path[k - 1], rate)
    }
}

/// The loads after the first `k` flows: each flow that is delivered adds
/// its rate to every link of its path.
pub open spec fn flow_loads(links: Seq<(Seq<char>, LinkView)>, flows: Seq<FlowView>, k: int) -> Seq<
    (Seq<char>, LinkView),
>
    decreases k,
{
    if k <= 0 {
        links
    } else {
        let prev = flow_loads(links, flows, k - 1);
        let f = flows[k - 1];
        if f.is_blackholed {
            prev
        } else {
            path_loads(prev, f.path, f.rate_bps, f.path.len() as int)
        }
    }
}

/// Every link with no load.
pub open spec fn unloaded(links: Seq<(Seq<char>, LinkView)>) -> Seq<(Seq<char>, LinkView)> {
    links.map_values(|e: (Seq<char>, LinkView)| (e.0, LinkView { current_load: 0, ..e.1 }))
}

/// The topology with link loads recomputed from the flows.
pub open spec fn utilization_spec(t: TopologyView, flows: Seq<FlowView>) -> TopologyView {
    TopologyView { links: flow_loads(unloaded(t.links), flows, flows.len() as int), ..t }
}

fn add_load_exec(links: &mut Vec<(String, crate::models::Link)>, id: &String, rate: u64)
    ensures
        table_view(final(links)@) == add_load(table_view(old(links)@), id@, rate),
{
    match crate::table::find_key(links, id) {
        Some(i) => {
            let l = links[i].1.current_load;
            links[i].1.current_load = l.saturating_add(rate as u128);
        },
        None => {},
    }
}

/// Recomputes every link's load from the flows: all loads are cleared,
/// then each delivered flow adds its rate to each link of its path
/// (saturating at the largest `u128`).
pub fn update_link_utilization(topology: &mut Topology, flows: &[TrafficFlow])
    ensures
        final(topology)@ == utilization_spec(old(topology)@, flows_view(flows@)),
{
    let ghost t0 = topology@;
    let n = topology.links.len();
    let mut i: usize = 0;
    while i < n
        invariant
            n == t0.links.len(),
            i <= n,
            topology@ == (TopologyView { links: topology@.links, ..t0 }),
            topology@.links.len() == n,
            forall|j: int|
                0 <= j < n ==> #[trigger] topology@.links[j] == (if j < i {
                    unloaded(t0.links)[j]
                } else {
                    t0.links[j]
                }),
        decreases n - i,
    {
        let ghost before = topology.links@;
        proof {
            assert(table_view(before)[i as int] == t0.links[i as int]);
        }
        topology.links[i].1.current_load = 0;
        proof {
            let ol = before[i as int];
            assert(topology.links@[i as int].1@ == (LinkView { current_load: 0, ..ol.1@ }));
            assert(table_view(topology.links@)[i as int] == unloaded(t0.links)[i as int]);
            assert forall|j: int| 0 <= j < n && j != i implies #[trigger] topology@.links[j] == (
            if j < i {
                unloaded(t0.links)[j]
            } else {
                t0.links[j]
            }) by {
                assert(topology.links@[j] == before[j]);
            }
        }
        i += 1;
    }
    proof {
        assert(topology@.links =~= unloaded(t0.links));
    }
    let ghost fv = flows_view(flows@);
    let ghost base = unloaded(t0.links);
    let mut k: usize = 0;
    while k < flows.len()
        invariant
            fv == flows_view(flows@),
            base == unloaded(t0.links),
            k <= flows@.len(),
            topology@ == (TopologyView { links: topology@.links, ..t0 }),
            topology@.links == flow_loads(base, fv, k as int),
        decreases flows@.len() - k,
    {
        let f = &flows[k];
        proof {
            assert(fv[k as int] == f@);
        }
        if !f.is_blackholed {
            let ghost start = topology@.links;
            let mut j: usize = 0;
            while j < f.path.len()
                invariant
                    fv == flows_view(flows@),
                    k < flows@.len(),
                    fv[k as int] == f@,
                    j <= f.path@.len(),
                    topology@ == (TopologyView { links: topology@.links, ..t0 }),
                    topology@.links == path_loads(start, f@.path, f.rate_bps, j as int),
                decreases f.path@.len() - j,
            {
                proof {
                    assert(f@.path[j as int] == f.path@[j as int]@);
                }
                add_load_exec(&mut topology.links, &f.path[j], f.rate_bps);
                j += 1;
            }
        }
        k += 1;
    }
}


// ── Laws ──

/// A traced flow crosses at most one link per router it visits: its path
/// grows by at most `fuel` links, so a flow's path has at most
/// `MAX_HOPS` links.
pub proof fn law_trace_path_bounded(
    t: TopologyView,
    cur: Seq<char>,
    dest: Seq<char>,
    visited: Seq<Seq<char>>,
    path: Seq<Seq<char>>,
    fuel: nat,
)
    ensures
        trace(t, cur, dest, visited, path, fuel).0.len() <= path.len() + fuel,
        path.len() == 0 ==> trace(t, cur, dest, visited, path, fuel).0.len() <= fuel,
    decreases fuel,
{
    if fuel > 0 && !visited.contains(cur) {
        match router_named(t, cur) {
            Some(r) => match lpm(r.fib, dest) {
                Some(e) => match lookup(r.interfaces, e.out_interface_id) {
                    Some(oi) => match oi.link_id {
                        Some(lid) => {
                            let p2 = path.push(lid);
                            match lookup(t.links, lid) {
                                Some(l) => {
                                    let remote = if l.interface_a_id == oi.id {
                                        l.interface_b_id
                                    } else {
                                        l.interface_a_id
                                    };
                                    let ps = all_positions(t);
                                    let ni = first_with_iface(t, ps, remote, 0);
                                    if l.is_up && ni < ps.len() {
                                        law_trace_path_bounded(
                                            t,
                                            router_at(t, ps[ni]).id,
                                            dest,
                                            visited.push(cur),
                                            p2,
                                            (fuel - 1) as nat,
                                        );
                                    }
                                },
                                None => {},
                            }
                        },
                        None => {},
                    },
                    None => {},
                },
                None => {},
            },
            None => {},
        }
    }
}

/// Whether the link keyed `id` exists and is up.
pub open spec fn link_up(links: Seq<(Seq<char>, LinkView)>, id: Seq<char>) -> bool {
    lookup(links, id) matches Some(l) && l.is_up
}

/// A trace only extends the path it is given, and traffic that is
/// delivered has crossed only existing links that are up.
pub proof fn law_delivered_traffic_crosses_up_links(
    t: TopologyView,
    cur: Seq<char>,
    dest: Seq<char>,
    visited: Seq<Seq<char>>,
    path: Seq<Seq<char>>,
    fuel: nat,
)
    ensures
        ({
            let (p, dropped) = trace(t, cur, dest, visited, path, fuel);
            &&& path.len() <= p.len()
            &&& p.subrange(0, path.len() as int) == path
            &&& !dropped ==> forall|i: int| path.len() <= i < p.len() ==> link_up(t.links, #[trigger] p[i])
        }),
    decreases fuel,
{
    let (p, dropped) = trace(t, cur, dest, visited, path, fuel);
    if fuel > 0 && !visited.contains(cur) {
        match router_named(t, cur) {
            Some(r) => match lpm(r.fib, dest) {
                Some(e) => match lookup(r.interfaces, e.out_interface_id) {
                    Some(oi) => match oi.link_id {
                        Some(lid) => {
                            let p2 = path.push(lid);
                            match lookup(t.links, lid) {
                                Some(l) => {
                                    let remote = if l.interface_a_id == oi.id {
                                        l.interface_b_id
                                    } else {
                                        l.interface_a_id
                                    };
                                    let ps = all_positions(t);
                                    let ni = first_with_iface(t, ps, remote, 0);
                                    if l.is_up && ni < ps.len() && !connected_to(router_at(t, ps[ni]), dest) {
                                        law_delivered_traffic_crosses_up_links(
                                            t,
                                            router_at(t, ps[ni]).id,
                                            dest,
                                            visited.push(cur),
                                            p2,
                                            (fuel - 1) as nat,
                                        );
                                        assert(p.subrange(0, path.len() as int) =~= p.subrange(
                                            0,
                                            p2.len() as int,
                                        ).subrange(0, path.len() as int));
                                        assert(p[path.len() as int] == p2[path.len() as int]);
                                    } else {
                                        assert(p.subrange(0, path.len() as int) =~= path);
                                    }
                                },
                                None => {
                                    assert(p.subrange(0, path.len() as int) =~= path);
                                },
                            }
                        },
                        None => {
                            assert(p.subrange(0, path.len() as int) =~= path);
                        },
                    },
                    None => {
                        assert(p.subrange(0, path.len() as int) =~= path);
                    },
                },
                None => {
                    assert(p.subrange(0, path.len() as int) =~= path);
                },
            },
            None => {
                assert(p.subrange(0, path.len() as int) =~= path);
            },
        }
    } else {
        assert(p.subrange(0, path.len() as int) =~= path);
    }
}

proof fn lemma_flow_loads_prefix(
    links: Seq<(Seq<char>, LinkView)>,
    fs: Seq<FlowView>,
    f: FlowView,
    k: int,
)
    requires
        0 <= k <= fs.len(),
    ensures
        flow_loads(links, fs.push(f), k) == flow_loads(links, fs, k),
    decreases k,
{
    if k > 0 {
        lemma_flow_loads_prefix(links, fs, f, k - 1);
        assert(fs.push(f)[k - 1] == fs[k - 1]);
    }
}

/// A dropped flow loads no link: the link loads computed with it are
/// those computed without it.
pub proof fn law_dropped_flow_adds_no_load(t: TopologyView, fs: Seq<FlowView>, f: FlowView)
    requires
        f.is_blackholed,
    ensures
        utilization_spec(t, fs.push(f)) == utilization_spec(t, fs),
{
    lemma_flow_loads_prefix(unloaded(t.links), fs, f, fs.len() as int);
    assert(fs.push(f)[fs.len() as int] == f);
}

} // verus!
