//! Shortest-path-first over an OSPF link-state database: the graph of
//! routers and point-to-point links, Dijkstra (from `petgraph`), the walk
//! back to each destination's first hop, and the resulting routes.

use vstd::prelude::*;

use crate::ipv4::{ipv4_network_parse, parse_ipv4_net, Ipv4Net};
use crate::models::{
    key_index, lemma_table_view_update, table_view, Lsa, LsaBody, LsaBodyView, LsaLinkView,
    LsaType, LsaView, Router, RouterLsaLink, RouterLsaLinkType, RouterView, SpfResult, SpfView,
};
use crate::ospf::{find_interface_to_neighbor, find_local_interface, iface_on_network, iface_to_neighbor};
use crate::table::{find_key, lemma_key_index};

verus! {

broadcast use lemma_table_view_update;

// ── Shortest walks (what Dijkstra computes) ──

/// A directed edge: source node, target node, weight.
pub type Edge = (usize, usize, u32);

/// Whether `w` (edge indices) is a walk from `from` to `to`.
pub open spec fn is_walk(edges: Seq<Edge>, w: Seq<int>, from: int, to: int) -> bool {
    if w.len() == 0 {
        from == to
    } else {
        &&& forall|i: int| 0 <= i < w.len() ==> 0 <= #[trigger] w[i] < edges.len()
        &&& edges[w[0]].0 == from
        &&& edges[w[w.len() - 1]].1 == to
        &&& forall|i: int|
            0 <= i < w.len() - 1 ==> #[trigger] edges[w[i]].1 == edges[w[i + 1]].0
    }
}

/// The total weight of a walk.
pub open spec fn walk_cost(edges: Seq<Edge>, w: Seq<int>) -> int
    decreases w.len(),
{
    if w.len() == 0 {
        0
    } else {
        walk_cost(edges, w.drop_last()) + edges[w.last()].2
    }
}

/// `d` is the least cost of a walk from `start` to `v`.
pub open spec fn is_shortest(edges: Seq<Edge>, start: int, v: int, d: int) -> bool {
    &&& exists|w: Seq<int>| #[trigger] is_walk(edges, w, start, v) && walk_cost(edges, w) == d
    &&& forall|w: Seq<int>| #[trigger] is_walk(edges, w, start, v) ==> walk_cost(edges, w) >= d
}

/// The least walk cost from `start` to `v`, when `v` is reachable.
pub open spec fn dist_of(edges: Seq<Edge>, start: int, v: int) -> Option<int> {
    if exists|w: Seq<int>| #[trigger] is_walk(edges, w, start, v) {
        Some(choose|d: int| is_shortest(edges, start, v, d))
    } else {
        None
    }
}

/// The least walk costs from `start` to each of `n` nodes.
pub open spec fn dists(edges: Seq<Edge>, n: nat, start: int) -> Seq<Option<int>> {
    Seq::new(n, |v: int| dist_of(edges, start, v))
}

pub proof fn lemma_shortest_unique(edges: Seq<Edge>, start: int, v: int, d1: int, d2: int)
    requires
        is_shortest(edges, start, v, d1),
        is_shortest(edges, start, v, d2),
    ensures
        d1 == d2,
{
    let w1 = choose|w: Seq<int>| #[trigger] is_walk(edges, w, start, v) && walk_cost(edges, w) == d1;
    let w2 = choose|w: Seq<int>| #[trigger] is_walk(edges, w, start, v) && walk_cost(edges, w) == d2;
    assert(walk_cost(edges, w1) >= d2);
    assert(walk_cost(edges, w2) >= d1);
}

/// Shortest-path costs with `petgraph::algo::dijkstra` on a directed graph
/// of `node_count` nodes and the given edges (weights widened to `u128`,
/// node indices `usize`), from `start`, with no goal.  Claimed, as its
/// documentation says: a cost for exactly the nodes reachable from
/// `start`, and that cost is the least total weight of a path to the node
/// (with non-negative weights, the least weight of any walk).
#[verifier::external_body]
fn shortest_costs(node_count: usize, edges: &Vec<Edge>, start: usize) -> (r: Vec<Option<u128>>)
    requires
        start < node_count,
        forall|i: int|
            0 <= i < edges@.len() ==> (#[trigger] edges@[i]).0 < node_count && edges@[i].1
                < node_count,
    ensures
        r@.len() == node_count,
        forall|v: int|
            0 <= v < node_count ==> match #[trigger] r@[v] {
                Some(d) => is_shortest(edges@, start as int, v, d as int),
                None => forall|w: Seq<int>| !#[trigger] is_walk(edges@, w, start as int, v),
            },
{
    let mut g = petgraph::Graph::<(), u128, petgraph::Directed, usize>::with_capacity(node_count, edges.len());
    for _ in 0..node_count {
        g.add_node(());
    }
    for &(a, b, w) in edges.iter() {
        g.add_edge(petgraph::graph::NodeIndex::new(a), petgraph::graph::NodeIndex::new(b), w as u128);
    }
    let costs = petgraph::algo::dijkstra(&g, petgraph::graph::NodeIndex::new(start), None, |e| *e.weight());
    (0..node_count).map(|i| costs.get(&petgraph::graph::NodeIndex::new(i)).copied()).collect()
}

/// Costs as integers.
pub open spec fn cost_view(c: Seq<Option<u128>>) -> Seq<Option<int>> {
    c.map_values(|x: Option<u128>| match x {
        Some(v) => Some(v as int),
        None => None,
    })
}

proof fn lemma_costs_are_dists(edges: Seq<Edge>, n: nat, s: int, costs: Seq<Option<u128>>)
    requires
        costs.len() == n,
        forall|v: int|
            0 <= v < n ==> match #[trigger] costs[v] {
                Some(d) => is_shortest(edges, s, v, d as int),
                None => forall|w: Seq<int>| !#[trigger] is_walk(edges, w, s, v),
            },
    ensures
        cost_view(costs) == dists(edges, n, s),
{
    assert forall|v: int| 0 <= v < n implies cost_view(costs)[v] == dists(edges, n, s)[v] by {
        match costs[v] {
            Some(c) => {
                let w = choose|w: Seq<int>|
                    #[trigger] is_walk(edges, w, s, v) && walk_cost(edges, w) == c as int;
                assert(is_walk(edges, w, s, v));
                let dd = choose|d: int| is_shortest(edges, s, v, d);
                lemma_shortest_unique(edges, s, v, dd, c as int);
            },
            None => {},
        }
    }
    assert(cost_view(costs) =~= dists(edges, n, s));
}

// ── The graph of an LSDB ──

/// Index of the first `x` in `s` at or after `i`, or the length.
pub open spec fn pos_of(s: Seq<u32>, x: u32, i: int) -> int
    decreases s.len() - i,
{
    if i < 0 || i >= s.len() {
        s.len() as int
    } else if s[i] == x {
        i
    } else {
        pos_of(s, x, i + 1)
    }
}

proof fn lemma_pos_of(s: Seq<u32>, x: u32, i: int)
    requires
        0 <= i <= s.len(),
    ensures
        i <= pos_of(s, x, i) <= s.len(),
        pos_of(s, x, i) < s.len() ==> s[pos_of(s, x, i)] == x,
    decreases s.len() - i,
{
    if i < s.len() && s[i] != x {
        lemma_pos_of(s, x, i + 1);
    }
}

fn position(s: &Vec<u32>, x: u32) -> (r: usize)
    ensures
        r == pos_of(s@, x, 0),
        r <= s@.len(),
        r < s@.len() ==> s@[r as int] == x,
{
    proof {
        lemma_pos_of(s@, x, 0);
    }
    let mut i: usize = 0;
    while i < s.len()
        invariant
            i <= s@.len(),
            pos_of(s@, x, i as int) == pos_of(s@, x, 0),
        decreases s@.len() - i,
    {
        if s[i] == x {
            return i;
        }
        i += 1;
    }
    i
}

/// The links of a router LSA; none for any other LSA.
pub open spec fn router_links(l: LsaView) -> Seq<LsaLinkView> {
    if l.lsa_type == LsaType::RouterLsa {
        match l.body {
            LsaBodyView::Router { links } => links,
            _ => Seq::empty(),
        }
    } else {
        Seq::empty()
    }
}

/// The graph's nodes: the advertising routers of the router LSAs among
/// the first `n` LSDB entries, each once, in order of first appearance.
pub open spec fn spf_nodes(lsdb: Seq<(Seq<char>, LsaView)>, n: int) -> Seq<u32>
    decreases n,
{
    if n <= 0 {
        Seq::empty()
    } else {
        let prev = spf_nodes(lsdb, n - 1);
        let l = lsdb[n - 1].1;
        if l.lsa_type == LsaType::RouterLsa && pos_of(prev, l.advertising_router, 0) == prev.len() {
            prev.push(l.advertising_router)
        } else {
            prev
        }
    }
}

/// Offers a stub network to the prefix table: a new prefix is added with
/// its owner and metric; a known one changes owner only for a strictly
/// lower metric.
pub open spec fn offer_stub(
    t: Seq<(Seq<char>, (u32, u32))>,
    id: Seq<char>,
    owner: u32,
    metric: u32,
) -> Seq<(Seq<char>, (u32, u32))> {
    let i = key_index(t, id);
    if i < t.len() {
        if metric < t[i].1.1 {
            t.update(i, (id, (owner, metric)))
        } else {
            t
        }
    } else {
        t.push((id, (owner, metric)))
    }
}

/// The stub table keeps, for each network, the advertiser with the least
/// metric: after an offer the network is held with a metric no higher than
/// the one offered nor than the one held before (the lower of the two,
/// with the new owner only when the offer is strictly lower), and every
/// other network is held as before.
pub proof fn law_offer_keeps_least_metric(
    t: Seq<(Seq<char>, (u32, u32))>,
    id: Seq<char>,
    owner: u32,
    metric: u32,
    other: Seq<char>,
)
    ensures
        crate::models::lookup(offer_stub(t, id, owner, metric), id) matches Some(e) && e.1 <= metric && (
        crate::models::lookup(t, id) matches Some(h) ==> e.1 <= h.1 && (if metric < h.1 {
            e == (owner, metric)
        } else {
            e == h
        })) && (crate::models::lookup(t, id) is None ==> e == (owner, metric)),
        other != id ==> crate::models::lookup(offer_stub(t, id, owner, metric), other) == crate::models::lookup(
            t,
            other,
        ),
{
    let i = key_index(t, id);
    lemma_key_index(t, id);
    let r = offer_stub(t, id, owner, metric);
    if i < t.len() && metric < t[i].1.1 {
        crate::table::lemma_lookup_insert(t, id, (owner, metric), other);
        assert(r == crate::table::insert_view(t, id, (owner, metric)));
    } else if i < t.len() {
    } else {
        crate::table::lemma_lookup_insert(t, id, (owner, metric), other);
        assert(r == crate::table::insert_view(t, id, (owner, metric)));
    }
}

/// The prefix table after the stub links among the first `k` links.
pub open spec fn stub_step(
    t: Seq<(Seq<char>, (u32, u32))>,
    owner: u32,
    links: Seq<LsaLinkView>,
    k: int,
) -> Seq<(Seq<char>, (u32, u32))>
    decreases k,
{
    if k <= 0 {
        t
    } else {
        let prev = stub_step(t, owner, links, k - 1);
        let l = links[k - 1];
        if l.link_type == RouterLsaLinkType::StubNetwork {
            offer_stub(prev, l.link_id, owner, l.metric)
        } else {
            prev
        }
    }
}

/// The prefix table of the first `n` LSDB entries: each stub network's
/// text with the router that advertises it at the least metric (the
/// first such, on ties), in order of first appearance.
pub open spec fn stub_table(lsdb: Seq<(Seq<char>, LsaView)>, n: int) -> Seq<
    (Seq<char>, (u32, u32)),
>
    decreases n,
{
    if n <= 0 {
        Seq::empty()
    } else {
        let l = lsdb[n - 1].1;
        let links = router_links(l);
        stub_step(stub_table(lsdb, n - 1), l.advertising_router, links, links.len() as int)
    }
}

/// Records one end of a point-to-point link: its router and metric.
pub open spec fn add_endpoint(
    t: Seq<(Seq<char>, Seq<(u32, u32)>)>,
    id: Seq<char>,
    r: u32,
    metric: u32,
) -> Seq<(Seq<char>, Seq<(u32, u32)>)> {
    let i = key_index(t, id);
    if i < t.len() {
        t.update(i, (id, t[i].1.push((r, metric))))
    } else {
        t.push((id, seq![(r, metric)]))
    }
}

/// The endpoint table after the point-to-point links among the first `k`.
pub open spec fn endpoint_step(
    t: Seq<(Seq<char>, Seq<(u32, u32)>)>,
    r: u32,
    links: Seq<LsaLinkView>,
    k: int,
) -> Seq<(Seq<char>, Seq<(u32, u32)>)>
    decreases k,
{
    if k <= 0 {
        t
    } else {
        let prev = endpoint_step(t, r, links, k - 1);
        let l = links[k - 1];
        if l.link_type == RouterLsaLinkType::PointToPoint {
            add_endpoint(prev, l.link_id, r, l.metric)
        } else {
            prev
        }
    }
}

/// The ends of each point-to-point link named in the first `n` LSDB
/// entries, grouped by link id in order of first appearance.
pub open spec fn endpoint_table(lsdb: Seq<(Seq<char>, LsaView)>, n: int) -> Seq<
    (Seq<char>, Seq<(u32, u32)>),
>
    decreases n,
{
    if n <= 0 {
        Seq::empty()
    } else {
        let l = lsdb[n - 1].1;
        let links = router_links(l);
        endpoint_step(endpoint_table(lsdb, n - 1), l.advertising_router, links, links.len() as int)
    }
}

/// The edges of a link with exactly two ends, one each way, each weighted
/// by the metric of the end it leaves from.
pub open spec fn link_edges(nodes: Seq<u32>, ends: Seq<(u32, u32)>) -> Seq<Edge> {
    if ends.len() == 2 {
        let a = pos_of(nodes, ends[0].0, 0);
        let b = pos_of(nodes, ends[1].0, 0);
        if a < nodes.len() && b < nodes.len() {
            seq![(a as usize, b as usize, ends[0].1), (b as usize, a as usize, ends[1].1)]
        } else {
            Seq::empty()
        }
    } else {
        Seq::empty()
    }
}

/// The edges of the first `k` links, in order.
pub open spec fn spf_edges(nodes: Seq<u32>, groups: Seq<(Seq<char>, Seq<(u32, u32)>)>, k: int) -> Seq<
    Edge,
>
    decreases k,
{
    if k <= 0 {
        Seq::empty()
    } else {
        spf_edges(nodes, groups, k - 1) + link_edges(nodes, groups[k - 1].1)
    }
}

// ── First hops ──

/// The weight of the most recently added edge from `a` to `b` among the
/// first `k` edges, `u32::MAX` when there is none.
pub open spec fn last_weight(edges: Seq<Edge>, a: int, b: int, k: int) -> u32
    decreases k,
{
    if k <= 0 {
        u32::MAX
    } else if edges[k - 1].0 == a && edges[k - 1].1 == b {
        edges[k - 1].2
    } else {
        last_weight(edges, a, b, k - 1)
    }
}

/// A predecessor of `v` on a shortest walk: scanning the first `k` edges
/// into `v` from the most recently added, the first source `u` with a
/// cost such that `u`'s cost plus the weight from `u` to `v` is `v`'s.
pub open spec fn tree_pred(edges: Seq<Edge>, d: Seq<Option<int>>, v: int, k: int) -> Option<int>
    decreases k,
{
    if k <= 0 {
        None
    } else {
        let u = edges[k - 1].0 as int;
        if edges[k - 1].1 == v && d[u] is Some && d[v] is Some && d[u]->0 + last_weight(
            edges,
            u,
            v,
            edges.len() as int,
        ) == d[v]->0 {
            Some(u)
        } else {
            tree_pred(edges, d, v, k - 1)
        }
    }
}

/// Walking back from `cur` along predecessors for at most `fuel` steps:
/// the node whose predecessor is `start`, or where the walk stops.
pub open spec fn walk_back(
    edges: Seq<Edge>,
    d: Seq<Option<int>>,
    start: int,
    cur: int,
    prev: int,
    fuel: nat,
) -> int
    decreases fuel,
{
    if fuel == 0 {
        prev
    } else {
        match tree_pred(edges, d, cur, edges.len() as int) {
            Some(p) => if p == start {
                cur
            } else {
                walk_back(edges, d, start, p, cur, (fuel - 1) as nat)
            },
            None => prev,
        }
    }
}

/// The next hop towards node `v`: the first node after `start` on the
/// walk back from `v`, with the interface towards it.
pub open spec fn next_hop_of(
    r: RouterView,
    nodes: Seq<u32>,
    edges: Seq<Edge>,
    d: Seq<Option<int>>,
    start: int,
    v: int,
) -> Option<(u32, Seq<char>)> {
    if v == start || d[v] is None {
        None
    } else {
        let hop = nodes[walk_back(edges, d, start, v, v, nodes.len())];
        match iface_to_neighbor(r.interfaces, hop) {
            Some(id) => Some((hop, id)),
            None => None,
        }
    }
}

pub open spec fn hops_view(h: Seq<Option<(u32, String)>>) -> Seq<Option<(u32, Seq<char>)>> {
    h.map_values(|x: Option<(u32, String)>| match x {
        Some(p) => Some((p.0, p.1@)),
        None => None,
    })
}

// ── Routes ──

/// The route for one prefix-table entry, if any: none when its text does
/// not parse, its owner is unreachable, or the cost does not fit a `u32`;
/// for the router's own prefix, through its interface on that network;
/// otherwise through the next hop towards the owner.
pub open spec fn spf_route(
    r: RouterView,
    nodes: Seq<u32>,
    d: Seq<Option<int>>,
    hops: Seq<Option<(u32, Seq<char>)>>,
    e: (Seq<char>, (u32, u32)),
) -> Option<SpfView> {
    match ipv4_network_parse(e.0) {
        None => None,
        Some((addr, plen)) => {
            let prefix = Ipv4Net { addr, prefix: plen };
            let oi = pos_of(nodes, e.1.0, 0);
            if oi >= nodes.len() || d[oi] is None || d[oi]->0 + e.1.1 > u32::MAX {
                None
            } else {
                let total = (d[oi]->0 + e.1.1) as u32;
                if e.1.0 == r.router_id_ip {
                    let i = iface_on_network(r.interfaces, prefix, 0);
                    if i < r.interfaces.len() {
                        Some(
                            SpfView {
                                destination: prefix,
                                cost: total,
                                next_hop: r.interfaces[i].1.ip_address.addr,
                                next_hop_interface_id: r.interfaces[i].1.id,
                            },
                        )
                    } else {
                        None
                    }
                } else {
                    match hops[oi] {
                        Some((h, id)) => Some(
                            SpfView {
                                destination: prefix,
                                cost: total,
                                next_hop: h,
                                next_hop_interface_id: id,
                            },
                        ),
                        None => None,
                    }
                }
            }
        },
    }
}

/// The routes of the first `k` prefix-table entries, in order.
pub open spec fn spf_routes(
    r: RouterView,
    nodes: Seq<u32>,
    d: Seq<Option<int>>,
    hops: Seq<Option<(u32, Seq<char>)>>,
    stubs: Seq<(Seq<char>, (u32, u32))>,
    k: int,
) -> Seq<SpfView>
    decreases k,
{
    if k <= 0 {
        Seq::empty()
    } else {
        let prev = spf_routes(r, nodes, d, hops, stubs, k - 1);
        match spf_route(r, nodes, d, hops, stubs[k - 1]) {
            Some(x) => prev.push(x),
            None => prev,
        }
    }
}

/// What SPF computes for a router running OSPF: over the graph of its
/// whole LSDB, from the router's own node, one route per reachable prefix
/// (none when the router has no node).
pub open spec fn spf_spec(r: RouterView) -> Seq<SpfView> {
    let lsdb = r.ospf_process->0.lsdb;
    let nodes = spf_nodes(lsdb, lsdb.len() as int);
    let stubs = stub_table(lsdb, lsdb.len() as int);
    let groups = endpoint_table(lsdb, lsdb.len() as int);
    let edges = spf_edges(nodes, groups, groups.len() as int);
    let s = pos_of(nodes, r.router_id_ip, 0);
    if s >= nodes.len() {
        Seq::empty()
    } else {
        let d = dists(edges, nodes.len(), s);
        let hops = Seq::new(nodes.len(), |v: int| next_hop_of(r, nodes, edges, d, s, v));
        spf_routes(r, nodes, d, hops, stubs, stubs.len() as int)
    }
}

pub open spec fn spf_views(v: Seq<SpfResult>) -> Seq<SpfView> {
    v.map_values(|x: SpfResult| x@)
}


// ── Building the graph ──

fn spf_node_list(lsdb: &Vec<(String, Lsa)>) -> (r: Vec<u32>)
    ensures
        r@ == spf_nodes(table_view(lsdb@), lsdb@.len() as int),
{
    let ghost tv = table_view(lsdb@);
    let mut nodes: Vec<u32> = Vec::new();
    let mut i: usize = 0;
    while i < lsdb.len()
        invariant
            tv == table_view(lsdb@),
            i <= lsdb@.len(),
            nodes@ == spf_nodes(tv, i as int),
        decreases lsdb@.len() - i,
    {
        let l = &lsdb[i].1;
        proof {
            assert(tv[i as int].1 == l@);
        }
        if l.lsa_type == LsaType::RouterLsa {
            let p = position(&nodes, l.advertising_router);
            if p == nodes.len() {
                nodes.push(l.advertising_router);
            }
        }
        i += 1;
    }
    nodes
}

fn offer_stub_exec(t: &mut Vec<(String, (u32, u32))>, id: &String, owner: u32, metric: u32)
    ensures
        table_view(final(t)@) == offer_stub(table_view(old(t)@), id@, owner, metric),
{
    proof {
        lemma_key_index(table_view(t@), id@);
    }
    match find_key(t, id) {
        Some(j) => {
            if metric < t[j].1.1 {
                t.set(j, (id.clone(), (owner, metric)));
            }
        },
        None => {
            let ghost before = t@;
            t.push((id.clone(), (owner, metric)));
            proof {
                assert(table_view(t@) =~= table_view(before).push((id@, (owner, metric))));
            }
        },
    }
}

fn stub_links_exec(t: &mut Vec<(String, (u32, u32))>, owner: u32, links: &Vec<RouterLsaLink>)
    ensures
        table_view(final(t)@) == stub_step(
            table_view(old(t)@),
            owner,
            links@.map_values(|l: RouterLsaLink| l@),
            links@.len() as int,
        ),
{
    let ghost t0 = table_view(t@);
    let ghost lv = links@.map_values(|l: RouterLsaLink| l@);
    let mut k: usize = 0;
    while k < links.len()
        invariant
            k <= links@.len(),
            lv == links@.map_values(|l: RouterLsaLink| l@),
            t0 == table_view(old(t)@),
            table_view(t@) == stub_step(t0, owner, lv, k as int),
        decreases links@.len() - k,
    {
        let l = &links[k];
        proof {
            assert(lv[k as int] == l@);
        }
        if l.link_type == RouterLsaLinkType::StubNetwork {
            offer_stub_exec(t, &l.link_id, owner, l.metric);
        }
        k += 1;
    }
}

fn stub_table_exec(lsdb: &Vec<(String, Lsa)>) -> (r: Vec<(String, (u32, u32))>)
    ensures
        table_view(r@) == stub_table(table_view(lsdb@), lsdb@.len() as int),
{
    let ghost tv = table_view(lsdb@);
    let mut t: Vec<(String, (u32, u32))> = Vec::new();
    proof {
        assert(table_view(t@) =~= Seq::<(Seq<char>, (u32, u32))>::empty());
    }
    let mut i: usize = 0;
    while i < lsdb.len()
        invariant
            tv == table_view(lsdb@),
            i <= lsdb@.len(),
            table_view(t@) == stub_table(tv, i as int),
        decreases lsdb@.len() - i,
    {
        let l = &lsdb[i].1;
        proof {
            assert(tv[i as int].1 == l@);
        }
        if l.lsa_type == LsaType::RouterLsa {
            match &l.body {
                LsaBody::Router { links } => {
                    stub_links_exec(&mut t, l.advertising_router, links);
                },
                _ => {},
            }
        }
        i += 1;
    }
    t
}

fn add_endpoint_exec(t: &mut Vec<(String, Vec<(u32, u32)>)>, id: &String, r: u32, metric: u32)
    ensures
        table_view(final(t)@) == add_endpoint(table_view(old(t)@), id@, r, metric),
{
    proof {
        lemma_key_index(table_view(t@), id@);
    }
    let ghost before = t@;
    match find_key(t, id) {
        Some(j) => {
            t[j].1.push((r, metric));
            proof {
                assert(table_view(t@) =~= table_view(before).update(
                    j as int,
                    (id@, table_view(before)[j as int].1.push((r, metric))),
                ));
            }
        },
        None => {
            let mut ends: Vec<(u32, u32)> = Vec::new();
            ends.push((r, metric));
            t.push((id.clone(), ends));
            proof {
                assert(table_view(t@) =~= table_view(before).push((id@, seq![(r, metric)])));
            }
        },
    }
}

fn endpoint_links_exec(t: &mut Vec<(String, Vec<(u32, u32)>)>, r: u32, links: &Vec<RouterLsaLink>)
    ensures
        table_view(final(t)@) == endpoint_step(
            table_view(old(t)@),
            r,
            links@.map_values(|l: RouterLsaLink| l@),
            links@.len() as int,
        ),
{
    let ghost t0 = table_view(t@);
    let ghost lv = links@.map_values(|l: RouterLsaLink| l@);
    let mut k: usize = 0;
    while k < links.len()
        invariant
            k <= links@.len(),
            lv == links@.map_values(|l: RouterLsaLink| l@),
            t0 == table_view(old(t)@),
            table_view(t@) == endpoint_step(t0, r, lv, k as int),
        decreases links@.len() - k,
    {
        let l = &links[k];
        proof {
            assert(lv[k as int] == l@);
        }
        if l.link_type == RouterLsaLinkType::PointToPoint {
            add_endpoint_exec(t, &l.link_id, r, l.metric);
        }
        k += 1;
    }
}

fn endpoint_table_exec(lsdb: &Vec<(String, Lsa)>) -> (r: Vec<(String, Vec<(u32, u32)>)>)
    ensures
        table_view(r@) == endpoint_table(table_view(lsdb@), lsdb@.len() as int),
{
    let ghost tv = table_view(lsdb@);
    let mut t: Vec<(String, Vec<(u32, u32)>)> = Vec::new();
    proof {
        assert(table_view(t@) =~= Seq::<(Seq<char>, Seq<(u32, u32)>)>::empty());
    }
    let mut i: usize = 0;
    while i < lsdb.len()
        invariant
            tv == table_view(lsdb@),
            i <= lsdb@.len(),
            table_view(t@) == endpoint_table(tv, i as int),
        decreases lsdb@.len() - i,
    {
        let l = &lsdb[i].1;
        proof {
            assert(tv[i as int].1 == l@);
        }
        if l.lsa_type == LsaType::RouterLsa {
            match &l.body {
                LsaBody::Router { links } => {
                    endpoint_links_exec(&mut t, l.advertising_router, links);
                },
                _ => {},
            }
        }
        i += 1;
    }
    t
}

/// Whether every edge runs between nodes below `n`.
pub open spec fn edges_within(edges: Seq<Edge>, n: nat) -> bool {
    forall|i: int| 0 <= i < edges.len() ==> (#[trigger] edges[i]).0 < n && edges[i].1 < n
}

fn build_edges(nodes: &Vec<u32>, groups: &Vec<(String, Vec<(u32, u32)>)>) -> (r: Vec<Edge>)
    ensures
        r@ == spf_edges(nodes@, table_view(groups@), groups@.len() as int),
        edges_within(r@, nodes@.len()),
{
    let ghost gv = table_view(groups@);
    let mut edges: Vec<Edge> = Vec::new();
    let mut k: usize = 0;
    while k < groups.len()
        invariant
            gv == table_view(groups@),
            k <= groups@.len(),
            edges@ == spf_edges(nodes@, gv, k as int),
            edges_within(edges@, nodes@.len()),
        decreases groups@.len() - k,
    {
        let ends = &groups[k].1;
        proof {
            assert(gv[k as int].1 == ends@);
        }
        let ghost before = edges@;
        if ends.len() == 2 {
            let a = position(nodes, ends[0].0);
            let b = position(nodes, ends[1].0);
            if a < nodes.len() && b < nodes.len() {
                edges.push((a, b, ends[0].1));
                edges.push((b, a, ends[1].1));
            }
        }
        proof {
            assert(edges@ =~= before + link_edges(nodes@, gv[k as int].1));
        }
        k += 1;
    }
    edges
}

// ── Walking back to first hops ──

fn last_weight_exec(edges: &Vec<Edge>, a: usize, b: usize) -> (r: u32)
    ensures
        r == last_weight(edges@, a as int, b as int, edges@.len() as int),
{
    let mut k: usize = edges.len();
    while k > 0
        invariant
            k <= edges@.len(),
            last_weight(edges@, a as int, b as int, k as int) == last_weight(
                edges@,
                a as int,
                b as int,
                edges@.len() as int,
            ),
        decreases k,
    {
        let e = edges[k - 1];
        if e.0 == a && e.1 == b {
            return e.2;
        }
        k -= 1;
    }
    u32::MAX
}

fn tree_pred_exec(edges: &Vec<Edge>, costs: &Vec<Option<u128>>, v: usize) -> (r: Option<usize>)
    requires
        v < costs@.len(),
        edges_within(edges@, costs@.len()),
    ensures
        match r {
            Some(u) => tree_pred(edges@, cost_view(costs@), v as int, edges@.len() as int) == Some(
                u as int,
            ) && u < costs@.len(),
            None => tree_pred(edges@, cost_view(costs@), v as int, edges@.len() as int) is None,
        },
{
    let ghost d = cost_view(costs@);
    let mut k: usize = edges.len();
    while k > 0
        invariant
            k <= edges@.len(),
            v < costs@.len(),
            d == cost_view(costs@),
            edges_within(edges@, costs@.len()),
            tree_pred(edges@, d, v as int, k as int) == tree_pred(
                edges@,
                d,
                v as int,
                edges@.len() as int,
            ),
        decreases k,
    {
        let e = edges[k - 1];
        proof {
            assert(edges@[k - 1] == e);
        }
        if e.1 == v {
            match costs[e.0] {
                Some(nc) => {
                    match costs[v] {
                        Some(cc) => {
                            let w = last_weight_exec(edges, e.0, v);
                            match nc.checked_add(w as u128) {
                                Some(sum) => {
                                    if sum == cc {
                                        return Some(e.0);
                                    }
                                },
                                None => {},
                            }
                        },
                        None => {},
                    }
                },
                None => {},
            }
        }
        k -= 1;
    }
    None
}

fn walk_back_exec(edges: &Vec<Edge>, costs: &Vec<Option<u128>>, start: usize, v: usize) -> (r:
    usize)
    requires
        v < costs@.len(),
        start < costs@.len(),
        edges_within(edges@, costs@.len()),
    ensures
        r as int == walk_back(
            edges@,
            cost_view(costs@),
            start as int,
            v as int,
            v as int,
            costs@.len() as nat,
        ),
        r < costs@.len(),
{
    let ghost d = cost_view(costs@);
    let mut cur: usize = v;
    let mut prev: usize = v;
    let mut fuel: usize = costs.len();
    while fuel > 0
        invariant
            cur < costs@.len(),
            prev < costs@.len(),
            start < costs@.len(),
            d == cost_view(costs@),
            edges_within(edges@, costs@.len()),
            walk_back(edges@, d, start as int, cur as int, prev as int, fuel as nat) == walk_back(
                edges@,
                d,
                start as int,
                v as int,
                v as int,
                costs@.len() as nat,
            ),
        decreases fuel,
    {
        match tree_pred_exec(edges, costs, cur) {
            Some(p) => {
                if p == start {
                    return cur;
                }
                prev = cur;
                cur = p;
                fuel -= 1;
            },
            None => {
                return prev;
            },
        }
    }
    prev
}

/// The next hop towards each node of the graph, by node index.
fn compute_next_hops(
    router: &Router,
    nodes: &Vec<u32>,
    edges: &Vec<Edge>,
    costs: &Vec<Option<u128>>,
    start: usize,
) -> (r: Vec<Option<(u32, String)>>)
    requires
        nodes@.len() == costs@.len(),
        start < costs@.len(),
        edges_within(edges@, costs@.len()),
    ensures
        hops_view(r@) == Seq::new(
            nodes@.len(),
            |v: int| next_hop_of(router@, nodes@, edges@, cost_view(costs@), start as int, v),
        ),
{
    let ghost d = cost_view(costs@);
    let ghost want = Seq::new(
        nodes@.len(),
        |v: int| next_hop_of(router@, nodes@, edges@, d, start as int, v),
    );
    let mut hops: Vec<Option<(u32, String)>> = Vec::new();
    let mut v: usize = 0;
    while v < nodes.len()
        invariant
            nodes@.len() == costs@.len(),
            start < costs@.len(),
            edges_within(edges@, costs@.len()),
            d == cost_view(costs@),
            want == Seq::new(
                nodes@.len(),
                |v: int| next_hop_of(router@, nodes@, edges@, d, start as int, v),
            ),
            v <= nodes@.len(),
            hops_view(hops@) == want.take(v as int),
        decreases nodes@.len() - v,
    {
        let ghost before = hops@;
        proof {
            assert(d[v as int] is None <==> costs@[v as int] is None);
        }
        let h: Option<(u32, String)> = if v == start || costs[v].is_none() {
            None
        } else {
            let p = walk_back_exec(edges, costs, start, v);
            let hop = nodes[p];
            match find_interface_to_neighbor(router, hop) {
                Some(id) => Some((hop, id)),
                None => None,
            }
        };
        proof {
            assert(hops_view(seq![h]) =~= seq![want[v as int]]);
        }
        hops.push(h);
        proof {
            assert(hops_view(hops@) =~= hops_view(before) + hops_view(seq![h]));
            assert(want.take(v as int + 1) =~= want.take(v as int) + seq![want[v as int]]);
        }
        v += 1;
    }
    proof {
        assert(want.take(nodes@.len() as int) =~= want);
    }
    hops
}


// ── Routes ──

fn push_route(out: &mut Vec<SpfResult>, x: SpfResult)
    ensures
        spf_views(final(out)@) == spf_views(old(out)@).push(x@),
{
    let ghost before = out@;
    out.push(x);
    proof {
        assert(spf_views(out@) =~= spf_views(before).push(x@));
    }
}

fn spf_routes_exec(
    router: &Router,
    nodes: &Vec<u32>,
    costs: &Vec<Option<u128>>,
    hops: &Vec<Option<(u32, String)>>,
    stubs: &Vec<(String, (u32, u32))>,
) -> (r: Vec<SpfResult>)
    requires
        nodes@.len() == costs@.len(),
        hops@.len() == nodes@.len(),
    ensures
        spf_views(r@) == spf_routes(
            router@,
            nodes@,
            cost_view(costs@),
            hops_view(hops@),
            table_view(stubs@),
            stubs@.len() as int,
        ),
{
    let ghost d = cost_view(costs@);
    let ghost hv = hops_view(hops@);
    let ghost sv = table_view(stubs@);
    let mut out: Vec<SpfResult> = Vec::new();
    proof {
        assert(spf_views(out@) =~= Seq::<SpfView>::empty());
    }
    let mut k: usize = 0;
    while k < stubs.len()
        invariant
            nodes@.len() == costs@.len(),
            hops@.len() == nodes@.len(),
            d == cost_view(costs@),
            hv == hops_view(hops@),
            sv == table_view(stubs@),
            k <= stubs@.len(),
            spf_views(out@) == spf_routes(router@, nodes@, d, hv, sv, k as int),
        decreases stubs@.len() - k,
    {
        let e = &stubs[k];
        let owner = e.1.0;
        let stub_cost = e.1.1;
        proof {
            assert(sv[k as int] == (e.0@, (owner, stub_cost)));
        }
        match parse_ipv4_net(e.0.as_str()) {
            None => {},
            Some(prefix) => {
                let oi = position(nodes, owner);
                if oi < nodes.len() {
                    proof {
                        assert(d[oi as int] is None <==> costs@[oi as int] is None);
                    }
                    match costs[oi] {
                        Some(c) => {
                            match c.checked_add(stub_cost as u128) {
                                Some(total) => {
                                    if total <= 0xffff_ffffu128 {
                                        let cost = total as u32;
                                        if owner == router.router_id_ip {
                                            match find_local_interface(router, &prefix) {
                                                Some((a, id)) => {
                                                    push_route(
                                                        &mut out,
                                                        SpfResult {
                                                            destination: prefix,
                                                            cost,
                                                            next_hop: a,
                                                            next_hop_interface_id: id,
                                                        },
                                                    );
                                                },
                                                None => {},
                                            }
                                        } else {
                                            match &hops[oi] {
                                                Some((h, id)) => {
                                                    proof {
                                                        assert(hv[oi as int] == Some((*h, id@)));
                                                    }
                                                    push_route(
                                                        &mut out,
                                                        SpfResult {
                                                            destination: prefix,
                                                            cost,
                                                            next_hop: *h,
                                                            next_hop_interface_id: id.clone(),
                                                        },
                                                    );
                                                },
                                                None => {
                                                    proof {
                                                        assert(hv[oi as int] is None);
                                                    }
                                                },
                                            }
                                        }
                                    }
                                },
                                None => {},
                            }
                        },
                        None => {},
                    }
                }
            },
        }
        k += 1;
    }
    out
}

/// Runs SPF (Dijkstra) for a router over its link-state database and
/// returns a route for each reachable prefix.  The whole LSDB is one
/// graph, whatever the area: nodes are the routers of its router LSAs,
/// and each point-to-point link named by exactly two link records gives
/// an edge each way.  A prefix whose cost would not fit a `u32` gets no
/// route.
pub fn run_spf(router: &Router, _area_id: u32) -> (r: Vec<SpfResult>)
    requires
        router@.ospf_process is Some,
    ensures
        spf_views(r@) == spf_spec(router@),
{
    let ospf = router.ospf_process.as_ref().unwrap();
    let ghost lsdb = router@.ospf_process->0.lsdb;
    proof {
        assert(lsdb == table_view(ospf.lsdb@));
    }
    let nodes = spf_node_list(&ospf.lsdb);
    let stubs = stub_table_exec(&ospf.lsdb);
    let groups = endpoint_table_exec(&ospf.lsdb);
    let edges = build_edges(&nodes, &groups);
    let s = position(&nodes, router.router_id_ip);
    if s == nodes.len() {
        return Vec::new();
    }
    let costs = shortest_costs(nodes.len(), &edges, s);
    proof {
        lemma_costs_are_dists(edges@, nodes@.len(), s as int, costs@);
    }
    let hops = compute_next_hops(router, &nodes, &edges, &costs, s);
    proof {
        assert(hops_view(hops@).len() == hops@.len());
    }
    let r = spf_routes_exec(router, &nodes, &costs, &hops, &stubs);
    proof {
        let d = dists(edges@, nodes@.len(), s as int);
        assert(hops_view(hops@) == Seq::new(
            nodes@.len(),
            |v: int| next_hop_of(router@, nodes@, edges@, d, s as int, v),
        ));
    }
    r
}


// ── Laws ──

proof fn lemma_walk_cost_nonneg(edges: Seq<Edge>, w: Seq<int>)
    ensures
        walk_cost(edges, w) >= 0,
    decreases w.len(),
{
    if w.len() > 0 {
        lemma_walk_cost_nonneg(edges, w.drop_last());
    }
}

/// A router is at distance 0 from itself: the only shortest walk from a
/// node to itself costs nothing, since no edge has a negative weight.
pub proof fn law_own_distance_zero(edges: Seq<Edge>, n: nat, s: int)
    requires
        0 <= s < n,
    ensures
        dists(edges, n, s)[s] == Some(0int),
{
    let empty = Seq::<int>::empty();
    assert(is_walk(edges, empty, s, s));
    assert(walk_cost(edges, empty) == 0);
    assert forall|w: Seq<int>| #[trigger] is_walk(edges, w, s, s) implies walk_cost(edges, w) >= 0 by {
        lemma_walk_cost_nonneg(edges, w);
    }
    assert(is_shortest(edges, s, s, 0));
    let d = choose|d: int| is_shortest(edges, s, s, d);
    lemma_shortest_unique(edges, s, s, d, 0);
}

} // verus!
