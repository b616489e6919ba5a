//! The layout of a GNS3 project exported from the network: one node per
//! router (standalone routers first, then each AS's), one port per
//! interface numbered in interface-id order, and one link per network link
//! whose two interfaces both belong to exported routers.  Node ids,
//! positions and the file encoding are added by the service.

use vstd::prelude::*;

use crate::export::{interface_order, lemma_ordered_len, order_view, ordered_interfaces};
use crate::ipv4::{net_string, net_text};
use crate::models::{InterfaceView, Link, LinkView, RouterView, Topology, TopologyView};
use crate::text::{decimal, push_decimal, push_str, string_from};
use crate::topology::{all_positions, router_at};

verus! {

/// A port of an exported router node.
#[derive(Debug)]
pub struct Gns3PortSpec {
    pub port_number: usize,
    pub name: String,
    pub short_name: String,
    pub description: String,
    pub interface_id: String,
}

pub struct PortSpecView {
    pub port_number: int,
    pub name: Seq<char>,
    pub short_name: Seq<char>,
    pub description: Seq<char>,
    pub interface_id: Seq<char>,
}

impl View for Gns3PortSpec {
    type V = PortSpecView;

    open spec fn view(&self) -> PortSpecView {
        PortSpecView {
            port_number: self.port_number as int,
            name: self.name@,
            short_name: self.short_name@,
            description: self.description@,
            interface_id: self.interface_id@,
        }
    }
}

/// The two ends of an exported link: each a node (by its index among the
/// exported routers) and a port number on it.
#[derive(Debug, Clone, Copy, PartialEq, Eq, Structural)]
pub struct Gns3LinkEnds {
    pub node_a: usize,
    pub port_a: usize,
    pub node_b: usize,
    pub port_b: usize,
}

/// The ports of each exported router, in router order, and the links.
#[derive(Debug)]
pub struct Gns3Layout {
    pub node_ports: Vec<Vec<Gns3PortSpec>>,
    pub links: Vec<Gns3LinkEnds>,
}

pub open spec fn ports_view(v: Seq<Gns3PortSpec>) -> Seq<PortSpecView> {
    v.map_values(|p: Gns3PortSpec| p@)
}

pub struct LayoutView {
    pub node_ports: Seq<Seq<PortSpecView>>,
    pub links: Seq<Gns3LinkEnds>,
}

impl View for Gns3Layout {
    type V = LayoutView;

    open spec fn view(&self) -> LayoutView {
        LayoutView {
            node_ports: self.node_ports@.map_values(|v: Vec<Gns3PortSpec>| ports_view(v@)),
            links: self.links@,
        }
    }
}

// ── The layout, as spec ──

/// Port `j` of a node, for the interface `e` (id and interface): named
/// `Ethernet<j>` (short `e<j>`) and described as `<id> - <a.b.c.d/len>`.
pub open spec fn port_spec(j: int, e: (Seq<char>, InterfaceView)) -> PortSpecView {
    PortSpecView {
        port_number: j,
        name: "Ethernet"@ + decimal(j as nat),
        short_name: "e"@ + decimal(j as nat),
        description: e.0 + " - "@ + net_text(e.1.ip_address),
        interface_id: e.0,
    }
}

/// A router's ports: its interfaces in id order, numbered from 0.
pub open spec fn node_ports(r: RouterView) -> Seq<PortSpecView> {
    let ord = ordered_interfaces(r);
    Seq::new(ord.len(), |j: int| port_spec(j, ord[j]))
}

/// Every port of the first `k` exported routers, as (node, port,
/// interface id), node by node.
pub open spec fn port_entries(t: TopologyView, k: int) -> Seq<(int, int, Seq<char>)>
    decreases k,
{
    if k <= 0 {
        Seq::empty()
    } else {
        let ord = ordered_interfaces(router_at(t, all_positions(t)[k - 1]));
        port_entries(t, k - 1) + Seq::new(ord.len(), |j: int| (k - 1, j, ord[j].0))
    }
}

/// The node and port of an interface: those of its last entry.
pub open spec fn find_port(entries: Seq<(int, int, Seq<char>)>, id: Seq<char>) -> Option<(int, int)>
    decreases entries.len(),
{
    if entries.len() == 0 {
        None
    } else if entries.last().2 == id {
        Some((entries.last().0, entries.last().1))
    } else {
        find_port(entries.drop_last(), id)
    }
}

/// The exported links among the first `n` network links: those whose
/// two interfaces both have ports.
pub open spec fn layout_links(
    links: Seq<(Seq<char>, LinkView)>,
    entries: Seq<(int, int, Seq<char>)>,
    n: int,
) -> Seq<Gns3LinkEnds>
    decreases n,
{
    if n <= 0 {
        Seq::empty()
    } else {
        let prev = layout_links(links, entries, n - 1);
        let l = links[n - 1].1;
        match (find_port(entries, l.interface_a_id), find_port(entries, l.interface_b_id)) {
            (Some((na, pa)), Some((nb, pb))) => prev.push(
                Gns3LinkEnds {
                    node_a: na as usize,
                    port_a: pa as usize,
                    node_b: nb as usize,
                    port_b: pb as usize,
                },
            ),
            _ => prev,
        }
    }
}

/// The project layout of a network.
pub open spec fn layout_spec(t: TopologyView) -> LayoutView {
    let ps = all_positions(t);
    LayoutView {
        node_ports: Seq::new(ps.len(), |k: int| node_ports(router_at(t, ps[k]))),
        links: layout_links(t.links, port_entries(t, ps.len() as int), t.links.len() as int),
    }
}

// ── Computing it ──

/// The ports of one router, from its interfaces in id order.
fn router_ports(router: &crate::models::Router) -> (r: Vec<Gns3PortSpec>)
    ensures
        ports_view(r@) == node_ports(router@),
{
    let order = interface_order(router);
    let ghost ord = ordered_interfaces(router@);
    let mut out: Vec<Gns3PortSpec> = Vec::new();
    let mut j: usize = 0;
    while j < order.len()
        invariant
            ord == ordered_interfaces(router@),
            order_view(router@.interfaces, order@) == ord,
            order@.len() == router@.interfaces.len(),
            forall|i: int| 0 <= i < order@.len() ==> order@[i] < router@.interfaces.len(),
            j <= order@.len(),
            ports_view(out@) == Seq::new(j as nat, |i: int| port_spec(i, ord[i])),
        decreases order@.len() - j,
    {
        let idx = order[j];
        let (id, iface) = &router.interfaces[idx];
        proof {
            assert(ord[j as int] == router@.interfaces[idx as int]);
            assert(router@.interfaces[idx as int] == (id@, iface@));
        }
        let mut name = string_from("Ethernet");
        push_decimal(&mut name, j as u64);
        let mut short_name = string_from("e");
        push_decimal(&mut short_name, j as u64);
        let mut description = id.clone();
        push_str(&mut description, " - ");
        let net = net_string(&iface.ip_address);
        push_str(&mut description, net.as_str());
        let ghost before = out@;
        out.push(Gns3PortSpec { port_number: j, name, short_name, description, interface_id: id.clone() });
        proof {
            assert(ports_view(out@) =~= ports_view(before).push(port_spec(j as int, ord[j as int])));
            assert(Seq::new((j + 1) as nat, |i: int| port_spec(i, ord[i])) =~= Seq::new(
                j as nat,
                |i: int| port_spec(i, ord[i]),
            ).push(port_spec(j as int, ord[j as int])));
        }
        j += 1;
    }
    proof {
        assert(ord.len() == order@.len()) by {
            assert(order_view(router@.interfaces, order@).len() == order@.len());
        }
    }
    out
}

/// The last port entry for an interface id.
fn find_port_exec(entries: &Vec<(usize, usize, String)>, id: &String) -> (r: Option<(usize, usize)>)
    ensures
        match find_port(entries@.map_values(|e: (usize, usize, String)| (e.0 as int, e.1 as int, e.2@)), id@) {
            Some((n, p)) => r == Some((n as usize, p as usize)),
            None => r is None,
        },
{
    let ghost ev = entries@.map_values(|e: (usize, usize, String)| (e.0 as int, e.1 as int, e.2@));
    let mut i: usize = entries.len();
    proof {
        assert(ev.take(i as int) =~= ev);
    }
    while i > 0
        invariant
            ev == entries@.map_values(|e: (usize, usize, String)| (e.0 as int, e.1 as int, e.2@)),
            i <= entries@.len(),
            find_port(ev, id@) == find_port(ev.take(i as int), id@),
        decreases i,
    {
        let e = &entries[i - 1];
        proof {
            assert(ev.take(i as int).last() == ev[i - 1]);
            assert(ev.take(i as int).drop_last() =~= ev.take(i - 1));
        }
        if e.2 == *id {
            return Some((e.0, e.1));
        }
        i -= 1;
    }
    None
}

/// The GNS3 project layout of the network (see `layout_spec`).
pub fn gns3_layout(topology: &Topology) -> (r: Gns3Layout)
    ensures
        r@ == layout_spec(topology@),
{
    let routers = topology.all_routers();
    let ghost t = topology@;
    let ghost ps = all_positions(t);
    let mut node_ports_out: Vec<Vec<Gns3PortSpec>> = Vec::new();
    let mut entries: Vec<(usize, usize, String)> = Vec::new();
    let mut k: usize = 0;
    while k < routers.len()
        invariant
            t == topology@,
            ps == all_positions(t),
            routers@.len() == ps.len(),
            forall|i: int| 0 <= i < routers@.len() ==> (#[trigger] routers@[i])@ == router_at(t, ps[i]),
            k <= routers@.len(),
            node_ports_out@.map_values(|v: Vec<Gns3PortSpec>| ports_view(v@)) == Seq::new(
                k as nat,
                |i: int| node_ports(router_at(t, ps[i])),
            ),
            entries@.map_values(|e: (usize, usize, String)| (e.0 as int, e.1 as int, e.2@))
                == port_entries(t, k as int),
        decreases routers@.len() - k,
    {
        let router = routers[k];
        let ports = router_ports(router);
        let ghost ord = ordered_interfaces(router_at(t, ps[k as int]));
        let ghost e0 = entries@;
        proof {
            assert(ports_view(ports@).len() == ports@.len());
            assert(node_ports(router_at(t, ps[k as int])).len() == ord.len());
        }
        let mut j: usize = 0;
        while j < ports.len()
            invariant
                k < ps.len(),
                ports@.len() == ord.len(),
                ports_view(ports@) == node_ports(router_at(t, ps[k as int])),
                ord == ordered_interfaces(router_at(t, ps[k as int])),
                j <= ports@.len(),
                entries@.map_values(|e: (usize, usize, String)| (e.0 as int, e.1 as int, e.2@))
                    == e0.map_values(|e: (usize, usize, String)| (e.0 as int, e.1 as int, e.2@))
                    + Seq::new(j as nat, |i: int| (k as int, i, ord[i].0)),
            decreases ports@.len() - j,
        {
            let ghost before = entries@;
            proof {
                assert(ports_view(ports@)[j as int] == ports@[j as int]@);
                assert(node_ports(router_at(t, ps[k as int]))[j as int] == port_spec(j as int, ord[j as int]));
            }
            entries.push((k, j, ports[j].interface_id.clone()));
            proof {
                let f = |e: (usize, usize, String)| (e.0 as int, e.1 as int, e.2@);
                assert(entries@.map_values(f) =~= before.map_values(f).push((k as int, j as int, ord[j as int].0)));
                assert(Seq::new((j + 1) as nat, |i: int| (k as int, i, ord[i].0)) =~= Seq::new(
                    j as nat,
                    |i: int| (k as int, i, ord[i].0),
                ).push((k as int, j as int, ord[j as int].0)));
                assert(e0.map_values(f) + Seq::new((j + 1) as nat, |i: int| (k as int, i, ord[i].0))
                    =~= (e0.map_values(f) + Seq::new(j as nat, |i: int| (k as int, i, ord[i].0))).push(
                    (k as int, j as int, ord[j as int].0),
                ));
            }
            j += 1;
        }
        proof {
            assert(ports_view(ports@).len() == ports@.len());
            assert(Seq::new(j as nat, |i: int| (k as int, i, ord[i].0)) =~= Seq::new(
                ord.len(),
                |i: int| (k as int, i, ord[i].0),
            ));
            assert(port_entries(t, k + 1) == port_entries(t, k as int) + Seq::new(
                ord.len(),
                |i: int| (k as int, i, ord[i].0),
            ));
        }
        let ghost nbefore = node_ports_out@;
        node_ports_out.push(ports);
        proof {
            let g = |v: Vec<Gns3PortSpec>| ports_view(v@);
            assert(node_ports_out@.map_values(g) =~= nbefore.map_values(g).push(
                node_ports(router_at(t, ps[k as int])),
            ));
            assert(Seq::new((k + 1) as nat, |i: int| node_ports(router_at(t, ps[i]))) =~= Seq::new(
                k as nat,
                |i: int| node_ports(router_at(t, ps[i])),
            ).push(node_ports(router_at(t, ps[k as int]))));
        }
        k += 1;
    }
    let ghost ev = port_entries(t, ps.len() as int);
    let mut links: Vec<Gns3LinkEnds> = Vec::new();
    let mut n: usize = 0;
    while n < topology.links.len()
        invariant
            t == topology@,
            ps == all_positions(t),
            ev == port_entries(t, ps.len() as int),
            entries@.map_values(|e: (usize, usize, String)| (e.0 as int, e.1 as int, e.2@)) == ev,
            n <= topology.links@.len(),
            links@ == layout_links(t.links, ev, n as int),
        decreases topology.links@.len() - n,
    {
        let l: &Link = &topology.links[n].1;
        proof {
            assert(t.links[n as int].1 == l@);
        }
        let a = find_port_exec(&entries, &l.interface_a_id);
        let b = find_port_exec(&entries, &l.interface_b_id);
        match (a, b) {
            (Some((na, pa)), Some((nb, pb))) => {
                links.push(Gns3LinkEnds { node_a: na, port_a: pa, node_b: nb, port_b: pb });
            },
            _ => {},
        }
        n += 1;
    }
    let r = Gns3Layout { node_ports: node_ports_out, links };
    proof {
        assert(r@.node_ports =~= layout_spec(t).node_ports);
    }
    r
}

// ── Laws ──

proof fn lemma_port_entries(t: TopologyView, k: int)
    requires
        0 <= k <= all_positions(t).len(),
    ensures
        forall|x: int|
            0 <= x < port_entries(t, k).len() ==> {
                let e = #[trigger] port_entries(t, k)[x];
                let ord = ordered_interfaces(router_at(t, all_positions(t)[e.0]));
                &&& 0 <= e.0 < k
                &&& 0 <= e.1 < ord.len()
                &&& ord[e.1].0 == e.2
            },
    decreases k,
{
    if k > 0 {
        lemma_port_entries(t, k - 1);
        let prev = port_entries(t, k - 1);
        let ord = ordered_interfaces(router_at(t, all_positions(t)[k - 1]));
        let add = Seq::new(ord.len(), |j: int| (k - 1, j, ord[j].0));
        assert forall|x: int| 0 <= x < port_entries(t, k).len() implies {
            let e = #[trigger] port_entries(t, k)[x];
            let o = ordered_interfaces(router_at(t, all_positions(t)[e.0]));
            &&& 0 <= e.0 < k
            &&& 0 <= e.1 < o.len()
            &&& o[e.1].0 == e.2
        } by {
            if x < prev.len() {
                assert(port_entries(t, k)[x] == prev[x]);
            } else {
                assert(port_entries(t, k)[x] == add[x - prev.len()]);
            }
        }
    }
}

proof fn lemma_find_port_in(entries: Seq<(int, int, Seq<char>)>, id: Seq<char>)
    ensures
        find_port(entries, id) matches Some((n, p)) ==> exists|x: int|
            0 <= x < entries.len() && #[trigger] entries[x] == (n, p, id),
    decreases entries.len(),
{
    if entries.len() > 0 {
        if entries.last().2 == id {
            assert(entries[entries.len() - 1] == (entries.last().0, entries.last().1, id));
        } else {
            lemma_find_port_in(entries.drop_last(), id);
            if let Some((n, p)) = find_port(entries.drop_last(), id) {
                let x = choose|x: int|
                    0 <= x < entries.drop_last().len() && #[trigger] entries.drop_last()[x] == (n, p, id);
                assert(entries[x] == entries.drop_last()[x]);
            }
        }
    }
}

/// Whether `ends` are the ends that link `l` gets from the port entries.
pub open spec fn link_gives_ends(entries: Seq<(int, int, Seq<char>)>, l: LinkView, ends: Gns3LinkEnds) -> bool {
    match (find_port(entries, l.interface_a_id), find_port(entries, l.interface_b_id)) {
        (Some((na, pa)), Some((nb, pb))) => ends == (Gns3LinkEnds {
            node_a: na as usize,
            port_a: pa as usize,
            node_b: nb as usize,
            port_b: pb as usize,
        }),
        _ => false,
    }
}

/// Whether `ends` come from one of the first `n` links.
pub open spec fn ends_from_links(
    entries: Seq<(int, int, Seq<char>)>,
    links: Seq<(Seq<char>, LinkView)>,
    n: int,
    ends: Gns3LinkEnds,
) -> bool {
    exists|i: int| 0 <= i < n && #[trigger] link_gives_ends(entries, links[i].1, ends)
}

proof fn lemma_layout_links(links: Seq<(Seq<char>, LinkView)>, entries: Seq<(int, int, Seq<char>)>, n: int)
    requires
        0 <= n <= links.len(),
    ensures
        forall|m: int|
            0 <= m < layout_links(links, entries, n).len() ==> ends_from_links(
                entries,
                links,
                n,
                #[trigger] layout_links(links, entries, n)[m],
            ),
    decreases n,
{
    if n > 0 {
        lemma_layout_links(links, entries, n - 1);
        let prev = layout_links(links, entries, n - 1);
        let cur = layout_links(links, entries, n);
        assert forall|m: int| 0 <= m < cur.len() implies ends_from_links(entries, links, n, #[trigger] cur[m]) by {
            if m < prev.len() {
                assert(cur[m] == prev[m]);
                assert(ends_from_links(entries, links, n - 1, prev[m]));
                let i = choose|i: int| 0 <= i < n - 1 && #[trigger] link_gives_ends(entries, links[i].1, prev[m]);
                assert(link_gives_ends(entries, links[i].1, cur[m]));
            } else {
                assert(link_gives_ends(entries, links[n - 1].1, cur[m]));
            }
        }
    }
}

/// Every exported link joins the ports of its two interfaces: each end
/// names an exported node and one of its ports, and those ports belong to
/// the two interfaces of some network link.
pub proof fn law_layout_links_join_their_ports(t: TopologyView, m: int)
    requires
        all_positions(t).len() <= usize::MAX,
        forall|k: int|
            0 <= k < all_positions(t).len() ==> (#[trigger] router_at(t, all_positions(t)[k])).interfaces.len()
                <= usize::MAX,
        0 <= m < layout_spec(t).links.len(),
    ensures
        ({
            let lay = layout_spec(t);
            let l = lay.links[m];
            &&& (l.node_a as int) < lay.node_ports.len()
            &&& (l.port_a as int) < lay.node_ports[l.node_a as int].len()
            &&& (l.node_b as int) < lay.node_ports.len()
            &&& (l.port_b as int) < lay.node_ports[l.node_b as int].len()
            &&& exists|i: int|
                0 <= i < t.links.len() && #[trigger] t.links[i].1.interface_a_id
                    == lay.node_ports[l.node_a as int][l.port_a as int].interface_id
                    && t.links[i].1.interface_b_id == lay.node_ports[l.node_b as int][l.port_b as int].interface_id
        }),
{
    let ps = all_positions(t);
    let entries = port_entries(t, ps.len() as int);
    let lay = layout_spec(t);
    let l = lay.links[m];
    lemma_port_entries(t, ps.len() as int);
    lemma_layout_links(t.links, entries, t.links.len() as int);
    assert(ends_from_links(entries, t.links, t.links.len() as int, lay.links[m]));
    let i = choose|i: int| 0 <= i < t.links.len() && #[trigger] link_gives_ends(entries, t.links[i].1, lay.links[m]);
    let a_id = t.links[i].1.interface_a_id;
    let b_id = t.links[i].1.interface_b_id;
    let (na, pa) = find_port(entries, a_id)->0;
    let (nb, pb) = find_port(entries, b_id)->0;
    lemma_find_port_in(entries, a_id);
    lemma_find_port_in(entries, b_id);
    let xa = choose|x: int| 0 <= x < entries.len() && #[trigger] entries[x] == (na, pa, a_id);
    let xb = choose|x: int| 0 <= x < entries.len() && #[trigger] entries[x] == (nb, pb, b_id);
    let ra = router_at(t, ps[na]);
    let rb = router_at(t, ps[nb]);
    lemma_ordered_len(ra);
    lemma_ordered_len(rb);
    assert(ra.interfaces.len() <= usize::MAX);
    assert(rb.interfaces.len() <= usize::MAX);
    assert(lay.node_ports[na] == node_ports(ra));
    assert(lay.node_ports[nb] == node_ports(rb));
    assert(l.node_a as int == na && l.port_a as int == pa);
    assert(l.node_b as int == nb && l.port_b as int == pb);
    assert(node_ports(ra)[pa].interface_id == a_id);
    assert(node_ports(rb)[pb].interface_id == b_id);
}

} // verus!
