//! Building blocks for topologies: ASes, routers with OSPF in the backbone
//! area, interfaces with their connected routes, links, and BGP peerings.

use vstd::prelude::*;

use crate::ipv4::{ipv4_string, ipv4_text, net_contains, network_of, push_ipv4, Ipv4Net};
use crate::models::{
    key_index, lookup, strings_view, table_view, AreaView, AsView, AutonomousSystem, BgpNeighbor,
    BgpProcess, BgpProcessView, BgpSessionState, Interface, InterfaceView, Link, LinkView,
    NeighborView, OspfArea, OspfAreaType, OspfProcess, OspfView, RibEntry, RibView, Router,
    RouteProtocol, RouterView, Topology, TopologyView, opt_string_view,
};
use crate::netops::{
    apply_to_routers, map_routers, op_spec, set_iface_link, with_interfaces, with_links, RouterOp,
    RouterOpView,
};
use crate::table::{insert_key, insert_view, keys_distinct};
use crate::topology::{
    find_router, lemma_find_router_valid, lemma_sizes_fit, pos_valid, router_at, with_router,
    RouterPos,
};
use crate::text::{decimal, push_decimal, push_str, replace_char, replace_chars, str_chars, string_from, string_of};

verus! {

/// What `str::to_lowercase` makes of a text (Unicode lowercase mapping).
pub uninterp spec fn lowercase(s: Seq<char>) -> Seq<char>;

/// The ASCII lowercase of a character: `A`-`Z` become `a`-`z`, every other
/// character is kept.
pub open spec fn ascii_lower(c: char) -> char {
    if 'A' <= c && c <= 'Z' {
        ((c as u32) + 32) as char
    } else {
        c
    }
}

/// Lowercases a text with `str::to_lowercase`; the result is the named
/// `lowercase` of the text.  For an all-ASCII text it is, as Unicode's
/// lowercase mapping gives for ASCII, the text with `A`-`Z` turned into
/// `a`-`z`.
#[verifier::external_body]
fn to_lowercase(s: &str) -> (r: String)
    ensures
        r@ == lowercase(s@),
        (forall|i: int| 0 <= i < s@.len() ==> (#[trigger] s@[i] as u32) < 128) ==> r@
            == s@.map_values(|c: char| ascii_lower(c)),
{
    s.to_lowercase()
}

/// The id of an AS: `as-<asn>`.
pub open spec fn as_id_text(asn: u32) -> Seq<char> {
    "as-"@ + decimal(asn as nat)
}

/// Creates an AS with no routers; its id is `as-<asn>`.
pub fn create_autonomous_system(asn: u32, name: &str) -> (r: AutonomousSystem)
    ensures
        r@ == (AsView {
            id: as_id_text(asn),
            asn,
            name: name@,
            routers: Seq::empty(),
            ospf_areas: Seq::empty(),
        }),
{
    let mut id = string_from("as-");
    push_decimal(&mut id, asn as u64);
    let r = AutonomousSystem {
        id,
        asn,
        name: string_from(name),
        routers: Vec::new(),
        ospf_areas: Vec::new(),
    };
    proof {
        assert(r@.routers =~= Seq::<(Seq<char>, RouterView)>::empty());
        assert(r@.ospf_areas =~= Seq::<(u32, Seq<Seq<char>>)>::empty());
    }
    r
}

/// The id of a router named `name`: `rtr-` and the name lowercased with
/// spaces turned into dashes.
pub open spec fn router_id_text(name: Seq<char>) -> Seq<char> {
    "rtr-"@ + replace_char(lowercase(name), ' ', '-')
}

/// The backbone area with no interfaces yet.
pub open spec fn empty_backbone() -> AreaView {
    AreaView {
        area_id: 0,
        interface_ids: Seq::empty(),
        is_backbone: true,
        area_type: OspfAreaType::Normal,
    }
}

/// A new router as `create_router` makes it.
pub open spec fn new_router_view(name: Seq<char>, as_id: Seq<char>, router_id_ip: u32) -> RouterView {
    RouterView {
        id: router_id_text(name),
        as_id,
        name,
        router_id_ip,
        interfaces: Seq::empty(),
        ospf_process: Some(
            OspfView {
                router_id: router_id_ip,
                areas: seq![(0u32, empty_backbone())],
                lsdb: Seq::empty(),
                neighbors: Seq::empty(),
                spf_pending: true,
            },
        ),
        bgp_process: None,
        rib: Seq::empty(),
        fib: Seq::empty(),
        traffic_generators: Seq::empty(),
    }
}

/// Creates a router with OSPF running in the backbone area (area 0) and
/// an SPF run pending; no interfaces, routes or BGP yet.
pub fn create_router(name: &str, as_id: &str, router_id_ip: u32) -> (r: Router)
    ensures
        r@ == new_router_view(name@, as_id@, router_id_ip),
        (forall|i: int| 0 <= i < name@.len() ==> (#[trigger] name@[i] as u32) < 128) ==> r@.id
            == "rtr-"@ + replace_char(name@.map_values(|c: char| ascii_lower(c)), ' ', '-'),
{
    let lower = to_lowercase(name);
    let lower_chars = str_chars(lower.as_str());
    let dashed = replace_chars(lower_chars.as_slice(), ' ', '-');
    let mut id = string_from("rtr-");
    crate::text::push_chars(&mut id, dashed.as_slice());
    let mut areas: Vec<(u32, OspfArea)> = Vec::new();
    areas.push(
        (
            0,
            OspfArea {
                area_id: 0,
                interface_ids: Vec::new(),
                is_backbone: true,
                area_type: OspfAreaType::Normal,
            },
        ),
    );
    let r = Router {
        id,
        as_id: string_from(as_id),
        name: string_from(name),
        router_id_ip,
        interfaces: Vec::new(),
        ospf_process: Some(
            OspfProcess {
                router_id: router_id_ip,
                areas,
                lsdb: Vec::new(),
                neighbors: Vec::new(),
                spf_pending: true,
            },
        ),
        bgp_process: None,
        rib: Vec::new(),
        fib: Vec::new(),
        traffic_generators: Vec::new(),
    };
    proof {
        let o = r.ospf_process->0;
        assert(o@.areas =~= seq![(0u32, empty_backbone())]) by {
            assert(strings_view(o.areas@[0].1.interface_ids@) =~= Seq::<Seq<char>>::empty());
        }
        assert(o@.lsdb =~= Seq::empty());
        assert(o@.neighbors =~= Seq::empty());
        assert(r@.interfaces =~= Seq::empty());
        assert(r@.rib =~= Seq::empty());
        assert(r@.fib =~= Seq::empty());
        assert(r@.traffic_generators =~= Seq::empty());
    }
    r
}

/// Index of the first area with id `id`, or the number of areas.
pub open spec fn area_index(areas: Seq<(u32, AreaView)>, id: u32) -> int
    decreases areas.len(),
{
    if areas.len() == 0 {
        0
    } else if area_index(areas.drop_last(), id) < areas.len() - 1 {
        area_index(areas.drop_last(), id)
    } else if areas.last().0 == id {
        areas.len() - 1
    } else {
        areas.len() as int
    }
}

pub proof fn lemma_area_index(areas: Seq<(u32, AreaView)>, id: u32)
    ensures
        0 <= area_index(areas, id) <= areas.len(),
        forall|j: int| 0 <= j < area_index(areas, id) ==> (#[trigger] areas[j]).0 != id,
        area_index(areas, id) < areas.len() ==> areas[area_index(areas, id)].0 == id,
    decreases areas.len(),
{
    if areas.len() > 0 {
        lemma_area_index(areas.drop_last(), id);
        assert forall|j: int| 0 <= j < area_index(areas, id) implies (#[trigger] areas[j]).0
            != id by {
            if j < areas.len() - 1 {
                assert(areas[j] == areas.drop_last()[j]);
            }
        }
        if area_index(areas.drop_last(), id) < areas.len() - 1 {
            assert(areas[area_index(areas, id)] == areas.drop_last()[area_index(areas, id)]);
        }
    }
}

pub proof fn lemma_area_index_is(areas: Seq<(u32, AreaView)>, id: u32, i: int)
    requires
        0 <= i <= areas.len(),
        forall|j: int| 0 <= j < i ==> (#[trigger] areas[j]).0 != id,
        i < areas.len() ==> areas[i].0 == id,
    ensures
        area_index(areas, id) == i,
{
    lemma_area_index(areas, id);
    let r = area_index(areas, id);
    if r < i {
        assert(areas[r].0 == id);
    } else if r > i {
        assert(areas[i].0 != id);
    }
}

/// Index of the first area with id `id`.
pub fn find_area(areas: &Vec<(u32, OspfArea)>, id: u32) -> (r: Option<usize>)
    ensures
        match r {
            Some(i) => i < areas@.len() && i == area_index(
                areas@.map_values(|e: (u32, OspfArea)| (e.0, e.1@)),
                id,
            ),
            None => area_index(areas@.map_values(|e: (u32, OspfArea)| (e.0, e.1@)), id)
                == areas@.len(),
        },
{
    let ghost av = areas@.map_values(|e: (u32, OspfArea)| (e.0, e.1@));
    let mut i: usize = 0;
    while i < areas.len()
        invariant
            av == areas@.map_values(|e: (u32, OspfArea)| (e.0, e.1@)),
            i <= areas@.len(),
            forall|j: int| 0 <= j < i ==> (#[trigger] av[j]).0 != id,
        decreases areas@.len() - i,
    {
        if areas[i].0 == id {
            proof {
                lemma_area_index_is(av, id, i as int);
            }
            return Some(i);
        }
        i += 1;
    }
    proof {
        lemma_area_index_is(av, id, i as int);
    }
    None
}

/// The RIB key of a network: the network address and prefix length,
/// `a.b.c.d/len`.
pub open spec fn prefix_key(n: Ipv4Net) -> Seq<char> {
    ipv4_text(network_of(n)) + "/"@ + decimal(n.prefix as nat)
}

pub fn prefix_key_string(n: &Ipv4Net) -> (r: String)
    ensures
        r@ == prefix_key(*n),
{
    let mut s = String::new();
    push_ipv4(&mut s, n.network());
    push_str(&mut s, "/");
    push_decimal(&mut s, n.prefix as u64);
    proof {
        assert(s@ =~= prefix_key(*n));
    }
    s
}

/// The interface id that `add_interface` gives: the router id, a dash
/// and the interface name.
pub open spec fn interface_id_text(router_id: Seq<char>, name: Seq<char>) -> Seq<char> {
    router_id + "-"@ + name
}

/// The connected route of an interface address.
pub open spec fn connected_route(ip: Ipv4Net) -> RibView {
    RibView {
        prefix: prefix_key(ip),
        next_hop: ip.addr,
        protocol: RouteProtocol::Connected,
        metric: 0,
        admin_distance: 0,
        bgp_attributes: None,
    }
}

/// The OSPF process with `iface` added to area 0, when area 0 exists.
pub open spec fn add_to_backbone(o: Option<OspfView>, iface: Seq<char>) -> Option<OspfView> {
    match o {
        Some(v) => {
            let i = area_index(v.areas, 0);
            if i < v.areas.len() {
                Some(
                    OspfView {
                        areas: v.areas.update(
                            i,
                            (
                                v.areas[i].0,
                                AreaView {
                                    interface_ids: v.areas[i].1.interface_ids.push(iface),
                                    ..v.areas[i].1
                                },
                            ),
                        ),
                        ..v
                    },
                )
            } else {
                Some(v)
            }
        },
        None => None,
    }
}

/// A router after `add_interface`.
pub open spec fn with_new_interface(
    r: RouterView,
    name: Seq<char>,
    ip: Ipv4Net,
    bandwidth: u64,
    cost: u32,
) -> RouterView {
    let id = interface_id_text(r.id, name);
    RouterView {
        interfaces: insert_view(
            r.interfaces,
            id,
            InterfaceView {
                id,
                router_id: r.id,
                ip_address: ip,
                link_id: None,
                bandwidth,
                cost,
                is_up: true,
            },
        ),
        ospf_process: add_to_backbone(r.ospf_process, id),
        rib: insert_view(r.rib, prefix_key(ip), connected_route(ip)),
        ..r
    }
}

/// Adds an up, unlinked interface to a router, puts it in OSPF area 0
/// (when the router runs OSPF with that area) and adds its connected
/// route to the RIB; gives the interface id (`<router id>-<name>`).
pub fn add_interface(
    router: &mut Router,
    iface_name: &str,
    ip_address: Ipv4Net,
    bandwidth: u64,
    cost: u32,
) -> (r: String)
    ensures
        r@ == interface_id_text(old(router)@.id, iface_name@),
        final(router)@ == with_new_interface(old(router)@, iface_name@, ip_address, bandwidth, cost),
{
    let mut iface_id = router.id.clone();
    push_str(&mut iface_id, "-");
    push_str(&mut iface_id, iface_name);
    let iface = Interface {
        id: iface_id.clone(),
        router_id: router.id.clone(),
        ip_address,
        link_id: None,
        bandwidth,
        cost,
        is_up: true,
    };
    insert_key(&mut router.interfaces, iface_id.clone(), iface);
    match &mut router.ospf_process {
        Some(ospf) => {
            match find_area(&ospf.areas, 0) {
                Some(i) => {
                    let ghost before = ospf.areas@;
                    ospf.areas[i].1.interface_ids.push(iface_id.clone());
                    proof {
                        assert(strings_view(ospf.areas@[i as int].1.interface_ids@) =~= strings_view(
                            before[i as int].1.interface_ids@,
                        ).push(iface_id@));
                        assert(ospf.areas@[i as int].1@ == AreaView {
                            interface_ids: before[i as int].1@.interface_ids.push(iface_id@),
                            ..before[i as int].1@
                        });
                        assert(ospf@.areas =~= before.map_values(
                            |e: (u32, OspfArea)| (e.0, e.1@),
                        ).update(
                            i as int,
                            (
                                before[i as int].0,
                                AreaView {
                                    interface_ids: before[i as int].1@.interface_ids.push(
                                        iface_id@,
                                    ),
                                    ..before[i as int].1@
                                },
                            ),
                        ));
                    }
                },
                None => {},
            }
        },
        None => {},
    }
    let prefix = prefix_key_string(&ip_address);
    let entry = RibEntry {
        prefix: prefix.clone(),
        next_hop: ip_address.addr,
        protocol: RouteProtocol::Connected,
        metric: 0,
        admin_distance: 0,
        bgp_attributes: None,
    };
    insert_key(&mut router.rib, prefix, entry);
    iface_id
}

/// The id that `create_link` gives: `link-<a>-<b>`.
pub open spec fn link_id_text(a: Seq<char>, b: Seq<char>) -> Seq<char> {
    "link-"@ + a + "-"@ + b
}

/// Creates an up link between two interfaces, with no load, and records
/// it on both interfaces (on whichever routers have them); gives the link
/// id `link-<a>-<b>`.
pub fn create_link(topology: &mut Topology, iface_a_id: &str, iface_b_id: &str, bandwidth: u64) -> (r:
    String)
    ensures
        r@ == link_id_text(iface_a_id@, iface_b_id@),
        final(topology)@ == with_links(
            map_routers(
                old(topology)@,
                RouterOpView::AttachLink { a: iface_a_id@, b: iface_b_id@, link: r@ },
                true,
            ),
            insert_view(
                old(topology)@.links,
                r@,
                LinkView {
                    id: r@,
                    interface_a_id: iface_a_id@,
                    interface_b_id: iface_b_id@,
                    bandwidth,
                    current_load: 0,
                    is_up: true,
                },
            ),
        ),
        crate::topology::tables_distinct(old(topology)@) ==> crate::topology::tables_distinct(
            final(topology)@,
        ),
{
    proof {
        let t0 = topology@;
        if crate::topology::tables_distinct(t0) {
            let id = link_id_text(iface_a_id@, iface_b_id@);
            crate::requests::lemma_distinct_create_link(
                t0,
                iface_a_id@,
                iface_b_id@,
                id,
                LinkView {
                    id,
                    interface_a_id: iface_a_id@,
                    interface_b_id: iface_b_id@,
                    bandwidth,
                    current_load: 0,
                    is_up: true,
                },
            );
        }
    }
    let mut link_id = string_from("link-");
    push_str(&mut link_id, iface_a_id);
    push_str(&mut link_id, "-");
    push_str(&mut link_id, iface_b_id);
    let link = Link {
        id: link_id.clone(),
        interface_a_id: string_from(iface_a_id),
        interface_b_id: string_from(iface_b_id),
        bandwidth,
        current_load: 0,
        is_up: true,
    };
    insert_key(&mut topology.links, link_id.clone(), link);
    let op = RouterOp::AttachLink {
        a: string_from(iface_a_id),
        b: string_from(iface_b_id),
        link: link_id.clone(),
    };
    let ghost t1 = topology@;
    apply_to_routers(topology, &op, true);
    proof {
        assert(topology@ =~= with_links(
            map_routers(old(topology)@, op@, true),
            t1.links,
        ));
    }
    link_id
}

/// Turns BGP on (or resets it) on a router with the given local AS; no
/// neighbors or routes yet.
pub fn enable_bgp(router: &mut Router, local_asn: u32)
    ensures
        final(router)@ == (RouterView {
            bgp_process: Some(
                BgpProcessView {
                    local_asn,
                    router_id: old(router)@.router_id_ip,
                    neighbors: Seq::empty(),
                    loc_rib: Seq::empty(),
                    best_routes: Seq::empty(),
                },
            ),
            ..old(router)@
        }),
{
    router.bgp_process = Some(
        BgpProcess {
            local_asn,
            router_id: router.router_id_ip,
            neighbors: Vec::new(),
            loc_rib: Vec::new(),
            best_routes: Vec::new(),
        },
    );
    proof {
        let b = router.bgp_process->0;
        assert(b@.neighbors =~= Seq::empty());
        assert(b@.loc_rib =~= Seq::empty());
        assert(b@.best_routes =~= Seq::empty());
    }
}

/// A new neighbor as `add_bgp_neighbor` makes it.
pub open spec fn new_neighbor(
    ip: u32,
    remote_asn: u32,
    local_asn: u32,
    import: Option<Seq<char>>,
    export: Option<Seq<char>>,
) -> NeighborView {
    NeighborView {
        neighbor_ip: ip,
        remote_asn,
        state: BgpSessionState::Idle,
        is_ebgp: remote_asn != local_asn,
        adj_rib_in: Seq::empty(),
        adj_rib_out: Seq::empty(),
        import_policy: import,
        export_policy: export,
        uptime_ticks: 0,
    }
}

/// Adds (or replaces) a BGP neighbor, keyed by its address in dotted
/// decimal, in the Idle state; eBGP when the remote AS differs from the
/// local one.  Nothing changes on a router without BGP.
pub fn add_bgp_neighbor(
    router: &mut Router,
    neighbor_ip: u32,
    remote_asn: u32,
    local_asn: u32,
    import_policy: Option<String>,
    export_policy: Option<String>,
)
    ensures
        match old(router)@.bgp_process {
            None => final(router)@ == old(router)@,
            Some(b) => final(router)@ == (RouterView {
                bgp_process: Some(
                    BgpProcessView {
                        neighbors: insert_view(
                            b.neighbors,
                            ipv4_text(neighbor_ip),
                            new_neighbor(
                                neighbor_ip,
                                remote_asn,
                                local_asn,
                                opt_string_view(import_policy),
                                opt_string_view(export_policy),
                            ),
                        ),
                        ..b
                    },
                ),
                ..old(router)@
            }),
        },
{
    match &mut router.bgp_process {
        Some(bgp) => {
            let key = ipv4_string(neighbor_ip);
            let n = BgpNeighbor {
                neighbor_ip,
                remote_asn,
                state: BgpSessionState::Idle,
                is_ebgp: remote_asn != local_asn,
                adj_rib_in: Vec::new(),
                adj_rib_out: Vec::new(),
                import_policy,
                export_policy,
                uptime_ticks: 0,
            };
            proof {
                assert(n@.adj_rib_in =~= Seq::empty());
                assert(n@.adj_rib_out =~= Seq::empty());
            }
            insert_key(&mut bgp.neighbors, key, n);
        },
        None => {},
    }
}



/// Each link's key, its two interfaces and its bandwidth.
pub open spec fn link_table(t: TopologyView) -> Seq<(Seq<char>, Seq<char>, Seq<char>, u64)> {
    t.links.map_values(
        |e: (Seq<char>, LinkView)| (e.0, e.1.interface_a_id, e.1.interface_b_id, e.1.bandwidth),
    )
}

proof fn lemma_link_table_keys(t: TopologyView)
    ensures
        link_table(t).len() == t.links.len(),
        forall|i: int| 0 <= i < t.links.len() ==> (#[trigger] t.links[i]).0 == link_table(t)[i].0,
{
}

proof fn lemma_link_ids_differ(a1: Seq<char>, b1: Seq<char>, a2: Seq<char>, b2: Seq<char>, k: int)
    requires
        0 <= k < a1.len(),
        a1.len() == a2.len(),
        a1[k] != a2[k],
    ensures
        link_id_text(a1, b1) != link_id_text(a2, b2),
{
    reveal_strlit("link-");
    assert(link_id_text(a1, b1)[5 + k] == a1[k]);
    assert(link_id_text(a2, b2)[5 + k] == a2[k]);
}

/// The key and router id of each router of a table.
pub open spec fn router_facts(rs: Seq<(Seq<char>, RouterView)>) -> Seq<(Seq<char>, u32)> {
    rs.map_values(|r: (Seq<char>, RouterView)| (r.0, r.1.router_id_ip))
}

/// Each AS's key, number, name, and the key and router id of each of its
/// routers.
pub open spec fn as_facts(t: TopologyView) -> Seq<(Seq<char>, u32, Seq<char>, Seq<(Seq<char>, u32)>)> {
    t.autonomous_systems.map_values(
        |e: (Seq<char>, AsView)| (e.0, e.1.asn, e.1.name, router_facts(e.1.routers)),
    )
}

proof fn lemma_as_facts_map(t: TopologyView, op: RouterOpView, standalone: bool)
    ensures
        as_facts(map_routers(t, op, standalone)) == as_facts(t),
{
    let t2 = map_routers(t, op, standalone);
    assert forall|i: int| 0 <= i < t.autonomous_systems.len() implies #[trigger] as_facts(t2)[i]
        == as_facts(t)[i] by {
        let rs = t.autonomous_systems[i].1.routers;
        let rs2 = t2.autonomous_systems[i].1.routers;
        assert(router_facts(rs2) =~= router_facts(rs)) by {
            assert forall|j: int| 0 <= j < rs.len() implies #[trigger] rs2[j].1.router_id_ip
                == rs[j].1.router_id_ip && rs2[j].0 == rs[j].0 by {
                match op {
                    RouterOpView::DetachLink { a, b } => {},
                    RouterOpView::AttachLink { a, b, link } => {},
                    RouterOpView::InterfaceState { iface, up } => {},
                    RouterOpView::GeneratorActive { generator, active } => {},
                }
            }
        }
    }
    assert(as_facts(t2) =~= as_facts(t));
}

proof fn lemma_as_facts_with_router(t: TopologyView, p: RouterPos, r: RouterView)
    requires
        pos_valid(t, p),
        r.router_id_ip == router_at(t, p).router_id_ip,
    ensures
        as_facts(with_router(t, p, r)) == as_facts(t),
{
    let t2 = with_router(t, p, r);
    match p {
        RouterPos::Standalone(_) => {
            assert(as_facts(t2) =~= as_facts(t));
        },
        RouterPos::InAs(a, i) => {
            let rs = t.autonomous_systems[a as int].1.routers;
            let rs2 = t2.autonomous_systems[a as int].1.routers;
            assert(router_facts(rs2) =~= router_facts(rs));
            assert forall|j: int| 0 <= j < t.autonomous_systems.len() implies #[trigger] as_facts(
                t2,
            )[j] == as_facts(t)[j] by {
                if j != a {
                    assert(t2.autonomous_systems[j] == t.autonomous_systems[j]);
                }
            }
            assert(as_facts(t2) =~= as_facts(t));
        },
    }
}

/// Adding an up, unloaded link to a table of such links keeps it so.
proof fn lemma_fresh_links_insert(links: Seq<(Seq<char>, LinkView)>, k: Seq<char>, l: LinkView)
    requires
        forall|i: int| 0 <= i < links.len() ==> (#[trigger] links[i]).1.is_up && links[i].1.current_load == 0,
        l.is_up,
        l.current_load == 0,
    ensures
        forall|i: int|
            0 <= i < insert_view(links, k, l).len() ==> (#[trigger] insert_view(links, k, l)[i]).1.is_up
                && insert_view(links, k, l)[i].1.current_load == 0,
{
    crate::table::lemma_key_index(links, k);
    let t = insert_view(links, k, l);
    assert forall|i: int| 0 <= i < t.len() implies (#[trigger] t[i]).1.is_up && t[i].1.current_load == 0 by {
        if i < links.len() && i != key_index(links, k) {
            assert(t[i] == links[i]);
        }
    }
}

/// The key of the last link of a table that ends at the interface keyed
/// `k`, if any.
pub open spec fn link_ending_at(table: Seq<(Seq<char>, Seq<char>, Seq<char>, u64)>, k: Seq<char>) -> Option<
    Seq<char>,
>
    decreases table.len(),
{
    if table.len() == 0 {
        None
    } else if table.last().1 == k || table.last().2 == k {
        Some(table.last().0)
    } else {
        link_ending_at(table.drop_last(), k)
    }
}

/// No two interfaces of a router share a key.
pub open spec fn keys_unique(r: RouterView) -> bool {
    forall|i: int, j: int|
        0 <= i < j < r.interfaces.len() ==> (#[trigger] r.interfaces[i]).0 != (#[trigger] r.interfaces[j]).0
}

/// Each interface of a router records, as its link, the last link of the
/// table that ends at it (none when no link does).
pub open spec fn links_recorded(r: RouterView, table: Seq<(Seq<char>, Seq<char>, Seq<char>, u64)>) -> bool {
    forall|j: int|
        0 <= j < r.interfaces.len() ==> (#[trigger] r.interfaces[j]).1.link_id == link_ending_at(
            table,
            r.interfaces[j].0,
        )
}

/// Every router of every AS has interfaces with distinct keys, each
/// recording the link of the topology's table that ends at it.
pub open spec fn as_links_recorded(t: TopologyView) -> bool {
    forall|a: int, i: int|
        0 <= a < t.autonomous_systems.len() && 0 <= i < t.autonomous_systems[a].1.routers.len() ==> {
            let r = (#[trigger] t.autonomous_systems[a].1.routers[i]).1;
            keys_unique(r) && links_recorded(r, link_table(t))
        }
}

/// Attaching a link to its two interfaces keeps each router's records
/// true of the table with the link appended.
proof fn lemma_attach_recorded(
    r: RouterView,
    table: Seq<(Seq<char>, Seq<char>, Seq<char>, u64)>,
    a: Seq<char>,
    b: Seq<char>,
    id: Seq<char>,
    bw: u64,
)
    requires
        keys_unique(r),
        links_recorded(r, table),
    ensures
        keys_unique(op_spec(RouterOpView::AttachLink { a, b, link: id }, r)),
        links_recorded(op_spec(RouterOpView::AttachLink { a, b, link: id }, r), table.push((id, a, b, bw))),
{
    let t2 = table.push((id, a, b, bw));
    let ifs = r.interfaces;
    let s1 = set_iface_link(ifs, a, Some(id));
    let s2 = set_iface_link(s1, b, Some(id));
    let r2 = op_spec(RouterOpView::AttachLink { a, b, link: id }, r);
    assert(r2.interfaces == s2);
    crate::table::lemma_key_index(ifs, a);
    crate::table::lemma_key_index(s1, b);
    assert(s1.len() == ifs.len());
    assert forall|j: int| 0 <= j < ifs.len() implies #[trigger] s1[j].0 == ifs[j].0 by {}
    assert forall|j: int| 0 <= j < ifs.len() implies #[trigger] s2[j].0 == ifs[j].0 by {}
    assert(t2.drop_last() =~= table);
    assert forall|j: int| 0 <= j < s2.len() implies (#[trigger] s2[j]).1.link_id == link_ending_at(t2, s2[j].0) by {
        let k = ifs[j].0;
        let ia = key_index(ifs, a);
        let ib = key_index(s1, b);
        if k == a {
            if ia != j {
                assert(ifs[ia].0 == a);
                if ia < j {
                    assert(ifs[ia].0 != ifs[j].0);
                }
            }
        }
        if k == b {
            if ib != j {
                assert(s1[ib].0 == b);
                if ib < j {
                    assert(ifs[ib].0 != ifs[j].0);
                }
            }
        }
    }
    assert forall|i: int, j: int| 0 <= i < j < s2.len() implies (#[trigger] s2[i]).0 != (#[trigger] s2[j]).0 by {
        assert(ifs[i].0 != ifs[j].0);
    }
}

/// Creating a link keeps the records of every AS's routers true.
proof fn lemma_create_link_recorded(t: TopologyView, a: Seq<char>, b: Seq<char>, id: Seq<char>, bw: u64)
    requires
        as_links_recorded(t),
        link_table(with_links(
            map_routers(t, RouterOpView::AttachLink { a, b, link: id }, true),
            insert_view(t.links, id, LinkView { id, interface_a_id: a, interface_b_id: b, bandwidth: bw, current_load: 0, is_up: true }),
        )) == link_table(t).push((id, a, b, bw)),
    ensures
        as_links_recorded(with_links(
            map_routers(t, RouterOpView::AttachLink { a, b, link: id }, true),
            insert_view(t.links, id, LinkView { id, interface_a_id: a, interface_b_id: b, bandwidth: bw, current_load: 0, is_up: true }),
        )),
{
    let op = RouterOpView::AttachLink { a, b, link: id };
    let t2 = with_links(
        map_routers(t, op, true),
        insert_view(t.links, id, LinkView { id, interface_a_id: a, interface_b_id: b, bandwidth: bw, current_load: 0, is_up: true }),
    );
    assert forall|x: int, i: int|
        0 <= x < t2.autonomous_systems.len() && 0 <= i < t2.autonomous_systems[x].1.routers.len() implies {
            let r = (#[trigger] t2.autonomous_systems[x].1.routers[i]).1;
            keys_unique(r) && links_recorded(r, link_table(t2))
        } by {
        let r = t.autonomous_systems[x].1.routers[i].1;
        lemma_attach_recorded(r, link_table(t), a, b, id, bw);
    }
}

/// A router that has not run yet: no FIB entries, no OSPF LSAs or
/// neighbors and an SPF run pending, no traffic generators, and every
/// interface up.
pub open spec fn not_yet_run(r: RouterView) -> bool {
    &&& r.fib.len() == 0
    &&& r.traffic_generators.len() == 0
    &&& (r.ospf_process matches Some(o) ==> o.lsdb.len() == 0 && o.neighbors.len() == 0 && o.spf_pending)
    &&& forall|j: int| 0 <= j < r.interfaces.len() ==> (#[trigger] r.interfaces[j]).1.is_up
}

/// No router of any AS has run yet.
pub open spec fn as_routers_not_yet_run(t: TopologyView) -> bool {
    forall|a: int, i: int|
        0 <= a < t.autonomous_systems.len() && 0 <= i < t.autonomous_systems[a].1.routers.len()
            ==> not_yet_run((#[trigger] t.autonomous_systems[a].1.routers[i]).1)
}

/// Attaching a link leaves a router that has not run as it was in that
/// respect.
proof fn lemma_attach_not_yet_run(r: RouterView, a: Seq<char>, b: Seq<char>, id: Seq<char>)
    requires
        not_yet_run(r),
    ensures
        not_yet_run(op_spec(RouterOpView::AttachLink { a, b, link: id }, r)),
{
    let ifs = r.interfaces;
    let s1 = set_iface_link(ifs, a, Some(id));
    let s2 = set_iface_link(s1, b, Some(id));
    crate::table::lemma_key_index(ifs, a);
    crate::table::lemma_key_index(s1, b);
    assert forall|j: int| 0 <= j < s2.len() implies (#[trigger] s2[j]).1.is_up by {
        assert(s1[j].1.is_up);
    }
}

/// Of each AS, the name and AS key recorded on each of its routers.
pub open spec fn router_labels(t: TopologyView) -> Seq<Seq<(Seq<char>, Seq<char>)>> {
    t.autonomous_systems.map_values(
        |e: (Seq<char>, AsView)| e.1.routers.map_values(|r: (Seq<char>, RouterView)| (r.1.name, r.1.as_id)),
    )
}

/// Operations on routers leave their names and AS keys as they were.
proof fn lemma_labels_map(t: TopologyView, op: RouterOpView, standalone: bool)
    ensures
        router_labels(map_routers(t, op, standalone)) == router_labels(t),
{
    let t2 = map_routers(t, op, standalone);
    assert forall|a: int| 0 <= a < t.autonomous_systems.len() implies #[trigger] router_labels(t2)[a]
        == router_labels(t)[a] by {
        let rs = t.autonomous_systems[a].1.routers;
        let rs2 = t2.autonomous_systems[a].1.routers;
        assert forall|j: int| 0 <= j < rs.len() implies #[trigger] rs2[j].1.name == rs[j].1.name
            && rs2[j].1.as_id == rs[j].1.as_id by {
            match op {
                RouterOpView::DetachLink { a, b } => {},
                RouterOpView::AttachLink { a, b, link } => {},
                RouterOpView::InterfaceState { iface, up } => {},
                RouterOpView::GeneratorActive { generator, active } => {},
            }
        }
        assert(rs2.map_values(|r: (Seq<char>, RouterView)| (r.1.name, r.1.as_id)) =~= rs.map_values(
            |r: (Seq<char>, RouterView)| (r.1.name, r.1.as_id),
        ));
    }
    assert(router_labels(t2) =~= router_labels(t));
}

/// Replacing a router of an AS by one with the same name and AS key
/// leaves the labels as they were.
proof fn lemma_labels_with_router(t: TopologyView, a: usize, i: usize, r: RouterView)
    requires
        pos_valid(t, RouterPos::InAs(a, i)),
        r.name == router_at(t, RouterPos::InAs(a, i)).name,
        r.as_id == router_at(t, RouterPos::InAs(a, i)).as_id,
    ensures
        router_labels(with_router(t, RouterPos::InAs(a, i), r)) == router_labels(t),
{
    let t2 = with_router(t, RouterPos::InAs(a, i), r);
    let rs = t.autonomous_systems[a as int].1.routers;
    let rs2 = t2.autonomous_systems[a as int].1.routers;
    assert(rs2.map_values(|e: (Seq<char>, RouterView)| (e.1.name, e.1.as_id)) =~= rs.map_values(
        |e: (Seq<char>, RouterView)| (e.1.name, e.1.as_id),
    ));
    assert(router_labels(t2) =~= router_labels(t));
}

/// The OSPF areas recorded on each AS.
pub open spec fn as_areas(t: TopologyView) -> Seq<Seq<(u32, Seq<Seq<char>>)>> {
    t.autonomous_systems.map_values(|e: (Seq<char>, AsView)| e.1.ospf_areas)
}

/// Linking, unlinking, bringing interfaces up or down and switching
/// traffic generators leave a router's setup as it was.
proof fn lemma_setup_op(op: RouterOpView, r: RouterView)
    ensures
        setup_of(op_spec(op, r)) == setup_of(r),
{
    let r2 = op_spec(op, r);
    match op {
        RouterOpView::DetachLink { a, b } => {
            lemma_set_link_facts(r, r.interfaces, a, None);
            lemma_set_link_facts(r, set_iface_link(r.interfaces, a, None), b, None);
            assert(with_interfaces(r, r.interfaces) == r);
        },
        RouterOpView::AttachLink { a, b, link } => {
            lemma_set_link_facts(r, r.interfaces, a, Some(link));
            lemma_set_link_facts(r, set_iface_link(r.interfaces, a, Some(link)), b, Some(link));
            assert(with_interfaces(r, r.interfaces) == r);
        },
        RouterOpView::InterfaceState { iface, up } => {
            crate::table::lemma_key_index(r.interfaces, iface);
            let i = key_index(r.interfaces, iface);
            assert forall|j: int| 0 <= j < r.interfaces.len() implies #[trigger] interface_facts(r2)[j]
                == interface_facts(r)[j] by {
                if j == i {
                    assert(r2.interfaces[j].1.ip_address == r.interfaces[j].1.ip_address);
                }
            }
            assert(interface_facts(r2) =~= interface_facts(r));
            assert(area_facts(r2) =~= area_facts(r));
        },
        RouterOpView::GeneratorActive { generator, active } => {},
    }
}

proof fn lemma_set_link_facts(
    r: RouterView,
    ifs: Seq<(Seq<char>, InterfaceView)>,
    k: Seq<char>,
    l: Option<Seq<char>>,
)
    ensures
        interface_facts(with_interfaces(r, set_iface_link(ifs, k, l))) == interface_facts(
            with_interfaces(r, ifs),
        ),
{
    crate::table::lemma_key_index(ifs, k);
    let i = key_index(ifs, k);
    let a = interface_facts(with_interfaces(r, set_iface_link(ifs, k, l)));
    let b = interface_facts(with_interfaces(r, ifs));
    assert forall|j: int| 0 <= j < ifs.len() implies #[trigger] a[j] == b[j] by {
        if j == i {
            assert(set_iface_link(ifs, k, l)[j].1.ip_address == ifs[j].1.ip_address);
        }
    }
    assert(a =~= b);
}

/// Applying an operation to every router leaves every router's setup as
/// it was.
proof fn lemma_setups_map(t: TopologyView, op: RouterOpView, standalone: bool)
    ensures
        router_setups(map_routers(t, op, standalone)) == router_setups(t),
{
    let t2 = map_routers(t, op, standalone);
    assert forall|a: int| 0 <= a < t.autonomous_systems.len() implies #[trigger] router_setups(t2)[a]
        == router_setups(t)[a] by {
        let rs = t.autonomous_systems[a].1.routers;
        let rs2 = t2.autonomous_systems[a].1.routers;
        assert forall|j: int| 0 <= j < rs.len() implies #[trigger] setup_of(rs2[j].1) == setup_of(rs[j].1) by {
            lemma_setup_op(op, rs[j].1);
        }
        assert(rs2.map_values(|e: (Seq<char>, RouterView)| setup_of(e.1)) =~= rs.map_values(
            |e: (Seq<char>, RouterView)| setup_of(e.1),
        ));
    }
    assert(router_setups(t2) =~= router_setups(t));
}

/// Replacing the router at a position in an AS replaces its setup.
proof fn lemma_setups_with_router(t: TopologyView, a: usize, i: usize, r: RouterView)
    requires
        pos_valid(t, RouterPos::InAs(a, i)),
    ensures
        router_setups(with_router(t, RouterPos::InAs(a, i), r)) == router_setups(t).update(
            a as int,
            router_setups(t)[a as int].update(i as int, setup_of(r)),
        ),
{
    let t2 = with_router(t, RouterPos::InAs(a, i), r);
    let s = router_setups(t);
    let rs2 = t2.autonomous_systems[a as int].1.routers;
    assert(rs2.map_values(|e: (Seq<char>, RouterView)| setup_of(e.1)) =~= s[a as int].update(
        i as int,
        setup_of(r),
    ));
    assert(router_setups(t2) =~= s.update(a as int, s[a as int].update(i as int, setup_of(r))));
}

fn sample_link(topology: &mut Topology, a: &String, b: &String, bandwidth: u64)
    requires
        forall|i: int|
            0 <= i < old(topology)@.links.len() ==> (#[trigger] old(topology)@.links[i]).1.is_up
                && old(topology)@.links[i].1.current_load == 0,
        forall|i: int|
            0 <= i < old(topology)@.links.len() ==> (#[trigger] old(topology)@.links[i]).0 != link_id_text(a@, b@),
    ensures
        link_table(final(topology)@) == link_table(old(topology)@).push(
            (link_id_text(a@, b@), a@, b@, bandwidth),
        ),
        as_facts(final(topology)@) == as_facts(old(topology)@),
        final(topology)@.standalone_routers.len() == old(topology)@.standalone_routers.len(),
        final(topology)@.policies == old(topology)@.policies,
        forall|i: int|
            0 <= i < final(topology)@.links.len() ==> (#[trigger] final(topology)@.links[i]).1.is_up
                && final(topology)@.links[i].1.current_load == 0,
        router_setups(final(topology)@) == router_setups(old(topology)@),
        as_areas(final(topology)@) == as_areas(old(topology)@),
        as_links_recorded(old(topology)@) ==> as_links_recorded(final(topology)@),
        as_routers_not_yet_run(old(topology)@) ==> as_routers_not_yet_run(final(topology)@),
        router_labels(final(topology)@) == router_labels(old(topology)@),
        crate::topology::tables_distinct(old(topology)@) ==> crate::topology::tables_distinct(final(topology)@),
{
    let ghost t0 = topology@;
    let id = create_link(topology, a.as_str(), b.as_str(), bandwidth);
    proof {
        let op = RouterOpView::AttachLink { a: a@, b: b@, link: id@ };
        lemma_as_facts_map(t0, op, true);
        lemma_setups_map(t0, op, true);
        lemma_labels_map(t0, op, true);
        assert(as_areas(topology@) =~= as_areas(t0));
        let l = LinkView {
            id: id@,
            interface_a_id: a@,
            interface_b_id: b@,
            bandwidth,
            current_load: 0,
            is_up: true,
        };
        lemma_fresh_links_insert(t0.links, id@, l);
        crate::table::lemma_key_index_is(t0.links, id@, t0.links.len() as int);
        assert(link_table(topology@) =~= link_table(t0).push((id@, a@, b@, bandwidth)));
        if as_links_recorded(t0) {
            lemma_create_link_recorded(t0, a@, b@, id@, bandwidth);
        }
        if as_routers_not_yet_run(t0) {
            assert forall|x: int, y: int|
                0 <= x < topology@.autonomous_systems.len() && 0 <= y
                    < topology@.autonomous_systems[x].1.routers.len() implies not_yet_run(
                (#[trigger] topology@.autonomous_systems[x].1.routers[y]).1,
            ) by {
                lemma_attach_not_yet_run(t0.autonomous_systems[x].1.routers[y].1, a@, b@, id@);
            }
        }
    }
}

fn sample_peering(
    topology: &mut Topology,
    router_id: &str,
    neighbor_ip: u32,
    remote_asn: u32,
    local_asn: u32,
    Ghost(a): Ghost<usize>,
    Ghost(i): Ghost<usize>,
)
    requires
        find_router(old(topology)@, router_id@) == Some(RouterPos::InAs(a, i)),
        router_at(old(topology)@, RouterPos::InAs(a, i)).bgp_process == Some(
            fresh_bgp(local_asn, router_at(old(topology)@, RouterPos::InAs(a, i)).router_id_ip),
        ),
    ensures
        as_facts(final(topology)@) == as_facts(old(topology)@),
        final(topology)@.standalone_routers.len() == old(topology)@.standalone_routers.len(),
        final(topology)@.policies == old(topology)@.policies,
        final(topology)@.links == old(topology)@.links,
        as_areas(final(topology)@) == as_areas(old(topology)@),
        as_links_recorded(old(topology)@) ==> as_links_recorded(final(topology)@),
        as_routers_not_yet_run(old(topology)@) ==> as_routers_not_yet_run(final(topology)@),
        router_labels(final(topology)@) == router_labels(old(topology)@),
        crate::topology::tables_distinct(old(topology)@) ==> crate::topology::tables_distinct(final(topology)@),
        ({
            let s = router_setups(old(topology)@);
            let old_setup = s[a as int][i as int];
            router_setups(final(topology)@) == s.update(
                a as int,
                s[a as int].update(
                    i as int,
                    (
                        old_setup.0,
                        Some(
                            bgp_with_peer(
                                local_asn,
                                router_at(old(topology)@, RouterPos::InAs(a, i)).router_id_ip,
                                neighbor_ip,
                                remote_asn,
                            ),
                        ),
                        old_setup.2,
                        old_setup.3,
                    ),
                ),
            )
        }),
{
    let ghost t0 = topology@;
    let ghost p = RouterPos::InAs(a, i);
    proof {
        lemma_sizes_fit(topology);
        lemma_find_router_valid(t0, router_id@);
    }
    match topology.get_router_mut(router_id) {
        Some(r) => {
            let ghost r0 = r@;
            add_bgp_neighbor(r, neighbor_ip, remote_asn, local_asn, None, None);
            proof {
                lemma_as_facts_with_router(t0, p, router_at(topology@, p));
                let b0 = r0.bgp_process->0;
                crate::table::lemma_key_index_is(b0.neighbors, ipv4_text(neighbor_ip), 0);
                let b1 = r@.bgp_process->0;
                assert(b1 =~= bgp_with_peer(local_asn, r0.router_id_ip, neighbor_ip, remote_asn));
                assert(interface_facts(r@) == interface_facts(r0));
                assert(area_facts(r@) == area_facts(r0));
                lemma_setups_with_router(t0, a, i, r@);
                lemma_labels_with_router(t0, a, i, r@);
                crate::requests::lemma_distinct_with_router(t0, p, r@);
                assert(as_areas(topology@) =~= as_areas(t0));
                assert(r@.interfaces == r0.interfaces);
                assert(link_table(topology@) == link_table(t0));
                if as_routers_not_yet_run(t0) {
                    assert forall|x: int, y: int|
                        0 <= x < topology@.autonomous_systems.len() && 0 <= y
                            < topology@.autonomous_systems[x].1.routers.len() implies not_yet_run(
                        (#[trigger] topology@.autonomous_systems[x].1.routers[y]).1,
                    ) by {
                        assert(not_yet_run(t0.autonomous_systems[x].1.routers[y].1));
                    }
                }
                if as_links_recorded(t0) {
                    assert forall|x: int, y: int|
                        0 <= x < topology@.autonomous_systems.len() && 0 <= y
                            < topology@.autonomous_systems[x].1.routers.len() implies {
                            let rr = (#[trigger] topology@.autonomous_systems[x].1.routers[y]).1;
                            keys_unique(rr) && links_recorded(rr, link_table(topology@))
                        } by {
                        let r_old = t0.autonomous_systems[x].1.routers[y].1;
                        assert(keys_unique(r_old) && links_recorded(r_old, link_table(t0)));
                    }
                }
            }
        },
        None => {},
    }
}

/// Each interface of a router: its key, address, prefix length,
/// bandwidth and cost.
pub open spec fn interface_facts(r: RouterView) -> Seq<(Seq<char>, u32, u8, u64, u32)> {
    r.interfaces.map_values(
        |e: (Seq<char>, InterfaceView)|
            (e.0, e.1.ip_address.addr, e.1.ip_address.prefix, e.1.bandwidth, e.1.cost),
    )
}

/// A router's OSPF areas, when it runs OSPF: each area's number and the
/// keys of its interfaces.
pub open spec fn area_facts(r: RouterView) -> Option<Seq<(u32, Seq<Seq<char>>)>> {
    match r.ospf_process {
        Some(o) => Some(o.areas.map_values(|a: (u32, AreaView)| (a.0, a.1.interface_ids))),
        None => None,
    }
}

/// How a router is set up: its interfaces, its BGP process, its OSPF
/// areas and its RIB.
pub type RouterSetup = (
    Seq<(Seq<char>, u32, u8, u64, u32)>,
    Option<BgpProcessView>,
    Option<Seq<(u32, Seq<Seq<char>>)>>,
    Seq<(Seq<char>, RibView)>,
);

/// How a router is set up.
pub open spec fn setup_of(r: RouterView) -> RouterSetup {
    (interface_facts(r), r.bgp_process, area_facts(r), r.rib)
}

/// Of each AS, how each of its routers is set up.
pub open spec fn router_setups(t: TopologyView) -> Seq<Seq<RouterSetup>> {
    t.autonomous_systems.map_values(
        |e: (Seq<char>, AsView)| e.1.routers.map_values(|r: (Seq<char>, RouterView)| setup_of(r.1)),
    )
}

/// Interfaces of one router with different names have different ids.
proof fn lemma_iface_ids_differ(rid: Seq<char>, n1: Seq<char>, n2: Seq<char>)
    requires
        n1 != n2,
    ensures
        interface_id_text(rid, n1) != interface_id_text(rid, n2),
{
    reveal_strlit("-");
    let k: int = rid.len() as int + 1;
    assert(interface_id_text(rid, n1).skip(k) =~= n1);
    assert(interface_id_text(rid, n2).skip(k) =~= n2);
}

/// Networks with different addresses have different RIB keys.
proof fn lemma_prefix_keys_differ(n1: Ipv4Net, n2: Ipv4Net)
    requires
        network_of(n1) != network_of(n2),
    ensures
        prefix_key(n1) != prefix_key(n2),
{
    reveal_strlit("/");
    let a1 = network_of(n1);
    let a2 = network_of(n2);
    let t1 = ipv4_text(a1);
    let t2 = ipv4_text(a2);
    crate::ipv4::lemma_ipv4_text_no_slash(a1);
    crate::ipv4::lemma_ipv4_text_no_slash(a2);
    crate::ipv4::law_ipv4_text_round_trip(a1);
    crate::ipv4::law_ipv4_text_round_trip(a2);
    let k1 = prefix_key(n1);
    let k2 = prefix_key(n2);
    if k1 == k2 {
        if t1.len() < t2.len() {
            assert(k1[t1.len() as int] == '/');
            assert(k2[t1.len() as int] == t2[t1.len() as int]);
        } else if t2.len() < t1.len() {
            assert(k2[t2.len() as int] == '/');
            assert(k1[t2.len() as int] == t1[t2.len() as int]);
        } else {
            assert(t1 =~= k1.subrange(0, t1.len() as int));
            assert(t2 =~= k2.subrange(0, t2.len() as int));
        }
    }
}

/// The network address of a /30 clears the two low bits; that of a /32
/// is the address itself.
proof fn lemma_short_prefix_networks()
    ensures
        forall|n: Ipv4Net| n.prefix == 30 ==> #[trigger] network_of(n) == n.addr - n.addr % 4,
        forall|n: Ipv4Net| n.prefix == 32 ==> #[trigger] network_of(n) == n.addr,
{
    assert((0xffff_ffffu32 << 2u32) as u32 == 0xffff_fffcu32) by (bit_vector);
    assert(forall|x: u32| #[trigger] (x & 0xffff_fffcu32) == x - x % 4) by (bit_vector);
    assert(forall|x: u32| #[trigger] (x & 0xffff_ffffu32) == x) by (bit_vector);
}

/// The RIB entry of a connected network, keyed as the RIB keys it.
pub open spec fn connected_entry(n: Ipv4Net) -> (Seq<char>, RibView) {
    (prefix_key(n), connected_route(n))
}

/// An interface to give a router: its name, address, bandwidth and cost.
type NewIface<'a> = (&'a str, Ipv4Net, u64, u32);

/// The id that a new interface gets on the router keyed `rid`.
spec fn new_iface_id(rid: Seq<char>, p: NewIface) -> Seq<char> {
    interface_id_text(rid, p.0@)
}

/// What `interface_facts` records of a new interface on the router keyed
/// `rid`.
spec fn new_iface_facts(rid: Seq<char>, p: NewIface) -> (Seq<char>, u32, u8, u64, u32) {
    (new_iface_id(rid, p), p.1.addr, p.1.prefix, p.2, p.3)
}

/// Gives a router without interfaces, whose OSPF process has the empty
/// backbone area alone, the interfaces `ifaces` in order; the ids of the
/// new interfaces.
fn add_interfaces(router: &mut Router, ifaces: &[NewIface]) -> (ids: Vec<String>)
    requires
        old(router)@.interfaces.len() == 0,
        old(router)@.rib.len() == 0,
        not_yet_run(old(router)@),
        area_facts(old(router)@) == Some(seq![(0u32, Seq::<Seq<char>>::empty())]),
        forall|i: int, j: int| 0 <= i < j < ifaces@.len() ==> ifaces@[i].0@ != ifaces@[j].0@,
        forall|i: int, j: int|
            0 <= i < j < ifaces@.len() ==> network_of(ifaces@[i].1) != network_of(ifaces@[j].1),
    ensures
        keys_unique(final(router)@),
        links_recorded(final(router)@, Seq::empty()),
        not_yet_run(final(router)@),
        final(router)@.rib == ifaces@.map_values(|p: NewIface| connected_entry(p.1)),
        final(router)@.id == old(router)@.id,
        final(router)@.name == old(router)@.name,
        final(router)@.as_id == old(router)@.as_id,
        final(router)@.router_id_ip == old(router)@.router_id_ip,
        final(router)@.bgp_process == old(router)@.bgp_process,
        strings_view(ids@) == ifaces@.map_values(|p: NewIface| new_iface_id(old(router)@.id, p)),
        interface_facts(final(router)@) == ifaces@.map_values(|p: NewIface| new_iface_facts(old(router)@.id, p)),
        area_facts(final(router)@) == Some(seq![(0u32, strings_view(ids@))]),
{
    let ghost r0 = router@;
    let ghost rid = r0.id;
    let mut ids: Vec<String> = Vec::new();
    let mut k: usize = 0;
    proof {
        assert(strings_view(ids@) =~= Seq::empty());
        assert(ifaces@.take(0) =~= Seq::empty());
        assert(interface_facts(router@) =~= Seq::empty());
        assert(router@.rib =~= ifaces@.take(0).map_values(|p: NewIface| connected_entry(p.1)));
    }
    while k < ifaces.len()
        invariant
            k <= ifaces@.len(),
            forall|i: int, j: int| 0 <= i < j < ifaces@.len() ==> ifaces@[i].0@ != ifaces@[j].0@,
            forall|i: int, j: int|
                0 <= i < j < ifaces@.len() ==> network_of(ifaces@[i].1) != network_of(ifaces@[j].1),
            router@.rib == ifaces@.take(k as int).map_values(|p: NewIface| connected_entry(p.1)),
            keys_unique(router@),
            links_recorded(router@, Seq::empty()),
            not_yet_run(router@),
            router@.id == rid,
            router@.name == r0.name,
            router@.as_id == r0.as_id,
            router@.router_id_ip == r0.router_id_ip,
            router@.bgp_process == r0.bgp_process,
            strings_view(ids@) == ifaces@.take(k as int).map_values(|p: NewIface| new_iface_id(rid, p)),
            interface_facts(router@) == ifaces@.take(k as int).map_values(|p: NewIface| new_iface_facts(rid, p)),
            area_facts(router@) == Some(seq![(0u32, strings_view(ids@))]),
        decreases ifaces@.len() - k,
    {
        let (name, net, bandwidth, cost) = ifaces[k];
        let ghost before = router@;
        proof {
            let nid = interface_id_text(rid, name@);
            assert(name@ == ifaces@[k as int].0@);
            assert(before.interfaces.len() == interface_facts(before).len());
            assert(before.interfaces.len() == k);
            assert forall|j: int| 0 <= j < before.interfaces.len() implies (#[trigger] before.interfaces[j]).0
                != nid by {
                assert(interface_facts(before)[j].0 == before.interfaces[j].0);
                assert(ifaces@.take(k as int)[j] == ifaces@[j]);
                assert(ifaces@[j].0@ != ifaces@[k as int].0@);
                lemma_iface_ids_differ(rid, ifaces@[j].0@, name@);
            }
            crate::table::lemma_key_index_is(before.interfaces, nid, before.interfaces.len() as int);
            assert(before.rib.len() == k);
            assert forall|j: int| 0 <= j < before.rib.len() implies (#[trigger] before.rib[j]).0
                != prefix_key(net) by {
                assert(ifaces@.take(k as int)[j] == ifaces@[j]);
                assert(network_of(ifaces@[j].1) != network_of(ifaces@[k as int].1));
                lemma_prefix_keys_differ(ifaces@[j].1, net);
            }
            crate::table::lemma_key_index_is(before.rib, prefix_key(net), before.rib.len() as int);
            assert(before.ospf_process is Some);
            let o = before.ospf_process->0;
            let af = o.areas.map_values(|a: (u32, AreaView)| (a.0, a.1.interface_ids));
            assert(af == seq![(0u32, strings_view(ids@))]);
            assert(af.len() == 1);
            assert(af[0].0 == 0);
            assert(o.areas.len() == 1);
            assert(o.areas[0].0 == 0);
            assert(area_index(o.areas, 0) == 0) by {
                reveal_with_fuel(area_index, 2);
                assert(o.areas.drop_last().len() == 0);
            }
        }
        let id = add_interface(router, name, net, bandwidth, cost);
        let ghost old_ids = strings_view(ids@);
        let ghost id_v = id@;
        ids.push(id);
        proof {
            let pk = ifaces@.take(k as int + 1);
            let p = ifaces@[k as int];
            assert(pk =~= ifaces@.take(k as int).push(p));
            assert(strings_view(ids@) =~= old_ids.push(id_v));
            assert(pk.map_values(|p: NewIface| new_iface_id(rid, p)) =~= ifaces@.take(k as int).map_values(
                |p: NewIface| new_iface_id(rid, p),
            ).push(new_iface_id(rid, p)));
            assert(router@.interfaces =~= before.interfaces.push(
                (
                    id_v,
                    InterfaceView {
                        id: id_v,
                        router_id: rid,
                        ip_address: net,
                        link_id: None,
                        bandwidth,
                        cost,
                        is_up: true,
                    },
                ),
            ));
            assert(interface_facts(router@) =~= interface_facts(before).push(new_iface_facts(rid, p)));
            assert(pk.map_values(|p: NewIface| new_iface_facts(rid, p)) =~= ifaces@.take(k as int).map_values(
                |p: NewIface| new_iface_facts(rid, p),
            ).push(new_iface_facts(rid, p)));
            assert(router@.rib =~= before.rib.push(connected_entry(net)));
            assert(router@.rib =~= pk.map_values(|p: NewIface| connected_entry(p.1)));
            assert(strings_view(ids@) =~= pk.map_values(|p: NewIface| new_iface_id(rid, p)));
            assert(interface_facts(router@) =~= pk.map_values(|p: NewIface| new_iface_facts(rid, p)));
            let o = router@.ospf_process->0;
            assert(o.areas.map_values(|a: (u32, AreaView)| (a.0, a.1.interface_ids)) =~= seq![
                (0u32, strings_view(ids@)),
            ]);
        }
        k += 1;
    }
    proof {
        assert(ifaces@.take(ifaces@.len() as int) =~= ifaces@);
    }
    ids
}

/// An interface id of the sample network: `rtr-r<d>-<name>`.
pub open spec fn sample_iface(d: char, name: Seq<char>) -> Seq<char> {
    seq!['r', 't', 'r', '-', 'r', d, '-'] + name
}

proof fn lemma_sample_router_id(name: Seq<char>, d: char)
    requires
        name == seq!['R', d],
        '0' <= d <= '9',
    ensures
        forall|i: int| 0 <= i < name.len() ==> (#[trigger] name[i] as u32) < 128,
        "rtr-"@ + replace_char(name.map_values(|c: char| ascii_lower(c)), ' ', '-') == seq![
            'r',
            't',
            'r',
            '-',
            'r',
            d,
        ],
{
    reveal_strlit("rtr-");
    assert(name.map_values(|c: char| ascii_lower(c)) =~= seq!['r', d]);
    assert(replace_char(seq!['r', d], ' ', '-') =~= seq!['r', d]);
    assert("rtr-"@ + seq!['r', d] =~= seq!['r', 't', 'r', '-', 'r', d]);
}

proof fn lemma_sample_iface(rid: Seq<char>, d: char, name: Seq<char>, id: Seq<char>)
    requires
        rid == seq!['r', 't', 'r', '-', 'r', d],
        id == interface_id_text(rid, name),
    ensures
        id == sample_iface(d, name),
{
    reveal_strlit("-");
    assert(id =~= sample_iface(d, name));
}

/// The link ids of the sample network differ from one another.
proof fn lemma_sample_link_ids_differ()
    ensures
        ({
            let l1 = link_id_text(sample_iface('1', "eth0"@), sample_iface('2', "eth0"@));
            let l2 = link_id_text(sample_iface('1', "eth1"@), sample_iface('3', "eth0"@));
            let l3 = link_id_text(sample_iface('2', "eth1"@), sample_iface('3', "eth1"@));
            let l4 = link_id_text(sample_iface('4', "eth1"@), sample_iface('5', "eth0"@));
            let l5 = link_id_text(sample_iface('1', "eth2"@), sample_iface('4', "eth0"@));
            &&& l2 != l1
            &&& l3 != l1 && l3 != l2
            &&& l4 != l1 && l4 != l2 && l4 != l3
            &&& l5 != l1 && l5 != l2 && l5 != l3 && l5 != l4
        }),
{
    reveal_strlit("eth0");
    reveal_strlit("eth1");
    reveal_strlit("eth2");
    let r1e0 = sample_iface('1', "eth0"@);
    let r1e1 = sample_iface('1', "eth1"@);
    let r1e2 = sample_iface('1', "eth2"@);
    let r2e0 = sample_iface('2', "eth0"@);
    let r2e1 = sample_iface('2', "eth1"@);
    let r3e0 = sample_iface('3', "eth0"@);
    let r3e1 = sample_iface('3', "eth1"@);
    let r4e0 = sample_iface('4', "eth0"@);
    let r4e1 = sample_iface('4', "eth1"@);
    let r5e0 = sample_iface('5', "eth0"@);
    assert(r1e0[10] == '0' && r1e1[10] == '1' && r1e2[10] == '2');
    assert(r1e0[5] == '1' && r2e1[5] == '2' && r4e1[5] == '4' && r1e1[5] == '1' && r1e2[5] == '1');
    lemma_link_ids_differ(r1e1, r3e0, r1e0, r2e0, 10);
    lemma_link_ids_differ(r2e1, r3e1, r1e0, r2e0, 5);
    lemma_link_ids_differ(r2e1, r3e1, r1e1, r3e0, 5);
    lemma_link_ids_differ(r4e1, r5e0, r1e0, r2e0, 5);
    lemma_link_ids_differ(r4e1, r5e0, r1e1, r3e0, 5);
    lemma_link_ids_differ(r4e1, r5e0, r2e1, r3e1, 5);
    lemma_link_ids_differ(r1e2, r4e0, r1e0, r2e0, 10);
    lemma_link_ids_differ(r1e2, r4e0, r1e1, r3e0, 10);
    lemma_link_ids_differ(r1e2, r4e0, r2e1, r3e1, 5);
    lemma_link_ids_differ(r1e2, r4e0, r4e1, r5e0, 5);
}

/// The key and router id of each of two routers, read off the table.
proof fn lemma_two_router_facts(
    rs: Seq<(Seq<char>, RouterView)>,
    k0: Seq<char>,
    ip0: u32,
    k1: Seq<char>,
    ip1: u32,
)
    requires
        rs.len() == 2,
        rs[0].0 == k0,
        rs[0].1.router_id_ip == ip0,
        rs[1].0 == k1,
        rs[1].1.router_id_ip == ip1,
    ensures
        router_facts(rs) == seq![(k0, ip0), (k1, ip1)],
{
    assert(router_facts(rs) =~= seq![(k0, ip0), (k1, ip1)]);
}

/// The sample network's router keys, as text.
proof fn lemma_sample_router_keys()
    ensures
        seq!['r', 't', 'r', '-', 'r', '1'] == "rtr-r1"@,
        seq!['r', 't', 'r', '-', 'r', '2'] == "rtr-r2"@,
        seq!['r', 't', 'r', '-', 'r', '3'] == "rtr-r3"@,
        seq!['r', 't', 'r', '-', 'r', '4'] == "rtr-r4"@,
        seq!['r', 't', 'r', '-', 'r', '5'] == "rtr-r5"@,
{
    reveal_strlit("rtr-r1");
    reveal_strlit("rtr-r2");
    reveal_strlit("rtr-r3");
    reveal_strlit("rtr-r4");
    reveal_strlit("rtr-r5");
    assert(seq!['r', 't', 'r', '-', 'r', '1'] =~= "rtr-r1"@);
    assert(seq!['r', 't', 'r', '-', 'r', '2'] =~= "rtr-r2"@);
    assert(seq!['r', 't', 'r', '-', 'r', '3'] =~= "rtr-r3"@);
    assert(seq!['r', 't', 'r', '-', 'r', '4'] =~= "rtr-r4"@);
    assert(seq!['r', 't', 'r', '-', 'r', '5'] =~= "rtr-r5"@);
}

/// The sample network's link ids and interface ids, as text.
proof fn lemma_sample_link_literals()
    ensures
        sample_iface('1', "eth0"@) == "rtr-r1-eth0"@,
        sample_iface('1', "eth1"@) == "rtr-r1-eth1"@,
        sample_iface('1', "eth2"@) == "rtr-r1-eth2"@,
        sample_iface('2', "eth0"@) == "rtr-r2-eth0"@,
        sample_iface('2', "eth1"@) == "rtr-r2-eth1"@,
        sample_iface('3', "eth0"@) == "rtr-r3-eth0"@,
        sample_iface('3', "eth1"@) == "rtr-r3-eth1"@,
        sample_iface('4', "eth0"@) == "rtr-r4-eth0"@,
        sample_iface('4', "eth1"@) == "rtr-r4-eth1"@,
        sample_iface('5', "eth0"@) == "rtr-r5-eth0"@,
        link_id_text("rtr-r1-eth0"@, "rtr-r2-eth0"@) == "link-rtr-r1-eth0-rtr-r2-eth0"@,
        link_id_text("rtr-r1-eth1"@, "rtr-r3-eth0"@) == "link-rtr-r1-eth1-rtr-r3-eth0"@,
        link_id_text("rtr-r2-eth1"@, "rtr-r3-eth1"@) == "link-rtr-r2-eth1-rtr-r3-eth1"@,
        link_id_text("rtr-r4-eth1"@, "rtr-r5-eth0"@) == "link-rtr-r4-eth1-rtr-r5-eth0"@,
        link_id_text("rtr-r1-eth2"@, "rtr-r4-eth0"@) == "link-rtr-r1-eth2-rtr-r4-eth0"@,
{
    reveal_strlit("-");
    reveal_strlit("link-");
    reveal_strlit("eth0");
    reveal_strlit("eth1");
    reveal_strlit("eth2");
    reveal_strlit("rtr-r1-eth0");
    reveal_strlit("rtr-r1-eth1");
    reveal_strlit("rtr-r1-eth2");
    reveal_strlit("rtr-r2-eth0");
    reveal_strlit("rtr-r2-eth1");
    reveal_strlit("rtr-r3-eth0");
    reveal_strlit("rtr-r3-eth1");
    reveal_strlit("rtr-r4-eth0");
    reveal_strlit("rtr-r4-eth1");
    reveal_strlit("rtr-r5-eth0");
    reveal_strlit("link-rtr-r1-eth0-rtr-r2-eth0");
    reveal_strlit("link-rtr-r1-eth1-rtr-r3-eth0");
    reveal_strlit("link-rtr-r2-eth1-rtr-r3-eth1");
    reveal_strlit("link-rtr-r4-eth1-rtr-r5-eth0");
    reveal_strlit("link-rtr-r1-eth2-rtr-r4-eth0");
    assert(sample_iface('1', "eth0"@) =~= "rtr-r1-eth0"@);
    assert(sample_iface('1', "eth1"@) =~= "rtr-r1-eth1"@);
    assert(sample_iface('1', "eth2"@) =~= "rtr-r1-eth2"@);
    assert(sample_iface('2', "eth0"@) =~= "rtr-r2-eth0"@);
    assert(sample_iface('2', "eth1"@) =~= "rtr-r2-eth1"@);
    assert(sample_iface('3', "eth0"@) =~= "rtr-r3-eth0"@);
    assert(sample_iface('3', "eth1"@) =~= "rtr-r3-eth1"@);
    assert(sample_iface('4', "eth0"@) =~= "rtr-r4-eth0"@);
    assert(sample_iface('4', "eth1"@) =~= "rtr-r4-eth1"@);
    assert(sample_iface('5', "eth0"@) =~= "rtr-r5-eth0"@);
    assert(link_id_text("rtr-r1-eth0"@, "rtr-r2-eth0"@) =~= "link-rtr-r1-eth0-rtr-r2-eth0"@);
    assert(link_id_text("rtr-r1-eth1"@, "rtr-r3-eth0"@) =~= "link-rtr-r1-eth1-rtr-r3-eth0"@);
    assert(link_id_text("rtr-r2-eth1"@, "rtr-r3-eth1"@) =~= "link-rtr-r2-eth1-rtr-r3-eth1"@);
    assert(link_id_text("rtr-r4-eth1"@, "rtr-r5-eth0"@) =~= "link-rtr-r4-eth1-rtr-r5-eth0"@);
    assert(link_id_text("rtr-r1-eth2"@, "rtr-r4-eth0"@) =~= "link-rtr-r1-eth2-rtr-r4-eth0"@);
}

/// The interfaces of router R<d> of the sample network (`d` from `1` to
/// `5`), in the order they are added: key, address, prefix length,
/// bandwidth and cost.
pub open spec fn sample_interfaces(d: char) -> Seq<(Seq<char>, u32, u8, u64, u32)> {
    let gig = 1_000_000_000u64;
    if d == '1' {
        seq![
            (sample_iface('1', "eth0"@), 0x0a00_0c01u32, 30u8, gig, 10u32),
            (sample_iface('1', "eth1"@), 0x0a00_0d01u32, 30u8, gig, 10u32),
            (sample_iface('1', "lo0"@), 0x0a01_0101u32, 32u8, 0u64, 0u32),
            (sample_iface('1', "eth2"@), 0xac10_0001u32, 30u8, gig, 10u32),
        ]
    } else if d == '2' {
        seq![
            (sample_iface('2', "eth0"@), 0x0a00_0c02u32, 30u8, gig, 10u32),
            (sample_iface('2', "eth1"@), 0x0a00_1701u32, 30u8, gig, 10u32),
            (sample_iface('2', "lo0"@), 0x0a01_0201u32, 32u8, 0u64, 0u32),
        ]
    } else if d == '3' {
        seq![
            (sample_iface('3', "eth0"@), 0x0a00_0d02u32, 30u8, gig, 10u32),
            (sample_iface('3', "eth1"@), 0x0a00_1702u32, 30u8, gig, 10u32),
            (sample_iface('3', "lo0"@), 0x0a01_0301u32, 32u8, 0u64, 0u32),
        ]
    } else if d == '4' {
        seq![
            (sample_iface('4', "eth0"@), 0xac10_0002u32, 30u8, gig, 10u32),
            (sample_iface('4', "eth1"@), 0x0a02_2d01u32, 30u8, gig, 10u32),
            (sample_iface('4', "lo0"@), 0x0a02_0401u32, 32u8, 0u64, 0u32),
        ]
    } else {
        seq![
            (sample_iface('5', "eth0"@), 0x0a02_2d02u32, 30u8, gig, 10u32),
            (sample_iface('5', "lo0"@), 0x0a02_0501u32, 32u8, 0u64, 0u32),
        ]
    }
}

/// The connected routes of a list of interfaces, in order.
pub open spec fn connected_rib(f: Seq<(Seq<char>, u32, u8, u64, u32)>) -> Seq<(Seq<char>, RibView)> {
    f.map_values(|e: (Seq<char>, u32, u8, u64, u32)| connected_entry(Ipv4Net { addr: e.1, prefix: e.2 }))
}

/// The keys of a list of interfaces.
pub open spec fn keys_of(f: Seq<(Seq<char>, u32, u8, u64, u32)>) -> Seq<Seq<char>> {
    f.map_values(|e: (Seq<char>, u32, u8, u64, u32)| e.0)
}

/// A BGP process as `enable_bgp` starts it: no neighbors, routes or best
/// paths yet.
pub open spec fn fresh_bgp(local_asn: u32, router_id: u32) -> BgpProcessView {
    BgpProcessView {
        local_asn,
        router_id,
        neighbors: Seq::empty(),
        loc_rib: Seq::empty(),
        best_routes: Seq::empty(),
    }
}

/// A fresh BGP process with one neighbor added by `add_bgp_neighbor`,
/// without policies.
pub open spec fn bgp_with_peer(local_asn: u32, router_id: u32, peer_ip: u32, peer_asn: u32) -> BgpProcessView {
    BgpProcessView {
        neighbors: seq![(ipv4_text(peer_ip), new_neighbor(peer_ip, peer_asn, local_asn, None, None))],
        ..fresh_bgp(local_asn, router_id)
    }
}

/// How router R<d> of the sample network is set up, given its BGP process
/// when it runs one:
/// all its interfaces are in the backbone area, and its RIB holds the
/// connected route of each.
pub open spec fn sample_setup(d: char, bgp: Option<BgpProcessView>) -> RouterSetup {
    (
        sample_interfaces(d),
        bgp,
        Some(seq![(0u32, keys_of(sample_interfaces(d)))]),
        connected_rib(sample_interfaces(d)),
    )
}

/// How the routers of the sample network are set up, AS by AS: R1 in AS
/// 65001 and R4 in AS 65002 run BGP and peer with each other.
pub open spec fn sample_setups() -> Seq<Seq<RouterSetup>> {
    seq![
        seq![
            sample_setup('1', Some(bgp_with_peer(65001, 0x0101_0101, 0x0404_0404, 65002))),
            sample_setup('2', None),
            sample_setup('3', None),
        ],
        seq![
            sample_setup('4', Some(bgp_with_peer(65002, 0x0404_0404, 0x0101_0101, 65001))),
            sample_setup('5', None),
        ],
    ]
}

/// The interface names of the sample network differ from one another.
proof fn lemma_iface_names_differ()
    ensures
        "eth0"@ != "eth1"@,
        "eth0"@ != "eth2"@,
        "eth1"@ != "eth2"@,
        "eth0"@ != "lo0"@,
        "eth1"@ != "lo0"@,
        "eth2"@ != "lo0"@,
{
    reveal_strlit("eth0");
    reveal_strlit("eth1");
    reveal_strlit("eth2");
    reveal_strlit("lo0");
    assert("lo0"@.len() == 3 && "eth0"@.len() == 4 && "eth1"@.len() == 4 && "eth2"@.len() == 4);
    assert("eth0"@[3] != "eth1"@[3]);
    assert("eth0"@[3] != "eth2"@[3]);
    assert("eth1"@[3] != "eth2"@[3]);
}

/// New interfaces whose names and settings are those of a list of interfaces of
/// router R<d> give that list.
proof fn lemma_sample_ifaces(d: char, ifaces: Seq<NewIface>, facts: Seq<(Seq<char>, u32, u8, u64, u32)>)
    requires
        ifaces.len() == facts.len(),
        forall|i: int|
            0 <= i < ifaces.len() ==> (#[trigger] facts[i]) == (
                sample_iface(d, ifaces[i].0@),
                ifaces[i].1.addr,
                ifaces[i].1.prefix,
                ifaces[i].2,
                ifaces[i].3,
            ),
    ensures
        ifaces.map_values(|p: NewIface| new_iface_facts(seq!['r', 't', 'r', '-', 'r', d], p)) == facts,
        ifaces.map_values(|p: NewIface| new_iface_id(seq!['r', 't', 'r', '-', 'r', d], p)) == keys_of(facts),
{
    let rid = seq!['r', 't', 'r', '-', 'r', d];
    assert forall|i: int| 0 <= i < ifaces.len() implies #[trigger] new_iface_id(rid, ifaces[i])
        == facts[i].0 by {
        lemma_sample_iface(rid, d, ifaces[i].0@, new_iface_id(rid, ifaces[i]));
    }
    assert(ifaces.map_values(|p: NewIface| new_iface_facts(rid, p)) =~= facts);
    assert(ifaces.map_values(|p: NewIface| new_iface_id(rid, p)) =~= keys_of(facts));
}

/// A new router of the sample network, `R<d>` in the AS keyed `as_id`,
/// with the interfaces `ifaces`; the ids of the interfaces.
fn sample_router(name: &str, d: Ghost<char>, as_id: &str, router_id_ip: u32, ifaces: &[NewIface]) -> (r: (
    Router,
    Vec<String>,
))
    requires
        name@ == seq!['R', d@],
        '0' <= d@ <= '9',
        forall|i: int, j: int| 0 <= i < j < ifaces@.len() ==> ifaces@[i].0@ != ifaces@[j].0@,
        forall|i: int, j: int|
            0 <= i < j < ifaces@.len() ==> network_of(ifaces@[i].1) != network_of(ifaces@[j].1),
    ensures
        keys_unique(r.0@),
        links_recorded(r.0@, Seq::empty()),
        not_yet_run(r.0@),
        r.0@.rib == ifaces@.map_values(|p: NewIface| connected_entry(p.1)),
        r.0@.name == name@,
        r.0@.as_id == as_id@,
        r.0@.id == seq!['r', 't', 'r', '-', 'r', d@],
        r.0@.router_id_ip == router_id_ip,
        r.0@.bgp_process is None,
        interface_facts(r.0@) == ifaces@.map_values(
            |p: NewIface| new_iface_facts(seq!['r', 't', 'r', '-', 'r', d@], p),
        ),
        strings_view(r.1@) == ifaces@.map_values(|p: NewIface| new_iface_id(seq!['r', 't', 'r', '-', 'r', d@], p)),
        area_facts(r.0@) == Some(seq![(0u32, strings_view(r.1@))]),
{
    let mut router = create_router(name, as_id, router_id_ip);
    proof {
        lemma_sample_router_id(name@, d@);
        assert(router@.interfaces.len() == 0);
        assert(router@.rib.len() == 0);
        assert(area_facts(router@) =~= Some(seq![(0u32, Seq::<Seq<char>>::empty())])) by {
            let o = router@.ospf_process->0;
            assert(o.areas.map_values(|a: (u32, AreaView)| (a.0, a.1.interface_ids)) =~= seq![
                (0u32, Seq::<Seq<char>>::empty()),
            ]);
        }
    }
    let ids = add_interfaces(&mut router, ifaces);
    (router, ids)
}

/// Routers keyed and set up as the three given, in this order.
proof fn lemma_three_setups(
    rs: Seq<(Seq<char>, RouterView)>,
    a: RouterView,
    b: RouterView,
    c: RouterView,
)
    requires
        rs.len() == 3,
        rs[0].1 == a,
        rs[1].1 == b,
        rs[2].1 == c,
    ensures
        rs.map_values(|e: (Seq<char>, RouterView)| setup_of(e.1)) == seq![setup_of(a), setup_of(b), setup_of(c)],
{
    assert(rs.map_values(|e: (Seq<char>, RouterView)| setup_of(e.1)) =~= seq![
        setup_of(a),
        setup_of(b),
        setup_of(c),
    ]);
}

/// Routers keyed and set up as the two given, in this order.
proof fn lemma_two_setups(rs: Seq<(Seq<char>, RouterView)>, a: RouterView, b: RouterView)
    requires
        rs.len() == 2,
        rs[0].1 == a,
        rs[1].1 == b,
    ensures
        rs.map_values(|e: (Seq<char>, RouterView)| setup_of(e.1)) == seq![setup_of(a), setup_of(b)],
{
    assert(rs.map_values(|e: (Seq<char>, RouterView)| setup_of(e.1)) =~= seq![setup_of(a), setup_of(b)]);
}

/// A router set up by `sample_router` as R<d>, then given a BGP process
/// without neighbors when `bgp` says so.
proof fn lemma_sample_setup(
    r: RouterView,
    d: char,
    ifaces: Seq<NewIface>,
    ids: Seq<Seq<char>>,
    bgp: Option<BgpProcessView>,
)
    requires
        ifaces.len() == sample_interfaces(d).len(),
        forall|i: int|
            0 <= i < ifaces.len() ==> (#[trigger] sample_interfaces(d)[i]) == (
                sample_iface(d, ifaces[i].0@),
                ifaces[i].1.addr,
                ifaces[i].1.prefix,
                ifaces[i].2,
                ifaces[i].3,
            ),
        interface_facts(r) == ifaces.map_values(|p: NewIface| new_iface_facts(seq!['r', 't', 'r', '-', 'r', d], p)),
        ids == ifaces.map_values(|p: NewIface| new_iface_id(seq!['r', 't', 'r', '-', 'r', d], p)),
        area_facts(r) == Some(seq![(0u32, ids)]),
        r.bgp_process == bgp,
        r.rib == ifaces.map_values(|p: NewIface| connected_entry(p.1)),
    ensures
        setup_of(r) == sample_setup(d, bgp),
        ids == keys_of(sample_interfaces(d)),
{
    lemma_sample_ifaces(d, ifaces, sample_interfaces(d));
    assert(r.rib =~= connected_rib(sample_interfaces(d))) by {
        assert forall|i: int| 0 <= i < ifaces.len() implies #[trigger] ifaces[i].1 == Ipv4Net {
            addr: sample_interfaces(d)[i].1,
            prefix: sample_interfaces(d)[i].2,
        } by {}
    }
}

/// AS 65001 of the sample network: routers R1, R2 and R3 with their
/// interfaces and loopbacks, R1 running BGP; with the ids of the
/// interfaces that the sample's links join (R1 eth0, R2 eth0, R1 eth1,
/// R3 eth0, R2 eth1, R3 eth1, R1 eth2).
fn sample_alpha() -> (r: (AutonomousSystem, Vec<String>))
    ensures
        r.0@.id == as_id_text(65001),
        forall|i: int|
            0 <= i < r.0@.routers.len() ==> keys_unique((#[trigger] r.0@.routers[i]).1) && links_recorded(
                r.0@.routers[i].1,
                Seq::empty(),
            ) && not_yet_run(r.0@.routers[i].1),
        r.0@.asn == 65001,
        r.0@.name == "AS-Alpha"@,
        r.0@.ospf_areas.len() == 0,
        router_facts(r.0@.routers) == seq![
            ("rtr-r1"@, 0x0101_0101u32),
            ("rtr-r2"@, 0x0202_0202u32),
            ("rtr-r3"@, 0x0303_0303u32),
        ],
        r.0@.routers.map_values(|e: (Seq<char>, RouterView)| (e.1.name, e.1.as_id)) == seq![
            ("R1"@, as_id_text(65001)),
            ("R2"@, as_id_text(65001)),
            ("R3"@, as_id_text(65001)),
        ],
        r.0@.routers.map_values(|e: (Seq<char>, RouterView)| setup_of(e.1)) == seq![
            sample_setup('1', Some(fresh_bgp(65001, 0x0101_0101))),
            sample_setup('2', None),
            sample_setup('3', None),
        ],
        strings_view(r.1@) == seq![
            sample_iface('1', "eth0"@),
            sample_iface('2', "eth0"@),
            sample_iface('1', "eth1"@),
            sample_iface('3', "eth0"@),
            sample_iface('2', "eth1"@),
            sample_iface('3', "eth1"@),
            sample_iface('1', "eth2"@),
        ],
{
    let gig: u64 = 1_000_000_000;
    let mut as1 = create_autonomous_system(65001, "AS-Alpha");
    proof {
        reveal_strlit("R1");
        reveal_strlit("R2");
        reveal_strlit("R3");
        assert("R1"@ =~= seq!['R', '1']);
        assert("R2"@ =~= seq!['R', '2']);
        assert("R3"@ =~= seq!['R', '3']);
        lemma_iface_names_differ();
        lemma_short_prefix_networks();
    }
    let p1: Vec<NewIface> = vec![
        ("eth0", Ipv4Net { addr: 0x0a00_0c01, prefix: 30 }, gig, 10),
        ("eth1", Ipv4Net { addr: 0x0a00_0d01, prefix: 30 }, gig, 10),
        ("lo0", Ipv4Net { addr: 0x0a01_0101, prefix: 32 }, 0, 0),
        ("eth2", Ipv4Net { addr: 0xac10_0001, prefix: 30 }, gig, 10),
    ];
    let (mut r1, ids1) = sample_router("R1", Ghost('1'), as1.id.as_str(), 0x0101_0101, p1.as_slice());
    let p2: Vec<NewIface> = vec![
        ("eth0", Ipv4Net { addr: 0x0a00_0c02, prefix: 30 }, gig, 10),
        ("eth1", Ipv4Net { addr: 0x0a00_1701, prefix: 30 }, gig, 10),
        ("lo0", Ipv4Net { addr: 0x0a01_0201, prefix: 32 }, 0, 0),
    ];
    let (r2, ids2) = sample_router("R2", Ghost('2'), as1.id.as_str(), 0x0202_0202, p2.as_slice());
    let p3: Vec<NewIface> = vec![
        ("eth0", Ipv4Net { addr: 0x0a00_0d02, prefix: 30 }, gig, 10),
        ("eth1", Ipv4Net { addr: 0x0a00_1702, prefix: 30 }, gig, 10),
        ("lo0", Ipv4Net { addr: 0x0a01_0301, prefix: 32 }, 0, 0),
    ];
    let (r3, ids3) = sample_router("R3", Ghost('3'), as1.id.as_str(), 0x0303_0303, p3.as_slice());
    let ghost before_bgp = r1@;
    enable_bgp(&mut r1, 65001);
    proof {
        assert(interface_facts(r1@) == interface_facts(before_bgp));
        assert(area_facts(r1@) == area_facts(before_bgp));
        lemma_sample_setup(r1@, '1', p1@, strings_view(ids1@), Some(fresh_bgp(65001, 0x0101_0101)));
        lemma_sample_setup(r2@, '2', p2@, strings_view(ids2@), None);
        lemma_sample_setup(r3@, '3', p3@, strings_view(ids3@), None);
    }
    proof {
        assert(ids1@.len() == strings_view(ids1@).len());
        assert(ids2@.len() == strings_view(ids2@).len());
        assert(ids3@.len() == strings_view(ids3@).len());
    }
    let ids = vec![
        ids1[0].clone(),
        ids2[0].clone(),
        ids1[1].clone(),
        ids3[0].clone(),
        ids2[1].clone(),
        ids3[1].clone(),
        ids1[3].clone(),
    ];
    proof {
        assert(strings_view(ids1@)[0] == ids1@[0]@);
        assert(strings_view(ids1@)[1] == ids1@[1]@);
        assert(strings_view(ids1@)[3] == ids1@[3]@);
        assert(strings_view(ids2@)[0] == ids2@[0]@);
        assert(strings_view(ids2@)[1] == ids2@[1]@);
        assert(strings_view(ids3@)[0] == ids3@[0]@);
        assert(strings_view(ids3@)[1] == ids3@[1]@);
        assert(strings_view(ids@) =~= seq![
            sample_iface('1', "eth0"@),
            sample_iface('2', "eth0"@),
            sample_iface('1', "eth1"@),
            sample_iface('3', "eth0"@),
            sample_iface('2', "eth1"@),
            sample_iface('3', "eth1"@),
            sample_iface('1', "eth2"@),
        ]);
        assert(as1@.routers.len() == 0);
        assert(table_view(as1.routers@).len() == as1.routers@.len());
    }
    as1.routers.push((r1.id.clone(), r1));
    as1.routers.push((r2.id.clone(), r2));
    as1.routers.push((r3.id.clone(), r3));
    proof {
        lemma_sample_router_keys();
        assert(as1@.routers.len() == 3);
        lemma_three_setups(as1@.routers, as1@.routers[0].1, as1@.routers[1].1, as1@.routers[2].1);
        assert(as1@.routers.map_values(|e: (Seq<char>, RouterView)| (e.1.name, e.1.as_id)) =~= seq![
            ("R1"@, as_id_text(65001)),
            ("R2"@, as_id_text(65001)),
            ("R3"@, as_id_text(65001)),
        ]);
        assert(router_facts(as1@.routers) =~= seq![
            ("rtr-r1"@, 0x0101_0101u32),
            ("rtr-r2"@, 0x0202_0202u32),
            ("rtr-r3"@, 0x0303_0303u32),
        ]);
    }
    (as1, ids)
}

/// AS 65002 of the sample network: routers R4 and R5 with their
/// interfaces and loopbacks, R4 running BGP; with the ids of the
/// interfaces that the sample's links join (R4 eth0, R4 eth1, R5 eth0).
fn sample_beta() -> (r: (AutonomousSystem, Vec<String>))
    ensures
        r.0@.id == as_id_text(65002),
        forall|i: int|
            0 <= i < r.0@.routers.len() ==> keys_unique((#[trigger] r.0@.routers[i]).1) && links_recorded(
                r.0@.routers[i].1,
                Seq::empty(),
            ) && not_yet_run(r.0@.routers[i].1),
        r.0@.asn == 65002,
        r.0@.name == "AS-Beta"@,
        r.0@.ospf_areas.len() == 0,
        router_facts(r.0@.routers) == seq![("rtr-r4"@, 0x0404_0404u32), ("rtr-r5"@, 0x0505_0505u32)],
        r.0@.routers.map_values(|e: (Seq<char>, RouterView)| (e.1.name, e.1.as_id)) == seq![
            ("R4"@, as_id_text(65002)),
            ("R5"@, as_id_text(65002)),
        ],
        r.0@.routers.map_values(|e: (Seq<char>, RouterView)| setup_of(e.1)) == seq![
            sample_setup('4', Some(fresh_bgp(65002, 0x0404_0404))),
            sample_setup('5', None),
        ],
        strings_view(r.1@) == seq![
            sample_iface('4', "eth0"@),
            sample_iface('4', "eth1"@),
            sample_iface('5', "eth0"@),
        ],
{
    let gig: u64 = 1_000_000_000;
    let mut as2 = create_autonomous_system(65002, "AS-Beta");
    proof {
        reveal_strlit("R4");
        reveal_strlit("R5");
        assert("R4"@ =~= seq!['R', '4']);
        assert("R5"@ =~= seq!['R', '5']);
        lemma_iface_names_differ();
        lemma_short_prefix_networks();
    }
    let p4: Vec<NewIface> = vec![
        ("eth0", Ipv4Net { addr: 0xac10_0002, prefix: 30 }, gig, 10),
        ("eth1", Ipv4Net { addr: 0x0a02_2d01, prefix: 30 }, gig, 10),
        ("lo0", Ipv4Net { addr: 0x0a02_0401, prefix: 32 }, 0, 0),
    ];
    let (mut r4, ids4) = sample_router("R4", Ghost('4'), as2.id.as_str(), 0x0404_0404, p4.as_slice());
    let p5: Vec<NewIface> = vec![
        ("eth0", Ipv4Net { addr: 0x0a02_2d02, prefix: 30 }, gig, 10),
        ("lo0", Ipv4Net { addr: 0x0a02_0501, prefix: 32 }, 0, 0),
    ];
    let (r5, ids5) = sample_router("R5", Ghost('5'), as2.id.as_str(), 0x0505_0505, p5.as_slice());
    let ghost before_bgp = r4@;
    enable_bgp(&mut r4, 65002);
    proof {
        assert(interface_facts(r4@) == interface_facts(before_bgp));
        assert(area_facts(r4@) == area_facts(before_bgp));
        lemma_sample_setup(r4@, '4', p4@, strings_view(ids4@), Some(fresh_bgp(65002, 0x0404_0404)));
        lemma_sample_setup(r5@, '5', p5@, strings_view(ids5@), None);
    }
    proof {
        assert(ids4@.len() == strings_view(ids4@).len());
        assert(ids5@.len() == strings_view(ids5@).len());
    }
    let ids = vec![ids4[0].clone(), ids4[1].clone(), ids5[0].clone()];
    proof {
        assert(strings_view(ids4@)[0] == ids4@[0]@);
        assert(strings_view(ids4@)[1] == ids4@[1]@);
        assert(strings_view(ids5@)[0] == ids5@[0]@);
        assert(strings_view(ids@) =~= seq![
            sample_iface('4', "eth0"@),
            sample_iface('4', "eth1"@),
            sample_iface('5', "eth0"@),
        ]);
        assert(as2@.routers.len() == 0);
        assert(table_view(as2.routers@).len() == as2.routers@.len());
    }
    as2.routers.push((r4.id.clone(), r4));
    as2.routers.push((r5.id.clone(), r5));
    proof {
        lemma_sample_router_keys();
        lemma_two_setups(as2@.routers, as2@.routers[0].1, as2@.routers[1].1);
        assert(as2@.routers.map_values(|e: (Seq<char>, RouterView)| (e.1.name, e.1.as_id)) =~= seq![
            ("R4"@, as_id_text(65002)),
            ("R5"@, as_id_text(65002)),
        ]);
        lemma_two_router_facts(
            as2@.routers,
            "rtr-r4"@,
            0x0404_0404u32,
            "rtr-r5"@,
            0x0505_0505u32,
        );
    }
    (as2, ids)
}

/// The sample network: AS 65001 ("AS-Alpha", routers R1, R2, R3 in a
/// triangle of links, R1 running BGP) and AS 65002 ("AS-Beta", routers R4
/// and R5 joined by a link, R4 running BGP), a link between R1 and R4,
/// each router with a loopback, and R1 and R4 peering over eBGP.
pub fn create_sample_topology() -> (t: Topology)
    ensures
        t@.standalone_routers.len() == 0,
        t@.policies.len() == 0,
        as_facts(t@) == seq![
            (
                as_id_text(65001),
                65001u32,
                "AS-Alpha"@,
                seq![("rtr-r1"@, 0x0101_0101u32), ("rtr-r2"@, 0x0202_0202u32), ("rtr-r3"@, 0x0303_0303u32)],
            ),
            (
                as_id_text(65002),
                65002u32,
                "AS-Beta"@,
                seq![("rtr-r4"@, 0x0404_0404u32), ("rtr-r5"@, 0x0505_0505u32)],
            ),
        ],
        forall|i: int| 0 <= i < t@.links.len() ==> (#[trigger] t@.links[i]).1.is_up && t@.links[i].1.current_load == 0,
        link_table(t@) == seq![
            ("link-rtr-r1-eth0-rtr-r2-eth0"@, "rtr-r1-eth0"@, "rtr-r2-eth0"@, 1_000_000_000u64),
            ("link-rtr-r1-eth1-rtr-r3-eth0"@, "rtr-r1-eth1"@, "rtr-r3-eth0"@, 1_000_000_000u64),
            ("link-rtr-r2-eth1-rtr-r3-eth1"@, "rtr-r2-eth1"@, "rtr-r3-eth1"@, 1_000_000_000u64),
            ("link-rtr-r4-eth1-rtr-r5-eth0"@, "rtr-r4-eth1"@, "rtr-r5-eth0"@, 1_000_000_000u64),
            ("link-rtr-r1-eth2-rtr-r4-eth0"@, "rtr-r1-eth2"@, "rtr-r4-eth0"@, 1_000_000_000u64),
        ],
        router_labels(t@) == seq![
            seq![("R1"@, as_id_text(65001)), ("R2"@, as_id_text(65001)), ("R3"@, as_id_text(65001))],
            seq![("R4"@, as_id_text(65002)), ("R5"@, as_id_text(65002))],
        ],
        router_setups(t@) == sample_setups(),
        crate::topology::tables_distinct(t@),
        as_links_recorded(t@),
        as_routers_not_yet_run(t@),
        forall|a: int|
            0 <= a < t@.autonomous_systems.len() ==> (#[trigger] t@.autonomous_systems[a]).1.ospf_areas.len()
                == 0,
{
    let mut topology = Topology::new();
    let gig: u64 = 1_000_000_000;
    let (as1, a) = sample_alpha();
    let (as2, b) = sample_beta();
    topology.autonomous_systems.push((as1.id.clone(), as1));
    topology.autonomous_systems.push((as2.id.clone(), as2));
    proof {
        assert(as_facts(topology@) =~= seq![
            (
                as_id_text(65001),
                65001u32,
                "AS-Alpha"@,
                seq![("rtr-r1"@, 0x0101_0101u32), ("rtr-r2"@, 0x0202_0202u32), ("rtr-r3"@, 0x0303_0303u32)],
            ),
            (
                as_id_text(65002),
                65002u32,
                "AS-Beta"@,
                seq![("rtr-r4"@, 0x0404_0404u32), ("rtr-r5"@, 0x0505_0505u32)],
            ),
        ]);
        assert(link_table(topology@) =~= Seq::empty());
        assert(router_setups(topology@) =~= seq![
            seq![
                sample_setup('1', Some(fresh_bgp(65001, 0x0101_0101))),
                sample_setup('2', None),
                sample_setup('3', None),
            ],
            seq![sample_setup('4', Some(fresh_bgp(65002, 0x0404_0404))), sample_setup('5', None)],
        ]);
        assert(topology@.autonomous_systems[0].1.ospf_areas =~= Seq::empty());
        assert(topology@.autonomous_systems[1].1.ospf_areas =~= Seq::empty());
        assert(as_areas(topology@) =~= seq![Seq::empty(), Seq::empty()]);
        lemma_sample_tables_distinct(topology@);
        assert(router_labels(topology@) =~= seq![
            seq![("R1"@, as_id_text(65001)), ("R2"@, as_id_text(65001)), ("R3"@, as_id_text(65001))],
            seq![("R4"@, as_id_text(65002)), ("R5"@, as_id_text(65002))],
        ]);
        assert forall|x: int, y: int|
            0 <= x < topology@.autonomous_systems.len() && 0 <= y
                < topology@.autonomous_systems[x].1.routers.len() implies {
                let rr = (#[trigger] topology@.autonomous_systems[x].1.routers[y]).1;
                keys_unique(rr) && links_recorded(rr, link_table(topology@))
            } by {
            if x == 0 {
                assert(topology@.autonomous_systems[x].1 == as1@);
            } else {
                assert(topology@.autonomous_systems[x].1 == as2@);
            }
        }
        assert forall|x: int, y: int|
            0 <= x < topology@.autonomous_systems.len() && 0 <= y
                < topology@.autonomous_systems[x].1.routers.len() implies not_yet_run(
            (#[trigger] topology@.autonomous_systems[x].1.routers[y]).1,
        ) by {
            if x == 0 {
                assert(topology@.autonomous_systems[x].1 == as1@);
            } else {
                assert(topology@.autonomous_systems[x].1 == as2@);
            }
        }
        lemma_sample_link_ids_differ();
        assert(strings_view(a@).len() == a@.len());
        assert(strings_view(b@).len() == b@.len());
        assert(a@[0]@ == strings_view(a@)[0]);
        assert(a@[1]@ == strings_view(a@)[1]);
        assert(a@[2]@ == strings_view(a@)[2]);
        assert(a@[3]@ == strings_view(a@)[3]);
        assert(a@[4]@ == strings_view(a@)[4]);
        assert(a@[5]@ == strings_view(a@)[5]);
        assert(a@[6]@ == strings_view(a@)[6]);
        assert(b@[0]@ == strings_view(b@)[0]);
        assert(b@[1]@ == strings_view(b@)[1]);
        assert(b@[2]@ == strings_view(b@)[2]);
    }
    sample_link(&mut topology, &a[0], &a[1], gig);
    proof {
        lemma_link_table_keys(topology@);
    }
    sample_link(&mut topology, &a[2], &a[3], gig);
    proof {
        lemma_link_table_keys(topology@);
    }
    sample_link(&mut topology, &a[4], &a[5], gig);
    proof {
        lemma_link_table_keys(topology@);
    }
    sample_link(&mut topology, &b[1], &b[2], gig);
    proof {
        lemma_link_table_keys(topology@);
    }
    sample_link(&mut topology, &a[6], &b[0], gig);
    proof {
        lemma_sample_link_literals();
    }
    sample_peerings(&mut topology);
    proof {
        assert forall|a: int| 0 <= a < topology@.autonomous_systems.len() implies (
        #[trigger] topology@.autonomous_systems[a]).1.ospf_areas.len() == 0 by {
            assert(as_areas(topology@)[a] == topology@.autonomous_systems[a].1.ospf_areas);
        }
    }
    topology
}

/// The sample ASes as they stand before their border routers peer.
spec fn sample_as_facts() -> Seq<(Seq<char>, u32, Seq<char>, Seq<(Seq<char>, u32)>)> {
    seq![
        (
            as_id_text(65001),
            65001u32,
            "AS-Alpha"@,
            seq![("rtr-r1"@, 0x0101_0101u32), ("rtr-r2"@, 0x0202_0202u32), ("rtr-r3"@, 0x0303_0303u32)],
        ),
        (
            as_id_text(65002),
            65002u32,
            "AS-Beta"@,
            seq![("rtr-r4"@, 0x0404_0404u32), ("rtr-r5"@, 0x0505_0505u32)],
        ),
    ]
}

/// R1 and R4 of the sample network peer with each other over eBGP.
fn sample_peerings(topology: &mut Topology)
    requires
        old(topology)@.standalone_routers.len() == 0,
        as_facts(old(topology)@) == sample_as_facts(),
        router_setups(old(topology)@) == seq![
            seq![
                sample_setup('1', Some(fresh_bgp(65001, 0x0101_0101))),
                sample_setup('2', None),
                sample_setup('3', None),
            ],
            seq![sample_setup('4', Some(fresh_bgp(65002, 0x0404_0404))), sample_setup('5', None)],
        ],
    ensures
        as_facts(final(topology)@) == as_facts(old(topology)@),
        final(topology)@.standalone_routers.len() == 0,
        final(topology)@.policies == old(topology)@.policies,
        final(topology)@.links == old(topology)@.links,
        as_areas(final(topology)@) == as_areas(old(topology)@),
        as_links_recorded(old(topology)@) ==> as_links_recorded(final(topology)@),
        as_routers_not_yet_run(old(topology)@) ==> as_routers_not_yet_run(final(topology)@),
        router_labels(final(topology)@) == router_labels(old(topology)@),
        crate::topology::tables_distinct(old(topology)@) ==> crate::topology::tables_distinct(final(topology)@),
        router_setups(final(topology)@) == sample_setups(),
{
    let ghost s0 = router_setups(topology@);
    proof {
        lemma_find_sample_routers(topology@);
        assert(s0[0] == topology@.autonomous_systems[0].1.routers.map_values(
            |e: (Seq<char>, RouterView)| setup_of(e.1),
        ));
        assert(s0[0][0] == setup_of(router_at(topology@, RouterPos::InAs(0, 0))));
    }
    sample_peering(topology, "rtr-r1", 0x0404_0404, 65002, 65001, Ghost(0), Ghost(0));
    let ghost s1 = router_setups(topology@);
    proof {
        lemma_find_sample_routers(topology@);
        assert(s1[1] == topology@.autonomous_systems[1].1.routers.map_values(
            |e: (Seq<char>, RouterView)| setup_of(e.1),
        ));
        assert(s1[1][0] == setup_of(router_at(topology@, RouterPos::InAs(1, 0))));
    }
    sample_peering(topology, "rtr-r4", 0x0101_0101, 65001, 65002, Ghost(1), Ghost(0));
    proof {
        let p1 = Some(bgp_with_peer(65001, 0x0101_0101, 0x0404_0404, 65002));
        let p4 = Some(bgp_with_peer(65002, 0x0404_0404, 0x0101_0101, 65001));
        let s2 = router_setups(topology@);
        assert(s0[0][0] == sample_setup('1', Some(fresh_bgp(65001, 0x0101_0101))));
        assert(s1[0] =~= seq![sample_setup('1', p1), sample_setup('2', None), sample_setup('3', None)]);
        assert(s1[1] == s0[1]);
        assert(s1[1][0] == sample_setup('4', Some(fresh_bgp(65002, 0x0404_0404))));
        assert(s2[1] =~= seq![sample_setup('4', p4), sample_setup('5', None)]);
        assert(s2[0] == s1[0]);
        assert(s2 =~= sample_setups());
    }
}

/// The sample network's tables have distinct keys before any link is
/// made.
proof fn lemma_sample_tables_distinct(t: TopologyView)
    requires
        t.standalone_routers.len() == 0,
        t.links.len() == 0,
        t.policies.len() == 0,
        as_facts(t) == sample_as_facts(),
    ensures
        crate::topology::tables_distinct(t),
{
    lemma_find_sample_routers(t);
    lemma_sample_router_keys();
    let ases = t.autonomous_systems;
    assert(ases[0].0 == as_facts(t)[0].0 && ases[1].0 == as_facts(t)[1].0);
    assert(ases[0].0 != ases[1].0) by {
        reveal_strlit("as-");
        let d1 = decimal(65001);
        let d2 = decimal(65002);
        crate::text::lemma_decimal_digits(65001);
        crate::text::lemma_decimal_digits(65002);
        if as_id_text(65001) == as_id_text(65002) {
            assert(as_id_text(65001).skip(3) =~= d1);
            assert(as_id_text(65002).skip(3) =~= d2);
        }
    }
    let rs0 = ases[0].1.routers;
    let rs1 = ases[1].1.routers;
    assert(router_facts(rs0) == as_facts(t)[0].3);
    assert(router_facts(rs1) == as_facts(t)[1].3);
    assert(rs0[0].0 == router_facts(rs0)[0].0);
    assert(rs0[1].0 == router_facts(rs0)[1].0);
    assert(rs0[2].0 == router_facts(rs0)[2].0);
    assert(rs1[0].0 == router_facts(rs1)[0].0);
    assert(rs1[1].0 == router_facts(rs1)[1].0);
    assert(rs0[0].0[5] != rs0[1].0[5] && rs0[0].0[5] != rs0[2].0[5] && rs0[1].0[5] != rs0[2].0[5]);
    assert(rs1[0].0[5] != rs1[1].0[5]);
    assert(keys_distinct(rs0));
    assert(keys_distinct(rs1));
    assert(keys_distinct(ases));
    assert forall|a: int| 0 <= a < ases.len() implies keys_distinct(#[trigger] ases[a].1.routers) by {
        assert(a == 0 || a == 1);
    }
}

/// Where the sample network's BGP routers sit: R1 first in the first AS,
/// R4 first in the second.
proof fn lemma_find_sample_routers(t: TopologyView)
    requires
        t.standalone_routers.len() == 0,
        as_facts(t) == sample_as_facts(),
    ensures
        find_router(t, "rtr-r1"@) == Some(RouterPos::InAs(0, 0)),
        find_router(t, "rtr-r4"@) == Some(RouterPos::InAs(1, 0)),
        t.autonomous_systems.len() == 2,
        t.autonomous_systems[0].1.routers.len() == 3,
        t.autonomous_systems[1].1.routers.len() == 2,
{
    lemma_sample_router_keys();
    let ases = t.autonomous_systems;
    assert(as_facts(t).len() == ases.len());
    assert(ases.len() == 2);
    let rs0 = ases[0].1.routers;
    let rs1 = ases[1].1.routers;
    assert(router_facts(rs0) == as_facts(t)[0].3);
    assert(router_facts(rs1) == as_facts(t)[1].3);
    assert(rs0.len() == 3 && rs1.len() == 2);
    assert(rs0[0].0 == router_facts(rs0)[0].0);
    assert(rs0[1].0 == router_facts(rs0)[1].0);
    assert(rs0[2].0 == router_facts(rs0)[2].0);
    assert(rs1[0].0 == router_facts(rs1)[0].0);
    let r1 = "rtr-r1"@;
    let r4 = "rtr-r4"@;
    assert(r4[5] != rs0[0].0[5] && r4[5] != rs0[1].0[5] && r4[5] != rs0[2].0[5]);
    crate::table::lemma_key_index_is(t.standalone_routers, r1, 0);
    crate::table::lemma_key_index_is(t.standalone_routers, r4, 0);
    crate::table::lemma_key_index_is(rs0, r1, 0);
    crate::table::lemma_key_index_is(rs0, r4, 3);
    crate::table::lemma_key_index_is(rs1, r4, 0);
    assert(crate::topology::as_holding(ases, r1, 0) == 0);
    assert(crate::topology::as_holding(ases, r4, 1) == 1);
    assert(crate::topology::as_holding(ases, r4, 0) == 1);
}

} // verus!
