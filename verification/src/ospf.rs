//! OSPF: router LSA origination and installation, flooding, SPF over the
//! link-state database, RIB/FIB maintenance and neighbor tracking.

use vstd::prelude::*;

use crate::events::{insertion_point, EventQueue, EventType, SimEvent};
use crate::ipv4::{
    ipv4_string, ipv4_text, net_contains, net_string, net_text, network_of, push_ipv4, Ipv4Net,
};
use crate::models::{
    admin_distance_of, key_index, lemma_table_view_update, lookup, strings_view, table_view,
    AreaView, FibEntry, FibView, InterfaceView, Lsa, LsaBody, LsaBodyView, LsaLinkView, LsaType,
    LsaView, OspfView, RibEntry, RibView, RouteProtocol, Router, RouterLsaLink,
    RouterLsaLinkType, RouterView, SpfResult, SpfView,
};
use crate::store::{area_index, find_area, lemma_area_index};
use crate::table::{
    find_key, get_key, insert_key, insert_view, lemma_key_index, lemma_lookup_insert,
    lemma_lookup_push,
};
use crate::text::{decimal, push_decimal, push_str, string_from};

verus! {

/// Ticks between an LSA's origination and its flooding.
pub const LSA_FLOOD_DELAY_TICKS: u64 = 2;

// ── LSDB keys ──

/// The LSDB key of the router LSA of `router_ip` in `area_id`.
pub open spec fn lsa_key_router_spec(router_ip: u32, area_id: u32) -> Seq<char> {
    "rtr:"@ + ipv4_text(router_ip) + ":"@ + decimal(area_id as nat)
}

/// The LSDB key under which an LSA of an area is kept.
pub open spec fn lsa_key_spec(lsa: LsaView, area_id: u32) -> Seq<char> {
    match lsa.lsa_type {
        LsaType::RouterLsa => lsa_key_router_spec(lsa.advertising_router, area_id),
        LsaType::NetworkLsa => "net:"@ + lsa.link_state_id + ":"@ + decimal(area_id as nat),
        LsaType::SummaryLsa => "sum:"@ + lsa.link_state_id + ":"@ + decimal(area_id as nat),
    }
}

pub fn lsa_key_router(router_ip: u32, area_id: u32) -> (r: String)
    ensures
        r@ == lsa_key_router_spec(router_ip, area_id),
{
    let mut s = string_from("rtr:");
    push_ipv4(&mut s, router_ip);
    push_str(&mut s, ":");
    push_decimal(&mut s, area_id as u64);
    proof {
        assert(s@ =~= lsa_key_router_spec(router_ip, area_id));
    }
    s
}

fn lsa_key(lsa: &Lsa, area_id: u32) -> (r: String)
    ensures
        r@ == lsa_key_spec(lsa@, area_id),
{
    match lsa.lsa_type {
        LsaType::RouterLsa => lsa_key_router(lsa.advertising_router, area_id),
        LsaType::NetworkLsa => {
            let mut s = string_from("net:");
            push_str(&mut s, lsa.link_state_id.as_str());
            push_str(&mut s, ":");
            push_decimal(&mut s, area_id as u64);
            proof {
                assert(s@ =~= lsa_key_spec(lsa@, area_id));
            }
            s
        },
        LsaType::SummaryLsa => {
            let mut s = string_from("sum:");
            push_str(&mut s, lsa.link_state_id.as_str());
            push_str(&mut s, ":");
            push_decimal(&mut s, area_id as u64);
            proof {
                assert(s@ =~= lsa_key_spec(lsa@, area_id));
            }
            s
        },
    }
}

// ── LSA origination ──

/// The LSA links that one interface of an area contributes: none when the
/// interface is missing or down; otherwise a stub link for its subnet
/// and, when it is attached to a link, a point-to-point link.
pub open spec fn interface_lsa_links(ifaces: Seq<(Seq<char>, InterfaceView)>, id: Seq<char>) -> Seq<
    LsaLinkView,
> {
    match lookup(ifaces, id) {
        Some(i) => if !i.is_up {
            Seq::empty()
        } else {
            let stub = LsaLinkView {
                link_id: ipv4_text(network_of(i.ip_address)),
                link_data: i.ip_address.addr,
                link_type: RouterLsaLinkType::StubNetwork,
                metric: i.cost,
            };
            match i.link_id {
                Some(l) => seq![
                    stub,
                    LsaLinkView {
                        link_id: l,
                        link_data: i.ip_address.addr,
                        link_type: RouterLsaLinkType::PointToPoint,
                        metric: i.cost,
                    },
                ],
                None => seq![stub],
            }
        },
        None => Seq::empty(),
    }
}

/// The LSA links of the first `n` interfaces of an area, in order.
pub open spec fn area_lsa_links(
    ifaces: Seq<(Seq<char>, InterfaceView)>,
    ids: Seq<Seq<char>>,
    n: int,
) -> Seq<LsaLinkView>
    decreases n,
{
    if n <= 0 {
        Seq::empty()
    } else {
        area_lsa_links(ifaces, ids, n - 1) + interface_lsa_links(ifaces, ids[n - 1])
    }
}

/// Whether a router runs OSPF with the given area.
pub open spec fn has_area(r: RouterView, area_id: u32) -> bool {
    r.ospf_process matches Some(o) && area_index(o.areas, area_id) < o.areas.len()
}

/// The sequence number of the router's current LSA for an area, if any.
pub open spec fn current_seq(r: RouterView, area_id: u32) -> Option<u32> {
    match lookup(r.ospf_process->0.lsdb, lsa_key_router_spec(r.router_id_ip, area_id)) {
        Some(l) => Some(l.sequence_number),
        None => None,
    }
}

/// The router LSA that a router originates for an area: one link set per
/// interface of the area, and a sequence number one past the current one
/// (1 for the first).
pub open spec fn originate_spec(r: RouterView, area_id: u32) -> LsaView {
    let o = r.ospf_process->0;
    let area = o.areas[area_index(o.areas, area_id)].1;
    LsaView {
        lsa_type: LsaType::RouterLsa,
        advertising_router: r.router_id_ip,
        link_state_id: ipv4_text(r.router_id_ip),
        sequence_number: match current_seq(r, area_id) {
            Some(s) => (s + 1) as u32,
            None => 1,
        },
        age: 0,
        body: LsaBodyView::Router {
            links: area_lsa_links(r.interfaces, area.interface_ids, area.interface_ids.len() as int),
        },
    }
}

/// Whether a router's next LSA for an area has a sequence number.
pub open spec fn can_originate(r: RouterView, area_id: u32) -> bool {
    has_area(r, area_id) && (current_seq(r, area_id) matches Some(s) ==> s < u32::MAX)
}

fn push_link(links: &mut Vec<RouterLsaLink>, l: RouterLsaLink)
    ensures
        final(links)@.map_values(|x: RouterLsaLink| x@) == old(links)@.map_values(
            |x: RouterLsaLink| x@,
        ).push(l@),
{
    let ghost before = links@;
    links.push(l);
    proof {
        assert(links@.map_values(|x: RouterLsaLink| x@) =~= before.map_values(
            |x: RouterLsaLink| x@,
        ).push(l@));
    }
}

/// Generates the router LSA (type 1) of a router for an area.
pub fn originate_router_lsa(router: &Router, area_id: u32) -> (r: Lsa)
    requires
        can_originate(router@, area_id),
    ensures
        r@ == originate_spec(router@, area_id),
{
    let ospf = router.ospf_process.as_ref().unwrap();
    let ai = find_area(&ospf.areas, area_id).unwrap();
    let area = &ospf.areas[ai].1;
    let ghost rv = router@;
    let ghost ids = area@.interface_ids;
    let mut links: Vec<RouterLsaLink> = Vec::new();
    let mut k: usize = 0;
    while k < area.interface_ids.len()
        invariant
            rv == router@,
            ids == area@.interface_ids,
            k <= ids.len(),
            links@.map_values(|x: RouterLsaLink| x@) == area_lsa_links(
                rv.interfaces,
                ids,
                k as int,
            ),
        decreases ids.len() - k,
    {
        let ghost before = links@.map_values(|x: RouterLsaLink| x@);
        match get_key(&router.interfaces, &area.interface_ids[k]) {
            Some(iface) => {
                if iface.is_up {
                    push_link(
                        &mut links,
                        RouterLsaLink {
                            link_id: ipv4_string(iface.ip_address.network()),
                            link_data: iface.ip_address.addr,
                            link_type: RouterLsaLinkType::StubNetwork,
                            metric: iface.cost,
                        },
                    );
                    match &iface.link_id {
                        Some(l) => {
                            push_link(
                                &mut links,
                                RouterLsaLink {
                                    link_id: l.clone(),
                                    link_data: iface.ip_address.addr,
                                    link_type: RouterLsaLinkType::PointToPoint,
                                    metric: iface.cost,
                                },
                            );
                        },
                        None => {},
                    }
                }
            },
            None => {},
        }
        proof {
            assert(links@.map_values(|x: RouterLsaLink| x@) =~= before + interface_lsa_links(
                rv.interfaces,
                ids[k as int],
            ));
        }
        k += 1;
    }
    let key = lsa_key_router(router.router_id_ip, area_id);
    let seq: u32 = match get_key(&ospf.lsdb, &key) {
        Some(l) => l.sequence_number + 1,
        None => 1,
    };
    Lsa {
        lsa_type: LsaType::RouterLsa,
        advertising_router: router.router_id_ip,
        link_state_id: ipv4_string(router.router_id_ip),
        sequence_number: seq,
        age: 0,
        body: LsaBody::Router { links },
    }
}

// ── LSA installation ──

/// What installing an LSA does to a router: the LSA goes into the LSDB
/// under its key, and SPF becomes pending, when there is no LSA under
/// that key yet or the new one has a higher sequence number; otherwise
/// nothing changes.  The flag tells whether it was installed.
pub open spec fn install_spec(r: RouterView, area_id: u32, lsa: LsaView) -> (bool, RouterView) {
    let o = r.ospf_process->0;
    let key = lsa_key_spec(lsa, area_id);
    match lookup(o.lsdb, key) {
        Some(e) if !(lsa.sequence_number > e.sequence_number) => (false, r),
        _ => (
            true,
            RouterView {
                ospf_process: Some(
                    OspfView { lsdb: insert_view(o.lsdb, key, lsa), spf_pending: true, ..o },
                ),
                ..r
            },
        ),
    }
}

/// Installs an LSA into a router's LSDB when it is new or newer than the
/// one held (by sequence number); true when installed.
pub fn install_lsa(router: &mut Router, area_id: u32, lsa: Lsa) -> (r: bool)
    requires
        old(router)@.ospf_process is Some,
    ensures
        (r, final(router)@) == install_spec(old(router)@, area_id, lsa@),
{
    let ghost lv = lsa@;
    let ospf = router.ospf_process.as_mut().unwrap();
    let key = lsa_key(&lsa, area_id);
    let should_install = match get_key(&ospf.lsdb, &key) {
        Some(existing) => lsa.sequence_number > existing.sequence_number,
        None => true,
    };
    if should_install {
        insert_key(&mut ospf.lsdb, key, lsa);
        ospf.spf_pending = true;
        true
    } else {
        false
    }
}

/// Whether an event floods the LSA keyed `key` from `src` in `area`.
pub open spec fn is_flood_event(et: EventType, key: Seq<char>, src: Seq<char>, area: u32) -> bool {
    et matches EventType::LsaFlood { lsa_key: k, source_router_id: s, area_id: a } && k@ == key
        && s@ == src && a == area
}

/// Schedules the flooding of an LSA to the area's routers, two ticks on,
/// with priority 10.
pub fn schedule_lsa_flood(
    lsa_key: &str,
    source_router_id: &str,
    area_id: u32,
    current_tick: u64,
    event_queue: &mut EventQueue,
)
    requires
        old(event_queue).wf(),
        current_tick <= u64::MAX - LSA_FLOOD_DELAY_TICKS,
    ensures
        final(event_queue).wf(),
        exists|et: EventType|
            #[trigger] is_flood_event(et, lsa_key@, source_router_id@, area_id) && ({
                let e = SimEvent {
                    scheduled_tick: (current_tick + LSA_FLOOD_DELAY_TICKS) as u64,
                    priority: 10,
                    event_type: et,
                };
                final(event_queue)@ == old(event_queue)@.insert(
                    insertion_point(old(event_queue)@, e),
                    e,
                )
            }),
{
    let et = EventType::LsaFlood {
        lsa_key: string_from(lsa_key),
        source_router_id: string_from(source_router_id),
        area_id,
    };
    proof {
        assert(is_flood_event(et, lsa_key@, source_router_id@, area_id));
    }
    event_queue.schedule(current_tick + LSA_FLOOD_DELAY_TICKS, 10, et);
}


// ── Interfaces seen from routing ──

/// Index of the first up interface whose network contains `ip`.
pub open spec fn iface_reaching(ifaces: Seq<(Seq<char>, InterfaceView)>, ip: u32, i: int) -> int
    decreases ifaces.len() - i,
{
    if i < 0 || i >= ifaces.len() {
        ifaces.len() as int
    } else if ifaces[i].1.is_up && net_contains(ifaces[i].1.ip_address, ip) {
        i
    } else {
        iface_reaching(ifaces, ip, i + 1)
    }
}

/// Index of the first up interface that is attached to a link.
pub open spec fn iface_linked(ifaces: Seq<(Seq<char>, InterfaceView)>, i: int) -> int
    decreases ifaces.len() - i,
{
    if i < 0 || i >= ifaces.len() {
        ifaces.len() as int
    } else if ifaces[i].1.is_up && ifaces[i].1.link_id is Some {
        i
    } else {
        iface_linked(ifaces, i + 1)
    }
}

/// Index of the first up interface on the same network as `prefix`.
pub open spec fn iface_on_network(ifaces: Seq<(Seq<char>, InterfaceView)>, prefix: Ipv4Net, i: int) -> int
    decreases ifaces.len() - i,
{
    if i < 0 || i >= ifaces.len() {
        ifaces.len() as int
    } else if ifaces[i].1.is_up && network_of(ifaces[i].1.ip_address) == network_of(prefix) {
        i
    } else {
        iface_on_network(ifaces, prefix, i + 1)
    }
}

/// The outgoing interface for a next hop: the id of the first up
/// interface whose network contains it, or the empty text.
pub open spec fn out_iface_of(ifaces: Seq<(Seq<char>, InterfaceView)>, nh: u32) -> Seq<char> {
    let i = iface_reaching(ifaces, nh, 0);
    if i < ifaces.len() {
        ifaces[i].1.id
    } else {
        Seq::empty()
    }
}

fn find_iface_reaching(router: &Router, ip: u32) -> (r: Option<usize>)
    ensures
        match r {
            Some(i) => i < router@.interfaces.len() && i == iface_reaching(router@.interfaces, ip, 0),
            None => iface_reaching(router@.interfaces, ip, 0) == router@.interfaces.len(),
        },
{
    let ghost iv = router@.interfaces;
    let mut i: usize = 0;
    while i < router.interfaces.len()
        invariant
            iv == router@.interfaces,
            i <= iv.len(),
            iface_reaching(iv, ip, i as int) == iface_reaching(iv, ip, 0),
        decreases iv.len() - i,
    {
        let iface = &router.interfaces[i].1;
        if iface.is_up && iface.ip_address.contains(ip) {
            return Some(i);
        }
        i += 1;
    }
    None
}

/// The local interface on the network of `prefix`: its address and id.
pub(crate) fn find_local_interface(router: &Router, prefix: &Ipv4Net) -> (r: Option<(u32, String)>)
    ensures
        ({
            let iv = router@.interfaces;
            let i = iface_on_network(iv, *prefix, 0);
            match r {
                Some((a, id)) => i < iv.len() && a == iv[i].1.ip_address.addr && id@ == iv[i].1.id,
                None => i == iv.len(),
            }
        }),
{
    let ghost iv = router@.interfaces;
    let mut i: usize = 0;
    while i < router.interfaces.len()
        invariant
            iv == router@.interfaces,
            i <= iv.len(),
            iface_on_network(iv, *prefix, i as int) == iface_on_network(iv, *prefix, 0),
        decreases iv.len() - i,
    {
        let iface = &router.interfaces[i].1;
        if iface.is_up && iface.ip_address.network() == prefix.network() {
            return Some((iface.ip_address.addr, iface.id.clone()));
        }
        i += 1;
    }
    None
}

/// The interface towards a neighbor router: the first up interface whose
/// network contains the neighbor's address, else the first up interface
/// attached to a link.
pub open spec fn iface_to_neighbor(ifaces: Seq<(Seq<char>, InterfaceView)>, ip: u32) -> Option<
    Seq<char>,
> {
    let i = iface_reaching(ifaces, ip, 0);
    let j = iface_linked(ifaces, 0);
    if i < ifaces.len() {
        Some(ifaces[i].1.id)
    } else if j < ifaces.len() {
        Some(ifaces[j].1.id)
    } else {
        None
    }
}

pub(crate) fn find_interface_to_neighbor(router: &Router, neighbor_ip: u32) -> (r: Option<String>)
    ensures
        match iface_to_neighbor(router@.interfaces, neighbor_ip) {
            Some(id) => r matches Some(s) && s@ == id,
            None => r is None,
        },
{
    match find_iface_reaching(router, neighbor_ip) {
        Some(i) => {
            return Some(router.interfaces[i].1.id.clone());
        },
        None => {},
    }
    let ghost iv = router@.interfaces;
    let mut j: usize = 0;
    while j < router.interfaces.len()
        invariant
            iv == router@.interfaces,
            j <= iv.len(),
            iface_reaching(iv, neighbor_ip, 0) == iv.len(),
            iface_linked(iv, j as int) == iface_linked(iv, 0),
        decreases iv.len() - j,
    {
        let iface = &router.interfaces[j].1;
        if iface.is_up && iface.link_id.is_some() {
            return Some(iface.id.clone());
        }
        j += 1;
    }
    None
}

// ── RIB and FIB ──

/// The FIB built from the first `n` RIB entries: one entry per prefix (the
/// first RIB entry for it), with the RIB's next hop and the outgoing
/// interface that reaches it.
pub open spec fn fib_from(
    rib: Seq<(Seq<char>, RibView)>,
    ifaces: Seq<(Seq<char>, InterfaceView)>,
    n: int,
) -> Seq<(Seq<char>, FibView)>
    decreases n,
{
    if n <= 0 {
        Seq::empty()
    } else {
        let f = fib_from(rib, ifaces, n - 1);
        let p = rib[n - 1].0;
        let e = rib[n - 1].1;
        if key_index(f, p) < f.len() {
            f
        } else {
            f.push(
                (
                    p,
                    FibView {
                        prefix: p,
                        next_hop_ip: e.next_hop,
                        out_interface_id: out_iface_of(ifaces, e.next_hop),
                    },
                ),
            )
        }
    }
}

/// The forwarding entry that a RIB route gives.
pub open spec fn fib_entry_for(p: Seq<char>, e: RibView, ifaces: Seq<(Seq<char>, InterfaceView)>) -> FibView {
    FibView { prefix: p, next_hop_ip: e.next_hop, out_interface_id: out_iface_of(ifaces, e.next_hop) }
}

proof fn lemma_fib_from_lookup(
    rib: Seq<(Seq<char>, RibView)>,
    ifaces: Seq<(Seq<char>, InterfaceView)>,
    n: int,
    p: Seq<char>,
)
    requires
        0 <= n <= rib.len(),
    ensures
        lookup(fib_from(rib, ifaces, n), p) == match lookup(rib.take(n), p) {
            Some(e) => Some(fib_entry_for(p, e, ifaces)),
            None => None,
        },
    decreases n,
{
    if n > 0 {
        let f = fib_from(rib, ifaces, n - 1);
        let q = rib[n - 1].0;
        let e = rib[n - 1].1;
        lemma_fib_from_lookup(rib, ifaces, n - 1, p);
        lemma_fib_from_lookup(rib, ifaces, n - 1, q);
        assert(rib.take(n) =~= rib.take(n - 1).push(rib[n - 1]));
        lemma_lookup_push(rib.take(n - 1), rib[n - 1], p);
        lemma_key_index(f, q);
        if key_index(f, q) >= f.len() {
            lemma_lookup_push(f, (q, fib_entry_for(q, e, ifaces)), p);
        }
    } else {
        assert(rib.take(0) =~= Seq::<(Seq<char>, RibView)>::empty());
    }
}

/// A rebuilt FIB follows the RIB: each prefix has a forwarding entry
/// exactly when the RIB has a route for it, and that entry carries the
/// route's next hop and the up interface that reaches it.
pub proof fn law_fib_follows_rib(r: RouterView, p: Seq<char>)
    ensures
        lookup(with_rebuilt_fib(r).fib, p) == match lookup(r.rib, p) {
            Some(e) => Some(fib_entry_for(p, e, r.interfaces)),
            None => None,
        },
{
    lemma_fib_from_lookup(r.rib, r.interfaces, r.rib.len() as int, p);
    assert(r.rib.take(r.rib.len() as int) =~= r.rib);
}

/// A router whose FIB has been rebuilt from its RIB.
pub open spec fn with_rebuilt_fib(r: RouterView) -> RouterView {
    RouterView { fib: fib_from(r.rib, r.interfaces, r.rib.len() as int), ..r }
}

/// Rebuilds a router's FIB from its RIB: one forwarding entry per prefix,
/// through the first up interface whose network contains the next hop
/// (none named when there is no such interface).
pub fn rebuild_fib(router: &mut Router)
    ensures
        final(router)@ == with_rebuilt_fib(old(router)@),
{
    router.fib = Vec::new();
    let ghost r0 = old(router)@;
    let mut i: usize = 0;
    proof {
        assert(table_view(router.fib@) =~= fib_from(r0.rib, r0.interfaces, 0));
    }
    while i < router.rib.len()
        invariant
            r0 == old(router)@,
            i <= r0.rib.len(),
            router@ == (RouterView { fib: router@.fib, ..r0 }),
            router@.fib == fib_from(r0.rib, r0.interfaces, i as int),
        decreases r0.rib.len() - i,
    {
        let prefix = &router.rib[i].0;
        if find_key(&router.fib, prefix).is_none() {
            let nh = router.rib[i].1.next_hop;
            let out = match find_iface_reaching(router, nh) {
                Some(k) => router.interfaces[k].1.id.clone(),
                None => String::new(),
            };
            let entry = FibEntry { prefix: prefix.clone(), next_hop_ip: nh, out_interface_id: out };
            let p = prefix.clone();
            let ghost before = router.fib@;
            router.fib.push((p, entry));
            proof {
                assert(table_view(router.fib@) =~= table_view(before).push((prefix@, entry@)));
            }
        }
        i += 1;
    }
}

/// The RIB entries (first `n`) whose protocol is not `p`, in order.
pub open spec fn without_protocol(rib: Seq<(Seq<char>, RibView)>, p: RouteProtocol, n: int) -> Seq<
    (Seq<char>, RibView),
>
    decreases n,
{
    if n <= 0 {
        Seq::empty()
    } else if rib[n - 1].1.protocol == p {
        without_protocol(rib, p, n - 1)
    } else {
        without_protocol(rib, p, n - 1).push(rib[n - 1])
    }
}

pub(crate) fn retain_not_protocol(rib: &mut Vec<(String, RibEntry)>, p: RouteProtocol)
    ensures
        table_view(final(rib)@) == without_protocol(
            table_view(old(rib)@),
            p,
            old(rib)@.len() as int,
        ),
{
    let ghost r0 = table_view(rib@);
    let mut kept: Vec<(String, RibEntry)> = Vec::new();
    let mut src: Vec<(String, RibEntry)> = Vec::new();
    std::mem::swap(rib, &mut src);
    let n = src.len();
    let mut i: usize = 0;
    let ghost sv = src@;
    proof {
        assert(sv.skip(0) =~= sv);
        assert(table_view(kept@) =~= without_protocol(r0, p, 0));
    }
    while i < n
        invariant
            n == sv.len(),
            r0 == table_view(sv),
            i <= n,
            src@ == sv.skip(i as int),
            table_view(kept@) == without_protocol(r0, p, i as int),
        decreases n - i,
    {
        let e = src.remove(0);
        proof {
            assert(e == sv[i as int]);
            assert(src@ =~= sv.skip(i + 1));
        }
        if e.1.protocol != p {
            let ghost before = kept@;
            kept.push(e);
            proof {
                assert(table_view(kept@) =~= table_view(before).push((e.0@, e.1@)));
            }
        }
        i += 1;
    }
    *rib = kept;
}


/// The RIB entry of an SPF result.
pub open spec fn ospf_entry(res: SpfView) -> RibView {
    RibView {
        prefix: net_text(res.destination),
        next_hop: res.next_hop,
        protocol: RouteProtocol::Ospf,
        metric: res.cost,
        admin_distance: 110,
        bgp_attributes: None,
    }
}

/// Whether a new entry wins over the one held for its prefix: lower
/// administrative distance, or equal distance and lower metric; anything
/// wins over no entry.
pub open spec fn ospf_wins(e: RibView, held: Option<RibView>) -> bool {
    match held {
        Some(x) => e.admin_distance < x.admin_distance || (e.admin_distance == x.admin_distance
            && e.metric < x.metric),
        None => true,
    }
}

/// The RIB after offering the first `n` SPF results, each under its
/// destination's text.
pub open spec fn offer_spf_results(rib: Seq<(Seq<char>, RibView)>, results: Seq<SpfView>, n: int) -> Seq<
    (Seq<char>, RibView),
>
    decreases n,
{
    if n <= 0 {
        rib
    } else {
        let r = offer_spf_results(rib, results, n - 1);
        let e = ospf_entry(results[n - 1]);
        if ospf_wins(e, lookup(r, e.prefix)) {
            insert_view(r, e.prefix, e)
        } else {
            r
        }
    }
}

/// What installing SPF results does to a router: its OSPF routes are
/// dropped, each result is offered to the RIB (see `ospf_wins`), and the
/// FIB is rebuilt.
pub open spec fn install_ospf_spec(r: RouterView, results: Seq<SpfView>) -> RouterView {
    let base = without_protocol(r.rib, RouteProtocol::Ospf, r.rib.len() as int);
    with_rebuilt_fib(
        RouterView { rib: offer_spf_results(base, results, results.len() as int), ..r },
    )
}

/// Replaces a router's OSPF routes by the given SPF results (where they
/// win over the routes held) and rebuilds its FIB.
pub fn install_ospf_routes(router: &mut Router, spf_results: &[SpfResult])
    ensures
        final(router)@ == install_ospf_spec(
            old(router)@,
            spf_results@.map_values(|x: SpfResult| x@),
        ),
{
    let ghost r0 = router@;
    let ghost rs = spf_results@.map_values(|x: SpfResult| x@);
    retain_not_protocol(&mut router.rib, RouteProtocol::Ospf);
    let ghost base = router@.rib;
    let mut i: usize = 0;
    while i < spf_results.len()
        invariant
            r0 == old(router)@,
            rs == spf_results@.map_values(|x: SpfResult| x@),
            base == without_protocol(r0.rib, RouteProtocol::Ospf, r0.rib.len() as int),
            i <= rs.len(),
            router@ == (RouterView { rib: router@.rib, ..r0 }),
            router@.rib == offer_spf_results(base, rs, i as int),
        decreases rs.len() - i,
    {
        let result = &spf_results[i];
        let prefix_str = net_string(&result.destination);
        let entry = RibEntry {
            prefix: prefix_str.clone(),
            next_hop: result.next_hop,
            protocol: RouteProtocol::Ospf,
            metric: result.cost,
            admin_distance: RouteProtocol::Ospf.admin_distance(),
            bgp_attributes: None,
        };
        let should_install = match get_key(&router.rib, &prefix_str) {
            Some(existing) => entry.admin_distance < existing.admin_distance || (
            entry.admin_distance == existing.admin_distance && entry.metric < existing.metric),
            None => true,
        };
        if should_install {
            insert_key(&mut router.rib, prefix_str, entry);
        }
        i += 1;
    }
    rebuild_fib(router);
}


// ── Laws ──

/// Installing an LSA never lowers the sequence number held under its key:
/// afterwards the key holds the new LSA when it was new or newer than the
/// one held (and then only), and the one held before otherwise.
pub proof fn law_lsdb_sequence_monotone(r: RouterView, area_id: u32, lsa: LsaView)
    requires
        r.ospf_process is Some,
    ensures
        ({
            let key = lsa_key_spec(lsa, area_id);
            let (installed, r2) = install_spec(r, area_id, lsa);
            let before = lookup(r.ospf_process->0.lsdb, key);
            let after = lookup(r2.ospf_process->0.lsdb, key);
            &&& installed <==> (before is None || lsa.sequence_number > before->0.sequence_number)
            &&& installed ==> after == Some(lsa)
            &&& !installed ==> after == before
            &&& before matches Some(b) ==> b.sequence_number <= after->0.sequence_number
        }),
{
    let key = lsa_key_spec(lsa, area_id);
    lemma_lookup_insert(r.ospf_process->0.lsdb, key, lsa, key);
}

proof fn lemma_without_protocol_lookup(
    rib: Seq<(Seq<char>, RibView)>,
    p: RouteProtocol,
    k: Seq<char>,
    n: int,
)
    requires
        0 <= n <= rib.len(),
    ensures
        key_index(rib, k) >= n ==> lookup(without_protocol(rib, p, n), k) is None,
        key_index(rib, k) < n && rib[key_index(rib, k)].1.protocol != p ==> lookup(
            without_protocol(rib, p, n),
            k,
        ) == Some(rib[key_index(rib, k)].1),
    decreases n,
{
    lemma_key_index(rib, k);
    if n > 0 {
        lemma_without_protocol_lookup(rib, p, k, n - 1);
        let w = without_protocol(rib, p, n - 1);
        if rib[n - 1].1.protocol != p {
            lemma_lookup_push(w, rib[n - 1], k);
        }
    }
}

proof fn lemma_offers_keep(
    rib: Seq<(Seq<char>, RibView)>,
    results: Seq<SpfView>,
    n: int,
    k: Seq<char>,
    e: RibView,
)
    requires
        0 <= n <= results.len(),
        lookup(rib, k) == Some(e),
        e.admin_distance < 110,
    ensures
        lookup(offer_spf_results(rib, results, n), k) == Some(e),
    decreases n,
{
    if n > 0 {
        lemma_offers_keep(rib, results, n - 1, k, e);
        let r = offer_spf_results(rib, results, n - 1);
        let x = ospf_entry(results[n - 1]);
        lemma_lookup_insert(r, x.prefix, x, k);
    }
}

/// OSPF never overrides a route of lower administrative distance, such as
/// a connected one: whatever SPF results are installed, a prefix whose
/// RIB entry is connected with a distance below OSPF's keeps that entry.
pub proof fn law_connected_route_kept(r: RouterView, results: Seq<SpfView>, prefix: Seq<char>)
    requires
        lookup(r.rib, prefix) matches Some(e) && e.protocol == RouteProtocol::Connected
            && e.admin_distance < 110,
    ensures
        lookup(install_ospf_spec(r, results).rib, prefix) == lookup(r.rib, prefix),
{
    let e = lookup(r.rib, prefix)->0;
    lemma_key_index(r.rib, prefix);
    lemma_without_protocol_lookup(r.rib, RouteProtocol::Ospf, prefix, r.rib.len() as int);
    let base = without_protocol(r.rib, RouteProtocol::Ospf, r.rib.len() as int);
    lemma_offers_keep(base, results, results.len() as int, prefix, e);
}

} // verus!
