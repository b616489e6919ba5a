//! The changes a user can ask of the network: adding and deleting ASes,
//! routers, interfaces, links, BGP peerings, traffic generators and
//! policies.  Each checks what it is given, makes the change, and says
//! what became of the request.

use vstd::prelude::*;

use crate::ipv4::{ipv4_network_parse, parse_ipv4_net, Ipv4Net};
use crate::models::{
    key_index, lemma_table_view_update, lookup, strings_view, table_view, AsView,
    AutonomousSystem, InterfaceView, LinkView, PolicyView, RibEntry, RibView, RouteProtocol,
    Router, RouterView, Topology, TopologyView, TrafficGenerator,
};
use crate::netops::{
    collect_links_for_interfaces, find_interface, interface_named, links_touching, map_routers,
    remove_link_and_detach_interfaces, with_links, RouterOpView,
};
use crate::store::{
    add_interface, as_id_text, create_autonomous_system, create_router, interface_id_text,
    new_router_view, with_new_interface,
};
use crate::table::{
    insert_key, insert_view, keys_distinct, lemma_drop_entry_keeps_distinct, lemma_insert_keeps_distinct,
    lemma_remove_keeps_distinct, remove_key, remove_view,
};
use crate::text::string_from;
use crate::topology::{
    find_router, pos_valid, router_at, router_named, tables_distinct, with_router, without_router, RouterPos,
};

verus! {

broadcast use lemma_table_view_update;

/// Why a request was refused.
#[derive(Debug, PartialEq, Eq)]
pub enum RequestError {
    /// No AS has the given id.
    AsNotFound,
    /// No router has the given id.
    RouterNotFound,
    /// The address text is not an IPv4 network.
    InvalidAddress,
    /// A link's two ends are the same interface.
    SameInterface,
    /// No interface has the given id.
    InterfaceNotFound(String),
    /// One of a link's interfaces is already linked.
    AlreadyLinked,
}

// ── Distinct keys ──

/// Replacing a router keeps the keys of every table.
pub proof fn lemma_distinct_with_router(t: TopologyView, p: RouterPos, r: RouterView)
    requires
        pos_valid(t, p),
    ensures
        tables_distinct(with_router(t, p, r)) == tables_distinct(t),
{
    let t2 = with_router(t, p, r);
    match p {
        RouterPos::Standalone(i) => {},
        RouterPos::InAs(a, i) => {
            assert forall|b: int| 0 <= b < t.autonomous_systems.len() implies #[trigger] t2.autonomous_systems[b].0
                == t.autonomous_systems[b].0 && same_keys(t2.autonomous_systems[b].1.routers, t.autonomous_systems[b].1.routers) by {}
        },
    }
    lemma_distinct_same_keys(t2, t);
}

/// Two tables with the same keys in the same places.
pub open spec fn same_keys<V, W>(s1: Seq<(Seq<char>, V)>, s2: Seq<(Seq<char>, W)>) -> bool {
    s1.len() == s2.len() && forall|i: int| 0 <= i < s1.len() ==> #[trigger] s1[i].0 == s2[i].0
}

/// Two topologies whose tables have the same keys in the same places are
/// alike in having distinct keys.
pub proof fn lemma_distinct_same_keys(t2: TopologyView, t: TopologyView)
    requires
        same_keys(t2.standalone_routers, t.standalone_routers),
        same_keys(t2.links, t.links),
        same_keys(t2.policies, t.policies),
        t2.autonomous_systems.len() == t.autonomous_systems.len(),
        forall|b: int|
            0 <= b < t.autonomous_systems.len() ==> #[trigger] t2.autonomous_systems[b].0 == t.autonomous_systems[b].0
                && same_keys(t2.autonomous_systems[b].1.routers, t.autonomous_systems[b].1.routers),
    ensures
        tables_distinct(t2) == tables_distinct(t),
{
    crate::table::lemma_same_keys_distinct(t2.standalone_routers, t.standalone_routers);
    crate::table::lemma_same_keys_distinct(t2.links, t.links);
    crate::table::lemma_same_keys_distinct(t2.policies, t.policies);
    crate::table::lemma_same_keys_distinct(t2.autonomous_systems, t.autonomous_systems);
    assert forall|b: int| 0 <= b < t.autonomous_systems.len() implies keys_distinct(
        #[trigger] t2.autonomous_systems[b].1.routers,
    ) == keys_distinct(t.autonomous_systems[b].1.routers) by {
        assert(t2.autonomous_systems[b].0 == t.autonomous_systems[b].0);
        crate::table::lemma_same_keys_distinct(t2.autonomous_systems[b].1.routers, t.autonomous_systems[b].1.routers);
    }
    if tables_distinct(t) {
        assert forall|b: int| 0 <= b < t2.autonomous_systems.len() implies keys_distinct(
            #[trigger] t2.autonomous_systems[b].1.routers,
        ) by {
            assert(keys_distinct(t.autonomous_systems[b].1.routers));
        }
    }
    if tables_distinct(t2) {
        assert forall|b: int| 0 <= b < t.autonomous_systems.len() implies keys_distinct(
            #[trigger] t.autonomous_systems[b].1.routers,
        ) by {
            assert(keys_distinct(t2.autonomous_systems[b].1.routers));
        }
    }
}

/// Applying an operation to every router keeps the keys of every table.
pub proof fn lemma_distinct_map_routers(t: TopologyView, op: RouterOpView, standalone: bool)
    ensures
        tables_distinct(map_routers(t, op, standalone)) == tables_distinct(t),
{
    let t2 = map_routers(t, op, standalone);
    assert forall|b: int| 0 <= b < t.autonomous_systems.len() implies #[trigger] t2.autonomous_systems[b].0
        == t.autonomous_systems[b].0 && same_keys(t2.autonomous_systems[b].1.routers, t.autonomous_systems[b].1.routers) by {}
    lemma_distinct_same_keys(t2, t);
}

/// Adding an AS without routers keeps the keys of every table distinct.
pub proof fn lemma_distinct_insert_as(t: TopologyView, k: Seq<char>, a: AsView)
    requires
        tables_distinct(t),
        keys_distinct(a.routers),
    ensures
        tables_distinct(TopologyView { autonomous_systems: insert_view(t.autonomous_systems, k, a), ..t }),
{
    let s2 = insert_view(t.autonomous_systems, k, a);
    lemma_insert_keeps_distinct(t.autonomous_systems, k, a);
    crate::table::lemma_insert_entries(t.autonomous_systems, k, a);
    assert forall|b: int| 0 <= b < s2.len() implies keys_distinct(#[trigger] s2[b].1.routers) by {
        if s2[b] != (k, a) {
            assert(keys_distinct(t.autonomous_systems[b].1.routers));
        }
    }
}

/// Removing an AS keeps the keys of every table distinct.
pub proof fn lemma_distinct_remove_as(t: TopologyView, k: Seq<char>)
    requires
        tables_distinct(t),
    ensures
        tables_distinct(TopologyView { autonomous_systems: remove_view(t.autonomous_systems, k), ..t }),
{
    let s2 = remove_view(t.autonomous_systems, k);
    lemma_remove_keeps_distinct(t.autonomous_systems, k);
    crate::table::lemma_remove_entries(t.autonomous_systems, k);
    assert forall|b: int| 0 <= b < s2.len() implies keys_distinct(#[trigger] s2[b].1.routers) by {
        if s2[b] == t.autonomous_systems[b] {
            assert(keys_distinct(t.autonomous_systems[b].1.routers));
        } else {
            assert(keys_distinct(t.autonomous_systems[b + 1].1.routers));
        }
    }
}

/// Replacing the routers of the AS at `i` (its key kept) by a table with
/// distinct keys keeps the keys of every table distinct.
pub proof fn lemma_distinct_set_as_routers(t: TopologyView, i: int, rs: Seq<(Seq<char>, RouterView)>)
    requires
        tables_distinct(t),
        0 <= i < t.autonomous_systems.len(),
        keys_distinct(rs),
    ensures
        tables_distinct(
            TopologyView {
                autonomous_systems: t.autonomous_systems.update(
                    i,
                    (
                        t.autonomous_systems[i].0,
                        crate::topology::as_with_routers(t.autonomous_systems[i].1, rs),
                    ),
                ),
                ..t
            },
        ),
{
    let s = t.autonomous_systems;
    let s2 = s.update(i, (s[i].0, crate::topology::as_with_routers(s[i].1, rs)));
    crate::table::lemma_same_keys_distinct(s2, s);
    assert forall|b: int| 0 <= b < s2.len() implies keys_distinct(#[trigger] s2[b].1.routers) by {
        if b != i {
            assert(keys_distinct(s[b].1.routers));
        }
    }
}

/// Adding a link keeps the keys of every table distinct.
pub proof fn lemma_distinct_create_link(t: TopologyView, a: Seq<char>, b: Seq<char>, id: Seq<char>, l: LinkView)
    requires
        tables_distinct(t),
    ensures
        tables_distinct(
            with_links(
                map_routers(t, RouterOpView::AttachLink { a, b, link: id }, true),
                insert_view(t.links, id, l),
            ),
        ),
{
    lemma_distinct_map_routers(t, RouterOpView::AttachLink { a, b, link: id }, true);
    lemma_insert_keeps_distinct(t.links, id, l);
}

/// Removing links (and detaching their interfaces) keeps the keys of
/// every table distinct.
pub proof fn lemma_distinct_remove_links(t: TopologyView, ids: Seq<Seq<char>>, k: int)
    requires
        tables_distinct(t),
    ensures
        tables_distinct(remove_links(t, ids, k)),
    decreases k,
{
    if k > 0 {
        lemma_distinct_remove_links(t, ids, k - 1);
        let prev = remove_links(t, ids, k - 1);
        match lookup(prev.links, ids[k - 1]) {
            None => {},
            Some(l) => {
                let op = RouterOpView::DetachLink { a: l.interface_a_id, b: l.interface_b_id };
                lemma_distinct_map_routers(prev, op, true);
                lemma_remove_keeps_distinct(prev.links, ids[k - 1]);
            },
        }
    }
}

/// Removing the router keyed `id` keeps the keys of every table distinct.
pub proof fn lemma_distinct_without_router(t: TopologyView, id: Seq<char>)
    requires
        tables_distinct(t),
        crate::topology::sizes_fit(t),
    ensures
        tables_distinct(without_router(t, id)),
{
    crate::topology::lemma_find_router_valid(t, id);
    let t2 = without_router(t, id);
    match find_router(t, id) {
        Some(RouterPos::Standalone(i)) => {
            lemma_drop_entry_keeps_distinct(t.standalone_routers, i as int);
        },
        Some(RouterPos::InAs(a, i)) => {
            assert(keys_distinct(t2.autonomous_systems)) by {
                assert forall|x: int| 0 <= x < t.autonomous_systems.len() implies #[trigger] t2.autonomous_systems[x].0
                    == t.autonomous_systems[x].0 by {}
            }
            lemma_drop_entry_keeps_distinct(t.autonomous_systems[a as int].1.routers, i as int);
            assert forall|b: int| 0 <= b < t.autonomous_systems.len() && b != a implies #[trigger] t2.autonomous_systems[b]
                == t.autonomous_systems[b] by {}
        },
        None => {},
    }
}

// ── Link removal ──

/// The network after removing, in turn, the first `k` links named in
/// `ids` (each with its interfaces detached).
pub open spec fn remove_links(t: TopologyView, ids: Seq<Seq<char>>, k: int) -> TopologyView
    decreases k,
{
    if k <= 0 {
        t
    } else {
        let prev = remove_links(t, ids, k - 1);
        match lookup(prev.links, ids[k - 1]) {
            None => prev,
            Some(l) => with_links(
                map_routers(
                    prev,
                    RouterOpView::DetachLink { a: l.interface_a_id, b: l.interface_b_id },
                    true,
                ),
                remove_view(prev.links, ids[k - 1]),
            ),
        }
    }
}

fn remove_links_exec(topology: &mut Topology, ids: &Vec<String>)
    ensures
        final(topology)@ == remove_links(old(topology)@, strings_view(ids@), ids@.len() as int),
{
    let ghost t0 = topology@;
    let ghost iv = strings_view(ids@);
    let mut k: usize = 0;
    while k < ids.len()
        invariant
            iv == strings_view(ids@),
            k <= ids@.len(),
            topology@ == remove_links(t0, iv, k as int),
        decreases ids@.len() - k,
    {
        proof {
            assert(iv[k as int] == ids@[k as int]@);
        }
        remove_link_and_detach_interfaces(topology, ids[k].as_str());
        k += 1;
    }
}

/// The keys of a router's interfaces.
pub open spec fn interface_keys(r: RouterView) -> Seq<Seq<char>> {
    r.interfaces.map_values(|e: (Seq<char>, InterfaceView)| e.0)
}

fn interface_keys_exec(r: &Router) -> (ids: Vec<String>)
    ensures
        strings_view(ids@) == interface_keys(r@),
{
    let mut out: Vec<String> = Vec::new();
    let mut i: usize = 0;
    while i < r.interfaces.len()
        invariant
            i <= r.interfaces@.len(),
            strings_view(out@) == interface_keys(r@).take(i as int),
        decreases r.interfaces@.len() - i,
    {
        let ghost before = out@;
        out.push(r.interfaces[i].0.clone());
        proof {
            assert(interface_keys(r@)[i as int] == r.interfaces@[i as int].0@);
            assert(strings_view(out@) =~= strings_view(before).push(r.interfaces@[i as int].0@));
            assert(interface_keys(r@).take(i + 1) =~= interface_keys(r@).take(i as int).push(
                interface_keys(r@)[i as int],
            ));
            assert(strings_view(out@) =~= interface_keys(r@).take(i + 1));
        }
        i += 1;
    }
    proof {
        assert(interface_keys(r@).take(r.interfaces@.len() as int) =~= interface_keys(r@));
    }
    out
}

/// The network without a router's links: those with an end among the
/// given interfaces.
pub open spec fn without_links_of(t: TopologyView, ids: Seq<Seq<char>>) -> TopologyView {
    let ls = links_touching(t.links, ids, t.links.len() as int);
    remove_links(t, ls, ls.len() as int)
}

fn remove_links_of(topology: &mut Topology, ids: &Vec<String>)
    ensures
        final(topology)@ == without_links_of(old(topology)@, strings_view(ids@)),
{
    let links = collect_links_for_interfaces(topology, ids.as_slice());
    remove_links_exec(topology, &links);
}

// ── ASes and routers ──

/// Adds an AS (replacing one with the same id); gives its id.
pub fn add_autonomous_system(topology: &mut Topology, asn: u32, name: &str) -> (id: String)
    ensures
        id@ == as_id_text(asn),
        final(topology)@ == (TopologyView {
            autonomous_systems: insert_view(
                old(topology)@.autonomous_systems,
                as_id_text(asn),
                AsView {
                    id: as_id_text(asn),
                    asn,
                    name: name@,
                    routers: Seq::empty(),
                    ospf_areas: Seq::empty(),
                },
            ),
            ..old(topology)@
        }),
        tables_distinct(old(topology)@) ==> tables_distinct(final(topology)@),
{
    let a = create_autonomous_system(asn, name);
    let id = a.id.clone();
    let ghost av = a@;
    let ghost t0 = topology@;
    insert_key(&mut topology.autonomous_systems, id.clone(), a);
    proof {
        if tables_distinct(t0) {
            lemma_distinct_insert_as(t0, id@, av);
        }
    }
    id
}

/// The interface ids of all routers of an AS, router by router.
pub open spec fn as_interface_keys(a: AsView, k: int) -> Seq<Seq<char>>
    decreases k,
{
    if k <= 0 {
        Seq::empty()
    } else {
        as_interface_keys(a, k - 1) + interface_keys(a.routers[k - 1].1)
    }
}

/// Deletes the AS keyed `as_id` and every link with an end on one of its
/// routers; false when there is no such AS (then nothing changes).
pub fn delete_autonomous_system(topology: &mut Topology, as_id: &str) -> (found: bool)
    ensures
        match lookup(old(topology)@.autonomous_systems, as_id@) {
            None => !found && final(topology)@ == old(topology)@,
            Some(a) => found && final(topology)@ == without_links_of(
                TopologyView {
                    autonomous_systems: remove_view(old(topology)@.autonomous_systems, as_id@),
                    ..old(topology)@
                },
                as_interface_keys(a, a.routers.len() as int),
            ),
        },
        tables_distinct(old(topology)@) ==> tables_distinct(final(topology)@),
{
    let key = string_from(as_id);
    match remove_key(&mut topology.autonomous_systems, &key) {
        Some(a) => {
            let ghost av = a@;
            let ghost t1 = topology@;
            let mut ids: Vec<String> = Vec::new();
            proof {
                assert(strings_view(ids@) =~= as_interface_keys(av, 0));
            }
            let mut i: usize = 0;
            while i < a.routers.len()
                invariant
                    topology@ == t1,
                    av == a@,
                    i <= a.routers@.len(),
                    av.routers.len() == a.routers@.len(),
                    strings_view(ids@) == as_interface_keys(av, i as int),
                decreases a.routers@.len() - i,
            {
                let more = interface_keys_exec(&a.routers[i].1);
                let ghost before = ids@;
                let mut more = more;
                ids.append(&mut more);
                proof {
                    assert(av.routers[i as int].1 == a.routers@[i as int].1@);
                    assert(strings_view(ids@) =~= as_interface_keys(av, i + 1));
                }
                i += 1;
            }
            proof {
                assert(lookup(old(topology)@.autonomous_systems, as_id@) == Some(av));
                assert(t1 == (TopologyView {
                    autonomous_systems: remove_view(old(topology)@.autonomous_systems, as_id@),
                    ..old(topology)@
                }));
            }
            remove_links_of(topology, &ids);
            proof {
                if tables_distinct(old(topology)@) {
                    lemma_distinct_remove_as(old(topology)@, as_id@);
                    let ls = links_touching(t1.links, strings_view(ids@), t1.links.len() as int);
                    lemma_distinct_remove_links(t1, ls, ls.len() as int);
                }
            }
            true
        },
        None => {
            proof {
                crate::table::lemma_key_index(old(topology)@.autonomous_systems, as_id@);
                assert(topology@.autonomous_systems =~= old(topology)@.autonomous_systems);
                assert(topology@ == old(topology)@);
            }
            false
        },
    }
}

/// Adds a router to the AS keyed `as_id` (replacing one with the same
/// id); gives its id, or `AsNotFound` (then nothing changes).
pub fn add_router_to_as(topology: &mut Topology, as_id: &str, name: &str, router_id_ip: u32) -> (r:
    Result<String, RequestError>)
    ensures
        ({
            let i = key_index(old(topology)@.autonomous_systems, as_id@);
            let rv = new_router_view(name@, as_id@, router_id_ip);
            if i < old(topology)@.autonomous_systems.len() {
                let s = old(topology)@.autonomous_systems[i].1;
                r matches Ok(id) && id@ == rv.id && final(topology)@ == (TopologyView {
                    autonomous_systems: old(topology)@.autonomous_systems.update(
                        i,
                        (
                            old(topology)@.autonomous_systems[i].0,
                            crate::topology::as_with_routers(s, insert_view(s.routers, rv.id, rv)),
                        ),
                    ),
                    ..old(topology)@
                })
            } else {
                r == Err::<String, RequestError>(RequestError::AsNotFound)
                    && final(topology)@ == old(topology)@
            }
        }),
        tables_distinct(old(topology)@) ==> tables_distinct(final(topology)@),
{
    let router = create_router(name, as_id, router_id_ip);
    let id = router.id.clone();
    let key = string_from(as_id);
    proof {
        crate::table::lemma_key_index(topology@.autonomous_systems, as_id@);
    }
    match crate::table::find_key(&topology.autonomous_systems, &key) {
        Some(i) => {
            let ghost t0 = topology@;
            insert_key(&mut topology.autonomous_systems[i].1.routers, id.clone(), router);
            proof {
                assert(topology@.autonomous_systems =~= t0.autonomous_systems.update(
                    i as int,
                    (
                        t0.autonomous_systems[i as int].0,
                        crate::topology::as_with_routers(
                            t0.autonomous_systems[i as int].1,
                            insert_view(
                                t0.autonomous_systems[i as int].1.routers,
                                id@,
                                new_router_view(name@, as_id@, router_id_ip),
                            ),
                        ),
                    ),
                ));
                if tables_distinct(t0) {
                    let rs = t0.autonomous_systems[i as int].1.routers;
                    lemma_insert_keeps_distinct(rs, id@, new_router_view(name@, as_id@, router_id_ip));
                    lemma_distinct_set_as_routers(
                        t0,
                        i as int,
                        insert_view(rs, id@, new_router_view(name@, as_id@, router_id_ip)),
                    );
                }
            }
            Ok(id)
        },
        None => Err(RequestError::AsNotFound),
    }
}

/// Adds a router outside any AS (replacing one with the same id); gives
/// its id.
pub fn add_standalone_router(topology: &mut Topology, name: &str, router_id_ip: u32) -> (id: String)
    ensures
        id@ == new_router_view(name@, "standalone"@, router_id_ip).id,
        final(topology)@ == (TopologyView {
            standalone_routers: insert_view(
                old(topology)@.standalone_routers,
                id@,
                new_router_view(name@, "standalone"@, router_id_ip),
            ),
            ..old(topology)@
        }),
        tables_distinct(old(topology)@) ==> tables_distinct(final(topology)@),
{
    let router = create_router(name, "standalone", router_id_ip);
    let id = router.id.clone();
    insert_key(&mut topology.standalone_routers, id.clone(), router);
    id
}

/// Deletes the router keyed `router_id` and every link with an end on one
/// of its interfaces; false when there is no such router.
pub fn delete_router(topology: &mut Topology, router_id: &str) -> (found: bool)
    ensures
        match router_named(old(topology)@, router_id@) {
            None => !found && final(topology)@ == old(topology)@,
            Some(r) => found && final(topology)@ == without_links_of(
                without_router(old(topology)@, router_id@),
                interface_keys(r),
            ),
        },
        tables_distinct(old(topology)@) ==> tables_distinct(final(topology)@),
{
    proof {
        crate::topology::lemma_sizes_fit(topology);
        if tables_distinct(topology@) {
            lemma_distinct_without_router(topology@, router_id@);
        }
    }
    match topology.remove_router(router_id) {
        Some(r) => {
            let ids = interface_keys_exec(&r);
            let ghost t1 = topology@;
            remove_links_of(topology, &ids);
            proof {
                if tables_distinct(old(topology)@) {
                    let ls = links_touching(t1.links, strings_view(ids@), t1.links.len() as int);
                    lemma_distinct_remove_links(t1, ls, ls.len() as int);
                }
            }
            true
        },
        None => false,
    }
}

// ── Interfaces and links ──

/// Adds an interface to the router keyed `router_id` from the text of its
/// address (`a.b.c.d/len`); gives its id.  `InvalidAddress` when the text
/// is not an IPv4 network, else `RouterNotFound` when there is no such
/// router; then nothing changes.
pub fn add_interface_to(
    topology: &mut Topology,
    router_id: &str,
    name: &str,
    ip_text: &str,
    bandwidth: u64,
    cost: u32,
) -> (r: Result<String, RequestError>)
    ensures
        match ipv4_network_parse(ip_text@) {
            None => r == Err::<String, RequestError>(RequestError::InvalidAddress) && final(topology)@
                == old(topology)@,
            Some((a, p)) => match find_router(old(topology)@, router_id@) {
                None => r == Err::<String, RequestError>(RequestError::RouterNotFound)
                    && final(topology)@ == old(topology)@,
                Some(pos) => {
                    let rv = router_at(old(topology)@, pos);
                    r matches Ok(id) && id@ == interface_id_text(rv.id, name@) && final(topology)@
                        == with_router(
                        old(topology)@,
                        pos,
                        with_new_interface(rv, name@, Ipv4Net { addr: a, prefix: p }, bandwidth, cost),
                    )
                },
            },
        },
        tables_distinct(old(topology)@) ==> tables_distinct(final(topology)@),
{
    proof {
        crate::topology::lemma_sizes_fit(topology);
        crate::topology::lemma_find_router_valid(topology@, router_id@);
        let t0 = topology@;
        match find_router(t0, router_id@) {
            Some(p) => {
                assert forall|r: RouterView| tables_distinct(#[trigger] with_router(t0, p, r)) == tables_distinct(t0) by {
                    lemma_distinct_with_router(t0, p, r);
                }
            },
            None => {},
        }
    }
    let ip = match parse_ipv4_net(ip_text) {
        Some(n) => n,
        None => {
            return Err(RequestError::InvalidAddress);
        },
    };
    match topology.get_router_mut(router_id) {
        Some(router) => Ok(add_interface(router, name, ip, bandwidth, cost)),
        None => Err(RequestError::RouterNotFound),
    }
}

/// Creates an up link between two interfaces; gives its id.  Refused with
/// `SameInterface` when both ends are one interface, `InterfaceNotFound`
/// for the first end that no router has, `AlreadyLinked` when either end
/// is linked; then nothing changes.
pub fn create_link_checked(topology: &mut Topology, iface_a_id: &str, iface_b_id: &str, bandwidth: u64) -> (r:
    Result<String, RequestError>)
    ensures
        ({
            let t = old(topology)@;
            let ia = interface_named(t, iface_a_id@);
            let ib = interface_named(t, iface_b_id@);
            if iface_a_id@ == iface_b_id@ {
                r == Err::<String, RequestError>(RequestError::SameInterface) && final(topology)@ == t
            } else if ia is None {
                r matches Err(RequestError::InterfaceNotFound(x)) && x@ == iface_a_id@ && final(topology)@ == t
            } else if ib is None {
                r matches Err(RequestError::InterfaceNotFound(x)) && x@ == iface_b_id@ && final(topology)@ == t
            } else if ia->0.link_id is Some || ib->0.link_id is Some {
                r == Err::<String, RequestError>(RequestError::AlreadyLinked) && final(topology)@ == t
            } else {
                r matches Ok(id) && id@ == crate::store::link_id_text(iface_a_id@, iface_b_id@)
                    && final(topology)@ == with_links(
                    map_routers(
                        t,
                        RouterOpView::AttachLink { a: iface_a_id@, b: iface_b_id@, link: id@ },
                        true,
                    ),
                    insert_view(
                        t.links,
                        id@,
                        LinkView {
                            id: id@,
                            interface_a_id: iface_a_id@,
                            interface_b_id: iface_b_id@,
                            bandwidth,
                            current_load: 0,
                            is_up: true,
                        },
                    ),
                )
            }
        }),
        tables_distinct(old(topology)@) ==> tables_distinct(final(topology)@),
{
    proof {
        let t0 = topology@;
        if tables_distinct(t0) {
            let id = crate::store::link_id_text(iface_a_id@, iface_b_id@);
            lemma_distinct_create_link(
                t0,
                iface_a_id@,
                iface_b_id@,
                id,
                LinkView {
                    id,
                    interface_a_id: iface_a_id@,
                    interface_b_id: iface_b_id@,
                    bandwidth,
                    current_load: 0,
                    is_up: true,
                },
            );
        }
    }
    let a = string_from(iface_a_id);
    let b = string_from(iface_b_id);
    if a == b {
        return Err(RequestError::SameInterface);
    }
    let linked = match find_interface(topology, iface_a_id) {
        None => {
            return Err(RequestError::InterfaceNotFound(a));
        },
        Some(ia) => match find_interface(topology, iface_b_id) {
            None => {
                return Err(RequestError::InterfaceNotFound(b));
            },
            Some(ib) => ia.link_id.is_some() || ib.link_id.is_some(),
        },
    };
    if linked {
        return Err(RequestError::AlreadyLinked);
    }
    Ok(crate::store::create_link(topology, iface_a_id, iface_b_id, bandwidth))
}


// ── BGP ──

/// Turns BGP on (or resets it) on the router keyed `router_id`; false
/// when there is no such router.
pub fn enable_bgp_on(topology: &mut Topology, router_id: &str, local_asn: u32) -> (found: bool)
    ensures
        match find_router(old(topology)@, router_id@) {
            None => !found && final(topology)@ == old(topology)@,
            Some(p) => {
                let rv = router_at(old(topology)@, p);
                found && final(topology)@ == with_router(
                    old(topology)@,
                    p,
                    RouterView {
                        bgp_process: Some(
                            crate::models::BgpProcessView {
                                local_asn,
                                router_id: rv.router_id_ip,
                                neighbors: Seq::empty(),
                                loc_rib: Seq::empty(),
                                best_routes: Seq::empty(),
                            },
                        ),
                        ..rv
                    },
                )
            },
        },
        tables_distinct(old(topology)@) ==> tables_distinct(final(topology)@),
{
    proof {
        crate::topology::lemma_sizes_fit(topology);
        crate::topology::lemma_find_router_valid(topology@, router_id@);
        let t0 = topology@;
        match find_router(t0, router_id@) {
            Some(p) => {
                assert forall|r: RouterView| tables_distinct(#[trigger] with_router(t0, p, r)) == tables_distinct(t0) by {
                    lemma_distinct_with_router(t0, p, r);
                }
            },
            None => {},
        }
    }
    match topology.get_router_mut(router_id) {
        Some(r) => {
            crate::store::enable_bgp(r, local_asn);
            true
        },
        None => false,
    }
}

/// The local AS of a router's BGP process, 0 without one.
pub open spec fn local_asn_of(r: RouterView) -> u32 {
    match r.bgp_process {
        Some(b) => b.local_asn,
        None => 0,
    }
}

/// What adding a neighbor does to a router running BGP (see
/// `store::add_bgp_neighbor`); a router without BGP is unchanged.
pub open spec fn with_bgp_neighbor(
    r: RouterView,
    ip: u32,
    remote_asn: u32,
    import: Option<Seq<char>>,
    export: Option<Seq<char>>,
) -> RouterView {
    match r.bgp_process {
        None => r,
        Some(b) => RouterView {
            bgp_process: Some(
                crate::models::BgpProcessView {
                    neighbors: insert_view(
                        b.neighbors,
                        crate::ipv4::ipv4_text(ip),
                        crate::store::new_neighbor(ip, remote_asn, local_asn_of(r), import, export),
                    ),
                    ..b
                },
            ),
            ..r
        },
    }
}

/// Adds a BGP neighbor to the router keyed `router_id`, whose own AS is
/// the local one (0 when it runs no BGP, which then changes nothing);
/// false when there is no such router.
pub fn add_neighbor_to(
    topology: &mut Topology,
    router_id: &str,
    neighbor_ip: u32,
    remote_asn: u32,
    import_policy: Option<String>,
    export_policy: Option<String>,
) -> (found: bool)
    ensures
        match find_router(old(topology)@, router_id@) {
            None => !found && final(topology)@ == old(topology)@,
            Some(p) => found && final(topology)@ == with_router(
                old(topology)@,
                p,
                with_bgp_neighbor(
                    router_at(old(topology)@, p),
                    neighbor_ip,
                    remote_asn,
                    crate::models::opt_string_view(import_policy),
                    crate::models::opt_string_view(export_policy),
                ),
            ),
        },
        tables_distinct(old(topology)@) ==> tables_distinct(final(topology)@),
{
    proof {
        crate::topology::lemma_sizes_fit(topology);
        crate::topology::lemma_find_router_valid(topology@, router_id@);
        let t0 = topology@;
        match find_router(t0, router_id@) {
            Some(p) => {
                assert forall|r: RouterView| tables_distinct(#[trigger] with_router(t0, p, r)) == tables_distinct(t0) by {
                    lemma_distinct_with_router(t0, p, r);
                }
            },
            None => {},
        }
    }
    match topology.get_router_mut(router_id) {
        Some(r) => {
            let local_asn = match &r.bgp_process {
                Some(b) => b.local_asn,
                None => 0,
            };
            crate::store::add_bgp_neighbor(
                r,
                neighbor_ip,
                remote_asn,
                local_asn,
                import_policy,
                export_policy,
            );
            true
        },
        None => false,
    }
}

// ── Traffic generators ──

/// A fresh random id from `uuid::Uuid::new_v4`, in the crate's hyphenated
/// text form (36 characters).  Nothing else is claimed of it: it is
/// random.
#[verifier::external_body]
fn new_uuid() -> (r: String)
    ensures
        r@.len() == 36,
{
    uuid::Uuid::new_v4().to_string()
}

/// Adds an active or inactive traffic generator to the router keyed
/// `source_router_id`, with a fresh id `tg-<uuid>`; gives the id, or none
/// when there is no such router (then nothing changes).
pub fn create_generator(
    topology: &mut Topology,
    source_router_id: &str,
    dest_prefix: &str,
    rate_bps: u64,
    is_active: bool,
) -> (r: Option<String>)
    ensures
        match find_router(old(topology)@, source_router_id@) {
            None => r is None && final(topology)@ == old(topology)@,
            Some(p) => {
                let rv = router_at(old(topology)@, p);
                r matches Some(id) && id@.len() == 39 && id@.subrange(0, 3) == "tg-"@ && final(topology)@
                    == with_router(
                    old(topology)@,
                    p,
                    RouterView {
                        traffic_generators: rv.traffic_generators.push(
                            crate::models::GeneratorView {
                                id: id@,
                                source_router_id: source_router_id@,
                                dest_prefix: dest_prefix@,
                                rate_bps,
                                is_active,
                            },
                        ),
                        ..rv
                    },
                )
            },
        },
        tables_distinct(old(topology)@) ==> tables_distinct(final(topology)@),
{
    proof {
        crate::topology::lemma_sizes_fit(topology);
        crate::topology::lemma_find_router_valid(topology@, source_router_id@);
        let t0 = topology@;
        match find_router(t0, source_router_id@) {
            Some(p) => {
                assert forall|r: RouterView| tables_distinct(#[trigger] with_router(t0, p, r)) == tables_distinct(t0) by {
                    lemma_distinct_with_router(t0, p, r);
                }
            },
            None => {},
        }
    }
    let mut id = string_from("tg-");
    let u = new_uuid();
    crate::text::push_str(&mut id, u.as_str());
    proof {
        reveal_strlit("tg-");
        assert(id@.subrange(0, 3) =~= "tg-"@);
    }
    match topology.get_router_mut(source_router_id) {
        Some(r) => {
            let ghost g0 = r@.traffic_generators;
            let g = TrafficGenerator {
                id: id.clone(),
                source_router_id: string_from(source_router_id),
                dest_prefix: string_from(dest_prefix),
                rate_bps,
                is_active,
            };
            r.traffic_generators.push(g);
            proof {
                assert(r@.traffic_generators =~= g0.push(g@));
            }
            Some(id)
        },
        None => None,
    }
}

/// Index of the first generator with id `gid`, or the number of them.
pub open spec fn gen_index(gs: Seq<crate::models::GeneratorView>, gid: Seq<char>, i: int) -> int
    decreases gs.len() - i,
{
    if i < 0 || i >= gs.len() {
        gs.len() as int
    } else if gs[i].id == gid {
        i
    } else {
        gen_index(gs, gid, i + 1)
    }
}

/// Index in `ps`, from `i` on, of the first router with a generator with
/// id `gid`.
pub open spec fn router_with_gen(t: TopologyView, ps: Seq<crate::topology::RouterPos>, gid: Seq<char>, i: int) -> int
    decreases ps.len() - i,
{
    if i < 0 || i >= ps.len() {
        ps.len() as int
    } else if gen_index(router_at(t, ps[i]).traffic_generators, gid, 0)
        < router_at(t, ps[i]).traffic_generators.len() {
        i
    } else {
        router_with_gen(t, ps, gid, i + 1)
    }
}

/// A generator with the given fields changed.
pub open spec fn updated_gen(
    g: crate::models::GeneratorView,
    rate_bps: Option<u64>,
    is_active: Option<bool>,
    dest_prefix: Option<Seq<char>>,
) -> crate::models::GeneratorView {
    crate::models::GeneratorView {
        rate_bps: match rate_bps {
            Some(v) => v,
            None => g.rate_bps,
        },
        is_active: match is_active {
            Some(v) => v,
            None => g.is_active,
        },
        dest_prefix: match dest_prefix {
            Some(v) => v,
            None => g.dest_prefix,
        },
        ..g
    }
}

fn find_gen(gs: &Vec<TrafficGenerator>, gid: &String) -> (r: Option<usize>)
    ensures
        ({
            let gv = gs@.map_values(|g: TrafficGenerator| g@);
            match r {
                Some(i) => i < gv.len() && i == gen_index(gv, gid@, 0),
                None => gen_index(gv, gid@, 0) == gv.len(),
            }
        }),
{
    let ghost gv = gs@.map_values(|g: TrafficGenerator| g@);
    let mut i: usize = 0;
    while i < gs.len()
        invariant
            gv == gs@.map_values(|g: TrafficGenerator| g@),
            i <= gs@.len(),
            gen_index(gv, gid@, i as int) == gen_index(gv, gid@, 0),
        decreases gs@.len() - i,
    {
        if gs[i].id == *gid {
            return Some(i);
        }
        i += 1;
    }
    None
}

fn update_gen_at(
    r: &mut Router,
    j: usize,
    rate_bps: Option<u64>,
    is_active: Option<bool>,
    dest_prefix: Option<String>,
)
    requires
        j < old(r)@.traffic_generators.len(),
    ensures
        final(r)@ == (RouterView {
            traffic_generators: old(r)@.traffic_generators.update(
                j as int,
                updated_gen(
                    old(r)@.traffic_generators[j as int],
                    rate_bps,
                    is_active,
                    crate::models::opt_string_view(dest_prefix),
                ),
            ),
            ..old(r)@
        }),
{
    let ghost g0 = r@.traffic_generators;
    match rate_bps {
        Some(v) => {
            r.traffic_generators[j].rate_bps = v;
        },
        None => {},
    }
    match is_active {
        Some(v) => {
            r.traffic_generators[j].is_active = v;
        },
        None => {},
    }
    match dest_prefix {
        Some(v) => {
            r.traffic_generators[j].dest_prefix = v;
        },
        None => {},
    }
    proof {
        assert(r@.traffic_generators =~= g0.update(
            j as int,
            updated_gen(g0[j as int], rate_bps, is_active, crate::models::opt_string_view(dest_prefix)),
        ));
    }
}

/// Changes the given fields of the first generator with id `gen_id` (on
/// the first router, standalone ones first, that has one); false when
/// there is none (then nothing changes).
pub fn update_generator(
    topology: &mut Topology,
    gen_id: &str,
    rate_bps: Option<u64>,
    is_active: Option<bool>,
    dest_prefix: Option<String>,
) -> (found: bool)
    ensures
        ({
            let t = old(topology)@;
            let ps = crate::topology::all_positions(t);
            let i = router_with_gen(t, ps, gen_id@, 0);
            if i < ps.len() {
                let rv = router_at(t, ps[i]);
                let j = gen_index(rv.traffic_generators, gen_id@, 0);
                found && final(topology)@ == with_router(
                    t,
                    ps[i],
                    RouterView {
                        traffic_generators: rv.traffic_generators.update(
                            j,
                            updated_gen(
                                rv.traffic_generators[j],
                                rate_bps,
                                is_active,
                                crate::models::opt_string_view(dest_prefix),
                            ),
                        ),
                        ..rv
                    },
                )
            } else {
                !found && final(topology)@ == t
            }
        }),
        tables_distinct(old(topology)@) ==> tables_distinct(final(topology)@),
{
    proof {
        crate::topology::lemma_sizes_fit(topology);
        crate::topology::lemma_all_positions_valid(topology@);
        let t0 = topology@;
        assert forall|j: int, r: RouterView| 0 <= j < crate::topology::all_positions(t0).len() implies tables_distinct(
            #[trigger] with_router(t0, crate::topology::all_positions(t0)[j], r),
        ) == tables_distinct(t0) by {
            lemma_distinct_with_router(t0, crate::topology::all_positions(t0)[j], r);
        }
    }
    let ghost t = topology@;
    let key = string_from(gen_id);
    let ps = topology.router_positions();
    proof {
        crate::topology::lemma_sizes_fit(topology);
        crate::topology::lemma_all_positions_valid(t);
    }
    let mut i: usize = 0;
    while i < ps.len()
        invariant
            t == topology@,
            t == old(topology)@,
            key@ == gen_id@,
            ps@ == crate::topology::all_positions(t),
            forall|j: int| 0 <= j < ps@.len() ==> crate::topology::pos_valid(t, #[trigger] ps@[j]),
            i <= ps@.len(),
            router_with_gen(t, ps@, gen_id@, i as int) == router_with_gen(t, ps@, gen_id@, 0),
        decreases ps@.len() - i,
    {
        let p = ps[i];
        let rr = topology.router_ref(p);
        proof {
            assert(rr.traffic_generators@.map_values(|g: TrafficGenerator| g@) =~= rr@.traffic_generators);
        }
        let found = find_gen(&rr.traffic_generators, &key);
        match found {
            Some(j) => {
                proof {
                    assert(router_with_gen(t, ps@, gen_id@, i as int) == i);
                }
                let r = topology.router_mut(p);
                update_gen_at(r, j, rate_bps, is_active, dest_prefix);
                return true;
            },
            None => {},
        }
        i += 1;
    }
    false
}

/// The first `n` generators without those with id `gid`, in order.
pub open spec fn gens_without(gs: Seq<crate::models::GeneratorView>, gid: Seq<char>, n: int) -> Seq<
    crate::models::GeneratorView,
>
    decreases n,
{
    if n <= 0 {
        Seq::empty()
    } else if gs[n - 1].id != gid {
        gens_without(gs, gid, n - 1).push(gs[n - 1])
    } else {
        gens_without(gs, gid, n - 1)
    }
}

/// The generators without those with id `gid`.
pub open spec fn without_gen(gs: Seq<crate::models::GeneratorView>, gid: Seq<char>) -> Seq<crate::models::GeneratorView> {
    gens_without(gs, gid, gs.len() as int)
}

fn drop_gens(r: &mut Router, key: &String)
    ensures
        final(r)@ == (RouterView {
            traffic_generators: without_gen(old(r)@.traffic_generators, key@),
            ..old(r)@
        }),
{
    let ghost gen_id = key@;
    let ghost g0 = r@.traffic_generators;
    let mut kept: Vec<TrafficGenerator> = Vec::new();
    proof {
        assert(kept@.map_values(|g: TrafficGenerator| g@) =~= gens_without(g0, gen_id, 0));
    }
    let mut k: usize = 0;
    while k < r.traffic_generators.len()
        invariant
            key@ == gen_id,
            r@ == old(r)@,
            g0 == r@.traffic_generators,
            g0.len() == r.traffic_generators@.len(),
            k <= g0.len(),
            kept@.map_values(|g: TrafficGenerator| g@) == gens_without(g0, gen_id, k as int),
        decreases g0.len() - k,
    {
        let ghost kb = kept@;
        if r.traffic_generators[k].id != *key {
            let g = TrafficGenerator {
                id: r.traffic_generators[k].id.clone(),
                source_router_id: r.traffic_generators[k].source_router_id.clone(),
                dest_prefix: r.traffic_generators[k].dest_prefix.clone(),
                rate_bps: r.traffic_generators[k].rate_bps,
                is_active: r.traffic_generators[k].is_active,
            };
            kept.push(g);
            proof {
                assert(g@ == g0[k as int]);
                assert(kept@.map_values(|g: TrafficGenerator| g@) =~= kb.map_values(
                    |g: TrafficGenerator| g@,
                ).push(g0[k as int]));
            }
        }
        k += 1;
    }
    r.traffic_generators = kept;
    proof {
        assert(r@.traffic_generators =~= without_gen(g0, gen_id));
    }
}

/// Deletes the generators with id `gen_id` from the first router
/// (standalone ones first) that has one; false when no router has one.
pub fn delete_generator(topology: &mut Topology, gen_id: &str) -> (found: bool)
    ensures
        ({
            let t = old(topology)@;
            let ps = crate::topology::all_positions(t);
            let i = router_with_gen(t, ps, gen_id@, 0);
            if i < ps.len() {
                let rv = router_at(t, ps[i]);
                found && final(topology)@ == with_router(
                    t,
                    ps[i],
                    RouterView { traffic_generators: without_gen(rv.traffic_generators, gen_id@), ..rv },
                )
            } else {
                !found && final(topology)@ == t
            }
        }),
        tables_distinct(old(topology)@) ==> tables_distinct(final(topology)@),
{
    proof {
        crate::topology::lemma_sizes_fit(topology);
        crate::topology::lemma_all_positions_valid(topology@);
        let t0 = topology@;
        assert forall|j: int, r: RouterView| 0 <= j < crate::topology::all_positions(t0).len() implies tables_distinct(
            #[trigger] with_router(t0, crate::topology::all_positions(t0)[j], r),
        ) == tables_distinct(t0) by {
            lemma_distinct_with_router(t0, crate::topology::all_positions(t0)[j], r);
        }
    }
    let ghost t = topology@;
    let key = string_from(gen_id);
    let ps = topology.router_positions();
    proof {
        crate::topology::lemma_sizes_fit(topology);
        crate::topology::lemma_all_positions_valid(t);
    }
    let mut i: usize = 0;
    while i < ps.len()
        invariant
            t == topology@,
            t == old(topology)@,
            key@ == gen_id@,
            ps@ == crate::topology::all_positions(t),
            forall|j: int| 0 <= j < ps@.len() ==> crate::topology::pos_valid(t, #[trigger] ps@[j]),
            i <= ps@.len(),
            router_with_gen(t, ps@, gen_id@, i as int) == router_with_gen(t, ps@, gen_id@, 0),
        decreases ps@.len() - i,
    {
        let p = ps[i];
        let rr = topology.router_ref(p);
        proof {
            assert(rr.traffic_generators@.map_values(|g: TrafficGenerator| g@) =~= rr@.traffic_generators);
        }
        if find_gen(&rr.traffic_generators, &key).is_some() {
            proof {
                assert(router_with_gen(t, ps@, gen_id@, i as int) == i);
            }
            let r = topology.router_mut(p);
            drop_gens(r, &key);
            return true;
        }
        i += 1;
    }
    false
}

// ── Routes and policies ──

fn clone_rib_entry(e: &RibEntry) -> (r: RibEntry)
    ensures
        r@ == e@,
{
    RibEntry {
        prefix: e.prefix.clone(),
        next_hop: e.next_hop,
        protocol: e.protocol,
        metric: e.metric,
        admin_distance: e.admin_distance,
        bgp_attributes: match &e.bgp_attributes {
            Some(a) => Some(a.clone()),
            None => None,
        },
    }
}

/// The entries of the first `n` RIB entries that OSPF learned, in order.
pub open spec fn ospf_only(rib: Seq<(Seq<char>, RibView)>, n: int) -> Seq<(Seq<char>, RibView)>
    decreases n,
{
    if n <= 0 {
        Seq::empty()
    } else if rib[n - 1].1.protocol == RouteProtocol::Ospf {
        ospf_only(rib, n - 1).push(rib[n - 1])
    } else {
        ospf_only(rib, n - 1)
    }
}

/// A router's OSPF routes: the RIB entries learned by OSPF, in order.
pub fn ospf_routes(router: &Router) -> (r: Vec<(String, RibEntry)>)
    ensures
        table_view(r@) == ospf_only(router@.rib, router@.rib.len() as int),
{
    let ghost rv = router@.rib;
    let mut out: Vec<(String, RibEntry)> = Vec::new();
    proof {
        assert(table_view(out@) =~= ospf_only(rv, 0));
    }
    let mut i: usize = 0;
    while i < router.rib.len()
        invariant
            rv == router@.rib,
            i <= rv.len(),
            table_view(out@) == ospf_only(rv, i as int),
        decreases rv.len() - i,
    {
        let ghost before = table_view(out@);
        if router.rib[i].1.protocol == RouteProtocol::Ospf {
            out.push((router.rib[i].0.clone(), clone_rib_entry(&router.rib[i].1)));
            proof {
                assert(table_view(out@) =~= before.push(rv[i as int]));
            }
        }
        i += 1;
    }
    out
}

/// Parses a policy and adds it under its name (replacing one with that
/// name); gives the name, or the parse error (then nothing changes).
pub fn add_policy(topology: &mut Topology, text: &str) -> (r: Result<String, String>)
    ensures
        match crate::policies::policy_from_text(text@) {
            Ok(p) => r matches Ok(name) && name@ == p.name && final(topology)@ == (TopologyView {
                policies: insert_view(old(topology)@.policies, p.name, p),
                ..old(topology)@
            }),
            Err(e) => r matches Err(m) && m@ == e && final(topology)@ == old(topology)@,
        },
        tables_distinct(old(topology)@) ==> tables_distinct(final(topology)@),
{
    match crate::policies::parse_policy(text) {
        Ok(policy) => {
            let name = policy.name.clone();
            insert_key(&mut topology.policies, name.clone(), policy);
            Ok(name)
        },
        Err(e) => Err(e),
    }
}

/// Deletes the policy named `name`; false when there is none.
pub fn delete_policy(topology: &mut Topology, name: &str) -> (found: bool)
    ensures
        found == (lookup(old(topology)@.policies, name@) is Some),
        final(topology)@ == (TopologyView {
            policies: remove_view(old(topology)@.policies, name@),
            ..old(topology)@
        }),
        tables_distinct(old(topology)@) ==> tables_distinct(final(topology)@),
{
    let key = string_from(name);
    remove_key(&mut topology.policies, &key).is_some()
}

} // verus!
