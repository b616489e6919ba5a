use netsim::bgp_tick::tick_bgp;
use netsim::events::EventQueue;
use netsim::models::{
    BgpAttributes, BgpNeighbor, BgpOrigin, BgpRoute, BgpSessionState, RouteProtocol, Topology,
};
use netsim::requests::add_policy;
use netsim::store::create_sample_topology;

fn ip(a: u32, b: u32, c: u32, d: u32) -> u32 {
    (a << 24) | (b << 16) | (c << 8) | d
}

fn route(prefix: &str, as_path: Vec<u32>, from: u32) -> BgpRoute {
    BgpRoute {
        prefix: prefix.to_string(),
        attributes: BgpAttributes {
            as_path,
            local_pref: 100,
            med: 0,
            next_hop: from,
            origin: BgpOrigin::Igp,
            communities: Vec::new(),
            weight: 0,
        },
        received_from: Some(from),
        is_best: false,
    }
}

fn neighbor_mut<'a>(t: &'a mut Topology, router: &str, key: &str) -> &'a mut BgpNeighbor {
    let r = t.get_router_mut(router).unwrap();
    let b = r.bgp_process.as_mut().unwrap();
    &mut b.neighbors.iter_mut().find(|(k, _)| k == key).unwrap().1
}

fn neighbor_state(t: &Topology, router: &str, key: &str) -> BgpSessionState {
    let b = t.get_router(router).unwrap().bgp_process.as_ref().unwrap();
    b.neighbors.iter().find(|(k, _)| k == key).unwrap().1.state
}

fn best<'a>(t: &'a Topology, router: &str, prefix: &str) -> Option<&'a BgpRoute> {
    let b = t.get_router(router).unwrap().bgp_process.as_ref().unwrap();
    b.best_routes.iter().find(|(k, _)| k == prefix).map(|(_, r)| r)
}

fn ticks(t: &mut Topology, q: &mut EventQueue, from: u64, n: u64) {
    for i in 0..n {
        tick_bgp(t, from + i, q);
    }
}

#[test]
fn sessions_establish_after_four_ticks_and_stay() {
    let mut t = create_sample_topology();
    let mut q = EventQueue::new();
    ticks(&mut t, &mut q, 1, 3);
    assert_eq!(neighbor_state(&t, "rtr-r1", "4.4.4.4"), BgpSessionState::OpenConfirm);
    tick_bgp(&mut t, 4, &mut q);
    assert_eq!(neighbor_state(&t, "rtr-r1", "4.4.4.4"), BgpSessionState::Established);
    assert_eq!(neighbor_state(&t, "rtr-r4", "1.1.1.1"), BgpSessionState::Established);
    ticks(&mut t, &mut q, 5, 3);
    assert_eq!(neighbor_state(&t, "rtr-r1", "4.4.4.4"), BgpSessionState::Established);
    assert!(q.is_empty());
}

#[test]
fn routes_of_an_unestablished_session_are_not_imported() {
    let mut t = create_sample_topology();
    let mut q = EventQueue::new();
    let r = route("198.51.100.0/24", vec![65002], ip(4, 4, 4, 4));
    neighbor_mut(&mut t, "rtr-r1", "4.4.4.4").adj_rib_in.push(("198.51.100.0/24".to_string(), r));
    ticks(&mut t, &mut q, 1, 3);
    assert!(best(&t, "rtr-r1", "198.51.100.0/24").is_none());
    tick_bgp(&mut t, 4, &mut q);
    let b = best(&t, "rtr-r1", "198.51.100.0/24").unwrap();
    assert!(b.is_best);
    assert_eq!(b.attributes.as_path, vec![65002]);
    let r1 = t.get_router("rtr-r1").unwrap();
    let rib = &r1.rib.iter().find(|(k, _)| k == "198.51.100.0/24").unwrap().1;
    assert_eq!(rib.protocol, RouteProtocol::BgpExternal);
    assert_eq!(rib.admin_distance, 20);
    assert_eq!(rib.next_hop, ip(4, 4, 4, 4));
}

#[test]
fn import_policy_rejection_keeps_route_out() {
    let mut t = create_sample_topology();
    let mut q = EventQueue::new();
    add_policy(&mut t, "policy \"deny\" {\n  default reject\n}\n").unwrap();
    {
        let n = neighbor_mut(&mut t, "rtr-r1", "4.4.4.4");
        n.import_policy = Some("deny".to_string());
        n.adj_rib_in
            .push(("198.51.100.0/24".to_string(), route("198.51.100.0/24", vec![65002], ip(4, 4, 4, 4))));
    }
    ticks(&mut t, &mut q, 1, 6);
    assert!(best(&t, "rtr-r1", "198.51.100.0/24").is_none());
}

#[test]
fn best_routes_are_advertised_with_the_local_asn_prepended() {
    let mut t = create_sample_topology();
    let mut q = EventQueue::new();
    // A route that R1 learned from some other peer.
    neighbor_mut(&mut t, "rtr-r1", "4.4.4.4")
        .adj_rib_in
        .push(("203.0.113.0/24".to_string(), route("203.0.113.0/24", vec![65010], ip(9, 9, 9, 9))));
    ticks(&mut t, &mut q, 1, 4);
    let r4 = t.get_router("rtr-r4").unwrap();
    let n = &r4.bgp_process.as_ref().unwrap().neighbors.iter().find(|(k, _)| k == "1.1.1.1").unwrap().1;
    let adv = &n.adj_rib_in.iter().find(|(k, _)| k == "203.0.113.0/24").unwrap().1;
    assert_eq!(adv.attributes.as_path, vec![65001, 65010]);
    assert_eq!(adv.attributes.next_hop, ip(1, 1, 1, 1));
    assert_eq!(adv.received_from, Some(ip(1, 1, 1, 1)));
}

#[test]
fn routes_are_not_sent_back_to_their_sender() {
    let mut t = create_sample_topology();
    let mut q = EventQueue::new();
    neighbor_mut(&mut t, "rtr-r1", "4.4.4.4")
        .adj_rib_in
        .push(("198.51.100.0/24".to_string(), route("198.51.100.0/24", vec![65002], ip(4, 4, 4, 4))));
    ticks(&mut t, &mut q, 1, 6);
    let r4 = t.get_router("rtr-r4").unwrap();
    let n = &r4.bgp_process.as_ref().unwrap().neighbors.iter().find(|(k, _)| k == "1.1.1.1").unwrap().1;
    assert!(n.adj_rib_in.is_empty());
}

#[test]
fn export_policy_rejection_stops_advertisement() {
    let mut t = create_sample_topology();
    let mut q = EventQueue::new();
    add_policy(&mut t, "policy \"deny\" {\n  default reject\n}\n").unwrap();
    {
        let n = neighbor_mut(&mut t, "rtr-r1", "4.4.4.4");
        n.export_policy = Some("deny".to_string());
        n.adj_rib_in
            .push(("203.0.113.0/24".to_string(), route("203.0.113.0/24", vec![65010], ip(9, 9, 9, 9))));
    }
    ticks(&mut t, &mut q, 1, 6);
    assert!(best(&t, "rtr-r1", "203.0.113.0/24").is_some());
    let r4 = t.get_router("rtr-r4").unwrap();
    let n = &r4.bgp_process.as_ref().unwrap().neighbors.iter().find(|(k, _)| k == "1.1.1.1").unwrap().1;
    assert!(n.adj_rib_in.is_empty());
}
