use netsim::ipv4::{ipv4_string, Ipv4Net};
use netsim::models::{
    Lsa, LsaBody, LsaType, OspfNeighborState, RouteProtocol, RouterLsaLink, SpfResult, Topology,
};
use netsim::ospf::{install_lsa, install_ospf_routes, lsa_key_router, originate_router_lsa};
use netsim::ospf_tick::update_ospf_neighbors;
use netsim::spf::run_spf;
use netsim::store::{add_interface, create_autonomous_system, create_link, create_router};

fn ip(a: u32, b: u32, c: u32, d: u32) -> u32 {
    (a << 24) | (b << 16) | (c << 8) | d
}

fn net(a: u32, b: u32, c: u32, d: u32, prefix: u8) -> Ipv4Net {
    Ipv4Net::new(ip(a, b, c, d), prefix).unwrap()
}

fn build_router_lsa(advertising_router: u32, seq: u32, links: Vec<RouterLsaLink>) -> Lsa {
    Lsa {
        lsa_type: LsaType::RouterLsa,
        advertising_router,
        link_state_id: ipv4_string(advertising_router),
        sequence_number: seq,
        age: 0,
        body: LsaBody::Router { links },
    }
}

fn lsdb_sequence(router: &netsim::models::Router, key: &str) -> Option<u32> {
    router
        .ospf_process
        .as_ref()
        .unwrap()
        .lsdb
        .iter()
        .find(|(k, _)| k == key)
        .map(|(_, l)| l.sequence_number)
}

fn neighbor_state(t: &Topology, router_id: &str, neighbor: &str) -> OspfNeighborState {
    t.get_router(router_id)
        .unwrap()
        .ospf_process
        .as_ref()
        .unwrap()
        .neighbors
        .iter()
        .find(|(k, _)| k == neighbor)
        .unwrap()
        .1
        .state
}

fn two_router_topology(r1_cost: u32, r2_cost: u32, r2_loopback: bool) -> (Topology, String) {
    let mut topology = Topology::new();
    let mut asys = create_autonomous_system(65001, "AS1");
    let mut r1 = create_router("R1", &asys.id, ip(1, 1, 1, 1));
    let mut r2 = create_router("R2", &asys.id, ip(2, 2, 2, 2));
    let r1_eth0 = add_interface(&mut r1, "eth0", net(10, 0, 12, 1, 30), 1_000_000_000, r1_cost);
    let r2_eth0 = add_interface(&mut r2, "eth0", net(10, 0, 12, 2, 30), 1_000_000_000, r2_cost);
    if r2_loopback {
        add_interface(&mut r2, "lo0", net(10, 2, 2, 2, 32), 0, 1);
    }
    asys.routers.push((r1.id.clone(), r1));
    asys.routers.push((r2.id.clone(), r2));
    topology.autonomous_systems.push((asys.id.clone(), asys));
    let link_id = create_link(&mut topology, &r1_eth0, &r2_eth0, 1_000_000_000);
    (topology, link_id)
}

#[test]
fn test_rfc2328_lsa_install_newer_sequence_replaces_older() {
    let mut router = create_router("R1", "as-65001", ip(1, 1, 1, 1));
    let area_id = 0;
    let rid = router.router_id_ip;
    let key = lsa_key_router(rid, area_id);

    let lsa_v10 = build_router_lsa(rid, 10, Vec::new());
    let lsa_v9 = build_router_lsa(rid, 9, Vec::new());
    let lsa_v11 = build_router_lsa(rid, 11, Vec::new());

    assert!(install_lsa(&mut router, area_id, lsa_v10));
    assert!(!install_lsa(&mut router, area_id, lsa_v9));
    assert_eq!(lsdb_sequence(&router, &key), Some(10));
    assert!(install_lsa(&mut router, area_id, lsa_v11));
    assert_eq!(lsdb_sequence(&router, &key), Some(11));
}

#[test]
fn test_rfc2328_adjacency_tracks_link_up_down() {
    let (mut topology, link_id) = two_router_topology(10, 10, false);

    update_ospf_neighbors(&mut topology);
    assert_eq!(neighbor_state(&topology, "rtr-r1", "2.2.2.2"), OspfNeighborState::Full);
    assert_eq!(neighbor_state(&topology, "rtr-r2", "1.1.1.1"), OspfNeighborState::Full);

    topology
        .links
        .iter_mut()
        .find(|(k, _)| *k == link_id)
        .unwrap()
        .1
        .is_up = false;
    update_ospf_neighbors(&mut topology);

    assert_eq!(neighbor_state(&topology, "rtr-r1", "2.2.2.2"), OspfNeighborState::Down);
    assert_eq!(neighbor_state(&topology, "rtr-r2", "1.1.1.1"), OspfNeighborState::Down);
}

#[test]
fn test_rfc2328_spf_chooses_lowest_cost_path_and_next_hop() {
    let (mut topology, _) = two_router_topology(10, 20, true);

    let r1_lsa = originate_router_lsa(topology.get_router("rtr-r1").unwrap(), 0);
    let r2_lsa = originate_router_lsa(topology.get_router("rtr-r2").unwrap(), 0);
    {
        let r1_mut = topology.get_router_mut("rtr-r1").unwrap();
        install_lsa(r1_mut, 0, r1_lsa);
        install_lsa(r1_mut, 0, r2_lsa);
    }

    let r1_for_spf = topology.get_router("rtr-r1").unwrap();
    let results = run_spf(r1_for_spf, 0);

    let remote = results
        .iter()
        .find(|r| r.destination == net(10, 2, 2, 2, 32))
        .unwrap();
    assert_eq!(remote.cost, 11);
    assert_eq!(remote.next_hop, ip(2, 2, 2, 2));
    assert_eq!(remote.next_hop_interface_id, "rtr-r1-eth0");
}

#[test]
fn test_rfc2328_ospf_route_does_not_override_connected() {
    let mut router = create_router("R1", "as-65001", ip(1, 1, 1, 1));
    add_interface(&mut router, "lo0", net(10, 1, 1, 1, 32), 0, 1);

    let spf_results = vec![SpfResult {
        destination: net(10, 1, 1, 1, 32),
        cost: 5,
        next_hop: ip(10, 1, 1, 1),
        next_hop_interface_id: "rtr-r1-lo0".to_string(),
    }];

    install_ospf_routes(&mut router, &spf_results);

    let entry = &router.rib.iter().find(|(k, _)| k == "10.1.1.1/32").unwrap().1;
    assert_eq!(entry.protocol, RouteProtocol::Connected);
    assert_eq!(entry.admin_distance, 0);
}

#[test]
fn lsa_key_and_router_lsa_shape() {
    let (topology, _) = two_router_topology(10, 20, true);
    assert_eq!(lsa_key_router(ip(1, 1, 1, 1), 0), "rtr:1.1.1.1:0");
    let lsa = originate_router_lsa(topology.get_router("rtr-r2").unwrap(), 0);
    assert_eq!(lsa.advertising_router, ip(2, 2, 2, 2));
    assert_eq!(lsa.link_state_id, "2.2.2.2");
    assert_eq!(lsa.lsa_type, LsaType::RouterLsa);
    match &lsa.body {
        LsaBody::Router { links } => assert!(!links.is_empty()),
        _ => panic!("router LSA expected"),
    }
}

#[test]
fn spf_without_peer_lsa_misses_remote_prefix() {
    let (mut topology, _) = two_router_topology(10, 20, true);
    let r1_lsa = originate_router_lsa(topology.get_router("rtr-r1").unwrap(), 0);
    install_lsa(topology.get_router_mut("rtr-r1").unwrap(), 0, r1_lsa);
    let results = run_spf(topology.get_router("rtr-r1").unwrap(), 0);
    for r in results.iter() {
        assert_ne!(r.destination, net(10, 2, 2, 2, 32));
    }
}

#[test]
fn spf_reaches_own_networks_at_their_interface_cost() {
    let (mut topology, _) = two_router_topology(10, 20, true);
    let r1_lsa = originate_router_lsa(topology.get_router("rtr-r1").unwrap(), 0);
    install_lsa(topology.get_router_mut("rtr-r1").unwrap(), 0, r1_lsa);
    let results = run_spf(topology.get_router("rtr-r1").unwrap(), 0);
    // A stub link names the network address, read back as a host prefix.
    let own = results.iter().find(|r| r.destination == net(10, 0, 12, 0, 32)).unwrap();
    assert_eq!(own.cost, 10);
    assert_eq!(own.next_hop, ip(10, 0, 12, 1));
    assert_eq!(own.next_hop_interface_id, "rtr-r1-eth0");
}
