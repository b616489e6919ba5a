use netsim::ipv4::Ipv4Net;
use netsim::models::{RouteProtocol, Topology};
use netsim::requests::{
    add_autonomous_system, add_interface_to, add_neighbor_to, add_policy, add_router_to_as,
    add_standalone_router, create_generator, create_link_checked, delete_autonomous_system,
    delete_generator, delete_policy, delete_router, enable_bgp_on, ospf_routes, update_generator,
    RequestError,
};
use netsim::store::{create_sample_topology, prefix_key_string};
use netsim::table::{insert_key, remove_key};

fn ip(a: u32, b: u32, c: u32, d: u32) -> u32 {
    (a << 24) | (b << 16) | (c << 8) | d
}

fn router_count(t: &Topology) -> usize {
    t.all_routers().len()
}

fn has_link(t: &Topology, id: &str) -> bool {
    t.links.iter().any(|(k, _)| k == id)
}

#[test]
fn sample_topology_has_two_ases_five_routers_and_five_links() {
    let t = create_sample_topology();
    assert_eq!(t.autonomous_systems.len(), 2);
    assert_eq!(t.autonomous_systems[0].0, "as-65001");
    assert_eq!(t.autonomous_systems[1].0, "as-65002");
    assert_eq!(router_count(&t), 5);
    assert_eq!(t.links.len(), 5);
    assert!(t.links.iter().all(|(_, l)| l.is_up && l.current_load == 0));
    assert!(has_link(&t, "link-rtr-r1-eth2-rtr-r4-eth0"));
    assert!(t.standalone_routers.is_empty());
    assert!(t.policies.is_empty());
}

#[test]
fn sample_topology_border_routers_peer_over_bgp() {
    let t = create_sample_topology();
    let r1 = t.get_router("rtr-r1").unwrap();
    let bgp = r1.bgp_process.as_ref().unwrap();
    assert_eq!(bgp.local_asn, 65001);
    let n = &bgp.neighbors.iter().find(|(k, _)| k == "4.4.4.4").unwrap().1;
    assert_eq!(n.remote_asn, 65002);
    assert!(n.is_ebgp);
    let r4 = t.get_router("rtr-r4").unwrap();
    assert_eq!(r4.bgp_process.as_ref().unwrap().local_asn, 65002);
    assert!(t.get_router("rtr-r2").unwrap().bgp_process.is_none());
}

#[test]
fn sample_topology_interfaces_and_backbone_area() {
    let t = create_sample_topology();
    let r1 = t.get_router("rtr-r1").unwrap();
    assert_eq!((r1.name.as_str(), r1.as_id.as_str()), ("R1", "as-65001"));
    let keys: Vec<&str> = r1.interfaces.iter().map(|(k, _)| k.as_str()).collect();
    assert_eq!(keys, vec!["rtr-r1-eth0", "rtr-r1-eth1", "rtr-r1-lo0", "rtr-r1-eth2"]);
    let lo = &r1.interfaces[2].1;
    assert_eq!(lo.ip_address, Ipv4Net { addr: ip(10, 1, 1, 1), prefix: 32 });
    assert_eq!((lo.bandwidth, lo.cost), (0, 0));
    let eth2 = &r1.interfaces[3].1;
    assert_eq!(eth2.ip_address, Ipv4Net { addr: ip(172, 16, 0, 1), prefix: 30 });
    assert_eq!((eth2.bandwidth, eth2.cost), (1_000_000_000, 10));
    let ospf = r1.ospf_process.as_ref().unwrap();
    assert_eq!(ospf.areas.len(), 1);
    assert_eq!(ospf.areas[0].0, 0);
    assert_eq!(ospf.areas[0].1.interface_ids, vec!["rtr-r1-eth0", "rtr-r1-eth1", "rtr-r1-lo0", "rtr-r1-eth2"]);
    let rib: Vec<&str> = r1.rib.iter().map(|(k, _)| k.as_str()).collect();
    assert_eq!(rib, vec!["10.0.12.0/30", "10.0.13.0/30", "10.1.1.1/32", "172.16.0.0/30"]);
    assert!(r1.rib.iter().all(|(_, e)| e.protocol == RouteProtocol::Connected && e.metric == 0));
    let links: Vec<Option<&str>> = r1.interfaces.iter().map(|(_, i)| i.link_id.as_deref()).collect();
    assert_eq!(
        links,
        vec![
            Some("link-rtr-r1-eth0-rtr-r2-eth0"),
            Some("link-rtr-r1-eth1-rtr-r3-eth0"),
            None,
            Some("link-rtr-r1-eth2-rtr-r4-eth0"),
        ]
    );
    let r5 = t.get_router("rtr-r5").unwrap();
    let keys5: Vec<&str> = r5.interfaces.iter().map(|(k, _)| k.as_str()).collect();
    assert_eq!(keys5, vec!["rtr-r5-eth0", "rtr-r5-lo0"]);
    assert_eq!(r5.interfaces[0].1.ip_address, Ipv4Net { addr: ip(10, 2, 45, 2), prefix: 30 });
    let r4 = t.get_router("rtr-r4").unwrap();
    let peers: Vec<(&str, u32)> = r4
        .bgp_process
        .as_ref()
        .unwrap()
        .neighbors
        .iter()
        .map(|(k, n)| (k.as_str(), n.remote_asn))
        .collect();
    assert_eq!(peers, vec![("1.1.1.1", 65001)]);
    assert!(t.autonomous_systems.iter().all(|(_, a)| a.ospf_areas.is_empty()));
    for (_, a) in &t.autonomous_systems {
        for (_, r) in &a.routers {
            assert!(r.fib.is_empty() && r.traffic_generators.is_empty());
            assert!(r.interfaces.iter().all(|(_, i)| i.is_up));
            let o = r.ospf_process.as_ref().unwrap();
            assert!(o.lsdb.is_empty() && o.neighbors.is_empty() && o.spf_pending);
        }
    }
}

#[test]
fn add_and_delete_autonomous_system() {
    let mut t = Topology::new();
    let id = add_autonomous_system(&mut t, 64512, "Lab");
    assert_eq!(id, "as-64512");
    assert!(delete_autonomous_system(&mut t, "as-64512"));
    assert!(!delete_autonomous_system(&mut t, "as-64512"));
    assert!(t.autonomous_systems.is_empty());
}

#[test]
fn router_in_missing_as_is_refused() {
    let mut t = Topology::new();
    assert_eq!(
        add_router_to_as(&mut t, "as-1", "R9", ip(9, 9, 9, 9)),
        Err(RequestError::AsNotFound)
    );
    add_autonomous_system(&mut t, 1, "One");
    let id = add_router_to_as(&mut t, "as-1", "Edge Router", ip(9, 9, 9, 9)).unwrap();
    assert_eq!(id, "rtr-edge-router");
    assert_eq!(t.get_router("rtr-edge-router").unwrap().as_id, "as-1");
}

#[test]
fn interface_requests_check_address_and_router() {
    let mut t = Topology::new();
    let r = add_standalone_router(&mut t, "S1", ip(7, 7, 7, 7));
    assert_eq!(r, "rtr-s1");
    assert_eq!(
        add_interface_to(&mut t, "rtr-s1", "eth0", "10.0.0.300/24", 1000, 1),
        Err(RequestError::InvalidAddress)
    );
    assert_eq!(
        add_interface_to(&mut t, "rtr-none", "eth0", "10.0.0.1/24", 1000, 1),
        Err(RequestError::RouterNotFound)
    );
    let iface = add_interface_to(&mut t, "rtr-s1", "eth0", "10.0.0.1/24", 1000, 1).unwrap();
    assert_eq!(iface, "rtr-s1-eth0");
    let router = t.get_router("rtr-s1").unwrap();
    let stored = &router.interfaces.iter().find(|(k, _)| k == "rtr-s1-eth0").unwrap().1;
    assert_eq!(stored.ip_address, Ipv4Net::new(ip(10, 0, 0, 1), 24).unwrap());
    let connected = &router.rib.iter().find(|(k, _)| k == "10.0.0.0/24").unwrap().1;
    assert_eq!(connected.protocol, RouteProtocol::Connected);
}

#[test]
fn link_requests_report_each_refusal() {
    let mut t = Topology::new();
    add_standalone_router(&mut t, "A", ip(1, 0, 0, 1));
    add_standalone_router(&mut t, "B", ip(1, 0, 0, 2));
    let a = add_interface_to(&mut t, "rtr-a", "eth0", "10.9.0.1/30", 1000, 1).unwrap();
    let b = add_interface_to(&mut t, "rtr-b", "eth0", "10.9.0.2/30", 1000, 1).unwrap();
    assert_eq!(create_link_checked(&mut t, &a, &a, 1000), Err(RequestError::SameInterface));
    assert_eq!(
        create_link_checked(&mut t, "rtr-a-eth9", &b, 1000),
        Err(RequestError::InterfaceNotFound("rtr-a-eth9".to_string()))
    );
    assert_eq!(
        create_link_checked(&mut t, &a, "rtr-b-eth9", 1000),
        Err(RequestError::InterfaceNotFound("rtr-b-eth9".to_string()))
    );
    let link = create_link_checked(&mut t, &a, &b, 1000).unwrap();
    assert_eq!(link, "link-rtr-a-eth0-rtr-b-eth0");
    assert_eq!(create_link_checked(&mut t, &b, &a, 1000), Err(RequestError::AlreadyLinked));
    assert!(delete_router(&mut t, "rtr-a"));
    assert!(!has_link(&t, &link));
    let b_iface = &t.get_router("rtr-b").unwrap().interfaces[0].1;
    assert_eq!(b_iface.link_id, None);
    assert!(!delete_router(&mut t, "rtr-a"));
}

#[test]
fn deleting_an_as_removes_its_links() {
    let mut t = create_sample_topology();
    assert!(delete_autonomous_system(&mut t, "as-65002"));
    assert_eq!(t.links.len(), 3);
    assert!(!has_link(&t, "link-rtr-r1-eth2-rtr-r4-eth0"));
    assert_eq!(router_count(&t), 3);
}

#[test]
fn bgp_requests_need_a_router() {
    let mut t = create_sample_topology();
    assert!(!enable_bgp_on(&mut t, "rtr-none", 65001));
    assert!(enable_bgp_on(&mut t, "rtr-r2", 65001));
    assert!(add_neighbor_to(&mut t, "rtr-r2", ip(1, 1, 1, 1), 65001, None, None));
    let bgp = t.get_router("rtr-r2").unwrap().bgp_process.as_ref().unwrap();
    let n = &bgp.neighbors.iter().find(|(k, _)| k == "1.1.1.1").unwrap().1;
    assert!(!n.is_ebgp);
    assert!(!add_neighbor_to(&mut t, "rtr-none", ip(1, 1, 1, 1), 65001, None, None));
}

#[test]
fn traffic_generator_lifecycle() {
    let mut t = create_sample_topology();
    assert_eq!(create_generator(&mut t, "rtr-none", "10.1.3.1/32", 1000, true), None);
    let id = create_generator(&mut t, "rtr-r1", "10.1.3.1/32", 1000, true).unwrap();
    assert!(id.starts_with("tg-"));
    assert_eq!(id.len(), 39);
    let other = create_generator(&mut t, "rtr-r1", "10.1.2.1/32", 5, false).unwrap();
    assert_ne!(id, other);

    assert!(update_generator(&mut t, &id, Some(2000), Some(false), None));
    let g = t
        .get_router("rtr-r1")
        .unwrap()
        .traffic_generators
        .iter()
        .find(|g| g.id == id)
        .unwrap();
    assert_eq!(g.rate_bps, 2000);
    assert!(!g.is_active);
    assert_eq!(g.dest_prefix, "10.1.3.1/32");

    assert!(delete_generator(&mut t, &id));
    assert!(!delete_generator(&mut t, &id));
    assert!(!update_generator(&mut t, &id, Some(1), None, None));
    assert_eq!(t.get_router("rtr-r1").unwrap().traffic_generators.len(), 1);
}

#[test]
fn policies_are_added_by_name_and_deleted() {
    let mut t = Topology::new();
    let text = "policy \"deny-all\" {\n  default reject\n}\n";
    assert_eq!(add_policy(&mut t, text), Ok("deny-all".to_string()));
    assert_eq!(t.policies.len(), 1);
    assert!(add_policy(&mut t, "policy \"broken\" {\n  default maybe\n}\n").is_err());
    assert_eq!(t.policies.len(), 1);
    assert!(delete_policy(&mut t, "deny-all"));
    assert!(!delete_policy(&mut t, "deny-all"));
}

#[test]
fn ospf_routes_lists_only_ospf_entries() {
    let t = create_sample_topology();
    let r1 = t.get_router("rtr-r1").unwrap();
    assert!(!r1.rib.is_empty());
    assert!(ospf_routes(r1).is_empty());
}

#[test]
fn prefix_keys_use_the_network_address() {
    let n = Ipv4Net::new(ip(10, 0, 12, 1), 30).unwrap();
    assert_eq!(prefix_key_string(&n), "10.0.12.0/30");
}

#[test]
fn tables_keep_one_entry_per_key() {
    let mut t = Topology::new();
    add_autonomous_system(&mut t, 64512, "Lab");
    add_autonomous_system(&mut t, 64512, "Lab again");
    add_autonomous_system(&mut t, 64513, "Other");
    assert_eq!(t.autonomous_systems.len(), 2);
    assert_eq!(t.autonomous_systems[0].1.name, "Lab again");
    assert!(delete_autonomous_system(&mut t, "as-64512"));
    assert!(t.autonomous_systems.iter().all(|(k, _)| k != "as-64512"));
    let mut v: Vec<(String, u32)> = Vec::new();
    insert_key(&mut v, "a".to_string(), 1);
    insert_key(&mut v, "b".to_string(), 2);
    insert_key(&mut v, "a".to_string(), 3);
    assert_eq!(v, vec![("a".to_string(), 3), ("b".to_string(), 2)]);
    assert_eq!(remove_key(&mut v, &"a".to_string()), Some(3));
    assert_eq!(remove_key(&mut v, &"a".to_string()), None);
    assert_eq!(v, vec![("b".to_string(), 2)]);
}
