use netsim::export::{build_router_config, config_writable_check, interface_order, prefix_to_mask, wildcard_mask};
use netsim::gns3::gns3_layout;
use netsim::ipv4::Ipv4Net;
use netsim::models::Topology;
use netsim::requests::add_policy;
use netsim::store::{add_bgp_neighbor, add_interface, create_router, create_sample_topology, enable_bgp};

fn ip(a: u32, b: u32, c: u32, d: u32) -> u32 {
    (a << 24) | (b << 16) | (c << 8) | d
}

#[test]
fn masks_of_common_prefix_lengths() {
    assert_eq!(prefix_to_mask(0), "0.0.0.0");
    assert_eq!(prefix_to_mask(8), "255.0.0.0");
    assert_eq!(prefix_to_mask(24), "255.255.255.0");
    assert_eq!(prefix_to_mask(30), "255.255.255.252");
    assert_eq!(prefix_to_mask(32), "255.255.255.255");
    assert_eq!(wildcard_mask(8), "0.255.255.255");
    assert_eq!(wildcard_mask(30), "0.0.0.3");
    assert_eq!(wildcard_mask(32), "0.0.0.0");
}

#[test]
fn interfaces_are_numbered_in_id_order() {
    let mut r = create_router("R1", "as-1", ip(1, 1, 1, 1));
    add_interface(&mut r, "lo0", Ipv4Net::new(ip(10, 1, 1, 1), 32).unwrap(), 0, 1);
    add_interface(&mut r, "eth1", Ipv4Net::new(ip(10, 0, 13, 1), 30).unwrap(), 1000, 10);
    add_interface(&mut r, "eth0", Ipv4Net::new(ip(10, 0, 12, 1), 30).unwrap(), 1000, 10);
    assert_eq!(interface_order(&r), vec![2, 1, 0]);
}

#[test]
fn config_of_an_ospf_router() {
    let t = create_sample_topology();
    let r5 = t.get_router("rtr-r5").unwrap();
    let expected = "!\nhostname R5\n!\n\
interface Ethernet0\n ip address 10.2.45.2 255.255.255.252\n bandwidth 1000000\n no shutdown\n!\n\
interface Ethernet1\n ip address 10.2.5.1 255.255.255.255\n no shutdown\n!\n\
router ospf 1\n router-id 5.5.5.5\n network 10.2.45.0 0.0.0.3 area 0\n network 10.2.5.1 0.0.0.0 area 0\n\
interface Ethernet0\n ip ospf cost 10\n!\n\
interface Ethernet1\n ip ospf cost 0\n!\n\
!\nend\n";
    assert_eq!(build_router_config(r5, &t), expected);
}

#[test]
fn config_with_bgp_and_route_maps() {
    let mut t = Topology::new();
    add_policy(
        &mut t,
        "policy-statement pad {\n  term p {\n    then {\n      as-path-prepend \"65001 65001\";\n      metric 7;\n      accept;\n    }\n  }\n  then reject;\n}\n",
    )
    .unwrap();
    let mut r = create_router("Edge", "as-65001", ip(9, 9, 9, 9));
    r.ospf_process = None;
    add_interface(&mut r, "eth0", Ipv4Net::new(ip(172, 16, 0, 1), 30).unwrap(), 1000, 1);
    enable_bgp(&mut r, 65001);
    add_bgp_neighbor(&mut r, ip(172, 16, 0, 2), 65002, 65001, Some("pad".to_string()), None);
    let expected = "!\nhostname Edge\n!\n\
interface Ethernet0\n ip address 172.16.0.1 255.255.255.252\n no shutdown\n!\n\
router bgp 65001\n bgp router-id 9.9.9.9\n neighbor 172.16.0.2 remote-as 65002\n neighbor 172.16.0.2 route-map pad in\n!\n\
! Policy: pad\nroute-map pad permit 10\n set as-path prepend 65001 65001\n set metric 7\n!\n\
end\n";
    assert_eq!(build_router_config(&r, &t), expected);
}

#[test]
fn gns3_layout_numbers_ports_and_wires_links() {
    let t = create_sample_topology();
    let layout = gns3_layout(&t);
    assert_eq!(layout.node_ports.len(), 5);
    let r1 = &layout.node_ports[0];
    let ids: Vec<&str> = r1.iter().map(|p| p.interface_id.as_str()).collect();
    assert_eq!(ids, vec!["rtr-r1-eth0", "rtr-r1-eth1", "rtr-r1-eth2", "rtr-r1-lo0"]);
    assert_eq!(r1[2].port_number, 2);
    assert_eq!(r1[2].name, "Ethernet2");
    assert_eq!(r1[2].short_name, "e2");
    assert_eq!(r1[2].description, "rtr-r1-eth2 - 172.16.0.1/30");
    let ends: Vec<(usize, usize, usize, usize)> =
        layout.links.iter().map(|l| (l.node_a, l.port_a, l.node_b, l.port_b)).collect();
    assert_eq!(
        ends,
        vec![(0, 0, 1, 0), (0, 1, 2, 0), (1, 1, 2, 1), (3, 1, 4, 0), (0, 2, 3, 0)]
    );
    for (l, (_, link)) in layout.links.iter().zip(t.links.iter()) {
        assert_eq!(layout.node_ports[l.node_a][l.port_a].interface_id, link.interface_a_id);
        assert_eq!(layout.node_ports[l.node_b][l.port_b].interface_id, link.interface_b_id);
    }
}

#[test]
fn gns3_layout_skips_links_to_unknown_interfaces() {
    let mut t = create_sample_topology();
    t.links.push((
        "dangling".to_string(),
        netsim::models::Link {
            id: "dangling".to_string(),
            interface_a_id: "rtr-r5-lo0".to_string(),
            interface_b_id: "rtr-r9-eth0".to_string(),
            bandwidth: 1000,
            current_load: 0,
            is_up: true,
        },
    ));
    let layout = gns3_layout(&t);
    assert_eq!(layout.node_ports.len(), 5);
    assert_eq!(layout.links.len(), 5);
}

#[test]
fn config_writable_check_refuses_zero_prefix_in_area() {
    let t = create_sample_topology();
    let r1 = t.get_router("rtr-r1").unwrap();
    assert!(config_writable_check(r1, &t));
    let mut r = create_router("X", "standalone", 0x0909_0909);
    add_interface(&mut r, "eth0", Ipv4Net { addr: 0x0a00_0001, prefix: 0 }, 1000, 1);
    assert!(!config_writable_check(&r, &t));
}
