use netsim::requests::create_generator;
use netsim::simulation::{clamp_tick_rate, SimulationEngine};
use netsim::traffic::{compute_flows, update_link_utilization};

fn link_load(engine: &SimulationEngine, id: &str) -> u128 {
    engine.topology.links.iter().find(|(k, _)| k == id).unwrap().1.current_load
}

fn run(engine: &mut SimulationEngine, ticks: u64) {
    for _ in 0..ticks {
        engine.step();
    }
}

#[test]
fn new_engine_is_stopped_and_empty() {
    let e = SimulationEngine::new();
    assert_eq!(e.state.tick, 0);
    assert!(!e.state.running);
    assert_eq!(e.state.tick_rate_ms, 200);
    assert!(e.topology.links.is_empty());
    assert!(e.event_queue.is_empty());
}

#[test]
fn tick_rate_is_clamped() {
    assert_eq!(clamp_tick_rate(1), 10);
    assert_eq!(clamp_tick_rate(10), 10);
    assert_eq!(clamp_tick_rate(250), 250);
    assert_eq!(clamp_tick_rate(5000), 5000);
    assert_eq!(clamp_tick_rate(9000), 5000);
    let mut e = SimulationEngine::new();
    assert_eq!(e.set_tick_rate(3), 10);
    assert_eq!(e.state.tick_rate_ms, 10);
}

#[test]
fn start_stop_and_reset() {
    let mut e = SimulationEngine::new();
    e.load_sample();
    e.start();
    assert!(e.state.running);
    run(&mut e, 3);
    assert_eq!(e.state.tick, 3);
    e.stop();
    assert!(!e.state.running);
    e.reset();
    assert_eq!(e.state.tick, 0);
    assert!(e.topology.autonomous_systems.is_empty());
}

#[test]
fn step_advances_the_clock_by_one() {
    let mut e = SimulationEngine::new();
    e.load_sample();
    let u = e.step();
    assert_eq!(u.tick, 1);
    assert_eq!(e.state.tick, 1);
    assert!(u.traffic_flows.is_empty());
    assert!(u.ospf_converged.is_empty());
}

#[test]
fn converged_sample_carries_traffic_to_a_neighbouring_subnet() {
    let mut e = SimulationEngine::new();
    e.load_sample();
    let gen = create_generator(&mut e.topology, "rtr-r1", "10.0.13.0/30", 1_000_000, true).unwrap();
    run(&mut e, 30);
    let u = e.step();
    assert_eq!(u.traffic_flows.len(), 1);
    let f = &u.traffic_flows[0];
    assert_eq!(f.generator_id, gen);
    assert!(!f.is_blackholed);
    assert_eq!(f.path, vec!["link-rtr-r1-eth1-rtr-r3-eth0".to_string()]);
    assert_eq!(link_load(&e, "link-rtr-r1-eth1-rtr-r3-eth0"), 1_000_000);
    assert_eq!(link_load(&e, "link-rtr-r1-eth0-rtr-r2-eth0"), 0);
}

#[test]
fn ospf_routes_via_a_router_id_have_no_outgoing_interface() {
    // OSPF routes name the next router's id as next hop; no interface
    // contains that address, so the FIB entry has no outgoing interface
    // and traffic that follows it is dropped at the first hop.
    let mut e = SimulationEngine::new();
    e.load_sample();
    create_generator(&mut e.topology, "rtr-r1", "10.1.3.1/32", 1_000, true).unwrap();
    run(&mut e, 30);
    let r1 = e.topology.get_router("rtr-r1").unwrap();
    let fib = &r1.fib.iter().find(|(k, _)| k == "10.1.3.1/32").unwrap().1;
    assert_eq!(fib.next_hop_ip, (3 << 24) | (3 << 16) | (3 << 8) | 3);
    assert_eq!(fib.out_interface_id, "");
    let flows = compute_flows(&e.topology);
    assert!(flows[0].is_blackholed);
    assert!(flows[0].path.is_empty());
}

#[test]
fn unroutable_traffic_is_blackholed_and_loads_nothing() {
    let mut e = SimulationEngine::new();
    e.load_sample();
    create_generator(&mut e.topology, "rtr-r2", "192.0.2.0/24", 5_000, true).unwrap();
    run(&mut e, 20);
    let flows = compute_flows(&e.topology);
    assert_eq!(flows.len(), 1);
    assert!(flows[0].is_blackholed);
    assert!(flows[0].path.is_empty());
    update_link_utilization(&mut e.topology, &flows);
    assert!(e.topology.links.iter().all(|(_, l)| l.current_load == 0));
}

#[test]
fn inactive_generators_make_no_flow() {
    let mut e = SimulationEngine::new();
    e.load_sample();
    create_generator(&mut e.topology, "rtr-r1", "10.1.3.1/32", 1_000, false).unwrap();
    run(&mut e, 5);
    assert!(compute_flows(&e.topology).is_empty());
}

#[test]
fn scheduled_link_failure_applies_on_next_tick() {
    let mut e = SimulationEngine::new();
    e.load_sample();
    run(&mut e, 2);
    e.schedule_link_state("link-rtr-r1-eth1-rtr-r3-eth0", false);
    assert_eq!(e.event_queue.len() >= 1, true);
    e.step();
    let l = &e.topology.links.iter().find(|(k, _)| k == "link-rtr-r1-eth1-rtr-r3-eth0").unwrap().1;
    assert!(!l.is_up);
}

#[test]
fn traffic_over_a_failed_link_is_dropped() {
    let mut e = SimulationEngine::new();
    e.load_sample();
    create_generator(&mut e.topology, "rtr-r1", "10.0.13.0/30", 700, true).unwrap();
    run(&mut e, 30);
    assert_eq!(link_load(&e, "link-rtr-r1-eth1-rtr-r3-eth0"), 700);
    e.schedule_link_state("link-rtr-r1-eth1-rtr-r3-eth0", false);
    run(&mut e, 10);
    let u = e.step();
    let f = &u.traffic_flows[0];
    // Both ends of the link went down with it, so R1 has no usable
    // interface towards the subnet any more.
    assert!(f.is_blackholed);
    assert!(f.path.is_empty());
    let r1 = e.topology.get_router("rtr-r1").unwrap();
    assert!(!r1.interfaces.iter().find(|(k, _)| k == "rtr-r1-eth1").unwrap().1.is_up);
    assert!(e.topology.links.iter().all(|(_, l)| l.current_load == 0));
}

#[test]
fn every_rib_prefix_has_a_matching_fib_entry() {
    let mut e = SimulationEngine::new();
    e.load_sample();
    run(&mut e, 12);
    for r in e.topology.all_routers() {
        assert_eq!(r.fib.len(), r.rib.len());
        for (prefix, route) in r.rib.iter() {
            let f = &r.fib.iter().find(|(k, _)| k == prefix).unwrap().1;
            assert_eq!(&f.prefix, prefix);
            assert_eq!(f.next_hop_ip, route.next_hop);
        }
    }
}

#[test]
fn floods_from_a_deleted_router_are_not_ready() {
    let mut e = SimulationEngine::new();
    e.load_sample();
    e.step();
    // The first OSPF tick scheduled floods from every router.
    assert!(!e.event_queue.is_empty());
    let due = e.state.tick + 5;
    assert!(e.floods_ready(due));
    netsim::requests::delete_router(&mut e.topology, "rtr-r3");
    assert!(!e.floods_ready(due));
    assert!(e.floods_ready(e.state.tick));
}
