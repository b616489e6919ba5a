use netsim::bgp::{advance_bgp_fsm, is_preferred, select_best_path};
use netsim::events::BgpFsmEvent;
use netsim::models::{BgpAttributes, BgpOrigin, BgpRoute, BgpSessionState};

fn ip(a: u32, b: u32, c: u32, d: u32) -> u32 {
    (a << 24) | (b << 16) | (c << 8) | d
}

fn test_route(
    local_pref: u32,
    as_path: Vec<u32>,
    origin: BgpOrigin,
    med: u32,
    weight: u32,
    received_from: Option<u32>,
) -> BgpRoute {
    BgpRoute {
        prefix: "203.0.113.0/24".to_string(),
        attributes: BgpAttributes {
            as_path,
            local_pref,
            med,
            next_hop: ip(192, 0, 2, 1),
            origin,
            communities: Vec::new(),
            weight,
        },
        received_from,
        is_best: false,
    }
}

#[test]
fn test_select_best_path_empty_and_single() {
    assert_eq!(select_best_path(&[]), None);

    let only = test_route(100, vec![65001], BgpOrigin::Igp, 0, 0, Some(ip(198, 51, 100, 1)));
    assert_eq!(select_best_path(&[only]), Some(0));
}

#[test]
fn test_rfc_local_pref_preferred() {
    let lower = test_route(100, vec![65001, 65010], BgpOrigin::Igp, 10, 0, Some(ip(198, 51, 100, 2)));
    let higher = test_route(200, vec![65001, 65010], BgpOrigin::Igp, 10, 0, Some(ip(198, 51, 100, 3)));

    assert_eq!(select_best_path(&[lower, higher]), Some(1));
}

#[test]
fn test_rfc_locally_originated_preferred() {
    let learned = test_route(100, vec![65001, 65010], BgpOrigin::Igp, 10, 0, Some(ip(198, 51, 100, 2)));
    let local = test_route(100, vec![65001, 65010], BgpOrigin::Igp, 10, 0, None);

    assert_eq!(select_best_path(&[learned, local]), Some(1));
}

#[test]
fn test_rfc_shorter_as_path_preferred() {
    let longer = test_route(
        100,
        vec![65001, 65100, 65200, 65300],
        BgpOrigin::Igp,
        10,
        0,
        Some(ip(198, 51, 100, 2)),
    );
    let shorter = test_route(100, vec![65001, 65100], BgpOrigin::Igp, 10, 0, Some(ip(198, 51, 100, 3)));

    assert_eq!(select_best_path(&[longer, shorter]), Some(1));
}

#[test]
fn test_rfc_origin_order_igp_over_egp_over_incomplete() {
    let incomplete =
        test_route(100, vec![65001, 65100], BgpOrigin::Incomplete, 10, 0, Some(ip(198, 51, 100, 4)));
    let egp = test_route(100, vec![65001, 65100], BgpOrigin::Egp, 10, 0, Some(ip(198, 51, 100, 3)));
    let igp = test_route(100, vec![65001, 65100], BgpOrigin::Igp, 10, 0, Some(ip(198, 51, 100, 2)));

    assert_eq!(select_best_path(&[incomplete, egp, igp]), Some(2));
}

#[test]
fn test_rfc_med_compared_only_for_same_neighbor_as() {
    let same_neighbor_as_higher_med =
        test_route(100, vec![65001, 65100], BgpOrigin::Igp, 200, 0, Some(ip(198, 51, 100, 2)));
    let same_neighbor_as_lower_med =
        test_route(100, vec![65001, 65200], BgpOrigin::Igp, 10, 0, Some(ip(198, 51, 100, 3)));

    assert_eq!(
        select_best_path(&[
            same_neighbor_as_higher_med.clone(),
            same_neighbor_as_lower_med.clone()
        ]),
        Some(1)
    );

    let different_neighbor_as_higher_med =
        test_route(100, vec![65002, 65100], BgpOrigin::Igp, 200, 0, Some(ip(198, 51, 100, 2)));
    let different_neighbor_as_lower_med =
        test_route(100, vec![65003, 65200], BgpOrigin::Igp, 10, 0, Some(ip(198, 51, 100, 3)));

    // Across different neighbouring ASes MED is not compared; the lower
    // peer router id decides.
    assert_eq!(
        select_best_path(&[different_neighbor_as_higher_med, different_neighbor_as_lower_med]),
        Some(0)
    );
}

#[test]
fn test_rfc_router_id_tiebreaker_prefers_lower_id() {
    let higher_router_id =
        test_route(100, vec![65001, 65100], BgpOrigin::Igp, 10, 0, Some(ip(198, 51, 100, 200)));
    let lower_router_id =
        test_route(100, vec![65001, 65100], BgpOrigin::Igp, 10, 0, Some(ip(198, 51, 100, 10)));

    assert_eq!(select_best_path(&[higher_router_id, lower_router_id]), Some(1));
}

#[test]
fn weight_outranks_local_pref() {
    let heavy = test_route(100, vec![65001], BgpOrigin::Igp, 0, 500, Some(ip(10, 0, 0, 2)));
    let preferred = test_route(300, vec![65001], BgpOrigin::Igp, 0, 0, Some(ip(10, 0, 0, 1)));
    assert_eq!(select_best_path(&[preferred, heavy]), Some(1));
}

#[test]
fn equal_routes_keep_the_first() {
    let a = test_route(100, vec![65001], BgpOrigin::Igp, 0, 0, Some(ip(10, 0, 0, 1)));
    let b = a.clone();
    assert_eq!(select_best_path(&[a, b]), Some(0));
}

#[test]
fn fsm_walks_to_established_and_stays() {
    let mut s = BgpSessionState::Idle;
    let expected = [
        BgpSessionState::Connect,
        BgpSessionState::OpenSent,
        BgpSessionState::OpenConfirm,
        BgpSessionState::Established,
        BgpSessionState::Established,
    ];
    for want in expected.iter() {
        s = advance_bgp_fsm(&s, &BgpFsmEvent::Start);
        assert_eq!(s, *want);
    }
}

#[test]
fn fsm_stop_and_hold_timer_expiry_return_to_idle() {
    let all = [
        BgpSessionState::Idle,
        BgpSessionState::Connect,
        BgpSessionState::OpenSent,
        BgpSessionState::OpenConfirm,
        BgpSessionState::Established,
    ];
    for s in all.iter() {
        assert_eq!(advance_bgp_fsm(s, &BgpFsmEvent::Stop), BgpSessionState::Idle);
        assert_eq!(advance_bgp_fsm(s, &BgpFsmEvent::HoldTimerExpired), BgpSessionState::Idle);
    }
    assert_eq!(advance_bgp_fsm(&BgpSessionState::Connect, &BgpFsmEvent::TcpEstablished), BgpSessionState::OpenSent);
}

#[test]
fn preference_is_irreflexive_and_asymmetric() {
    let a = test_route(100, vec![65001], BgpOrigin::Igp, 0, 0, Some(ip(198, 51, 100, 1)));
    let b = test_route(150, vec![65001, 65002], BgpOrigin::Egp, 5, 0, Some(ip(198, 51, 100, 2)));
    let c = test_route(100, vec![65001], BgpOrigin::Igp, 0, 0, Some(ip(198, 51, 100, 9)));
    for (x, y) in [(&a, &b), (&a, &c), (&b, &c)] {
        assert!(!is_preferred(x, x));
        assert!(!(is_preferred(x, y) && is_preferred(y, x)));
    }
    assert!(is_preferred(&b, &a));
    assert!(is_preferred(&a, &c));
}
