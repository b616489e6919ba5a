use netsim::models::{BgpAttributes, BgpOrigin, BgpRoute, PolicyAction};
use netsim::policies::{apply_policy, parse_policy};

fn route(prefix: &str, as_path: Vec<u32>, communities: Vec<&str>) -> BgpRoute {
    BgpRoute {
        prefix: prefix.to_string(),
        attributes: BgpAttributes {
            as_path,
            local_pref: 100,
            med: 0,
            next_hop: 0x0a00_0001,
            origin: BgpOrigin::Igp,
            communities: communities.into_iter().map(|c| c.to_string()).collect(),
            weight: 0,
        },
        received_from: Some(0x0a00_0001),
        is_best: false,
    }
}

#[test]
fn unmatched_route_gets_default_and_is_unchanged() {
    let p = parse_policy(
        "policy \"p\" {\n  term 1 {\n    match community \"65001:100\"\n    set local-pref 300\n    accept\n  }\n  default reject\n}\n",
    )
    .unwrap();
    let mut r = route("10.0.0.0/8", vec![65002], vec!["65001:999"]);
    assert_eq!(apply_policy(&p, &mut r), PolicyAction::Reject);
    assert_eq!(r.attributes.local_pref, 100);
    assert_eq!(r.attributes.communities, vec!["65001:999".to_string()]);
}

#[test]
fn first_matching_term_decides() {
    let p = parse_policy(
        "policy \"p\" {\n  term a {\n    match prefix \"10.0.0.0/8\"\n    set med 5\n    reject\n  }\n  term b {\n    set med 9\n    accept\n  }\n  default accept\n}\n",
    )
    .unwrap();
    let mut hit = route("10.0.0.0/8", vec![65002], vec![]);
    assert_eq!(apply_policy(&p, &mut hit), PolicyAction::Reject);
    assert_eq!(hit.attributes.med, 5);
    let mut other = route("192.0.2.0/24", vec![65002], vec![]);
    assert_eq!(apply_policy(&p, &mut other), PolicyAction::Accept);
    assert_eq!(other.attributes.med, 9);
}

#[test]
fn term_without_conditions_matches_everything() {
    let p = parse_policy("policy \"all\" {\n  term 1 {\n    set local-pref 42\n    accept\n  }\n  default reject\n}\n")
        .unwrap();
    let mut r = route("198.51.100.0/24", vec![], vec![]);
    assert_eq!(apply_policy(&p, &mut r), PolicyAction::Accept);
    assert_eq!(r.attributes.local_pref, 42);
}

#[test]
fn adding_a_community_twice_keeps_one_copy() {
    let p = parse_policy(
        "policy \"tag\" {\n  term 1 {\n    add-community \"65001:7\"\n    accept\n  }\n  default reject\n}\n",
    )
    .unwrap();
    let mut r = route("10.0.0.0/8", vec![], vec![]);
    apply_policy(&p, &mut r);
    apply_policy(&p, &mut r);
    assert_eq!(r.attributes.communities, vec!["65001:7".to_string()]);
}

#[test]
fn removing_a_community_takes_every_copy() {
    let p = parse_policy(
        "policy \"strip\" {\n  term 1 {\n    remove-community \"65001:7\"\n    accept\n  }\n  default reject\n}\n",
    )
    .unwrap();
    let mut r = route("10.0.0.0/8", vec![], vec!["65001:7", "65001:8", "65001:7"]);
    assert_eq!(apply_policy(&p, &mut r), PolicyAction::Accept);
    assert_eq!(r.attributes.communities, vec!["65001:8".to_string()]);
}

#[test]
fn prepend_and_as_path_match() {
    let p = parse_policy(
        "policy \"pad\" {\n  term 1 {\n    match as-path \"^65002\"\n    prepend-as 65001 2\n    accept\n  }\n  default reject\n}\n",
    )
    .unwrap();
    let mut r = route("10.0.0.0/8", vec![65002, 65010], vec![]);
    assert_eq!(apply_policy(&p, &mut r), PolicyAction::Accept);
    assert_eq!(r.attributes.as_path, vec![65001, 65001, 65002, 65010]);
    let mut miss = route("10.0.0.0/8", vec![65010, 65002], vec![]);
    assert_eq!(apply_policy(&p, &mut miss), PolicyAction::Reject);
}

#[test]
fn policy_errors_name_the_problem() {
    assert!(parse_policy("policy \"x\" {\n  default sideways\n}\n").is_err());
    assert!(parse_policy("policy-statement p {\n  term t {\n    then {\n      local-preference lots;\n    }\n  }\n}\n").is_err());
}
