use netsim::models::{PolicyAction, PolicySetAction};
use netsim::policies::parse_policy;

#[test]
fn test_parse_simple_policy() {
    let input = r#"
policy "test-policy" {
  term 1 {
    match community "65001:100"
    set local-pref 150
    accept
  }
  default reject
}
"#;
    let policy = parse_policy(input).unwrap();
    assert_eq!(policy.name, "test-policy");
    assert_eq!(policy.terms.len(), 1);
    assert_eq!(policy.default_action, PolicyAction::Reject);
    assert_eq!(
        policy.terms[0].match_conditions.community,
        Some("65001:100".to_string())
    );
}

#[test]
fn test_parse_juniper_policy_with_wrapper() {
    let input = r#"
policy-options {
  policy-statement prefer-customer {
    term set-pref {
      from {
        community 65001:100;
        as-path "^65002";
      }
      then {
        local-preference 150;
        accept;
      }
    }
    then reject;
  }
}
"#;
    let policy = parse_policy(input).unwrap();
    assert_eq!(policy.name, "prefer-customer");
    assert_eq!(policy.terms.len(), 1);
    assert_eq!(policy.terms[0].name, "set-pref");
    assert_eq!(policy.default_action, PolicyAction::Reject);
    assert_eq!(
        policy.terms[0].match_conditions.community,
        Some("65001:100".to_string())
    );
    assert_eq!(
        policy.terms[0].match_conditions.as_path_regex,
        Some("^65002".to_string())
    );
    assert!(matches!(
        policy.terms[0].actions[0],
        PolicySetAction::SetLocalPref(150)
    ));
}

#[test]
fn test_parse_juniper_policy_without_wrapper() {
    let input = r#"
policy-statement block-bogons {
  term deny-rfc1918 {
    from {
      route-filter 10.0.0.0/8 exact;
      route-filter 172.16.0.0/12 exact;
    }
    then reject;
  }
  then accept;
}
"#;
    let policy = parse_policy(input).unwrap();
    assert_eq!(policy.name, "block-bogons");
    assert_eq!(policy.terms.len(), 1);
    assert_eq!(policy.terms[0].terminal_action, PolicyAction::Reject);
    assert_eq!(policy.default_action, PolicyAction::Accept);
    let prefixes = policy.terms[0]
        .match_conditions
        .prefix_list
        .as_ref()
        .unwrap();
    assert_eq!(prefixes.len(), 2);
    assert_eq!(prefixes[0], "10.0.0.0/8");
    assert_eq!(prefixes[1], "172.16.0.0/12");
}

#[test]
fn test_parse_juniper_community_and_metric() {
    let input = r#"
policy-statement set-med {
  term adjust {
    from {
      community no-export;
    }
    then {
      metric 100;
      community add 65001:200;
      community delete 65001:100;
      accept;
    }
  }
  then reject;
}
"#;
    let policy = parse_policy(input).unwrap();
    assert_eq!(policy.name, "set-med");
    let term = &policy.terms[0];
    assert_eq!(
        term.match_conditions.community,
        Some("no-export".to_string())
    );
    assert_eq!(term.actions.len(), 3);
    assert!(matches!(term.actions[0], PolicySetAction::SetMed(100)));
    assert!(matches!(
        &term.actions[1],
        PolicySetAction::AddCommunity(c) if c == "65001:200"
    ));
    assert!(matches!(
        &term.actions[2],
        PolicySetAction::RemoveCommunity(c) if c == "65001:100"
    ));
}

#[test]
fn test_parse_juniper_as_path_prepend() {
    let input = r#"
policy-statement prepend-path {
  term prepend {
    then {
      as-path-prepend "65001 65001 65001";
      accept;
    }
  }
  then accept;
}
"#;
    let policy = parse_policy(input).unwrap();
    let term = &policy.terms[0];
    assert_eq!(term.actions.len(), 1);
    match &term.actions[0] {
        PolicySetAction::PrependAsPath { asn, count } => {
            assert_eq!(*asn, 65001);
            assert_eq!(*count, 3);
        }
        _ => panic!("Expected PrependAsPath"),
    }
}

fn reindented(s: &str, pad: &str) -> String {
    s.lines().map(|l| format!("{}{}", pad, l.trim())).collect::<Vec<_>>().join("\n")
}

fn flattened(s: &str) -> String {
    s.lines().map(|l| l.trim()).collect::<Vec<_>>().join("\n")
}

#[test]
fn indentation_does_not_change_the_parse() {
    let simple = "\n  policy \"p\" {\n\tterm 1 {\n      match prefix \"10.0.0.0/8\"\n   set med 7\n accept\n }\n default reject\n}\n";
    let juniper = "policy-statement q {\n    term t {\n        then {\n            metric 5;\n            accept;\n        }\n    }\n}\n";
    let broken = "  policy-statement q {\n   term t {\n  then {\n metric abc;\n }\n }\n}";
    for s in [simple, juniper, broken] {
        let base = format!("{:?}", parse_policy(s));
        assert_eq!(format!("{:?}", parse_policy(&flattened(s))), base);
        assert_eq!(format!("{:?}", parse_policy(&reindented(s, "    "))), base);
        assert_eq!(format!("{:?}", parse_policy(&reindented(s, " \t"))), base);
    }
    assert!(parse_policy(simple).is_ok());
    assert!(parse_policy(juniper).is_ok());
    assert_eq!(parse_policy(broken).unwrap_err(), "Invalid metric value");
}
