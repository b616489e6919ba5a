use netsim::ipv4::{ipv4_string, net_string, parse_ipv4_addr, Ipv4Net};

#[test]
fn dotted_addresses_are_read() {
    assert_eq!(parse_ipv4_addr("1.2.3.4"), Some(0x0102_0304));
    assert_eq!(parse_ipv4_addr("0.0.0.0"), Some(0));
    assert_eq!(parse_ipv4_addr("255.255.255.255"), Some(0xffff_ffff));
    assert_eq!(parse_ipv4_addr("198.51.100.10"), Some(0xc633_640a));
}

#[test]
fn malformed_addresses_are_refused() {
    for bad in [
        "", "1.2.3", "1.2.3.4.5", "256.0.0.1", "01.2.3.4", "1.2.3.4/32", "+1.2.3.4", "1..2.3",
        "1.2.3.", "a.b.c.d", "1.2.3.1000", " 1.2.3.4",
    ] {
        assert_eq!(parse_ipv4_addr(bad), None, "{}", bad);
    }
}

#[test]
fn address_text_round_trips() {
    for a in [0u32, 1, 0x0a00_0c01, 0x7f00_0001, 0xc0a8_0101, 0xffff_ffff, 0x0100_00ff] {
        assert_eq!(parse_ipv4_addr(&ipv4_string(a)), Some(a));
    }
    assert_eq!(ipv4_string(0x0a00_0c01), "10.0.12.1");
}

#[test]
fn network_text_keeps_host_bits() {
    let n = Ipv4Net::new(0x0a00_0c01, 30).unwrap();
    assert_eq!(net_string(&n), "10.0.12.1/30");
    assert_eq!(n.network(), 0x0a00_0c00);
    assert!(n.contains(0x0a00_0c02));
    assert!(!n.contains(0x0a00_0c04));
    assert_eq!(Ipv4Net::new(0, 33), None);
}
