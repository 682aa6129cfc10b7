//! Addresses that are no public destination.
use ppe_core::http_addr::{
    is_private_address, private_address_reason, v4_reason, v6_reason, IpAddr, Ipv4Addr, Ipv6Addr,
};

fn v4(s: &str) -> Ipv4Addr {
    let o: Vec<u8> = s.split('.').map(|p| p.parse().unwrap()).collect();
    assert_eq!(o.len(), 4);
    Ipv4Addr { a: o[0], b: o[1], c: o[2], d: o[3] }
}

fn groups(s: &str) -> Vec<u16> {
    let mut out = Vec::new();
    for p in s.split(':').filter(|p| !p.is_empty()) {
        if p.contains('.') {
            let q = v4(p);
            out.push(u16::from(q.a) * 256 + u16::from(q.b));
            out.push(u16::from(q.c) * 256 + u16::from(q.d));
        } else {
            out.push(u16::from_str_radix(p, 16).unwrap());
        }
    }
    out
}

fn ip(s: &str) -> IpAddr {
    if !s.contains(':') {
        return IpAddr::V4(v4(s));
    }
    let (head, tail) = match s.split_once("::") {
        Some((h, t)) => (groups(h), groups(t)),
        None => (groups(s), Vec::new()),
    };
    let mut segments = [0u16; 8];
    for (i, g) in head.iter().enumerate() {
        segments[i] = *g;
    }
    for (i, g) in tail.iter().enumerate() {
        segments[8 - tail.len() + i] = *g;
    }
    IpAddr::V6(Ipv6Addr { segments })
}

#[test]
fn the_metadata_endpoint_is_refused() {
    let reason = private_address_reason(&ip("169.254.169.254")).expect("must be refused");
    assert!(reason.contains("metadata"), "{reason}");
}

#[test]
fn the_usual_private_ranges_are_refused() {
    for addr in [
        "127.0.0.1",
        "10.0.0.1",
        "172.16.5.1",
        "172.31.255.255",
        "192.168.1.1",
        "0.0.0.0",
        "255.255.255.255",
        "224.0.0.1",
        "240.0.0.1",
    ] {
        assert!(
            is_private_address(&ip(addr)),
            "{addr} must not be a public destination"
        );
    }
}

#[test]
fn carrier_grade_nat_is_refused() {
    assert!(is_private_address(&ip("100.64.0.1")));
    assert!(is_private_address(&ip("100.127.255.255")));
    assert!(!is_private_address(&ip("100.63.255.255")));
    assert!(!is_private_address(&ip("100.128.0.0")));
}

#[test]
fn an_ipv4_address_wearing_an_ipv6_hat_is_still_refused() {
    for addr in [
        "::ffff:169.254.169.254", // IPv4-mapped
        "::ffff:127.0.0.1",
        "::ffff:10.0.0.1",
        "64:ff9b::169.254.169.254", // NAT64 well-known prefix
        "::169.254.169.254",        // deprecated IPv4-compatible
    ] {
        assert!(
            is_private_address(&ip(addr)),
            "{addr} reaches the same host as its embedded IPv4 address"
        );
    }
}

#[test]
fn ipv6_private_ranges_are_refused() {
    for addr in ["::1", "::", "fc00::1", "fd00::1", "fe80::1", "ff02::1"] {
        assert!(is_private_address(&ip(addr)), "{addr} must be refused");
    }
}

#[test]
fn ordinary_public_addresses_pass() {
    for addr in [
        "1.1.1.1",
        "8.8.8.8",
        "93.184.216.34",
        "2606:4700:4700::1111",
        "2001:4860:4860::8888",
    ] {
        assert!(
            !is_private_address(&ip(addr)),
            "{addr} is a legitimate public destination"
        );
    }
}

#[test]
fn a_mapped_public_address_still_passes() {
    assert!(!is_private_address(&ip("::ffff:8.8.8.8")));
}

#[test]
fn the_reason_names_the_rule_that_was_broken() {
    assert!(
        private_address_reason(&ip("10.1.2.3"))
            .expect("refused")
            .contains("private"),
    );
    assert!(
        private_address_reason(&ip("127.0.0.1"))
            .expect("refused")
            .contains("loopback"),
    );
    assert_eq!(private_address_reason(&ip("8.8.8.8")), None);
}

#[test]
fn the_lesser_known_ranges_are_refused_with_their_names() {
    for (addr, word) in [
        ("192.0.0.8", "protocol assignment"),
        ("198.18.0.1", "benchmarking"),
        ("192.0.2.1", "documentation"),
        ("203.0.113.9", "documentation"),
        ("240.0.0.1", "reserved"),
        ("0.1.2.3", "unspecified"),
    ] {
        let reason = private_address_reason(&ip(addr)).expect("must be refused");
        assert!(reason.contains(word), "{addr}: {reason}");
    }
}

#[test]
fn an_ipv6_form_changes_no_verdict() {
    for addr in ["10.1.2.3", "8.8.8.8", "127.0.0.1", "0.0.0.5", "169.254.169.254", "224.0.0.1"] {
        let bare = private_address_reason(&ip(addr));
        for prefix in ["::ffff:", "64:ff9b::", "::"] {
            assert_eq!(private_address_reason(&ip(&format!("{prefix}{addr}"))), bare, "{prefix}{addr}");
        }
    }
    for addr in ["0.0.0.0", "0.0.0.1"] {
        assert!(is_private_address(&ip(addr)));
        assert!(is_private_address(&ip(&format!("::{addr}"))));
    }
}

#[test]
fn the_reasons_of_both_forms_agree() {
    for addr in ["10.1.2.3", "8.8.8.8", "169.254.169.254"] {
        let bare = v4_reason(&v4(addr));
        for prefix in ["::ffff:", "64:ff9b::", "::"] {
            let IpAddr::V6(v6) = ip(&format!("{prefix}{addr}")) else {
                panic!("an IPv6 form");
            };
            assert_eq!(v6_reason(&v6), bare, "{prefix}{addr}");
        }
    }
    assert_eq!(v4_reason(&v4("8.8.8.8")), None);
}
