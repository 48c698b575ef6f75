//! IP parsing and CIDR containment, cross-checked against a reference
//! implementation, and the whitelist check built on them.

use std::str::FromStr;
use cluvio_agent::address::{Address, CheckedAddr, Network, is_allowed, parse_network};
use cluvio_agent::ip::{Ip, IpNet, SockAddr, parse_ipv4, parse_ipv4_net, parse_ipv6, parse_ipv6_net};

#[test]
fn parse_ipv4_basics() {
    assert_eq!(parse_ipv4("0.0.0.0"), Some(0));
    assert_eq!(parse_ipv4("10.1.2.3"), Some(0x0A010203));
    assert_eq!(parse_ipv4("255.255.255.255"), Some(0xFFFFFFFF));
    assert_eq!(parse_ipv4("8.8.8.8"), Some(0x08080808));
    for bad in ["", "1.2.3", "1.2.3.4.5", "256.0.0.1", "01.2.3.4", "1..2.3", "a.b.c.d", "1.2.3.4 "]
    {
        assert_eq!(parse_ipv4(bad), None);
    }
}

#[test]
fn parse_net_matches_reference() {
    for text in ["10.0.0.0/8", "0.0.0.0/0", "192.168.1.0/24", "1.2.3.4/32"] {
        let ours = parse_ipv4_net(text).expect("valid network");
        let theirs = ipnet::Ipv4Net::from_str(text).expect("valid network");
        assert_eq!(ours.0, u32::from(theirs.addr()));
        assert_eq!(ours.1, theirs.prefix_len());
    }
    for bad in ["10.0.0.0", "10.0.0.0/33", "10.0.0.0/", "/8", "10.0.0.0/08"] {
        assert!(parse_ipv4_net(bad).is_none());
    }
}

#[test]
fn containment_matches_reference() {
    let cases = [
        ("10.0.0.0/8", "10.1.2.3", true),
        ("10.0.0.0/8", "11.1.2.3", false),
        ("192.168.1.0/24", "192.168.1.200", true),
        ("192.168.1.0/24", "192.168.2.1", false),
        ("0.0.0.0/0", "8.8.8.8", true),
        ("1.2.3.4/32", "1.2.3.4", true),
        ("1.2.3.4/32", "1.2.3.5", false),
    ];
    for (net_text, ip_text, expect) in cases {
        let (addr, prefix) = parse_ipv4_net(net_text).unwrap();
        let net = IpNet::V4 { addr, prefix };
        let ip = Ip::V4(parse_ipv4(ip_text).unwrap());
        assert_eq!(net.contains(&ip), expect);
    }
}

#[test]
fn parse_ipv6_forms() {
    assert_eq!(parse_ipv6("::"), Some(0));
    assert_eq!(parse_ipv6("::1"), Some(1));
    assert_eq!(parse_ipv6("1::"), Some(1u128 << 112));
    assert_eq!(
        parse_ipv6("1:2:3:4:5:6:7:8"),
        Some(
            (1u128 << 112) | (2u128 << 96) | (3u128 << 80) | (4u128 << 64) | (5u128 << 48)
                | (6u128 << 32) | (7u128 << 16) | 8,
        ),
    );
    assert_eq!(parse_ipv6("2001:db8::ff00:42:8329"),
        Some((0x2001u128 << 112) | (0x0db8u128 << 96) | (0xff00u128 << 32) | (0x42u128 << 16) | 0x8329));
    assert_eq!(parse_ipv6("fd00::"), Some(0xfd00u128 << 112));
    assert_eq!(parse_ipv6("ABCD::ef01"), Some((0xabcdu128 << 112) | 0xef01));
    for bad in ["", ":", ":::", "1", "1:2", "1:2:3:4:5:6:7", "1:2:3:4:5:6:7:8:9", "12345::",
        "g::", "1::2::3", ":1::2", "1:2:3:4:5:6:7:8::", "::1:2:3:4:5:6:7:8"]
    {
        assert_eq!(parse_ipv6(bad), None, "{:?} must be refused", bad);
    }
}

#[test]
fn parse_ipv6_nets() {
    assert_eq!(parse_ipv6_net("::/0"), Some((0, 0)));
    assert_eq!(parse_ipv6_net("fd00::/8"), Some((0xfd00u128 << 112, 8)));
    assert!(parse_ipv6_net("fd00::/129").is_none());
    assert!(parse_ipv6_net("fd00::").is_none());
    let list = vec![parse_network("fd00::/8").unwrap()];
    let inside = Address::Addr(SockAddr {
        ip: Ip::V6(parse_ipv6("fd12::1").unwrap()),
        port: 22,
    });
    let outside = Address::Addr(SockAddr {
        ip: Ip::V6(parse_ipv6("fe80::1").unwrap()),
        port: 22,
    });
    assert!(is_allowed(&inside, &list));
    assert!(!is_allowed(&outside, &list));
}

#[test]
fn whitelist_check() {
    let list = vec![
        parse_network("10.0.0.0/8").unwrap(),
        parse_network("db.example.com").unwrap(),
        parse_network("*.cluvio.com").unwrap(),
    ];
    let inside = Address::Addr(SockAddr { ip: Ip::V4(parse_ipv4("10.9.9.9").unwrap()), port: 22 });
    let outside = Address::Addr(SockAddr { ip: Ip::V4(parse_ipv4("8.8.8.8").unwrap()), port: 53 });
    assert!(is_allowed(&inside, &list));
    assert!(!is_allowed(&outside, &list));
    assert!(CheckedAddr::check(inside, &list).is_ok());
    assert!(CheckedAddr::check(outside, &list).is_err());
    let named = Address::Name("DB.example.COM".to_string(), 5432);
    assert!(CheckedAddr::check(named, &list).is_ok());
    let pattern_hit = Address::Name("api.cluvio.com".to_string(), 443);
    assert!(CheckedAddr::check(pattern_hit, &list).is_ok());
    let pattern_miss = Address::Name("api-cluvio.com".to_string(), 443);
    assert!(CheckedAddr::check(pattern_miss, &list).is_err());
}

#[test]
fn network_entry_kinds() {
    assert!(matches!(parse_network("10.0.0.0/8"), Some(Network::Net(_))));
    assert!(matches!(parse_network("db.example.com"), Some(Network::Dns(_))));
    assert!(matches!(parse_network("*.cluvio.com"), Some(Network::Pattern(_))));
    assert!(parse_network("not a network !").is_none());
    assert!(parse_network("8.8.8.8").is_none());
}

#[test]
fn read_owned_prefers_numeric() {
    let a = Address::read_owned("10.1.2.3".to_string(), 22);
    assert!(matches!(a, Address::Addr(_)));
    let b = Address::read_owned("db.example.com".to_string(), 5432);
    assert!(matches!(b, Address::Name(_, 5432)));
}
