//! Network addresses, allow-list entries, and the whitelist check.
//!
//! An address is either a numeric socket address or a host name with a
//! port.  An allow-list entry is a CIDR network, an exact DNS name, or a
//! DNS pattern.  A `CheckedAddr` can only be built by `check`, so holding
//! one proves the address was accepted by the list given at that moment.

use vstd::prelude::*;
use crate::dns::{DnsPattern, HostName, eq_nocase, pattern_matches, is_hostname, pattern_parse_spec};
use crate::ip::{Ip, IpNet, SockAddr, net_contains, parse_ipv4, parse_ipv4_net, parse_ipv6, parse_ipv6_net, is_ipv4_text, is_ipv4_net_text, is_ipv6_net_text, parse_ipv6_spec};

verus! {

/// A network address: numeric, or a name to resolve, with a port.
#[derive(Debug, Clone)]
pub enum Address {
    Addr(SockAddr),
    Name(String, u16),
}

/// The mathematical shape of an address.
pub enum AddressSpec {
    Addr(SockAddr),
    Name(Seq<char>, u16),
}

impl View for Address {
    type V = AddressSpec;

    open spec fn view(&self) -> AddressSpec {
        match self {
            Address::Addr(sa) => AddressSpec::Addr(*sa),
            Address::Name(h, p) => AddressSpec::Name(h@, *p),
        }
    }
}

impl Address {
    /// Build an address from a host string and port, reading the host as a
    /// numeric IPv4 or IPv6 address when it is one, and as a name
    /// otherwise.  IPv6 texts embedding a dotted quad are not read as
    /// numeric (see `parse_ipv6`) and become names.
    pub fn read_owned(host: String, port: u16) -> (r: Address)
        ensures
            match r@ {
                AddressSpec::Addr(sa) => sa.port == port && ((sa.ip matches Ip::V4(ip)
                    && is_ipv4_text(host@, ip)) || (sa.ip matches Ip::V6(ip) && (forall|v4: u32|
                    !is_ipv4_text(host@, v4)) && parse_ipv6_spec(host@) == Some(ip))),
                AddressSpec::Name(h, p) => h == host@ && p == port && (forall|ip: u32|
                    !is_ipv4_text(host@, ip)) && parse_ipv6_spec(host@) is None,
            },
    {
        match parse_ipv4(host.as_str()) {
            Some(ip) => {
                return Address::Addr(SockAddr { ip: Ip::V4(ip), port });
            },
            None => {},
        }
        match parse_ipv6(host.as_str()) {
            Some(ip) => Address::Addr(SockAddr { ip: Ip::V6(ip), port }),
            None => Address::Name(host, port),
        }
    }

    /// The port of this address.
    pub fn port(&self) -> (p: u16)
        ensures
            match self@ {
                AddressSpec::Addr(sa) => p == sa.port,
                AddressSpec::Name(_, q) => p == q,
            },
    {
        match self {
            Address::Addr(sa) => sa.port,
            Address::Name(_, p) => *p,
        }
    }
}

/// An allow-list entry.
#[derive(Debug, Clone)]
pub enum Network {
    /// An IP network.
    Net(IpNet),
    /// An exact DNS name.
    Dns(HostName),
    /// A DNS name pattern.
    Pattern(DnsPattern),
}

/// The mathematical shape of an allow-list entry.
pub enum NetworkSpec {
    Net(IpNet),
    Dns(Seq<char>),
    Pattern(Option<Seq<char>>),
}

impl View for Network {
    type V = NetworkSpec;

    open spec fn view(&self) -> NetworkSpec {
        match self {
            Network::Net(n) => NetworkSpec::Net(*n),
            Network::Dns(h) => NetworkSpec::Dns(h@),
            Network::Pattern(p) => NetworkSpec::Pattern(p@),
        }
    }
}

/// Does one allow-list entry admit the address?  Numeric addresses are
/// admitted by containing networks, names by equal DNS names (ignoring
/// ASCII case) or matching patterns.
pub open spec fn entry_allows(n: NetworkSpec, a: AddressSpec) -> bool {
    match (n, a) {
        (NetworkSpec::Net(net), AddressSpec::Addr(sa)) => net_contains(net, sa.ip),
        (NetworkSpec::Dns(h), AddressSpec::Name(d, _)) => eq_nocase(h, d),
        (NetworkSpec::Pattern(p), AddressSpec::Name(d, _)) => pattern_matches(p, d),
        _ => false,
    }
}

/// The views of a list of entries.
pub open spec fn nets_view(v: Seq<Network>) -> Seq<NetworkSpec> {
    v.map_values(|n: Network| n@)
}

/// Is the address admitted by some entry of the list?
pub open spec fn addr_allowed(a: AddressSpec, list: Seq<NetworkSpec>) -> bool {
    exists|i: int| 0 <= i < list.len() && entry_allows(#[trigger] list[i], a)
}

/// Does one entry admit the address?
fn entry_allows_exec(n: &Network, a: &Address) -> (r: bool)
    ensures
        r == entry_allows(n@, a@),
{
    match (n, a) {
        (Network::Net(net), Address::Addr(sa)) => net.contains(&sa.ip),
        (Network::Dns(h), Address::Name(d, _)) => h.eq_ignore_case(d.as_str()),
        (Network::Pattern(p), Address::Name(d, _)) => p.matches(d.as_str()),
        _ => false,
    }
}

/// Is the address admitted by some entry of the list?
pub fn is_allowed(a: &Address, whitelist: &[Network]) -> (r: bool)
    ensures
        r == addr_allowed(a@, nets_view(whitelist@)),
{
    let n = whitelist.len();
    for i in 0..n
        invariant
            n == whitelist@.len(),
            forall|j: int| 0 <= j < i ==> !entry_allows(nets_view(whitelist@)[j], a@),
    {
        let e: &Network = &whitelist[i];
        if entry_allows_exec(e, a) {
            proof {
                assert(entry_allows(nets_view(whitelist@)[i as int], a@));
            }
            return true;
        }
    }
    false
}

/// An address checked against some allow-list.
#[derive(Debug)]
pub struct CheckedAddr {
    addr: Address,
}

impl View for CheckedAddr {
    type V = AddressSpec;

    closed spec fn view(&self) -> AddressSpec {
        self.addr@
    }
}

impl CheckedAddr {
    /// Accept the address exactly when the allow-list admits it; this is
    /// the only way to construct a `CheckedAddr`.
    pub fn check(addr: Address, whitelist: &[Network]) -> (r: Result<CheckedAddr, Address>)
        ensures
            match r {
                Ok(c) => c@ == addr@ && addr_allowed(addr@, nets_view(whitelist@)),
                Err(e) => e@ == addr@ && !addr_allowed(addr@, nets_view(whitelist@)),
            },
    {
        if is_allowed(&addr, whitelist) {
            Ok(CheckedAddr { addr })
        } else {
            Err(addr)
        }
    }

    /// The underlying address.
    pub fn addr(&self) -> (r: &Address)
        ensures
            r@ == self@,
    {
        &self.addr
    }
}

/// What `parse_network` accepts for a single allow-list entry: an IPv4
/// network, else a DNS name, else a DNS pattern.
pub open spec fn network_parse_spec(s: Seq<char>) -> Option<NetworkSpec> {
    if exists|a: u32, p: u8| is_ipv4_net_text(s, a, p) {
        let (a, p) = choose|a: u32, p: u8| is_ipv4_net_text(s, a, p);
        Some(NetworkSpec::Net(IpNet::V4 { addr: a, prefix: p }))
    } else if is_ipv6_net_text(s) is Some {
        let (a, p) = is_ipv6_net_text(s)->Some_0;
        Some(NetworkSpec::Net(IpNet::V6 { addr: a, prefix: p }))
    } else if is_hostname(s) {
        Some(NetworkSpec::Dns(s))
    } else {
        match pattern_parse_spec(s) {
            Some(p) => Some(NetworkSpec::Pattern(p)),
            None => None,
        }
    }
}

/// Parse one allow-list entry: a CIDR network, a DNS name, or a pattern.
pub fn parse_network(s: &str) -> (r: Option<Network>)
    ensures
        match r {
            Some(n) => network_parse_spec(s@) == Some(n@),
            None => network_parse_spec(s@) is None,
        },
{
    match parse_ipv4_net(s) {
        Some((addr, prefix)) => {
            let net = IpNet::V4 { addr, prefix };
            proof {
                let (pa, pp) = choose|a: u32, p: u8| is_ipv4_net_text(s@, a, p);
                lemma_net_text_unique(s@, IpNet::V4 { addr: pa, prefix: pp }, net);
            }
            return Some(Network::Net(net));
        },
        None => {},
    }
    match parse_ipv6_net(s) {
        Some((addr, prefix)) => {
            return Some(Network::Net(IpNet::V6 { addr, prefix }));
        },
        None => {},
    }
    match HostName::parse(s) {
        Ok(h) => {
            return Some(Network::Dns(h));
        },
        Err(_) => {},
    }
    match DnsPattern::parse(s) {
        Some(p) => Some(Network::Pattern(p)),
        None => None,
    }
}

/// The same text cannot denote two different IPv4 networks.
proof fn lemma_net_text_unique(s: Seq<char>, x: IpNet, y: IpNet)
    requires
        x matches IpNet::V4 { addr: a1, prefix: p1 } && is_ipv4_net_text(s, a1, p1),
        y matches IpNet::V4 { addr: a2, prefix: p2 } && is_ipv4_net_text(s, a2, p2),
    ensures
        x == y,
{
    let (a1, p1) = (x->V4_addr, x->V4_prefix);
    let (a2, p2) = (y->V4_addr, y->V4_prefix);
    let e = crate::ip::first_sep_from(s, 0, '/');
    crate::ip::lemma_dec_text_unique(s.subrange(e + 1, s.len() as int), p1 as int, p2 as int);
    lemma_ipv4_text_unique(s.subrange(0, e), a1, a2);
}

/// The same text cannot denote two different IPv4 addresses.
pub proof fn lemma_ipv4_text_unique(s: Seq<char>, x: u32, y: u32)
    requires
        is_ipv4_text(s, x),
        is_ipv4_text(s, y),
    ensures
        x == y,
{
    let e1 = crate::ip::first_sep_from(s, 0, '.');
    let e2 = crate::ip::first_sep_from(s, e1 + 1, '.');
    let e3 = crate::ip::first_sep_from(s, e2 + 1, '.');
    crate::ip::lemma_dec_text_unique(s.subrange(0, e1), (x >> 24) as int, (y >> 24) as int);
    crate::ip::lemma_dec_text_unique(
        s.subrange(e1 + 1, e2),
        ((x >> 16) & 0xff) as int,
        ((y >> 16) & 0xff) as int,
    );
    crate::ip::lemma_dec_text_unique(
        s.subrange(e2 + 1, e3),
        ((x >> 8) & 0xff) as int,
        ((y >> 8) & 0xff) as int,
    );
    crate::ip::lemma_dec_text_unique(
        s.subrange(e3 + 1, s.len() as int),
        (x & 0xff) as int,
        (y & 0xff) as int,
    );
    assert(x >> 24 == y >> 24 && (x >> 16) & 0xff == (y >> 16) & 0xff && (x >> 8) & 0xff == (y
        >> 8) & 0xff && x & 0xff == y & 0xff ==> x == y) by (bit_vector);
}

} // verus!
