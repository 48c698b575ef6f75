//! Numeric IP addresses, socket addresses and CIDR networks.
//!
//! Addresses are held as plain integers (`u32` for IPv4, `u128` for IPv6),
//! most significant octet first.  A network is an address plus a prefix
//! length; membership compares the leading `prefix` bits.  IPv4 texts are
//! the canonical dotted quads: four decimal octets without leading zeros.

use vstd::prelude::*;
use vstd::string::StrSliceExecFns;

verus! {

/// An IP address, version 4 or 6, as a plain integer.
#[derive(Debug, Clone, Copy, PartialEq, Eq, Structural)]
pub enum Ip {
    V4(u32),
    V6(u128),
}

/// An IP address with a port number.
#[derive(Debug, Clone, Copy, PartialEq, Eq, Structural)]
pub struct SockAddr {
    pub ip: Ip,
    pub port: u16,
}

/// A CIDR network: a base address and a prefix length.
#[derive(Debug, Clone, Copy, PartialEq, Eq, Structural)]
pub enum IpNet {
    V4 { addr: u32, prefix: u8 },
    V6 { addr: u128, prefix: u8 },
}

/// The first `prefix` bits of `a` and `b` agree.
pub open spec fn v4_prefix_eq(a: u32, b: u32, prefix: u8) -> bool {
    prefix == 0 || (prefix <= 32 && a >> (32 - prefix) as u32 == b >> (32 - prefix) as u32)
}

/// The first `prefix` bits of `a` and `b` agree.
pub open spec fn v6_prefix_eq(a: u128, b: u128, prefix: u8) -> bool {
    prefix == 0 || (prefix <= 128 && a >> (128 - prefix) as u128 == b >> (128 - prefix) as u128)
}

/// Membership of an address in a network: same version, and the leading
/// `prefix` bits of the address equal those of the network's base.
pub open spec fn net_contains(net: IpNet, ip: Ip) -> bool {
    match (net, ip) {
        (IpNet::V4 { addr, prefix }, Ip::V4(a)) => v4_prefix_eq(addr, a, prefix),
        (IpNet::V6 { addr, prefix }, Ip::V6(a)) => v6_prefix_eq(addr, a, prefix),
        _ => false,
    }
}

impl IpNet {
    /// A prefix length no longer than the address width.
    pub open spec fn wf(&self) -> bool {
        match *self {
            IpNet::V4 { addr, prefix } => prefix <= 32,
            IpNet::V6 { addr, prefix } => prefix <= 128,
        }
    }

    /// Does this network contain the given address?
    pub fn contains(&self, ip: &Ip) -> (r: bool)
        ensures
            r == net_contains(*self, *ip),
    {
        match (self, ip) {
            (IpNet::V4 { addr, prefix }, Ip::V4(a)) => {
                if *prefix == 0 {
                    true
                } else if *prefix <= 32 {
                    let shift: u32 = 32 - *prefix as u32;
                    (*addr >> shift) == (*a >> shift)
                } else {
                    false
                }
            },
            (IpNet::V6 { addr, prefix }, Ip::V6(a)) => {
                if *prefix == 0 {
                    true
                } else if *prefix <= 128 {
                    let shift: u128 = 128 - *prefix as u128;
                    (*addr >> shift) == (*a >> shift)
                } else {
                    false
                }
            },
            _ => false,
        }
    }
}

/// The position of the first `sep` at or after `i`, or the length if none.
pub open spec fn first_sep_from(s: Seq<char>, i: int, sep: char) -> int
    decreases s.len() - i,
{
    if i < 0 || i >= s.len() {
        s.len() as int
    } else if s[i] == sep {
        i
    } else {
        first_sep_from(s, i + 1, sep)
    }
}

proof fn lemma_first_sep(s: Seq<char>, i: int, j: int, sep: char)
    requires
        0 <= i <= j <= s.len(),
        forall|k: int| i <= k < j ==> #[trigger] s[k] != sep,
        j == s.len() || s[j] == sep,
    ensures
        first_sep_from(s, i, sep) == j,
    decreases j - i,
{
    if i < j {
        lemma_first_sep(s, i + 1, j, sep);
    }
}

/// Find the first `sep` at or after `i`.
pub fn scan_sep(s: &str, i: usize, n: usize, sep: char) -> (e: usize)
    requires
        n == s@.len(),
        i <= n,
    ensures
        e == first_sep_from(s@, i as int, sep),
        i <= e <= n,
{
    let mut j: usize = i;
    while j < n
        invariant
            i <= j <= n,
            n == s@.len(),
            forall|k: int| i <= k < j ==> #[trigger] s@[k] != sep,
        decreases n - j,
    {
        if s.get_char(j) == sep {
            proof {
                lemma_first_sep(s@, i as int, j as int, sep);
            }
            return j;
        }
        j = j + 1;
    }
    proof {
        lemma_first_sep(s@, i as int, n as int, sep);
    }
    n
}

/// `s` is the canonical decimal text of `n`, for `0 <= n <= 255`: one to
/// three digits, no leading zero.
pub open spec fn is_dec_text(s: Seq<char>, n: int) -> bool {
    ||| (s.len() == 1 && 0 <= n < 10 && s[0] as u32 == 48 + n)
    ||| (s.len() == 2 && 10 <= n < 100 && s[0] as u32 == 48 + n / 10 && s[1] as u32 == 48 + n % 10)
    ||| (s.len() == 3 && 100 <= n <= 255 && s[0] as u32 == 48 + n / 100 && s[1] as u32 == 48 + (n
        / 10) % 10 && s[2] as u32 == 48 + n % 10)
}

/// The same text cannot denote two numbers.
pub proof fn lemma_dec_text_unique(s: Seq<char>, a: int, b: int)
    requires
        is_dec_text(s, a),
        is_dec_text(s, b),
    ensures
        a == b,
{
}

/// Parse the characters `[i, e)` of `s` as a canonical decimal below 256.
fn parse_dec(s: &str, i: usize, e: usize, n: usize) -> (r: Option<u8>)
    requires
        n == s@.len(),
        i <= e <= n,
    ensures
        match r {
            Some(v) => is_dec_text(s@.subrange(i as int, e as int), v as int),
            None => forall|v: int| !is_dec_text(s@.subrange(i as int, e as int), v),
        },
{
    let ghost sub = s@.subrange(i as int, e as int);
    let len = e - i;
    if len == 0 || len > 3 {
        return None;
    }
    let d0 = digit_val(s.get_char(i));
    proof {
        assert(sub[0] == s@[i as int]);
    }
    if len == 1 {
        match d0 {
            Some(v) => Some(v),
            None => None,
        }
    } else if len == 2 {
        let d1 = digit_val(s.get_char(i + 1));
        proof {
            assert(sub[1] == s@[i as int + 1]);
        }
        match (d0, d1) {
            (Some(v0), Some(v1)) => {
                if v0 == 0 {
                    return None;
                }
                Some(10 * v0 + v1)
            },
            _ => None,
        }
    } else {
        let d1 = digit_val(s.get_char(i + 1));
        let d2 = digit_val(s.get_char(i + 2));
        proof {
            assert(sub[1] == s@[i as int + 1]);
            assert(sub[2] == s@[i as int + 2]);
        }
        match (d0, d1, d2) {
            (Some(v0), Some(v1), Some(v2)) => {
                if v0 == 0 {
                    return None;
                }
                let v: u16 = 100 * (v0 as u16) + 10 * (v1 as u16) + v2 as u16;
                if v > 255 {
                    return None;
                }
                Some(v as u8)
            },
            _ => None,
        }
    }
}

/// The decimal value of one digit character.
fn digit_val(c: char) -> (r: Option<u8>)
    ensures
        match r {
            Some(v) => v < 10 && c as u32 == 48 + v,
            None => ((c as u32) < 48 || (c as u32) > 57),
        },
{
    let u = c as u32;
    if 48 <= u && u <= 57 {
        Some((u - 48) as u8)
    } else {
        None
    }
}

/// `s` is the canonical dotted-quad text of the IPv4 address `ip`.
pub open spec fn is_ipv4_text(s: Seq<char>, ip: u32) -> bool {
    let e1 = first_sep_from(s, 0, '.');
    let e2 = first_sep_from(s, e1 + 1, '.');
    let e3 = first_sep_from(s, e2 + 1, '.');
    &&& e3 < s.len()
    &&& first_sep_from(s, e3 + 1, '.') == s.len()
    &&& is_dec_text(s.subrange(0, e1), (ip >> 24) as int)
    &&& is_dec_text(s.subrange(e1 + 1, e2), ((ip >> 16) & 0xff) as int)
    &&& is_dec_text(s.subrange(e2 + 1, e3), ((ip >> 8) & 0xff) as int)
    &&& is_dec_text(s.subrange(e3 + 1, s.len() as int), (ip & 0xff) as int)
}

/// The four octet fields of a 32-bit address are below 256 and rebuild it.
proof fn lemma_v4_octets(o0: u8, o1: u8, o2: u8, o3: u8, ip: u32)
    requires
        ip == ((o0 as u32) << 24) | ((o1 as u32) << 16) | ((o2 as u32) << 8) | (o3 as u32),
    ensures
        ip >> 24 == o0,
        (ip >> 16) & 0xff == o1,
        (ip >> 8) & 0xff == o2,
        ip & 0xff == o3,
{
    let a = o0 as u32;
    let b = o1 as u32;
    let c = o2 as u32;
    let d = o3 as u32;
    assert(a < 256 && b < 256 && c < 256 && d < 256 ==> ((a << 24) | (b << 16) | (c << 8) | d)
        >> 24 == a && (((a << 24) | (b << 16) | (c << 8) | d) >> 16) & 0xff == b && (((a << 24) | (
    b << 16) | (c << 8) | d) >> 8) & 0xff == c && ((a << 24) | (b << 16) | (c << 8) | d) & 0xff
        == d) by (bit_vector);
}

/// Parse a canonical dotted-quad IPv4 address.
pub fn parse_ipv4(s: &str) -> (r: Option<u32>)
    ensures
        match r {
            Some(ip) => is_ipv4_text(s@, ip),
            None => forall|ip: u32| !is_ipv4_text(s@, ip),
        },
{
    let n = s.unicode_len();
    let e1 = scan_sep(s, 0, n, '.');
    if e1 == n {
        return None;
    }
    let e2 = scan_sep(s, e1 + 1, n, '.');
    if e2 == n {
        return None;
    }
    let e3 = scan_sep(s, e2 + 1, n, '.');
    if e3 == n {
        return None;
    }
    let e4 = scan_sep(s, e3 + 1, n, '.');
    if e4 != n {
        return None;
    }
    let o0 = parse_dec(s, 0, e1, n);
    let o1 = parse_dec(s, e1 + 1, e2, n);
    let o2 = parse_dec(s, e2 + 1, e3, n);
    let o3 = parse_dec(s, e3 + 1, n, n);
    match (o0, o1, o2, o3) {
        (Some(b0), Some(b1), Some(b2), Some(b3)) => {
            let ip: u32 = ((b0 as u32) << 24) | ((b1 as u32) << 16) | ((b2 as u32) << 8) | (
            b3 as u32);
            proof {
                lemma_v4_octets(b0, b1, b2, b3, ip);
            }
            Some(ip)
        },
        _ => None,
    }
}

/// `s` is an accepted IPv4 network text: a canonical dotted quad, `/`, and
/// a canonical decimal prefix length of at most 32.
pub open spec fn is_ipv4_net_text(s: Seq<char>, addr: u32, prefix: u8) -> bool {
    let e = first_sep_from(s, 0, '/');
    &&& e < s.len()
    &&& is_ipv4_text(s.subrange(0, e), addr)
    &&& is_dec_text(s.subrange(e + 1, s.len() as int), prefix as int)
    &&& prefix <= 32
}

/// Parse an IPv4 CIDR network such as `10.0.0.0/8`.
pub fn parse_ipv4_net(s: &str) -> (r: Option<(u32, u8)>)
    ensures
        match r {
            Some((addr, prefix)) => is_ipv4_net_text(s@, addr, prefix) && prefix <= 32,
            None => forall|addr: u32, prefix: u8| !is_ipv4_net_text(s@, addr, prefix),
        },
{
    let n = s.unicode_len();
    let e = scan_sep(s, 0, n, '/');
    if e == n {
        return None;
    }
    let head = s.substring_char(0, e);
    proof {
        assert(s@.subrange(0, e as int) == head@);
    }
    let addr = match parse_ipv4(head) {
        Some(a) => a,
        None => {
            return None;
        },
    };
    let prefix = match parse_dec(s, e + 1, n, n) {
        Some(p) => p,
        None => {
            return None;
        },
    };
    if prefix > 32 {
        proof {
            assert forall|a: u32, p: u8| !is_ipv4_net_text(s@, a, p) by {
                if is_ipv4_net_text(s@, a, p) {
                    lemma_dec_text_unique(
                        s@.subrange(e as int + 1, n as int),
                        p as int,
                        prefix as int,
                    );
                }
            }
        }
        return None;
    }
    Some((addr, prefix))
}

/// The value of a hex digit character.
pub open spec fn hex_val(c: char) -> Option<u8> {
    let u = c as u32;
    if 48 <= u && u <= 57 {
        Some((u - 48) as u8)
    } else if 97 <= u && u <= 102 {
        Some((u - 87) as u8)
    } else if 65 <= u && u <= 70 {
        Some((u - 55) as u8)
    } else {
        None
    }
}

/// The value of one hex digit, executable side.
fn hex_val_exec(c: char) -> (r: Option<u8>)
    ensures
        r == hex_val(c),
{
    let u = c as u32;
    if 48 <= u && u <= 57 {
        Some((u - 48) as u8)
    } else if 97 <= u && u <= 102 {
        Some((u - 87) as u8)
    } else if 65 <= u && u <= 70 {
        Some((u - 55) as u8)
    } else {
        None
    }
}

/// The bounds of the colon-separated segments from position `i` on.
pub open spec fn colon_bounds(s: Seq<char>, i: int) -> Seq<(int, int)>
    decreases s.len() - i,
{
    let e = first_sep_from(s, i, ':');
    if e >= s.len() || e < i {
        seq![(i, s.len() as int)]
    } else {
        seq![(i, e)] + colon_bounds(s, e + 1)
    }
}

/// The pairs of a bounds vector, as mathematical integers.
pub open spec fn pairs(v: Seq<(usize, usize)>) -> Seq<(int, int)> {
    v.map_values(|p: (usize, usize)| (p.0 as int, p.1 as int))
}

/// Collect the segment bounds into a vector.
fn bounds_exec(s: &str, i: usize, n: usize, out: &mut Vec<(usize, usize)>)
    requires
        n == s@.len(),
        i <= n,
    ensures
        pairs(final(out)@) == pairs(old(out)@) + colon_bounds(s@, i as int),
    decreases n - i,
{
    let e = scan_sep(s, i, n, ':');
    if e >= n {
        out.push((i, n));
        proof {
            assert(pairs(final(out)@) =~= pairs(old(out)@) + colon_bounds(s@, i as int));
        }
    } else {
        out.push((i, e));
        proof {
            assert(pairs(out@) =~= pairs(old(out)@) + seq![(i as int, e as int)]);
        }
        bounds_exec(s, e + 1, n, out);
        proof {
            assert(pairs(final(out)@) =~= pairs(old(out)@) + colon_bounds(s@, i as int));
        }
    }
}

/// A segment holding nothing.
pub open spec fn seg_empty(b: (int, int)) -> bool {
    b.1 <= b.0
}

/// The value of one segment read as one to four hex digits.
pub open spec fn hex_group_val(s: Seq<char>, a: int, e: int) -> Option<u16> {
    if 0 <= a && e <= s.len() && 1 <= e - a <= 4 && (forall|k: int|
        a <= k < e ==> hex_val(#[trigger] s[k]) is Some) {
        if e - a == 1 {
            Some(hexv(s, a) as u16)
        } else if e - a == 2 {
            Some((hexv(s, a) * 16 + hexv(s, a + 1)) as u16)
        } else if e - a == 3 {
            Some((hexv(s, a) * 256 + hexv(s, a + 1) * 16 + hexv(s, a + 2)) as u16)
        } else {
            Some(
                (hexv(s, a) * 4096 + hexv(s, a + 1) * 256 + hexv(s, a + 2) * 16 + hexv(
                    s,
                    a + 3,
                )) as u16,
            )
        }
    } else {
        None
    }
}

/// The digit value at one position, as an integer.
pub open spec fn hexv(s: Seq<char>, k: int) -> int {
    hex_val(s[k])->Some_0 as int
}

/// Read one segment as a hex group.
fn hex_group_exec(s: &str, a: usize, e: usize, n: usize) -> (r: Option<u16>)
    requires
        n == s@.len(),
        a <= e <= n,
    ensures
        r == hex_group_val(s@, a as int, e as int),
{
    if e - a < 1 || e - a > 4 {
        return None;
    }
    let mut vals: [u8; 4] = [0; 4];
    let mut k: usize = 0;
    let len = e - a;
    while k < len
        invariant
            k <= len <= 4,
            a + len == e <= n,
            n == s@.len(),
            forall|j: int| 0 <= j < k ==> hex_val(s@[a + j]) == Some(vals@[j]),
        decreases len - k,
    {
        match hex_val_exec(s.get_char(a + k)) {
            Some(v) => {
                vals[k] = v;
            },
            None => {
                return None;
            },
        }
        k = k + 1;
    }
    proof {
        assert forall|m: int| a <= m < e implies hex_val(#[trigger] s@[m]) is Some by {
            assert(hex_val(s@[a + (m - a)]) == Some(vals@[m - a]));
        }
    }
    let v0 = vals[0] as u16;
    if len == 1 {
        Some(v0)
    } else if len == 2 {
        Some(v0 * 16 + vals[1] as u16)
    } else if len == 3 {
        Some(v0 * 256 + (vals[1] as u16) * 16 + vals[2] as u16)
    } else {
        Some(v0 * 4096 + (vals[1] as u16) * 256 + (vals[2] as u16) * 16 + vals[3] as u16)
    }
}

/// The values of a run of segments, or nothing if one is not a group.
pub open spec fn groups_of(s: Seq<char>, bs: Seq<(int, int)>) -> Option<Seq<u16>>
    decreases bs.len(),
{
    if bs.len() == 0 {
        Some(Seq::empty())
    } else {
        match hex_group_val(s, bs[0].0, bs[0].1) {
            Some(g) => match groups_of(s, bs.skip(1)) {
                Some(r) => Some(seq![g] + r),
                None => None,
            },
            None => None,
        }
    }
}

/// Extending a run of segments by one at the end.
proof fn lemma_groups_push(s: Seq<char>, bs: Seq<(int, int)>, p: (int, int))
    ensures
        groups_of(s, bs.push(p)) == (match (groups_of(s, bs), hex_group_val(s, p.0, p.1)) {
            (Some(gs), Some(g)) => Some(gs.push(g)),
            _ => None::<Seq<u16>>,
        }),
    decreases bs.len(),
{
    if bs.len() == 0 {
        assert(bs.push(p)[0] == p);
        assert(bs.push(p).skip(1) =~= Seq::<(int, int)>::empty());
        match hex_group_val(s, p.0, p.1) {
            Some(g) => {
                assert(seq![g] + Seq::<u16>::empty() =~= Seq::<u16>::empty().push(g));
            },
            None => {},
        }
    } else {
        reveal_with_fuel(groups_of, 3);
        lemma_groups_push(s, bs.skip(1), p);
        assert(bs.push(p).skip(1) =~= bs.skip(1).push(p));
        assert(bs.push(p)[0] == bs[0]);
        match (hex_group_val(s, bs[0].0, bs[0].1), groups_of(s, bs.skip(1)), hex_group_val(
            s,
            p.0,
            p.1,
        )) {
            (Some(g0), Some(r), Some(g)) => {
                assert(seq![g0] + r.push(g) =~= (seq![g0] + r).push(g));
            },
            _ => {},
        }
    }
}

/// Read a run of segments `[from, to)` as hex groups.
fn groups_exec(s: &str, bv: &Vec<(usize, usize)>, from: usize, to: usize, n: usize) -> (r: Option<
    Vec<u16>,
>)
    requires
        n == s@.len(),
        from <= to <= bv@.len(),
        forall|k: int| 0 <= k < bv@.len() ==> (#[trigger] bv@[k]).0 <= bv@[k].1 <= n,
    ensures
        match r {
            Some(v) => groups_of(s@, pairs(bv@).subrange(from as int, to as int)) == Some(v@),
            None => groups_of(s@, pairs(bv@).subrange(from as int, to as int)) is None,
        },
{
    let mut out: Vec<u16> = Vec::new();
    let mut k: usize = from;
    proof {
        assert(pairs(bv@).subrange(from as int, from as int) =~= Seq::<(int, int)>::empty());
    }
    while k < to
        invariant
            from <= k <= to <= bv@.len(),
            n == s@.len(),
            forall|j: int| 0 <= j < bv@.len() ==> (#[trigger] bv@[j]).0 <= bv@[j].1 <= n,
            groups_of(s@, pairs(bv@).subrange(from as int, k as int)) == Some(out@),
        decreases to - k,
    {
        let (a, e) = bv[k];
        let g = match hex_group_exec(s, a, e, n) {
            Some(g) => g,
            None => {
                proof {
                    lemma_groups_none(s@, pairs(bv@), from as int, k as int, to as int);
                }
                return None;
            },
        };
        out.push(g);
        proof {
            assert(pairs(bv@).subrange(from as int, k + 1) =~= pairs(bv@).subrange(
                from as int,
                k as int,
            ).push(pairs(bv@)[k as int]));
            lemma_groups_push(s@, pairs(bv@).subrange(from as int, k as int), pairs(bv@)[k as int]);
        }
        k = k + 1;
    }
    Some(out)
}

/// A run with one bad segment inside has no group reading.
proof fn lemma_groups_none(s: Seq<char>, bs: Seq<(int, int)>, from: int, k: int, to: int)
    requires
        0 <= from <= k < to <= bs.len(),
        hex_group_val(s, bs[k].0, bs[k].1) is None,
        groups_of(s, bs.subrange(from, k)) is Some,
    ensures
        groups_of(s, bs.subrange(from, to)) is None,
    decreases k - from,
{
    if k == from {
        assert(bs.subrange(from, to)[0] == bs[from]);
    } else {
        assert(bs.subrange(from, to)[0] == bs[from]);
        assert(bs.subrange(from, to).skip(1) =~= bs.subrange(from + 1, to));
        assert(bs.subrange(from, k)[0] == bs[from]);
        assert(bs.subrange(from, k).skip(1) =~= bs.subrange(from + 1, k));
        lemma_groups_none(s, bs, from + 1, k, to);
    }
}

/// 65536 to the power `n`.
pub open spec fn pow65536(n: int) -> int
    decreases n,
{
    if n <= 0 {
        1
    } else {
        65536 * pow65536(n - 1)
    }
}

/// A run of groups reads below 65536 to its length.
proof fn lemma_groups_val_bound(gs: Seq<u16>)
    ensures
        0 <= groups_val(gs) < pow65536(gs.len() as int),
    decreases gs.len(),
{
    if gs.len() > 0 {
        lemma_groups_val_bound(gs.drop_last());
        assert(groups_val(gs.drop_last()) * 0x10000 + 0x10000 <= pow65536(
            gs.len() as int,
        )) by (nonlinear_arith)
            requires
                groups_val(gs.drop_last()) < pow65536(gs.len() - 1),
                pow65536(gs.len() as int) == 65536 * pow65536(gs.len() - 1),
        ;
    }
}

/// The 128-bit value of a full run of eight groups, big-endian.
pub open spec fn groups_val(gs: Seq<u16>) -> int
    decreases gs.len(),
{
    if gs.len() == 0 {
        0
    } else {
        groups_val(gs.drop_last()) * 0x10000 + gs.last()
    }
}

/// Combine at most eight groups into one value.
fn groups_val_exec(gs: &Vec<u16>) -> (r: u128)
    requires
        gs@.len() <= 8,
    ensures
        r as int == groups_val(gs@),
{
    let mut acc: u128 = 0;
    let mut k: usize = 0;
    let n = gs.len();
    proof {
        assert(gs@.take(0) =~= Seq::<u16>::empty());
    }
    while k < n
        invariant
            k <= n <= 8,
            n == gs@.len(),
            acc as int == groups_val(gs@.take(k as int)),
        decreases n - k,
    {
        proof {
            lemma_groups_val_bound(gs@.take(k as int));
            lemma_pow65536_le(k as int, 7);
            reveal_with_fuel(pow65536, 9);
            assert(gs@.take(k + 1).drop_last() =~= gs@.take(k as int));
            assert(gs@.take(k + 1).last() == gs@[k as int]);
        }
        acc = acc * 0x10000 + (gs[k] as u128);
        k = k + 1;
    }
    proof {
        assert(gs@.take(n as int) =~= gs@);
    }
    acc
}

proof fn lemma_pow65536_le(a: int, b: int)
    requires
        a <= b,
    ensures
        pow65536(a) <= pow65536(b),
        pow65536(a) >= 1,
    decreases (if b > a {
        b - a
    } else {
        0
    }) + (if a > 0 {
        a
    } else {
        0
    }),
{
    if a < b {
        lemma_pow65536_le(a, b - 1);
    } else if a > 0 {
        lemma_pow65536_le(a - 1, a - 1);
    }
}

/// A run of sixteen-bit zeros.
pub open spec fn zeros16(n: int) -> Seq<u16> {
    Seq::new(
        (if n >= 0 {
            n
        } else {
            0
        }) as nat,
        |i: int| 0u16,
    )
}

/// Fill the gap a `::` stands for and read the eight groups, when head
/// and tail leave room for at least one elided group.
pub open spec fn assemble(head: Seq<u16>, tail: Seq<u16>) -> Option<u128> {
    if head.len() + tail.len() <= 7 {
        Some(groups_val(head + zeros16(8 - head.len() - tail.len()) + tail) as u128)
    } else {
        None
    }
}

/// Build the eight groups around the elision and combine them.
fn assemble_exec(head: &Vec<u16>, tail: &Vec<u16>) -> (r: Option<u128>)
    ensures
        r == assemble(head@, tail@),
{
    if head.len() > 7 {
        return None;
    }
    if tail.len() > 7 - head.len() {
        return None;
    }
    let mut full: Vec<u16> = Vec::new();
    let hn = head.len();
    for k in 0..hn
        invariant
            hn == head@.len(),
            full@ =~= head@.take(k as int),
    {
        full.push(head[k]);
    }
    let gap = 8 - head.len() - tail.len();
    let mut z: usize = 0;
    while z < gap
        invariant
            z <= gap,
            gap == 8 - head@.len() - tail@.len(),
            full@ =~= head@ + zeros16(z as int),
        decreases gap - z,
    {
        full.push(0);
        proof {
            assert(head@ + zeros16(z + 1) =~= (head@ + zeros16(z as int)).push(0u16));
        }
        z = z + 1;
    }
    let tn = tail.len();
    for k in 0..tn
        invariant
            tn == tail@.len(),
            full@ =~= head@ + zeros16((8 - head@.len() - tail@.len()) as int) + tail@.take(
                k as int,
            ),
    {
        full.push(tail[k]);
        proof {
            assert(head@ + zeros16((8 - head@.len() - tail@.len()) as int) + tail@.take(k + 1)
                =~= (head@ + zeros16((8 - head@.len() - tail@.len()) as int) + tail@.take(
                k as int,
            )).push(tail@[k as int]));
        }
    }
    proof {
        assert(tail@.take(tn as int) =~= tail@);
        assert(head@.take(hn as int) =~= head@);
        assert(full@.len() == 8);
        lemma_groups_val_bound(full@);
        reveal_with_fuel(pow65536, 9);
    }
    Some(groups_val_exec(&full))
}

/// What an IPv6 text denotes: colon-separated groups of one to four hex
/// digits, eight of them, or fewer with exactly one `::` standing for
/// the elided zero groups.  Texts embedding a dotted quad are not read.
pub open spec fn parse_ipv6_spec(s: Seq<char>) -> Option<u128> {
    let bs = colon_bounds(s, 0);
    if forall|k: int| 0 <= k < bs.len() ==> !seg_empty(#[trigger] bs[k]) {
        if bs.len() == 8 {
            match groups_of(s, bs) {
                Some(gs) => Some(groups_val(gs) as u128),
                None => None,
            }
        } else {
            None
        }
    } else if bs.len() == 3 && seg_empty(bs[0]) && seg_empty(bs[1]) && seg_empty(bs[2]) {
        Some(0)
    } else if bs.len() >= 3 && seg_empty(bs[0]) && seg_empty(bs[1]) && (forall|k: int|
        2 <= k < bs.len() ==> !seg_empty(#[trigger] bs[k])) {
        match groups_of(s, bs.skip(2)) {
            Some(gs) => assemble(Seq::empty(), gs),
            None => None,
        }
    } else if bs.len() >= 3 && seg_empty(bs[bs.len() - 1]) && seg_empty(bs[bs.len() - 2]) && (
    forall|k: int| 0 <= k < bs.len() - 2 ==> !seg_empty(#[trigger] bs[k])) {
        match groups_of(s, bs.take(bs.len() - 2)) {
            Some(gs) => assemble(gs, Seq::empty()),
            None => None,
        }
    } else if exists|j: int|
        1 <= j < bs.len() - 1 && seg_empty(#[trigger] bs[j]) && (forall|k: int|
            0 <= k < bs.len() && k != j ==> !seg_empty(#[trigger] bs[k])) {
        let j = choose|j: int|
            1 <= j < bs.len() - 1 && seg_empty(#[trigger] bs[j]) && (forall|k: int|
                0 <= k < bs.len() && k != j ==> !seg_empty(#[trigger] bs[k]));
        match (groups_of(s, bs.take(j)), groups_of(s, bs.skip(j + 1))) {
            (Some(h), Some(t)) => assemble(h, t),
            _ => None,
        }
    } else {
        None
    }
}

/// Are the segments `[from, to)` all non-empty?
fn all_nonempty(bv: &Vec<(usize, usize)>, from: usize, to: usize) -> (r: bool)
    requires
        from <= to <= bv@.len(),
    ensures
        r == (forall|k: int| from <= k < to ==> !seg_empty(#[trigger] pairs(bv@)[k])),
{
    let mut k: usize = from;
    while k < to
        invariant
            from <= k <= to <= bv@.len(),
            forall|j: int| from <= j < k ==> !seg_empty(#[trigger] pairs(bv@)[j]),
        decreases to - k,
    {
        let (a, e) = bv[k];
        if e <= a {
            proof {
                assert(seg_empty(pairs(bv@)[k as int]));
            }
            return false;
        }
        k = k + 1;
    }
    true
}

/// Parse an IPv6 address text: colon-separated hex groups with at most
/// one `::` elision.  Texts embedding a dotted quad, such as a
/// v4-mapped address written with dots, are deliberately not read; on
/// this wire addresses travel in binary form, so the restriction only
/// narrows which textual allow-list entries are accepted, and it fails
/// closed.
#[verifier::rlimit(100)]
#[verifier::spinoff_prover]
#[verifier::loop_isolation(false)]
pub fn parse_ipv6(s: &str) -> (r: Option<u128>)
    ensures
        r == parse_ipv6_spec(s@),
{
    let n = s.unicode_len();
    let mut bv: Vec<(usize, usize)> = Vec::new();
    bounds_exec(s, 0, n, &mut bv);
    proof {
        assert(pairs(bv@) =~= colon_bounds(s@, 0));
        lemma_bounds_in_range(s@, 0);
        assert forall|k: int| 0 <= k < bv@.len() implies (#[trigger] bv@[k]).0 <= bv@[k].1
            <= n by {
            assert(pairs(bv@)[k] == (bv@[k].0 as int, bv@[k].1 as int));
            assert(colon_bounds(s@, 0)[k].0 <= colon_bounds(s@, 0)[k].1 <= s@.len());
        }
    }
    let m = bv.len();
    let ghost bs = colon_bounds(s@, 0);
    if all_nonempty(&bv, 0, m) {
        if m == 8 {
            match groups_exec(s, &bv, 0, m, n) {
                Some(gs) => {
                    proof {
                        assert(pairs(bv@).subrange(0, 8) =~= bs);
                        lemma_groups_val_bound(gs@);
                        reveal_with_fuel(pow65536, 9);
                        match groups_of(s@, bs) {
                            Some(g2) => {
                                assert(g2.len() == 8) by {
                                    lemma_groups_len(s@, bs);
                                }
                            },
                            None => {},
                        }
                    }
                    Some(groups_val_exec(&gs))
                },
                None => {
                    proof {
                        assert(pairs(bv@).subrange(0, 8) =~= bs);
                    }
                    None
                },
            }
        } else {
            None
        }
    } else if m == 3 && empty_at(&bv, 0) && empty_at(&bv, 1) && empty_at(&bv, 2) {
        Some(0)
    } else if m >= 3 && empty_at(&bv, 0) && empty_at(&bv, 1) && all_nonempty(&bv, 2, m) {
        match groups_exec(s, &bv, 2, m, n) {
            Some(gs) => {
                proof {
                    assert(pairs(bv@).subrange(2, m as int) =~= bs.skip(2));
                }
                let empty_head: Vec<u16> = Vec::new();
                proof {
                    assert(empty_head@ =~= Seq::<u16>::empty());
                }
                assemble_exec(&empty_head, &gs)
            },
            None => {
                proof {
                    assert(pairs(bv@).subrange(2, m as int) =~= bs.skip(2));
                }
                None
            },
        }
    } else if m >= 3 && empty_at(&bv, m - 1) && empty_at(&bv, m - 2) && all_nonempty(&bv, 0, m
        - 2) {
        match groups_exec(s, &bv, 0, m - 2, n) {
            Some(gs) => {
                proof {
                    assert(pairs(bv@).subrange(0, m - 2) =~= bs.take(bs.len() - 2));
                }
                let empty_tail: Vec<u16> = Vec::new();
                proof {
                    assert(empty_tail@ =~= Seq::<u16>::empty());
                }
                assemble_exec(&gs, &empty_tail)
            },
            None => {
                proof {
                    assert(pairs(bv@).subrange(0, m - 2) =~= bs.take(bs.len() - 2));
                }
                None
            },
        }
    } else if m < 2 {
        proof {
            lemma_no_middle_empty(bs, 1);
        }
        None
    } else {
        let mut j: usize = 1;
        while j < m - 1
            invariant
                1 <= j <= m,
                forall|i2: int| 1 <= i2 < j ==> !seg_empty(#[trigger] pairs(bv@)[i2]),
            decreases m - j,
        {
            if empty_at(&bv, j) {
                if all_nonempty(&bv, 0, j) && all_nonempty(&bv, j + 1, m) {
                    proof {
                        assert(1 <= j < bs.len() - 1 && seg_empty(bs[j as int]) && (forall|
                            k: int,
                        |
                            0 <= k < bs.len() && k != j ==> !seg_empty(#[trigger] bs[k])));
                        let jw = choose|jw: int|
                            1 <= jw < bs.len() - 1 && seg_empty(#[trigger] bs[jw]) && (forall|
                                k: int,
                            |
                                0 <= k < bs.len() && k != jw ==> !seg_empty(#[trigger] bs[k]));
                        assert(jw == j as int);
                    }
                    let h = match groups_exec(s, &bv, 0, j, n) {
                        Some(h) => h,
                        None => {
                            proof {
                                assert(pairs(bv@).subrange(0, j as int) =~= bs.take(j as int));
                            }
                            return None;
                        },
                    };
                    let t = match groups_exec(s, &bv, j + 1, m, n) {
                        Some(t) => t,
                        None => {
                            proof {
                                assert(pairs(bv@).subrange(j + 1, m as int) =~= bs.skip(j + 1));
                            }
                            return None;
                        },
                    };
                    proof {
                        assert(pairs(bv@).subrange(0, j as int) =~= bs.take(j as int));
                        assert(pairs(bv@).subrange(j + 1, m as int) =~= bs.skip(j + 1));
                    }
                    return assemble_exec(&h, &t);
                } else {
                    proof {
                        lemma_no_lone_middle(bs, j as int);
                    }
                    return None;
                }
            }
            j = j + 1;
        }
        proof {
            lemma_no_middle_empty(bs, j as int);
        }
        None
    }
}

/// Is the segment at `k` empty?
fn empty_at(bv: &Vec<(usize, usize)>, k: usize) -> (r: bool)
    requires
        k < bv@.len(),
    ensures
        r == seg_empty(pairs(bv@)[k as int]),
{
    let (a, e) = bv[k];
    e <= a
}

/// A run of groups has one value per segment.
proof fn lemma_groups_len(s: Seq<char>, bs: Seq<(int, int)>)
    requires
        groups_of(s, bs) is Some,
    ensures
        groups_of(s, bs)->Some_0.len() == bs.len(),
    decreases bs.len(),
{
    if bs.len() > 0 {
        lemma_groups_len(s, bs.skip(1));
    }
}

/// Every bound lies inside the string, in order.
proof fn lemma_bounds_in_range(s: Seq<char>, i: int)
    requires
        0 <= i <= s.len(),
    ensures
        forall|k: int| 0 <= k < colon_bounds(s, i).len() ==> {
            let b = #[trigger] colon_bounds(s, i)[k];
            0 <= b.0 && b.0 <= b.1 && b.1 <= s.len()
        },
    decreases s.len() - i,
{
    lemma_first_sep_bounds(s, i, ':');
    let e = first_sep_from(s, i, ':');
    if !(e >= s.len() || e < i) {
        lemma_bounds_in_range(s, e + 1);
        assert forall|k: int| 0 <= k < colon_bounds(s, i).len() implies {
            let b = #[trigger] colon_bounds(s, i)[k];
            0 <= b.0 && b.0 <= b.1 && b.1 <= s.len()
        } by {
            if k > 0 {
                assert(colon_bounds(s, i)[k] == colon_bounds(s, e + 1)[k - 1]);
            }
        }
    }
}

/// The first separator position lies between `i` and the length.
proof fn lemma_first_sep_bounds(s: Seq<char>, i: int, sep: char)
    requires
        0 <= i <= s.len(),
    ensures
        i <= first_sep_from(s, i, sep) <= s.len(),
    decreases s.len() - i,
{
    if i < s.len() && s[i] != sep {
        lemma_first_sep_bounds(s, i + 1, sep);
    }
}

/// When the middle segment `j` is empty but some other segment is empty
/// too, no single-elision reading exists.
proof fn lemma_no_lone_middle(bs: Seq<(int, int)>, j: int)
    requires
        1 <= j < bs.len() - 1,
        seg_empty(bs[j]),
        !((forall|k: int| 0 <= k < j ==> !seg_empty(#[trigger] bs[k])) && (forall|k: int|
            j < k < bs.len() ==> !seg_empty(#[trigger] bs[k]))),
    ensures
        !(exists|jw: int|
            1 <= jw < bs.len() - 1 && seg_empty(#[trigger] bs[jw]) && (forall|k: int|
                0 <= k < bs.len() && k != jw ==> !seg_empty(#[trigger] bs[k]))),
{
    assert forall|jw: int|
        !(1 <= jw < bs.len() - 1 && seg_empty(#[trigger] bs[jw]) && (forall|k: int|
            0 <= k < bs.len() && k != jw ==> !seg_empty(#[trigger] bs[k]))) by {
        if 1 <= jw < bs.len() - 1 && seg_empty(bs[jw]) && (forall|k: int|
            0 <= k < bs.len() && k != jw ==> !seg_empty(#[trigger] bs[k])) {
            assert(jw == j);
        }
    }
}

/// With no empty middle segment at all, no single-elision reading exists.
proof fn lemma_no_middle_empty(bs: Seq<(int, int)>, j: int)
    requires
        j + 1 >= bs.len(),
        forall|i2: int| 1 <= i2 < j ==> !seg_empty(#[trigger] bs[i2]),
    ensures
        !(exists|jw: int|
            1 <= jw < bs.len() - 1 && seg_empty(#[trigger] bs[jw]) && (forall|k: int|
                0 <= k < bs.len() && k != jw ==> !seg_empty(#[trigger] bs[k]))),
{
}

/// `s` is an accepted IPv6 network text: an IPv6 address, `/`, and a
/// canonical decimal prefix length of at most 128.
pub open spec fn is_ipv6_net_text(s: Seq<char>) -> Option<(u128, u8)> {
    let e = first_sep_from(s, 0, '/');
    if 0 <= e < s.len() {
        match parse_ipv6_spec(s.take(e)) {
            Some(a) => {
                let t = s.subrange(e + 1, s.len() as int);
                if exists|p: int| is_dec_text(t, p) {
                    let p = choose|p: int| is_dec_text(t, p);
                    if 0 <= p <= 128 {
                        Some((a, p as u8))
                    } else {
                        None
                    }
                } else {
                    None
                }
            },
            None => None,
        }
    } else {
        None
    }
}

/// Parse an IPv6 CIDR network such as `fd00::/8`.
pub fn parse_ipv6_net(s: &str) -> (r: Option<(u128, u8)>)
    ensures
        r == is_ipv6_net_text(s@),
{
    let n = s.unicode_len();
    let e = scan_sep(s, 0, n, '/');
    if e == n {
        return None;
    }
    let head = s.substring_char(0, e);
    proof {
        assert(s@.subrange(0, e as int) == head@);
    }
    let addr = match parse_ipv6(head) {
        Some(a) => a,
        None => {
            return None;
        },
    };
    let prefix = match parse_dec(s, e + 1, n, n) {
        Some(p) => p,
        None => {
            return None;
        },
    };
    proof {
        let t = s@.subrange(e + 1, n as int);
        if exists|p: int| is_dec_text(t, p) {
            let pw = choose|p: int| is_dec_text(t, p);
            lemma_dec_text_unique(t, pw, prefix as int);
        }
    }
    if prefix > 128 {
        return None;
    }
    Some((addr, prefix))
}

} // verus!
