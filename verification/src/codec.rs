//! The wire codec for control and data messages: CBOR data items in the
//! layout the gateway speaks, and the four-byte length prefix framing.
//!
//! Every value has a spec-level encoder and decoder over byte sequences,
//! executable counterparts proved equal to them, and a round-trip lemma:
//! decoding an encoding yields the value back.  A frame whose payload
//! carries an unknown variant index decodes to a message with no payload,
//! so newer gateways do not break older agents.

use vstd::prelude::*;
use crate::cbor::{
    enc_head,
    dec_head,
    enc_uint,
    dec_uint,
    enc_bytes,
    dec_bytes,
    enc_text,
    dec_text,
    enc_null,
    enc_bool,
    lemma_head_round,
    lemma_uint_round,
    lemma_bytes_round,
    lemma_text_round,
    write_head,
    read_head,
    write_uint,
    read_uint,
    write_bytes,
    read_bytes,
    write_text,
    read_text,
    write_null,
    write_bool,
};
use crate::ip::{Ip, SockAddr};
use crate::address::{Address, AddressSpec};
use crate::protocol::{
    ConnectReply,
    Id,
    Version,
    Reason,
    ErrorCode,
    Data,
    DataView,
    CipherText,
    Message,
    MessageSpec,
    Server,
    ServerSpec,
    Client,
    ClientSpec,
    Connect,
    ConnectSpec,
};

verus! {

/// 256 to the power `n`.
pub open spec fn pow256(n: int) -> int
    decreases n,
{
    if n <= 0 {
        1
    } else {
        256 * pow256(n - 1)
    }
}

/// The `n`-byte big-endian rendering of `v`.
pub open spec fn be_octets(v: int, n: int) -> Seq<u8>
    decreases n,
{
    if n <= 0 {
        Seq::empty()
    } else {
        be_octets(v / 256, n - 1) + seq![(v % 256) as u8]
    }
}

/// The value of a big-endian byte string.
pub open spec fn be_val(b: Seq<u8>) -> int
    decreases b.len(),
{
    if b.len() == 0 {
        0
    } else {
        be_val(b.drop_last()) * 256 + b.last()
    }
}

/// Powers of 256 are positive.
proof fn lemma_pow256_pos(n: int)
    ensures
        pow256(n) >= 1,
    decreases (if n > 0 {
        n
    } else {
        0
    }),
{
    if n > 0 {
        lemma_pow256_pos(n - 1);
    }
}

/// Powers of 256 do not shrink.
proof fn lemma_pow256_le(a: int, b: int)
    requires
        a <= b,
    ensures
        pow256(a) <= pow256(b),
        pow256(a) >= 1,
    decreases b - a,
{
    lemma_pow256_pos(a);
    if a < b {
        lemma_pow256_le(a, b - 1);
        lemma_pow256_pos(b - 1);
    }
}

/// The power-of-256 constants the codec needs.
proof fn lemma_pow256_vals()
    ensures
        pow256(4) == 0x100000000,
        pow256(16) == 0x100000000000000000000000000000000,
{
    reveal_with_fuel(pow256, 17);
}

/// Rendering and reading back an `n`-byte value is the identity.
proof fn lemma_be_round(v: int, n: int)
    requires
        n >= 0,
        0 <= v < pow256(n),
    ensures
        be_octets(v, n).len() == n,
        be_val(be_octets(v, n)) == v,
    decreases n,
{
    if n > 0 {
        assert(v / 256 < pow256(n - 1) && 0 <= v / 256 && v % 256 < 256 && (v / 256) * 256 + v
            % 256 == v) by (nonlinear_arith)
            requires
                0 <= v < 256 * pow256(n - 1),
        ;
        lemma_be_round(v / 256, n - 1);
        assert(be_octets(v, n).drop_last() =~= be_octets(v / 256, n - 1));
        assert(be_octets(v, n).last() == (v % 256) as u8);
    }
}

/// A byte string's value is below 256 to its length.
proof fn lemma_be_val_bound(b: Seq<u8>)
    ensures
        0 <= be_val(b) < pow256(b.len() as int),
    decreases b.len(),
{
    if b.len() > 0 {
        lemma_be_val_bound(b.drop_last());
        assert(be_val(b.drop_last()) * 256 + 256 <= pow256(b.len() as int)) by (nonlinear_arith)
            requires
                be_val(b.drop_last()) < pow256(b.len() - 1),
                pow256(b.len() as int) == 256 * pow256(b.len() - 1),
        ;
    }
}

/// Append the `n`-byte big-endian rendering of `v`.
fn write_be(out: &mut Vec<u8>, v: u128, n: usize)
    requires
        (v as int) < pow256(n as int),
    ensures
        final(out)@ == old(out)@ + be_octets(v as int, n as int),
    decreases n,
{
    if n > 0 {
        proof {
            assert(v as int / 256 < pow256(n - 1)) by (nonlinear_arith)
                requires
                    0 <= (v as int) && (v as int) < 256 * pow256(n - 1),
            ;
        }
        write_be(out, v / 256, n - 1);
        out.push((v % 256) as u8);
        proof {
            assert(final(out)@ =~= old(out)@ + be_octets(v as int, n as int));
        }
    } else {
        proof {
            assert(final(out)@ =~= old(out)@ + be_octets(v as int, 0));
        }
    }
}

/// The value of a big-endian byte slice of at most sixteen bytes.
fn be_val_exec(b: &[u8]) -> (r: u128)
    requires
        b@.len() <= 16,
    ensures
        r as int == be_val(b@),
{
    let n = b.len();
    let mut acc: u128 = 0;
    let mut k: usize = 0;
    proof {
        assert(b@.take(0) =~= Seq::<u8>::empty());
    }
    while k < n
        invariant
            k <= n <= 16,
            n == b@.len(),
            acc as int == be_val(b@.take(k as int)),
        decreases n - k,
    {
        proof {
            lemma_be_val_bound(b@.take(k as int));
            lemma_pow256_le(k as int, 15);
            reveal_with_fuel(pow256, 17);
            assert(b@.take(k + 1).drop_last() =~= b@.take(k as int));
            assert(b@.take(k + 1).last() == b@[k as int]);
        }
        acc = acc * 256 + (b[k] as u128);
        k = k + 1;
    }
    proof {
        assert(b@.take(n as int) =~= b@);
    }
    acc
}

/// The four octets of an IPv4 address.
pub open spec fn v4_octets(a: u32) -> Seq<u8> {
    be_octets(a as int, 4)
}

/// The sixteen octets of an IPv6 address.
pub open spec fn v6_octets(a: u128) -> Seq<u8> {
    be_octets(a as int, 16)
}

/// An IP address: a two-element array of version tag and octet string.
pub open spec fn enc_ip(ip: Ip) -> Seq<u8> {
    match ip {
        Ip::V4(a) => enc_head(4, 2) + enc_uint(0) + enc_bytes(v4_octets(a)),
        Ip::V6(a) => enc_head(4, 2) + enc_uint(1) + enc_bytes(v6_octets(a)),
    }
}

/// Read an IP address.
pub open spec fn dec_ip(s: Seq<u8>, i: int) -> Option<(Ip, int)> {
    match dec_head(s, i) {
        Some((major, count, j)) => if major == 4 && count == 2 {
            match dec_uint(s, j) {
                Some((tag, j2)) => match dec_bytes(s, j2) {
                    Some((b, j3)) => if tag == 0 && b.len() == 4 {
                        Some((Ip::V4(be_val(b) as u32), j3))
                    } else if tag == 1 && b.len() == 16 {
                        Some((Ip::V6(be_val(b) as u128), j3))
                    } else {
                        None
                    },
                    None => None,
                },
                None => None,
            }
        } else {
            None
        },
        None => None,
    }
}

/// Splitting a known concatenation at its seam.
pub proof fn lemma_split(s: Seq<u8>, i: int, a: Seq<u8>, b: Seq<u8>)
    requires
        0 <= i,
        i + a.len() + b.len() <= s.len(),
        s.subrange(i, i + a.len() + b.len()) == a + b,
    ensures
        s.subrange(i, i + a.len() as int) == a,
        s.subrange(i + a.len() as int, i + a.len() + b.len()) == b,
{
    let whole = s.subrange(i, i + a.len() + b.len());
    assert(s.subrange(i, i + a.len() as int) =~= a) by {
        assert forall|k: int| 0 <= k < a.len() implies s.subrange(i, i + a.len() as int)[k]
            == a[k] by {
            assert(whole[k] == (a + b)[k]);
        }
    }
    assert(s.subrange(i + a.len() as int, i + a.len() + b.len()) =~= b) by {
        assert forall|k: int| 0 <= k < b.len() implies s.subrange(
            i + a.len() as int,
            i + a.len() + b.len(),
        )[k] == b[k] by {
            assert(whole[a.len() + k] == (a + b)[a.len() + k]);
        }
    }
}

/// Round trip for IP addresses.
pub proof fn lemma_ip_round(s: Seq<u8>, i: int, ip: Ip)
    requires
        0 <= i,
        i + enc_ip(ip).len() <= s.len(),
        s.subrange(i, i + enc_ip(ip).len() as int) == enc_ip(ip),
    ensures
        dec_ip(s, i) == Some((ip, i + enc_ip(ip).len() as int)),
{
    reveal_with_fuel(pow256, 17);
    match ip {
        Ip::V4(a) => {
            lemma_be_round(a as int, 4);
            let h = enc_head(4, 2);
            let t = enc_uint(0);
            let b = enc_bytes(v4_octets(a));
            assert(enc_ip(ip) =~= h + (t + b));
            lemma_split(s, i, h, t + b);
            lemma_split(s, i + h.len() as int, t, b);
            lemma_head_round(s, i, 4, 2);
            lemma_uint_round(s, i + h.len() as int, 0);
            lemma_bytes_round(s, i + h.len() + t.len(), v4_octets(a));
        },
        Ip::V6(a) => {
            lemma_be_round(a as int, 16);
            let h = enc_head(4, 2);
            let t = enc_uint(1);
            let b = enc_bytes(v6_octets(a));
            assert(enc_ip(ip) =~= h + (t + b));
            lemma_split(s, i, h, t + b);
            lemma_split(s, i + h.len() as int, t, b);
            lemma_head_round(s, i, 4, 2);
            lemma_uint_round(s, i + h.len() as int, 1);
            lemma_bytes_round(s, i + h.len() + t.len(), v6_octets(a));
        },
    }
}

/// Append an IP address.
pub fn write_ip(out: &mut Vec<u8>, ip: &Ip)
    ensures
        final(out)@ == old(out)@ + enc_ip(*ip),
{
    write_head(out, 4, 2);
    proof {
        reveal_with_fuel(pow256, 17);
    }
    match ip {
        Ip::V4(a) => {
            write_uint(out, 0);
            let mut oct: Vec<u8> = Vec::new();
            proof {
                lemma_be_round(*a as int, 4);
            }
            write_be(&mut oct, *a as u128, 4);
            write_bytes(out, oct.as_slice());
            proof {
                assert(final(out)@ =~= old(out)@ + enc_ip(*ip));
            }
        },
        Ip::V6(a) => {
            write_uint(out, 1);
            let mut oct: Vec<u8> = Vec::new();
            proof {
                lemma_be_round(*a as int, 16);
            }
            write_be(&mut oct, *a, 16);
            write_bytes(out, oct.as_slice());
            proof {
                assert(final(out)@ =~= old(out)@ + enc_ip(*ip));
            }
        },
    }
}

/// Read an IP address.
pub fn read_ip(s: &[u8], i: usize) -> (r: Option<(Ip, usize)>)
    ensures
        match r {
            Some((ip, next)) => dec_ip(s@, i as int) == Some((ip, next as int)) && i < next
                <= s@.len(),
            None => dec_ip(s@, i as int) is None,
        },
{
    let (count, j) = match read_head(s, i) {
        Some((major, count, j)) => {
            if major != 4 || count != 2 {
                return None;
            }
            (count, j)
        },
        None => {
            return None;
        },
    };
    let (tag, j2) = match read_uint(s, j) {
        Some(p) => p,
        None => {
            return None;
        },
    };
    let (b, j3) = match read_bytes(s, j2) {
        Some(p) => p,
        None => {
            return None;
        },
    };
    if tag == 0 && b.len() == 4 {
        proof {
            lemma_be_val_bound(b@);
            reveal_with_fuel(pow256, 17);
        }
        let v = be_val_exec(b.as_slice());
        Some((Ip::V4(v as u32), j3))
    } else if tag == 1 && b.len() == 16 {
        proof {
            lemma_be_val_bound(b@);
            reveal_with_fuel(pow256, 17);
        }
        let v = be_val_exec(b.as_slice());
        Some((Ip::V6(v), j3))
    } else {
        None
    }
}

/// A socket address: version tag, then a pair of octet string and port.
pub open spec fn enc_sockaddr(sa: SockAddr) -> Seq<u8> {
    match sa.ip {
        Ip::V4(a) => enc_head(4, 2) + enc_uint(0) + (enc_head(4, 2) + enc_bytes(v4_octets(a))
            + enc_uint(sa.port as u64)),
        Ip::V6(a) => enc_head(4, 2) + enc_uint(1) + (enc_head(4, 2) + enc_bytes(v6_octets(a))
            + enc_uint(sa.port as u64)),
    }
}

/// Read a socket address.
pub open spec fn dec_sockaddr(s: Seq<u8>, i: int) -> Option<(SockAddr, int)> {
    match dec_head(s, i) {
        Some((major, count, j)) => if major == 4 && count == 2 {
            match dec_uint(s, j) {
                Some((tag, j2)) => match dec_head(s, j2) {
                    Some((major2, count2, j3)) => if major2 == 4 && count2 == 2 {
                        match dec_bytes(s, j3) {
                            Some((b, j4)) => match dec_uint(s, j4) {
                                Some((port, j5)) => if port < 0x10000 {
                                    if tag == 0 && b.len() == 4 {
                                        Some(
                                            (
                                                SockAddr {
                                                    ip: Ip::V4(be_val(b) as u32),
                                                    port: port as u16,
                                                },
                                                j5,
                                            ),
                                        )
                                    } else if tag == 1 && b.len() == 16 {
                                        Some(
                                            (
                                                SockAddr {
                                                    ip: Ip::V6(be_val(b) as u128),
                                                    port: port as u16,
                                                },
                                                j5,
                                            ),
                                        )
                                    } else {
                                        None
                                    }
                                } else {
                                    None
                                },
                                None => None,
                            },
                            None => None,
                        }
                    } else {
                        None
                    },
                    None => None,
                },
                None => None,
            }
        } else {
            None
        },
        None => None,
    }
}

/// Round trip for socket addresses.
#[verifier::rlimit(100)]
#[verifier::spinoff_prover]
pub proof fn lemma_sockaddr_round(s: Seq<u8>, i: int, sa: SockAddr)
    requires
        0 <= i,
        i + enc_sockaddr(sa).len() <= s.len(),
        s.subrange(i, i + enc_sockaddr(sa).len() as int) == enc_sockaddr(sa),
    ensures
        dec_sockaddr(s, i) == Some((sa, i + enc_sockaddr(sa).len() as int)),
{
    lemma_pow256_vals();
    let h = enc_head(4, 2);
    match sa.ip {
        Ip::V4(a) => {
            lemma_be_round(a as int, 4);
            let t = enc_uint(0);
            let b = enc_bytes(v4_octets(a));
            let p = enc_uint(sa.port as u64);
            assert(enc_sockaddr(sa) =~= h + (t + (h + (b + p))));
            lemma_split(s, i, h, t + (h + (b + p)));
            lemma_split(s, i + h.len() as int, t, h + (b + p));
            lemma_split(s, i + h.len() + t.len(), h, b + p);
            lemma_split(s, i + h.len() + t.len() + h.len(), b, p);
            lemma_head_round(s, i, 4, 2);
            lemma_uint_round(s, i + h.len() as int, 0);
            lemma_head_round(s, i + h.len() + t.len(), 4, 2);
            lemma_bytes_round(s, i + h.len() + t.len() + h.len(), v4_octets(a));
            lemma_uint_round(s, i + h.len() + t.len() + h.len() + b.len(), sa.port as u64);
        },
        Ip::V6(a) => {
            lemma_be_round(a as int, 16);
            let t = enc_uint(1);
            let b = enc_bytes(v6_octets(a));
            let p = enc_uint(sa.port as u64);
            assert(enc_sockaddr(sa) =~= h + (t + (h + (b + p))));
            lemma_split(s, i, h, t + (h + (b + p)));
            lemma_split(s, i + h.len() as int, t, h + (b + p));
            lemma_split(s, i + h.len() + t.len(), h, b + p);
            lemma_split(s, i + h.len() + t.len() + h.len(), b, p);
            lemma_head_round(s, i, 4, 2);
            lemma_uint_round(s, i + h.len() as int, 1);
            lemma_head_round(s, i + h.len() + t.len(), 4, 2);
            lemma_bytes_round(s, i + h.len() + t.len() + h.len(), v6_octets(a));
            lemma_uint_round(s, i + h.len() + t.len() + h.len() + b.len(), sa.port as u64);
        },
    }
}

/// Append a socket address.
pub fn write_sockaddr(out: &mut Vec<u8>, sa: &SockAddr)
    ensures
        final(out)@ == old(out)@ + enc_sockaddr(*sa),
{
    write_head(out, 4, 2);
    proof {
        reveal_with_fuel(pow256, 17);
    }
    match &sa.ip {
        Ip::V4(a) => {
            write_uint(out, 0);
            write_head(out, 4, 2);
            let mut oct: Vec<u8> = Vec::new();
            proof {
                lemma_be_round(*a as int, 4);
            }
            write_be(&mut oct, *a as u128, 4);
            write_bytes(out, oct.as_slice());
            write_uint(out, sa.port as u64);
            proof {
                assert(final(out)@ =~= old(out)@ + enc_sockaddr(*sa));
            }
        },
        Ip::V6(a) => {
            write_uint(out, 1);
            write_head(out, 4, 2);
            let mut oct: Vec<u8> = Vec::new();
            proof {
                lemma_be_round(*a as int, 16);
            }
            write_be(&mut oct, *a, 16);
            write_bytes(out, oct.as_slice());
            write_uint(out, sa.port as u64);
            proof {
                assert(final(out)@ =~= old(out)@ + enc_sockaddr(*sa));
            }
        },
    }
}

/// Read a socket address.
pub fn read_sockaddr(s: &[u8], i: usize) -> (r: Option<(SockAddr, usize)>)
    ensures
        match r {
            Some((sa, next)) => dec_sockaddr(s@, i as int) == Some((sa, next as int)) && i < next
                <= s@.len(),
            None => dec_sockaddr(s@, i as int) is None,
        },
{
    let j = match read_head(s, i) {
        Some((major, count, j)) => {
            if major != 4 || count != 2 {
                return None;
            }
            j
        },
        None => {
            return None;
        },
    };
    let (tag, j2) = match read_uint(s, j) {
        Some(p) => p,
        None => {
            return None;
        },
    };
    let j3 = match read_head(s, j2) {
        Some((major2, count2, j3)) => {
            if major2 != 4 || count2 != 2 {
                return None;
            }
            j3
        },
        None => {
            return None;
        },
    };
    let (b, j4) = match read_bytes(s, j3) {
        Some(p) => p,
        None => {
            return None;
        },
    };
    let (port, j5) = match read_uint(s, j4) {
        Some(p) => p,
        None => {
            return None;
        },
    };
    if port >= 0x10000 {
        return None;
    }
    if tag == 0 && b.len() == 4 {
        proof {
            lemma_be_val_bound(b@);
            reveal_with_fuel(pow256, 17);
        }
        let v = be_val_exec(b.as_slice());
        Some((SockAddr { ip: Ip::V4(v as u32), port: port as u16 }, j5))
    } else if tag == 1 && b.len() == 16 {
        proof {
            lemma_be_val_bound(b@);
            reveal_with_fuel(pow256, 17);
        }
        let v = be_val_exec(b.as_slice());
        Some((SockAddr { ip: Ip::V6(v), port: port as u16 }, j5))
    } else {
        None
    }
}

/// A network address on the wire: tagged as numeric or named.
pub open spec fn enc_address(a: AddressSpec) -> Seq<u8> {
    match a {
        AddressSpec::Addr(sa) => enc_head(4, 2) + enc_uint(0) + (enc_head(4, 1) + enc_sockaddr(
            sa,
        )),
        AddressSpec::Name(h, p) => enc_head(4, 2) + enc_uint(1) + (enc_head(4, 2) + enc_text(h)
            + enc_uint(p as u64)),
    }
}

/// Read a network address.
pub open spec fn dec_address(s: Seq<u8>, i: int) -> Option<(AddressSpec, int)> {
    match dec_head(s, i) {
        Some((major, count, j)) => if major == 4 && count == 2 {
            match dec_uint(s, j) {
                Some((tag, j2)) => if tag == 0 {
                    match dec_head(s, j2) {
                        Some((m2, c2, j3)) => if m2 == 4 && c2 == 1 {
                            match dec_sockaddr(s, j3) {
                                Some((sa, j4)) => Some((AddressSpec::Addr(sa), j4)),
                                None => None,
                            }
                        } else {
                            None
                        },
                        None => None,
                    }
                } else if tag == 1 {
                    match dec_head(s, j2) {
                        Some((m2, c2, j3)) => if m2 == 4 && c2 == 2 {
                            match dec_text(s, j3) {
                                Some((h, j4)) => match dec_uint(s, j4) {
                                    Some((p, j5)) => if p < 0x10000 {
                                        Some((AddressSpec::Name(h, p as u16), j5))
                                    } else {
                                        None
                                    },
                                    None => None,
                                },
                                None => None,
                            }
                        } else {
                            None
                        },
                        None => None,
                    }
                } else {
                    None
                },
                None => None,
            }
        } else {
            None
        },
        None => None,
    }
}

/// A name address short enough to encode.
pub open spec fn wf_address(a: AddressSpec) -> bool {
    match a {
        AddressSpec::Addr(_) => true,
        AddressSpec::Name(h, _) => vstd::utf8::encode_utf8(h).len() < 0x10000000000000000,
    }
}

/// Round trip for network addresses.
#[verifier::rlimit(100)]
#[verifier::spinoff_prover]
pub proof fn lemma_address_round(s: Seq<u8>, i: int, a: AddressSpec)
    requires
        0 <= i,
        wf_address(a),
        i + enc_address(a).len() <= s.len(),
        s.subrange(i, i + enc_address(a).len() as int) == enc_address(a),
    ensures
        dec_address(s, i) == Some((a, i + enc_address(a).len() as int)),
{
    let h2 = enc_head(4, 2);
    match a {
        AddressSpec::Addr(sa) => {
            let t = enc_uint(0);
            let h1 = enc_head(4, 1);
            let e = enc_sockaddr(sa);
            assert(enc_address(a) =~= h2 + (t + (h1 + e)));
            lemma_split(s, i, h2, t + (h1 + e));
            lemma_split(s, i + h2.len() as int, t, h1 + e);
            lemma_split(s, i + h2.len() + t.len(), h1, e);
            lemma_head_round(s, i, 4, 2);
            lemma_uint_round(s, i + h2.len() as int, 0);
            lemma_head_round(s, i + h2.len() + t.len(), 4, 1);
            lemma_sockaddr_round(s, i + h2.len() + t.len() + h1.len(), sa);
        },
        AddressSpec::Name(hn, p) => {
            let t = enc_uint(1);
            let et = enc_text(hn);
            let ep = enc_uint(p as u64);
            assert(enc_address(a) =~= h2 + (t + (h2 + (et + ep))));
            lemma_split(s, i, h2, t + (h2 + (et + ep)));
            lemma_split(s, i + h2.len() as int, t, h2 + (et + ep));
            lemma_split(s, i + h2.len() + t.len(), h2, et + ep);
            lemma_split(s, i + h2.len() + t.len() + h2.len(), et, ep);
            lemma_head_round(s, i, 4, 2);
            lemma_uint_round(s, i + h2.len() as int, 1);
            lemma_head_round(s, i + h2.len() + t.len(), 4, 2);
            lemma_text_round(s, i + h2.len() + t.len() + h2.len(), hn);
            lemma_uint_round(s, i + h2.len() + t.len() + h2.len() + et.len(), p as u64);
        },
    }
}

/// Append a network address.
pub fn write_address(out: &mut Vec<u8>, a: &Address)
    ensures
        final(out)@ == old(out)@ + enc_address(a@),
{
    write_head(out, 4, 2);
    match a {
        Address::Addr(sa) => {
            write_uint(out, 0);
            write_head(out, 4, 1);
            write_sockaddr(out, sa);
            proof {
                assert(final(out)@ =~= old(out)@ + enc_address(a@));
            }
        },
        Address::Name(h, p) => {
            write_uint(out, 1);
            write_head(out, 4, 2);
            write_text(out, h.as_str());
            write_uint(out, *p as u64);
            proof {
                assert(final(out)@ =~= old(out)@ + enc_address(a@));
            }
        },
    }
}

/// Read a network address.
pub fn read_address(s: &[u8], i: usize) -> (r: Option<(Address, usize)>)
    ensures
        match r {
            Some((a, next)) => dec_address(s@, i as int) matches Some((a2, n2)) && a2 == a@ && n2
                == next as int && i < next <= s@.len(),
            None => dec_address(s@, i as int) is None,
        },
{
    let j = match read_head(s, i) {
        Some((major, count, j)) => {
            if major != 4 || count != 2 {
                return None;
            }
            j
        },
        None => {
            return None;
        },
    };
    let (tag, j2) = match read_uint(s, j) {
        Some(p) => p,
        None => {
            return None;
        },
    };
    if tag == 0 {
        let j3 = match read_head(s, j2) {
            Some((m2, c2, j3)) => {
                if m2 != 4 || c2 != 1 {
                    return None;
                }
                j3
            },
            None => {
                return None;
            },
        };
        match read_sockaddr(s, j3) {
            Some((sa, j4)) => Some((Address::Addr(sa), j4)),
            None => None,
        }
    } else if tag == 1 {
        let j3 = match read_head(s, j2) {
            Some((m2, c2, j3)) => {
                if m2 != 4 || c2 != 2 {
                    return None;
                }
                j3
            },
            None => {
                return None;
            },
        };
        let (h, j4) = match read_text(s, j3) {
            Some(p) => p,
            None => {
                return None;
            },
        };
        let (p, j5) = match read_uint(s, j4) {
            Some(p) => p,
            None => {
                return None;
            },
        };
        if p >= 0x10000 {
            return None;
        }
        Some((Address::Name(h, p as u16), j5))
    } else {
        None
    }
}

/// A version: a three-element array of numbers.
pub open spec fn enc_version(v: Version) -> Seq<u8> {
    enc_head(4, 3) + enc_uint(v.major) + enc_uint(v.minor) + enc_uint(v.patch)
}

/// Read a version.
pub open spec fn dec_version(s: Seq<u8>, i: int) -> Option<(Version, int)> {
    match dec_head(s, i) {
        Some((major, count, j)) => if major == 4 && count == 3 {
            match dec_uint(s, j) {
                Some((ma, j2)) => match dec_uint(s, j2) {
                    Some((mi, j3)) => match dec_uint(s, j3) {
                        Some((pa, j4)) => Some((Version { major: ma, minor: mi, patch: pa }, j4)),
                        None => None,
                    },
                    None => None,
                },
                None => None,
            }
        } else {
            None
        },
        None => None,
    }
}

/// Round trip for versions.
pub proof fn lemma_version_round(s: Seq<u8>, i: int, v: Version)
    requires
        0 <= i,
        i + enc_version(v).len() <= s.len(),
        s.subrange(i, i + enc_version(v).len() as int) == enc_version(v),
    ensures
        dec_version(s, i) == Some((v, i + enc_version(v).len() as int)),
{
    let h = enc_head(4, 3);
    let a = enc_uint(v.major);
    let b = enc_uint(v.minor);
    let c = enc_uint(v.patch);
    assert(enc_version(v) =~= h + (a + (b + c)));
    lemma_split(s, i, h, a + (b + c));
    lemma_split(s, i + h.len() as int, a, b + c);
    lemma_split(s, i + h.len() + a.len(), b, c);
    lemma_head_round(s, i, 4, 3);
    lemma_uint_round(s, i + h.len() as int, v.major);
    lemma_uint_round(s, i + h.len() + a.len(), v.minor);
    lemma_uint_round(s, i + h.len() + a.len() + b.len(), v.patch);
}

/// Append a version.
pub fn write_version(out: &mut Vec<u8>, v: &Version)
    ensures
        final(out)@ == old(out)@ + enc_version(*v),
{
    write_head(out, 4, 3);
    write_uint(out, v.major);
    write_uint(out, v.minor);
    write_uint(out, v.patch);
    proof {
        assert(final(out)@ =~= old(out)@ + enc_version(*v));
    }
}

/// Read a version.
pub fn read_version(s: &[u8], i: usize) -> (r: Option<(Version, usize)>)
    ensures
        match r {
            Some((v, next)) => dec_version(s@, i as int) == Some((v, next as int)) && i < next
                <= s@.len(),
            None => dec_version(s@, i as int) is None,
        },
{
    let j = match read_head(s, i) {
        Some((major, count, j)) => {
            if major != 4 || count != 3 {
                return None;
            }
            j
        },
        None => {
            return None;
        },
    };
    let (ma, j2) = match read_uint(s, j) {
        Some(p) => p,
        None => {
            return None;
        },
    };
    let (mi, j3) = match read_uint(s, j2) {
        Some(p) => p,
        None => {
            return None;
        },
    };
    let (pa, j4) = match read_uint(s, j3) {
        Some(p) => p,
        None => {
            return None;
        },
    };
    Some((Version { major: ma, minor: mi, patch: pa }, j4))
}

/// The variant index of a termination reason.
pub open spec fn reason_index(r: Reason) -> u64 {
    match r {
        Reason::Unauthenticated => 0,
        Reason::Unauthorized => 1,
        Reason::UnsupportedVersion => 2,
        Reason::Disabled => 3,
    }
}

/// A reason: variant index plus an empty field array.
pub open spec fn enc_reason(r: Reason) -> Seq<u8> {
    enc_head(4, 2) + enc_uint(reason_index(r)) + enc_head(4, 0)
}

/// Read a reason.
pub open spec fn dec_reason(s: Seq<u8>, i: int) -> Option<(Reason, int)> {
    match dec_head(s, i) {
        Some((major, count, j)) => if major == 4 && count == 2 {
            match dec_uint(s, j) {
                Some((idx, j2)) => match dec_head(s, j2) {
                    Some((m2, c2, j3)) => if m2 == 4 && c2 == 0 {
                        if idx == 0 {
                            Some((Reason::Unauthenticated, j3))
                        } else if idx == 1 {
                            Some((Reason::Unauthorized, j3))
                        } else if idx == 2 {
                            Some((Reason::UnsupportedVersion, j3))
                        } else if idx == 3 {
                            Some((Reason::Disabled, j3))
                        } else {
                            None
                        }
                    } else {
                        None
                    },
                    None => None,
                },
                None => None,
            }
        } else {
            None
        },
        None => None,
    }
}

/// Round trip for reasons.
pub proof fn lemma_reason_round(s: Seq<u8>, i: int, r: Reason)
    requires
        0 <= i,
        i + enc_reason(r).len() <= s.len(),
        s.subrange(i, i + enc_reason(r).len() as int) == enc_reason(r),
    ensures
        dec_reason(s, i) == Some((r, i + enc_reason(r).len() as int)),
{
    let h = enc_head(4, 2);
    let t = enc_uint(reason_index(r));
    let z = enc_head(4, 0);
    assert(enc_reason(r) =~= h + (t + z));
    lemma_split(s, i, h, t + z);
    lemma_split(s, i + h.len() as int, t, z);
    lemma_head_round(s, i, 4, 2);
    lemma_uint_round(s, i + h.len() as int, reason_index(r));
    lemma_head_round(s, i + h.len() + t.len(), 4, 0);
}

/// Append a reason.
pub fn write_reason(out: &mut Vec<u8>, r: &Reason)
    ensures
        final(out)@ == old(out)@ + enc_reason(*r),
{
    write_head(out, 4, 2);
    let idx: u64 = match r {
        Reason::Unauthenticated => 0,
        Reason::Unauthorized => 1,
        Reason::UnsupportedVersion => 2,
        Reason::Disabled => 3,
    };
    write_uint(out, idx);
    write_head(out, 4, 0);
    proof {
        assert(final(out)@ =~= old(out)@ + enc_reason(*r));
    }
}

/// Read a reason.
pub fn read_reason(s: &[u8], i: usize) -> (r: Option<(Reason, usize)>)
    ensures
        match r {
            Some((v, next)) => dec_reason(s@, i as int) == Some((v, next as int)) && i < next
                <= s@.len(),
            None => dec_reason(s@, i as int) is None,
        },
{
    let j = match read_head(s, i) {
        Some((major, count, j)) => {
            if major != 4 || count != 2 {
                return None;
            }
            j
        },
        None => {
            return None;
        },
    };
    let (idx, j2) = match read_uint(s, j) {
        Some(p) => p,
        None => {
            return None;
        },
    };
    let j3 = match read_head(s, j2) {
        Some((m2, c2, j3)) => {
            if m2 != 4 || c2 != 0 {
                return None;
            }
            j3
        },
        None => {
            return None;
        },
    };
    if idx == 0 {
        Some((Reason::Unauthenticated, j3))
    } else if idx == 1 {
        Some((Reason::Unauthorized, j3))
    } else if idx == 2 {
        Some((Reason::UnsupportedVersion, j3))
    } else if idx == 3 {
        Some((Reason::Disabled, j3))
    } else {
        None
    }
}

/// The variant index of an error code.
pub open spec fn code_index(c: ErrorCode) -> u64 {
    match c {
        ErrorCode::CouldNotConnect => 0,
        ErrorCode::AddressNotAllowed => 1,
        ErrorCode::DecryptionFailed => 2,
    }
}

/// An error code: index only.
pub open spec fn enc_code(c: ErrorCode) -> Seq<u8> {
    enc_uint(code_index(c))
}

/// Read an error code.
pub open spec fn dec_code(s: Seq<u8>, i: int) -> Option<(ErrorCode, int)> {
    match dec_uint(s, i) {
        Some((idx, j)) => if idx == 0 {
            Some((ErrorCode::CouldNotConnect, j))
        } else if idx == 1 {
            Some((ErrorCode::AddressNotAllowed, j))
        } else if idx == 2 {
            Some((ErrorCode::DecryptionFailed, j))
        } else {
            None
        },
        None => None,
    }
}

/// Round trip for error codes.
pub proof fn lemma_code_round(s: Seq<u8>, i: int, c: ErrorCode)
    requires
        0 <= i,
        i + enc_code(c).len() <= s.len(),
        s.subrange(i, i + enc_code(c).len() as int) == enc_code(c),
    ensures
        dec_code(s, i) == Some((c, i + enc_code(c).len() as int)),
{
    lemma_uint_round(s, i, code_index(c));
}

/// Append an error code.
pub fn write_code(out: &mut Vec<u8>, c: &ErrorCode)
    ensures
        final(out)@ == old(out)@ + enc_code(*c),
{
    let idx: u64 = match c {
        ErrorCode::CouldNotConnect => 0,
        ErrorCode::AddressNotAllowed => 1,
        ErrorCode::DecryptionFailed => 2,
    };
    write_uint(out, idx);
}

/// Read an error code.
pub fn read_code(s: &[u8], i: usize) -> (r: Option<(ErrorCode, usize)>)
    ensures
        match r {
            Some((v, next)) => dec_code(s@, i as int) == Some((v, next as int)) && i < next
                <= s@.len(),
            None => dec_code(s@, i as int) is None,
        },
{
    match read_uint(s, i) {
        Some((idx, j)) => {
            if idx == 0 {
                Some((ErrorCode::CouldNotConnect, j))
            } else if idx == 1 {
                Some((ErrorCode::AddressNotAllowed, j))
            } else if idx == 2 {
                Some((ErrorCode::DecryptionFailed, j))
            } else {
                None
            }
        },
        None => None,
    }
}

/// A sealed box record: a three-element array of byte strings.
pub open spec fn enc_data32(d: DataView) -> Seq<u8> {
    enc_head(4, 3) + enc_bytes(d.key) + enc_bytes(d.data) + enc_bytes(d.tag)
}

/// Read a sealed box over a 32-byte message.
pub open spec fn dec_data32(s: Seq<u8>, i: int) -> Option<(DataView, int)> {
    match dec_head(s, i) {
        Some((major, count, j)) => if major == 4 && count == 3 {
            match dec_bytes(s, j) {
                Some((key, j2)) => match dec_bytes(s, j2) {
                    Some((body, j3)) => match dec_bytes(s, j3) {
                        Some((tag, j4)) => if key.len() == 32 && body.len() == 32 && tag.len()
                            == 16 {
                            Some((DataView { key, data: body, tag }, j4))
                        } else {
                            None
                        },
                        None => None,
                    },
                    None => None,
                },
                None => None,
            }
        } else {
            None
        },
        None => None,
    }
}

/// Round trip for sealed boxes.
pub proof fn lemma_data32_round(s: Seq<u8>, i: int, d: DataView)
    requires
        0 <= i,
        d.wf(32),
        i + enc_data32(d).len() <= s.len(),
        s.subrange(i, i + enc_data32(d).len() as int) == enc_data32(d),
    ensures
        dec_data32(s, i) == Some((d, i + enc_data32(d).len() as int)),
{
    let h = enc_head(4, 3);
    let a = enc_bytes(d.key);
    let b = enc_bytes(d.data);
    let c = enc_bytes(d.tag);
    assert(enc_data32(d) =~= h + (a + (b + c)));
    lemma_split(s, i, h, a + (b + c));
    lemma_split(s, i + h.len() as int, a, b + c);
    lemma_split(s, i + h.len() + a.len(), b, c);
    lemma_head_round(s, i, 4, 3);
    lemma_bytes_round(s, i + h.len() as int, d.key);
    lemma_bytes_round(s, i + h.len() + a.len(), d.data);
    lemma_bytes_round(s, i + h.len() + a.len() + b.len(), d.tag);
}

/// Append a sealed box over a 32-byte message.
pub fn write_data32(out: &mut Vec<u8>, d: &Data<32>)
    ensures
        final(out)@ == old(out)@ + enc_data32(d@),
{
    write_head(out, 4, 3);
    write_bytes(out, d.key.as_slice());
    write_bytes(out, d.data.as_slice());
    write_bytes(out, d.tag.as_slice());
    proof {
        assert(final(out)@ =~= old(out)@ + enc_data32(d@));
    }
}

/// Read a sealed box over a 32-byte message.
pub fn read_data32(s: &[u8], i: usize) -> (r: Option<(Data<32>, usize)>)
    ensures
        match r {
            Some((d, next)) => dec_data32(s@, i as int) matches Some((d2, n2)) && d2 == d@ && n2
                == next as int && i < next <= s@.len(),
            None => dec_data32(s@, i as int) is None,
        },
{
    let j = match read_head(s, i) {
        Some((major, count, j)) => {
            if major != 4 || count != 3 {
                return None;
            }
            j
        },
        None => {
            return None;
        },
    };
    let (key, j2) = match read_bytes(s, j) {
        Some(p) => p,
        None => {
            return None;
        },
    };
    let (body, j3) = match read_bytes(s, j2) {
        Some(p) => p,
        None => {
            return None;
        },
    };
    let (tag, j4) = match read_bytes(s, j3) {
        Some(p) => p,
        None => {
            return None;
        },
    };
    let key_a = match crate::util::bytes_to_array::<32>(key) {
        Some(a) => a,
        None => {
            return None;
        },
    };
    let body_a = match crate::util::bytes_to_array::<32>(body) {
        Some(a) => a,
        None => {
            return None;
        },
    };
    let tag_a = match crate::util::bytes_to_array::<16>(tag) {
        Some(a) => a,
        None => {
            return None;
        },
    };
    Some((Data { key: key_a, data: body_a, tag: tag_a }, j4))
}

/// The variant index of a server payload.
pub open spec fn server_index(p: ServerSpec) -> u64 {
    match p {
        ServerSpec::Ping => 0,
        ServerSpec::Pong { .. } => 1,
        ServerSpec::Challenge { .. } => 2,
        ServerSpec::Terminate { .. } => 3,
        ServerSpec::Test { .. } => 4,
        ServerSpec::SwitchToNewConnection => 5,
        ServerSpec::Error { .. } => 6,
        ServerSpec::Accepted => 7,
    }
}

/// The fields of a server payload, encoded as their own array.
pub open spec fn enc_server_fields(p: ServerSpec) -> Seq<u8> {
    match p {
        ServerSpec::Ping => enc_head(4, 0),
        ServerSpec::Pong { re } => enc_head(4, 1) + enc_uint(re.spec_numeric()),
        ServerSpec::Challenge { text } => enc_head(4, 1) + enc_data32(text),
        ServerSpec::Terminate { reason } => enc_head(4, 1) + enc_reason(reason),
        ServerSpec::Test { addr } => enc_head(4, 1) + enc_address(addr),
        ServerSpec::SwitchToNewConnection => enc_head(4, 0),
        ServerSpec::Error { msg } => enc_head(4, 1) + enc_text(msg),
        ServerSpec::Accepted => enc_head(4, 0),
    }
}

/// A server payload: a two-element array of variant index and fields.
pub open spec fn enc_server_payload(p: ServerSpec) -> Seq<u8> {
    enc_head(4, 2) + enc_uint(server_index(p)) + enc_server_fields(p)
}

/// A server payload the codec can carry.
pub open spec fn wf_server(p: ServerSpec) -> bool {
    match p {
        ServerSpec::Challenge { text } => text.wf(32),
        ServerSpec::Test { addr } => wf_address(addr),
        ServerSpec::Error { msg } => vstd::utf8::encode_utf8(msg).len() < 0x10000000000000000,
        _ => true,
    }
}

/// Read the fields of the server variant with the given index.
pub open spec fn dec_server_fields(idx: u64, s: Seq<u8>, j: int) -> Option<ServerSpec> {
    match dec_head(s, j) {
        Some((m, arity, j2)) => if m != 4 {
            None
        } else if idx == 0 && arity == 0 {
            Some(ServerSpec::Ping)
        } else if idx == 1 && arity == 1 {
            match dec_uint(s, j2) {
                Some((n, _)) => Some(ServerSpec::Pong { re: Id::spec_from(n) }),
                None => None,
            }
        } else if idx == 2 && arity == 1 {
            match dec_data32(s, j2) {
                Some((d, _)) => Some(ServerSpec::Challenge { text: d }),
                None => None,
            }
        } else if idx == 3 && arity == 1 {
            match dec_reason(s, j2) {
                Some((r, _)) => Some(ServerSpec::Terminate { reason: r }),
                None => None,
            }
        } else if idx == 4 && arity == 1 {
            match dec_address(s, j2) {
                Some((a, _)) => Some(ServerSpec::Test { addr: a }),
                None => None,
            }
        } else if idx == 5 && arity == 0 {
            Some(ServerSpec::SwitchToNewConnection)
        } else if idx == 6 && arity == 1 {
            match dec_text(s, j2) {
                Some((t, _)) => Some(ServerSpec::Error { msg: t }),
                None => None,
            }
        } else if idx == 7 && arity == 0 {
            Some(ServerSpec::Accepted)
        } else {
            None
        },
        None => None,
    }
}

/// A whole server message: array of identifier and payload (or null).
pub open spec fn enc_server_msg(m: MessageSpec<ServerSpec>) -> Seq<u8> {
    enc_head(4, 2) + enc_uint(m.id.spec_numeric()) + (match m.data {
        Some(p) => enc_server_payload(p),
        None => enc_null(),
    })
}

/// Read a whole server message.  A payload with an unknown variant index
/// becomes `None`; malformed bytes fail.
pub open spec fn dec_server_msg(s: Seq<u8>) -> Option<MessageSpec<ServerSpec>> {
    match dec_head(s, 0) {
        Some((m, count, j)) => if m == 4 && count == 2 {
            match dec_uint(s, j) {
                Some((n, j2)) => if j2 < s.len() && s[j2] == 0xf6 {
                    Some(MessageSpec { id: Id::spec_from(n), data: None })
                } else {
                    match dec_head(s, j2) {
                        Some((m2, c2, j3)) => if m2 == 4 && c2 == 2 {
                            match dec_uint(s, j3) {
                                Some((idx, j4)) => if idx <= 7 {
                                    match dec_server_fields(idx, s, j4) {
                                        Some(p) => Some(
                                            MessageSpec { id: Id::spec_from(n), data: Some(p) },
                                        ),
                                        None => None,
                                    }
                                } else {
                                    Some(MessageSpec { id: Id::spec_from(n), data: None })
                                },
                                None => None,
                            }
                        } else {
                            None
                        },
                        None => None,
                    }
                },
                None => None,
            }
        } else {
            None
        },
        None => None,
    }
}

/// The variant index of a client payload.
pub open spec fn client_index(p: ClientSpec) -> u64 {
    match p {
        ClientSpec::Hello { .. } => 0,
        ClientSpec::Ping => 1,
        ClientSpec::Pong { .. } => 2,
        ClientSpec::Response { .. } => 3,
        ClientSpec::Error { .. } => 4,
        ClientSpec::Test { .. } => 5,
        ClientSpec::SwitchingConnection { .. } => 6,
    }
}

/// An optional error code: absent is null.
pub open spec fn enc_opt_code(c: Option<ErrorCode>) -> Seq<u8> {
    match c {
        Some(code) => enc_code(code),
        None => enc_null(),
    }
}

/// The number of entries in a client error map.
pub open spec fn client_error_count(code: Option<ErrorCode>, msg: Option<Seq<char>>) -> u64 {
    (1 + (if code is Some {
        1int
    } else {
        0int
    }) + (if msg is Some {
        1int
    } else {
        0int
    })) as u64
}

/// The fields of a client payload; the error variant is a map keyed by
/// field number with absent fields left out.
pub open spec fn enc_client_fields(p: ClientSpec) -> Seq<u8> {
    match p {
        ClientSpec::Hello { pubkey, agent_version } => enc_head(4, 2) + enc_bytes(pubkey)
            + enc_version(agent_version),
        ClientSpec::Ping => enc_head(4, 0),
        ClientSpec::Pong { re } => enc_head(4, 1) + enc_uint(re.spec_numeric()),
        ClientSpec::Response { re, text } => enc_head(4, 2) + enc_uint(re.spec_numeric())
            + enc_bytes(text),
        ClientSpec::Error { re, code, msg } => enc_head(5, client_error_count(code, msg))
            + enc_uint(0) + enc_uint(re.spec_numeric()) + (match code {
            Some(c) => enc_uint(1) + enc_code(c),
            None => Seq::empty(),
        }) + (match msg {
            Some(t) => enc_uint(2) + enc_text(t),
            None => Seq::empty(),
        }),
        ClientSpec::Test { re, code } => enc_head(4, 2) + enc_uint(re.spec_numeric())
            + enc_opt_code(code),
        ClientSpec::SwitchingConnection { re } => enc_head(4, 1) + enc_uint(re.spec_numeric()),
    }
}

/// A client payload: a two-element array of variant index and fields.
pub open spec fn enc_client_payload(p: ClientSpec) -> Seq<u8> {
    enc_head(4, 2) + enc_uint(client_index(p)) + enc_client_fields(p)
}

/// A client payload the codec can carry.
pub open spec fn wf_client(p: ClientSpec) -> bool {
    match p {
        ClientSpec::Hello { pubkey, .. } => pubkey.len() < 0x10000000000000000,
        ClientSpec::Response { text, .. } => text.len() < 0x10000000000000000,
        ClientSpec::Error { msg, .. } => match msg {
            Some(t) => vstd::utf8::encode_utf8(t).len() < 0x10000000000000000,
            None => true,
        },
        _ => true,
    }
}

/// Read an optional error code.
pub open spec fn dec_opt_code(s: Seq<u8>, i: int) -> Option<(Option<ErrorCode>, int)> {
    if 0 <= i < s.len() && s[i] == 0xf6 {
        Some((None, i + 1))
    } else {
        match dec_code(s, i) {
            Some((c, j)) => Some((Some(c), j)),
            None => None,
        }
    }
}

/// Read the fields of the client variant with the given index.
pub open spec fn dec_client_fields(idx: u64, s: Seq<u8>, j: int) -> Option<ClientSpec> {
    if idx == 4 {
        match dec_head(s, j) {
            Some((m, count, j2)) => if m == 5 && 1 <= count <= 3 {
                match dec_uint(s, j2) {
                    Some((k0, j3)) => if k0 == 0 {
                        match dec_uint(s, j3) {
                            Some((n, j4)) => dec_client_error_rest(
                                count,
                                s,
                                j4,
                                Id::spec_from(n),
                            ),
                            None => None,
                        }
                    } else {
                        None
                    },
                    None => None,
                }
            } else {
                None
            },
            None => None,
        }
    } else {
        match dec_head(s, j) {
            Some((m, arity, j2)) => if m != 4 {
                None
            } else if idx == 0 && arity == 2 {
                match dec_bytes(s, j2) {
                    Some((pk, j3)) => match dec_version(s, j3) {
                        Some((v, _)) => Some(
                            ClientSpec::Hello { pubkey: pk, agent_version: v },
                        ),
                        None => None,
                    },
                    None => None,
                }
            } else if idx == 1 && arity == 0 {
                Some(ClientSpec::Ping)
            } else if idx == 2 && arity == 1 {
                match dec_uint(s, j2) {
                    Some((n, _)) => Some(ClientSpec::Pong { re: Id::spec_from(n) }),
                    None => None,
                }
            } else if idx == 3 && arity == 2 {
                match dec_uint(s, j2) {
                    Some((n, j3)) => match dec_bytes(s, j3) {
                        Some((t, _)) => Some(
                            ClientSpec::Response { re: Id::spec_from(n), text: t },
                        ),
                        None => None,
                    },
                    None => None,
                }
            } else if idx == 5 && arity == 2 {
                match dec_uint(s, j2) {
                    Some((n, j3)) => match dec_opt_code(s, j3) {
                        Some((c, _)) => Some(ClientSpec::Test { re: Id::spec_from(n), code: c }),
                        None => None,
                    },
                    None => None,
                }
            } else if idx == 6 && arity == 1 {
                match dec_uint(s, j2) {
                    Some((n, _)) => Some(ClientSpec::SwitchingConnection { re: Id::spec_from(n) }),
                    None => None,
                }
            } else {
                None
            },
            None => None,
        }
    }
}

/// Read the optional entries of a client error map after the identifier.
pub open spec fn dec_client_error_rest(count: u64, s: Seq<u8>, j: int, re: Id) -> Option<
    ClientSpec,
> {
    if count == 1 {
        Some(ClientSpec::Error { re, code: None, msg: None })
    } else if count == 2 {
        match dec_uint(s, j) {
            Some((k, j2)) => if k == 1 {
                match dec_code(s, j2) {
                    Some((c, _)) => Some(ClientSpec::Error { re, code: Some(c), msg: None }),
                    None => None,
                }
            } else if k == 2 {
                match dec_text(s, j2) {
                    Some((t, _)) => Some(ClientSpec::Error { re, code: None, msg: Some(t) }),
                    None => None,
                }
            } else {
                None
            },
            None => None,
        }
    } else {
        match dec_uint(s, j) {
            Some((k, j2)) => if k == 1 {
                match dec_code(s, j2) {
                    Some((c, j3)) => match dec_uint(s, j3) {
                        Some((k2, j4)) => if k2 == 2 {
                            match dec_text(s, j4) {
                                Some((t, _)) => Some(
                                    ClientSpec::Error { re, code: Some(c), msg: Some(t) },
                                ),
                                None => None,
                            }
                        } else {
                            None
                        },
                        None => None,
                    },
                    None => None,
                }
            } else {
                None
            },
            None => None,
        }
    }
}

/// A whole client message.
pub open spec fn enc_client_msg(m: MessageSpec<ClientSpec>) -> Seq<u8> {
    enc_head(4, 2) + enc_uint(m.id.spec_numeric()) + (match m.data {
        Some(p) => enc_client_payload(p),
        None => enc_null(),
    })
}

/// Read a whole client message, tolerating unknown variant indexes.
pub open spec fn dec_client_msg(s: Seq<u8>) -> Option<MessageSpec<ClientSpec>> {
    match dec_head(s, 0) {
        Some((m, count, j)) => if m == 4 && count == 2 {
            match dec_uint(s, j) {
                Some((n, j2)) => if j2 < s.len() && s[j2] == 0xf6 {
                    Some(MessageSpec { id: Id::spec_from(n), data: None })
                } else {
                    match dec_head(s, j2) {
                        Some((m2, c2, j3)) => if (m2 == 4 && c2 == 2) {
                            match dec_uint(s, j3) {
                                Some((idx, j4)) => if idx <= 6 {
                                    match dec_client_fields(idx, s, j4) {
                                        Some(p) => Some(
                                            MessageSpec { id: Id::spec_from(n), data: Some(p) },
                                        ),
                                        None => None,
                                    }
                                } else {
                                    Some(MessageSpec { id: Id::spec_from(n), data: None })
                                },
                                None => None,
                            }
                        } else {
                            None
                        },
                        None => None,
                    }
                },
                None => None,
            }
        } else {
            None
        },
        None => None,
    }
}

/// A server message the codec can carry.
pub open spec fn wf_server_msg(m: MessageSpec<ServerSpec>) -> bool {
    match m.data {
        Some(p) => wf_server(p),
        None => true,
    }
}

/// A client message the codec can carry.
pub open spec fn wf_client_msg(m: MessageSpec<ClientSpec>) -> bool {
    match m.data {
        Some(p) => wf_client(p),
        None => true,
    }
}

/// Decoding an encoded server message yields it back.
#[verifier::rlimit(100)]
#[verifier::spinoff_prover]
pub proof fn lemma_server_msg_round(m: MessageSpec<ServerSpec>)
    ensures
        wf_server_msg(m) ==> dec_server_msg(enc_server_msg(m)) == Some(m),
{
    if !wf_server_msg(m) {
        return ;
    }
    let s = enc_server_msg(m);
    let h = enc_head(4, 2);
    let n = enc_uint(m.id.spec_numeric());
    let pl = match m.data {
        Some(p) => enc_server_payload(p),
        None => enc_null(),
    };
    assert(s.subrange(0, s.len() as int) =~= s);
    assert(s =~= h + (n + pl));
    lemma_split(s, 0, h, n + pl);
    lemma_split(s, h.len() as int, n, pl);
    lemma_head_round(s, 0, 4, 2);
    lemma_uint_round(s, h.len() as int, m.id.spec_numeric());
    Id::lemma_spec_from(m.id, 0);
    let j2: int = (h.len() + n.len()) as int;
    assert(s.subrange(j2, j2 + pl.len()) == pl);
    assert(s[j2] == pl[0]) by {
        assert(s.subrange(j2, j2 + pl.len())[0] == s[j2]);
    }
    match m.data {
        None => {
            assert(pl[0] == 0xf6);
        },
        Some(p) => {
            let h2 = enc_head(4, 2);
            let ix = enc_uint(server_index(p));
            let f = enc_server_fields(p);
            assert(pl =~= h2 + (ix + f));
            assert(pl[0] == h2[0]);
            assert(h2[0] == 130);
            lemma_split(s, j2, h2, ix + f);
            lemma_split(s, j2 + h2.len(), ix, f);
            lemma_head_round(s, j2, 4, 2);
            lemma_uint_round(s, j2 + h2.len(), server_index(p));
            let j4: int = j2 + h2.len() + ix.len();
            assert(s.subrange(j4, j4 + f.len()) == f);
            lemma_server_fields_round(s, j4, p);
        },
    }
}

/// Decoding encoded server fields yields them back.
#[verifier::rlimit(100)]
#[verifier::spinoff_prover]
proof fn lemma_server_fields_round(s: Seq<u8>, j: int, p: ServerSpec)
    requires
        wf_server(p),
        0 <= j,
        j + enc_server_fields(p).len() <= s.len(),
        s.subrange(j, j + enc_server_fields(p).len() as int) == enc_server_fields(p),
    ensures
        dec_server_fields(server_index(p), s, j) == Some(p),
{
    match p {
        ServerSpec::Ping => {
            lemma_head_round(s, j, 4, 0);
        },
        ServerSpec::Pong { re } => {
            let h = enc_head(4, 1);
            let e = enc_uint(re.spec_numeric());
            assert(enc_server_fields(p) =~= h + e);
            lemma_split(s, j, h, e);
            lemma_head_round(s, j, 4, 1);
            lemma_uint_round(s, j + h.len() as int, re.spec_numeric());
            Id::lemma_spec_from(re, 0);
        },
        ServerSpec::Challenge { text } => {
            let h = enc_head(4, 1);
            let e = enc_data32(text);
            assert(enc_server_fields(p) =~= h + e);
            lemma_split(s, j, h, e);
            lemma_head_round(s, j, 4, 1);
            lemma_data32_round(s, j + h.len() as int, text);
        },
        ServerSpec::Terminate { reason } => {
            let h = enc_head(4, 1);
            let e = enc_reason(reason);
            assert(enc_server_fields(p) =~= h + e);
            lemma_split(s, j, h, e);
            lemma_head_round(s, j, 4, 1);
            lemma_reason_round(s, j + h.len() as int, reason);
        },
        ServerSpec::Test { addr } => {
            let h = enc_head(4, 1);
            let e = enc_address(addr);
            assert(enc_server_fields(p) =~= h + e);
            lemma_split(s, j, h, e);
            lemma_head_round(s, j, 4, 1);
            lemma_address_round(s, j + h.len() as int, addr);
        },
        ServerSpec::SwitchToNewConnection => {
            lemma_head_round(s, j, 4, 0);
        },
        ServerSpec::Error { msg } => {
            let h = enc_head(4, 1);
            let e = enc_text(msg);
            assert(enc_server_fields(p) =~= h + e);
            lemma_split(s, j, h, e);
            lemma_head_round(s, j, 4, 1);
            lemma_text_round(s, j + h.len() as int, msg);
        },
        ServerSpec::Accepted => {
            lemma_head_round(s, j, 4, 0);
        },
    }
}

/// A frame that carries an unknown variant index decodes to a message
/// with no payload, whatever follows the index.
#[verifier::rlimit(100)]
#[verifier::spinoff_prover]
pub proof fn lemma_unknown_server_variant(s: Seq<u8>, n: u64, idx: u64)
    requires
        idx > 7,
        enc_head(4, 2).len() + enc_uint(n).len() + enc_head(4, 2).len() + enc_uint(idx).len()
            <= s.len(),
        s.subrange(
            0,
            (enc_head(4, 2).len() + enc_uint(n).len() + enc_head(4, 2).len() + enc_uint(
                idx,
            ).len()) as int,
        ) == enc_head(4, 2) + enc_uint(n) + enc_head(4, 2) + enc_uint(idx),
    ensures
        dec_server_msg(s) == Some(MessageSpec::<ServerSpec> { id: Id::spec_from(n), data: None }),
{
    let h = enc_head(4, 2);
    let e = enc_uint(n);
    let ix = enc_uint(idx);
    assert((h + e + h + ix) =~= h + (e + (h + ix)));
    lemma_split(s, 0, h, e + (h + ix));
    lemma_split(s, h.len() as int, e, h + ix);
    let j2: int = (h.len() + e.len()) as int;
    lemma_split(s, j2, h, ix);
    lemma_head_round(s, 0, 4, 2);
    lemma_uint_round(s, h.len() as int, n);
    assert(dec_head(s, 0) == Some((4u8, 2u64, h.len() as int)));
    assert(dec_uint(s, h.len() as int) == Some((n, j2)));
    assert(s[j2] == 130) by {
        assert(s.subrange(j2, j2 + h.len() as int)[0] == s[j2]);
        assert(h[0] == 130);
    }
    lemma_head_round(s, j2, 4, 2);
    lemma_uint_round(s, j2 + h.len(), idx);
    assert(dec_head(s, j2) == Some((4u8, 2u64, j2 + h.len())));
    assert(dec_uint(s, j2 + h.len()) == Some((idx, j2 + h.len() + ix.len())));
}

/// Decoding an encoded client message yields it back.
#[verifier::rlimit(100)]
#[verifier::spinoff_prover]
pub proof fn lemma_client_msg_round(m: MessageSpec<ClientSpec>)
    ensures
        wf_client_msg(m) ==> dec_client_msg(enc_client_msg(m)) == Some(m),
{
    if !wf_client_msg(m) {
        return ;
    }
    let s = enc_client_msg(m);
    let h = enc_head(4, 2);
    let n = enc_uint(m.id.spec_numeric());
    let pl = match m.data {
        Some(p) => enc_client_payload(p),
        None => enc_null(),
    };
    assert(s.subrange(0, s.len() as int) =~= s);
    assert(s =~= h + (n + pl));
    lemma_split(s, 0, h, n + pl);
    lemma_split(s, h.len() as int, n, pl);
    lemma_head_round(s, 0, 4, 2);
    lemma_uint_round(s, h.len() as int, m.id.spec_numeric());
    Id::lemma_spec_from(m.id, 0);
    let j2: int = (h.len() + n.len()) as int;
    assert(s.subrange(j2, j2 + pl.len()) == pl);
    assert(s[j2] == pl[0]) by {
        assert(s.subrange(j2, j2 + pl.len())[0] == s[j2]);
    }
    match m.data {
        None => {
            assert(pl[0] == 0xf6);
        },
        Some(p) => {
            let h2 = enc_head(4, 2);
            let ix = enc_uint(client_index(p));
            let f = enc_client_fields(p);
            assert(pl =~= h2 + (ix + f));
            assert(pl[0] == h2[0]);
            assert(h2[0] == 130);
            lemma_split(s, j2, h2, ix + f);
            lemma_split(s, j2 + h2.len(), ix, f);
            lemma_head_round(s, j2, 4, 2);
            lemma_uint_round(s, j2 + h2.len(), client_index(p));
            let j4: int = j2 + h2.len() + ix.len();
            assert(s.subrange(j4, j4 + f.len()) == f);
            lemma_client_fields_round(s, j4, p);
        },
    }
}

/// Decoding encoded client fields yields them back.
#[verifier::rlimit(100)]
#[verifier::spinoff_prover]
proof fn lemma_client_fields_round(s: Seq<u8>, j: int, p: ClientSpec)
    requires
        wf_client(p),
        0 <= j,
        j + enc_client_fields(p).len() <= s.len(),
        s.subrange(j, j + enc_client_fields(p).len() as int) == enc_client_fields(p),
    ensures
        dec_client_fields(client_index(p), s, j) == Some(p),
{
    match p {
        ClientSpec::Hello { pubkey, agent_version } => {
            let h = enc_head(4, 2);
            let a = enc_bytes(pubkey);
            let b = enc_version(agent_version);
            assert(enc_client_fields(p) =~= h + (a + b));
            lemma_split(s, j, h, a + b);
            lemma_split(s, j + h.len() as int, a, b);
            lemma_head_round(s, j, 4, 2);
            lemma_bytes_round(s, j + h.len() as int, pubkey);
            lemma_version_round(s, j + h.len() + a.len(), agent_version);
        },
        ClientSpec::Ping => {
            lemma_head_round(s, j, 4, 0);
        },
        ClientSpec::Pong { re } => {
            let h = enc_head(4, 1);
            let e = enc_uint(re.spec_numeric());
            assert(enc_client_fields(p) =~= h + e);
            lemma_split(s, j, h, e);
            lemma_head_round(s, j, 4, 1);
            lemma_uint_round(s, j + h.len() as int, re.spec_numeric());
            Id::lemma_spec_from(re, 0);
        },
        ClientSpec::Response { re, text } => {
            let h = enc_head(4, 2);
            let a = enc_uint(re.spec_numeric());
            let b = enc_bytes(text);
            assert(enc_client_fields(p) =~= h + (a + b));
            lemma_split(s, j, h, a + b);
            lemma_split(s, j + h.len() as int, a, b);
            lemma_head_round(s, j, 4, 2);
            lemma_uint_round(s, j + h.len() as int, re.spec_numeric());
            lemma_bytes_round(s, j + h.len() + a.len(), text);
            Id::lemma_spec_from(re, 0);
        },
        ClientSpec::Error { re, code, msg } => {
            lemma_client_error_round(s, j, re, code, msg);
        },
        ClientSpec::Test { re, code } => {
            let h = enc_head(4, 2);
            let a = enc_uint(re.spec_numeric());
            let b = enc_opt_code(code);
            assert(enc_client_fields(p) =~= h + (a + b));
            lemma_split(s, j, h, a + b);
            lemma_split(s, j + h.len() as int, a, b);
            lemma_head_round(s, j, 4, 2);
            lemma_uint_round(s, j + h.len() as int, re.spec_numeric());
            Id::lemma_spec_from(re, 0);
            let jb = j + h.len() + a.len();
            assert(s[jb] == b[0]) by {
                assert(s.subrange(jb, jb + b.len())[0] == s[jb]);
            }
            match code {
                None => {
                    assert(b[0] == 0xf6);
                },
                Some(c) => {
                    assert(b[0] == enc_code(c)[0]);
                    assert(enc_code(c)[0] == code_index(c) as u8);
                    lemma_code_round(s, jb, c);
                },
            }
        },
        ClientSpec::SwitchingConnection { re } => {
            let h = enc_head(4, 1);
            let e = enc_uint(re.spec_numeric());
            assert(enc_client_fields(p) =~= h + e);
            lemma_split(s, j, h, e);
            lemma_head_round(s, j, 4, 1);
            lemma_uint_round(s, j + h.len() as int, re.spec_numeric());
            Id::lemma_spec_from(re, 0);
        },
    }
}

/// Decoding an encoded client error map yields its fields back.
#[verifier::rlimit(100)]
#[verifier::spinoff_prover]
proof fn lemma_client_error_round(s: Seq<u8>, j: int, re: Id, code: Option<ErrorCode>, msg: Option<
    Seq<char>,
>)
    requires
        wf_client(ClientSpec::Error { re, code, msg }),
        0 <= j,
        j + enc_client_fields(ClientSpec::Error { re, code, msg }).len() <= s.len(),
        s.subrange(
            j,
            j + enc_client_fields(ClientSpec::Error { re, code, msg }).len() as int,
        ) == enc_client_fields(ClientSpec::Error { re, code, msg }),
    ensures
        dec_client_fields(4, s, j) == Some(ClientSpec::Error { re, code, msg }),
{
    let cnt = client_error_count(code, msg);
    let h = enc_head(5, cnt);
    let k0 = enc_uint(0);
    let e0 = enc_uint(re.spec_numeric());
    let ec = match code {
        Some(c) => enc_uint(1) + enc_code(c),
        None => Seq::<u8>::empty(),
    };
    let em = match msg {
        Some(t) => enc_uint(2) + enc_text(t),
        None => Seq::<u8>::empty(),
    };
    let f = enc_client_fields(ClientSpec::Error { re, code, msg });
    assert(f =~= h + (k0 + (e0 + (ec + em))));
    lemma_split(s, j, h, k0 + (e0 + (ec + em)));
    lemma_split(s, j + h.len() as int, k0, e0 + (ec + em));
    lemma_split(s, j + h.len() + k0.len(), e0, ec + em);
    lemma_split(s, j + h.len() + k0.len() + e0.len(), ec, em);
    lemma_head_round(s, j, 5, cnt);
    lemma_uint_round(s, j + h.len() as int, 0);
    lemma_uint_round(s, j + h.len() + k0.len(), re.spec_numeric());
    Id::lemma_spec_from(re, 0);
    assert(dec_head(s, j) == Some((5u8, cnt, j + h.len() as int)));
    assert(dec_uint(s, j + h.len() as int) == Some((0u64, j + h.len() + k0.len())));
    let jr = j + h.len() + k0.len() + e0.len();
    assert(dec_uint(s, j + h.len() + k0.len()) == Some((re.spec_numeric(), jr)));
    assert(s.subrange(jr, jr + ec.len()) == ec);
    assert(s.subrange(jr + ec.len(), jr + ec.len() + em.len()) == em);
    lemma_client_error_tail(s, jr, re, code, msg, cnt);
}

/// The optional entries after the identifier decode to the fields.
#[verifier::rlimit(100)]
#[verifier::spinoff_prover]
proof fn lemma_client_error_tail(
    s: Seq<u8>,
    jr: int,
    re: Id,
    code: Option<ErrorCode>,
    msg: Option<Seq<char>>,
    cnt: u64,
)
    requires
        wf_client(ClientSpec::Error { re, code, msg }),
        0 <= jr,
        cnt == client_error_count(code, msg),
        jr + (match code {
            Some(c) => enc_uint(1) + enc_code(c),
            None => Seq::<u8>::empty(),
        }).len() + (match msg {
            Some(t) => enc_uint(2) + enc_text(t),
            None => Seq::<u8>::empty(),
        }).len() <= s.len(),
        s.subrange(jr, jr + (match code {
            Some(c) => enc_uint(1) + enc_code(c),
            None => Seq::<u8>::empty(),
        }).len() as int) == (match code {
            Some(c) => enc_uint(1) + enc_code(c),
            None => Seq::<u8>::empty(),
        }),
        s.subrange(jr + (match code {
            Some(c) => enc_uint(1) + enc_code(c),
            None => Seq::<u8>::empty(),
        }).len() as int, jr + (match code {
            Some(c) => enc_uint(1) + enc_code(c),
            None => Seq::<u8>::empty(),
        }).len() + (match msg {
            Some(t) => enc_uint(2) + enc_text(t),
            None => Seq::<u8>::empty(),
        }).len()) == (match msg {
            Some(t) => enc_uint(2) + enc_text(t),
            None => Seq::<u8>::empty(),
        }),
    ensures
        dec_client_error_rest(cnt, s, jr, re) == Some(ClientSpec::Error { re, code, msg }),
{
    let ec = match code {
        Some(c) => enc_uint(1) + enc_code(c),
        None => Seq::<u8>::empty(),
    };
    let em = match msg {
        Some(t) => enc_uint(2) + enc_text(t),
        None => Seq::<u8>::empty(),
    };
    match code {
        Some(c) => {
            let kk = enc_uint(1);
            assert(ec =~= kk + enc_code(c));
            lemma_split(s, jr, kk, enc_code(c));
            lemma_uint_round(s, jr, 1);
            lemma_code_round(s, jr + kk.len() as int, c);
            let jm: int = jr + ec.len();
            match msg {
                Some(t) => {
                    let km = enc_uint(2);
                    assert(em =~= km + enc_text(t));
                    lemma_split(s, jm, km, enc_text(t));
                    lemma_uint_round(s, jm, 2);
                    lemma_text_round(s, jm + km.len(), t);
                    assert(cnt == 3);
                },
                None => {
                    assert(cnt == 2);
                },
            }
        },
        None => {
            match msg {
                Some(t) => {
                    let km = enc_uint(2);
                    assert(em =~= km + enc_text(t));
                    assert(s.subrange(jr, jr + em.len()) == em) by {
                        assert(ec.len() == 0);
                        assert(s.subrange(jr + ec.len() as int, jr + ec.len() + em.len())
                            =~= s.subrange(jr, jr + em.len()));
                    }
                    lemma_split(s, jr, km, enc_text(t));
                    lemma_uint_round(s, jr, 2);
                    lemma_text_round(s, jr + km.len() as int, t);
                    assert(cnt == 2);
                },
                None => {
                    assert(cnt == 1);
                },
            }
        },
    }
}

/// Append a server message.
pub fn write_server_msg(m: &Message<Server>) -> (out: Vec<u8>)
    ensures
        out@ == enc_server_msg(m@),
{
    let mut out: Vec<u8> = Vec::new();
    write_head(&mut out, 4, 2);
    write_uint(&mut out, m.id.numeric());
    proof {
        Id::lemma_spec_from(m.id, 0);
    }
    match &m.data {
        None => {
            write_null(&mut out);
            proof {
                assert(out@ =~= enc_server_msg(m@));
            }
        },
        Some(p) => {
            write_head(&mut out, 4, 2);
            match p {
                Server::Ping => {
                    write_uint(&mut out, 0);
                    write_head(&mut out, 4, 0);
                },
                Server::Pong { re } => {
                    write_uint(&mut out, 1);
                    write_head(&mut out, 4, 1);
                    write_uint(&mut out, re.numeric());
                },
                Server::Challenge { text } => {
                    write_uint(&mut out, 2);
                    write_head(&mut out, 4, 1);
                    write_data32(&mut out, &text.0);
                },
                Server::Terminate { reason } => {
                    write_uint(&mut out, 3);
                    write_head(&mut out, 4, 1);
                    write_reason(&mut out, reason);
                },
                Server::Test { addr } => {
                    write_uint(&mut out, 4);
                    write_head(&mut out, 4, 1);
                    write_address(&mut out, addr);
                },
                Server::SwitchToNewConnection => {
                    write_uint(&mut out, 5);
                    write_head(&mut out, 4, 0);
                },
                Server::Error { msg } => {
                    write_uint(&mut out, 6);
                    write_head(&mut out, 4, 1);
                    write_text(&mut out, msg.as_str());
                },
                Server::Accepted => {
                    write_uint(&mut out, 7);
                    write_head(&mut out, 4, 0);
                },
            }
            proof {
                assert(out@ =~= enc_server_msg(m@));
            }
        },
    }
    out
}

/// Read a server message from one frame's payload.
pub fn read_server_msg(s: &[u8]) -> (r: Option<Message<Server>>)
    ensures
        match r {
            Some(m) => dec_server_msg(s@) matches Some(ms) && ms == m@,
            None => dec_server_msg(s@) is None,
        },
{
    let j = match read_head(s, 0) {
        Some((m, count, j)) => {
            if m != 4 || count != 2 {
                return None;
            }
            j
        },
        None => {
            return None;
        },
    };
    let (n, j2) = match read_uint(s, j) {
        Some(p) => p,
        None => {
            return None;
        },
    };
    let id = Id::from_u64(n);
    if j2 < s.len() && s[j2] == 0xf6 {
        return Some(Message { id, data: None });
    }
    let j3 = match read_head(s, j2) {
        Some((m2, c2, j3)) => {
            if m2 != 4 || c2 != 2 {
                return None;
            }
            j3
        },
        None => {
            return None;
        },
    };
    let (idx, j4) = match read_uint(s, j3) {
        Some(p) => p,
        None => {
            return None;
        },
    };
    if idx > 7 {
        return Some(Message { id, data: None });
    }
    let (m2, arity, j5) = match read_head(s, j4) {
        Some(t) => t,
        None => {
            return None;
        },
    };
    if m2 != 4 {
        return None;
    }
    if idx == 0 && arity == 0 {
        Some(Message { id, data: Some(Server::Ping) })
    } else if idx == 1 && arity == 1 {
        match read_uint(s, j5) {
            Some((v, _)) => Some(Message { id, data: Some(Server::Pong { re: Id::from_u64(v) }) }),
            None => None,
        }
    } else if idx == 2 && arity == 1 {
        match read_data32(s, j5) {
            Some((d, _)) => Some(
                Message { id, data: Some(Server::Challenge { text: CipherText(d) }) },
            ),
            None => None,
        }
    } else if idx == 3 && arity == 1 {
        match read_reason(s, j5) {
            Some((v, _)) => Some(Message { id, data: Some(Server::Terminate { reason: v }) }),
            None => None,
        }
    } else if idx == 4 && arity == 1 {
        match read_address(s, j5) {
            Some((a, _)) => Some(Message { id, data: Some(Server::Test { addr: a }) }),
            None => None,
        }
    } else if idx == 5 && arity == 0 {
        Some(Message { id, data: Some(Server::SwitchToNewConnection) })
    } else if idx == 6 && arity == 1 {
        match read_text(s, j5) {
            Some((t, _)) => Some(Message { id, data: Some(Server::Error { msg: t }) }),
            None => None,
        }
    } else if idx == 7 && arity == 0 {
        Some(Message { id, data: Some(Server::Accepted) })
    } else {
        None
    }
}

/// Append the payload of a client message.
#[verifier::rlimit(100)]
#[verifier::spinoff_prover]
fn write_client_payload(out: &mut Vec<u8>, p: &Client)
    ensures
        final(out)@ == old(out)@ + enc_client_payload(p@),
{
    write_head(out, 4, 2);
    match p {
        Client::Hello { pubkey, agent_version } => {
            write_uint(out, 0);
            write_head(out, 4, 2);
            write_bytes(out, pubkey.as_slice());
            write_version(out, agent_version);
        },
        Client::Ping => {
            write_uint(out, 1);
            write_head(out, 4, 0);
        },
        Client::Pong { re } => {
            write_uint(out, 2);
            write_head(out, 4, 1);
            write_uint(out, re.numeric());
        },
        Client::Response { re, text } => {
            write_uint(out, 3);
            write_head(out, 4, 2);
            write_uint(out, re.numeric());
            write_bytes(out, text.as_slice());
        },
        Client::Error { re, code, msg } => {
            write_uint(out, 4);
            let cnt: u64 = 1 + (if code.is_some() {
                1u64
            } else {
                0u64
            }) + (if msg.is_some() {
                1u64
            } else {
                0u64
            });
            write_head(out, 5, cnt);
            write_uint(out, 0);
            write_uint(out, re.numeric());
            match code {
                Some(c) => {
                    write_uint(out, 1);
                    write_code(out, c);
                },
                None => {},
            }
            match msg {
                Some(t) => {
                    write_uint(out, 2);
                    write_text(out, t.as_str());
                },
                None => {},
            }
        },
        Client::Test { re, code } => {
            write_uint(out, 5);
            write_head(out, 4, 2);
            write_uint(out, re.numeric());
            match code {
                Some(c) => write_code(out, c),
                None => write_null(out),
            }
        },
        Client::SwitchingConnection { re } => {
            write_uint(out, 6);
            write_head(out, 4, 1);
            write_uint(out, re.numeric());
        },
    }
    proof {
        Id::lemma_spec_from(Id::spec_from(0), 0);
        assert(final(out)@ =~= old(out)@ + enc_client_payload(p@));
    }
}

/// Append a client message.
pub fn write_client_msg(m: &Message<Client>) -> (out: Vec<u8>)
    ensures
        out@ == enc_client_msg(m@),
{
    let mut out: Vec<u8> = Vec::new();
    write_head(&mut out, 4, 2);
    write_uint(&mut out, m.id.numeric());
    proof {
        Id::lemma_spec_from(m.id, 0);
    }
    match &m.data {
        None => {
            write_null(&mut out);
        },
        Some(p) => {
            write_client_payload(&mut out, p);
        },
    }
    proof {
        assert(out@ =~= enc_client_msg(m@));
    }
    out
}

/// Read the error-map fields of a client message.
#[verifier::rlimit(100)]
#[verifier::spinoff_prover]
fn read_client_error(s: &[u8], j4: usize) -> (r: Option<Client>)
    ensures
        match r {
            Some(p) => dec_client_fields(4, s@, j4 as int) matches Some(ps) && ps == p@,
            None => dec_client_fields(4, s@, j4 as int) is None,
        },
{
    let (cnt, j5) = match read_head(s, j4) {
        Some((m2, cnt, j5)) => {
            if m2 != 5 || cnt < 1 || cnt > 3 {
                return None;
            }
            (cnt, j5)
        },
        None => {
            return None;
        },
    };
    let j6 = match read_uint(s, j5) {
        Some((k0, j6)) => {
            if k0 != 0 {
                return None;
            }
            j6
        },
        None => {
            return None;
        },
    };
    let (rn, j7) = match read_uint(s, j6) {
        Some(p) => p,
        None => {
            return None;
        },
    };
    let re = Id::from_u64(rn);
    if cnt == 1 {
        return Some(Client::Error { re, code: None, msg: None });
    }
    if cnt == 2 {
        let (k, j8) = match read_uint(s, j7) {
            Some(p) => p,
            None => {
                return None;
            },
        };
        if k == 1 {
            return match read_code(s, j8) {
                Some((c, _)) => Some(Client::Error { re, code: Some(c), msg: None }),
                None => None,
            };
        }
        if k == 2 {
            return match read_text(s, j8) {
                Some((t, _)) => Some(Client::Error { re, code: None, msg: Some(t) }),
                None => None,
            };
        }
        return None;
    }
    let (k, j8) = match read_uint(s, j7) {
        Some(p) => p,
        None => {
            return None;
        },
    };
    if k != 1 {
        return None;
    }
    let (c, j9) = match read_code(s, j8) {
        Some(p) => p,
        None => {
            return None;
        },
    };
    let j10 = match read_uint(s, j9) {
        Some((k2, j10)) => {
            if k2 != 2 {
                return None;
            }
            j10
        },
        None => {
            return None;
        },
    };
    match read_text(s, j10) {
        Some((t, _)) => Some(Client::Error { re, code: Some(c), msg: Some(t) }),
        None => None,
    }
}

/// Read the array-shaped fields of a client message.
#[verifier::rlimit(100)]
#[verifier::spinoff_prover]
fn read_client_array_fields(s: &[u8], idx: u64, j4: usize) -> (r: Option<Client>)
    requires
        idx <= 6,
        idx != 4,
    ensures
        match r {
            Some(p) => dec_client_fields(idx, s@, j4 as int) matches Some(ps) && ps == p@,
            None => dec_client_fields(idx, s@, j4 as int) is None,
        },
{
    let (m2, arity, j5) = match read_head(s, j4) {
        Some(t) => t,
        None => {
            return None;
        },
    };
    if m2 != 4 {
        return None;
    }
    if idx == 0 && arity == 2 {
        let (pk, j6) = match read_bytes(s, j5) {
            Some(p) => p,
            None => {
                return None;
            },
        };
        match read_version(s, j6) {
            Some((v, _)) => Some(Client::Hello { pubkey: pk, agent_version: v }),
            None => None,
        }
    } else if idx == 1 && arity == 0 {
        Some(Client::Ping)
    } else if idx == 2 && arity == 1 {
        match read_uint(s, j5) {
            Some((v, _)) => Some(Client::Pong { re: Id::from_u64(v) }),
            None => None,
        }
    } else if idx == 3 && arity == 2 {
        let (rn, j6) = match read_uint(s, j5) {
            Some(p) => p,
            None => {
                return None;
            },
        };
        match read_bytes(s, j6) {
            Some((t, _)) => Some(Client::Response { re: Id::from_u64(rn), text: t }),
            None => None,
        }
    } else if idx == 5 && arity == 2 {
        let (rn, j6) = match read_uint(s, j5) {
            Some(p) => p,
            None => {
                return None;
            },
        };
        let code = if j6 < s.len() && s[j6] == 0xf6 {
            None
        } else {
            match read_code(s, j6) {
                Some((c, _)) => Some(c),
                None => {
                    return None;
                },
            }
        };
        Some(Client::Test { re: Id::from_u64(rn), code })
    } else if idx == 6 && arity == 1 {
        match read_uint(s, j5) {
            Some((v, _)) => Some(Client::SwitchingConnection { re: Id::from_u64(v) }),
            None => None,
        }
    } else {
        None
    }
}

/// Read a client message from one frame's payload.
pub fn read_client_msg(s: &[u8]) -> (r: Option<Message<Client>>)
    ensures
        match r {
            Some(m) => dec_client_msg(s@) matches Some(ms) && ms == m@,
            None => dec_client_msg(s@) is None,
        },
{
    let j = match read_head(s, 0) {
        Some((m, count, j)) => {
            if m != 4 || count != 2 {
                return None;
            }
            j
        },
        None => {
            return None;
        },
    };
    let (n, j2) = match read_uint(s, j) {
        Some(p) => p,
        None => {
            return None;
        },
    };
    let id = Id::from_u64(n);
    if j2 < s.len() && s[j2] == 0xf6 {
        return Some(Message { id, data: None });
    }
    let j3 = match read_head(s, j2) {
        Some((m2, c2, j3)) => {
            if m2 != 4 || c2 != 2 {
                return None;
            }
            j3
        },
        None => {
            return None;
        },
    };
    let (idx, j4) = match read_uint(s, j3) {
        Some(p) => p,
        None => {
            return None;
        },
    };
    if idx > 6 {
        return Some(Message { id, data: None });
    }
    let p = if idx == 4 {
        read_client_error(s, j4)
    } else {
        read_client_array_fields(s, idx, j4)
    };
    match p {
        Some(p) => Some(Message { id, data: Some(p) }),
        None => None,
    }
}

/// Read a boolean data item.
pub open spec fn dec_bool(s: Seq<u8>, i: int) -> Option<(bool, int)> {
    if 0 <= i < s.len() && s[i] == 0xf4 {
        Some((false, i + 1))
    } else if 0 <= i < s.len() && s[i] == 0xf5 {
        Some((true, i + 1))
    } else {
        None
    }
}

/// A connect request: a map with the address and, optionally, whether to
/// use half-close semantics.
pub open spec fn enc_connect(c: ConnectSpec) -> Seq<u8> {
    match c.use_half_close {
        Some(b) => enc_head(5, 2) + enc_uint(0) + enc_address(c.addr) + (enc_uint(1) + enc_bool(
            b,
        )),
        None => enc_head(5, 1) + enc_uint(0) + enc_address(c.addr),
    }
}

/// Read a connect request.
pub open spec fn dec_connect(s: Seq<u8>, i: int) -> Option<(ConnectSpec, int)> {
    match dec_head(s, i) {
        Some((m, cnt, j)) => if m == 5 && 1 <= cnt <= 2 {
            match dec_uint(s, j) {
                Some((k0, j2)) => if k0 == 0 {
                    match dec_address(s, j2) {
                        Some((a, j3)) => if cnt == 1 {
                            Some((ConnectSpec { addr: a, use_half_close: None }, j3))
                        } else {
                            match dec_uint(s, j3) {
                                Some((k1, j4)) => if k1 == 1 {
                                    match dec_bool(s, j4) {
                                        Some((b, j5)) => Some(
                                            (ConnectSpec { addr: a, use_half_close: Some(b) }, j5),
                                        ),
                                        None => None,
                                    }
                                } else {
                                    None
                                },
                                None => None,
                            }
                        },
                        None => None,
                    }
                } else {
                    None
                },
                None => None,
            }
        } else {
            None
        },
        None => None,
    }
}

/// A whole connect message.
pub open spec fn enc_connect_msg(m: MessageSpec<ConnectSpec>) -> Seq<u8> {
    enc_head(4, 2) + enc_uint(m.id.spec_numeric()) + (match m.data {
        Some(c) => enc_connect(c),
        None => enc_null(),
    })
}

/// Read a whole connect message.
pub open spec fn dec_connect_msg(s: Seq<u8>) -> Option<MessageSpec<ConnectSpec>> {
    match dec_head(s, 0) {
        Some((m, count, j)) => if m == 4 && count == 2 {
            match dec_uint(s, j) {
                Some((n, j2)) => if j2 < s.len() && s[j2] == 0xf6 {
                    Some(MessageSpec { id: Id::spec_from(n), data: None })
                } else {
                    match dec_connect(s, j2) {
                        Some((c, _)) => Some(
                            MessageSpec { id: Id::spec_from(n), data: Some(c) },
                        ),
                        None => None,
                    }
                },
                None => None,
            }
        } else {
            None
        },
        None => None,
    }
}

/// Decoding an encoded connect request without the half-close entry.
#[verifier::rlimit(100)]
#[verifier::spinoff_prover]
proof fn lemma_connect_round_plain(s: Seq<u8>, j2: int, c: ConnectSpec)
    requires
        wf_address(c.addr),
        c.use_half_close is None,
        0 <= j2,
        j2 + enc_connect(c).len() <= s.len(),
        s.subrange(j2, j2 + enc_connect(c).len() as int) == enc_connect(c),
    ensures
        dec_connect(s, j2) == Some((c, j2 + enc_connect(c).len() as int)),
{
    let hm = enc_head(5, 1);
    let k0 = enc_uint(0);
    let ea = enc_address(c.addr);
    assert(enc_connect(c) =~= hm + (k0 + ea));
    lemma_split(s, j2, hm, k0 + ea);
    lemma_split(s, j2 + hm.len(), k0, ea);
    lemma_head_round(s, j2, 5, 1);
    lemma_uint_round(s, j2 + hm.len(), 0);
    lemma_address_round(s, j2 + hm.len() + k0.len(), c.addr);
    assert(dec_head(s, j2) == Some((5u8, 1u64, j2 + hm.len())));
    assert(dec_uint(s, j2 + hm.len()) == Some((0u64, j2 + hm.len() + k0.len())));
}

/// Decoding an encoded connect request with the half-close entry.
#[verifier::rlimit(100)]
#[verifier::spinoff_prover]
proof fn lemma_connect_round_hc(s: Seq<u8>, j2: int, c: ConnectSpec, b: bool)
    requires
        wf_address(c.addr),
        c.use_half_close == Some(b),
        0 <= j2,
        j2 + enc_connect(c).len() <= s.len(),
        s.subrange(j2, j2 + enc_connect(c).len() as int) == enc_connect(c),
    ensures
        dec_connect(s, j2) == Some((c, j2 + enc_connect(c).len() as int)),
{
    let hm = enc_head(5, 2);
    let k0 = enc_uint(0);
    let ea = enc_address(c.addr);
    let k1 = enc_uint(1);
    let eb = enc_bool(b);
    assert(enc_connect(c) =~= hm + (k0 + (ea + (k1 + eb))));
    lemma_split(s, j2, hm, k0 + (ea + (k1 + eb)));
    lemma_split(s, j2 + hm.len(), k0, ea + (k1 + eb));
    lemma_split(s, j2 + hm.len() + k0.len(), ea, k1 + eb);
    lemma_split(s, j2 + hm.len() + k0.len() + ea.len(), k1, eb);
    lemma_head_round(s, j2, 5, 2);
    lemma_uint_round(s, j2 + hm.len(), 0);
    lemma_address_round(s, j2 + hm.len() + k0.len(), c.addr);
    assert(dec_head(s, j2) == Some((5u8, 2u64, j2 + hm.len())));
    assert(dec_uint(s, j2 + hm.len()) == Some((0u64, j2 + hm.len() + k0.len())));
    let jb: int = j2 + hm.len() + k0.len() + ea.len();
    lemma_uint_round(s, jb, 1);
    assert(dec_uint(s, jb) == Some((1u64, jb + k1.len())));
    assert(s[jb + k1.len()] == eb[0]) by {
        assert(s.subrange(jb + k1.len(), jb + k1.len() + eb.len())[0] == s[jb + k1.len()]);
    }
}

/// Decoding an encoded connect message yields it back.
#[verifier::rlimit(100)]
#[verifier::spinoff_prover]
pub proof fn lemma_connect_msg_round(m: MessageSpec<ConnectSpec>)
    ensures
        (match m.data {
            Some(c) => wf_address(c.addr),
            None => true,
        }) ==> dec_connect_msg(enc_connect_msg(m)) == Some(m),
{
    let ok = match m.data {
        Some(c) => wf_address(c.addr),
        None => true,
    };
    if !ok {
        return ;
    }
    let s = enc_connect_msg(m);
    let h = enc_head(4, 2);
    let n = enc_uint(m.id.spec_numeric());
    let pl = match m.data {
        Some(c) => enc_connect(c),
        None => enc_null(),
    };
    assert(s.subrange(0, s.len() as int) =~= s);
    assert(s =~= h + (n + pl));
    lemma_split(s, 0, h, n + pl);
    lemma_split(s, h.len() as int, n, pl);
    lemma_head_round(s, 0, 4, 2);
    lemma_uint_round(s, h.len() as int, m.id.spec_numeric());
    Id::lemma_spec_from(m.id, 0);
    let j2: int = (h.len() + n.len()) as int;
    assert(s.subrange(j2, j2 + pl.len()) == pl);
    assert(s[j2] == pl[0]) by {
        assert(s.subrange(j2, j2 + pl.len())[0] == s[j2]);
    }
    match m.data {
        None => {
            assert(pl[0] == 0xf6);
        },
        Some(c) => {
            match c.use_half_close {
                None => {
                    assert(pl[0] == enc_head(5, 1)[0] && enc_head(5, 1)[0] == 161) by {
                        assert(pl =~= enc_head(5, 1) + (enc_uint(0) + enc_address(c.addr)));
                    }
                },
                Some(b) => {
                    assert(pl[0] == enc_head(5, 2)[0] && enc_head(5, 2)[0] == 162) by {
                        assert(pl =~= enc_head(5, 2) + (enc_uint(0) + (enc_address(c.addr) + (
                        enc_uint(1) + enc_bool(b)))));
                    }
                },
            }
            match c.use_half_close {
                None => lemma_connect_round_plain(s, j2, c),
                Some(b) => lemma_connect_round_hc(s, j2, c, b),
            }
        },
    }
}

/// Append a connect message.
pub fn write_connect_msg(m: &Message<Connect>) -> (out: Vec<u8>)
    ensures
        out@ == enc_connect_msg(m@),
{
    let mut out: Vec<u8> = Vec::new();
    write_head(&mut out, 4, 2);
    write_uint(&mut out, m.id.numeric());
    proof {
        Id::lemma_spec_from(m.id, 0);
    }
    match &m.data {
        None => {
            write_null(&mut out);
        },
        Some(c) => {
            match &c.use_half_close {
                None => {
                    write_head(&mut out, 5, 1);
                    write_uint(&mut out, 0);
                    write_address(&mut out, &c.addr);
                },
                Some(b) => {
                    write_head(&mut out, 5, 2);
                    write_uint(&mut out, 0);
                    write_address(&mut out, &c.addr);
                    write_uint(&mut out, 1);
                    write_bool(&mut out, *b);
                },
            }
        },
    }
    proof {
        assert(out@ =~= enc_connect_msg(m@));
    }
    out
}

/// Read a connect message from one frame's payload.
pub fn read_connect_msg(s: &[u8]) -> (r: Option<Message<Connect>>)
    ensures
        match r {
            Some(m) => dec_connect_msg(s@) matches Some(ms) && ms == m@,
            None => dec_connect_msg(s@) is None,
        },
{
    let j = match read_head(s, 0) {
        Some((m, count, j)) => {
            if m != 4 || count != 2 {
                return None;
            }
            j
        },
        None => {
            return None;
        },
    };
    let (n, j2) = match read_uint(s, j) {
        Some(p) => p,
        None => {
            return None;
        },
    };
    let id = Id::from_u64(n);
    if j2 < s.len() && s[j2] == 0xf6 {
        return Some(Message { id, data: None });
    }
    let (cnt, j3) = match read_head(s, j2) {
        Some((m2, cnt, j3)) => {
            if m2 != 5 || cnt < 1 || cnt > 2 {
                return None;
            }
            (cnt, j3)
        },
        None => {
            return None;
        },
    };
    let j4 = match read_uint(s, j3) {
        Some((k0, j4)) => {
            if k0 != 0 {
                return None;
            }
            j4
        },
        None => {
            return None;
        },
    };
    let (a, j5) = match read_address(s, j4) {
        Some(p) => p,
        None => {
            return None;
        },
    };
    if cnt == 1 {
        return Some(Message { id, data: Some(Connect { addr: a, use_half_close: None }) });
    }
    let j6 = match read_uint(s, j5) {
        Some((k1, j6)) => {
            if k1 != 1 {
                return None;
            }
            j6
        },
        None => {
            return None;
        },
    };
    if j6 < s.len() && s[j6] == 0xf4 {
        Some(Message { id, data: Some(Connect { addr: a, use_half_close: Some(false) }) })
    } else if j6 < s.len() && s[j6] == 0xf5 {
        Some(Message { id, data: Some(Connect { addr: a, use_half_close: Some(true) }) })
    } else {
        None
    }
}

/// A connect reply: success carries an empty unit, failure an error code.
pub open spec fn enc_reply(r: ConnectReply) -> Seq<u8> {
    match r {
        ConnectReply::Success => enc_head(4, 2) + enc_uint(0) + enc_head(4, 0),
        ConnectReply::Failure(c) => enc_head(4, 2) + enc_uint(1) + enc_code(c),
    }
}

/// Read a connect reply.
pub open spec fn dec_reply(s: Seq<u8>, i: int) -> Option<(ConnectReply, int)> {
    match dec_head(s, i) {
        Some((m, count, j)) => if m == 4 && count == 2 {
            match dec_uint(s, j) {
                Some((tag, j2)) => if tag == 0 {
                    match dec_head(s, j2) {
                        Some((m2, c2, j3)) => if m2 == 4 && c2 == 0 {
                            Some((ConnectReply::Success, j3))
                        } else {
                            None
                        },
                        None => None,
                    }
                } else if tag == 1 {
                    match dec_code(s, j2) {
                        Some((c, j3)) => Some((ConnectReply::Failure(c), j3)),
                        None => None,
                    }
                } else {
                    None
                },
                None => None,
            }
        } else {
            None
        },
        None => None,
    }
}

/// A whole connect reply message.
pub open spec fn enc_reply_msg(m: MessageSpec<ConnectReply>) -> Seq<u8> {
    enc_head(4, 2) + enc_uint(m.id.spec_numeric()) + (match m.data {
        Some(r) => enc_reply(r),
        None => enc_null(),
    })
}

/// Read a whole connect reply message.
pub open spec fn dec_reply_msg(s: Seq<u8>) -> Option<MessageSpec<ConnectReply>> {
    match dec_head(s, 0) {
        Some((m, count, j)) => if m == 4 && count == 2 {
            match dec_uint(s, j) {
                Some((n, j2)) => if j2 < s.len() && s[j2] == 0xf6 {
                    Some(MessageSpec { id: Id::spec_from(n), data: None })
                } else {
                    match dec_reply(s, j2) {
                        Some((r, _)) => Some(MessageSpec { id: Id::spec_from(n), data: Some(r) }),
                        None => None,
                    }
                },
                None => None,
            }
        } else {
            None
        },
        None => None,
    }
}

/// Decoding an encoded connect reply message yields it back.
#[verifier::rlimit(100)]
#[verifier::spinoff_prover]
pub proof fn lemma_reply_msg_round(m: MessageSpec<ConnectReply>)
    ensures
        dec_reply_msg(enc_reply_msg(m)) == Some(m),
{
    let s = enc_reply_msg(m);
    let h = enc_head(4, 2);
    let n = enc_uint(m.id.spec_numeric());
    let pl = match m.data {
        Some(r) => enc_reply(r),
        None => enc_null(),
    };
    assert(s.subrange(0, s.len() as int) =~= s);
    assert(s =~= h + (n + pl));
    lemma_split(s, 0, h, n + pl);
    lemma_split(s, h.len() as int, n, pl);
    lemma_head_round(s, 0, 4, 2);
    lemma_uint_round(s, h.len() as int, m.id.spec_numeric());
    Id::lemma_spec_from(m.id, 0);
    let j2: int = (h.len() + n.len()) as int;
    assert(s.subrange(j2, j2 + pl.len()) == pl);
    assert(s[j2] == pl[0]) by {
        assert(s.subrange(j2, j2 + pl.len())[0] == s[j2]);
    }
    match m.data {
        None => {
            assert(pl[0] == 0xf6);
        },
        Some(r) => {
            match r {
                ConnectReply::Success => {
                    let t = enc_uint(0);
                    let z = enc_head(4, 0);
                    assert(pl =~= h + (t + z));
                    assert(pl[0] == h[0] && h[0] == 130);
                    lemma_split(s, j2, h, t + z);
                    lemma_split(s, j2 + h.len(), t, z);
                    lemma_head_round(s, j2, 4, 2);
                    lemma_uint_round(s, j2 + h.len(), 0);
                    lemma_head_round(s, j2 + h.len() + t.len(), 4, 0);
                },
                ConnectReply::Failure(c) => {
                    let t = enc_uint(1);
                    let z = enc_code(c);
                    assert(pl =~= h + (t + z));
                    assert(pl[0] == h[0] && h[0] == 130);
                    lemma_split(s, j2, h, t + z);
                    lemma_split(s, j2 + h.len(), t, z);
                    lemma_head_round(s, j2, 4, 2);
                    lemma_uint_round(s, j2 + h.len(), 1);
                    lemma_code_round(s, j2 + h.len() + t.len(), c);
                },
            }
        },
    }
}

/// Append a connect reply message.
pub fn write_reply_msg(m: &Message<ConnectReply>) -> (out: Vec<u8>)
    ensures
        out@ == enc_reply_msg(m@),
{
    let mut out: Vec<u8> = Vec::new();
    write_head(&mut out, 4, 2);
    write_uint(&mut out, m.id.numeric());
    proof {
        Id::lemma_spec_from(m.id, 0);
    }
    match &m.data {
        None => {
            write_null(&mut out);
        },
        Some(r) => {
            write_head(&mut out, 4, 2);
            match r {
                ConnectReply::Success => {
                    write_uint(&mut out, 0);
                    write_head(&mut out, 4, 0);
                },
                ConnectReply::Failure(c) => {
                    write_uint(&mut out, 1);
                    write_code(&mut out, c);
                },
            }
        },
    }
    proof {
        assert(out@ =~= enc_reply_msg(m@));
    }
    out
}

/// Read a connect reply message from one frame's payload.
pub fn read_reply_msg(s: &[u8]) -> (r: Option<Message<ConnectReply>>)
    ensures
        match r {
            Some(m) => dec_reply_msg(s@) matches Some(ms) && ms == m@,
            None => dec_reply_msg(s@) is None,
        },
{
    let j = match read_head(s, 0) {
        Some((m, count, j)) => {
            if m != 4 || count != 2 {
                return None;
            }
            j
        },
        None => {
            return None;
        },
    };
    let (n, j2) = match read_uint(s, j) {
        Some(p) => p,
        None => {
            return None;
        },
    };
    let id = Id::from_u64(n);
    if j2 < s.len() && s[j2] == 0xf6 {
        return Some(Message { id, data: None });
    }
    let j3 = match read_head(s, j2) {
        Some((m2, c2, j3)) => {
            if m2 != 4 || c2 != 2 {
                return None;
            }
            j3
        },
        None => {
            return None;
        },
    };
    let (tag, j4) = match read_uint(s, j3) {
        Some(p) => p,
        None => {
            return None;
        },
    };
    if tag == 0 {
        match read_head(s, j4) {
            Some((m2, c2, _)) => {
                if m2 == 4 && c2 == 0 {
                    Some(Message { id, data: Some(ConnectReply::Success) })
                } else {
                    None
                }
            },
            None => None,
        }
    } else if tag == 1 {
        match read_code(s, j4) {
            Some((c, _)) => Some(Message { id, data: Some(ConnectReply::Failure(c)) }),
            None => None,
        }
    } else {
        None
    }
}

/// The largest frame payload a reader accepts.
pub const MAX_FRAME_LEN: usize = 0x1000000;

/// A frame: a four-byte big-endian payload length, then the payload.
pub open spec fn enc_frame(p: Seq<u8>) -> Seq<u8> {
    be_octets(p.len() as int, 4) + p
}

/// What a buffer holds: not yet a whole frame, an oversized frame, or one
/// whole payload and the count of bytes it spans.
pub enum FrameSpec {
    NeedMore,
    TooLarge,
    Payload(Seq<u8>, int),
}

/// Read one frame from the front of the buffer.  An incomplete header or
/// body asks for more bytes: at a clean end of stream the buffer is empty,
/// anything else mid-frame is a truncation.
pub open spec fn dec_frame(s: Seq<u8>) -> FrameSpec {
    if s.len() < 4 {
        FrameSpec::NeedMore
    } else {
        let len = be_val(s.take(4));
        if len > MAX_FRAME_LEN {
            FrameSpec::TooLarge
        } else if s.len() < 4 + len {
            FrameSpec::NeedMore
        } else {
            FrameSpec::Payload(s.subrange(4, 4 + len), 4 + len)
        }
    }
}

/// Reading a framed payload from the front of a buffer yields it back.
pub proof fn lemma_frame_round(p: Seq<u8>, rest: Seq<u8>)
    requires
        p.len() <= MAX_FRAME_LEN,
    ensures
        dec_frame(enc_frame(p) + rest) == FrameSpec::Payload(p, (4 + p.len()) as int),
{
    lemma_pow256_vals();
    lemma_be_round(p.len() as int, 4);
    let s = enc_frame(p) + rest;
    assert(s.take(4) =~= be_octets(p.len() as int, 4));
    assert(s.subrange(4, (4 + p.len()) as int) =~= p);
}

/// Frame a payload; a payload over the frame limit is refused.
pub fn write_frame(p: &[u8]) -> (r: Option<Vec<u8>>)
    ensures
        match r {
            Some(out) => p@.len() <= MAX_FRAME_LEN && out@ == enc_frame(p@),
            None => p@.len() > MAX_FRAME_LEN,
        },
{
    if p.len() > MAX_FRAME_LEN {
        return None;
    }
    let mut out: Vec<u8> = Vec::new();
    proof {
        lemma_pow256_vals();
        lemma_pow256_le(4, 16);
    }
    write_be(&mut out, p.len() as u128, 4);
    let n = p.len();
    for k in 0..n
        invariant
            n == p@.len(),
            out@ == be_octets(p@.len() as int, 4) + p@.take(k as int),
    {
        out.push(p[k]);
        proof {
            assert(be_octets(p@.len() as int, 4) + p@.take(k + 1) =~= (be_octets(
                p@.len() as int,
                4,
            ) + p@.take(k as int)).push(p@[k as int]));
        }
    }
    proof {
        assert(p@.take(n as int) =~= p@);
    }
    Some(out)
}

/// The result of looking for a frame in a buffer.
pub enum FrameOutcome {
    /// The buffer does not yet hold a whole frame.
    NeedMore,
    /// The announced payload is over the frame limit.
    TooLarge,
    /// One whole payload, and how many buffer bytes it spanned.
    Payload(Vec<u8>, usize),
}

/// Read one frame from the front of the buffer.
pub fn read_frame(s: &[u8]) -> (r: FrameOutcome)
    ensures
        match r {
            FrameOutcome::NeedMore => dec_frame(s@) is NeedMore,
            FrameOutcome::TooLarge => dec_frame(s@) is TooLarge,
            FrameOutcome::Payload(p, c) => dec_frame(s@) matches FrameSpec::Payload(ps, cs)
                && ps == p@ && cs == c as int,
        },
{
    let n = s.len();
    if n < 4 {
        return FrameOutcome::NeedMore;
    }
    let len128 = be_val_exec4(s);
    proof {
        lemma_be_val_bound(s@.take(4));
        lemma_pow256_vals();
        lemma_pow256_le(4, 16);
        reveal_with_fuel(pow256, 5);
    }
    let len = len128 as usize;
    if len > MAX_FRAME_LEN {
        return FrameOutcome::TooLarge;
    }
    if n - 4 < len {
        return FrameOutcome::NeedMore;
    }
    let mut p: Vec<u8> = Vec::new();
    let mut k: usize = 0;
    while k < len
        invariant
            k <= len,
            4 + len <= n,
            n == s@.len(),
            p@ =~= s@.subrange(4, 4 + k as int),
        decreases len - k,
    {
        p.push(s[4 + k]);
        proof {
            assert(s@.subrange(4, 4 + k + 1) =~= s@.subrange(4, 4 + k as int).push(s@[4 + k]));
        }
        k = k + 1;
    }
    FrameOutcome::Payload(p, 4 + len)
}

/// The value of the first four bytes of the buffer, big-endian.
fn be_val_exec4(s: &[u8]) -> (r: u128)
    requires
        s@.len() >= 4,
    ensures
        r as int == be_val(s@.take(4)),
{
    let t4 = [s[0], s[1], s[2], s[3]];
    proof {
        assert(t4@ =~= s@.take(4));
    }
    be_val_exec(t4.as_slice())
}

} // verus!
