//! CBOR primitives: data-item heads, unsigned integers, byte strings,
//! text strings, arrays, maps, booleans and null.
//!
//! Encoders write the shortest head for a value, as the wire protocol
//! does.  Decoders accept any well-formed fixed-length head, so a frame
//! from a more liberal encoder still reads.  Indefinite-length items are
//! not part of the protocol and are rejected.

use vstd::prelude::*;
use vstd::string::StringSliceAdditionalSpecFns;
use vstd::utf8::{encode_utf8, decode_utf8, valid_utf8};

verus! {

/// The initial byte and following length bytes announcing one data item
/// of the given major type and value (or length), in shortest form.
pub open spec fn enc_head(major: u8, v: u64) -> Seq<u8> {
    if v < 24 {
        seq![(major * 32 + v) as u8]
    } else if v < 0x100 {
        seq![(major * 32 + 24) as u8, v as u8]
    } else if v < 0x10000 {
        seq![(major * 32 + 25) as u8, (v / 0x100) as u8, (v % 0x100) as u8]
    } else if v < 0x100000000 {
        seq![
            (major * 32 + 26) as u8,
            (v / 0x1000000) as u8,
            ((v / 0x10000) % 0x100) as u8,
            ((v / 0x100) % 0x100) as u8,
            (v % 0x100) as u8,
        ]
    } else {
        seq![
            (major * 32 + 27) as u8,
            (v / 0x100000000000000) as u8,
            ((v / 0x1000000000000) % 0x100) as u8,
            ((v / 0x10000000000) % 0x100) as u8,
            ((v / 0x100000000) % 0x100) as u8,
            ((v / 0x1000000) % 0x100) as u8,
            ((v / 0x10000) % 0x100) as u8,
            ((v / 0x100) % 0x100) as u8,
            (v % 0x100) as u8,
        ]
    }
}

/// Read one head at position `i`: major type, value, next position.
pub open spec fn dec_head(s: Seq<u8>, i: int) -> Option<(u8, u64, int)> {
    if i < 0 || i >= s.len() {
        None
    } else {
        let major = (s[i] / 32) as u8;
        let info = s[i] % 32;
        if info < 24 {
            Some((major, info as u64, i + 1))
        } else if info == 24 {
            if i + 2 <= s.len() {
                Some((major, s[i + 1] as u64, i + 2))
            } else {
                None
            }
        } else if info == 25 {
            if i + 3 <= s.len() {
                Some((major, ((s[i + 1] as u64) * 0x100 + (s[i + 2] as u64)) as u64, i + 3))
            } else {
                None
            }
        } else if info == 26 {
            if i + 5 <= s.len() {
                Some(
                    (
                        major,
                        ((s[i + 1] as u64) * 0x1000000 + (s[i + 2] as u64) * 0x10000 + (s[i
                            + 3] as u64) * 0x100 + (s[i + 4] as u64)) as u64,
                        i + 5,
                    ),
                )
            } else {
                None
            }
        } else if info == 27 {
            if i + 9 <= s.len() {
                Some(
                    (
                        major,
                        ((s[i + 1] as u64) * 0x100000000000000 + (s[i + 2] as u64) * 0x1000000000000
                            + (s[i + 3] as u64) * 0x10000000000 + (s[i + 4] as u64) * 0x100000000 + (
                        s[i + 5] as u64) * 0x1000000 + (s[i + 6] as u64) * 0x10000 + (s[i
                            + 7] as u64) * 0x100 + (s[i + 8] as u64)) as u64,
                        i + 9,
                    ),
                )
            } else {
                None
            }
        } else {
            None
        }
    }
}

/// Decoding right after encoding yields the same head.
pub proof fn lemma_head_round(s: Seq<u8>, i: int, major: u8, v: u64)
    requires
        major < 8,
        0 <= i,
        i + enc_head(major, v).len() <= s.len(),
        s.subrange(i, i + enc_head(major, v).len() as int) == enc_head(major, v),
    ensures
        dec_head(s, i) == Some((major, v, i + enc_head(major, v).len() as int)),
{
    let e = enc_head(major, v);
    assert forall|k: int| 0 <= k < e.len() implies #[trigger] s[i + k] == e[k] by {
        assert(s.subrange(i, i + e.len() as int)[k] == s[i + k]);
    }
    assert(s[i] == s[i + 0]);
    if v < 24 {
        assert(s[i] == (major * 32 + v) as u8);
        assert((major * 32 + v as u8) / 32 == major && (major * 32 + v as u8) % 32 == v) by {
            assert(major < 8 && v < 24);
        }
    } else if v < 0x100 {
        assert(s[i] == (major * 32 + 24) as u8);
        assert(s[i + 1] == v as u8);
    } else if v < 0x10000 {
        assert(((v / 0x100) as u8 as u64) * 0x100 + ((v % 0x100) as u8 as u64) == v);
    } else if v < 0x100000000 {
        assert(((v / 0x1000000) as u8 as u64) * 0x1000000 + (((v / 0x10000) % 0x100) as u8 as u64)
            * 0x10000 + (((v / 0x100) % 0x100) as u8 as u64) * 0x100 + ((v % 0x100) as u8 as u64)
            == v) by {
            lemma_u64_bytes4(v);
        }
    } else {
        assert(((v / 0x100000000000000) as u8 as u64) * 0x100000000000000 + (((v
            / 0x1000000000000) % 0x100) as u8 as u64) * 0x1000000000000 + (((v / 0x10000000000)
            % 0x100) as u8 as u64) * 0x10000000000 + (((v / 0x100000000) % 0x100) as u8 as u64)
            * 0x100000000 + (((v / 0x1000000) % 0x100) as u8 as u64) * 0x1000000 + (((v / 0x10000)
            % 0x100) as u8 as u64) * 0x10000 + (((v / 0x100) % 0x100) as u8 as u64) * 0x100 + ((v
            % 0x100) as u8 as u64) == v) by {
            lemma_u64_bytes8(v);
        }
    }
}

/// A 32-bit value is the weighted sum of its four big-endian bytes.
proof fn lemma_u64_bytes4(v: u64)
    requires
        v < 0x100000000,
    ensures
        (v / 0x1000000) * 0x1000000 + ((v / 0x10000) % 0x100) * 0x10000 + ((v / 0x100) % 0x100)
            * 0x100 + (v % 0x100) == v,
        v / 0x1000000 < 0x100,
{
    assert((v / 0x1000000) * 0x1000000 + ((v / 0x10000) % 0x100) * 0x10000 + ((v / 0x100) % 0x100)
        * 0x100 + (v % 0x100) == v && v / 0x1000000 < 0x100) by (nonlinear_arith)
        requires
            v < 0x100000000,
    ;
}

/// A 64-bit value is the weighted sum of its eight big-endian bytes.
proof fn lemma_u64_bytes8(v: u64)
    ensures
        (v / 0x100000000000000) * 0x100000000000000 + ((v / 0x1000000000000) % 0x100)
            * 0x1000000000000 + ((v / 0x10000000000) % 0x100) * 0x10000000000 + ((v / 0x100000000)
            % 0x100) * 0x100000000 + ((v / 0x1000000) % 0x100) * 0x1000000 + ((v / 0x10000) % 0x100)
            * 0x10000 + ((v / 0x100) % 0x100) * 0x100 + (v % 0x100) == v,
        v / 0x100000000000000 < 0x100,
{
    assert((v / 0x100000000000000) * 0x100000000000000 + ((v / 0x1000000000000) % 0x100)
        * 0x1000000000000 + ((v / 0x10000000000) % 0x100) * 0x10000000000 + ((v / 0x100000000)
        % 0x100) * 0x100000000 + ((v / 0x1000000) % 0x100) * 0x1000000 + ((v / 0x10000) % 0x100)
        * 0x10000 + ((v / 0x100) % 0x100) * 0x100 + (v % 0x100) == v && v / 0x100000000000000
        < 0x100) by (bit_vector);
}

/// Append one head to the output.
pub fn write_head(out: &mut Vec<u8>, major: u8, v: u64)
    requires
        major < 8,
    ensures
        final(out)@ == old(out)@ + enc_head(major, v),
{
    if v < 24 {
        out.push(major * 32 + v as u8);
        proof {
            assert(out@ =~= old(out)@ + enc_head(major, v));
        }
    } else if v < 0x100 {
        out.push(major * 32 + 24);
        out.push(v as u8);
        proof {
            assert(out@ =~= old(out)@ + enc_head(major, v));
        }
    } else if v < 0x10000 {
        out.push(major * 32 + 25);
        out.push((v / 0x100) as u8);
        out.push((v % 0x100) as u8);
        proof {
            assert(out@ =~= old(out)@ + enc_head(major, v));
        }
    } else if v < 0x100000000 {
        out.push(major * 32 + 26);
        out.push((v / 0x1000000) as u8);
        out.push(((v / 0x10000) % 0x100) as u8);
        out.push(((v / 0x100) % 0x100) as u8);
        out.push((v % 0x100) as u8);
        proof {
            assert(out@ =~= old(out)@ + enc_head(major, v));
        }
    } else {
        out.push(major * 32 + 27);
        out.push((v / 0x100000000000000) as u8);
        out.push(((v / 0x1000000000000) % 0x100) as u8);
        out.push(((v / 0x10000000000) % 0x100) as u8);
        out.push(((v / 0x100000000) % 0x100) as u8);
        out.push(((v / 0x1000000) % 0x100) as u8);
        out.push(((v / 0x10000) % 0x100) as u8);
        out.push(((v / 0x100) % 0x100) as u8);
        out.push((v % 0x100) as u8);
        proof {
            assert(out@ =~= old(out)@ + enc_head(major, v));
        }
    }
}

/// Read one head from the buffer.
pub fn read_head(s: &[u8], i: usize) -> (r: Option<(u8, u64, usize)>)
    ensures
        match r {
            Some((major, v, next)) => dec_head(s@, i as int) == Some((major, v, next as int))
                && i < next <= s@.len() && major < 8,
            None => dec_head(s@, i as int) is None,
        },
{
    let n = s.len();
    if i >= n {
        return None;
    }
    let b = s[i];
    let major = b / 32;
    let info = b % 32;
    if info < 24 {
        Some((major, info as u64, i + 1))
    } else if info == 24 {
        if n - i >= 2 {
            Some((major, s[i + 1] as u64, i + 2))
        } else {
            None
        }
    } else if info == 25 {
        if n - i >= 3 {
            Some((major, (s[i + 1] as u64) * 0x100 + (s[i + 2] as u64), i + 3))
        } else {
            None
        }
    } else if info == 26 {
        if n - i >= 5 {
            Some(
                (
                    major,
                    (s[i + 1] as u64) * 0x1000000 + (s[i + 2] as u64) * 0x10000 + (s[i
                        + 3] as u64) * 0x100 + (s[i + 4] as u64),
                    i + 5,
                ),
            )
        } else {
            None
        }
    } else if info == 27 {
        if n - i >= 9 {
            Some(
                (
                    major,
                    (s[i + 1] as u64) * 0x100000000000000 + (s[i + 2] as u64) * 0x1000000000000 + (
                    s[i + 3] as u64) * 0x10000000000 + (s[i + 4] as u64) * 0x100000000 + (s[i
                        + 5] as u64) * 0x1000000 + (s[i + 6] as u64) * 0x10000 + (s[i
                        + 7] as u64) * 0x100 + (s[i + 8] as u64),
                    i + 9,
                ),
            )
        } else {
            None
        }
    } else {
        None
    }
}

/// An unsigned integer data item.
pub open spec fn enc_uint(v: u64) -> Seq<u8> {
    enc_head(0, v)
}

/// Read an unsigned integer.
pub open spec fn dec_uint(s: Seq<u8>, i: int) -> Option<(u64, int)> {
    match dec_head(s, i) {
        Some((major, v, next)) => if major == 0 {
            Some((v, next))
        } else {
            None
        },
        None => None,
    }
}

pub proof fn lemma_uint_round(s: Seq<u8>, i: int, v: u64)
    requires
        0 <= i,
        i + enc_uint(v).len() <= s.len(),
        s.subrange(i, i + enc_uint(v).len() as int) == enc_uint(v),
    ensures
        dec_uint(s, i) == Some((v, i + enc_uint(v).len() as int)),
{
    lemma_head_round(s, i, 0, v);
}

/// Append an unsigned integer.
pub fn write_uint(out: &mut Vec<u8>, v: u64)
    ensures
        final(out)@ == old(out)@ + enc_uint(v),
{
    write_head(out, 0, v);
}

/// Read an unsigned integer.
pub fn read_uint(s: &[u8], i: usize) -> (r: Option<(u64, usize)>)
    ensures
        match r {
            Some((v, next)) => dec_uint(s@, i as int) == Some((v, next as int)) && i < next
                <= s@.len(),
            None => dec_uint(s@, i as int) is None,
        },
{
    match read_head(s, i) {
        Some((major, v, next)) => {
            if major == 0 {
                Some((v, next))
            } else {
                None
            }
        },
        None => None,
    }
}

/// A byte string data item.
pub open spec fn enc_bytes(b: Seq<u8>) -> Seq<u8> {
    enc_head(2, b.len() as u64) + b
}

/// Read a byte string.
pub open spec fn dec_bytes(s: Seq<u8>, i: int) -> Option<(Seq<u8>, int)> {
    match dec_head(s, i) {
        Some((major, len, next)) => if major == 2 && next + len <= s.len() {
            Some((s.subrange(next, next + len as int), next + len as int))
        } else {
            None
        },
        None => None,
    }
}

pub proof fn lemma_bytes_round(s: Seq<u8>, i: int, b: Seq<u8>)
    requires
        0 <= i,
        b.len() < 0x10000000000000000,
        i + enc_bytes(b).len() <= s.len(),
        s.subrange(i, i + enc_bytes(b).len() as int) == enc_bytes(b),
    ensures
        dec_bytes(s, i) matches Some((b2, next)) && b2 == b && next == i + enc_bytes(b).len(),
{
    let h = enc_head(2, b.len() as u64);
    assert(s.subrange(i, i + h.len() as int) =~= h) by {
        assert forall|k: int| 0 <= k < h.len() implies s.subrange(i, i + h.len() as int)[k]
            == h[k] by {
            assert(s.subrange(i, i + enc_bytes(b).len() as int)[k] == h[k]);
            assert(s.subrange(i, i + enc_bytes(b).len() as int)[k] == s[i + k]);
        }
    }
    lemma_head_round(s, i, 2, b.len() as u64);
    let next = i + h.len() as int;
    assert(s.subrange(next, next + b.len() as int) =~= b) by {
        assert forall|k: int| 0 <= k < b.len() implies s.subrange(next, next + b.len() as int)[k]
            == b[k] by {
            assert(s.subrange(i, i + enc_bytes(b).len() as int)[h.len() + k] == b[k]);
            assert(s.subrange(i, i + enc_bytes(b).len() as int)[h.len() + k] == s[next + k]);
        }
    }
}

/// Append a byte string.
pub fn write_bytes(out: &mut Vec<u8>, b: &[u8])
    ensures
        final(out)@ == old(out)@ + enc_bytes(b@),
{
    write_bytes_with_major(out, b, 2);
    proof {
        assert(old(out)@ + enc_head(2, b@.len() as u64) + b@ =~= old(out)@ + enc_bytes(b@));
    }
}

/// Read a byte string into a fresh vector.
pub fn read_bytes(s: &[u8], i: usize) -> (r: Option<(Vec<u8>, usize)>)
    ensures
        match r {
            Some((b, next)) => dec_bytes(s@, i as int) matches Some((b2, n2)) && b2 == b@ && n2
                == next as int && i < next <= s@.len(),
            None => dec_bytes(s@, i as int) is None,
        },
{
    match read_head(s, i) {
        Some((major, len, next)) => {
            if major != 2 {
                return None;
            }
            let n = s.len();
            if len > (n - next) as u64 {
                return None;
            }
            let len_u: usize = len as usize;
            let mut b: Vec<u8> = Vec::new();
            let mut k: usize = 0;
            while k < len_u
                invariant
                    k <= len_u,
                    next + len_u <= n,
                    n == s@.len(),
                    b@ =~= s@.subrange(next as int, next as int + k as int),
                decreases len_u - k,
            {
                b.push(s[next + k]);
                proof {
                    assert(s@.subrange(next as int, next as int + k + 1) =~= s@.subrange(
                        next as int,
                        next as int + k as int,
                    ).push(s@[next as int + k]));
                }
                k = k + 1;
            }
            Some((b, next + len_u))
        },
        None => None,
    }
}

/// A text string data item: the UTF-8 bytes of the characters.
pub open spec fn enc_text(t: Seq<char>) -> Seq<u8> {
    enc_head(3, encode_utf8(t).len() as u64) + encode_utf8(t)
}

/// Read a text string.
pub open spec fn dec_text(s: Seq<u8>, i: int) -> Option<(Seq<char>, int)> {
    match dec_head(s, i) {
        Some((major, len, next)) => if major == 3 && next + len <= s.len() && valid_utf8(
            s.subrange(next, next + len as int),
        ) {
            Some((decode_utf8(s.subrange(next, next + len as int)), next + len as int))
        } else {
            None
        },
        None => None,
    }
}

pub proof fn lemma_text_round(s: Seq<u8>, i: int, t: Seq<char>)
    requires
        0 <= i,
        encode_utf8(t).len() < 0x10000000000000000,
        i + enc_text(t).len() <= s.len(),
        s.subrange(i, i + enc_text(t).len() as int) == enc_text(t),
    ensures
        dec_text(s, i) matches Some((t2, next)) && t2 == t && next == i + enc_text(t).len(),
{
    let b = encode_utf8(t);
    let h = enc_head(3, b.len() as u64);
    assert(s.subrange(i, i + h.len() as int) =~= h) by {
        assert forall|k: int| 0 <= k < h.len() implies s.subrange(i, i + h.len() as int)[k]
            == h[k] by {
            assert(s.subrange(i, i + enc_text(t).len() as int)[k] == h[k]);
            assert(s.subrange(i, i + enc_text(t).len() as int)[k] == s[i + k]);
        }
    }
    lemma_head_round(s, i, 3, b.len() as u64);
    let next = i + h.len() as int;
    assert(s.subrange(next, next + b.len() as int) =~= b) by {
        assert forall|k: int| 0 <= k < b.len() implies s.subrange(next, next + b.len() as int)[k]
            == b[k] by {
            assert(s.subrange(i, i + enc_text(t).len() as int)[h.len() + k] == b[k]);
            assert(s.subrange(i, i + enc_text(t).len() as int)[h.len() + k] == s[next + k]);
        }
    }
    vstd::utf8::encode_utf8_valid_utf8(t);
    vstd::utf8::encode_utf8_decode_utf8(t);
}

/// Append a text string.
pub fn write_text(out: &mut Vec<u8>, t: &str)
    ensures
        final(out)@ == old(out)@ + enc_text(t@),
{
    let b = t.as_bytes();
    write_bytes_with_major(out, b, 3);
    proof {
        assert(old(out)@ + enc_head(3, t.spec_bytes().len() as u64) + t.spec_bytes() =~= old(out)@
            + enc_text(t@));
    }
}

/// Append bytes under the given major type.
fn write_bytes_with_major(out: &mut Vec<u8>, b: &[u8], major: u8)
    requires
        major < 8,
    ensures
        final(out)@ == old(out)@ + enc_head(major, b@.len() as u64) + b@,
{
    write_head(out, major, b.len() as u64);
    let n = b.len();
    for k in 0..n
        invariant
            n == b@.len(),
            out@ == old(out)@ + enc_head(major, b@.len() as u64) + b@.take(k as int),
    {
        out.push(b[k]);
        proof {
            assert(old(out)@ + enc_head(major, b@.len() as u64) + b@.take(k + 1) =~= (old(out)@
                + enc_head(major, b@.len() as u64) + b@.take(k as int)).push(b@[k as int]));
        }
    }
    proof {
        assert(b@.take(n as int) =~= b@);
    }
}

/// Read a text string.
pub fn read_text(s: &[u8], i: usize) -> (r: Option<(String, usize)>)
    ensures
        match r {
            Some((t, next)) => dec_text(s@, i as int) matches Some((t2, n2)) && t2 == t@ && n2
                == next as int && i < next <= s@.len(),
            None => dec_text(s@, i as int) is None,
        },
{
    match read_head(s, i) {
        Some((major, len, next)) => {
            if major != 3 {
                return None;
            }
            let n = s.len();
            if len > (n - next) as u64 {
                return None;
            }
            let len_u: usize = len as usize;
            let mut b: Vec<u8> = Vec::new();
            let mut k: usize = 0;
            while k < len_u
                invariant
                    k <= len_u,
                    next + len_u <= n,
                    n == s@.len(),
                    b@ =~= s@.subrange(next as int, next as int + k as int),
                decreases len_u - k,
            {
                b.push(s[next + k]);
                proof {
                    assert(s@.subrange(next as int, next as int + k + 1) =~= s@.subrange(
                        next as int,
                        next as int + k as int,
                    ).push(s@[next as int + k]));
                }
                k = k + 1;
            }
            match crate::util::utf8_to_string(b) {
                Some(t) => Some((t, next + len_u)),
                None => None,
            }
        },
        None => None,
    }
}

/// The null data item.
pub open spec fn enc_null() -> Seq<u8> {
    seq![0xf6u8]
}

/// A boolean data item.
pub open spec fn enc_bool(b: bool) -> Seq<u8> {
    if b {
        seq![0xf5u8]
    } else {
        seq![0xf4u8]
    }
}

/// Append null.
pub fn write_null(out: &mut Vec<u8>)
    ensures
        final(out)@ == old(out)@ + enc_null(),
{
    out.push(0xf6);
    proof {
        assert(out@ =~= old(out)@ + enc_null());
    }
}

/// Append a boolean.
pub fn write_bool(out: &mut Vec<u8>, b: bool)
    ensures
        final(out)@ == old(out)@ + enc_bool(b),
{
    if b {
        out.push(0xf5);
    } else {
        out.push(0xf4);
    }
    proof {
        assert(out@ =~= old(out)@ + enc_bool(b));
    }
}

} // verus!
