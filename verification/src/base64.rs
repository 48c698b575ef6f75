//! URL-safe base64 without padding, as used for key material on the wire
//! and at rest.
//!
//! The alphabet maps 0–25 to `A`–`Z`, 26–51 to `a`–`z`, 52–61 to `0`–`9`,
//! 62 to `-` and 63 to `_`.  Decoding is strict: no padding characters, no
//! whitespace, and the unused low bits of a trailing group must be zero, so
//! every byte sequence has exactly one accepted encoding.

use vstd::prelude::*;
use vstd::string::StrSliceExecFns;
use crate::util::{ascii_to_string, char_codes};

verus! {

/// Code point of the base64 digit with value `v`.
pub open spec fn b64_code(v: u8) -> u32 {
    if v < 26 {
        (v + 65) as u32  // 'A'..='Z'
    } else if v < 52 {
        (v + 71) as u32  // 'a'..='z'
    } else if v < 62 {
        (v - 52 + 48) as u32  // '0'..='9'
    } else if v == 62 {
        45u32  // '-'
    } else {
        95u32  // '_'
    }
}

/// The 6-bit value of a base64 digit character, if it is one.
pub open spec fn b64_val(c: char) -> Option<u8> {
    let u = c as u32;
    if 65 <= u && u <= 90 {
        Some((u - 65) as u8)
    } else if 97 <= u && u <= 122 {
        Some((u - 97 + 26) as u8)
    } else if 48 <= u && u <= 57 {
        Some((u - 48 + 52) as u8)
    } else if u == 45 {
        Some(62u8)
    } else if u == 95 {
        Some(63u8)
    } else {
        None
    }
}

/// The code points of the encoding of `bytes`, three input bytes giving
/// four digits, a final byte giving two and two final bytes giving three.
pub open spec fn encode64(bytes: Seq<u8>) -> Seq<u32>
    decreases bytes.len(),
{
    if bytes.len() == 0 {
        Seq::empty()
    } else if bytes.len() == 1 {
        let b0 = bytes[0];
        seq![b64_code(b0 >> 2), b64_code((b0 & 3) << 4)]
    } else if bytes.len() == 2 {
        let b0 = bytes[0];
        let b1 = bytes[1];
        seq![b64_code(b0 >> 2), b64_code(((b0 & 3) << 4) | (b1 >> 4)), b64_code((b1 & 15) << 2)]
    } else {
        let b0 = bytes[0];
        let b1 = bytes[1];
        let b2 = bytes[2];
        seq![
            b64_code(b0 >> 2),
            b64_code(((b0 & 3) << 4) | (b1 >> 4)),
            b64_code(((b1 & 15) << 2) | (b2 >> 6)),
            b64_code(b2 & 63),
        ] + encode64(bytes.skip(3))
    }
}

/// The bytes denoted by a base64 text, or nothing if the text is not a
/// strict encoding (wrong length, foreign character, or non-zero unused
/// trailing bits).
pub open spec fn decode64(s: Seq<char>) -> Option<Seq<u8>>
    decreases s.len(),
{
    if s.len() == 0 {
        Some(Seq::empty())
    } else if s.len() == 1 {
        None
    } else if s.len() == 2 {
        match (b64_val(s[0]), b64_val(s[1])) {
            (Some(v0), Some(v1)) => if v1 & 15 == 0 {
                Some(seq![(v0 << 2) | (v1 >> 4)])
            } else {
                None
            },
            _ => None,
        }
    } else if s.len() == 3 {
        match (b64_val(s[0]), b64_val(s[1]), b64_val(s[2])) {
            (Some(v0), Some(v1), Some(v2)) => if v2 & 3 == 0 {
                Some(seq![(v0 << 2) | (v1 >> 4), ((v1 & 15) << 4) | (v2 >> 2)])
            } else {
                None
            },
            _ => None,
        }
    } else {
        match (b64_val(s[0]), b64_val(s[1]), b64_val(s[2]), b64_val(s[3])) {
            (Some(v0), Some(v1), Some(v2), Some(v3)) => match decode64(s.skip(4)) {
                Some(rest) => Some(
                    seq![
                        (v0 << 2) | (v1 >> 4),
                        ((v1 & 15) << 4) | (v2 >> 2),
                        ((v2 & 3) << 6) | v3,
                    ] + rest,
                ),
                None => None,
            },
            _ => None,
        }
    }
}

/// The six-bit pieces cut from any three bytes are below 64.
proof fn lemma_digit_bounds(b0: u8, b1: u8, b2: u8)
    ensures
        b0 >> 2 < 64,
        (b0 & 3) << 4 < 64,
        ((b0 & 3) << 4) | (b1 >> 4) < 64,
        (b1 & 15) << 2 < 64,
        ((b1 & 15) << 2) | (b2 >> 6) < 64,
        b2 & 63 < 64,
{
    assert(b0 >> 2 < 64 && (b0 & 3) << 4 < 64 && ((b0 & 3) << 4) | (b1 >> 4) < 64 && (b1 & 15)
        << 2 < 64 && ((b1 & 15) << 2) | (b2 >> 6) < 64 && b2 & 63 < 64) by (bit_vector);
}

/// A digit character carries exactly the value its code point encodes.
proof fn lemma_code_val(v: u8, c: char)
    requires
        v < 64,
        c as u32 == b64_code(v),
    ensures
        b64_val(c) == Some(v),
{
}

/// Appending to a three-byte group encodes group first, remainder after.
proof fn lemma_encode64_step(bytes: Seq<u8>)
    requires
        bytes.len() >= 3,
    ensures
        encode64(bytes).len() >= 4,
        encode64(bytes).skip(4) =~= encode64(bytes.skip(3)),
        encode64(bytes)[0] == b64_code(bytes[0] >> 2),
        encode64(bytes)[1] == b64_code(((bytes[0] & 3) << 4) | (bytes[1] >> 4)),
        encode64(bytes)[2] == b64_code(((bytes[1] & 15) << 2) | (bytes[2] >> 6)),
        encode64(bytes)[3] == b64_code(bytes[2] & 63),
{
}

/// Strict decoding recovers exactly what was encoded.
pub proof fn lemma_round_trip(bytes: Seq<u8>, s: Seq<char>)
    requires
        char_codes(s) == encode64(bytes),
    ensures
        decode64(s) == Some(bytes),
    decreases bytes.len(),
{
    assert(char_codes(s).len() == s.len());
    if bytes.len() == 0 {
        assert(s.len() == 0);
        assert(bytes =~= Seq::<u8>::empty());
    } else if bytes.len() == 1 {
        let b0 = bytes[0];
        lemma_digit_bounds(b0, 0, 0);
        assert(s.len() == 2);
        lemma_code_val(b0 >> 2, s[0]);
        lemma_code_val((b0 & 3) << 4, s[1]);
        assert(((b0 & 3) << 4) & 15 == 0 && ((b0 >> 2) << 2) | (((b0 & 3) << 4) >> 4) == b0)
            by (bit_vector);
        assert(decode64(s) == Some(seq![b0]));
        assert(bytes =~= seq![b0]);
    } else if bytes.len() == 2 {
        let b0 = bytes[0];
        let b1 = bytes[1];
        lemma_digit_bounds(b0, b1, 0);
        assert(s.len() == 3);
        lemma_code_val(b0 >> 2, s[0]);
        lemma_code_val(((b0 & 3) << 4) | (b1 >> 4), s[1]);
        lemma_code_val((b1 & 15) << 2, s[2]);
        assert(((b1 & 15) << 2) & 3 == 0 && ((b0 >> 2) << 2) | ((((b0 & 3) << 4) | (b1 >> 4))
            >> 4) == b0 && (((((b0 & 3) << 4) | (b1 >> 4)) & 15) << 4) | (((b1 & 15) << 2) >> 2)
            == b1) by (bit_vector);
        assert(decode64(s) == Some(seq![b0, b1]));
        assert(bytes =~= seq![b0, b1]);
    } else {
        let b0 = bytes[0];
        let b1 = bytes[1];
        let b2 = bytes[2];
        lemma_digit_bounds(b0, b1, b2);
        lemma_encode64_step(bytes);
        assert(s.len() >= 4);
        assert(char_codes(s.skip(4)) =~= encode64(bytes.skip(3)));
        assert(char_codes(s.skip(4)) == encode64(bytes.skip(3)));
        lemma_round_trip(bytes.skip(3), s.skip(4));
        lemma_code_val(b0 >> 2, s[0]);
        lemma_code_val(((b0 & 3) << 4) | (b1 >> 4), s[1]);
        lemma_code_val(((b1 & 15) << 2) | (b2 >> 6), s[2]);
        lemma_code_val(b2 & 63, s[3]);
        assert(((b0 >> 2) << 2) | ((((b0 & 3) << 4) | (b1 >> 4)) >> 4) == b0 && (((((b0 & 3) << 4)
            | (b1 >> 4)) & 15) << 4) | ((((b1 & 15) << 2) | (b2 >> 6)) >> 2) == b1 && (((((b1 & 15)
            << 2) | (b2 >> 6)) & 3) << 6) | (b2 & 63) == b2) by (bit_vector);
        assert(decode64(s) == Some(
            seq![b0, b1, b2] + bytes.skip(3),
        ));
        assert(seq![b0, b1, b2] + bytes.skip(3) =~= bytes);
    }
}

/// The base64 digit byte (ASCII code) for a 6-bit value.
fn b64_digit(v: u8) -> (r: u8)
    requires
        v < 64,
    ensures
        r as u32 == b64_code(v),
        r < 128,
{
    if v < 26 {
        v + 65
    } else if v < 52 {
        v + 71
    } else if v < 62 {
        v - 52 + 48
    } else if v == 62 {
        45
    } else {
        95
    }
}

/// The 6-bit value of one character, if it is a base64 digit.
fn b64_value(c: char) -> (r: Option<u8>)
    ensures
        r == b64_val(c),
{
    let u = c as u32;
    if 65 <= u && u <= 90 {
        Some((u - 65) as u8)
    } else if 97 <= u && u <= 122 {
        Some((u - 97 + 26) as u8)
    } else if 48 <= u && u <= 57 {
        Some((u - 48 + 52) as u8)
    } else if u == 45 {
        Some(62)
    } else if u == 95 {
        Some(63)
    } else {
        None
    }
}

/// Convert to URL-safe base64 string without padding.
pub fn encode(bytes: &[u8]) -> (r: String)
    ensures
        char_codes(r@) =~= encode64(bytes@),
{
    let n = bytes.len();
    let mut out: Vec<u8> = Vec::new();
    let mut i: usize = 0;
    while 3 <= n && i <= n - 3
        invariant
            i <= n,
            i % 3 == 0,
            n == bytes@.len(),
            char_codes_of_bytes(out@) =~= encode64(bytes@.take(i as int)),
            forall|k: int| 0 <= k < out@.len() ==> out@[k] < 128,
        decreases n - i,
    {
        let b0 = bytes[i];
        let b1 = bytes[i + 1];
        let b2 = bytes[i + 2];
        proof {
            lemma_digit_bounds(b0, b1, b2);
        }
        out.push(b64_digit(b0 >> 2));
        out.push(b64_digit(((b0 & 3) << 4) | (b1 >> 4)));
        out.push(b64_digit(((b1 & 15) << 2) | (b2 >> 6)));
        out.push(b64_digit(b2 & 63));
        proof {
            lemma_encode_extend3(bytes@, i as int);
        }
        i = i + 3;
    }
    if n - i == 1 {
        let b0 = bytes[i];
        proof {
            lemma_digit_bounds(b0, 0, 0);
        }
        out.push(b64_digit(b0 >> 2));
        out.push(b64_digit((b0 & 3) << 4));
        proof {
            lemma_encode_extend_tail(bytes@, i as int);
        }
    } else if n - i == 2 {
        let b0 = bytes[i];
        let b1 = bytes[i + 1];
        proof {
            lemma_digit_bounds(b0, b1, 0);
        }
        out.push(b64_digit(b0 >> 2));
        out.push(b64_digit(((b0 & 3) << 4) | (b1 >> 4)));
        out.push(b64_digit((b1 & 15) << 2));
        proof {
            lemma_encode_extend_tail(bytes@, i as int);
        }
    } else {
        proof {
            assert(bytes@.take(n as int) =~= bytes@);
        }
    }
    let r = ascii_to_string(out);
    proof {
        assert(char_codes(r@) =~= char_codes_of_bytes(out@));
    }
    r
}

/// The code points denoted by a sequence of ASCII bytes.
pub open spec fn char_codes_of_bytes(v: Seq<u8>) -> Seq<u32> {
    v.map_values(|b: u8| b as u32)
}

/// Encoding a prefix extended by one full group appends that group's digits.
proof fn lemma_encode_extend3(bytes: Seq<u8>, i: int)
    requires
        0 <= i,
        i % 3 == 0,
        i + 3 <= bytes.len(),
    ensures
        encode64(bytes.take(i + 3)) =~= encode64(bytes.take(i)) + seq![
            b64_code(bytes[i] >> 2),
            b64_code(((bytes[i] & 3) << 4) | (bytes[i + 1] >> 4)),
            b64_code(((bytes[i + 1] & 15) << 2) | (bytes[i + 2] >> 6)),
            b64_code(bytes[i + 2] & 63),
        ],
    decreases i,
{
    if i == 0 {
        assert(bytes.take(0) =~= Seq::<u8>::empty());
        assert(bytes.take(3).skip(3) =~= Seq::<u8>::empty());
        reveal_with_fuel(encode64, 2);
    } else {
        lemma_encode_extend3(bytes.skip(3), i - 3);
        assert(bytes.skip(3).take(i - 3) =~= bytes.take(i).skip(3));
        assert(bytes.skip(3).take(i) =~= bytes.take(i + 3).skip(3));
        assert(bytes.skip(3)[i - 3] == bytes[i]);
        assert(bytes.skip(3)[i - 2] == bytes[i + 1]);
        assert(bytes.skip(3)[i - 1] == bytes[i + 2]);
        assert(encode64(bytes.take(i + 3)) =~= seq![
            b64_code(bytes.take(i + 3)[0] >> 2),
            b64_code(((bytes.take(i + 3)[0] & 3) << 4) | (bytes.take(i + 3)[1] >> 4)),
            b64_code(((bytes.take(i + 3)[1] & 15) << 2) | (bytes.take(i + 3)[2] >> 6)),
            b64_code(bytes.take(i + 3)[2] & 63),
        ] + encode64(bytes.take(i + 3).skip(3)));
        assert(encode64(bytes.take(i)) =~= seq![
            b64_code(bytes.take(i)[0] >> 2),
            b64_code(((bytes.take(i)[0] & 3) << 4) | (bytes.take(i)[1] >> 4)),
            b64_code(((bytes.take(i)[1] & 15) << 2) | (bytes.take(i)[2] >> 6)),
            b64_code(bytes.take(i)[2] & 63),
        ] + encode64(bytes.take(i).skip(3)));
    }
}

/// Encoding the whole input appends the digits of a short final group.
proof fn lemma_encode_extend_tail(bytes: Seq<u8>, i: int)
    requires
        0 <= i,
        i % 3 == 0,
        i < bytes.len(),
        bytes.len() <= i + 2,
    ensures
        bytes.len() == i + 1 ==> encode64(bytes) =~= encode64(bytes.take(i)) + seq![
            b64_code(bytes[i] >> 2),
            b64_code((bytes[i] & 3) << 4),
        ],
        bytes.len() == i + 2 ==> encode64(bytes) =~= encode64(bytes.take(i)) + seq![
            b64_code(bytes[i] >> 2),
            b64_code(((bytes[i] & 3) << 4) | (bytes[i + 1] >> 4)),
            b64_code((bytes[i + 1] & 15) << 2),
        ],
    decreases i,
{
    if i == 0 {
        assert(bytes.take(0) =~= Seq::<u8>::empty());
    } else {
        lemma_encode_extend_tail(bytes.skip(3), i - 3);
        assert(bytes.skip(3).take(i - 3) =~= bytes.take(i).skip(3));
        assert(bytes.skip(3)[i - 3] == bytes[i]);
        assert(bytes.len() == i + 2 ==> bytes.skip(3)[i - 2] == bytes[i + 1]);
    }
}

/// Convert from URL-safe base64 string without padding.
pub fn decode(s: &str) -> (r: Option<Vec<u8>>)
    ensures
        match r {
            Some(v) => decode64(s@) == Some(v@),
            None => decode64(s@) is None,
        },
{
    let n = s.unicode_len();
    let mut out: Vec<u8> = Vec::new();
    let mut i: usize = 0;
    proof {
        assert(s@.skip(0) =~= s@);
    }
    while 4 <= n && i <= n - 4 && n - i != 5
        invariant
            i <= n,
            i % 4 == 0,
            n == s@.len(),
            decode64(s@) matches Some(w) ==> w =~= out@ + decode64_from(s@, i as int)->Some_0,
            (decode64(s@) is Some <==> decode64_from(s@, i as int) is Some),
        decreases n - i,
    {
        proof {
            lemma_decode_from_step(s@, i as int);
        }
        let v0 = match b64_value(s.get_char(i)) {
            Some(v) => v,
            None => {
                return None;
            },
        };
        let v1 = match b64_value(s.get_char(i + 1)) {
            Some(v) => v,
            None => {
                return None;
            },
        };
        let v2 = match b64_value(s.get_char(i + 2)) {
            Some(v) => v,
            None => {
                return None;
            },
        };
        let v3 = match b64_value(s.get_char(i + 3)) {
            Some(v) => v,
            None => {
                return None;
            },
        };
        out.push((v0 << 2) | (v1 >> 4));
        out.push(((v1 & 15) << 4) | (v2 >> 2));
        out.push(((v2 & 3) << 6) | v3);
        i = i + 4;
    }
    proof {
        lemma_decode_from_step(s@, i as int);
        if i + 5 == n {
            lemma_decode_from_step(s@, i as int + 4);
        }
    }
    if i == n {
        return Some(out);
    }
    if n - i == 2 {
        let v0 = match b64_value(s.get_char(i)) {
            Some(v) => v,
            None => {
                return None;
            },
        };
        let v1 = match b64_value(s.get_char(i + 1)) {
            Some(v) => v,
            None => {
                return None;
            },
        };
        if v1 & 15 != 0 {
            return None;
        }
        out.push((v0 << 2) | (v1 >> 4));
        return Some(out);
    }
    if n - i == 3 {
        let v0 = match b64_value(s.get_char(i)) {
            Some(v) => v,
            None => {
                return None;
            },
        };
        let v1 = match b64_value(s.get_char(i + 1)) {
            Some(v) => v,
            None => {
                return None;
            },
        };
        let v2 = match b64_value(s.get_char(i + 2)) {
            Some(v) => v,
            None => {
                return None;
            },
        };
        if v2 & 3 != 0 {
            return None;
        }
        out.push((v0 << 2) | (v1 >> 4));
        out.push(((v1 & 15) << 4) | (v2 >> 2));
        return Some(out);
    }
    None
}

/// The decoding of the text from position `i` on.
pub open spec fn decode64_from(s: Seq<char>, i: int) -> Option<Seq<u8>> {
    decode64(s.skip(i))
}

/// One unfolding of the decoder at position `i`.
proof fn lemma_decode_from_step(s: Seq<char>, i: int)
    requires
        0 <= i <= s.len(),
    ensures
        s.len() - i == 0 ==> decode64_from(s, i) == Some(Seq::<u8>::empty()),
        s.len() - i == 1 ==> decode64_from(s, i) is None,
        s.len() - i == 2 ==> decode64_from(s, i) == (match (
            b64_val(s[i]),
            b64_val(s[i + 1]),
        ) {
            (Some(v0), Some(v1)) => if v1 & 15 == 0 {
                Some(seq![(v0 << 2) | (v1 >> 4)])
            } else {
                None::<Seq<u8>>
            },
            _ => None,
        }),
        s.len() - i == 3 ==> decode64_from(s, i) == (match (
            b64_val(s[i]),
            b64_val(s[i + 1]),
            b64_val(s[i + 2]),
        ) {
            (Some(v0), Some(v1), Some(v2)) => if v2 & 3 == 0 {
                Some(seq![(v0 << 2) | (v1 >> 4), ((v1 & 15) << 4) | (v2 >> 2)])
            } else {
                None::<Seq<u8>>
            },
            _ => None,
        }),
        s.len() - i >= 4 ==> decode64_from(s, i) == (match (
            b64_val(s[i]),
            b64_val(s[i + 1]),
            b64_val(s[i + 2]),
            b64_val(s[i + 3]),
        ) {
            (Some(v0), Some(v1), Some(v2), Some(v3)) => match decode64_from(s, i + 4) {
                Some(rest) => Some(
                    seq![
                        (v0 << 2) | (v1 >> 4),
                        ((v1 & 15) << 4) | (v2 >> 2),
                        ((v2 & 3) << 6) | v3,
                    ] + rest,
                ),
                None => None::<Seq<u8>>,
            },
            _ => None,
        }),
{
    let t = s.skip(i);
    assert(t.len() == s.len() - i);
    if s.len() - i >= 2 {
        assert(t[0] == s[i]);
        assert(t[1] == s[i + 1]);
    }
    if s.len() - i >= 3 {
        assert(t[2] == s[i + 2]);
    }
    if s.len() - i >= 4 {
        assert(t[3] == s[i + 3]);
        assert(t.skip(4) =~= s.skip(i + 4));
    }
}

} // verus!
