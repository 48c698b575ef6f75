//! Small general-purpose values: non-empty vectors, console answers,
//! gateway locations.

use vstd::prelude::*;
use vstd::string::StrSliceExecFns;
use vstd::string::StringSliceAdditionalSpecFns;

verus! {

/// A vector that is never empty.
#[derive(Debug, Clone)]
pub struct NonEmpty<T> {
    items: Vec<T>,
}

/// Error returned when a `NonEmpty` is built from an empty vector.
#[derive(Debug, Clone)]
pub struct Empty {
    dummy: bool,
}

impl<T> View for NonEmpty<T> {
    type V = Seq<T>;

    closed spec fn view(&self) -> Seq<T> {
        self.items@
    }
}

impl<T> NonEmpty<T> {
    /// The contents are never empty.
    pub proof fn lemma_non_empty(&self)
        requires
            self.wf(),
        ensures
            self@.len() >= 1,
    {
    }

    pub closed spec fn wf(&self) -> bool {
        self.items@.len() >= 1
    }

    /// A one-element vector.
    pub fn new(val: T) -> (r: Self)
        ensures
            r.wf(),
            r@ =~= seq![val],
    {
        let mut items: Vec<T> = Vec::new();
        items.push(val);
        NonEmpty { items }
    }

    /// Accept a vector as non-empty exactly when it has an element.
    pub fn try_from_vec(v: Vec<T>) -> (r: Result<Self, Empty>)
        ensures
            match r {
                Ok(ne) => ne.wf() && ne@ == v@ && v@.len() >= 1,
                Err(_) => v@.len() == 0,
            },
    {
        if v.len() == 0 {
            Err(Empty { dummy: true })
        } else {
            Ok(NonEmpty { items: v })
        }
    }

    /// Borrow the underlying vector.
    pub fn as_vec(&self) -> (r: &Vec<T>)
        ensures
            r@ == self@,
    {
        &self.items
    }

    /// Give the underlying vector up.
    pub fn into_vec(self) -> (r: Vec<T>)
        ensures
            r@ == self@,
    {
        self.items
    }

    /// Number of elements; at least one for a well-formed value.
    pub fn len(&self) -> (n: usize)
        ensures
            n == self@.len(),
    {
        self.items.len()
    }
}

/// A trimmed line read from an interactive console.
#[derive(Debug)]
pub struct Answer {
    text: String,
}

impl View for Answer {
    type V = Seq<char>;

    closed spec fn view(&self) -> Seq<char> {
        self.text@
    }
}

impl Answer {
    pub fn new(text: String) -> (r: Self)
        ensures
            r@ == text@,
    {
        Answer { text }
    }

    pub fn as_str(&self) -> (r: &str)
        ensures
            r@ == self@,
    {
        self.text.as_str()
    }

    /// True exactly when the answer equals one of the given strings.
    pub fn is_any_of(&self, items: &[&str]) -> (r: bool)
        ensures
            r == exists|i: int| 0 <= i < items@.len() && items@[i]@ == self@,
    {
        let n = items.len();
        for i in 0..n
            invariant
                n == items@.len(),
                forall|j: int| 0 <= j < i ==> items@[j]@ != self@,
        {
            let s: &str = items[i];
            if str_eq(s, self.text.as_str()) {
                return true;
            }
        }
        false
    }
}

/// The code points of a string's characters.
pub open spec fn char_codes(s: Seq<char>) -> Seq<u32> {
    s.map_values(|c: char| c as u32)
}

/// Relies on `String::from_utf8`: ASCII bytes become exactly one character
/// per byte, with equal code points.  The input is ASCII, so the conversion
/// cannot fail.
#[verifier::external_body]
pub fn ascii_to_string(v: Vec<u8>) -> (r: String)
    requires
        forall|i: int| 0 <= i < v@.len() ==> v@[i] < 128,
    ensures
        r@.len() == v@.len(),
        forall|i: int| 0 <= i < v@.len() ==> r@[i] as u32 == v@[i] as u32,
        vstd::utf8::is_ascii_chars(r@),
{
    String::from_utf8(v).unwrap_or_default()
}

/// Relies on `String::from_utf8`: it succeeds exactly on valid UTF-8 and
/// yields the characters those bytes encode.
#[verifier::external_body]
pub fn utf8_to_string(v: Vec<u8>) -> (r: Option<String>)
    ensures
        match r {
            Some(s) => vstd::utf8::valid_utf8(v@) && s@ == vstd::utf8::decode_utf8(v@),
            None => !vstd::utf8::valid_utf8(v@),
        },
{
    String::from_utf8(v).ok()
}

/// Relies on `<[u8; N]>::try_from`: it succeeds exactly on a slice of
/// length `N` and keeps the bytes.
#[verifier::external_body]
pub fn bytes_to_array<const N: usize>(v: Vec<u8>) -> (r: Option<[u8; N]>)
    ensures
        match r {
            Some(a) => a@ == v@,
            None => v@.len() != N,
        },
{
    <[u8; N]>::try_from(v.as_slice()).ok()
}

/// Byte-wise equality of two byte slices.
pub fn bytes_eq(a: &[u8], b: &[u8]) -> (r: bool)
    ensures
        r == (a@ == b@),
{
    if a.len() != b.len() {
        return false;
    }
    let n = a.len();
    for i in 0..n
        invariant
            a@.len() == n,
            b@.len() == n,
            forall|j: int| 0 <= j < i ==> a@[j] == b@[j],
    {
        if a[i] != b[i] {
            return false;
        }
    }
    proof {
        assert(a@ =~= b@);
    }
    true
}

/// Character-wise equality of two strings, decided over their UTF-8 bytes.
pub fn str_eq(a: &str, b: &str) -> (r: bool)
    ensures
        r == (a@ == b@),
{
    let r = bytes_eq(a.as_bytes(), b.as_bytes());
    proof {
        if a.spec_bytes() == b.spec_bytes() {
            vstd::utf8::encode_utf8_decode_utf8(a@);
            vstd::utf8::encode_utf8_decode_utf8(b@);
        }
    }
    r
}

/// The region a gateway serves.
#[derive(Debug, Clone, Copy, PartialEq, Eq, Structural)]
pub enum Location {
    Eu,
    Us,
}

/// Error for an unrecognised location string.
#[derive(Debug, Clone)]
pub struct InvalidLocation {
    pub input: String,
}

impl Location {
    /// Parse a location; only `eu` and `us` are known, any ASCII case.
    pub fn parse(s: &str) -> (r: Result<Location, InvalidLocation>)
        ensures
            match r {
                Ok(loc) => (loc == Location::Eu <==> is_eu_text(s@)) && (loc == Location::Us
                    <==> is_us_text(s@)),
                Err(e) => !is_eu_text(s@) && !is_us_text(s@) && e.input@ == s@,
            },
    {
        if s.unicode_len() == 2 {
            let c0 = s.get_char(0);
            let c1 = s.get_char(1);
            if (c0 == 'e' || c0 == 'E') && (c1 == 'u' || c1 == 'U') {
                return Ok(Location::Eu);
            }
            if (c0 == 'u' || c0 == 'U') && (c1 == 's' || c1 == 'S') {
                return Ok(Location::Us);
            }
        }
        Err(InvalidLocation { input: s.to_owned() })
    }

    /// The lower-case name of the location.
    pub fn as_str(&self) -> (r: &'static str)
        ensures
            *self == Location::Eu ==> r@ == "eu"@,
            *self == Location::Us ==> r@ == "us"@,
    {
        match self {
            Location::Eu => "eu",
            Location::Us => "us",
        }
    }
}

/// The string is `eu` in any ASCII case.
pub open spec fn is_eu_text(s: Seq<char>) -> bool {
    s.len() == 2 && (s[0] == 'e' || s[0] == 'E') && (s[1] == 'u' || s[1] == 'U')
}

/// The string is `us` in any ASCII case.
pub open spec fn is_us_text(s: Seq<char>) -> bool {
    s.len() == 2 && (s[0] == 'u' || s[0] == 'U') && (s[1] == 's' || s[1] == 'S')
}

} // verus!
