//! DNS host names and domain patterns.
//!
//! A host name is a dot-separated list of labels, each 1 to 63 characters
//! from letters, digits, `_` and `-` (with `-` neither first nor last in a
//! label), at most 253 characters in all, optionally with one trailing dot,
//! and with a final label that is not all digits (so it cannot be confused
//! with an IPv4 address).  A pattern `*.suffix` matches a domain whose
//! ASCII-lowercased form ends in the lowercased suffix at a `.` boundary.

use vstd::prelude::*;
use vstd::string::StrSliceExecFns;
use vstd::string::StringExecFns;

verus! {

/// The code point of a character, ASCII-lowercased.
pub open spec fn lower_code(c: char) -> int {
    if 65 <= c as u32 && c as u32 <= 90 {
        c as u32 + 32
    } else {
        c as u32 as int
    }
}

/// A character allowed inside a host name label.
pub open spec fn is_label_char(c: char) -> bool {
    ('a' <= c && c <= 'z') || ('A' <= c && c <= 'Z') || ('0' <= c && c <= '9') || c == '-' || c
        == '_'
}

/// A decimal digit.
pub open spec fn is_digit(c: char) -> bool {
    '0' <= c && c <= '9'
}

/// The position of the first `.` at or after `i`, or the length if none.
pub open spec fn first_dot_from(s: Seq<char>, i: int) -> int
    decreases s.len() - i,
{
    if i < 0 || i >= s.len() {
        s.len() as int
    } else if s[i] == '.' {
        i
    } else {
        first_dot_from(s, i + 1)
    }
}

/// The characters `[i, e)` form one valid label.
pub open spec fn label_ok(s: Seq<char>, i: int, e: int) -> bool {
    &&& 1 <= e - i <= 63
    &&& 0 <= i && e <= s.len()
    &&& forall|k: int| i <= k < e ==> is_label_char(#[trigger] s[k])
    &&& s[i] != '-'
    &&& s[e - 1] != '-'
}

/// All characters in `[i, e)` are digits.
pub open spec fn all_digits(s: Seq<char>, i: int, e: int) -> bool {
    forall|k: int| i <= k < e ==> is_digit(#[trigger] s[k])
}

/// The labels from position `i` on are valid, and the last one is not all
/// digits.
pub open spec fn valid_labels_from(s: Seq<char>, i: int) -> bool
    decreases s.len() - i,
{
    let e = first_dot_from(s, i);
    if e == s.len() {
        label_ok(s, i, e) && !all_digits(s, i, e)
    } else if i < 0 {
        false
    } else {
        label_ok(s, i, e) && valid_labels_from(s, e + 1)
    }
}

/// The whole string is a valid host name.
pub open spec fn is_hostname(s: Seq<char>) -> bool {
    s.len() <= 253 && {
        let t = if s.len() > 0 && s[s.len() - 1] == '.' {
            s.drop_last()
        } else {
            s
        };
        t.len() >= 1 && valid_labels_from(t, 0)
    }
}

/// If no dot lies in `[i, j)` and `j` is a dot or the end, the first dot
/// from `i` is at `j`.
proof fn lemma_first_dot(s: Seq<char>, i: int, j: int)
    requires
        0 <= i <= j <= s.len(),
        forall|k: int| i <= k < j ==> #[trigger] s[k] != '.',
        j == s.len() || s[j] == '.',
    ensures
        first_dot_from(s, i) == j,
    decreases j - i,
{
    if i < j {
        lemma_first_dot(s, i + 1, j);
    }
}

/// Find the first dot at or after `i` in `s`.
fn scan_dot(s: &str, i: usize, n: usize) -> (e: usize)
    requires
        n == s@.len(),
        i <= n,
    ensures
        e == first_dot_from(s@, i as int),
        i <= e <= n,
{
    let mut j: usize = i;
    while j < n
        invariant
            i <= j <= n,
            n == s@.len(),
            forall|k: int| i <= k < j ==> #[trigger] s@[k] != '.',
        decreases n - j,
    {
        if s.get_char(j) == '.' {
            proof {
                lemma_first_dot(s@, i as int, j as int);
            }
            return j;
        }
        j = j + 1;
    }
    proof {
        lemma_first_dot(s@, i as int, n as int);
    }
    n
}

/// Is the character allowed inside a label?
fn label_char(c: char) -> (r: bool)
    ensures
        r == is_label_char(c),
{
    ('a' <= c && c <= 'z') || ('A' <= c && c <= 'Z') || ('0' <= c && c <= '9') || c == '-' || c
        == '_'
}

/// Check the label `[i, e)` and report whether it is all digits.
fn check_label(s: &str, i: usize, e: usize, n: usize) -> (r: (bool, bool))
    requires
        n == s@.len(),
        i <= e <= n,
    ensures
        r.0 == label_ok(s@, i as int, e as int),
        r.1 == all_digits(s@, i as int, e as int),
{
    if e - i < 1 || e - i > 63 {
        let digits = all_digits_exec(s, i, e, n);
        return (false, digits);
    }
    let mut ok: bool = true;
    let mut digits: bool = true;
    let mut k: usize = i;
    while k < e
        invariant
            i <= k <= e <= n,
            n == s@.len(),
            ok == forall|m: int| i <= m < k ==> is_label_char(#[trigger] s@[m]),
            digits == all_digits(s@, i as int, k as int),
        decreases e - k,
    {
        let c = s.get_char(k);
        if !label_char(c) {
            ok = false;
        }
        if !('0' <= c && c <= '9') {
            digits = false;
        }
        k = k + 1;
    }
    let first = s.get_char(i);
    let last = s.get_char(e - 1);
    (ok && first != '-' && last != '-', digits)
}

/// Are the characters `[i, e)` all digits?
fn all_digits_exec(s: &str, i: usize, e: usize, n: usize) -> (r: bool)
    requires
        n == s@.len(),
        i <= e <= n,
    ensures
        r == all_digits(s@, i as int, e as int),
{
    let mut k: usize = i;
    while k < e
        invariant
            i <= k <= e <= n,
            n == s@.len(),
            all_digits(s@, i as int, k as int),
        decreases e - k,
    {
        let c = s.get_char(k);
        if !('0' <= c && c <= '9') {
            return false;
        }
        k = k + 1;
    }
    true
}

/// Check all labels from position `i` on.
fn valid_from(s: &str, i: usize, n: usize) -> (r: bool)
    requires
        n == s@.len(),
        i <= n,
    ensures
        r == valid_labels_from(s@, i as int),
    decreases n - i,
{
    let e = scan_dot(s, i, n);
    let (ok, digits) = check_label(s, i, e, n);
    if e == n {
        ok && !digits
    } else {
        if !ok {
            false
        } else {
            valid_from(s, e + 1, n)
        }
    }
}

/// Is the string a valid host name?
pub fn is_valid_hostname(s: &str) -> (r: bool)
    ensures
        r == is_hostname(s@),
{
    let n = s.unicode_len();
    if n > 253 {
        return false;
    }
    let m: usize = if n > 0 && s.get_char(n - 1) == '.' {
        n - 1
    } else {
        n
    };
    if m == 0 {
        return false;
    }
    if m == n {
        proof {
            assert(s@.take(n as int) =~= s@);
        }
        let r = valid_from(s, 0, n);
        proof {
            lemma_valid_labels_take(s@, n as int, 0);
        }
        r
    } else {
        let t = s.substring_char(0, m);
        proof {
            assert(s@.drop_last() =~= s@.take(m as int));
        }
        valid_from(t, 0, m)
    }
}

/// `valid_labels_from` only looks at the string; taking the whole string
/// changes nothing.
proof fn lemma_valid_labels_take(s: Seq<char>, n: int, i: int)
    requires
        n == s.len(),
    ensures
        valid_labels_from(s.take(n), i) == valid_labels_from(s, i),
{
    assert(s.take(n) =~= s);
}

/// A validated DNS host name, stored exactly as written.
#[derive(Debug, Clone)]
pub struct HostName {
    text: String,
}

/// Error carrying the string that was not a valid host name.
#[derive(Debug, Clone)]
pub struct InvalidHostName {
    pub input: String,
}

impl View for HostName {
    type V = Seq<char>;

    closed spec fn view(&self) -> Seq<char> {
        self.text@
    }
}

impl HostName {
    pub closed spec fn wf(&self) -> bool {
        is_hostname(self.text@)
    }

    /// A well-formed host name satisfies the host-name grammar.
    pub proof fn lemma_wf(&self)
        requires
            self.wf(),
        ensures
            is_hostname(self@),
    {
    }

    /// Accept a string exactly when it is a valid host name.
    pub fn parse(s: &str) -> (r: Result<HostName, InvalidHostName>)
        ensures
            match r {
                Ok(h) => h@ == s@ && h.wf() && is_hostname(s@),
                Err(e) => !is_hostname(s@) && e.input@ == s@,
            },
    {
        if is_valid_hostname(s) {
            Ok(HostName { text: s.to_owned() })
        } else {
            Err(InvalidHostName { input: s.to_owned() })
        }
    }

    pub fn as_str(&self) -> (r: &str)
        ensures
            r@ == self@,
    {
        self.text.as_str()
    }

    /// Case-insensitive equality with another string.
    pub fn eq_ignore_case(&self, other: &str) -> (r: bool)
        ensures
            r == eq_nocase(self@, other@),
    {
        str_eq_nocase(self.text.as_str(), other)
    }
}

/// ASCII-case-insensitive equality of two character sequences.
pub open spec fn eq_nocase(a: Seq<char>, b: Seq<char>) -> bool {
    a.len() == b.len() && forall|i: int|
        0 <= i < a.len() ==> lower_code(#[trigger] a[i]) == lower_code(#[trigger] b[i])
}

/// Compare two strings for equality ignoring ASCII case.
pub fn str_eq_nocase(a: &str, b: &str) -> (r: bool)
    ensures
        r == eq_nocase(a@, b@),
{
    let n = a.unicode_len();
    if n != b.unicode_len() {
        return false;
    }
    for i in 0..n
        invariant
            n == a@.len(),
            n == b@.len(),
            forall|j: int| 0 <= j < i ==> lower_code(#[trigger] a@[j]) == lower_code(#[trigger] b@[j]),
    {
        if !char_eq_nocase(a.get_char(i), b.get_char(i)) {
            return false;
        }
    }
    true
}

/// Compare two characters ignoring ASCII case.
fn char_eq_nocase(a: char, b: char) -> (r: bool)
    ensures
        r == (lower_code(a) == lower_code(b)),
{
    let ua = a as u32;
    let ub = b as u32;
    let la: u32 = if 65 <= ua && ua <= 90 {
        ua + 32
    } else {
        ua
    };
    let lb: u32 = if 65 <= ub && ub <= 90 {
        ub + 32
    } else {
        ub
    };
    la == lb
}

/// A pattern matching domain names: either every domain, or `*.suffix`.
#[derive(Debug, Clone)]
pub struct DnsPattern {
    suffix: Option<HostName>,
}

impl View for DnsPattern {
    type V = Option<Seq<char>>;

    closed spec fn view(&self) -> Option<Seq<char>> {
        match self.suffix {
            None => None,
            Some(h) => Some(h@),
        }
    }
}

/// Does a pattern match a domain?  The empty pattern matches everything.
/// `*.suffix` matches a domain whose lowercased form ends in the lowercased
/// suffix, either exactly or right after a `.`.
pub open spec fn pattern_matches(p: Option<Seq<char>>, d: Seq<char>) -> bool {
    match p {
        None => true,
        Some(pat) => d.len() >= pat.len() && (forall|k: int|
            0 <= k < pat.len() ==> lower_code(#[trigger] pat[pat.len() - 1 - k]) == lower_code(
                d[d.len() - 1 - k],
            )) && (d.len() == pat.len() || d[d.len() - pat.len() - 1] == '.'),
    }
}

impl DnsPattern {
    pub closed spec fn wf(&self) -> bool {
        match self.suffix {
            None => true,
            Some(h) => h.wf(),
        }
    }

    /// A pattern that matches every domain.
    pub fn wildcard() -> (r: DnsPattern)
        ensures
            r@ is None,
            r.wf(),
    {
        DnsPattern { suffix: None }
    }

    /// The pattern `*.suffix` for a valid host name suffix.
    pub fn from_suffix(h: HostName) -> (r: DnsPattern)
        requires
            h.wf(),
        ensures
            r@ == Some(h@),
            r.wf(),
    {
        DnsPattern { suffix: Some(h) }
    }

    /// Parse `*.suffix` (or `*.` for the match-all pattern).
    pub fn parse(s: &str) -> (r: Option<DnsPattern>)
        ensures
            match r {
                Some(p) => p.wf() && pattern_parse_spec(s@) == Some(p@),
                None => pattern_parse_spec(s@) is None,
            },
    {
        let n = s.unicode_len();
        if n < 2 || s.get_char(0) != '*' || s.get_char(1) != '.' {
            return None;
        }
        if n == 2 {
            proof {
                assert(s@.skip(2) =~= Seq::<char>::empty());
            }
            return Some(DnsPattern { suffix: None });
        }
        let rest = s.substring_char(2, n);
        proof {
            assert(s@.subrange(2, n as int) =~= s@.skip(2));
        }
        match HostName::parse(rest) {
            Ok(h) => Some(DnsPattern { suffix: Some(h) }),
            Err(_) => None,
        }
    }

    /// Render this pattern as `*.` followed by its suffix.
    pub fn to_text(&self) -> (r: String)
        ensures
            r@ == pattern_text(self@),
    {
        let mut out = String::from_str("*.");
        proof {
            reveal_strlit("*.");
            assert(out@ =~= seq!['*', '.']);
        }
        match &self.suffix {
            None => {},
            Some(h) => {
                out.append(h.as_str());
            },
        }
        out
    }

    /// Check if the given domain matches this pattern.
    pub fn matches(&self, domain: &str) -> (r: bool)
        ensures
            r == pattern_matches(self@, domain@),
    {
        let pat: &HostName = match &self.suffix {
            None => {
                return true;
            },
            Some(h) => h,
        };
        let p = pat.as_str();
        let np = p.unicode_len();
        let nd = domain.unicode_len();
        if nd < np {
            return false;
        }
        for k in 0..np
            invariant
                np == p@.len(),
                nd == domain@.len(),
                nd >= np,
                self@ == Some(p@),
                forall|j: int|
                    0 <= j < k ==> lower_code(#[trigger] p@[np - 1 - j]) == lower_code(
                        domain@[nd - 1 - j],
                    ),
        {
            if !char_eq_nocase(p.get_char(np - 1 - k), domain.get_char(nd - 1 - k)) {
                return false;
            }
        }
        if nd == np {
            return true;
        }
        domain.get_char(nd - np - 1) == '.'
    }
}

/// The written form of a pattern: `*.` followed by the suffix, if any.
pub open spec fn pattern_text(p: Option<Seq<char>>) -> Seq<char> {
    match p {
        None => seq!['*', '.'],
        Some(s) => seq!['*', '.'] + s,
    }
}

/// What `DnsPattern::parse` accepts: a leading `*.`, then nothing or a
/// valid host name.
pub open spec fn pattern_parse_spec(s: Seq<char>) -> Option<Option<Seq<char>>> {
    if s.len() < 2 || s[0] != '*' || s[1] != '.' {
        None
    } else if s.len() == 2 {
        Some(None)
    } else if is_hostname(s.skip(2)) {
        Some(Some(s.skip(2)))
    } else {
        None
    }
}

/// A pattern matches any domain built by putting something and a dot in
/// front of its own suffix; without the dot boundary nothing is matched.
/// The match-all pattern matches every domain.
pub proof fn lemma_pattern_suffix(sfx: Seq<char>, prefix: Seq<char>, d: Seq<char>)
    requires
        prefix.len() >= 1,
    ensures
        pattern_matches(Some(sfx), prefix + seq!['.'] + sfx),
        (forall|k: int| 0 <= k < prefix.len() ==> is_label_char(#[trigger] prefix[k]) && prefix[k]
            != '.') ==> !pattern_matches(Some(sfx), prefix + sfx),
        pattern_matches(None, d),
{
    let with_dot = prefix + seq!['.'] + sfx;
    assert(with_dot.len() == prefix.len() + 1 + sfx.len());
    assert forall|k: int| 0 <= k < sfx.len() implies lower_code(#[trigger] sfx[sfx.len() - 1 - k])
        == lower_code(with_dot[with_dot.len() - 1 - k]) by {
        assert(with_dot[with_dot.len() - 1 - k] == sfx[sfx.len() - 1 - k]);
    }
    assert(with_dot[with_dot.len() - sfx.len() - 1] == '.');
    let no_dot = prefix + sfx;
    if forall|k: int| 0 <= k < prefix.len() ==> is_label_char(#[trigger] prefix[k]) && prefix[k]
        != '.' {
        assert(no_dot.len() > sfx.len());
        assert(no_dot[no_dot.len() - sfx.len() - 1] == prefix[prefix.len() - 1]);
        assert(prefix[prefix.len() - 1] != '.');
    }
}

} // verus!
