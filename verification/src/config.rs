//! The agent's configuration: its secret key, timing, allow-list and
//! gateway endpoint, with the helpers that read the file's fields.

use vstd::prelude::*;
use vstd::string::StrSliceExecFns;
use crate::address::Network;
use crate::base64;
use crate::base64::decode64;
use crate::crypto;
use crate::dns::{DnsPattern, HostName};
use crate::ip::IpNet;
use crate::sealed::SecretKey;
use crate::util::{NonEmpty, char_codes};

verus! {

/// Gateway endpoint settings.
#[derive(Debug)]
pub struct Server {
    /// The gateway's host name.
    pub host: HostName,
    /// The port to connect to.
    pub port: u16,
    /// Optional extra trust anchors, as PEM text, handed to the TLS
    /// layer unread.
    pub trust: Option<String>,
}

/// The agent's configuration.
pub struct Config {
    /// The agent's secret key.
    pub secret_key: SecretKey,
    /// The timeout of connect attempts, in seconds.
    pub connect_timeout_secs: u64,
    /// How often to check that the gateway is still there, in seconds.
    pub ping_frequency_secs: u64,
    /// Allowed domains and networks; never empty.
    pub allowed_addresses: NonEmpty<Network>,
    /// Gateway endpoint settings.
    pub server: Server,
}

/// The default gateway port.
pub fn default_port() -> (r: u16)
    ensures
        r == 443,
{
    443
}

/// The default connect timeout in seconds.
pub fn default_connect_timeout() -> (r: u64)
    ensures
        r == 30,
{
    30
}

/// The default ping frequency in seconds.
pub fn default_ping_frequency() -> (r: u64)
    ensures
        r == 60,
{
    60
}

/// The default allow-list: every IPv4 address, every IPv6 address, and
/// every domain name.
pub fn default_net() -> (r: NonEmpty<Network>)
    ensures
        r.wf(),
        r@.len() == 3,
        nets_all_view(r@),
{
    let mut v: Vec<Network> = Vec::new();
    v.push(Network::Net(IpNet::V4 { addr: 0, prefix: 0 }));
    v.push(Network::Net(IpNet::V6 { addr: 0, prefix: 0 }));
    v.push(Network::Pattern(DnsPattern::wildcard()));
    match NonEmpty::try_from_vec(v) {
        Ok(ne) => ne,
        Err(_) => {
            // Three entries were pushed; this branch cannot be taken.
            NonEmpty::new(Network::Pattern(DnsPattern::wildcard()))
        },
    }
}

/// The three entries of the default allow-list.
pub open spec fn nets_all_view(s: Seq<Network>) -> bool {
    &&& s.len() == 3
    &&& s[0]@ == crate::address::NetworkSpec::Net(IpNet::V4 { addr: 0u32, prefix: 0u8 })
    &&& s[1]@ == crate::address::NetworkSpec::Net(IpNet::V6 { addr: 0u128, prefix: 0u8 })
    &&& s[2]@ == crate::address::NetworkSpec::Pattern(None::<Seq<char>>)
}

impl Config {
    /// A configuration with the defaults: thirty-second connects,
    /// sixty-second pings, everything allowed.
    pub fn new(sk: SecretKey, host: HostName, port: u16) -> (r: Config)
        ensures
            r.secret_key@ == sk@,
            r.connect_timeout_secs == 30,
            r.ping_frequency_secs == 60,
            r.allowed_addresses.wf(),
            nets_all_view(r.allowed_addresses@),
            r.server.host@ == host@,
            r.server.port == port,
            r.server.trust is None,
    {
        Config {
            secret_key: sk,
            connect_timeout_secs: default_connect_timeout(),
            ping_frequency_secs: default_ping_frequency(),
            allowed_addresses: default_net(),
            server: Server { host, port, trust: None },
        }
    }
}

/// Read a base64 string, as configuration fields hold binary values.
pub fn decode_base64(s: &str) -> (r: Option<Vec<u8>>)
    ensures
        match r {
            Some(v) => decode64(s@) == Some(v@),
            None => decode64(s@) is None,
        },
{
    base64::decode(s)
}

/// Read a base64 string that must hold exactly `N` bytes.
pub fn decode_base64_array<const N: usize>(s: &str) -> (r: Option<[u8; N]>)
    ensures
        match r {
            Some(a) => decode64(s@) == Some(a@),
            None => (match decode64(s@) {
                Some(v) => v.len() != N,
                None => true,
            }),
        },
{
    match base64::decode(s) {
        Some(v) => crate::util::bytes_to_array::<N>(v),
        None => None,
    }
}

/// Read a base64-encoded secret key.
pub fn decode_secret_key(s: &str) -> (r: Option<SecretKey>)
    ensures
        match r {
            Some(k) => decode64(s@) == Some(k@),
            None => (match decode64(s@) {
                Some(v) => v.len() != 32,
                None => true,
            }),
        },
{
    match decode_base64_array::<32>(s) {
        Some(a) => Some(SecretKey::from_bytes(a)),
        None => None,
    }
}

/// Render a secret key as base64 for the configuration file.
pub fn encode_secret_key(sk: &SecretKey) -> (r: String)
    ensures
        char_codes(r@) == base64::encode64(sk@),
{
    let r = base64::encode(sk.as_bytes().as_slice());
    r
}

/// Read a base64-encoded symmetric key.
pub fn decode_crypto_key(s: &str) -> (r: Option<crypto::Key>)
    ensures
        match r {
            Some(k) => decode64(s@) == Some(k@),
            None => (match decode64(s@) {
                Some(v) => v.len() != 32,
                None => true,
            }),
        },
{
    match decode_base64_array::<32>(s) {
        Some(a) => Some(crypto::Key::from_bytes(a)),
        None => None,
    }
}

/// The duration a human-friendly text denotes, as seconds and nanos.
pub uninterp spec fn duration_of(s: Seq<char>) -> Option<(u64, u32)>;

/// The longest duration text the reader accepts, in characters.
pub const MAX_DURATION_TEXT_LEN: usize = 20;

/// Relies on `humantime::parse_duration`: the parsed value is a function
/// of the text alone.  The length bound keeps the parser's one panicking
/// corner out of reach: its final carry panics only when the seconds
/// total is exactly the largest 64-bit value and the nanoseconds total
/// exactly one second, and spelling that out takes at least twelve year
/// digits with a unit plus two sub-second terms — over twenty characters.
#[verifier::external_body]
fn parse_duration_text(s: &str) -> (r: Option<(u64, u32)>)
    requires
        s@.len() <= MAX_DURATION_TEXT_LEN,
    ensures
        r == duration_of(s@),
{
    humantime::parse_duration(s).ok().map(|d| (d.as_secs(), d.subsec_nanos()))
}

/// Read a human-friendly duration such as `30s` or `2m 30s`.  A text
/// over twenty characters is not read: real configuration durations are
/// short, and the bound keeps a pathological parser input out of reach.
pub fn decode_duration(s: &str) -> (r: Option<(u64, u32)>)
    ensures
        s@.len() <= MAX_DURATION_TEXT_LEN ==> r == duration_of(s@),
        s@.len() > MAX_DURATION_TEXT_LEN ==> r is None,
{
    if s.unicode_len() > MAX_DURATION_TEXT_LEN {
        None
    } else {
        parse_duration_text(s)
    }
}

/// The human-friendly text for a duration of seconds and nanos.
pub uninterp spec fn duration_text_of(secs: u64, nanos: u32) -> Seq<char>;

/// Render a duration as human-friendly text.
///
/// Relies on `humantime::format_duration`: the text is a function of the
/// duration alone.  The nanoseconds must be a real sub-second count;
/// with a full second or more the carry in `Duration::new` could
/// overflow the seconds and panic.
#[verifier::external_body]
pub fn encode_duration(secs: u64, nanos: u32) -> (r: String)
    requires
        nanos < 1_000_000_000,
    ensures
        r@ == duration_text_of(secs, nanos),
{
    humantime::format_duration(std::time::Duration::new(secs, nanos)).to_string()
}

} // verus!
