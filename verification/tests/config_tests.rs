//! Configuration helpers: key decoding, defaults, durations, and the
//! small utility values.

use cluvio_agent::config::{
    Config, decode_base64_array, decode_duration, decode_secret_key, default_connect_timeout,
    default_net, default_ping_frequency, default_port, encode_duration, encode_secret_key,
};
use cluvio_agent::dns::HostName;
use cluvio_agent::sealed::{gen_secret_key, SecretKey};
use cluvio_agent::time::UnixTime;
use cluvio_agent::util::{Answer, Location, NonEmpty};
use cluvio_agent::version;

#[test]
fn secret_key_base64_round_trip() {
    let sk = gen_secret_key();
    let text = encode_secret_key(&sk);
    let back = decode_secret_key(&text).expect("valid key text");
    assert_eq!(encode_secret_key(&back), text);
    assert!(decode_secret_key("not base64 !").is_none());
    assert!(decode_secret_key("AAAA").is_none(), "three bytes are not a key");
}

#[test]
fn base64_array_length_is_checked() {
    assert!(decode_base64_array::<3>("AAAA").is_some());
    assert!(decode_base64_array::<4>("AAAA").is_none());
}

#[test]
fn defaults() {
    assert_eq!(default_port(), 443);
    assert_eq!(default_connect_timeout(), 30);
    assert_eq!(default_ping_frequency(), 60);
    let net = default_net();
    assert_eq!(net.len(), 3);
    let sk = SecretKey::from_bytes([1u8; 32]);
    let host = HostName::parse("gateway.example.com").expect("valid host");
    let cfg = Config::new(sk, host, 9000);
    assert_eq!(cfg.connect_timeout_secs, 30);
    assert_eq!(cfg.ping_frequency_secs, 60);
    assert_eq!(cfg.server.port, 9000);
    assert!(cfg.server.trust.is_none());
    assert_eq!(cfg.allowed_addresses.len(), 3);
}

#[test]
fn durations() {
    assert_eq!(decode_duration("30s"), Some((30, 0)));
    assert_eq!(decode_duration("2m 30s"), Some((150, 0)));
    assert_eq!(decode_duration("1h"), Some((3600, 0)));
    assert!(decode_duration("soon").is_none());
    // Texts over the twenty-character bound are not read at all.
    assert!(decode_duration("1year 2months 3days 4h").is_none());
    assert_eq!(encode_duration(150, 0), "2m 30s");
}

#[test]
fn locations_and_answers() {
    assert!(matches!(Location::parse("eu"), Ok(Location::Eu)));
    assert!(matches!(Location::parse("US"), Ok(Location::Us)));
    assert!(Location::parse("mars").is_err());
    assert_eq!(Location::Eu.as_str(), "eu");
    let a = Answer::new("y".to_string());
    assert!(a.is_any_of(&["", "y", "Y"]));
    assert!(!a.is_any_of(&["n", "N"]));
}

#[test]
fn non_empty_vectors() {
    let ne = NonEmpty::new(7u32);
    assert_eq!(ne.len(), 1);
    assert!(NonEmpty::<u32>::try_from_vec(vec![]).is_err());
    let ok = NonEmpty::try_from_vec(vec![1u32, 2, 3]).expect("non-empty");
    assert_eq!(ok.len(), 3);
}

#[test]
fn timestamps_and_version() {
    let t = UnixTime::from_seconds(1000);
    assert_eq!(t.seconds(), 1000);
    let now = UnixTime::now().expect("clock after the epoch");
    assert!(now.seconds() > 0);
    let v = version();
    assert_eq!((v.major, v.minor, v.patch), (1, 0, 0));
}
