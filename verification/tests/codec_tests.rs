//! Codec round trips for every message variant, unknown-variant
//! tolerance, and the length-prefix framing.

use cluvio_agent::address::Address;
use cluvio_agent::codec::{
    FrameOutcome, read_client_msg, read_connect_msg, read_reply_msg, read_server_msg, read_frame,
    write_client_msg, write_connect_msg, write_reply_msg, write_server_msg, write_frame,
};
use cluvio_agent::ip::{Ip, SockAddr};
use cluvio_agent::protocol::{
    CipherText, Client, Connect, ConnectReply, Data, ErrorCode, Id, Message, Reason, Server,
    Version,
};

fn sample_cipher() -> CipherText {
    CipherText(Data { key: [1u8; 32], data: [2u8; 32], tag: [3u8; 16] })
}

fn server_round_trip(m: Message<Server>) {
    let bytes = write_server_msg(&m);
    let back = read_server_msg(&bytes).expect("decodes");
    let again = write_server_msg(&back);
    assert_eq!(bytes, again);
}

fn client_round_trip(m: Message<Client>) {
    let bytes = write_client_msg(&m);
    let back = read_client_msg(&bytes).expect("decodes");
    let again = write_client_msg(&back);
    assert_eq!(bytes, again);
}

#[test]
fn server_variants_round_trip() {
    let id = Id::from_u64(0x0102030405060708);
    server_round_trip(Message { id, data: Some(Server::Ping) });
    server_round_trip(Message { id, data: Some(Server::Pong { re: Id::from_u64(7) }) });
    server_round_trip(Message { id, data: Some(Server::Challenge { text: sample_cipher() }) });
    server_round_trip(
        Message { id, data: Some(Server::Terminate { reason: Reason::Unauthorized }) },
    );
    server_round_trip(
        Message {
            id,
            data: Some(
                Server::Test {
                    addr: Address::Addr(SockAddr { ip: Ip::V4(0x0A010203), port: 22 }),
                },
            ),
        },
    );
    server_round_trip(
        Message {
            id,
            data: Some(Server::Test { addr: Address::Name("db.example.com".to_string(), 5432) }),
        },
    );
    server_round_trip(
        Message {
            id,
            data: Some(
                Server::Test {
                    addr: Address::Addr(SockAddr { ip: Ip::V6(0x2001_0db8_u128 << 96), port: 443 }),
                },
            ),
        },
    );
    server_round_trip(Message { id, data: Some(Server::SwitchToNewConnection) });
    server_round_trip(Message { id, data: Some(Server::Error { msg: "boom".to_string() }) });
    server_round_trip(Message { id, data: Some(Server::Accepted) });
    server_round_trip(Message { id, data: None });
}

#[test]
fn client_variants_round_trip() {
    let id = Id::from_u64(0xCAFE);
    client_round_trip(
        Message {
            id,
            data: Some(
                Client::Hello {
                    pubkey: vec![9u8; 32],
                    agent_version: Version { major: 1, minor: 2, patch: 3 },
                },
            ),
        },
    );
    client_round_trip(Message { id, data: Some(Client::Ping) });
    client_round_trip(Message { id, data: Some(Client::Pong { re: Id::from_u64(1) }) });
    client_round_trip(
        Message {
            id,
            data: Some(Client::Response { re: Id::from_u64(2), text: vec![0u8; 32] }),
        },
    );
    for code in [None, Some(ErrorCode::CouldNotConnect), Some(ErrorCode::DecryptionFailed)] {
        for msg in [None, Some("details".to_string())] {
            client_round_trip(
                Message {
                    id,
                    data: Some(Client::Error { re: Id::from_u64(3), code, msg: msg.clone() }),
                },
            );
        }
    }
    client_round_trip(
        Message {
            id,
            data: Some(
                Client::Test { re: Id::from_u64(4), code: Some(ErrorCode::AddressNotAllowed) },
            ),
        },
    );
    client_round_trip(Message { id, data: Some(Client::Test { re: Id::from_u64(5), code: None }) });
    client_round_trip(
        Message { id, data: Some(Client::SwitchingConnection { re: Id::from_u64(6) }) },
    );
    client_round_trip(Message { id, data: None });
}

#[test]
fn connect_and_reply_round_trip() {
    for hc in [None, Some(true), Some(false)] {
        let m = Message {
            id: Id::from_u64(11),
            data: Some(
                Connect {
                    addr: Address::Addr(SockAddr { ip: Ip::V4(0x0A010203), port: 22 }),
                    use_half_close: hc,
                },
            ),
        };
        let bytes = write_connect_msg(&m);
        let back = read_connect_msg(&bytes).expect("decodes");
        assert_eq!(bytes, write_connect_msg(&back));
    }
    for reply in [ConnectReply::Success, ConnectReply::Failure(ErrorCode::CouldNotConnect)] {
        let m = Message { id: Id::from_u64(12), data: Some(reply) };
        let bytes = write_reply_msg(&m);
        let back = read_reply_msg(&bytes).expect("decodes");
        assert_eq!(bytes, write_reply_msg(&back));
    }
}

#[test]
fn unknown_variant_decodes_to_none() {
    // array(2) [ id 5, array(2) [ variant 9, array(0) ] ]
    let frame: Vec<u8> = vec![0x82, 0x05, 0x82, 0x09, 0x80];
    let m = read_server_msg(&frame).expect("decodes");
    assert_eq!(m.id.numeric(), 5);
    assert!(m.data.is_none());
    let m2 = read_client_msg(&frame).expect("decodes");
    assert!(m2.data.is_none());
}

#[test]
fn garbage_is_refused() {
    assert!(read_server_msg(&[0xff, 0x00]).is_none());
    assert!(read_server_msg(&[]).is_none());
    // A known variant with malformed fields is an error, not `None`.
    let bad: Vec<u8> = vec![0x82, 0x05, 0x82, 0x01, 0x80];
    assert!(read_server_msg(&bad).is_none());
}

#[test]
fn framing_round_trip() {
    let payload: Vec<u8> = vec![1, 2, 3, 4, 5];
    let framed = write_frame(&payload).expect("within the limit");
    assert_eq!(&framed[..4], &[0, 0, 0, 5]);
    match read_frame(&framed) {
        FrameOutcome::Payload(p, used) => {
            assert_eq!(p, payload);
            assert_eq!(used, 9);
        },
        _ => panic!("expected a payload"),
    }
    match read_frame(&framed[..6]) {
        FrameOutcome::NeedMore => {},
        _ => panic!("truncated frame must ask for more"),
    }
    match read_frame(&[0xff, 0xff, 0xff, 0xff]) {
        FrameOutcome::TooLarge => {},
        _ => panic!("oversized frame must be refused"),
    }
}

#[test]
fn id_hex_rendering() {
    let id = Id::from_u64(0x1A2B);
    assert_eq!(id.to_hex(), format!("{:016x}", 0x1A2Bu64));
    assert_eq!(Id::from_u64(0).to_hex(), "0000000000000000");
    assert_eq!(Id::from_u64(u64::MAX).to_hex(), "ffffffffffffffff");
}
