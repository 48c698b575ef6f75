//! Wire compatibility: the hand-written codec must produce and read the
//! same bytes as the CBOR library the gateway side speaks, so a few
//! representative messages are built both ways and compared, and frames
//! are walked with the reference decoder.

use cluvio_agent::address::Address;
use cluvio_agent::codec::{
    read_client_msg, read_reply_msg, read_server_msg, write_client_msg, write_reply_msg,
    write_server_msg,
};
use cluvio_agent::ip::{Ip, SockAddr};
use cluvio_agent::protocol::{
    CipherText, Client, ConnectReply, Data, ErrorCode, Id, Message, Reason, Server, Version,
};

fn our_server(m: Message<Server>) -> Vec<u8> {
    write_server_msg(&m)
}

fn our_client(m: Message<Client>) -> Vec<u8> {
    write_client_msg(&m)
}

#[test]
fn server_bytes_match_reference_encoder() {
    // Pong { re }: array(2) [ id, array(2) [ 1, array(1) [ re ] ] ].
    let ours = our_server(Message {
        id: Id::from_u64(0x1234),
        data: Some(Server::Pong { re: Id::from_u64(7) }),
    });
    let mut theirs: Vec<u8> = Vec::new();
    let mut e = minicbor::Encoder::new(&mut theirs);
    e.array(2).unwrap().u64(0x1234).unwrap();
    e.array(2).unwrap().u32(1).unwrap();
    e.array(1).unwrap().u64(7).unwrap();
    assert_eq!(ours, theirs);

    // Terminate { reason }: the reason itself is array(2) [ 1, array(0) ].
    let ours = our_server(Message {
        id: Id::from_u64(3),
        data: Some(Server::Terminate { reason: Reason::Unauthorized }),
    });
    let mut theirs: Vec<u8> = Vec::new();
    let mut e = minicbor::Encoder::new(&mut theirs);
    e.array(2).unwrap().u64(3).unwrap();
    e.array(2).unwrap().u32(3).unwrap();
    e.array(1).unwrap();
    e.array(2).unwrap().u32(1).unwrap().array(0).unwrap();
    assert_eq!(ours, theirs);

    // Test { addr }: a socket address is array(2) [ version tag,
    // array(2) [ four octet bytes, port ] ].
    let ours = our_server(Message {
        id: Id::from_u64(0x42),
        data: Some(Server::Test {
            addr: Address::Addr(SockAddr { ip: Ip::V4(0x0A010203), port: 22 }),
        }),
    });
    let mut theirs: Vec<u8> = Vec::new();
    let mut e = minicbor::Encoder::new(&mut theirs);
    e.array(2).unwrap().u64(0x42).unwrap();
    e.array(2).unwrap().u32(4).unwrap();
    e.array(1).unwrap();
    e.array(2).unwrap().u32(0).unwrap();
    e.array(1).unwrap();
    e.array(2).unwrap().u32(0).unwrap();
    e.array(2).unwrap().bytes(&[10, 1, 2, 3]).unwrap().u16(22).unwrap();
    assert_eq!(ours, theirs);

    // A named address: array(2) [ 1, array(2) [ text, port ] ].
    let ours = our_server(Message {
        id: Id::from_u64(9),
        data: Some(Server::Test { addr: Address::Name("db.example.com".to_string(), 5432) }),
    });
    let mut theirs: Vec<u8> = Vec::new();
    let mut e = minicbor::Encoder::new(&mut theirs);
    e.array(2).unwrap().u64(9).unwrap();
    e.array(2).unwrap().u32(4).unwrap();
    e.array(1).unwrap();
    e.array(2).unwrap().u32(1).unwrap();
    e.array(2).unwrap().str("db.example.com").unwrap().u16(5432).unwrap();
    assert_eq!(ours, theirs);

    // An unknown payload travels as null.
    let ours = our_server(Message { id: Id::from_u64(1), data: None });
    let mut theirs: Vec<u8> = Vec::new();
    let mut e = minicbor::Encoder::new(&mut theirs);
    e.array(2).unwrap().u64(1).unwrap().null().unwrap();
    assert_eq!(ours, theirs);
}

#[test]
fn client_bytes_match_reference_encoder() {
    // Hello { pubkey, agent_version }.
    let ours = our_client(Message {
        id: Id::from_u64(2),
        data: Some(Client::Hello {
            pubkey: vec![9u8; 32],
            agent_version: Version { major: 1, minor: 0, patch: 0 },
        }),
    });
    let mut theirs: Vec<u8> = Vec::new();
    let mut e = minicbor::Encoder::new(&mut theirs);
    e.array(2).unwrap().u64(2).unwrap();
    e.array(2).unwrap().u32(0).unwrap();
    e.array(2).unwrap().bytes(&[9u8; 32]).unwrap();
    e.array(3).unwrap().u64(1).unwrap().u64(0).unwrap().u64(0).unwrap();
    assert_eq!(ours, theirs);

    // Error { re, code, msg }: a map keyed by field number, with the
    // absent fields left out and the code written index-only.
    let ours = our_client(Message {
        id: Id::from_u64(5),
        data: Some(Client::Error {
            re: Id::from_u64(6),
            code: Some(ErrorCode::DecryptionFailed),
            msg: Some("boom".to_string()),
        }),
    });
    let mut theirs: Vec<u8> = Vec::new();
    let mut e = minicbor::Encoder::new(&mut theirs);
    e.array(2).unwrap().u64(5).unwrap();
    e.array(2).unwrap().u32(4).unwrap();
    e.map(3).unwrap();
    e.u32(0).unwrap().u64(6).unwrap();
    e.u32(1).unwrap().u32(2).unwrap();
    e.u32(2).unwrap().str("boom").unwrap();
    assert_eq!(ours, theirs);

    let ours = our_client(Message {
        id: Id::from_u64(5),
        data: Some(Client::Error { re: Id::from_u64(6), code: None, msg: None }),
    });
    let mut theirs: Vec<u8> = Vec::new();
    let mut e = minicbor::Encoder::new(&mut theirs);
    e.array(2).unwrap().u64(5).unwrap();
    e.array(2).unwrap().u32(4).unwrap();
    e.map(1).unwrap().u32(0).unwrap().u64(6).unwrap();
    assert_eq!(ours, theirs);

    // Test { re, code: None }: an absent array field is null.
    let ours = our_client(Message {
        id: Id::from_u64(7),
        data: Some(Client::Test { re: Id::from_u64(8), code: None }),
    });
    let mut theirs: Vec<u8> = Vec::new();
    let mut e = minicbor::Encoder::new(&mut theirs);
    e.array(2).unwrap().u64(7).unwrap();
    e.array(2).unwrap().u32(5).unwrap();
    e.array(2).unwrap().u64(8).unwrap().null().unwrap();
    assert_eq!(ours, theirs);
}

#[test]
fn reply_bytes_match_reference_encoder() {
    // Success carries the unit, which the reference writes as array(0).
    let ours = write_reply_msg(&Message {
        id: Id::from_u64(11),
        data: Some(ConnectReply::Success),
    });
    let mut theirs: Vec<u8> = Vec::new();
    let mut e = minicbor::Encoder::new(&mut theirs);
    e.array(2).unwrap().u64(11).unwrap();
    e.array(2).unwrap().u32(0).unwrap().array(0).unwrap();
    assert_eq!(ours, theirs);

    let ours = write_reply_msg(&Message {
        id: Id::from_u64(12),
        data: Some(ConnectReply::Failure(ErrorCode::CouldNotConnect)),
    });
    let mut theirs: Vec<u8> = Vec::new();
    let mut e = minicbor::Encoder::new(&mut theirs);
    e.array(2).unwrap().u64(12).unwrap();
    e.array(2).unwrap().u32(1).unwrap().u32(0).unwrap();
    assert_eq!(ours, theirs);
    assert!(read_reply_msg(&ours).is_some());
}

#[test]
fn our_reader_accepts_reference_bytes() {
    // The reference encoder writes a ping frame; the crate reads it.
    let mut bytes: Vec<u8> = Vec::new();
    let mut e = minicbor::Encoder::new(&mut bytes);
    e.array(2).unwrap().u64(0xABCD).unwrap();
    e.array(2).unwrap().u32(0).unwrap().array(0).unwrap();
    let m = read_server_msg(&bytes).expect("decodes");
    assert_eq!(m.id.numeric(), 0xABCD);
    assert!(matches!(m.data, Some(Server::Ping)));

    let mut bytes: Vec<u8> = Vec::new();
    let mut e = minicbor::Encoder::new(&mut bytes);
    e.array(2).unwrap().u64(1).unwrap();
    e.array(2).unwrap().u32(2).unwrap();
    e.array(1).unwrap().u64(3).unwrap();
    let m = read_client_msg(&bytes).expect("decodes");
    assert!(matches!(m.data, Some(Client::Pong { .. })));
}

#[test]
fn reference_decoder_walks_our_bytes() {
    // A challenge message, token by token through the reference decoder.
    let ours = our_server(Message {
        id: Id::from_u64(0x0102030405060708),
        data: Some(Server::Challenge {
            text: CipherText(Data { key: [1u8; 32], data: [2u8; 32], tag: [3u8; 16] }),
        }),
    });
    let mut d = minicbor::Decoder::new(&ours);
    assert_eq!(d.array().unwrap(), Some(2));
    assert_eq!(d.u64().unwrap(), 0x0102030405060708);
    assert_eq!(d.array().unwrap(), Some(2));
    assert_eq!(d.u32().unwrap(), 2);
    assert_eq!(d.array().unwrap(), Some(1));
    assert_eq!(d.array().unwrap(), Some(3));
    assert_eq!(d.bytes().unwrap(), &[1u8; 32]);
    assert_eq!(d.bytes().unwrap(), &[2u8; 32]);
    assert_eq!(d.bytes().unwrap(), &[3u8; 16]);
    assert_eq!(d.position(), ours.len());
}
