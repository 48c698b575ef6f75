//! The control-plane machine: heartbeats, backoff, capacity, reconnect
//! behaviour, and the end-to-end message scenarios.

use cluvio_agent::address::{Address, Network, parse_network};
use cluvio_agent::ip::{Ip, SockAddr, parse_ipv4};
use cluvio_agent::machine::{AgentMachine, MsgAction, TickAction};
use cluvio_agent::protocol::{
    CipherText, Client, ErrorCode, Id, Message, Reason, Server,
};
use cluvio_agent::sealed::{answer_challenge, encrypt, gen_secret_key, public_key};

fn online_machine() -> AgentMachine {
    let mut m = AgentMachine::new(None);
    m.on_connect_attempt();
    m.on_connect_success();
    m
}

fn allow_all() -> Vec<Network> {
    vec![parse_network("0.0.0.0/0").unwrap(), parse_network("*.").unwrap()]
}

#[test]
fn authenticate_scenario() {
    // The gateway opens with a challenge over the agent's public key; the
    // agent answers with the plaintext under the challenge identifier.
    let sk = gen_secret_key();
    let pk = public_key(&sk);
    let boxed = encrypt(&pk, [0u8; 32]).unwrap();
    let mut m = online_machine();
    let challenge = Message {
        id: Id::from_u64(0x01),
        data: Some(Server::Challenge { text: CipherText(boxed) }),
    };
    let list = allow_all();
    match m.on_message(challenge, &list) {
        MsgAction::Decrypt(re, text) => {
            assert_eq!(re.numeric(), 0x01);
            match answer_challenge(&sk, re, &text) {
                Client::Response { re, text } => {
                    assert_eq!(re.numeric(), 0x01);
                    assert_eq!(text, vec![0u8; 32]);
                },
                other => panic!("expected a response, got {:?}", other),
            }
        },
        _ => panic!("expected a decrypt action"),
    }
}

#[test]
fn wrong_key_challenge_reports_decryption_failed() {
    let sk = gen_secret_key();
    let other = gen_secret_key();
    let pk = public_key(&sk);
    let boxed = encrypt(&pk, [0u8; 32]).unwrap();
    let reply = answer_challenge(&other, Id::from_u64(9), &CipherText(boxed));
    match reply {
        Client::Error { re, code, msg } => {
            assert_eq!(re.numeric(), 9);
            assert!(matches!(code, Some(ErrorCode::DecryptionFailed)));
            assert!(msg.is_none());
        },
        other => panic!("expected an error, got {:?}", other),
    }
}

#[test]
fn heartbeat_scenario() {
    // Tick: the agent pings.  A matching pong quiets it; a missing pong
    // makes the next tick reconnect.
    let mut m = online_machine();
    let a = Id::from_u64(0xAA);
    match m.on_tick(a) {
        TickAction::SendPing(i) => assert_eq!(i.numeric(), 0xAA),
        TickAction::Reconnect => panic!("first tick must ping"),
    }
    m.on_pong(a);
    match m.on_tick(Id::from_u64(0xBB)) {
        TickAction::SendPing(_) => {},
        TickAction::Reconnect => panic!("answered ping must not reconnect"),
    }
    // The 0xBB ping is never answered.
    match m.on_tick(Id::from_u64(0xCC)) {
        TickAction::Reconnect => {},
        TickAction::SendPing(_) => panic!("unanswered ping must reconnect"),
    }
}

#[test]
fn mismatched_pong_is_ignored() {
    let mut m = online_machine();
    let a = Id::from_u64(1);
    m.on_tick(a);
    m.on_pong(Id::from_u64(2));
    match m.on_tick(Id::from_u64(3)) {
        TickAction::Reconnect => {},
        TickAction::SendPing(_) => panic!("a foreign pong must not quiet the wait"),
    }
}

#[test]
fn backoff_doubles_and_caps() {
    let mut m = AgentMachine::new(None);
    assert_eq!(m.backoff_delay(), 0);
    let mut seen: Vec<u64> = Vec::new();
    for _ in 0..8 {
        m.on_connect_attempt();
        seen.push(m.backoff_delay());
    }
    assert_eq!(seen, vec![2, 4, 8, 16, 32, 64, 64, 64]);
    m.on_connect_success();
    assert_eq!(m.backoff_delay(), 0);
}

#[test]
fn capacity_scenario() {
    // With room for two, a third bridge is refused; when one of the two
    // completes, exactly one availability notice is emitted.
    let mut m = AgentMachine::new(Some(2));
    assert!(m.try_admit(Id::from_u64(1)));
    assert!(m.try_admit(Id::from_u64(2)));
    assert!(!m.try_admit(Id::from_u64(3)));
    let first = m.on_task_done(Id::from_u64(1));
    assert!(first, "capacity recovered: one notice is owed");
    let second = m.on_task_done(Id::from_u64(2));
    assert!(!second, "the notice was already sent");
}

#[test]
fn reconnect_cancels_only_pending() {
    let mut m = online_machine();
    assert!(m.try_admit(Id::from_u64(1)));
    assert!(m.try_admit(Id::from_u64(2)));
    m.on_established(Id::from_u64(1));
    m.on_reconnect();
    // The established bridge survives; its completion is still counted.
    let _ = m.on_task_done(Id::from_u64(1));
}

#[test]
fn denied_address_scenario() {
    // Allow-list is one private network; a public address is refused.
    let list = vec![parse_network("10.0.0.0/8").unwrap()];
    let mut m = online_machine();
    let msg = Message {
        id: Id::from_u64(0x42),
        data: Some(
            Server::Test {
                addr: Address::Addr(SockAddr { ip: Ip::V4(parse_ipv4("8.8.8.8").unwrap()), port: 53 }),
            },
        ),
    };
    match m.on_message(msg, &list) {
        MsgAction::Reply(Client::Test { re, code }) => {
            assert_eq!(re.numeric(), 0x42);
            assert!(matches!(code, Some(ErrorCode::AddressNotAllowed)));
        },
        _ => panic!("expected a refusal reply"),
    }
}

#[test]
fn allowed_address_starts_probe() {
    let list = vec![parse_network("10.0.0.0/8").unwrap()];
    let mut m = online_machine();
    let msg = Message {
        id: Id::from_u64(0x43),
        data: Some(
            Server::Test {
                addr: Address::Addr(
                    SockAddr { ip: Ip::V4(parse_ipv4("10.1.2.3").unwrap()), port: 22 },
                ),
            },
        ),
    };
    match m.on_message(msg, &list) {
        MsgAction::StartProbe(re, _) => assert_eq!(re.numeric(), 0x43),
        _ => panic!("expected a probe"),
    }
    let ok = AgentMachine::probe_reply(Id::from_u64(0x43), true);
    assert!(matches!(ok, Client::Test { code: None, .. }));
    let bad = AgentMachine::probe_reply(Id::from_u64(0x43), false);
    assert!(matches!(bad, Client::Test { code: Some(ErrorCode::CouldNotConnect), .. }));
}

#[test]
fn switch_scenario() {
    let list = allow_all();
    let mut m = online_machine();
    let msg = Message { id: Id::from_u64(0x07), data: Some(Server::SwitchToNewConnection) };
    match m.on_message(msg, &list) {
        MsgAction::Switch(re) => assert_eq!(re.numeric(), 0x07),
        _ => panic!("expected a switch"),
    }
}

#[test]
fn terminate_scenario() {
    let list = allow_all();
    let mut m = online_machine();
    let msg = Message {
        id: Id::from_u64(0x99),
        data: Some(Server::Terminate { reason: Reason::Unauthorized }),
    };
    match m.on_message(msg, &list) {
        MsgAction::Terminated(r) => assert!(matches!(r, Reason::Unauthorized)),
        _ => panic!("expected a termination"),
    }
}

#[test]
fn unknown_message_is_ignored() {
    let list = allow_all();
    let mut m = online_machine();
    let msg: Message<Server> = Message { id: Id::from_u64(5), data: None };
    assert!(matches!(m.on_message(msg, &list), MsgAction::Nothing));
}
