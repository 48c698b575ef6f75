//! The control-plane state machine: heartbeats, reconnect backoff,
//! capacity accounting, and the reaction to every gateway message.
//!
//! The machine decides; it performs no I/O.  The surrounding runtime
//! feeds it received messages, timer ticks and task completions, and
//! carries out the actions it returns.

use vstd::prelude::*;
use crate::address::{CheckedAddr, Network, addr_allowed, nets_view};
use crate::protocol::{Client, ConnectReply, ErrorCode, Id, Message, Reason, Server, CipherText};

verus! {

/// Heartbeat state: waiting for nothing, or for one particular pong.
#[derive(Debug, Clone, Copy, PartialEq, Eq, Structural)]
pub enum PingState {
    /// Normal processing.
    Idle,
    /// Awaiting a pong with the given identifier.
    Awaiting(Id),
}

/// The mathematical shape of the machine.
pub struct MachineView {
    pub attempt: u8,
    pub ping: PingState,
    pub online: bool,
    pub active: u64,
    pub max_connections: Option<u64>,
    pub notify_cap: bool,
    pub pending: Seq<Id>,
    pub established: Seq<Id>,
}

impl MachineView {
    /// No further bridge may be admitted.
    pub open spec fn at_capacity(self) -> bool {
        match self.max_connections {
            Some(m) => self.active >= m,
            None => false,
        }
    }
}

/// The agent's control-plane state.
#[derive(Debug)]
pub struct AgentMachine {
    /// Consecutive connect failures, capped at six.
    attempt: u8,
    /// Heartbeat state.
    ping: PingState,
    /// An accepted control connection is up.
    online: bool,
    /// Running connect-and-bridge tasks, pending plus established.
    active: u64,
    /// The admission bound; `None` admits everything.
    max_connections: Option<u64>,
    /// A refused bridge is owed an `Available` notice.
    notify_cap: bool,
    /// Bridge tasks still connecting; a reconnect cancels these.
    pending: Vec<Id>,
    /// Bridge tasks relaying data; a reconnect leaves these alone.
    established: Vec<Id>,
}

/// What the runtime must do after a gateway message.
pub enum MsgAction {
    /// Nothing to do.
    Nothing,
    /// Send this payload in a message with a fresh identifier.
    Reply(Client),
    /// Answer the challenge `re` by decrypting the ciphertext.
    Decrypt(Id, CipherText),
    /// Probe the checked address and report under `re`.
    StartProbe(Id, CheckedAddr),
    /// Send `SwitchingConnection { re }`, open a new control connection,
    /// and drain the old one.
    Switch(Id),
    /// The gateway terminated the agent; the run loop returns this.
    Terminated(Reason),
}

/// What the runtime must do on a heartbeat tick.
pub enum TickAction {
    /// Send a ping with this fresh identifier.
    SendPing(Id),
    /// The previous ping went unanswered: drop the connection, redial.
    Reconnect,
}

impl View for AgentMachine {
    type V = MachineView;

    closed spec fn view(&self) -> MachineView {
        MachineView {
            attempt: self.attempt,
            ping: self.ping,
            online: self.online,
            active: self.active,
            max_connections: self.max_connections,
            notify_cap: self.notify_cap,
            pending: self.pending@,
            established: self.established@,
        }
    }
}

/// The heartbeat transition on a timer tick: an idle machine sends a
/// ping and starts waiting; a waiting machine has lost its pong and
/// reconnects, idle again afterwards.
pub open spec fn tick_transition(p: PingState, fresh: Id) -> (PingState, bool) {
    match p {
        PingState::Idle => (PingState::Awaiting(fresh), false),
        PingState::Awaiting(_) => (PingState::Idle, true),
    }
}

/// The heartbeat transition on a pong: only the awaited identifier
/// returns the machine to idle.
pub open spec fn pong_transition(p: PingState, re: Id) -> PingState {
    match p {
        PingState::Awaiting(w) => if w == re {
            PingState::Idle
        } else {
            p
        },
        PingState::Idle => p,
    }
}

impl AgentMachine {
    /// A fresh machine: offline, idle, no failures, nothing running.
    pub fn new(max_connections: Option<u64>) -> (r: AgentMachine)
        ensures
            r@ == (MachineView {
                attempt: 0u8,
                ping: PingState::Idle,
                online: false,
                active: 0u64,
                max_connections,
                notify_cap: false,
                pending: Seq::<Id>::empty(),
                established: Seq::<Id>::empty(),
            }),
    {
        let r = AgentMachine {
            attempt: 0,
            ping: PingState::Idle,
            online: false,
            active: 0,
            max_connections,
            notify_cap: false,
            pending: Vec::new(),
            established: Vec::new(),
        };
        proof {
            assert(r@.pending =~= Seq::<Id>::empty());
            assert(r@.established =~= Seq::<Id>::empty());
        }
        r
    }

    /// The heartbeat timer fired.
    pub fn on_tick(&mut self, fresh: Id) -> (r: TickAction)
        ensures
            final(self)@ == (MachineView {
                ping: tick_transition(old(self)@.ping, fresh).0,
                online: old(self)@.online && !tick_transition(old(self)@.ping, fresh).1,
                pending: if tick_transition(old(self)@.ping, fresh).1 {
                    Seq::<Id>::empty()
                } else {
                    old(self)@.pending
                },
                ..old(self)@
            }),
            r is Reconnect <==> tick_transition(old(self)@.ping, fresh).1,
            r matches TickAction::SendPing(i) ==> i == fresh,
    {
        match self.ping {
            PingState::Idle => {
                self.ping = PingState::Awaiting(fresh);
                TickAction::SendPing(fresh)
            },
            PingState::Awaiting(_) => {
                self.on_reconnect();
                TickAction::Reconnect
            },
        }
    }

    /// A pong arrived.
    pub fn on_pong(&mut self, re: Id)
        ensures
            final(self)@ == (MachineView { ping: pong_transition(old(self)@.ping, re), ..old(
                self,
            )@ }),
    {
        match self.ping {
            PingState::Awaiting(w) => {
                if w == re {
                    self.ping = PingState::Idle;
                }
            },
            PingState::Idle => {},
        }
    }

    /// The control connection is gone: pending connects are cancelled,
    /// established bridges keep relaying, the heartbeat starts idle.
    pub fn on_reconnect(&mut self)
        ensures
            final(self)@ == (MachineView {
                ping: PingState::Idle,
                online: false,
                pending: Seq::<Id>::empty(),
                ..old(self)@
            }),
    {
        self.online = false;
        self.ping = PingState::Idle;
        self.pending = Vec::new();
        proof {
            assert(final(self)@.pending =~= Seq::<Id>::empty());
        }
    }

    /// About to dial: the failure counter grows, saturating at six.
    pub fn on_connect_attempt(&mut self)
        ensures
            final(self)@ == (MachineView {
                attempt: if old(self)@.attempt < 6 {
                    (old(self)@.attempt + 1) as u8
                } else {
                    old(self)@.attempt
                },
                ..old(self)@
            }),
    {
        if self.attempt < 6 {
            self.attempt = self.attempt + 1;
        }
    }

    /// The seconds to sleep before the next dial.  The stored counter is
    /// already capped at six; any larger value is treated as six.
    pub fn backoff_delay(&self) -> (d: u64)
        ensures
            d == backoff_secs(if self@.attempt <= 6 {
                self@.attempt as nat
            } else {
                6nat
            }),
    {
        let a: u8 = if self.attempt > 6 {
            6
        } else {
            self.attempt
        };
        if a == 0 {
            0
        } else {
            let mut d: u64 = 1;
            let mut k: u8 = 0;
            while k < a
                invariant
                    k <= a <= 6,
                    d == pow2_nat(k as nat),
                decreases a - k,
            {
                proof {
                    lemma_pow2_small(k as nat);
                }
                d = d * 2;
                k = k + 1;
            }
            d
        }
    }

    /// The dial succeeded and the gateway answered: failures reset, the
    /// heartbeat is idle, the machine is online.
    pub fn on_connect_success(&mut self)
        ensures
            final(self)@ == (MachineView {
                attempt: 0u8,
                ping: PingState::Idle,
                online: true,
                ..old(self)@
            }),
    {
        self.attempt = 0;
        self.ping = PingState::Idle;
        self.online = true;
    }

    /// Ask to run one more bridge.  At capacity the request is refused
    /// and an `Available` notice becomes owed; otherwise the task is
    /// admitted as pending.
    pub fn try_admit(&mut self, id: Id) -> (admitted: bool)
        ensures
            old(self)@.at_capacity() ==> !admitted && final(self)@ == (MachineView {
                notify_cap: true,
                ..old(self)@
            }),
            !old(self)@.at_capacity() ==> admitted && final(self)@ == (MachineView {
                active: if old(self)@.active < 0xffffffffffffffff {
                    (old(self)@.active + 1) as u64
                } else {
                    old(self)@.active
                },
                pending: old(self)@.pending.push(id),
                ..old(self)@
            }),
    {
        let full = match self.max_connections {
            Some(m) => self.active >= m,
            None => false,
        };
        if full {
            self.notify_cap = true;
            false
        } else {
            if self.active < 0xffffffffffffffff {
                self.active = self.active + 1;
            }
            self.pending.push(id);
            true
        }
    }

    /// A pending bridge finished its connect phase and now relays data;
    /// from here on a reconnect no longer cancels it.
    pub fn on_established(&mut self, id: Id)
        ensures
            final(self)@ == (MachineView {
                pending: remove_id(old(self)@.pending, id),
                established: old(self)@.established.push(id),
                ..old(self)@
            }),
    {
        let mut kept: Vec<Id> = Vec::new();
        let n = self.pending.len();
        for k in 0..n
            invariant
                n == self.pending@.len(),
                kept@ == remove_id(self.pending@.take(k as int), id),
        {
            let cur = self.pending[k];
            proof {
                assert(self.pending@.take(k + 1) =~= self.pending@.take(k as int).push(
                    self.pending@[k as int],
                ));
                lemma_remove_id_push(self.pending@.take(k as int), self.pending@[k as int], id);
            }
            if cur != id {
                kept.push(cur);
            }
        }
        proof {
            assert(self.pending@.take(n as int) =~= self.pending@);
        }
        self.pending = kept;
        self.established.push(id);
    }

    /// A bridge or probe task finished.  When capacity was refused
    /// earlier and room is free again, exactly one `Available` notice is
    /// emitted and the debt is cleared.
    pub fn on_task_done(&mut self, id: Id) -> (announce: bool)
        ensures
            final(self)@.active == (if old(self)@.active > 0 {
                (old(self)@.active - 1) as u64
            } else {
                0u64
            }),
            final(self)@.pending == remove_id(old(self)@.pending, id),
            final(self)@.established == remove_id(old(self)@.established, id),
            announce == (old(self)@.notify_cap && !final(self)@.at_capacity()),
            final(self)@.notify_cap == (old(self)@.notify_cap && !announce),
            final(self)@.attempt == old(self)@.attempt && final(self)@.ping == old(self)@.ping
                && final(self)@.online == old(self)@.online && final(self)@.max_connections == old(
                self,
            )@.max_connections,
    {
        if self.active > 0 {
            self.active = self.active - 1;
        }
        let mut kept: Vec<Id> = Vec::new();
        let n = self.pending.len();
        for k in 0..n
            invariant
                n == self.pending@.len(),
                kept@ == remove_id(self.pending@.take(k as int), id),
        {
            let cur = self.pending[k];
            proof {
                assert(self.pending@.take(k + 1) =~= self.pending@.take(k as int).push(
                    self.pending@[k as int],
                ));
                lemma_remove_id_push(self.pending@.take(k as int), self.pending@[k as int], id);
            }
            if cur != id {
                kept.push(cur);
            }
        }
        proof {
            assert(self.pending@.take(n as int) =~= self.pending@);
        }
        self.pending = kept;
        let mut kept2: Vec<Id> = Vec::new();
        let m = self.established.len();
        for k in 0..m
            invariant
                m == self.established@.len(),
                kept2@ == remove_id(self.established@.take(k as int), id),
        {
            let cur = self.established[k];
            proof {
                assert(self.established@.take(k + 1) =~= self.established@.take(k as int).push(
                    self.established@[k as int],
                ));
                lemma_remove_id_push(
                    self.established@.take(k as int),
                    self.established@[k as int],
                    id,
                );
            }
            if cur != id {
                kept2.push(cur);
            }
        }
        proof {
            assert(self.established@.take(m as int) =~= self.established@);
        }
        self.established = kept2;
        let room = match self.max_connections {
            Some(mx) => self.active < mx,
            None => true,
        };
        if self.notify_cap && room {
            self.notify_cap = false;
            true
        } else {
            false
        }
    }

    /// React to one gateway message.
    pub fn on_message(&mut self, msg: Message<Server>, whitelist: &[Network]) -> (r: MsgAction)
        ensures
            machine_msg_post(old(self)@, final(self)@, msg@, nets_view(whitelist@), r),
    {
        match msg.data {
            Some(Server::Accepted) => {
                self.attempt = 0;
                MsgAction::Nothing
            },
            Some(Server::Ping) => {
                if self.online {
                    MsgAction::Reply(Client::Pong { re: msg.id })
                } else {
                    MsgAction::Nothing
                }
            },
            Some(Server::Pong { re }) => {
                self.on_pong(re);
                MsgAction::Nothing
            },
            Some(Server::Challenge { text }) => {
                if self.online {
                    MsgAction::Decrypt(msg.id, text)
                } else {
                    MsgAction::Nothing
                }
            },
            Some(Server::Terminate { reason }) => MsgAction::Terminated(reason),
            Some(Server::Test { addr }) => {
                if self.online {
                    match CheckedAddr::check(addr, whitelist) {
                        Ok(checked) => MsgAction::StartProbe(msg.id, checked),
                        Err(_) => MsgAction::Reply(
                            Client::Test {
                                re: msg.id,
                                code: Some(ErrorCode::AddressNotAllowed),
                            },
                        ),
                    }
                } else {
                    MsgAction::Nothing
                }
            },
            Some(Server::SwitchToNewConnection) => {
                if self.online {
                    MsgAction::Switch(msg.id)
                } else {
                    MsgAction::Nothing
                }
            },
            Some(Server::Error { msg: _ }) => MsgAction::Nothing,
            None => MsgAction::Nothing,
        }
    }

    /// The reply reporting a probe's outcome: no code on success, a
    /// could-not-connect code on failure.
    pub fn probe_reply(re: Id, ok: bool) -> (r: Client)
        ensures
            ok ==> r == (Client::Test { re, code: None }),
            !ok ==> r == (Client::Test { re, code: Some(ErrorCode::CouldNotConnect) }),
    {
        if ok {
            Client::Test { re, code: None }
        } else {
            Client::Test { re, code: Some(ErrorCode::CouldNotConnect) }
        }
    }

    /// The reply on a data stream's connect request: a refused address,
    /// a failed dial, or an established connection.
    pub fn connect_reply(allowed: bool, connected: bool) -> (r: ConnectReply)
        ensures
            !allowed ==> r == ConnectReply::Failure(ErrorCode::AddressNotAllowed),
            allowed && !connected ==> r == ConnectReply::Failure(ErrorCode::CouldNotConnect),
            allowed && connected ==> r == ConnectReply::Success,
    {
        if !allowed {
            ConnectReply::Failure(ErrorCode::AddressNotAllowed)
        } else if !connected {
            ConnectReply::Failure(ErrorCode::CouldNotConnect)
        } else {
            ConnectReply::Success
        }
    }
}

/// What `on_message` does, case by case.
pub open spec fn machine_msg_post(
    pre: MachineView,
    post: MachineView,
    msg: crate::protocol::MessageSpec<crate::protocol::ServerSpec>,
    list: Seq<crate::address::NetworkSpec>,
    r: MsgAction,
) -> bool {
    match msg.data {
        Some(crate::protocol::ServerSpec::Accepted) => post == (MachineView {
            attempt: 0u8,
            ..pre
        }) && r is Nothing,
        Some(crate::protocol::ServerSpec::Ping) => post == pre && (if pre.online {
            r matches MsgAction::Reply(c) && c@ == (crate::protocol::ClientSpec::Pong {
                re: msg.id,
            })
        } else {
            r is Nothing
        }),
        Some(crate::protocol::ServerSpec::Pong { re }) => post == (MachineView {
            ping: pong_transition(pre.ping, re),
            ..pre
        }) && r is Nothing,
        Some(crate::protocol::ServerSpec::Challenge { text }) => post == pre && (if pre.online {
            r matches MsgAction::Decrypt(i, ct) && i == msg.id && ct@ == text
        } else {
            r is Nothing
        }),
        Some(crate::protocol::ServerSpec::Terminate { reason }) => post == pre && (
        r matches MsgAction::Terminated(q) && q == reason),
        Some(crate::protocol::ServerSpec::Test { addr }) => post == pre && (if pre.online {
            if addr_allowed(addr, list) {
                r matches MsgAction::StartProbe(i, c) && i == msg.id && c@ == addr
            } else {
                r matches MsgAction::Reply(c) && c@ == (crate::protocol::ClientSpec::Test {
                    re: msg.id,
                    code: Some(ErrorCode::AddressNotAllowed),
                })
            }
        } else {
            r is Nothing
        }),
        Some(crate::protocol::ServerSpec::SwitchToNewConnection) => post == pre && (
        if pre.online {
            r matches MsgAction::Switch(i) && i == msg.id
        } else {
            r is Nothing
        }),
        Some(crate::protocol::ServerSpec::Error { .. }) => post == pre && r is Nothing,
        None => post == pre && r is Nothing,
    }
}

/// The sequence with every occurrence of `id` removed, order kept.
pub open spec fn remove_id(s: Seq<Id>, id: Id) -> Seq<Id>
    decreases s.len(),
{
    if s.len() == 0 {
        Seq::empty()
    } else if s.last() == id {
        remove_id(s.drop_last(), id)
    } else {
        remove_id(s.drop_last(), id).push(s.last())
    }
}

/// Removing from a one-longer sequence.
proof fn lemma_remove_id_push(s: Seq<Id>, x: Id, id: Id)
    ensures
        remove_id(s.push(x), id) == if x == id {
            remove_id(s, id)
        } else {
            remove_id(s, id).push(x)
        },
{
    assert(s.push(x).drop_last() =~= s);
    assert(s.push(x).last() == x);
}

/// Two to the power `e`, for backoff delays.
pub open spec fn pow2_nat(e: nat) -> nat
    decreases e,
{
    if e == 0 {
        1
    } else {
        2 * pow2_nat((e - 1) as nat)
    }
}

/// Small powers of two fit comfortably in a machine word.
proof fn lemma_pow2_small(e: nat)
    requires
        e <= 6,
    ensures
        pow2_nat(e) <= 64,
{
    reveal_with_fuel(pow2_nat, 8);
    if e == 0 {
    } else if e == 1 {
    } else if e == 2 {
    } else if e == 3 {
    } else if e == 4 {
    } else if e == 5 {
    } else {
        assert(e == 6);
    }
}

/// The backoff delay stretched to respect the minimum spacing between
/// connects: when the previous successful connect lies under five
/// seconds back, at least the remainder of those five seconds is slept.
pub open spec fn spaced_delay_spec(delay: u64, since_success: u64) -> u64 {
    if since_success < 5 && delay < 5 - since_success {
        (5 - since_success) as u64
    } else {
        delay
    }
}

impl AgentMachine {
    /// Stretch a backoff delay to keep five seconds between connects.
    pub fn spaced_delay(delay: u64, since_success: u64) -> (d: u64)
        ensures
            d == spaced_delay_spec(delay, since_success),
            d >= delay,
            since_success < 5 ==> d >= 5 - since_success,
    {
        if since_success < 5 {
            let floor: u64 = 5 - since_success;
            if delay < floor {
                return floor;
            }
        }
        delay
    }
}

/// The sleep before a redial, in seconds: nothing before the very first
/// dial, then two to the failure count, which is capped at six.
pub open spec fn backoff_secs(attempt: nat) -> nat {
    if attempt == 0 {
        0
    } else {
        pow2_nat(attempt)
    }
}

/// The failure counter after `n` consecutive failures from a fresh start.
pub open spec fn attempts_after(n: nat) -> nat
    decreases n,
{
    if n == 0 {
        0
    } else if attempts_after((n - 1) as nat) < 6 {
        attempts_after((n - 1) as nat) + 1
    } else {
        attempts_after((n - 1) as nat)
    }
}

/// After `n` consecutive connect failures the sleep before the next
/// attempt is `2 ^ min(n, 6)` seconds, and a success resets the counter
/// to zero (`on_connect_success` sets `attempt == 0`).
pub proof fn lemma_reconnect_backoff(n: nat)
    requires
        n >= 1,
    ensures
        backoff_secs(attempts_after(n)) == pow2_nat(if n <= 6 {
            n
        } else {
            6
        }),
    decreases n,
{
    lemma_attempts_min(n);
}

/// The capped counter equals the minimum of the failures and six.
proof fn lemma_attempts_min(n: nat)
    ensures
        attempts_after(n) == (if n <= 6 {
            n
        } else {
            6
        }),
    decreases n,
{
    if n > 0 {
        lemma_attempts_min((n - 1) as nat);
    }
}

/// With a gateway that answers every ping, the heartbeat returns to idle
/// each round and never asks to reconnect.
pub open spec fn answered_rounds(p: PingState, ids: Seq<Id>) -> int
    decreases ids.len(),
{
    if ids.len() == 0 {
        0
    } else {
        let after_tick = tick_transition(p, ids[0]);
        let reconnects: int = if after_tick.1 {
            1
        } else {
            0
        };
        reconnects + answered_rounds(pong_transition(after_tick.0, ids[0]), ids.skip(1))
    }
}

/// Heartbeat liveness, answered side: starting idle, ticks whose pings
/// are each answered by the matching pong cause no reconnect at all.
pub proof fn lemma_heartbeat_answered(ids: Seq<Id>)
    ensures
        answered_rounds(PingState::Idle, ids) == 0,
    decreases ids.len(),
{
    if ids.len() > 0 {
        lemma_heartbeat_answered(ids.skip(1));
    }
}

/// The reconnects over `n` ticks during which no pong arrives.
pub open spec fn unanswered_ticks(p: PingState, ids: Seq<Id>) -> int
    decreases ids.len(),
{
    if ids.len() == 0 {
        0
    } else {
        let after_tick = tick_transition(p, ids[0]);
        let reconnects: int = if after_tick.1 {
            1
        } else {
            0
        };
        reconnects + unanswered_ticks(after_tick.0, ids.skip(1))
    }
}

/// Heartbeat liveness, dropped side: starting idle, a gateway that
/// swallows pings costs exactly one reconnect per two ticks — one tick
/// to send, one to notice the missing pong.
pub proof fn lemma_heartbeat_unanswered(ids: Seq<Id>)
    ensures
        unanswered_ticks(PingState::Idle, ids) == ids.len() / 2,
    decreases ids.len(),
{
    if ids.len() == 0 {
    } else if ids.len() == 1 {
        assert(unanswered_ticks(PingState::Awaiting(ids[0]), ids.skip(1)) == 0);
    } else {
        lemma_heartbeat_unanswered(ids.skip(2));
        assert(ids.skip(1).skip(1) =~= ids.skip(2));
        assert(unanswered_ticks(PingState::Idle, ids) == unanswered_ticks(
            PingState::Awaiting(ids[0]),
            ids.skip(1),
        ));
        assert(unanswered_ticks(PingState::Awaiting(ids[0]), ids.skip(1)) == 1
            + unanswered_ticks(PingState::Idle, ids.skip(1).skip(1)));
        assert(ids.len() / 2 == 1 + (ids.len() - 2) / 2) by (nonlinear_arith)
            requires
                ids.len() >= 2,
        ;
    }
}

/// When a completion announces `Available`, the debt is cleared, so a
/// second completion (with no refusal in between) announces nothing:
/// exactly one notice per refusal.
pub proof fn lemma_single_available(pre: MachineView, mid: MachineView, announced: bool)
    requires
        announced == (pre.notify_cap && !mid.at_capacity()),
        mid.notify_cap == (pre.notify_cap && !announced),
    ensures
        announced ==> !mid.notify_cap,
{
}

} // verus!
