//! The message vocabulary spoken between agent and gateway.
//!
//! Every control message is a `Message` carrying a request identifier and
//! an optional payload; `None` stands for a payload whose variant the
//! receiving side does not know and deliberately tolerates.

use vstd::prelude::*;
use crate::base64;
use crate::address::{Address, AddressSpec};

verus! {

/// A 64-bit request identifier.
#[derive(Debug, Clone, Copy, PartialEq, Eq, Structural)]
pub struct Id {
    val: u64,
}

impl Id {
    /// The numeric value of this identifier.
    pub fn numeric(self) -> (r: u64)
        ensures
            r == self.spec_numeric(),
    {
        self.val
    }

    pub closed spec fn spec_numeric(self) -> u64 {
        self.val
    }

    /// The identifier with the given numeric value, for specifications.
    pub closed spec fn spec_from(n: u64) -> Id {
        Id { val: n }
    }

    /// An identifier with the given numeric value.
    pub fn from_u64(n: u64) -> (r: Id)
        ensures
            r.spec_numeric() == n,
            r == Id::spec_from(n),
    {
        Id { val: n }
    }

    /// Numeric value and identifier determine each other.
    pub proof fn lemma_spec_from(id: Id, n: u64)
        ensures
            Id::spec_from(id.spec_numeric()) == id,
            Id::spec_from(n).spec_numeric() == n,
    {
    }

    /// A fresh random identifier.
    ///
    /// Relies on `getrandom::u64` for a value from the operating system's
    /// random source; nothing is assumed about it.  Panics if the source
    /// is unavailable: a broken random source must not be papered over.
    #[verifier::external_body]
    pub fn fresh() -> Id {
        Id { val: getrandom::u64().expect("OS random source not available") }
    }

    /// The code point of the hex digit at position `k` (from the left) of
    /// the sixteen-digit lower-case rendering.
    pub open spec fn hex_code_at(self, k: int) -> int {
        let d = (self.spec_numeric() as int / pow16(15 - k)) % 16;
        if d < 10 {
            48 + d
        } else {
            87 + d
        }
    }

    /// This identifier as sixteen lower-case hex digits, zero-padded.
    pub fn to_hex(self) -> (r: String)
        ensures
            r@.len() == 16,
            forall|k: int| 0 <= k < 16 ==> #[trigger] r@[k] as u32 == self.hex_code_at(k),
    {
        let mut out: Vec<u8> = Vec::new();
        let mut k: usize = 0;
        while k < 16
            invariant
                k <= 16,
                out@.len() == k,
                forall|j: int| 0 <= j < k ==> #[trigger] out@[j] as u32 == self.hex_code_at(j),
                forall|j: int| 0 <= j < k ==> #[trigger] out@[j] < 128,
            decreases 16 - k,
        {
            let shift: u32 = (60 - 4 * k) as u32;
            let d: u64 = (self.val >> shift) & 0xf;
            proof {
                lemma_hex_digit(self.val, k as int);
            }
            let c: u8 = if d < 10 {
                48 + d as u8
            } else {
                87 + d as u8
            };
            out.push(c);
            k = k + 1;
        }
        let r = crate::util::ascii_to_string(out);
        r
    }
}

/// Sixteen to the power `e`, for digit place values.
pub open spec fn pow16(e: int) -> int
    decreases e,
{
    if e <= 0 {
        1
    } else {
        16 * pow16(e - 1)
    }
}

/// The shifted-and-masked nibble is the hex digit of the place value.
proof fn lemma_hex_digit(v: u64, k: int)
    requires
        0 <= k < 16,
    ensures
        ((v >> ((60 - 4 * k) as u64)) & 0xf) as int == (v as int / pow16(15 - k)) % 16,
        ((v >> ((60 - 4 * k) as u64)) & 0xf) < 16,
{
    let s = (60 - 4 * k) as u64;
    assert(s == 4 * (15 - k));
    lemma_shift_div(v, s);
    lemma_pow16_pow2(15 - k);
    assert((v >> s) & 0xf < 16) by (bit_vector);
}

/// Sixteen to a power is two to four times that power.
proof fn lemma_pow16_pow2(e: int)
    requires
        e >= 0,
    ensures
        pow16(e) == vstd::arithmetic::power2::pow2((4 * e) as nat),
    decreases e,
{
    vstd::arithmetic::power2::lemma2_to64();
    if e > 0 {
        lemma_pow16_pow2(e - 1);
        vstd::arithmetic::power2::lemma_pow2_adds((4 * (e - 1)) as nat, 4);
    }
}

/// Right shift divides by the power of two; masking keeps the remainder.
proof fn lemma_shift_div(v: u64, s: u64)
    requires
        s < 64,
    ensures
        (v >> s) & 0xf == ((v as nat / vstd::arithmetic::power2::pow2(s as nat)) % 16) as u64,
{
    vstd::bits::lemma_u64_shr_is_div(v, s);
    let q = v >> s;
    assert(q & 0xf == q % 16) by (bit_vector);
}

/// Version information carried in `Hello`.
#[derive(Debug, Clone, Copy, PartialEq, Eq, Structural)]
pub struct Version {
    pub major: u64,
    pub minor: u64,
    pub patch: u64,
}

impl Version {
    pub fn new(major: u64, minor: u64, patch: u64) -> (r: Version)
        ensures
            r == (Version { major, minor, patch }),
    {
        Version { major, minor, patch }
    }
}

/// Possible reasons for connection termination.
#[derive(Debug, Clone, Copy, PartialEq, Eq, Structural)]
pub enum Reason {
    /// The agent failed to prove ownership of its key.
    Unauthenticated,
    /// The agent is not authorized to connect.
    Unauthorized,
    /// The agent version is not supported.
    UnsupportedVersion,
    /// The agent is disabled, usually temporarily.
    Disabled,
}

/// Possible error codes in replies.
#[derive(Debug, Clone, Copy, PartialEq, Eq, Structural)]
pub enum ErrorCode {
    /// An address was not reachable.
    CouldNotConnect,
    /// The requested address is blocked by the configuration.
    AddressNotAllowed,
    /// The server challenge could not be decrypted.
    DecryptionFailed,
}

/// A triple of ephemeral public key, payload data and tag: a sealed box.
#[derive(Debug, Clone, Copy, PartialEq, Eq)]
pub struct Data<const N: usize> {
    pub key: [u8; 32],
    pub data: [u8; N],
    pub tag: [u8; 16],
}

/// The mathematical shape of a sealed box.
pub struct DataView {
    pub key: Seq<u8>,
    pub data: Seq<u8>,
    pub tag: Seq<u8>,
}

impl<const N: usize> View for Data<N> {
    type V = DataView;

    open spec fn view(&self) -> DataView {
        DataView { key: self.key@, data: self.data@, tag: self.tag@ }
    }
}

impl DataView {
    /// Field lengths of a sealed box over an `N`-byte message.
    pub open spec fn wf(&self, n: int) -> bool {
        self.key.len() == 32 && self.data.len() == n && self.tag.len() == 16
    }
}

/// The challenge-response ciphertext used when authenticating.
#[derive(Debug, Clone, Copy)]
pub struct CipherText(pub Data<32>);

impl View for CipherText {
    type V = DataView;

    open spec fn view(&self) -> DataView {
        self.0@
    }
}

/// A generic message: an identifier and an optional payload.
#[derive(Debug, Clone)]
pub struct Message<D> {
    /// The identifier of this message.
    pub id: Id,
    /// The payload, `None` for an unknown variant.
    pub data: Option<D>,
}

/// The mathematical shape of a message.
pub struct MessageSpec<D> {
    pub id: Id,
    pub data: Option<D>,
}

impl<D: View> View for Message<D> {
    type V = MessageSpec<D::V>;

    open spec fn view(&self) -> MessageSpec<D::V> {
        MessageSpec {
            id: self.id,
            data: match self.data {
                Some(d) => Some(d@),
                None => None,
            },
        }
    }
}

impl<D> Message<D> {
    /// A message with a fresh random identifier.
    pub fn new(data: D) -> (r: Message<D>)
        ensures
            r.data == Some(data),
    {
        Message { id: Id::fresh(), data: Some(data) }
    }

    /// A message with the given identifier.
    pub fn new_with_id(id: Id, data: D) -> (r: Message<D>)
        ensures
            r.id == id,
            r.data == Some(data),
    {
        Message { id, data: Some(data) }
    }
}

/// Payload of a server (gateway to agent) control message.
#[derive(Debug)]
pub enum Server {
    /// Ask the agent to answer with a `Pong`.
    Ping,
    /// Answer to a previously received ping.
    Pong { re: Id },
    /// Ask the agent to decrypt the given ciphertext.
    Challenge { text: CipherText },
    /// Terminate the connection.
    Terminate { reason: Reason },
    /// Test reachability of an internal address.
    Test { addr: Address },
    /// Open a new control connection and drain the existing one.
    SwitchToNewConnection,
    /// A server-side error.
    Error { msg: String },
    /// The server has accepted the agent.
    Accepted,
}

/// The mathematical shape of a server payload.
pub enum ServerSpec {
    Ping,
    Pong { re: Id },
    Challenge { text: DataView },
    Terminate { reason: Reason },
    Test { addr: AddressSpec },
    SwitchToNewConnection,
    Error { msg: Seq<char> },
    Accepted,
}

impl View for Server {
    type V = ServerSpec;

    open spec fn view(&self) -> ServerSpec {
        match self {
            Server::Ping => ServerSpec::Ping,
            Server::Pong { re } => ServerSpec::Pong { re: *re },
            Server::Challenge { text } => ServerSpec::Challenge { text: text@ },
            Server::Terminate { reason } => ServerSpec::Terminate { reason: *reason },
            Server::Test { addr } => ServerSpec::Test { addr: addr@ },
            Server::SwitchToNewConnection => ServerSpec::SwitchToNewConnection,
            Server::Error { msg } => ServerSpec::Error { msg: msg@ },
            Server::Accepted => ServerSpec::Accepted,
        }
    }
}

/// Payload of a client (agent to gateway) control message.
#[derive(Debug)]
pub enum Client {
    /// Initial message: the agent's public key and version.
    Hello { pubkey: Vec<u8>, agent_version: Version },
    /// Ask the server to answer with a `Pong`.
    Ping,
    /// Answer to a previously received ping.
    Pong { re: Id },
    /// Answer to an authentication challenge: the decrypted plaintext.
    Response { re: Id, text: Vec<u8> },
    /// Some error happened.
    Error { re: Id, code: Option<ErrorCode>, msg: Option<String> },
    /// Reachability test result; no code means success.
    Test { re: Id, code: Option<ErrorCode> },
    /// Opening a new connection and draining the existing one.
    SwitchingConnection { re: Id },
}

/// The mathematical shape of a client payload.
pub enum ClientSpec {
    Hello { pubkey: Seq<u8>, agent_version: Version },
    Ping,
    Pong { re: Id },
    Response { re: Id, text: Seq<u8> },
    Error { re: Id, code: Option<ErrorCode>, msg: Option<Seq<char>> },
    Test { re: Id, code: Option<ErrorCode> },
    SwitchingConnection { re: Id },
}

impl View for Client {
    type V = ClientSpec;

    open spec fn view(&self) -> ClientSpec {
        match self {
            Client::Hello { pubkey, agent_version } => ClientSpec::Hello {
                pubkey: pubkey@,
                agent_version: *agent_version,
            },
            Client::Ping => ClientSpec::Ping,
            Client::Pong { re } => ClientSpec::Pong { re: *re },
            Client::Response { re, text } => ClientSpec::Response { re: *re, text: text@ },
            Client::Error { re, code, msg } => ClientSpec::Error {
                re: *re,
                code: *code,
                msg: match msg {
                    Some(m) => Some(m@),
                    None => None,
                },
            },
            Client::Test { re, code } => ClientSpec::Test { re: *re, code: *code },
            Client::SwitchingConnection { re } => ClientSpec::SwitchingConnection { re: *re },
        }
    }
}

/// Establish a data connection to the given address and relay traffic.
#[derive(Debug)]
pub struct Connect {
    /// The address to connect to.
    pub addr: Address,
    /// The connection uses half-close semantics (`None` means no).
    pub use_half_close: Option<bool>,
}

/// The mathematical shape of a connect request.
pub struct ConnectSpec {
    pub addr: AddressSpec,
    pub use_half_close: Option<bool>,
}

impl View for Connect {
    type V = ConnectSpec;

    open spec fn view(&self) -> ConnectSpec {
        ConnectSpec { addr: self.addr@, use_half_close: self.use_half_close }
    }
}

/// The reply sent on a data stream after a connect request: success, or
/// failure with a code.
#[derive(Debug, Clone, Copy, PartialEq, Eq, Structural)]
pub enum ConnectReply {
    Success,
    Failure(ErrorCode),
}

impl View for ConnectReply {
    type V = ConnectReply;

    open spec fn view(&self) -> ConnectReply {
        *self
    }
}

/// The public identity of an agent: its public key bytes, shown as
/// URL-safe base64 without padding.
#[derive(Debug, Clone)]
pub struct AgentId {
    bytes: Vec<u8>,
}

impl View for AgentId {
    type V = Seq<u8>;

    closed spec fn view(&self) -> Seq<u8> {
        self.bytes@
    }
}

impl AgentId {
    /// An identity from raw key bytes.
    pub fn from_bytes(bytes: Vec<u8>) -> (r: AgentId)
        ensures
            r@ == bytes@,
    {
        AgentId { bytes }
    }

    /// Read an identity from its base64 rendering.
    pub fn from_base64(s: &str) -> (r: Option<AgentId>)
        ensures
            match r {
                Some(id) => base64::decode64(s@) == Some(id@),
                None => base64::decode64(s@) is None,
            },
    {
        match base64::decode(s) {
            Some(v) => Some(AgentId { bytes: v }),
            None => None,
        }
    }

    /// Render this identity as base64.
    pub fn to_base64(&self) -> (r: String)
        ensures
            crate::util::char_codes(r@) == base64::encode64(self@),
    {
        let r = base64::encode(self.bytes.as_slice());
        r
    }

    /// The raw key bytes.
    pub fn as_bytes(&self) -> (r: &[u8])
        ensures
            r@ == self@,
    {
        self.bytes.as_slice()
    }
}

} // verus!
