//! Packets, and the state of the connection to the client: who it is, which
//! sequence numbers were used, and which timestamps are to be answered.
//!
//! Counters and deadlines wrap at the width of their type.

use std::time::{Duration, SystemTime, SystemTimeError};

use vstd::prelude::*;
use vstd::string::StringExecFns;

use crate::crypto::{self, Base64Key, CryptoError, Message, MoshNonce, Session};
use crate::octets::{self, copy_from, push_all, push_be, read_be16};
use crate::ports::{parse_port_range, PortRange};
use crate::text::{self, to_decimal};

verus! {

/// The ports that are tried where none is asked for.
pub const PORT_RANGE_LOW: u16 = 60001;

/// See [`PORT_RANGE_LOW`].
pub const PORT_RANGE_HIGH: u16 = 60999;

/// Length of the headers of IPv4 and UDP.
pub const IPV4_HEADER_LEN: usize = 28;

/// Length of a datagram, with these headers, that every path is taken to carry.
pub const DEFAULT_IPV4_MTU: usize = 1280;

/// What a packet adds to its payload: part of the nonce, and two timestamps.
pub const ADDED_BYTES: usize = 12;

/// What the encryption adds: the tag.
pub const CRYPTO_ADDED_BYTES: usize = 16;

/// After this many milliseconds of silence the client is taken to be gone.
pub const SERVER_ASSOCIATION_TIMEOUT: u64 = 40000;

/// The timestamp that stands for none.
pub const NO_TIMESTAMP: u16 = 0xffff;

/// Why a connection could not be set up or used.
#[derive(Debug)]
pub struct NetworkError {
    pub message: String,
}

impl NetworkError {
    /// The error that says `message`.
    pub fn new(message: &str) -> (e: NetworkError)
        ensures
            e.message@ == message@,
    {
        NetworkError { message: message.to_owned() }
    }

    /// What the error says.
    pub fn to_string(&self) -> (text: String)
        ensures
            text@ == self.message@,
    {
        self.message.clone()
    }
}

/// The number that `x` wraps to in 64 bits.
pub open spec fn wrapped(x: int) -> u64 {
    (x % 0x1_0000_0000_0000_0000) as u64
}

/// Which way a packet goes.
#[derive(Clone, Copy, PartialEq, Eq, Structural)]
pub enum Direction {
    ToServer,
    ToClient,
}

#[verifier::external_type_specification]
#[verifier::external_body]
pub struct ExSystemTime(SystemTime);

#[verifier::external_type_specification]
#[verifier::external_body]
pub struct ExSystemTimeError(SystemTimeError);

/// `SystemTime::now` reads the clock of the machine: nothing is claimed of it.
pub assume_specification[ SystemTime::now ]() -> SystemTime;

/// `SystemTime::duration_since` fails where the clock stands before the given
/// time: nothing is claimed of it.
pub assume_specification[ SystemTime::duration_since ](
    time: &SystemTime,
    earlier: SystemTime,
) -> Result<Duration, SystemTimeError>;

/// `Duration::as_millis` counts whole milliseconds: nothing is claimed of it.
pub assume_specification[ Duration::as_millis ](duration: &Duration) -> u128;

/// Hands out `SystemTime::UNIX_EPOCH`: nothing is claimed of it.
#[verifier::external_body]
fn epoch() -> SystemTime {
    SystemTime::UNIX_EPOCH
}

/// The timestamp for a clock that stands this many milliseconds after 1970, or
/// before it.
pub fn timestamp_of(millis: Option<u128>) -> (ts: u64)
    ensures
        ts == match millis {
            Some(ms) => wrapped(ms as int),
            None => 0,
        },
{
    match millis {
        Some(ms) => (ms % 0x1_0000_0000_0000_0000) as u64,
        None => 0,
    }
}

/// The milliseconds since 1970, or 0 where the clock stands before that. Every
/// number may come out.
pub fn timestamp() -> u64 {
    match SystemTime::now().duration_since(epoch()) {
        Ok(duration) => timestamp_of(Some(duration.as_millis())),
        Err(_) => timestamp_of(None),
    }
}

/// The 16-bit timestamp for a reading of the clock. It is never the one that
/// stands for none.
pub open spec fn ts16(now: u64) -> u16 {
    if now % 0x1_0000 == 0xffff {
        0
    } else {
        (now % 0x1_0000) as u16
    }
}

/// The 16-bit timestamp for a reading of the clock.
pub fn timestamp16_of(now: u64) -> (ts: u16)
    ensures
        ts == ts16(now),
        ts != NO_TIMESTAMP,
{
    let ts: u16 = (now % 65536) as u16;
    if ts == NO_TIMESTAMP {
        0
    } else {
        ts
    }
}

/// The 16-bit timestamp of now: that of some reading of the clock.
pub fn timestamp16() -> (ts: u16)
    ensures
        ts != NO_TIMESTAMP,
        exists|now: u64| ts == #[trigger] ts16(now),
{
    timestamp16_of(timestamp())
}

/// The milliseconds from one 16-bit timestamp to another, taken to be less than
/// one turn of the clock.
pub fn timestamp_diff(tsnew: u16, tsold: u16) -> (diff: u16)
    ensures
        diff == (tsnew - tsold) % 0x1_0000,
{
    let diff: i32 = tsnew as i32 - tsold as i32;
    if diff < 0 {
        (diff + 65536) as u16
    } else {
        diff as u16
    }
}

/// The difference of two timestamps leads from the older to the newer.
pub proof fn law_timestamp_diff(tsnew: u16, tsold: u16)
    ensures
        (tsold + (tsnew - tsold) % 0x1_0000) % 0x1_0000 == tsnew,
{
}

/// What a datagram says.
pub struct Packet {
    pub seq: u64,
    pub direction: Direction,
    pub timestamp: u16,
    pub timestamp_reply: u16,
    pub payload: Vec<u8>,
}

/// The content of a [`Packet`].
#[verifier::ext_equal]
pub struct PacketView {
    pub seq: u64,
    pub direction: Direction,
    pub timestamp: u16,
    pub timestamp_reply: u16,
    pub payload: Seq<u8>,
}

impl View for Packet {
    type V = PacketView;

    open spec fn view(&self) -> PacketView {
        PacketView {
            seq: self.seq,
            direction: self.direction,
            timestamp: self.timestamp,
            timestamp_reply: self.timestamp_reply,
            payload: self.payload@,
        }
    }
}

impl PacketView {
    /// The number of the nonce that the packet is sent under.
    pub open spec fn nonce_val(self) -> u64 {
        crypto::nonce_val(self.direction == Direction::ToClient, self.seq)
    }

    /// The nonce that the packet is sent under.
    pub open spec fn nonce(self) -> Seq<u8> {
        crypto::full_nonce(octets::be_bytes(self.nonce_val() as nat, 8))
    }

    /// The text of the packet: two timestamps, then the payload.
    pub open spec fn text(self) -> Seq<u8> {
        octets::be_bytes(self.timestamp as nat, 2) + octets::be_bytes(
            self.timestamp_reply as nat,
            2,
        ) + self.payload
    }
}

/// The packet with this nonce and this text, if the text holds two timestamps.
pub open spec fn parsed_packet(nonce: Seq<u8>, text: Seq<u8>) -> Option<PacketView> {
    let val = octets::be_value(nonce.subrange(4, 12));
    if text.len() < 4 {
        None
    } else {
        Some(
            PacketView {
                seq: (val % 0x8000_0000_0000_0000) as u64,
                direction: if val >= 0x8000_0000_0000_0000 {
                    Direction::ToClient
                } else {
                    Direction::ToServer
                },
                timestamp: octets::be_value(seq![text[0], text[1]]) as u16,
                timestamp_reply: octets::be_value(seq![text[2], text[3]]) as u16,
                payload: text.skip(4),
            },
        )
    }
}

/// A packet with a sequence number of 63 bits is read back as it was written.
pub proof fn law_packet_read_after_write(p: PacketView)
    requires
        p.seq < 0x8000_0000_0000_0000,
    ensures
        parsed_packet(p.nonce(), p.text()) == Some(p),
{
    let text = p.text();
    let val = p.nonce_val();
    octets::lemma_pow256();
    octets::lemma_be_bytes_len(val as nat, 8);
    octets::lemma_be_bytes_len(p.timestamp as nat, 2);
    octets::lemma_be_bytes_len(p.timestamp_reply as nat, 2);
    octets::law_be_read_after_write(val as nat, 8);
    octets::law_be_read_after_write(p.timestamp as nat, 2);
    octets::law_be_read_after_write(p.timestamp_reply as nat, 2);
    crypto::law_nonce_fields(p.direction == Direction::ToClient, p.seq);
    assert(p.nonce().subrange(4, 12) =~= octets::be_bytes(val as nat, 8));
    assert(seq![text[0], text[1]] =~= octets::be_bytes(p.timestamp as nat, 2));
    assert(seq![text[2], text[3]] =~= octets::be_bytes(p.timestamp_reply as nat, 2));
    assert(text.skip(4) =~= p.payload);
}

/// Whether a datagram opens to a packet in the given direction, with the given
/// payload.
pub open spec fn carries(
    key: Seq<u8>,
    data: Seq<u8>,
    direction: Direction,
    payload: Seq<u8>,
) -> bool {
    match crypto::opened(key, data) {
        Some((nonce, text)) => match parsed_packet(nonce, text) {
            Some(p) => p.direction == direction && p.payload == payload,
            None => false,
        },
        None => false,
    }
}

/// Direction and payload of a packet are read back as they were written,
/// whatever its sequence number.
pub proof fn law_payload_is_carried(key: Seq<u8>, data: Seq<u8>, p: PacketView)
    ensures
        crypto::opened(key, data) == Some((p.nonce(), p.text())) ==> carries(
            key,
            data,
            p.direction,
            p.payload,
        ),
{
    let val = p.nonce_val();
    octets::lemma_pow256();
    octets::lemma_be_bytes_len(val as nat, 8);
    octets::lemma_be_bytes_len(p.timestamp as nat, 2);
    octets::lemma_be_bytes_len(p.timestamp_reply as nat, 2);
    octets::law_be_read_after_write(val as nat, 8);
    assert(p.nonce().subrange(4, 12) =~= octets::be_bytes(val as nat, 8));
    assert(p.text().skip(4) =~= p.payload);
}

/// A packet that is read is written with the same nonce and the same text.
pub proof fn law_packet_write_after_read(nonce: Seq<u8>, text: Seq<u8>)
    requires
        nonce.len() == 12,
        nonce == crypto::full_nonce(nonce.subrange(4, 12)),
        text.len() >= 4,
    ensures
        parsed_packet(nonce, text) is Some,
        parsed_packet(nonce, text)->0.nonce() == nonce,
        parsed_packet(nonce, text)->0.text() == text,
{
    let p = parsed_packet(nonce, text)->0;
    let cc = nonce.subrange(4, 12);
    let first = seq![text[0], text[1]];
    let second = seq![text[2], text[3]];
    octets::lemma_pow256();
    octets::lemma_be_value_bound(cc);
    octets::lemma_be_value_bound(first);
    octets::lemma_be_value_bound(second);
    octets::law_be_write_after_read(cc);
    octets::law_be_write_after_read(first);
    octets::law_be_write_after_read(second);
    crypto::law_nonce_value_is_told_by_its_fields(octets::be_value(cc) as u64);
    assert(p.text() =~= text);
}

impl Packet {
    /// The packet that a message holds, if its text is long enough.
    pub fn from_message(msg: &Message) -> (r: Result<Packet, CryptoError>)
        ensures
            r is Ok == parsed_packet(msg.nonce@, msg.text@) is Some,
            r matches Ok(p) ==> parsed_packet(msg.nonce@, msg.text@) == Some(p@),
            r matches Err(e) ==> e.message@ == "Packet too short for timestamps."@,
    {
        if msg.text.len() < 4 {
            return Err(CryptoError::new("Packet too short for timestamps."));
        }
        let nonce_val: u64 = msg.nonce.val();
        let direction = if crypto::nonce_is_to_client(nonce_val) {
            Direction::ToClient
        } else {
            Direction::ToServer
        };
        Ok(
            Packet {
                seq: crypto::nonce_seq(nonce_val),
                direction,
                timestamp: read_be16(msg.text[0], msg.text[1]),
                timestamp_reply: read_be16(msg.text[2], msg.text[3]),
                payload: copy_from(msg.text.as_slice(), 4),
            },
        )
    }

    /// The message that carries the packet.
    pub fn to_message(&self) -> (msg: Message)
        ensures
            msg.nonce@ == self@.nonce(),
            msg.nonce.wf(),
            msg.text@ == self@.text(),
    {
        let nonce_val: u64 = crypto::make_nonce_val(
            self.direction == Direction::ToClient,
            self.seq,
        );
        let mut text: Vec<u8> = Vec::new();
        push_be(&mut text, self.timestamp as u64, 2);
        push_be(&mut text, self.timestamp_reply as u64, 2);
        push_all(&mut text, self.payload.as_slice());
        assert(text@ =~= self@.text());
        Message { nonce: MoshNonce::from_val(nonce_val), text }
    }
}

/// The address of a client.
#[derive(Clone, Copy, PartialEq, Eq, Structural)]
pub enum RemoteAddr {
    V4 { ip: u32, port: u16 },
    V6 { ip6: u128, port: u16, flowinfo: u32, scope_id: u32 },
}

/// A measured round trip, in milliseconds: the first one, which the estimate
/// starts from, or a later one, which is averaged in.
#[derive(Clone, Copy, PartialEq, Eq, Structural)]
pub enum RttSample {
    First(u16),
    Later(u16),
}

/// What a connection knows.
#[derive(Clone, Copy)]
pub struct ConnState {
    pub remote_addr: Option<RemoteAddr>,
    pub blocks: u64,
    pub direction: Direction,
    pub mtu: usize,
    pub saved_timestamp: u16,
    pub saved_timestamp_received_at: u64,
    pub expected_receiver_seq: u64,
    pub last_heard: u64,
    pub seq_counter: u64,
    pub rtt_hit: bool,
}

/// What is to be done with a payload that was handed to a connection.
pub enum Outgoing {
    /// Nothing: there is no client.
    NoClient,
    /// Nothing: the client was silent for too long and is forgotten.
    Detached,
    /// The datagram is to be sent to the address.
    Datagram { to: RemoteAddr, bytes: Vec<u8> },
}

/// The content of an [`Outgoing`], or a refusal.
pub enum OutgoingView {
    NoClient,
    Detached,
    Datagram { to: RemoteAddr, bytes: Seq<u8> },
    Refused,
}

/// The content of what [`Connection::send`] returns.
pub open spec fn outgoing_view(r: Result<Outgoing, NetworkError>) -> OutgoingView {
    match r {
        Ok(Outgoing::NoClient) => OutgoingView::NoClient,
        Ok(Outgoing::Detached) => OutgoingView::Detached,
        Ok(Outgoing::Datagram { to, bytes }) => OutgoingView::Datagram { to, bytes: bytes@ },
        Err(_) => OutgoingView::Refused,
    }
}

/// What came in with a datagram.
pub struct Incoming {
    /// What the datagram carries, if it is genuine.
    pub payload: Option<Vec<u8>>,
    /// The round trip that it tells of, if it does.
    pub rtt: Option<RttSample>,
    /// Whether it came from another address than the ones before.
    pub attached: bool,
}

/// The content of an [`Incoming`].
#[verifier::ext_equal]
pub struct IncomingView {
    pub payload: Option<Seq<u8>>,
    pub rtt: Option<RttSample>,
    pub attached: bool,
}

impl View for Incoming {
    type V = IncomingView;

    open spec fn view(&self) -> IncomingView {
        IncomingView {
            payload: crate::wire::bytes_view(self.payload),
            rtt: self.rtt,
            attached: self.attached,
        }
    }
}

impl IncomingView {
    /// What a datagram that is not accepted brings.
    pub open spec fn nothing() -> IncomingView {
        IncomingView { payload: None, rtt: None, attached: false }
    }
}

impl ConnState {
    /// A connection of a server, before any client.
    pub open spec fn server() -> ConnState {
        ConnState {
            remote_addr: None,
            blocks: 0,
            direction: Direction::ToClient,
            mtu: (DEFAULT_IPV4_MTU - IPV4_HEADER_LEN) as usize,
            saved_timestamp: NO_TIMESTAMP,
            saved_timestamp_received_at: 0,
            expected_receiver_seq: 0,
            last_heard: 0,
            seq_counter: 0,
            rtt_hit: false,
        }
    }

    /// Whether at `now` the client has been silent for too long. A client that
    /// was last heard at time 0 is one that was never heard.
    pub open spec fn client_gone(self, now: u64) -> bool {
        wrapped(now - self.last_heard) > SERVER_ASSOCIATION_TIMEOUT && self.last_heard != 0
    }

    /// Whether at `now` there is a timestamp of the client to be answered: one
    /// that came less than a second ago.
    pub open spec fn answers_timestamp(self, now: u64) -> bool {
        wrapped(now - self.saved_timestamp_received_at) < 1000 && self.saved_timestamp
            != NO_TIMESTAMP
    }

    /// The packet that carries a payload at `now`. The client's timestamp is
    /// answered with the time added that it was held for.
    pub open spec fn packet(self, payload: Seq<u8>, now: u64, now16: u16) -> PacketView {
        PacketView {
            seq: wrapped(self.seq_counter + 1),
            direction: self.direction,
            timestamp: now16,
            timestamp_reply: if self.answers_timestamp(now) {
                ((self.saved_timestamp + wrapped(now - self.saved_timestamp_received_at))
                    % 0x1_0000) as u16
            } else {
                NO_TIMESTAMP
            },
            payload,
        }
    }

    /// The connection after a payload was handed to it at `now`.
    pub open spec fn after_send(self, payload: Seq<u8>, now: u64) -> ConnState {
        if self.remote_addr is None {
            self
        } else if self.client_gone(now) {
            ConnState { remote_addr: None, ..self }
        } else {
            let answered = self.answers_timestamp(now);
            ConnState {
                blocks: crypto::blocks_after(self.blocks, payload.len() + 4),
                saved_timestamp: if answered {
                    NO_TIMESTAMP
                } else {
                    self.saved_timestamp
                },
                saved_timestamp_received_at: if answered {
                    0
                } else {
                    self.saved_timestamp_received_at
                },
                seq_counter: wrapped(self.seq_counter + 1),
                ..self
            }
        }
    }

    /// What is to be done with a payload that was handed to the connection at
    /// `now`. It is refused once too many blocks were encrypted.
    pub open spec fn outgoing(
        self,
        key: Seq<u8>,
        payload: Seq<u8>,
        now: u64,
        now16: u16,
    ) -> OutgoingView {
        match self.remote_addr {
            None => OutgoingView::NoClient,
            Some(to) => if self.client_gone(now) {
                OutgoingView::Detached
            } else if self.after_send(payload, now).blocks >= 0x8000_0000_0000 {
                OutgoingView::Refused
            } else {
                let p = self.packet(payload, now, now16);
                OutgoingView::Datagram { to, bytes: crypto::datagram(key, p.nonce(), p.text()) }
            },
        }
    }

    /// The packet that a datagram brings, if it is genuine and goes to the server.
    pub open spec fn accepted(self, key: Seq<u8>, data: Seq<u8>) -> Option<PacketView> {
        match crypto::opened(key, data) {
            Some((nonce, text)) => match parsed_packet(nonce, text) {
                Some(p) => if p.direction == Direction::ToServer {
                    Some(p)
                } else {
                    None
                },
                None => None,
            },
            None => None,
        }
    }

    /// Whether a packet is no older than those before it.
    pub open spec fn in_order(self, p: PacketView) -> bool {
        p.seq >= self.expected_receiver_seq
    }

    /// Whether a packet tells of a round trip, at the 16-bit time `now16`. One
    /// of five seconds or more is not counted.
    pub open spec fn measures(self, p: PacketView, now16: u16) -> bool {
        p.timestamp_reply != NO_TIMESTAMP && (now16 - p.timestamp_reply) % 0x1_0000 < 5000
    }

    /// The connection after a packet from `src`, with the clock at `saved_at`,
    /// `now16` and `heard` as the packet is handled. One that is out of order
    /// changes nothing.
    pub open spec fn after_packet(
        self,
        p: PacketView,
        src: RemoteAddr,
        saved_at: u64,
        now16: u16,
        heard: u64,
    ) -> ConnState {
        if !self.in_order(p) {
            self
        } else {
            ConnState {
                remote_addr: Some(src),
                expected_receiver_seq: (p.seq + 1) as u64,
                saved_timestamp: if p.timestamp != NO_TIMESTAMP {
                    p.timestamp
                } else {
                    self.saved_timestamp
                },
                saved_timestamp_received_at: if p.timestamp != NO_TIMESTAMP {
                    saved_at
                } else {
                    self.saved_timestamp_received_at
                },
                rtt_hit: self.rtt_hit || self.measures(p, now16),
                last_heard: heard,
                ..self
            }
        }
    }

    /// What a packet from `src` brings. The payload is handed out even where the
    /// packet is out of order.
    pub open spec fn incoming(self, p: PacketView, src: RemoteAddr, now16: u16) -> IncomingView {
        let r = ((now16 - p.timestamp_reply) % 0x1_0000) as u16;
        IncomingView {
            payload: Some(p.payload),
            rtt: if !self.in_order(p) || !self.measures(p, now16) {
                None
            } else if self.rtt_hit {
                Some(RttSample::Later(r))
            } else {
                Some(RttSample::First(r))
            },
            attached: self.in_order(p) && self.remote_addr != Some(src),
        }
    }

    /// The connection after a datagram from `src`.
    pub open spec fn after_datagram(
        self,
        key: Seq<u8>,
        data: Seq<u8>,
        src: RemoteAddr,
        saved_at: u64,
        now16: u16,
        heard: u64,
    ) -> ConnState {
        match self.accepted(key, data) {
            Some(p) => self.after_packet(p, src, saved_at, now16, heard),
            None => self,
        }
    }

    /// What a datagram from `src` brings.
    pub open spec fn incoming_datagram(
        self,
        key: Seq<u8>,
        data: Seq<u8>,
        src: RemoteAddr,
        now16: u16,
    ) -> IncomingView {
        match self.accepted(key, data) {
            Some(p) => self.incoming(p, src, now16),
            None => IncomingView::nothing(),
        }
    }
}

/// How long to wait for an answer, for an estimate in milliseconds: that long, but
/// between a twentieth of a second and a second.
pub open spec fn timeout_for(estimate: u64) -> u64 {
    if estimate < 50 {
        50
    } else if estimate > 1000 {
        1000
    } else {
        estimate
    }
}

/// The server's end of the connection.
pub struct Connection {
    remote_addr: Option<RemoteAddr>,
    key: Base64Key,
    session: Session,
    direction: Direction,
    mtu: usize,
    saved_timestamp: u16,
    saved_timestamp_received_at: u64,
    expected_receiver_seq: u64,
    last_heard: u64,
    seq_counter: u64,
    rtt_hit: bool,
}

impl View for Connection {
    type V = ConnState;

    closed spec fn view(&self) -> ConnState {
        ConnState {
            remote_addr: self.remote_addr,
            blocks: self.session.blocks(),
            direction: self.direction,
            mtu: self.mtu,
            saved_timestamp: self.saved_timestamp,
            saved_timestamp_received_at: self.saved_timestamp_received_at,
            expected_receiver_seq: self.expected_receiver_seq,
            last_heard: self.last_heard,
            seq_counter: self.seq_counter,
            rtt_hit: self.rtt_hit,
        }
    }
}

impl Connection {
    /// The key of the session.
    pub closed spec fn key(self) -> Seq<u8> {
        self.session.key()
    }

    /// The key that is printed is the one that the session uses, packets go to the
    /// client, and datagrams have the length that every path is taken to carry.
    pub closed spec fn wf(self) -> bool {
        &&& self.key@ == self.session.key()
        &&& self.direction == Direction::ToClient
        &&& self.mtu == DEFAULT_IPV4_MTU - IPV4_HEADER_LEN
    }

    /// A connection for a client that is told `key`.
    pub fn with_key(key: Base64Key) -> (r: Result<Connection, CryptoError>)
        ensures
            r is Ok,
            r matches Ok(c) ==> c@ == ConnState::server() && c.key() == key@ && c.wf(),
    {
        let session = match Session::new(&key) {
            Ok(session) => session,
            Err(e) => return Err(e),
        };
        Ok(
            Connection {
                remote_addr: None,
                key,
                session,
                direction: Direction::ToClient,
                mtu: DEFAULT_IPV4_MTU - IPV4_HEADER_LEN,
                saved_timestamp: NO_TIMESTAMP,
                saved_timestamp_received_at: 0,
                expected_receiver_seq: 0,
                last_heard: 0,
                seq_counter: 0,
                rtt_hit: false,
            },
        )
    }

    /// A connection with a fresh key, and the addresses to try to bind its
    /// socket to: the given one or any, with the given ports or the usual ones.
    /// It is refused where the given ports make no sense.
    pub fn new_server(desired_ip: Option<&str>, desired_port: Option<&str>) -> (r: Result<
        (Connection, BindPlan),
        NetworkError,
    >)
        ensures
            r is Ok == planned_ports(desired_port) is Some,
            r matches Ok((c, plan)) ==> c@ == ConnState::server() && c.wf() && c.key().len() == 16,
            r matches Ok((c, plan)) ==> plan.ports() == planned_ports(desired_port)->0.ports(),
            r matches Ok((c, plan)) ==> plan.ip() == match desired_ip {
                Some(ip) => ip@,
                None => "0.0.0.0"@,
            },
            r matches Err(e) ==> e.message@ == "Invalid port"@,
    {
        let key = Base64Key::new();
        proof {
            crypto::lemma_key_len(&key);
        }
        let connection = match Connection::with_key(key) {
            Ok(connection) => connection,
            Err(e) => return Err(NetworkError { message: e.message }),
        };
        let ports = match desired_port {
            Some(text) => match parse_port_range(text) {
                Some(ports) => ports,
                None => return Err(NetworkError::new("Invalid port")),
            },
            None => PortRange { low: PORT_RANGE_LOW, high: PORT_RANGE_HIGH },
        };
        let ip = match desired_ip {
            Some(ip) => ip.to_owned(),
            None => "0.0.0.0".to_owned(),
        };
        Ok((connection, BindPlan { ip, left: Some(ports) }))
    }

    /// The key as the client is told it.
    pub fn get_key(&self) -> (text: String)
        requires
            self.wf(),
        ensures
            text@ == crate::radix64::trimmed(crate::radix64::padded(self.key()), '='),
    {
        self.key.printable_key()
    }

    /// The length of a datagram that the path carries.
    pub fn get_mtu(&self) -> (mtu: usize)
        ensures
            mtu == self@.mtu,
    {
        self.mtu
    }

    /// Whether there is a client.
    pub fn has_remote_addr(&self) -> (has: bool)
        ensures
            has == self@.remote_addr is Some,
    {
        self.remote_addr.is_some()
    }

    /// How long to wait for an answer, given the estimate for it in milliseconds.
    pub fn timeout(&self, estimate: u64) -> (rto: u64)
        ensures
            rto == timeout_for(estimate),
            rto == if estimate < 50 {
                50
            } else if estimate > 1000 {
                1000
            } else {
                estimate
            },
    {
        if estimate < 50 {
            50
        } else if estimate > 1000 {
            1000
        } else {
            estimate
        }
    }

    /// Hands a payload to the connection, with the clock at `now` and `now16`. A
    /// datagram that comes out opens to the packet again.
    pub fn send_at(&mut self, payload: &[u8], now: u64, now16: u16) -> (r: Result<
        Outgoing,
        NetworkError,
    >)
        requires
            old(self).wf(),
            payload@.len() + 4 < crypto::ocb_text_limit(),
        ensures
            final(self).wf(),
            final(self).key() == old(self).key(),
            final(self)@ == old(self)@.after_send(payload@, now),
            outgoing_view(r) == old(self)@.outgoing(old(self).key(), payload@, now, now16),
            r matches Ok(Outgoing::Datagram { to, bytes }) ==> {
                let p = old(self)@.packet(payload@, now, now16);
                &&& p.direction == Direction::ToClient
                &&& crypto::opened(old(self).key(), bytes@) == Some((p.nonce(), p.text()))
                &&& bytes@.len() == payload@.len() + ADDED_BYTES + CRYPTO_ADDED_BYTES
            },
            r matches Err(e) ==> e.message@ == "Encrypted 2^47 blocks."@,
    {
        let to = match self.remote_addr {
            Some(addr) => addr,
            None => return Ok(Outgoing::NoClient),
        };

        if now.wrapping_sub(self.last_heard) > SERVER_ASSOCIATION_TIMEOUT && self.last_heard != 0 {
            self.remote_addr = None;
            return Ok(Outgoing::Detached);
        }

        let mut ts_reply: u16 = NO_TIMESTAMP;
        let held: u64 = now.wrapping_sub(self.saved_timestamp_received_at);
        if held < 1000 && self.saved_timestamp != NO_TIMESTAMP {
            ts_reply = self.saved_timestamp.wrapping_add(held as u16);
            self.saved_timestamp = NO_TIMESTAMP;
            self.saved_timestamp_received_at = 0;
        }

        self.seq_counter = self.seq_counter.wrapping_add(1);
        let packet = Packet {
            seq: self.seq_counter,
            direction: self.direction,
            timestamp: now16,
            timestamp_reply: ts_reply,
            payload: copy_from(payload, 0),
        };
        proof {
            assert(packet@.payload =~= payload@);
            assert(packet@ =~= old(self)@.packet(payload@, now, now16));
            octets::lemma_be_bytes_len(now16 as nat, 2);
            octets::lemma_be_bytes_len(ts_reply as nat, 2);
        }

        let msg = packet.to_message();
        match self.session.encrypt(&msg) {
            Ok(bytes) => Ok(Outgoing::Datagram { to, bytes }),
            Err(e) => Err(NetworkError { message: e.message }),
        }
    }

    /// Hands a payload to the connection.
    pub fn send(&mut self, payload: &[u8]) -> (r: Result<Outgoing, NetworkError>)
        requires
            old(self).wf(),
            payload@.len() + 4 < crypto::ocb_text_limit(),
        ensures
            final(self).wf(),
            final(self).key() == old(self).key(),
            exists|now: u64, now16: u16|
                {
                    &&& now16 != NO_TIMESTAMP
                    &&& final(self)@ == old(self)@.after_send(payload@, now)
                    &&& outgoing_view(r) == #[trigger] old(self)@.outgoing(
                        old(self).key(),
                        payload@,
                        now,
                        now16,
                    )
                    &&& r matches Ok(Outgoing::Datagram { to, bytes }) ==> {
                        let p = old(self)@.packet(payload@, now, now16);
                        &&& p.direction == Direction::ToClient
                        &&& crypto::opened(old(self).key(), bytes@) == Some((p.nonce(), p.text()))
                        &&& bytes@.len() == payload@.len() + ADDED_BYTES + CRYPTO_ADDED_BYTES
                    }
                },
            r matches Err(e) ==> e.message@ == "Encrypted 2^47 blocks."@,
    {
        let now: u64 = timestamp();
        let now16: u16 = timestamp16();
        self.send_at(payload, now, now16)
    }

    /// Takes a datagram in that came from `src`, with the clock at `saved_at`,
    /// `now16` and `heard` as it is handled.
    pub fn recv_at(
        &mut self,
        data: &[u8],
        src: RemoteAddr,
        saved_at: u64,
        now16: u16,
        heard: u64,
    ) -> (r: Incoming)
        requires
            old(self).wf(),
            data@.len() < crypto::ocb_text_limit() + 24,
        ensures
            final(self).wf(),
            final(self).key() == old(self).key(),
            final(self)@ == old(self)@.after_datagram(
                old(self).key(),
                data@,
                src,
                saved_at,
                now16,
                heard,
            ),
            r@ == old(self)@.incoming_datagram(old(self).key(), data@, src, now16),
    {
        let msg = match self.session.decrypt(data) {
            Ok(msg) => msg,
            Err(_) => return Incoming { payload: None, rtt: None, attached: false },
        };
        let packet = match Packet::from_message(&msg) {
            Ok(packet) => packet,
            Err(_) => return Incoming { payload: None, rtt: None, attached: false },
        };
        if packet.direction != Direction::ToServer {
            return Incoming { payload: None, rtt: None, attached: false };
        }

        let mut rtt: Option<RttSample> = None;
        let mut attached = false;
        if packet.seq >= self.expected_receiver_seq {
            self.expected_receiver_seq = packet.seq + 1;

            if packet.timestamp != NO_TIMESTAMP {
                self.saved_timestamp = packet.timestamp;
                self.saved_timestamp_received_at = saved_at;
            }

            if packet.timestamp_reply != NO_TIMESTAMP {
                let r: u16 = timestamp_diff(now16, packet.timestamp_reply);
                if r < 5000 {
                    rtt = if self.rtt_hit {
                        Some(RttSample::Later(r))
                    } else {
                        Some(RttSample::First(r))
                    };
                    self.rtt_hit = true;
                }
            }

            attached = match self.remote_addr {
                Some(addr) => addr != src,
                None => true,
            };
            self.remote_addr = Some(src);
            self.last_heard = heard;
        }
        Incoming { payload: Some(packet.payload), rtt, attached }
    }

    /// Takes a datagram in that came from `src`.
    pub fn recv(&mut self, data: &[u8], src: RemoteAddr) -> (r: Incoming)
        requires
            old(self).wf(),
            data@.len() < crypto::ocb_text_limit() + 24,
        ensures
            final(self).wf(),
            final(self).key() == old(self).key(),
            r@.payload is Some == old(self)@.accepted(old(self).key(), data@) is Some,
            exists|saved_at: u64, now16: u16, heard: u64|
                now16 != NO_TIMESTAMP && final(self)@ == #[trigger] old(self)@.after_datagram(
                    old(self).key(),
                    data@,
                    src,
                    saved_at,
                    now16,
                    heard,
                ) && r@ == old(self)@.incoming_datagram(old(self).key(), data@, src, now16),
    {
        let saved_at: u64 = timestamp();
        let now16: u16 = timestamp16();
        let heard: u64 = timestamp();
        self.recv_at(data, src, saved_at, now16, heard)
    }
}

/// Every connection carries datagrams of the same length.
pub proof fn lemma_connection_mtu(c: Connection)
    requires
        c.wf(),
    ensures
        c@.mtu == DEFAULT_IPV4_MTU - IPV4_HEADER_LEN,
{
}

/// Every connection sends to the client.
pub proof fn lemma_connection_direction(c: Connection)
    requires
        c.wf(),
    ensures
        c@.direction == Direction::ToClient,
{
}

/// The ports to try, if the given text makes sense.
pub open spec fn planned_ports(desired_port: Option<&str>) -> Option<PortRange> {
    match desired_port {
        Some(text) => crate::ports::port_range(text@),
        None => Some(PortRange { low: PORT_RANGE_LOW, high: PORT_RANGE_HIGH }),
    }
}

/// Where to bind the socket of a server: the first of the ports that is free.
pub struct BindPlan {
    ip: String,
    left: Option<PortRange>,
}

impl BindPlan {
    /// The address to bind to.
    pub closed spec fn ip(self) -> Seq<char> {
        self.ip@
    }

    /// The ports that are still to be tried.
    pub closed spec fn ports(self) -> Seq<u16> {
        match self.left {
            Some(range) => range.ports(),
            None => Seq::empty(),
        }
    }

    /// The next port to try and the address with it, until none is left.
    pub fn next_candidate(&mut self) -> (r: Result<(u16, String), NetworkError>)
        ensures
            final(self).ip() == old(self).ip(),
            r is Ok == (old(self).ports().len() > 0),
            r matches Ok((port, address)) ==> old(self).ports() == seq![port] + final(self).ports(),
            r matches Ok((port, address)) ==> address@ == old(self).ip() + ":"@ + text::decimal(
                port as nat,
            ),
            r matches Err(e) ==> e.message@ == "Could not bind to any port"@ && final(self).ports()
                == old(self).ports(),
    {
        let range = match self.left {
            Some(range) => range,
            None => return Err(NetworkError::new("Could not bind to any port")),
        };
        match range.next() {
            Some((port, rest)) => {
                self.left = rest;
                let mut address = self.ip.clone();
                address.append(":");
                address.append(to_decimal(port as u64).as_str());
                Ok((port, address))
            },
            None => Err(NetworkError::new("Could not bind to any port")),
        }
    }
}

/// The line that tells the client where to connect to, and with which key.
pub fn connect_line(port: u16, key: &str) -> (line: String)
    ensures
        line@ == "\r\nMOSH CONNECT "@ + text::decimal(port as nat) + " "@ + key@ + "\r\n"@,
{
    let mut line = "\r\nMOSH CONNECT ".to_owned();
    line.append(to_decimal(port as u64).as_str());
    line.append(" ");
    line.append(key);
    line.append("\r\n");
    line
}

/// A genuine datagram is accepted as the packet that was sent, if that goes to
/// the server; what a server sends, no server accepts.
pub proof fn law_datagram_is_accepted_as_sent(
    c: ConnState,
    key: Seq<u8>,
    data: Seq<u8>,
    p: PacketView,
)
    requires
        p.seq < 0x8000_0000_0000_0000,
    ensures
        crypto::opened(key, data) == Some((p.nonce(), p.text())) ==> c.accepted(key, data)
            == if p.direction == Direction::ToServer {
            Some(p)
        } else {
            None
        },
{
    law_packet_read_after_write(p);
}

/// Packets that are sent at different counts go under different nonces.
pub proof fn law_nonces_are_not_reused(
    a: ConnState,
    b: ConnState,
    payload: Seq<u8>,
    other: Seq<u8>,
    now: u64,
    later: u64,
    now16: u16,
    later16: u16,
)
    requires
        a.seq_counter < b.seq_counter < 0x7fff_ffff_ffff_ffff,
    ensures
        a.packet(payload, now, now16).nonce() != b.packet(other, later, later16).nonce(),
{
    let p = a.packet(payload, now, now16);
    let q = b.packet(other, later, later16);
    law_packet_read_after_write(p);
    law_packet_read_after_write(q);
    assert(p.seq != q.seq);
    if p.nonce() == q.nonce() {
        assert(parsed_packet(p.nonce(), p.text())->0.seq == parsed_packet(
            q.nonce(),
            q.text(),
        )->0.seq);
    }
}

/// Each datagram that is sent takes the next sequence number; what is not sent
/// takes none.
pub proof fn law_sending_counts(c: ConnState, key: Seq<u8>, payload: Seq<u8>, now: u64, now16: u16)
    requires
        c.seq_counter < u64::MAX,
    ensures
        c.outgoing(key, payload, now, now16) is Datagram ==> c.after_send(payload, now).seq_counter
            == c.seq_counter + 1 && c.packet(payload, now, now16).seq == c.seq_counter + 1,
        c.outgoing(key, payload, now, now16) is NoClient ==> c.after_send(payload, now) == c,
        c.outgoing(key, payload, now, now16) is Detached ==> c.after_send(payload, now).seq_counter
            == c.seq_counter && c.after_send(payload, now).remote_addr is None,
{
}

/// The time for which the server holds a timestamp is not counted as part of the
/// round trip: a client that gets the answer `rtt` milliseconds after that time
/// measures `rtt`.
pub proof fn law_held_time_is_not_counted(
    c: ConnState,
    payload: Seq<u8>,
    now: u64,
    now16: u16,
    rtt: u16,
)
    requires
        c.answers_timestamp(now),
    ensures
        ({
            let held = wrapped(now - c.saved_timestamp_received_at);
            let back = (c.saved_timestamp + held + rtt) % 0x1_0000;
            (back - c.packet(payload, now, now16).timestamp_reply) % 0x1_0000 == rtt
        }),
{
}

/// What is expected next never falls, whatever datagram comes.
pub proof fn law_expected_sequence_never_falls(
    c: ConnState,
    key: Seq<u8>,
    data: Seq<u8>,
    src: RemoteAddr,
    saved_at: u64,
    now16: u16,
    heard: u64,
)
    ensures
        c.after_datagram(key, data, src, saved_at, now16, heard).expected_receiver_seq
            >= c.expected_receiver_seq,
{
}

/// A datagram that comes a second time changes nothing, though its payload is
/// handed out again.
pub proof fn law_repeated_datagram_changes_nothing(
    c: ConnState,
    key: Seq<u8>,
    data: Seq<u8>,
    src: RemoteAddr,
    saved_at: u64,
    now16: u16,
    heard: u64,
    other_src: RemoteAddr,
    later_at: u64,
    later16: u16,
    later: u64,
)
    ensures
        ({
            let once = c.after_datagram(key, data, src, saved_at, now16, heard);
            &&& once.after_datagram(key, data, other_src, later_at, later16, later) == once
            &&& once.incoming_datagram(key, data, other_src, later16).payload
                == c.incoming_datagram(key, data, src, now16).payload
            &&& !once.incoming_datagram(key, data, other_src, later16).attached
            &&& once.incoming_datagram(key, data, other_src, later16).rtt is None
        }),
{
}

/// A datagram that is not genuine changes nothing and brings nothing.
pub proof fn law_forged_datagram_is_ignored(
    c: ConnState,
    key: Seq<u8>,
    data: Seq<u8>,
    src: RemoteAddr,
    saved_at: u64,
    now16: u16,
    heard: u64,
)
    ensures
        crypto::opened(key, data) is None ==> c.after_datagram(
            key,
            data,
            src,
            saved_at,
            now16,
            heard,
        ) == c && c.incoming_datagram(key, data, src, now16) == IncomingView::nothing(),
{
}

} // verus!
