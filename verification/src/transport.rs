//! The server's side of state synchronization: which states of the terminal the
//! client was sent, which states of the input came from it, and when to send.
//!
//! Counters and deadlines wrap at the width of their type.

use vstd::prelude::*;
use vstd::slice::slice_to_vec;

use crate::crypto;
use crate::fragment::{self, Fragment, FragmentAssembly, Fragmenter};
use crate::host_message::{self, EchoAck, HostBytes, HostInstruction, HostMessage};
use crate::messages::{self, Instruction, ResizeMessage};
use crate::network::{
    self, timestamp, timestamp16, Connection, NetworkError, Outgoing, RemoteAddr, RttSample,
};
use crate::octets::push_all;
use crate::user_message::{self, UserMessage};

verus! {

/// The version of the protocol that is spoken.
pub const MOSH_PROTOCOL_VERSION: u32 = 2;

/// Bounds of the interval between two sends, in milliseconds.
pub const SEND_INTERVAL_MIN: u64 = 20;

/// See [`SEND_INTERVAL_MIN`].
pub const SEND_INTERVAL_MAX: u64 = 250;

/// How long nothing may be sent, in milliseconds.
pub const ACK_INTERVAL: u64 = 3000;

/// How long input may go unacknowledged, in milliseconds.
pub const ACK_DELAY: u64 = 100;

/// How long the effects of input take to show, in milliseconds.
pub const ECHO_TIMEOUT: u64 = 50;

/// One thing that the client did.
pub enum UserAction {
    Keystroke(Vec<u8>),
    Resize(i32, i32),
}

/// The content of a [`UserAction`].
pub enum UserActionView {
    Keystroke(Seq<u8>),
    Resize(i32, i32),
}

impl View for UserAction {
    type V = UserActionView;

    open spec fn view(&self) -> UserActionView {
        match self {
            UserAction::Keystroke(keys) => UserActionView::Keystroke(keys@),
            UserAction::Resize(w, h) => UserActionView::Resize(*w, *h),
        }
    }
}

/// The content of actions.
pub open spec fn action_views(actions: Seq<UserAction>) -> Seq<UserActionView> {
    Seq::new(actions.len(), |i: int| actions[i]@)
}

/// What an instruction of the client says it did: it pressed keys, then changed
/// the size of its terminal, or one of these, or nothing. A side of the terminal
/// that is not given is 0.
pub open spec fn instruction_actions(inst: user_message::UserInstructionView) -> Seq<
    UserActionView,
> {
    (match inst.keystroke {
        Some(user_message::KeystrokeView { keys: Some(keys) }) => seq![
            UserActionView::Keystroke(keys),
        ],
        _ => Seq::empty(),
    }) + (match inst.resize {
        Some(r) => seq![
            UserActionView::Resize(
                match r.width {
                    Some(w) => w,
                    None => 0,
                },
                match r.height {
                    Some(h) => h,
                    None => 0,
                },
            ),
        ],
        None => Seq::empty(),
    })
}

/// What instructions of the client say it did, in order.
pub open spec fn actions_of(insts: Seq<user_message::UserInstructionView>) -> Seq<UserActionView>
    decreases insts.len(),
{
    if insts.len() == 0 {
        Seq::empty()
    } else {
        actions_of(insts.drop_last()) + instruction_actions(insts.last())
    }
}

/// What a difference of the client's input says it did; nothing, where it cannot
/// be decoded.
pub open spec fn user_actions(diff: Seq<u8>) -> Seq<UserActionView> {
    match user_message::decoded_user_message(diff) {
        Some(m) => actions_of(m.instruction),
        None => Seq::empty(),
    }
}

/// What a difference of the client's input says it did.
pub fn parse_user_actions(diff: &[u8]) -> (actions: Vec<UserAction>)
    ensures
        action_views(actions@) == user_actions(diff@),
{
    let mut actions: Vec<UserAction> = Vec::new();
    assert(action_views(actions@) =~= Seq::empty());
    let msg = match UserMessage::decode(diff) {
        Some(m) => m,
        None => return actions,
    };
    let mut i: usize = 0;
    assert(msg@.instruction.take(0) =~= Seq::empty());
    while i < msg.instruction.len()
        invariant
            i <= msg.instruction@.len(),
            msg@.instruction.len() == msg.instruction@.len(),
            action_views(actions@) == actions_of(msg@.instruction.take(i as int)),
        decreases msg.instruction@.len() - i,
    {
        let inst = &msg.instruction[i];
        let ghost before = action_views(actions@);
        let ghost mut keyed: Seq<UserActionView> = Seq::empty();
        assert(inst@ == msg@.instruction[i as int]);
        if let Some(ks) = &inst.keystroke {
            if let Some(keys) = &ks.keys {
                actions.push(UserAction::Keystroke(slice_to_vec(keys.as_slice())));
                proof {
                    keyed = seq![UserActionView::Keystroke(keys@)];
                }
            }
        }
        assert(action_views(actions@) =~= before + keyed);
        if let Some(rs) = &inst.resize {
            actions.push(UserAction::Resize(rs.width(), rs.height()));
        }
        proof {
            assert(action_views(actions@) =~= before + instruction_actions(inst@));
            let longer = msg@.instruction.take(i + 1);
            assert(longer.drop_last() =~= msg@.instruction.take(i as int));
            assert(longer.last() == inst@);
        }
        i = i + 1;
    }
    assert(msg@.instruction.take(i as int) =~= msg@.instruction);
    actions
}

/// What the client is told: the newest input that has been echoed, the size of
/// the terminal, and output of the terminal, each where there is any.
pub open spec fn host_diff(
    data: Seq<u8>,
    echo_ack: Option<u64>,
    resize: Option<(i32, i32)>,
) -> host_message::HostMessageView {
    host_message::HostMessageView {
        instruction: (match echo_ack {
            Some(num) => seq![
                host_message::HostInstructionView {
                    hostbytes: None,
                    resize: None,
                    echoack: Some(EchoAck { echo_ack_num: Some(num) }),
                },
            ],
            None => Seq::empty(),
        }) + (match resize {
            Some((w, h)) => seq![
                host_message::HostInstructionView {
                    hostbytes: None,
                    resize: Some(ResizeMessage { width: Some(w), height: Some(h) }),
                    echoack: None,
                },
            ],
            None => Seq::empty(),
        }) + (if data.len() > 0 {
            seq![
                host_message::HostInstructionView {
                    hostbytes: Some(host_message::HostBytesView { hoststring: Some(data) }),
                    resize: None,
                    echoack: None,
                },
            ]
        } else {
            Seq::empty()
        }),
    }
}

/// The bytes that tell the client what happened. It decodes them to that again.
pub fn make_host_diff(data: &[u8], echo_ack: Option<u64>, resize: Option<(i32, i32)>) -> (out: Vec<
    u8,
>)
    ensures
        out@ == host_diff(data@, echo_ack, resize).bytes(),
        host_message::decoded_host_message(out@) == Some(host_diff(data@, echo_ack, resize)),
{
    let mut msg = HostMessage { instruction: Vec::new() };

    if let Some(ack_num) = echo_ack {
        msg.instruction.push(
            HostInstruction {
                hostbytes: None,
                resize: None,
                echoack: Some(EchoAck { echo_ack_num: Some(ack_num) }),
            },
        );
    }
    if let Some((w, h)) = resize {
        msg.instruction.push(
            HostInstruction {
                hostbytes: None,
                resize: Some(ResizeMessage { width: Some(w), height: Some(h) }),
                echoack: None,
            },
        );
    }
    if data.len() > 0 {
        msg.instruction.push(
            HostInstruction {
                hostbytes: Some(HostBytes { hoststring: Some(slice_to_vec(data)) }),
                resize: None,
                echoack: None,
            },
        );
    }
    assert(msg@.instruction =~= host_diff(data@, echo_ack, resize).instruction);
    msg.encode_to_vec()
}

/// Where the client is told anything, there is something to read: a difference
/// is empty only if nothing is pending.
pub proof fn law_difference_is_not_empty(
    data: Seq<u8>,
    echo_ack: Option<u64>,
    resize: Option<(i32, i32)>,
)
    requires
        data.len() > 0 || echo_ack is Some || resize is Some,
    ensures
        host_diff(data, echo_ack, resize).bytes().len() > 0,
{
    let m = host_diff(data, echo_ack, resize);
    assert(m.instruction.len() > 0);
    assert(crate::wire::varint(10).len() > 0);
}

/// The newest state of the input that came at `cutoff` or before, 0 where none did.
pub open spec fn newest_shown(history: Seq<(u64, u64)>, cutoff: u64) -> u64
    decreases history.len(),
{
    if history.len() == 0 {
        0
    } else {
        let before = newest_shown(history.drop_last(), cutoff);
        if history.last().1 <= cutoff && history.last().0 > before {
            history.last().0
        } else {
            before
        }
    }
}

/// The states of the input from `newest` on, in the order in which they came.
pub open spec fn kept_frames(history: Seq<(u64, u64)>, newest: u64) -> Seq<(u64, u64)>
    decreases history.len(),
{
    if history.len() == 0 {
        Seq::empty()
    } else if history.last().0 >= newest {
        kept_frames(history.drop_last(), newest).push(history.last())
    } else {
        kept_frames(history.drop_last(), newest)
    }
}

/// The time whose input has had time to show at `now`.
pub open spec fn shown_before(now: u64) -> u64 {
    if now < ECHO_TIMEOUT {
        0
    } else {
        (now - ECHO_TIMEOUT) as u64
    }
}

/// The lesser of two times.
pub open spec fn earlier(a: u64, b: u64) -> u64 {
    if a < b {
        a
    } else {
        b
    }
}

/// The interval between two sends while shutting down, for an estimated round
/// trip: the timeout for it, within bounds.
pub open spec fn interval_for(estimate: u64) -> u64 {
    if estimate < 50 {
        50
    } else if estimate > SEND_INTERVAL_MAX {
        SEND_INTERVAL_MAX
    } else {
        estimate
    }
}

/// What is due when the clock is looked at.
#[derive(Clone, Copy, PartialEq, Eq, Structural)]
pub enum Due {
    /// There is no client, or it is too early for anything.
    Nothing,
    /// What is pending is to be sent.
    Diff,
    /// An empty difference is to be sent.
    Ack,
    /// Something was due, but there is nothing to send.
    Quiet,
}

/// What the transport knows.
#[verifier::ext_equal]
pub struct TransportState {
    pub conn: network::ConnState,
    pub last_sent_num: u64,
    pub ack_num: u64,
    pub assumed_receiver_num: u64,
    pub fragmenter: fragment::FragmenterView,
    pub next_ack_time: u64,
    pub next_send_time: u64,
    pub pending_output: Seq<u8>,
    pub pending_echo_ack: Option<u64>,
    pub pending_resize: Option<(i32, i32)>,
    pub shutdown_in_progress: bool,
    pub shutdown_tries: i32,
    pub received_state_num: u64,
    pub assembly: fragment::AssemblyView,
    pub input_history: Seq<(u64, u64)>,
    pub echo_ack: u64,
    pub last_ack_sent_to_client: u64,
}

impl TransportState {
    /// The transport over a connection, at `now`.
    pub open spec fn initial(conn: network::ConnState, now: u64) -> TransportState {
        TransportState {
            conn,
            last_sent_num: 0,
            ack_num: 0,
            assumed_receiver_num: 0,
            fragmenter: fragment::FragmenterView::initial(),
            next_ack_time: network::wrapped(now + ACK_INTERVAL),
            next_send_time: u64::MAX,
            pending_output: Seq::empty(),
            pending_echo_ack: None,
            pending_resize: None,
            shutdown_in_progress: false,
            shutdown_tries: 0,
            received_state_num: 0,
            assembly: fragment::AssemblyView::empty(),
            input_history: Seq::empty(),
            echo_ack: 0,
            last_ack_sent_to_client: 0,
        }
    }

    /// The transport after it was told to end.
    pub open spec fn shutting_down(self) -> TransportState {
        TransportState { shutdown_in_progress: true, ..self }
    }

    /// Whether the client acknowledged that the transport ends.
    pub open spec fn shutdown_acknowledged(self) -> bool {
        self.shutdown_in_progress && self.ack_num == u64::MAX
    }

    /// Whether the client ended the transport and was told that this is known.
    pub open spec fn counterparty_shutdown_ack_sent(self) -> bool {
        self.received_state_num == u64::MAX && self.last_ack_sent_to_client == u64::MAX
    }

    /// Whether the end of the transport was announced often enough.
    pub open spec fn shutdown_ack_timed_out(self) -> bool {
        self.shutdown_tries >= 16
    }

    /// The transport after a state of the input came at `now`.
    pub open spec fn with_input_frame(self, frame_num: u64, now: u64) -> TransportState {
        TransportState { input_history: self.input_history.push((frame_num, now)), ..self }
    }

    /// The newest state of the input that has had time to show at `now`.
    pub open spec fn shown_at(self, now: u64) -> u64 {
        newest_shown(self.input_history, shown_before(now))
    }

    /// The transport after it was found out what has had time to show at `now`.
    pub open spec fn with_echo_ack(self, now: u64) -> TransportState {
        TransportState {
            echo_ack: self.shown_at(now),
            input_history: kept_frames(self.input_history, self.shown_at(now)),
            ..self
        }
    }

    /// The transport after something to send came at `now`.
    pub open spec fn to_send(self, now: u64) -> TransportState {
        TransportState { next_send_time: network::wrapped(now + SEND_INTERVAL_MIN), ..self }
    }

    /// The transport after output of the terminal came at `now`.
    pub open spec fn with_output(self, data: Seq<u8>, now: u64) -> TransportState {
        TransportState { pending_output: self.pending_output + data, ..self.to_send(now) }
    }

    /// The transport after input was found, at `now`, to have been echoed.
    pub open spec fn with_pending_echo_ack(self, ack: u64, now: u64) -> TransportState {
        TransportState { pending_echo_ack: Some(ack), ..self.to_send(now) }
    }

    /// The transport after the size of the terminal changed at `now`.
    pub open spec fn with_pending_resize(self, w: i32, h: i32, now: u64) -> TransportState {
        TransportState { pending_resize: Some((w, h)), ..self.to_send(now) }
    }

    /// Whether there is anything to tell the client.
    pub open spec fn has_pending_data(self) -> bool {
        self.pending_output.len() > 0 || self.pending_echo_ack is Some || self.pending_resize
            is Some
    }

    /// What there is to tell the client.
    pub open spec fn pending_diff(self) -> host_message::HostMessageView {
        host_diff(self.pending_output, self.pending_echo_ack, self.pending_resize)
    }

    /// How long until something is due, at `now`.
    pub open spec fn wait_time(self, now: u64) -> u64 {
        let next = earlier(self.next_ack_time, self.next_send_time);
        if self.conn.remote_addr is None {
            u64::MAX
        } else if next < now {
            0
        } else {
            (next - now) as u64
        }
    }

    /// What is due at `now`.
    pub open spec fn due(self, now: u64) -> Due {
        if self.conn.remote_addr is None || (now < self.next_ack_time && now
            < self.next_send_time) {
            Due::Nothing
        } else if self.has_pending_data() {
            Due::Diff
        } else if now >= self.next_ack_time {
            Due::Ack
        } else {
            Due::Quiet
        }
    }

    /// The state of the terminal that is sent next. The end of the transport has
    /// the greatest number of all.
    pub open spec fn next_num(self, due: Due) -> u64 {
        if due == Due::Ack && self.shutdown_in_progress {
            u64::MAX
        } else {
            network::wrapped(self.last_sent_num + 1)
        }
    }

    /// The transport after what is due was taken up, before it is sent.
    pub open spec fn taken_up(self, due: Due) -> TransportState {
        let num = self.next_num(due);
        let prepared = TransportState {
            last_ack_sent_to_client: self.received_state_num,
            fragmenter: self.fragmenter.after(self.assumed_receiver_num, num),
            ..self
        };
        match due {
            Due::Diff => TransportState {
                last_sent_num: num,
                pending_output: Seq::empty(),
                pending_echo_ack: None,
                pending_resize: None,
                ..prepared
            },
            Due::Ack => TransportState {
                last_sent_num: if num == u64::MAX {
                    self.last_sent_num
                } else {
                    num
                },
                shutdown_tries: if !self.shutdown_in_progress {
                    self.shutdown_tries
                } else if self.shutdown_tries == i32::MAX {
                    i32::MIN
                } else {
                    (self.shutdown_tries + 1) as i32
                },
                ..prepared
            },
            _ => self,
        }
    }

    /// The instruction that is sent for what is due, with some bytes to hide its
    /// length.
    pub open spec fn instruction(self, due: Due, chaff: Seq<u8>) -> messages::InstructionView {
        let diff = self.pending_diff().bytes();
        messages::InstructionView {
            protocol_version: Some(MOSH_PROTOCOL_VERSION),
            old_num: Some(self.assumed_receiver_num),
            new_num: Some(self.next_num(due)),
            ack_num: Some(self.received_state_num),
            throwaway_num: Some(0),
            diff: if due == Due::Diff {
                Some(diff)
            } else {
                None
            },
            chaff: Some(chaff),
        }
    }

    /// The payload that a packet may have for a fragment to fit into it.
    pub open spec fn fragment_mtu(self) -> nat {
        (self.conn.mtu - network::ADDED_BYTES - network::CRYPTO_ADDED_BYTES) as nat
    }

    /// The fragments of the instruction that is sent for what is due.
    pub open spec fn fragments(self, due: Due, chaff: Seq<u8>) -> Seq<fragment::FragmentView> {
        fragment::split(
            fragment::zlib_compressed(self.instruction(due, chaff).bytes()),
            (self.fragment_mtu() - fragment::FRAG_HEADER_LEN) as nat,
            self.taken_up(due).fragmenter.next_id,
            0,
        )
    }

    /// Whether the instruction that is sent for what is due can be put together
    /// from its fragments, if 15 bits are enough to number them.
    pub open spec fn sends_whole(self, due: Due, chaff: Seq<u8>) -> bool {
        match due {
            Due::Diff | Due::Ack => self.fragments(due, chaff).len() <= 0x8000
                ==> crate::reassembly::comes_out_whole(
                self.fragments(due, chaff),
                self.instruction(due, chaff),
            ),
            _ => true,
        }
    }

    /// The transport after all fragments of an instruction were sent at `now`.
    pub open spec fn all_sent(self, due: Due, num: u64, now: u64) -> TransportState {
        TransportState {
            assumed_receiver_num: num,
            next_ack_time: network::wrapped(now + ACK_INTERVAL),
            next_send_time: if due == Due::Diff {
                u64::MAX
            } else {
                self.next_send_time
            },
            ..self
        }
    }

    /// The transport at the end of a tick at `now`. While it ends, the next send
    /// comes after at most `interval`.
    pub open spec fn hurried(self, now: u64, interval: u64) -> TransportState {
        if self.shutdown_in_progress {
            TransportState {
                next_ack_time: earlier(self.next_ack_time, network::wrapped(now + interval)),
                ..self
            }
        } else {
            self
        }
    }

    /// The transport over another state of its connection.
    pub open spec fn over(self, conn: network::ConnState) -> TransportState {
        TransportState { conn, ..self }
    }

    /// The transport after an instruction of the client, at `now`.
    pub open spec fn after_instruction(
        self,
        inst: messages::InstructionView,
        now: u64,
    ) -> TransportState {
        let new_num = messages::or_zero(inst.new_num);
        let client_ack = messages::or_zero(inst.ack_num);
        let delayed = network::wrapped(now + ACK_DELAY);
        if inst.protocol_version != Some(MOSH_PROTOCOL_VERSION) {
            self
        } else {
            let acked = TransportState {
                ack_num: if client_ack > self.ack_num {
                    client_ack
                } else {
                    self.ack_num
                },
                ..self
            };
            if new_num == u64::MAX {
                TransportState { received_state_num: u64::MAX, next_ack_time: now, ..acked }
            } else {
                TransportState {
                    next_ack_time: earlier(self.next_ack_time, delayed),
                    received_state_num: if self.follows(inst) {
                        new_num
                    } else {
                        self.received_state_num
                    },
                    ..acked
                }
            }
        }
    }

    /// Whether an instruction leads from the state of the input that is known,
    /// or from the first one, to a newer one.
    pub open spec fn follows(self, inst: messages::InstructionView) -> bool {
        let old_num = messages::or_zero(inst.old_num);
        messages::or_zero(inst.new_num) > self.received_state_num && (old_num
            == self.received_state_num || old_num == 0)
    }

    /// What an instruction of the client adds to the input, if anything.
    pub open spec fn delivered(self, inst: messages::InstructionView) -> Option<Seq<u8>> {
        if inst.protocol_version == Some(MOSH_PROTOCOL_VERSION) && inst.new_num != Some(u64::MAX)
            && self.follows(inst) {
            match inst.diff {
                Some(diff) => if diff.len() > 0 {
                    Some(diff)
                } else {
                    None
                },
                None => None,
            }
        } else {
            None
        }
    }

    /// The assembly once a payload of the client was added to it, if it holds a
    /// fragment.
    pub open spec fn assembly_with(self, payload: Seq<u8>) -> fragment::AssemblyView {
        match fragment::parsed_fragment(payload) {
            Some(f) => self.assembly.with_fragment(f),
            None => self.assembly,
        }
    }

    /// The instruction that a payload of the client completes, if it does.
    pub open spec fn completed_by(self, payload: Seq<u8>) -> Option<messages::InstructionView> {
        let a = self.assembly_with(payload);
        if fragment::parsed_fragment(payload) is Some && a.complete() {
            a.instruction()
        } else {
            None
        }
    }

    /// The transport with a payload of the client added to its assembly.
    pub open spec fn with_payload(self, payload: Seq<u8>) -> TransportState {
        let a = self.assembly_with(payload);
        TransportState {
            assembly: if fragment::parsed_fragment(payload) is Some && a.complete()
                && a.without_holes() {
                a.cleared()
            } else {
                a
            },
            ..self
        }
    }

    /// The transport after a payload of the client, at `now`.
    pub open spec fn after_payload(self, payload: Seq<u8>, now: u64) -> TransportState {
        match self.completed_by(payload) {
            Some(inst) => self.with_payload(payload).after_instruction(inst, now),
            None => self.with_payload(payload),
        }
    }

    /// What a payload of the client adds to the input, if anything.
    pub open spec fn payload_delivers(self, payload: Seq<u8>) -> Option<Seq<u8>> {
        match self.completed_by(payload) {
            Some(inst) => self.delivered(inst),
            None => None,
        }
    }

    /// The transport after a datagram from `src`, with the clock at `saved_at`,
    /// `now16`, `heard` and `now` as it is handled.
    pub open spec fn after_datagram(
        self,
        key: Seq<u8>,
        data: Seq<u8>,
        src: RemoteAddr,
        saved_at: u64,
        now16: u16,
        heard: u64,
        now: u64,
    ) -> TransportState {
        let over = self.over(self.conn.after_datagram(key, data, src, saved_at, now16, heard));
        match self.conn.accepted(key, data) {
            Some(p) => over.after_payload(p.payload, now),
            None => over,
        }
    }

    /// What a datagram adds to the input, if anything.
    pub open spec fn datagram_delivers(self, key: Seq<u8>, data: Seq<u8>) -> Option<Seq<u8>> {
        match self.conn.accepted(key, data) {
            Some(p) => self.payload_delivers(p.payload),
            None => None,
        }
    }
}

/// The connection, and what is to be done with each payload, after some payloads
/// were handed to it with the clock as given, up to the first that is refused.
pub open spec fn handed_over(
    conn: network::ConnState,
    key: Seq<u8>,
    payloads: Seq<Seq<u8>>,
    clock: Seq<(u64, u16)>,
) -> (network::ConnState, Seq<network::OutgoingView>)
    decreases payloads.len(),
{
    if payloads.len() == 0 {
        (conn, Seq::empty())
    } else {
        let (c, outs) = handed_over(conn, key, payloads.drop_last(), clock.drop_last());
        if outs.len() > 0 && outs.last() is Refused {
            (c, outs)
        } else {
            let (now, now16) = clock.last();
            (
                c.after_send(payloads.last(), now),
                outs.push(c.outgoing(key, payloads.last(), now, now16)),
            )
        }
    }
}

/// The payloads of the packets that carry fragments.
pub open spec fn fragment_payloads(frags: Seq<fragment::FragmentView>) -> Seq<Seq<u8>> {
    Seq::new(frags.len(), |i: int| frags[i].bytes())
}

/// What came in with a datagram.
pub struct Received {
    /// What was added to the input, if anything was.
    pub diff: Option<Vec<u8>>,
    /// The round trip that the datagram tells of, if it does.
    pub rtt: Option<RttSample>,
    /// Whether it came from another address than the ones before.
    pub attached: bool,
}

/// What is to be sent after a look at the clock.
pub struct Sending {
    /// What is to be done with each packet.
    pub outgoing: Vec<Outgoing>,
    /// Why the next packet was refused, if it was.
    pub error: Option<NetworkError>,
}

/// The content of what is to be done with packets.
pub open spec fn outgoing_views(outs: Seq<Outgoing>) -> Seq<network::OutgoingView> {
    Seq::new(outs.len(), |i: int| network::outgoing_view(Ok(outs[i])))
}

impl View for Sending {
    type V = Seq<network::OutgoingView>;

    open spec fn view(&self) -> Seq<network::OutgoingView> {
        if self.error is Some {
            outgoing_views(self.outgoing@).push(network::OutgoingView::Refused)
        } else {
            outgoing_views(self.outgoing@)
        }
    }
}

impl TransportState {
    /// What a tick at `now` hands to the connection.
    pub open spec fn tick_payloads(self, now: u64, chaff: Seq<u8>) -> Seq<Seq<u8>> {
        match self.due(now) {
            Due::Diff | Due::Ack => fragment_payloads(self.fragments(self.due(now), chaff)),
            _ => Seq::empty(),
        }
    }

    /// What is to be done with each of the packets of a tick at `now`, with the
    /// clock at `clock` as they are handed over.
    pub open spec fn tick_outgoing(
        self,
        key: Seq<u8>,
        now: u64,
        chaff: Seq<u8>,
        clock: Seq<(u64, u16)>,
    ) -> Seq<network::OutgoingView> {
        handed_over(self.conn, key, self.tick_payloads(now, chaff), clock).1
    }

    /// The transport after a tick at `now`. Where a packet is refused, the tick
    /// ends there.
    pub open spec fn after_tick(
        self,
        key: Seq<u8>,
        now: u64,
        chaff: Seq<u8>,
        interval: u64,
        clock: Seq<(u64, u16)>,
    ) -> TransportState {
        let due = self.due(now);
        let (conn, outs) = handed_over(self.conn, key, self.tick_payloads(now, chaff), clock);
        match due {
            Due::Nothing => self,
            Due::Quiet => self.hurried(now, interval),
            _ => if outs.last() is Refused {
                self.taken_up(due).over(conn)
            } else {
                self.taken_up(due).over(conn).all_sent(due, self.next_num(due), now).hurried(
                    now,
                    interval,
                )
            },
        }
    }
}

proof fn lemma_refused_stops(
    conn: network::ConnState,
    key: Seq<u8>,
    payloads: Seq<Seq<u8>>,
    clock: Seq<(u64, u16)>,
    n: int,
)
    requires
        0 < n <= payloads.len(),
        clock.len() == payloads.len(),
        handed_over(conn, key, payloads.take(n), clock.take(n)).1.len() > 0,
        handed_over(conn, key, payloads.take(n), clock.take(n)).1.last() is Refused,
    ensures
        handed_over(conn, key, payloads, clock) == handed_over(
            conn,
            key,
            payloads.take(n),
            clock.take(n),
        ),
    decreases payloads.len(),
{
    if n == payloads.len() {
        assert(payloads.take(n) =~= payloads);
        assert(clock.take(n) =~= clock);
    } else {
        assert(payloads.drop_last().take(n) =~= payloads.take(n));
        assert(clock.drop_last().take(n) =~= clock.take(n));
        lemma_refused_stops(conn, key, payloads.drop_last(), clock.drop_last(), n);
    }
}

proof fn lemma_something_comes_out(
    conn: network::ConnState,
    key: Seq<u8>,
    payloads: Seq<Seq<u8>>,
    clock: Seq<(u64, u16)>,
)
    requires
        payloads.len() > 0,
    ensures
        handed_over(conn, key, payloads, clock).1.len() > 0,
{
}

/// There is something to be done with every payload, unless one is refused.
pub proof fn lemma_no_more_than_handed(
    conn: network::ConnState,
    key: Seq<u8>,
    payloads: Seq<Seq<u8>>,
    clock: Seq<(u64, u16)>,
)
    ensures
        handed_over(conn, key, payloads, clock).1.len() <= payloads.len(),
        ({
            let outs = handed_over(conn, key, payloads, clock).1;
            outs.len() == payloads.len() || (outs.len() > 0 && outs.last() is Refused)
        }),
    decreases payloads.len(),
{
    if payloads.len() > 0 {
        lemma_no_more_than_handed(conn, key, payloads.drop_last(), clock.drop_last());
    }
}

/// Whether a tick at `now`, with the clock at `clock` as packets are handed over,
/// leads from one state of the transport to another and sends what is given. The
/// datagrams that are sent carry the fragments of the instruction, and these
/// bring it over whole.
pub open spec fn ticks(
    before: TransportState,
    key: Seq<u8>,
    now: u64,
    chaff: Seq<u8>,
    estimate: u64,
    clock: Seq<(u64, u16)>,
    after: TransportState,
    sent: Seq<network::OutgoingView>,
) -> bool {
    &&& clock.len() == before.tick_payloads(now, chaff).len()
    &&& read_from_clock(clock)
    &&& after == before.after_tick(key, now, chaff, interval_for(estimate), clock)
    &&& sent == before.tick_outgoing(key, now, chaff, clock)
    &&& all_carried(key, before.tick_payloads(now, chaff), sent)
    &&& all_fit(before.conn.mtu as nat, sent)
    &&& before.sends_whole(before.due(now), chaff)
}

/// Whether no 16-bit time among some readings of the clock is the one that stands
/// for none.
pub open spec fn read_from_clock(clock: Seq<(u64, u16)>) -> bool {
    forall|i: int| 0 <= i < clock.len() ==> (#[trigger] clock[i]).1 != network::NO_TIMESTAMP
}

/// Whether every datagram among what is to be sent has at most `mtu` bytes.
pub open spec fn all_fit(mtu: nat, sent: Seq<network::OutgoingView>) -> bool {
    forall|i: int|
        0 <= i < sent.len() ==> (#[trigger] sent[i] matches network::OutgoingView::Datagram {
            bytes,
            ..
        } ==> bytes.len() <= mtu)
}

/// Whether the reason for a refusal, where there is one, is that too many blocks
/// were encrypted.
pub open spec fn refusal_is_told(error: Option<NetworkError>) -> bool {
    error matches Some(e) ==> e.message@ == "Encrypted 2^47 blocks."@
}

/// Whether every datagram among what is to be sent opens, under `key`, to a packet
/// to the client with the payload that it is for, and is longer than that by what packet and
/// encryption add.
pub open spec fn all_carried(
    key: Seq<u8>,
    payloads: Seq<Seq<u8>>,
    sent: Seq<network::OutgoingView>,
) -> bool {
    forall|i: int|
        0 <= i < sent.len() ==> (#[trigger] sent[i] matches network::OutgoingView::Datagram {
            bytes,
            ..
        } ==> network::carries(key, bytes, network::Direction::ToClient, payloads[i]) && bytes.len()
            == payloads[i].len() + network::ADDED_BYTES + network::CRYPTO_ADDED_BYTES)
}

/// The content of a list of bytes.
pub open spec fn byte_views(list: Seq<Vec<u8>>) -> Seq<Seq<u8>> {
    Seq::new(list.len(), |i: int| list[i]@)
}

/// Calls `rand::random` for a byte: nothing is claimed of it.
#[verifier::external_body]
fn random_byte() -> u8 {
    rand::random::<u8>()
}

/// Up to sixteen random bytes: any such bytes may come out.
pub fn random_chaff() -> (chaff: Vec<u8>)
    ensures
        chaff@.len() <= 16,
{
    let len: usize = chaff_len(random_byte());
    let mut chaff: Vec<u8> = Vec::new();
    while chaff.len() < len
        invariant
            chaff@.len() <= len <= 16,
        decreases len - chaff.len(),
    {
        chaff.push(random_byte());
    }
    chaff
}

/// How many bytes hide the length of an instruction, for a byte that was drawn.
pub fn chaff_len(drawn: u8) -> (len: usize)
    ensures
        len == drawn % 17,
{
    (drawn % 17) as usize
}

/// Hands payloads to a connection one by one, up to the first that is refused.
fn hand_over(connection: &mut Connection, payloads: &Vec<Vec<u8>>) -> (r: Sending)
    requires
        old(connection).wf(),
        forall|i: int|
            0 <= i < payloads@.len() ==> (#[trigger] payloads@[i])@.len() + 4
                < crypto::ocb_text_limit(),
    ensures
        final(connection).wf(),
        final(connection).key() == old(connection).key(),
        all_carried(old(connection).key(), byte_views(payloads@), r@),
        refusal_is_told(r.error),
        exists|clock: Seq<(u64, u16)>|
            #![trigger handed_over(
                old(connection)@,
                old(connection).key(),
                byte_views(payloads@),
                clock,
            )]
            {
                &&& clock.len() == payloads@.len()
                &&& read_from_clock(clock)
                &&& handed_over(
                    old(connection)@,
                    old(connection).key(),
                    byte_views(payloads@),
                    clock,
                ) == (final(connection)@, r@)
                &&& r.error is Some <==> r@.len() > 0 && r@.last() is Refused
            },
{
    let mut outgoing: Vec<Outgoing> = Vec::new();
    let mut i: usize = 0;
    let ghost all = byte_views(payloads@);
    let ghost conn = connection@;
    let ghost key = connection.key();
    let ghost mut clock: Seq<(u64, u16)> = Seq::empty();
    assert(all.take(0) =~= Seq::empty());
    assert(outgoing_views(outgoing@) =~= Seq::empty());
    while i < payloads.len()
        invariant
            connection.wf(),
            connection.key() == key,
            all == byte_views(payloads@),
            forall|i: int|
                0 <= i < payloads@.len() ==> (#[trigger] payloads@[i])@.len() + 4
                    < crypto::ocb_text_limit(),
            i <= payloads@.len(),
            clock.len() == i,
            read_from_clock(clock),
            outgoing@.len() == i,
            all_carried(key, all, outgoing_views(outgoing@)),
            conn == old(connection)@,
            key == old(connection).key(),
            handed_over(conn, key, all.take(i as int), clock) == (
                connection@,
                outgoing_views(outgoing@),
            ),
        decreases payloads@.len() - i,
    {
        let now: u64 = timestamp();
        let now16: u16 = timestamp16();
        let ghost before = outgoing_views(outgoing@);
        let ghost c = connection@;
        let r = connection.send_at(payloads[i].as_slice(), now, now16);
        let ghost view = network::outgoing_view(r);
        proof {
            let p = c.packet(payloads@[i as int]@, now, now16);
            if let network::OutgoingView::Datagram { to, bytes } = view {
                network::law_payload_is_carried(key, bytes, p);
            }
            let longer = all.take(i + 1);
            let ticked = clock.push((now, now16));
            assert(longer.drop_last() =~= all.take(i as int));
            assert(ticked.drop_last() =~= clock);
            assert(longer.last() == payloads@[i as int]@);
            assert(before.len() > 0 ==> !(before.last() is Refused)) by {
                if before.len() > 0 {
                    assert(before.last() == network::outgoing_view(
                        Ok(outgoing@[before.len() - 1]),
                    ));
                }
            }
            assert(handed_over(conn, key, longer, ticked) == (connection@, before.push(view)));
            clock = ticked;
        }
        match r {
            Ok(out) => {
                outgoing.push(out);
                assert(outgoing_views(outgoing@) =~= before.push(view));
            },
            Err(e) => {
                let r = Sending { outgoing, error: Some(e) };
                proof {
                    assert(r@ =~= before.push(network::OutgoingView::Refused));
                    let rest = Seq::new((all.len() - i - 1) as nat, |j: int| (0u64, 0u16));
                    let padded = clock + rest;
                    assert(padded.take(i + 1) =~= clock);
                    lemma_refused_stops(conn, key, all, padded, i + 1);
                    assert(handed_over(conn, key, byte_views(payloads@), padded) == (
                        connection@,
                        r@,
                    ));
                }
                return r;
            },
        }
        i = i + 1;
    }
    let r = Sending { outgoing, error: None };
    proof {
        assert(all.take(i as int) =~= all);
        assert(handed_over(conn, key, byte_views(payloads@), clock) == (connection@, r@));
        if r@.len() > 0 {
            assert(r@.last() == network::outgoing_view(Ok(r.outgoing@[r@.len() - 1])));
        }
    }
    r
}

/// What a tick has taken up: what was due, the state that is sent for it, and the
/// payloads to hand to the connection.
pub struct Step {
    pub due: Due,
    pub num: u64,
    pub payloads: Vec<Vec<u8>>,
}

/// The transport of a server.
pub struct ServerTransport {
    connection: Connection,
    last_sent_num: u64,
    ack_num: u64,
    assumed_receiver_num: u64,
    fragmenter: Fragmenter,
    next_ack_time: u64,
    next_send_time: u64,
    pending_output: Vec<u8>,
    pending_echo_ack: Option<u64>,
    pending_resize: Option<(i32, i32)>,
    shutdown_in_progress: bool,
    shutdown_tries: i32,
    received_state_num: u64,
    assembly: FragmentAssembly,
    input_history: Vec<(u64, u64)>,
    echo_ack: u64,
    last_ack_sent_to_client: u64,
}

impl View for ServerTransport {
    type V = TransportState;

    closed spec fn view(&self) -> TransportState {
        TransportState {
            conn: self.connection@,
            last_sent_num: self.last_sent_num,
            ack_num: self.ack_num,
            assumed_receiver_num: self.assumed_receiver_num,
            fragmenter: self.fragmenter@,
            next_ack_time: self.next_ack_time,
            next_send_time: self.next_send_time,
            pending_output: self.pending_output@,
            pending_echo_ack: self.pending_echo_ack,
            pending_resize: self.pending_resize,
            shutdown_in_progress: self.shutdown_in_progress,
            shutdown_tries: self.shutdown_tries,
            received_state_num: self.received_state_num,
            assembly: self.assembly@,
            input_history: self.input_history@,
            echo_ack: self.echo_ack,
            last_ack_sent_to_client: self.last_ack_sent_to_client,
        }
    }
}

impl ServerTransport {
    /// The key of the session.
    pub closed spec fn key(self) -> Seq<u8> {
        self.connection.key()
    }

    /// The connection is in order.
    pub closed spec fn wf(self) -> bool {
        self.connection.wf()
    }

    /// The transport over a connection, at `now`.
    pub fn new_at(connection: Connection, now: u64) -> (t: ServerTransport)
        requires
            connection.wf(),
        ensures
            t@ == TransportState::initial(connection@, now),
            t.key() == connection.key(),
            t.wf(),
    {
        let t = ServerTransport {
            connection,
            last_sent_num: 0,
            ack_num: 0,
            assumed_receiver_num: 0,
            fragmenter: Fragmenter::new(),
            next_ack_time: now.wrapping_add(ACK_INTERVAL),
            next_send_time: u64::MAX,
            pending_output: Vec::new(),
            pending_echo_ack: None,
            pending_resize: None,
            shutdown_in_progress: false,
            shutdown_tries: 0,
            received_state_num: 0,
            assembly: FragmentAssembly::new(),
            input_history: Vec::new(),
            echo_ack: 0,
            last_ack_sent_to_client: 0,
        };
        assert(t@ =~= TransportState::initial(connection@, now));
        t
    }

    /// The transport over a connection.
    pub fn new(connection: Connection) -> (t: ServerTransport)
        requires
            connection.wf(),
        ensures
            exists|now: u64| t@ == #[trigger] TransportState::initial(connection@, now),
            t.key() == connection.key(),
            t.wf(),
    {
        ServerTransport::new_at(connection, timestamp())
    }

    /// The connection.
    pub fn connection(&self) -> (c: &Connection)
        ensures
            c@ == self@.conn,
            c.key() == self.key(),
            c.wf() == self.wf(),
    {
        &self.connection
    }

    /// The newest state of the input.
    pub fn get_remote_state_num(&self) -> (num: u64)
        ensures
            num == self@.received_state_num,
    {
        self.received_state_num
    }

    /// Whether the transport was told to end.
    pub fn shutdown_in_progress(&self) -> (ending: bool)
        ensures
            ending == self@.shutdown_in_progress,
    {
        self.shutdown_in_progress
    }

    /// Tells the transport to end.
    pub fn start_shutdown(&mut self)
        ensures
            final(self)@ == old(self)@.shutting_down(),
            final(self).key() == old(self).key(),
            final(self).wf() == old(self).wf(),
    {
        self.shutdown_in_progress = true;
    }

    /// Whether the client acknowledged that the transport ends.
    pub fn shutdown_acknowledged(&self) -> (acknowledged: bool)
        ensures
            acknowledged == self@.shutdown_acknowledged(),
    {
        self.shutdown_in_progress && self.ack_num == u64::MAX
    }

    /// Whether the client ended the transport and was told that this is known.
    pub fn counterparty_shutdown_ack_sent(&self) -> (sent: bool)
        ensures
            sent == self@.counterparty_shutdown_ack_sent(),
    {
        self.received_state_num == u64::MAX && self.last_ack_sent_to_client == u64::MAX
    }

    /// Whether the end of the transport was announced often enough.
    pub fn shutdown_ack_timed_out(&self) -> (timed_out: bool)
        ensures
            timed_out == self@.shutdown_ack_timed_out(),
    {
        self.shutdown_tries >= 16
    }

    /// Notes that a state of the input came at `now`.
    pub fn register_input_frame(&mut self, frame_num: u64, now: u64)
        ensures
            final(self)@ == old(self)@.with_input_frame(frame_num, now),
            final(self).key() == old(self).key(),
            final(self).wf() == old(self).wf(),
    {
        self.input_history.push((frame_num, now));
        assert(self@ =~= old(self)@.with_input_frame(frame_num, now));
    }

    /// Finds out which input has had time to show at `now`, and forgets what is
    /// older. True is returned where that changed.
    pub fn update_echo_ack(&mut self, now: u64) -> (changed: bool)
        ensures
            final(self)@ == old(self)@.with_echo_ack(now),
            changed == (final(self)@.echo_ack != old(self)@.echo_ack),
            final(self).key() == old(self).key(),
            final(self).wf() == old(self).wf(),
    {
        let cutoff: u64 = now.saturating_sub(ECHO_TIMEOUT);
        let ghost history = self.input_history@;
        assert(cutoff == shown_before(now));
        let mut newest: u64 = 0;
        let mut i: usize = 0;
        assert(history.take(0) =~= Seq::empty());
        while i < self.input_history.len()
            invariant
                history == self.input_history@,
                i <= history.len(),
                newest == newest_shown(history.take(i as int), cutoff),
            decreases history.len() - i,
        {
            let (num, ts) = self.input_history[i];
            proof {
                let longer = history.take(i + 1);
                assert(longer.drop_last() =~= history.take(i as int));
                assert(longer.last() == (num, ts));
            }
            if ts <= cutoff && num > newest {
                newest = num;
            }
            i = i + 1;
        }
        assert(history.take(i as int) =~= history);

        let mut kept: Vec<(u64, u64)> = Vec::new();
        let mut j: usize = 0;
        assert(kept@ =~= Seq::empty());
        while j < self.input_history.len()
            invariant
                history == self.input_history@,
                j <= history.len(),
                kept@ == kept_frames(history.take(j as int), newest),
            decreases history.len() - j,
        {
            let (num, ts) = self.input_history[j];
            proof {
                let longer = history.take(j + 1);
                assert(longer.drop_last() =~= history.take(j as int));
                assert(longer.last() == (num, ts));
            }
            if num >= newest {
                kept.push((num, ts));
            }
            j = j + 1;
        }
        assert(history.take(j as int) =~= history);
        self.input_history = kept;

        if self.echo_ack != newest {
            self.echo_ack = newest;
            true
        } else {
            false
        }
    }

    /// The newest state of the input that has had time to show.
    pub fn echo_ack(&self) -> (num: u64)
        ensures
            num == self@.echo_ack,
    {
        self.echo_ack
    }

    /// Takes output of the terminal that came at `now`.
    pub fn push_output_at(&mut self, data: &[u8], now: u64)
        ensures
            final(self)@ == old(self)@.with_output(data@, now),
            final(self).key() == old(self).key(),
            final(self).wf() == old(self).wf(),
    {
        push_all(&mut self.pending_output, data);
        self.next_send_time = now.wrapping_add(SEND_INTERVAL_MIN);
    }

    /// Takes output of the terminal.
    pub fn push_output(&mut self, data: &[u8])
        ensures
            exists|now: u64| final(self)@ == #[trigger] old(self)@.with_output(data@, now),
            final(self).key() == old(self).key(),
            final(self).wf() == old(self).wf(),
    {
        self.push_output_at(data, timestamp())
    }

    /// Takes it that input was found, at `now`, to have been echoed.
    pub fn set_pending_echo_ack_at(&mut self, ack: u64, now: u64)
        ensures
            final(self)@ == old(self)@.with_pending_echo_ack(ack, now),
            final(self).key() == old(self).key(),
            final(self).wf() == old(self).wf(),
    {
        self.pending_echo_ack = Some(ack);
        self.next_send_time = now.wrapping_add(SEND_INTERVAL_MIN);
    }

    /// Takes it that input was found to have been echoed.
    pub fn set_pending_echo_ack(&mut self, ack: u64)
        ensures
            exists|now: u64| final(self)@ == #[trigger] old(self)@.with_pending_echo_ack(ack, now),
            final(self).key() == old(self).key(),
            final(self).wf() == old(self).wf(),
    {
        self.set_pending_echo_ack_at(ack, timestamp())
    }

    /// Takes it that the size of the terminal changed at `now`.
    pub fn set_pending_resize_at(&mut self, w: i32, h: i32, now: u64)
        ensures
            final(self)@ == old(self)@.with_pending_resize(w, h, now),
            final(self).key() == old(self).key(),
            final(self).wf() == old(self).wf(),
    {
        self.pending_resize = Some((w, h));
        self.next_send_time = now.wrapping_add(SEND_INTERVAL_MIN);
    }

    /// Takes it that the size of the terminal changed.
    pub fn set_pending_resize(&mut self, w: i32, h: i32)
        ensures
            exists|now: u64| final(self)@ == #[trigger] old(self)@.with_pending_resize(w, h, now),
            final(self).key() == old(self).key(),
            final(self).wf() == old(self).wf(),
    {
        self.set_pending_resize_at(w, h, timestamp())
    }

    fn has_pending_data(&self) -> (has: bool)
        ensures
            has == self@.has_pending_data(),
    {
        self.pending_output.len() > 0 || self.pending_echo_ack.is_some()
            || self.pending_resize.is_some()
    }

    /// How long until something is due, at `now`.
    pub fn wait_time_at(&self, now: u64) -> (wait: u64)
        ensures
            wait == self@.wait_time(now),
    {
        if !self.connection.has_remote_addr() {
            return u64::MAX;
        }
        let next: u64 = if self.next_ack_time < self.next_send_time {
            self.next_ack_time
        } else {
            self.next_send_time
        };
        next.saturating_sub(now)
    }

    /// How long until something is due.
    pub fn wait_time(&self) -> (wait: u64)
        ensures
            exists|now: u64| wait == #[trigger] self@.wait_time(now),
    {
        self.wait_time_at(timestamp())
    }

    /// Takes an instruction of the client in that came at `now`. What it adds to
    /// the input is returned.
    pub fn apply_instruction(&mut self, inst: Instruction, now: u64) -> (diff: Option<Vec<u8>>)
        ensures
            final(self)@ == old(self)@.after_instruction(inst@, now),
            crate::wire::bytes_view(diff) == old(self)@.delivered(inst@),
            final(self).key() == old(self).key(),
            final(self).wf() == old(self).wf(),
    {
        if inst.protocol_version() != MOSH_PROTOCOL_VERSION {
            return None;
        }

        let client_ack: u64 = inst.ack_num();
        if client_ack > self.ack_num {
            self.ack_num = client_ack;
        }

        if inst.new_num() == u64::MAX {
            self.received_state_num = u64::MAX;
            self.next_ack_time = now;
            return None;
        }

        let delayed: u64 = now.wrapping_add(ACK_DELAY);
        if self.next_ack_time > delayed {
            self.next_ack_time = delayed;
        }

        if inst.new_num() <= self.received_state_num {
            return None;
        }
        if inst.old_num() != self.received_state_num && inst.old_num() != 0 {
            return None;
        }
        self.received_state_num = inst.new_num();

        match inst.diff {
            Some(diff) => if diff.len() > 0 {
                Some(diff)
            } else {
                None
            },
            None => None,
        }
    }

    /// Takes the payload of a packet in that came at `now`. What it adds to the
    /// input is returned.
    pub fn apply_payload(&mut self, payload: &[u8], now: u64) -> (diff: Option<Vec<u8>>)
        ensures
            final(self)@ == old(self)@.after_payload(payload@, now),
            crate::wire::bytes_view(diff) == old(self)@.payload_delivers(payload@),
            final(self).key() == old(self).key(),
            final(self).wf() == old(self).wf(),
    {
        let frag = match Fragment::from_bytes(payload) {
            Some(frag) => frag,
            None => return None,
        };
        if !self.assembly.add_fragment(&frag) {
            return None;
        }
        match self.assembly.get_assembly() {
            Some(inst) => self.apply_instruction(inst, now),
            None => None,
        }
    }

    /// Takes a datagram in that came from `src`, with the clock at `saved_at`,
    /// `now16`, `heard` and `now` as it is handled.
    pub fn recv_at(
        &mut self,
        data: &[u8],
        src: RemoteAddr,
        saved_at: u64,
        now16: u16,
        heard: u64,
        now: u64,
    ) -> (r: Received)
        requires
            old(self).wf(),
            data@.len() < crypto::ocb_text_limit() + 24,
        ensures
            final(self).wf(),
            final(self).key() == old(self).key(),
            final(self)@ == old(self)@.after_datagram(
                old(self).key(),
                data@,
                src,
                saved_at,
                now16,
                heard,
                now,
            ),
            crate::wire::bytes_view(r.diff) == old(self)@.datagram_delivers(
                old(self).key(),
                data@,
            ),
            r.rtt == old(self)@.conn.incoming_datagram(old(self).key(), data@, src, now16).rtt,
            r.attached == old(self)@.conn.incoming_datagram(
                old(self).key(),
                data@,
                src,
                now16,
            ).attached,
    {
        let incoming = self.connection.recv_at(data, src, saved_at, now16, heard);
        let diff = match incoming.payload {
            Some(payload) => self.apply_payload(payload.as_slice(), now),
            None => None,
        };
        Received { diff, rtt: incoming.rtt, attached: incoming.attached }
    }

    /// Takes a datagram in that came from `src`.
    pub fn recv(&mut self, data: &[u8], src: RemoteAddr) -> (r: Received)
        requires
            old(self).wf(),
            data@.len() < crypto::ocb_text_limit() + 24,
        ensures
            final(self).wf(),
            final(self).key() == old(self).key(),
            crate::wire::bytes_view(r.diff) == old(self)@.datagram_delivers(
                old(self).key(),
                data@,
            ),
            exists|saved_at: u64, now16: u16, heard: u64, now: u64|
                now16 != network::NO_TIMESTAMP && final(self)@ == #[trigger] old(
                    self,
                )@.after_datagram(
                    old(self).key(),
                    data@,
                    src,
                    saved_at,
                    now16,
                    heard,
                    now,
                ) && r.rtt == old(self)@.conn.incoming_datagram(
                    old(self).key(),
                    data@,
                    src,
                    now16,
                ).rtt && r.attached == old(self)@.conn.incoming_datagram(
                    old(self).key(),
                    data@,
                    src,
                    now16,
                ).attached,
    {
        let saved_at: u64 = timestamp();
        let now16: u16 = timestamp16();
        let heard: u64 = timestamp();
        let now: u64 = timestamp();
        self.recv_at(data, src, saved_at, now16, heard, now)
    }

    /// Takes up what is due at `now`: the state that is sent for it is chosen and
    /// its instruction is cut into payloads for the connection.
    pub fn begin_tick(&mut self, now: u64, chaff: Vec<u8>) -> (step: Step)
        requires
            old(self).wf(),
        ensures
            final(self).wf(),
            final(self).key() == old(self).key(),
            final(self)@ == old(self)@.taken_up(old(self)@.due(now)),
            step.due == old(self)@.due(now),
            step.num == old(self)@.next_num(step.due),
            byte_views(step.payloads@) == old(self)@.tick_payloads(now, chaff@),
            forall|i: int|
                0 <= i < step.payloads@.len() ==> (#[trigger] step.payloads@[i])@.len()
                    <= old(self)@.fragment_mtu(),
            old(self)@.sends_whole(step.due, chaff@),
    {
        let no_payloads: Vec<Vec<u8>> = Vec::new();
        assert(byte_views(no_payloads@) =~= Seq::empty());
        let next_num: u64 = self.last_sent_num.wrapping_add(1);
        if !self.connection.has_remote_addr() || (now < self.next_ack_time && now
            < self.next_send_time) {
            return Step { due: Due::Nothing, num: next_num, payloads: no_payloads };
        }
        if self.has_pending_data() {
            let diff = make_host_diff(
                self.pending_output.as_slice(),
                self.pending_echo_ack,
                self.pending_resize,
            );
            self.pending_echo_ack = None;
            self.pending_resize = None;
            self.pending_output.clear();
            self.last_sent_num = next_num;
            let payloads = self.make_payloads(Some(diff), next_num, chaff);
            proof {
                let frags = old(self)@.fragments(Due::Diff, chaff@);
                assert(self@ =~= old(self)@.taken_up(Due::Diff));
                assert(byte_views(payloads@) == fragment_payloads(frags));
                assert(byte_views(payloads@).len() == payloads@.len());
            }
            Step { due: Due::Diff, num: next_num, payloads }
        } else if now >= self.next_ack_time {
            let num: u64 = if self.shutdown_in_progress {
                self.shutdown_tries = self.shutdown_tries.wrapping_add(1);
                u64::MAX
            } else {
                next_num
            };
            if num != u64::MAX {
                self.last_sent_num = num;
            }
            let payloads = self.make_payloads(None, num, chaff);
            proof {
                let frags = old(self)@.fragments(Due::Ack, chaff@);
                assert(self@ =~= old(self)@.taken_up(Due::Ack));
                assert(byte_views(payloads@) == fragment_payloads(frags));
                assert(byte_views(payloads@).len() == payloads@.len());
            }
            Step { due: Due::Ack, num, payloads }
        } else {
            Step { due: Due::Quiet, num: next_num, payloads: no_payloads }
        }
    }

    /// The payloads that carry a difference, or none, to the state `new_num`.
    fn make_payloads(&mut self, diff: Option<Vec<u8>>, new_num: u64, chaff: Vec<u8>) -> (payloads:
        Vec<Vec<u8>>)
        requires
            old(self).wf(),
        ensures
            final(self).wf(),
            final(self).key() == old(self).key(),
            final(self)@ == (TransportState {
                last_ack_sent_to_client: old(self)@.received_state_num,
                fragmenter: old(self)@.fragmenter.after(old(self)@.assumed_receiver_num, new_num),
                ..old(self)@
            }),
            ({
                let inst = messages::InstructionView {
                    protocol_version: Some(MOSH_PROTOCOL_VERSION),
                    old_num: Some(old(self)@.assumed_receiver_num),
                    new_num: Some(new_num),
                    ack_num: Some(old(self)@.received_state_num),
                    throwaway_num: Some(0),
                    diff: crate::wire::bytes_view(diff),
                    chaff: Some(chaff@),
                };
                let frags = fragment::split(
                    fragment::zlib_compressed(inst.bytes()),
                    (old(self)@.fragment_mtu() - fragment::FRAG_HEADER_LEN) as nat,
                    final(self)@.fragmenter.next_id,
                    0,
                );
                &&& byte_views(payloads@) == fragment_payloads(frags)
                &&& frags.len() <= 0x8000 ==> crate::reassembly::comes_out_whole(frags, inst)
            }),
            forall|i: int|
                0 <= i < payloads@.len() ==> (#[trigger] payloads@[i])@.len() <= old(
                    self,
                )@.fragment_mtu(),
    {
        let inst = Instruction {
            protocol_version: Some(MOSH_PROTOCOL_VERSION),
            old_num: Some(self.assumed_receiver_num),
            new_num: Some(new_num),
            ack_num: Some(self.received_state_num),
            throwaway_num: Some(0),
            diff,
            chaff: Some(chaff),
        };
        self.last_ack_sent_to_client = self.received_state_num;
        proof {
            network::lemma_connection_mtu(self.connection);
        }
        let mtu: usize = self.connection.get_mtu() - network::ADDED_BYTES
            - network::CRYPTO_ADDED_BYTES;
        let frags = self.fragmenter.make_fragments(&inst, mtu);
        let ghost views = fragment::fragment_views(frags@);
        let mut payloads: Vec<Vec<u8>> = Vec::new();
        let mut i: usize = 0;
        while i < frags.len()
            invariant
                i <= frags@.len(),
                payloads@.len() == i,
                forall|j: int|
                    0 <= j < frags@.len() ==> (#[trigger] frags@[j])@.bytes().len() <= mtu,
                forall|j: int| 0 <= j < i ==> (#[trigger] payloads@[j])@ == frags@[j]@.bytes(),
            decreases frags@.len() - i,
        {
            payloads.push(frags[i].to_bytes());
            i = i + 1;
        }
        proof {
            assert forall|j: int| 0 <= j < payloads@.len() implies (#[trigger] payloads@[j])@.len()
                <= mtu by {
                assert(frags@[j]@.bytes().len() <= mtu);
            }
            assert(byte_views(payloads@) =~= fragment_payloads(views));
        }
        payloads
    }

    /// The interval between two sends while shutting down, for an estimated
    /// round trip.
    fn send_interval(&self, estimate: u64) -> (interval: u64)
        ensures
            interval == interval_for(estimate),
    {
        let rto: u64 = self.connection.timeout(estimate);
        if rto < SEND_INTERVAL_MIN {
            SEND_INTERVAL_MIN
        } else if rto > SEND_INTERVAL_MAX {
            SEND_INTERVAL_MAX
        } else {
            rto
        }
    }

    /// Sets the next deadlines after what was due at `now` was sent, given the
    /// estimated round trip.
    pub fn end_tick(&mut self, due: Due, num: u64, now: u64, estimate: u64)
        ensures
            final(self)@ == (match due {
                Due::Nothing => old(self)@,
                Due::Quiet => old(self)@.hurried(now, interval_for(estimate)),
                _ => old(self)@.all_sent(due, num, now).hurried(now, interval_for(estimate)),
            }),
            final(self).key() == old(self).key(),
            final(self).wf() == old(self).wf(),
    {
        match due {
            Due::Nothing => return,
            Due::Quiet => {},
            _ => {
                self.assumed_receiver_num = num;
                self.next_ack_time = now.wrapping_add(ACK_INTERVAL);
                if due == Due::Diff {
                    self.next_send_time = u64::MAX;
                }
            },
        }
        if self.shutdown_in_progress {
            let soon: u64 = now.wrapping_add(self.send_interval(estimate));
            if soon <= self.next_ack_time {
                self.next_ack_time = soon;
            }
        }
    }

    /// Sends what is due at `now`, with the given bytes to hide its length, and
    /// given the estimated round trip. The clock is read again for each packet.
    pub fn tick_at(&mut self, now: u64, chaff: Vec<u8>, estimate: u64) -> (r: Sending)
        requires
            old(self).wf(),
        ensures
            final(self).wf(),
            final(self).key() == old(self).key(),
            refusal_is_told(r.error),
            all_fit(old(self)@.conn.mtu as nat, r@),
            exists|clock: Seq<(u64, u16)>| #[trigger]
                ticks(old(self)@, old(self).key(), now, chaff@, estimate, clock, final(self)@, r@),
    {
        let ghost before = self@;
        let ghost key = self.key();
        let step = self.begin_tick(now, chaff);
        let ghost taken = self@;
        proof {
            network::lemma_connection_mtu(self.connection);
        }
        let r = hand_over(&mut self.connection, &step.payloads);
        let ghost payloads = before.tick_payloads(now, chaff@);
        let ghost clock = choose|clock: Seq<(u64, u16)>|
            #![trigger handed_over(before.conn, key, payloads, clock)]
            {
                &&& clock.len() == payloads.len()
                &&& read_from_clock(clock)
                &&& handed_over(before.conn, key, payloads, clock) == (self@.conn, r@)
                &&& r.error is Some <==> r@.len() > 0 && r@.last() is Refused
            };
        proof {
            match step.due {
                Due::Diff | Due::Ack => {
                    crate::reassembly::law_split_shape(
                        fragment::zlib_compressed(before.instruction(step.due, chaff@).bytes()),
                        (before.fragment_mtu() - fragment::FRAG_HEADER_LEN) as nat,
                        before.taken_up(step.due).fragmenter.next_id,
                        0,
                    );
                    lemma_something_comes_out(before.conn, key, payloads, clock);
                },
                _ => {},
            }
            assert(self@ == taken.over(self@.conn));
            assert forall|i: int| 0 <= i < r@.len() implies (#[trigger] r@[i] matches
                network::OutgoingView::Datagram { bytes, .. } ==> bytes.len()
                <= before.conn.mtu) by {
                lemma_no_more_than_handed(before.conn, key, payloads, clock);
                assert(payloads[i] == step.payloads@[i]@);
            }
        }
        if r.error.is_some() {
            assert(ticks(before, key, now, chaff@, estimate, clock, self@, r@));
            return r;
        }
        self.end_tick(step.due, step.num, now, estimate);
        assert(ticks(before, key, now, chaff@, estimate, clock, self@, r@));
        r
    }

    /// Sends what is due, given the estimated round trip.
    pub fn tick(&mut self, estimate: u64) -> (r: Sending)
        requires
            old(self).wf(),
        ensures
            final(self).wf(),
            final(self).key() == old(self).key(),
            refusal_is_told(r.error),
            all_fit(old(self)@.conn.mtu as nat, r@),
            exists|now: u64, chaff: Seq<u8>, clock: Seq<(u64, u16)>|
                chaff.len() <= 16 && #[trigger] ticks(
                    old(self)@,
                    old(self).key(),
                    now,
                    chaff,
                    estimate,
                    clock,
                    final(self)@,
                    r@,
                ),
    {
        let now: u64 = timestamp();
        let chaff = random_chaff();
        self.tick_at(now, chaff, estimate)
    }
}

} // verus!
