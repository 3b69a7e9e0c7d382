//! What the single steps bring about, told by what can be seen before and after
//! them: what changes, what stays, and how one step shows in a later one.

use vstd::arithmetic::power2::pow2;
use vstd::prelude::*;

use crate::crypto;
use crate::fragment::{AssemblyView, FragmentView, FragmenterView};
use crate::messages;
use crate::network::{self, ConnState, PacketView, RemoteAddr};
use crate::ports::{self, PortRange};
use crate::server::{Phase, ServerState, Verdict};
use crate::text;
use crate::transport::{self, Due, TransportState};

verus! {

/// The blocks of a text are as many as are needed to hold it, and no more.
pub proof fn law_blocks_hold_the_text(len: nat)
    ensures
        16 * crypto::block_count(len) >= len,
        crypto::block_count(len) > 0 ==> 16 * (crypto::block_count(len) - 1) < len,
{
}

/// A packet to a client that is there is refused exactly when, with its blocks,
/// `2^47` or more were encrypted. A packet has four bytes more than its payload.
pub proof fn law_packets_are_refused_after_so_many_blocks(
    c: ConnState,
    key: Seq<u8>,
    payload: Seq<u8>,
    now: u64,
    now16: u16,
    blocks: nat,
)
    requires
        16 * blocks >= payload.len() + 4,
        16 * (blocks - 1) < payload.len() + 4,
        c.blocks + blocks <= u64::MAX,
        c.remote_addr is Some,
        !(c.outgoing(key, payload, now, now16) is Detached),
    ensures
        c.outgoing(key, payload, now, now16) is Refused <==> c.blocks + blocks >= pow2(47),
        c.after_send(payload, now).blocks == c.blocks + blocks,
{
    vstd::arithmetic::power2::lemma2_to64();
    assert(pow2(47) == 0x8000_0000_0000) by {
        vstd::arithmetic::power2::lemma_pow2_adds(32, 15);
    }
}

/// A packet that is no older than those before it is followed: its sender is the
/// client, is heard, and no older packet counts any more; its timestamp, if it
/// has one, is the one to be answered, whatever was to be answered before.
pub proof fn law_client_is_followed(
    c: ConnState,
    p: PacketView,
    src: RemoteAddr,
    saved_at: u64,
    now16: u16,
    heard: u64,
)
    requires
        c.expected_receiver_seq <= p.seq < u64::MAX,
    ensures
        ({
            let d = c.after_packet(p, src, saved_at, now16, heard);
            &&& d.remote_addr == Some(src)
            &&& d.last_heard == heard
            &&& d.expected_receiver_seq == p.seq + 1
            &&& p.timestamp != 0xffff ==> d.saved_timestamp == p.timestamp
                && d.saved_timestamp_received_at == saved_at
            &&& p.timestamp == 0xffff ==> d.saved_timestamp == c.saved_timestamp
                && d.saved_timestamp_received_at == c.saved_timestamp_received_at
            &&& d.seq_counter == c.seq_counter && d.blocks == c.blocks
            &&& d.direction == c.direction && d.mtu == c.mtu
            &&& c.incoming(p, src, now16).attached <==> c.remote_addr != Some(src)
            &&& c.incoming(p, src, now16).payload == Some(p.payload)
        }),
{
}

/// A packet tells of a round trip exactly when it answers a timestamp that is
/// less than five seconds old; the first such packet starts the estimate, and
/// all later ones go into it.
pub proof fn law_round_trips_are_measured(
    c: ConnState,
    p: PacketView,
    src: RemoteAddr,
    saved_at: u64,
    now16: u16,
    heard: u64,
    rtt: u16,
)
    requires
        c.expected_receiver_seq <= p.seq < u64::MAX,
        p.timestamp_reply != 0xffff,
        (p.timestamp_reply + rtt) % 0x1_0000 == now16,
    ensures
        rtt < 5000 ==> c.after_packet(p, src, saved_at, now16, heard).rtt_hit,
        rtt < 5000 && !c.rtt_hit ==> c.incoming(p, src, now16).rtt == Some(
            network::RttSample::First(rtt),
        ),
        rtt < 5000 && c.rtt_hit ==> c.incoming(p, src, now16).rtt == Some(
            network::RttSample::Later(rtt),
        ),
        rtt >= 5000 ==> c.incoming(p, src, now16).rtt is None && c.after_packet(
            p,
            src,
            saved_at,
            now16,
            heard,
        ).rtt_hit == c.rtt_hit,
{
}

/// A packet without an answer tells of no round trip.
pub proof fn law_no_answer_no_round_trip(
    c: ConnState,
    p: PacketView,
    src: RemoteAddr,
    saved_at: u64,
    now16: u16,
    heard: u64,
)
    requires
        p.timestamp_reply == 0xffff,
    ensures
        c.incoming(p, src, now16).rtt is None,
        c.after_packet(p, src, saved_at, now16, heard).rtt_hit == c.rtt_hit,
{
}

/// A packet that is older than one before it changes nothing; its payload is
/// handed out all the same.
pub proof fn law_late_packet_changes_nothing(
    c: ConnState,
    p: PacketView,
    src: RemoteAddr,
    saved_at: u64,
    now16: u16,
    heard: u64,
)
    requires
        p.seq < c.expected_receiver_seq,
    ensures
        c.after_packet(p, src, saved_at, now16, heard) == c,
        c.incoming(p, src, now16).payload == Some(p.payload),
        c.incoming(p, src, now16).rtt is None,
        !c.incoming(p, src, now16).attached,
{
}

/// A client that was heard is kept for forty seconds, and after that, if nothing
/// came, is forgotten. One that was heard at time 0 is kept for ever.
pub proof fn law_client_is_kept_for_forty_seconds(
    c: ConnState,
    p: PacketView,
    src: RemoteAddr,
    saved_at: u64,
    heard16: u16,
    heard: u64,
    key: Seq<u8>,
    payload: Seq<u8>,
    now: u64,
    now16: u16,
)
    requires
        c.expected_receiver_seq <= p.seq < u64::MAX,
        heard <= now,
    ensures
        ({
            let d = c.after_packet(p, src, saved_at, heard16, heard);
            let out = d.outgoing(key, payload, now, now16);
            &&& now - heard <= 40000 || heard == 0 ==> {
                &&& out is Refused || (out matches network::OutgoingView::Datagram { to, .. }
                    && to == src)
                &&& d.after_send(payload, now).remote_addr == Some(src)
            }
            &&& now - heard > 40000 && heard != 0 ==> {
                &&& out is Detached
                &&& d.after_send(payload, now).remote_addr is None
            }
        }),
{
}

/// A timestamp of the client is answered, with the time added that it was held
/// for, by the next packet within a second; after that it is not answered.
pub proof fn law_next_packet_answers(
    c: ConnState,
    p: PacketView,
    src: RemoteAddr,
    saved_at: u64,
    heard16: u16,
    heard: u64,
    payload: Seq<u8>,
    now: u64,
    now16: u16,
)
    requires
        c.expected_receiver_seq <= p.seq < u64::MAX,
        p.timestamp != 0xffff,
        saved_at <= now,
    ensures
        ({
            let d = c.after_packet(p, src, saved_at, heard16, heard);
            let q = d.packet(payload, now, now16);
            &&& now - saved_at < 1000 ==> q.timestamp_reply == (p.timestamp + (now - saved_at))
                % 0x1_0000
            &&& now - saved_at >= 1000 ==> q.timestamp_reply == 0xffff
            &&& q.timestamp == now16
            &&& q.payload == payload
            &&& q.direction == c.direction
            &&& c.seq_counter < u64::MAX ==> q.seq == c.seq_counter + 1
        }),
{
}

/// Handing over a payload changes neither what is expected of the client nor the
/// round trips, and a client that is not forgotten stays where it is.
pub proof fn law_sending_leaves_the_rest(c: ConnState, payload: Seq<u8>, now: u64)
    ensures
        ({
            let d = c.after_send(payload, now);
            &&& d.expected_receiver_seq == c.expected_receiver_seq
            &&& d.last_heard == c.last_heard
            &&& d.rtt_hit == c.rtt_hit
            &&& d.direction == c.direction
            &&& d.mtu == c.mtu
            &&& d.remote_addr == c.remote_addr || d.remote_addr is None
            &&& d.saved_timestamp == c.saved_timestamp || d.saved_timestamp == 0xffff
            &&& c.saved_timestamp == 0xffff || now >= c.saved_timestamp_received_at + 1000
                ==> d.saved_timestamp == c.saved_timestamp && d.saved_timestamp_received_at
                == c.saved_timestamp_received_at
            &&& d.saved_timestamp != c.saved_timestamp ==> d.saved_timestamp_received_at == 0
        }),
{
}

/// The timeout for an estimate is the nearest one between a twentieth of a second and
/// a second, and the interval between two sends the nearest one between that and a
/// quarter of a second.
pub proof fn law_timeouts_are_bounded(estimate: u64, other: u64)
    ensures
        ({
            let rto = network::timeout_for(estimate);
            &&& 50 <= rto <= 1000
            &&& 50 <= estimate <= 1000 ==> rto == estimate
            &&& 50 <= other < rto ==> rto <= estimate
            &&& rto < other <= 1000 ==> rto >= estimate
        }),
        ({
            let interval = transport::interval_for(estimate);
            &&& 50 <= interval <= 250
            &&& 50 <= estimate <= 250 ==> interval == estimate
            &&& 50 <= other < interval ==> interval <= estimate
            &&& interval < other <= 250 ==> interval >= estimate
        }),
{
}

/// A client that is there is taken to be gone when the clock has gone back behind the
/// time at which it was heard, unless by nearly a whole turn; and then no timestamp
/// of that time is answered.
pub proof fn law_clock_goes_back(
    c: ConnState,
    key: Seq<u8>,
    payload: Seq<u8>,
    now: u64,
    now16: u16,
)
    requires
        c.remote_addr is Some,
    ensures
        now < c.last_heard && c.last_heard - now < 0x1_0000_0000_0000_0000 - 40000 ==> c.outgoing(
            key,
            payload,
            now,
            now16,
        ) is Detached,
        now < c.saved_timestamp_received_at && c.saved_timestamp_received_at - now
            <= 0x1_0000_0000_0000_0000 - 1000 ==> c.packet(payload, now, now16).timestamp_reply
            == 0xffff,
{
}

/// A new connection has no client and sends nothing; its client is whoever sends the
/// first genuine packet, and the first packet to it is number 1, answers no timestamp
/// that did not come, and has room for what a datagram of 1280 bytes can carry.
pub proof fn law_new_connection(
    key: Seq<u8>,
    p: PacketView,
    src: RemoteAddr,
    saved_at: u64,
    heard16: u16,
    heard: u64,
    payload: Seq<u8>,
    now: u64,
    now16: u16,
)
    requires
        p.seq < u64::MAX,
    ensures
        ({
            let c = ConnState::server();
            let d = c.after_packet(p, src, saved_at, heard16, heard);
            let q = d.packet(payload, now, now16);
            &&& c.outgoing(key, payload, now, now16) is NoClient
            &&& c.after_send(payload, now) == c
            &&& d.remote_addr == Some(src)
            &&& d.blocks == 0 && d.mtu == 1280 - 28
            &&& c.incoming(p, src, heard16).attached
            &&& !(c.incoming(p, src, heard16).rtt matches Some(network::RttSample::Later(_)))
            &&& q.seq == 1 && q.direction == network::Direction::ToClient
            &&& p.timestamp == 0xffff ==> q.timestamp_reply == 0xffff
        }),
{
}

/// A new transport has been sent nothing and has nothing to send: its first
/// instruction leads from state 0 to state 1 and acknowledges state 0, and the first
/// instruction of the client that adds something is taken in.
pub proof fn law_new_transport(
    conn: ConnState,
    start: u64,
    due: Due,
    chaff: Seq<u8>,
    id: u64,
    inst: messages::InstructionView,
)
    requires
        due == Due::Diff || due == Due::Ack,
    ensures
        ({
            let t = TransportState::initial(conn, start);
            &&& t.instruction(due, chaff).old_num == Some(0u64)
            &&& t.instruction(due, chaff).new_num == Some(1u64)
            &&& t.instruction(due, chaff).ack_num == Some(0u64)
            &&& t.taken_up(due).fragmenter.next_id == 1
            &&& t.assembly.ready_for(id)
            &&& t.input_history.len() == 0 && t.echo_ack == 0
            &&& !t.shutdown_in_progress && t.shutdown_tries == 0
            &&& !t.shutdown_acknowledged() && !t.counterparty_shutdown_ack_sent()
            &&& t.conn == conn
            &&& inst.protocol_version == Some(2u32) && inst.old_num == Some(0u64) && (
            inst.new_num matches Some(num) && 0 < num < u64::MAX) && (inst.diff matches Some(diff)
                && diff.len() > 0) ==> t.delivered(inst) == inst.diff
        }),
{
}

/// Every instruction is of version 2, starts from the state at which the client is
/// assumed to be, lets nothing be forgotten, hides its length, and has a difference
/// only where something is pending. The identifier of its fragments is told by the
/// two states.
pub proof fn law_what_an_instruction_says(t: TransportState, due: Due, chaff: Seq<u8>)
    requires
        due == Due::Diff || due == Due::Ack,
    ensures
        ({
            let inst = t.instruction(due, chaff);
            let f = t.taken_up(due).fragmenter;
            &&& inst.protocol_version == Some(2u32)
            &&& inst.old_num == Some(t.assumed_receiver_num)
            &&& inst.throwaway_num == Some(0u64)
            &&& inst.chaff == Some(chaff)
            &&& inst.diff is Some <==> due == Due::Diff
            &&& inst.old_num == Some(f.last_old_num) && inst.new_num == Some(f.last_new_num)
            &&& inst.old_num == Some(t.fragmenter.last_old_num) && inst.new_num == Some(
                t.fragmenter.last_new_num,
            ) <==> f.next_id == t.fragmenter.next_id
            &&& t.fragmenter.next_id < u64::MAX ==> f.next_id == t.fragmenter.next_id || f.next_id
                == t.fragmenter.next_id + 1
        }),
{
}

/// Two instructions one after the other have the same identifier exactly when they
/// lead from the same state to the same state.
pub proof fn law_identifiers_tell_instructions_apart(
    f: FragmenterView,
    old_num: u64,
    new_num: u64,
    next_old: u64,
    next_new: u64,
)
    ensures
        ({
            let g = f.after(old_num, new_num);
            let h = g.after(next_old, next_new);
            &&& h.next_id == g.next_id <==> next_old == old_num && next_new == new_num
            &&& g.next_id < u64::MAX ==> h.next_id == g.next_id || h.next_id == g.next_id + 1
        }),
{
}

/// A number that an instruction of the client does not give counts as 0.
pub proof fn law_missing_numbers_are_zero(
    t: TransportState,
    inst: messages::InstructionView,
    now: u64,
)
    ensures
        ({
            let given = messages::InstructionView {
                old_num: match inst.old_num {
                    Some(n) => Some(n),
                    None => Some(0),
                },
                new_num: match inst.new_num {
                    Some(n) => Some(n),
                    None => Some(0),
                },
                ack_num: match inst.ack_num {
                    Some(n) => Some(n),
                    None => Some(0),
                },
                ..inst
            };
            &&& t.after_instruction(given, now) == t.after_instruction(inst, now)
            &&& t.delivered(given) == t.delivered(inst)
        }),
{
}

/// Nothing is due before the wait is over.
pub proof fn law_nothing_is_due_while_waiting(t: TransportState, now: u64, passed: u64)
    requires
        t.conn.remote_addr is Some,
        passed < t.wait_time(now),
        now + passed <= u64::MAX,
    ensures
        t.due((now + passed) as u64) == Due::Nothing,
{
}

/// A tick in which a packet is refused leaves the deadlines, and the state at which
/// the client is assumed to be.
pub proof fn law_refused_tick(
    t: TransportState,
    key: Seq<u8>,
    now: u64,
    chaff: Seq<u8>,
    interval: u64,
    clock: Seq<(u64, u16)>,
)
    requires
        t.due(now) == Due::Diff || t.due(now) == Due::Ack,
        t.tick_outgoing(key, now, chaff, clock).last() is Refused,
    ensures
        ({
            let after = t.after_tick(key, now, chaff, interval, clock);
            &&& after.next_ack_time == t.next_ack_time
            &&& after.next_send_time == t.next_send_time
            &&& after.assumed_receiver_num == t.assumed_receiver_num
        }),
{
}

/// A tick at which nothing is due changes nothing, and one that has nothing to send
/// changes nothing but, while the transport ends, when the next one is due.
pub proof fn law_idle_tick(
    t: TransportState,
    key: Seq<u8>,
    now: u64,
    chaff: Seq<u8>,
    interval: u64,
    clock: Seq<(u64, u16)>,
)
    requires
        t.due(now) == Due::Nothing || t.due(now) == Due::Quiet,
    ensures
        ({
            let after = t.after_tick(key, now, chaff, interval, clock);
            &&& t.tick_payloads(now, chaff).len() == 0
            &&& t.due(now) == Due::Nothing || !t.shutdown_in_progress ==> after == t
            &&& (TransportState { next_ack_time: t.next_ack_time, ..after }) == t
            &&& t.due(now) == Due::Quiet && t.shutdown_in_progress && now + interval <= u64::MAX
                ==> after.next_ack_time <= now + interval && after.next_ack_time
                <= t.next_ack_time
        }),
{
}

/// While the transport ends, a tick that sent all it had is followed by another one
/// after just the interval for the estimated round trip.
pub proof fn law_end_is_announced_again(
    t: TransportState,
    key: Seq<u8>,
    now: u64,
    chaff: Seq<u8>,
    estimate: u64,
    clock: Seq<(u64, u16)>,
)
    requires
        t.due(now) == Due::Diff || t.due(now) == Due::Ack,
        !(t.tick_outgoing(key, now, chaff, clock).last() is Refused),
        t.shutdown_in_progress,
        now + 3000 <= u64::MAX,
    ensures
        t.after_tick(
            key,
            now,
            chaff,
            transport::interval_for(estimate),
            clock,
        ).next_ack_time == now + transport::interval_for(estimate),
{
}

/// Payloads that all go out go to the one client, in order, each in a packet of its
/// own with the next number and the time of its own reading of the clock.
pub proof fn law_packets_go_out_in_order(
    conn: ConnState,
    key: Seq<u8>,
    payloads: Seq<Seq<u8>>,
    clock: Seq<(u64, u16)>,
)
    requires
        clock.len() == payloads.len(),
        conn.seq_counter + payloads.len() < u64::MAX,
        forall|i: int|
            0 <= i < transport::handed_over(conn, key, payloads, clock).1.len() ==> (
            #[trigger] transport::handed_over(conn, key, payloads, clock).1[i]) is Datagram,
    ensures
        ({
            let (after, sent) = transport::handed_over(conn, key, payloads, clock);
            &&& sent.len() == payloads.len()
            &&& after.seq_counter == conn.seq_counter + payloads.len()
            &&& after.remote_addr == conn.remote_addr && after.direction == conn.direction
            &&& forall|i: int|
                0 <= i < sent.len() ==> goes_out(
                    conn,
                    key,
                    payloads[i],
                    clock[i].1,
                    (conn.seq_counter + 1 + i) as u64,
                    #[trigger] sent[i],
                )
        }),
    decreases payloads.len(),
{
    if payloads.len() > 0 {
        let (c, outs) = transport::handed_over(
            conn,
            key,
            payloads.drop_last(),
            clock.drop_last(),
        );
        let (after, sent) = transport::handed_over(conn, key, payloads, clock);
        transport::lemma_no_more_than_handed(
            conn,
            key,
            payloads.drop_last(),
            clock.drop_last(),
        );
        if outs.len() > 0 && outs.last() is Refused {
            assert(sent[sent.len() - 1] is Datagram);
        }
        let (now, now16) = clock.last();
        let out = c.outgoing(key, payloads.last(), now, now16);
        assert(sent == outs.push(out));
        assert forall|i: int| 0 <= i < outs.len() implies (#[trigger] outs[i]) is Datagram by {
            assert(sent[i] == outs[i]);
        }
        law_packets_go_out_in_order(conn, key, payloads.drop_last(), clock.drop_last());
        assert(sent[sent.len() - 1] is Datagram);
        lemma_goes_out(conn, c, key, payloads.last(), now, now16);
        assert forall|i: int| 0 <= i < sent.len() implies goes_out(
            conn,
            key,
            payloads[i],
            clock[i].1,
            (conn.seq_counter + 1 + i) as u64,
            #[trigger] sent[i],
        ) by {
            if i < outs.len() {
                assert(sent[i] == outs[i]);
                assert(payloads.drop_last()[i] == payloads[i]);
                assert(clock.drop_last()[i] == clock[i]);
            }
        }
    }
}

proof fn lemma_goes_out(
    conn: ConnState,
    c: ConnState,
    key: Seq<u8>,
    payload: Seq<u8>,
    now: u64,
    now16: u16,
)
    requires
        c.outgoing(key, payload, now, now16) is Datagram,
        c.remote_addr == conn.remote_addr,
        c.direction == conn.direction,
        c.seq_counter < u64::MAX,
    ensures
        goes_out(
            conn,
            key,
            payload,
            now16,
            (c.seq_counter + 1) as u64,
            c.outgoing(key, payload, now, now16),
        ),
        c.after_send(payload, now).seq_counter == c.seq_counter + 1,
        c.after_send(payload, now).remote_addr == c.remote_addr,
        c.after_send(payload, now).direction == c.direction,
{
    reveal(goes_out);
    let p = c.packet(payload, now, now16);
    assert(is_packet_of(p, conn, payload, now16, (c.seq_counter + 1) as u64));
}

/// Whether a packet has these contents and goes the way of a connection.
pub open spec fn is_packet_of(
    p: PacketView,
    conn: ConnState,
    payload: Seq<u8>,
    now16: u16,
    seq: u64,
) -> bool {
    p.seq == seq && p.direction == conn.direction && p.timestamp == now16 && p.payload == payload
}

/// Whether what is to be sent is a packet with these contents, to the client of a
/// connection.
#[verifier::opaque]
pub open spec fn goes_out(
    conn: ConnState,
    key: Seq<u8>,
    payload: Seq<u8>,
    now16: u16,
    seq: u64,
    out: network::OutgoingView,
) -> bool {
    exists|p: PacketView|
        #[trigger] is_packet_of(p, conn, payload, now16, seq) && (out matches
            network::OutgoingView::Datagram { to, bytes } && Some(to) == conn.remote_addr && bytes
            == crypto::datagram(key, p.nonce(), p.text()))
}

/// A payload that completes an instruction leaves nothing gathered, so that the next
/// one starts anew whatever its identifier.
pub proof fn law_assembly_is_emptied(t: TransportState, payload: Seq<u8>, now: u64, id: u64)
    requires
        t.completed_by(payload) is Some,
    ensures
        t.after_payload(payload, now).assembly.ready_for(id),
{
}

/// Fragments that are counted as all there but leave a hole stay gathered, and those
/// without one that hold no instruction are dropped; neither delivers anything, and
/// nothing else changes.
pub proof fn law_bad_assemblies(t: TransportState, payload: Seq<u8>, now: u64, i: int)
    ensures
        ({
            let a = t.assembly_with(payload);
            let after = t.after_payload(payload, now);
            &&& a.complete() && 0 <= i < a.slots.len() && a.slots[i] is None ==> {
                &&& t.payload_delivers(payload) is None
                &&& after == TransportState { assembly: a, ..t }
            }
            &&& payload.len() >= 10 && a.complete() && a.without_holes() && a.instruction()
                is None ==> {
                &&& t.payload_delivers(payload) is None
                &&& after == TransportState { assembly: after.assembly, ..t }
                &&& after.assembly.slots.len() == 0 && after.assembly.arrived == 0
                &&& after.assembly.total is None && after.assembly.id == a.id
            }
            &&& payload.len() < 10 ==> t.payload_delivers(payload) is None && after == t
        }),
{
}

/// An instruction that tells both of keys and of a size tells of the keys first; a
/// side of the size that is not given is 0; and one that tells of neither tells
/// nothing.
pub proof fn law_keys_come_before_the_size(
    keys: Seq<u8>,
    size: messages::ResizeMessage,
    w: i32,
    h: i32,
)
    requires
        size.width == Some(w) || (size.width is None && w == 0),
        size.height == Some(h) || (size.height is None && h == 0),
    ensures
        transport::actions_of(
            seq![
                (crate::user_message::UserInstructionView {
                    keystroke: Some(crate::user_message::KeystrokeView { keys: Some(keys) }),
                    resize: Some(size),
                }),
            ],
        ) == seq![
            transport::UserActionView::Keystroke(keys),
            transport::UserActionView::Resize(w, h),
        ],
        transport::actions_of(
            seq![
                (crate::user_message::UserInstructionView {
                    keystroke: Some(crate::user_message::KeystrokeView { keys: None }),
                    resize: None,
                }),
            ],
        ) == Seq::<transport::UserActionView>::empty(),
        transport::actions_of(
            seq![(crate::user_message::UserInstructionView { keystroke: None, resize: None })],
        ) == Seq::<transport::UserActionView>::empty(),
{
    let both = crate::user_message::UserInstructionView {
        keystroke: Some(crate::user_message::KeystrokeView { keys: Some(keys) }),
        resize: Some(size),
    };
    let no_keys = crate::user_message::UserInstructionView {
        keystroke: Some(crate::user_message::KeystrokeView { keys: None }),
        resize: None,
    };
    let neither = crate::user_message::UserInstructionView { keystroke: None, resize: None };
    reveal_with_fuel(transport::actions_of, 2);
    assert(seq![both].drop_last() =~= Seq::empty());
    assert(seq![no_keys].drop_last() =~= Seq::empty());
    assert(seq![neither].drop_last() =~= Seq::empty());
    assert(transport::actions_of(seq![both]) =~= seq![
        transport::UserActionView::Keystroke(keys),
        transport::UserActionView::Resize(w, h),
    ]);
    assert(transport::actions_of(seq![no_keys]) =~= Seq::empty());
    assert(transport::actions_of(seq![neither]) =~= Seq::empty());
}

/// The client is told of the echo first, then of the size, so that output comes to a
/// terminal of the right size: it is told that last.
pub proof fn law_order_of_what_is_told(
    data: Seq<u8>,
    echo_ack: Option<u64>,
    resize: Option<(i32, i32)>,
    i: int,
    j: int,
)
    ensures
        ({
            let told = transport::host_diff(data, echo_ack, resize).instruction;
            0 <= i < j < told.len() ==> {
                &&& told[i].hostbytes is None
                &&& told[j].echoack is None
                &&& told[i].echoack is Some || told[j].hostbytes is Some
            }
        }),
{
}

/// The 16-bit time advances with the clock, but for one millisecond in each turn
/// that is taken for the next.
pub proof fn law_short_time_advances(now: u64, later: u64)
    requires
        now <= later < now + 0xffff,
    ensures
        ({
            let d = (network::ts16(later) - network::ts16(now)) % 0x1_0000;
            let skipped = now % 0x1_0000 == 0xffff || later % 0x1_0000 == 0xffff;
            &&& !skipped ==> d == later - now
            &&& skipped ==> -1 <= d - (later - now) <= 1
        }),
{
}

/// Two ports with a colon between them, in decimal, are the range from the one to
/// the other; one port is the range of just that.
pub proof fn law_ports_in_decimal(low: u16, high: u16)
    ensures
        ports::port_range(text::decimal(low as nat) + seq![':'] + text::decimal(high as nat))
            == Some(PortRange { low, high }),
        ports::port_range(text::decimal(low as nat)) == Some(PortRange { low, high: low }),
{
    text::law_decimal_reads_back(low as nat);
    text::law_decimal_reads_back(high as nat);
    lemma_colon(text::decimal(low as nat), text::decimal(high as nat));
    lemma_no_colon(text::decimal(low as nat));
}

/// Ports of more than 16 bits are refused, alone and with another one, and so is a
/// text that holds anything but digits, a sign before them and a colon.
pub proof fn law_bad_ports_are_refused(n: nat, port: u16, s: Seq<char>, i: int)
    ensures
        n > u16::MAX ==> ports::port_range(text::decimal(n)) is None,
        n > u16::MAX ==> ports::port_range(
            text::decimal(port as nat) + seq![':'] + text::decimal(n),
        ) is None,
        n > u16::MAX ==> ports::port_range(
            text::decimal(n) + seq![':'] + text::decimal(port as nat),
        ) is None,
        0 <= i < s.len() && !text::is_digit(s[i]) && s[i] != '+' && s[i] != ':'
            ==> ports::port_range(s) is None,
        s.len() == 0 ==> ports::port_range(s) is None,
{
    text::law_decimal_reads_back(n);
    text::law_decimal_reads_back(port as nat);
    lemma_colon(text::decimal(n), text::decimal(port as nat));
    lemma_colon(text::decimal(port as nat), text::decimal(n));
    lemma_no_colon(text::decimal(n));
    if 0 <= i < s.len() && !text::is_digit(s[i]) && s[i] != '+' && s[i] != ':' {
        if s.contains(':') {
            s.index_of_first_ensures(':');
            let k = s.index_of_first(':')->0;
            let a = s.take(k);
            let b = s.skip(k + 1);
            if i < k {
                assert(a[i] == s[i]);
                text::law_what_is_no_number(a, i);
            } else {
                assert(b[i - k - 1] == s[i]);
                text::law_what_is_no_number(b, i - k - 1);
            }
        } else {
            text::law_what_is_no_number(s, i);
        }
    }
}

proof fn lemma_no_colon(a: Seq<char>)
    requires
        text::digits(a) is Some,
    ensures
        !a.contains(':'),
{
    assert forall|i: int| 0 <= i < a.len() implies a[i] != ':' by {
        assert(text::is_digit(a[i]));
    }
}

proof fn lemma_colon(a: Seq<char>, b: Seq<char>)
    requires
        text::digits(a) is Some,
    ensures
        ({
            let s = a + seq![':'] + b;
            &&& s.contains(':')
            &&& s.take(s.index_of_first(':')->0) == a
            &&& s.skip(s.index_of_first(':')->0 + 1) == b
        }),
{
    let s = a + seq![':'] + b;
    assert forall|i: int| 0 <= i < a.len() implies s[i] != ':' by {
        assert(text::is_digit(a[i]));
    }
    assert(s[a.len() as int] == ':');
    assert(s.contains(':'));
    s.index_of_first_ensures(':');
    let i = s.index_of_first(':')->0;
    assert(i == a.len());
    assert(s.take(i) =~= a);
    assert(s.skip(i + 1) =~= b);
}

/// Where no port is asked for, those from 60001 to 60999 are tried.
pub proof fn law_usual_ports(port: u16)
    ensures
        network::planned_ports(None) matches Some(range) && (range.ports().contains(port) <==> 60001
            <= port <= 60999),
{
    law_ports_of_a_range(PortRange { low: 60001, high: 60999 }, port);
}

/// The ports of a range are those between its ends, each once, in order.
pub proof fn law_ports_of_a_range(range: PortRange, port: u16)
    ensures
        range.ports().contains(port) <==> range.low <= port <= range.high,
        forall|i: int, j: int|
            0 <= i < j < range.ports().len() ==> range.ports()[i] < range.ports()[j],
{
    if range.low <= port <= range.high {
        assert(range.ports()[port - range.low] == port);
    }
}

/// A fragment of another instruction starts the assembly anew, with just that
/// fragment in it.
pub proof fn law_other_instruction_starts_anew(a: AssemblyView, f: FragmentView)
    requires
        f.id != a.id,
    ensures
        ({
            let g = a.with_fragment(f);
            &&& g.id == f.id
            &&& g.arrived == 1
            &&& g.slots.len() == f.fragment_num + 1
            &&& g.slots[f.fragment_num as int] == Some(f.contents)
            &&& forall|i: int| 0 <= i < f.fragment_num ==> (#[trigger] g.slots[i]) is None
            &&& g.total == if f.is_final {
                Some((f.fragment_num + 1) as usize)
            } else {
                None
            }
        }),
{
}

/// What came first stays: a fragment with the number of one that is there changes
/// neither contents nor count, and no fragment changes the contents of another.
pub proof fn law_first_fragment_stays(a: AssemblyView, f: FragmentView)
    requires
        f.id == a.id,
    ensures
        ({
            let g = a.with_fragment(f);
            let n = f.fragment_num as int;
            &&& g.id == a.id
            &&& g.slots.len() > n
            &&& n < a.slots.len() && a.slots[n] is Some ==> g.slots[n] == a.slots[n] && g.arrived
                == a.arrived
            &&& n >= a.slots.len() || a.slots[n] is None ==> g.slots[n] == Some(f.contents) && (
            a.arrived < usize::MAX ==> g.arrived == a.arrived + 1)
            &&& forall|i: int|
                0 <= i < g.slots.len() && i != n ==> #[trigger] g.slots[i] == if i
                    < a.slots.len() {
                    a.slots[i]
                } else {
                    None
                }
            &&& !f.is_final ==> g.total == a.total && g.slots.len() >= a.slots.len()
            &&& f.is_final ==> g.total == Some((n + 1) as usize) && g.slots.len() == n + 1
        }),
{
}

/// A transport over a connection with a client is idle at first, and sends its
/// first sign of life after three seconds.
pub proof fn law_first_sign_of_life(conn: network::ConnState, start: u64, now: u64)
    requires
        conn.remote_addr is Some,
        start + 3000 <= u64::MAX,
        start <= now,
    ensures
        now < start + 3000 ==> TransportState::initial(conn, start).due(now) == Due::Nothing,
        start + 3000 <= now < u64::MAX ==> TransportState::initial(conn, start).due(now)
            == Due::Ack,
        !TransportState::initial(conn, start).has_pending_data(),
{
}

/// Output of the terminal is queued behind what is queued already, and is due
/// within a fiftieth of a second; nothing else changes.
pub proof fn law_output_is_queued(t: TransportState, data: Seq<u8>, now: u64)
    requires
        t.conn.remote_addr is Some,
        now + 20 <= u64::MAX,
    ensures
        ({
            let u = t.with_output(data, now);
            &&& u.pending_output == t.pending_output + data
            &&& u.next_send_time <= now + 20
            &&& u.wait_time(now) <= 20
            &&& data.len() > 0 ==> u.due((now + 20) as u64) == Due::Diff
            &&& TransportState {
                pending_output: t.pending_output,
                next_send_time: t.next_send_time,
                ..u
            } == t
        }),
{
}

/// The client is to be told the last echo acknowledgment and the last size that
/// came, within a fiftieth of a second; nothing else changes.
pub proof fn law_last_of_each_is_told(
    t: TransportState,
    ack: u64,
    w: i32,
    h: i32,
    now: u64,
)
    requires
        t.conn.remote_addr is Some,
        now + 20 <= u64::MAX,
    ensures
        ({
            let u = t.with_pending_echo_ack(ack, now);
            let v = t.with_pending_resize(w, h, now);
            &&& u.pending_echo_ack == Some(ack)
            &&& v.pending_resize == Some((w, h))
            &&& u.due((now + 20) as u64) == Due::Diff && v.due((now + 20) as u64) == Due::Diff
            &&& u.wait_time(now) <= 20 && v.wait_time(now) <= 20
            &&& TransportState {
                pending_echo_ack: t.pending_echo_ack,
                next_send_time: t.next_send_time,
                ..u
            } == t
            &&& TransportState {
                pending_resize: t.pending_resize,
                next_send_time: t.next_send_time,
                ..v
            } == t
        }),
{
}

/// At a time when something is due, what is pending is sent, if anything is; if
/// not, an acknowledgment is sent if it is time for one.
pub proof fn law_what_is_due(t: TransportState, now: u64)
    requires
        t.conn.remote_addr is Some,
    ensures
        t.due(now) == Due::Diff <==> (now >= t.next_ack_time || now >= t.next_send_time) && (
        t.pending_output.len() > 0 || t.pending_echo_ack is Some || t.pending_resize is Some),
        t.due(now) == Due::Ack <==> now >= t.next_ack_time && t.pending_output.len() == 0
            && t.pending_echo_ack is None && t.pending_resize is None,
        t.due(now) == Due::Nothing <==> now < t.next_ack_time && now < t.next_send_time,
{
}

/// Taking up what is due changes neither what is known of the client's input nor
/// whether the transport ends.
pub proof fn law_taking_up_leaves_the_input(t: TransportState, due: Due)
    ensures
        ({
            let u = t.taken_up(due);
            &&& u.received_state_num == t.received_state_num
            &&& u.ack_num == t.ack_num
            &&& u.input_history == t.input_history
            &&& u.echo_ack == t.echo_ack
            &&& u.assembly == t.assembly
            &&& u.conn == t.conn
            &&& u.shutdown_in_progress == t.shutdown_in_progress
            &&& u.assumed_receiver_num == t.assumed_receiver_num
            &&& u.next_ack_time == t.next_ack_time
            &&& u.next_send_time == t.next_send_time
        }),
{
}

/// After a tick that sent all it had and that is not the end, the next sign of
/// life is due three seconds later and not before, unless something to send
/// comes, or came with a deadline of its own.
pub proof fn law_next_sign_of_life(
    t: TransportState,
    key: Seq<u8>,
    now: u64,
    chaff: Seq<u8>,
    interval: u64,
    clock: Seq<(u64, u16)>,
    later: u64,
)
    requires
        t.due(now) == Due::Diff || t.due(now) == Due::Ack,
        !(t.tick_outgoing(key, now, chaff, clock).last() is Refused),
        t.after_tick(key, now, chaff, interval, clock).conn.remote_addr is Some,
        !t.shutdown_in_progress,
        now <= later < u64::MAX,
        now + 3000 <= u64::MAX,
    ensures
        ({
            let after = t.after_tick(key, now, chaff, interval, clock);
            &&& later >= now + 3000 ==> after.due(later) != Due::Nothing
            &&& later < now + 3000 && t.due(now) == Due::Diff ==> after.due(later) == Due::Nothing
            &&& later < now + 3000 && t.due(now) == Due::Ack && later < t.next_send_time
                ==> after.due(later) == Due::Nothing
        }),
{
}

/// What the client acknowledged is the greatest number that it ever did, and input
/// never puts off what is due.
pub proof fn law_instruction_is_taken_note_of(
    t: TransportState,
    inst: messages::InstructionView,
    now: u64,
    later: u64,
)
    requires
        inst.protocol_version == Some(2u32),
        now + 100 <= u64::MAX,
        now <= later,
    ensures
        ({
            let u = t.after_instruction(inst, now);
            let acked: u64 = match inst.ack_num {
                Some(n) => n,
                None => 0,
            };
            &&& u.ack_num >= acked && u.ack_num >= t.ack_num
            &&& u.ack_num == acked || u.ack_num == t.ack_num
            &&& t.due(later) != Due::Nothing ==> u.due(later) != Due::Nothing
            &&& inst.new_num != Some(u64::MAX) ==> u.next_ack_time == t.next_ack_time
                || u.next_ack_time == now + 100
            &&& inst.new_num == Some(u64::MAX) ==> u.received_state_num == u64::MAX
            &&& inst.new_num == Some(u64::MAX) && t.conn.remote_addr is Some ==> u.due(now)
                != Due::Nothing
            &&& TransportState {
                ack_num: t.ack_num,
                received_state_num: t.received_state_num,
                next_ack_time: t.next_ack_time,
                ..u
            } == t
        }),
{
}

/// An instruction delivers its difference exactly when it is of this version,
/// adds something, does not end the session, leads to a newer state, and starts
/// from the state that is known or from the first one. What is known is then that
/// newer state.
pub proof fn law_when_input_is_delivered(
    t: TransportState,
    inst: messages::InstructionView,
    old_num: u64,
    new_num: u64,
    diff: Seq<u8>,
    now: u64,
)
    requires
        inst.protocol_version == Some(2u32),
        inst.old_num == Some(old_num),
        inst.new_num == Some(new_num),
        inst.diff == Some(diff),
        new_num < u64::MAX,
    ensures
        t.delivered(inst) == Some(diff) <==> diff.len() > 0 && new_num > t.received_state_num && (
        old_num == t.received_state_num || old_num == 0),
        new_num > t.received_state_num && (old_num == t.received_state_num || old_num == 0)
            ==> t.after_instruction(inst, now).received_state_num == new_num,
        !(new_num > t.received_state_num && (old_num == t.received_state_num || old_num == 0))
            ==> t.after_instruction(inst, now).received_state_num == t.received_state_num
            && t.delivered(inst) is None,
        diff.len() == 0 ==> t.delivered(inst) is None,
{
}

/// A genuine packet to the server has its payload taken in, in order or not; any
/// other datagram leaves the transport as it is.
pub proof fn law_genuine_payloads_are_taken_in(
    t: TransportState,
    key: Seq<u8>,
    data: Seq<u8>,
    p: PacketView,
    src: RemoteAddr,
    saved_at: u64,
    now16: u16,
    heard: u64,
    now: u64,
)
    requires
        p.seq < 0x8000_0000_0000_0000,
    ensures
        crypto::opened(key, data) == Some((p.nonce(), p.text())) && p.direction
            == network::Direction::ToServer ==> {
            let u = t.after_datagram(key, data, src, saved_at, now16, heard, now);
            &&& t.datagram_delivers(key, data) == t.payload_delivers(p.payload)
            &&& u.conn == t.conn.after_packet(p, src, saved_at, now16, heard)
            &&& u == (TransportState { conn: u.conn, ..t.after_payload(p.payload, now) })
        },
        crypto::opened(key, data) is None || (crypto::opened(key, data) == Some(
            (p.nonce(), p.text()),
        ) && p.direction == network::Direction::ToClient) ==> t.datagram_delivers(key, data)
            is None && t.after_datagram(key, data, src, saved_at, now16, heard, now) == t,
{
    network::law_datagram_is_accepted_as_sent(t.conn, key, data, p);
}

/// The server sleeps until something is due, and five seconds at most.
pub proof fn law_server_wakes_in_time(s: ServerState, now: u64)
    ensures
        s.poll_plan(now).timeout <= 5000,
        s.poll_plan(now).timeout <= s.transport.wait_time(now),
        s.poll_plan(now).timeout == 5000 || s.poll_plan(now).timeout == s.transport.wait_time(now),
{
}

/// What is read from the terminal is queued behind what was read before, to be
/// sent within a fiftieth of a second, and the server does not end for it.
pub proof fn law_terminal_output_is_queued(s: ServerState, data: Seq<u8>, now: u64)
    requires
        data.len() > 0,
        now + 20 <= u64::MAX,
    ensures
        ({
            let after = s.on_host_read(Some(data), now);
            &&& after.transport.pending_output == s.transport.pending_output + data
            &&& after.transport.next_send_time <= now + 20
            &&& s.transport.conn.remote_addr is Some ==> after.transport.due((now + 20) as u64)
                == Due::Diff
            &&& after.transport.shutdown_in_progress == s.transport.shutdown_in_progress
            &&& after.transport.pending_echo_ack == s.transport.pending_echo_ack
            &&& after.transport.pending_resize == s.transport.pending_resize
        }),
{
}

/// Whether input that came at `at` has had fifty milliseconds to show at `now`.
/// Input of time 0 has had time always.
pub open spec fn has_shown(at: u64, now: u64) -> bool {
    at == 0 || at + 50 <= now
}

/// When the server is done with input, what is acknowledged as echoed is the
/// newest input that has had time to show at the start of the round; if that is
/// news, and there is any, the client is to be told just that number within a
/// fiftieth of a second, and if not, what it is to be told stays.
pub proof fn law_client_is_told_the_newest_echo(s: ServerState, told_at: u64)
    requires
        told_at + 20 <= u64::MAX,
    ensures
        ({
            let before = s.transport;
            let after = s.done_with_input(told_at).transport;
            let now = s.round.now;
            &&& forall|i: int|
                0 <= i < before.input_history.len() && has_shown(
                    (#[trigger] before.input_history[i]).1,
                    now,
                ) ==> before.input_history[i].0 <= after.echo_ack
            &&& after.echo_ack == 0 || exists|i: int|
                0 <= i < before.input_history.len() && has_shown(
                    (#[trigger] before.input_history[i]).1,
                    now,
                ) && before.input_history[i].0 == after.echo_ack
            &&& after.echo_ack != before.echo_ack && after.echo_ack > 0
                ==> after.pending_echo_ack == Some(after.echo_ack) && after.next_send_time
                <= told_at + 20
            &&& after.echo_ack == before.echo_ack || after.echo_ack == 0 ==> after.pending_echo_ack
                == before.pending_echo_ack && after.next_send_time == before.next_send_time
            &&& after.pending_output == before.pending_output
            &&& after.pending_resize == before.pending_resize
        }),
{
    let history = s.transport.input_history;
    let now = s.round.now;
    let cutoff = transport::shown_before(now);
    crate::synchronization::law_newest_shown(history, cutoff);
    assert forall|at: u64| #[trigger] has_shown(at, now) == (at <= cutoff) by {}
    if transport::newest_shown(history, cutoff) != 0 {
        let i = choose|i: int|
            0 <= i < history.len() && (#[trigger] history[i]).1 <= cutoff && history[i].0
                == transport::newest_shown(history, cutoff);
        assert(has_shown(history[i].1, now));
    }
}

/// That holds whatever the server was woken by or did with the client's input.
pub proof fn law_every_round_looks_at_the_echo(
    s: ServerState,
    now: u64,
    readable: bool,
    gone: bool,
    told_at: u64,
)
    ensures
        s.on_polled(now, true, readable, gone, told_at).transport == s.transport,
        s.on_polled(now, true, readable, gone, told_at).phase == Phase::Network,
        s.on_polled(now, true, readable, gone, told_at).round.now == now,
        ({
            let woken = ServerState {
                phase: s.phase,
                ..s.on_polled(now, true, readable, gone, told_at)
            };
            s.on_polled(now, false, readable, gone, told_at) == woken.done_with_input(told_at)
        }),
        s.on_written(true, told_at) == s.done_with_input(told_at),
        s.on_written(false, told_at).transport == (TransportState {
            shutdown_in_progress: true,
            ..s.done_with_input(told_at).transport
        }),
{
}

/// The terminal is read if it was watched and has something to read, even if it
/// is gone; if it has nothing and is gone, the server ends; and the program in it
/// is looked after in every round in which the server does not end, until it has
/// ended.
pub proof fn law_terminal_is_looked_after(s: ServerState, told_at: u64)
    requires
        !s.transport.shutdown_in_progress,
    ensures
        ({
            let after = s.done_with_input(told_at);
            let ends = s.round.watched && !s.round.readable && s.round.gone;
            &&& after.phase == Phase::Host <==> s.round.watched && s.round.readable
            &&& after.transport.shutdown_in_progress <==> ends
            &&& after.phase == Phase::Child <==> !(s.round.watched && s.round.readable) && !ends
                && !s.child_exited
            &&& after.phase == Phase::Host || after.phase == Phase::Child || after.phase
                == Phase::Closing
            &&& after.round == s.round && after.child_exited == s.child_exited
            &&& after.last_remote_num == s.last_remote_num && after.startup_time
                == s.startup_time
        }),
{
}

/// What was seen when the server was woken is what it acts on in the round.
pub proof fn law_round_is_as_seen(
    s: ServerState,
    now: u64,
    network: bool,
    readable: bool,
    gone: bool,
    told_at: u64,
)
    ensures
        ({
            let r = s.on_polled(now, network, readable, gone, told_at).round;
            &&& r.now == now
            &&& r.readable == readable
            &&& r.gone == gone
            &&& r.watched == !s.transport.shutdown_in_progress
        }),
{
}

/// A program that has ended is not looked after again and ends the server; one
/// that has not changes nothing.
pub proof fn law_end_of_the_program(s: ServerState, exited: bool)
    ensures
        s.on_child(exited).phase == Phase::Closing,
        exited ==> s.on_child(true).transport.shutdown_in_progress && s.on_child(
            true,
        ).child_exited,
        !exited ==> s.on_child(false).transport == s.transport && s.on_child(false).child_exited
            == s.child_exited,
        (TransportState {
            shutdown_in_progress: s.transport.shutdown_in_progress,
            ..s.on_child(exited).transport
        }) == s.transport,
{
}

/// How a server ends: at once if no client came within a minute; at once if it was
/// told to and the client knows, or was told sixteen times; with one more tick if
/// the client ended the session and was told that this is known.
pub proof fn law_how_a_server_ends(s: ServerState)
    ensures
        s.verdict() == Verdict::NoClient <==> s.transport.received_state_num == 0 && s.round.now
            >= s.startup_time + 60000,
        s.verdict() == Verdict::Ended <==> s.verdict() != Verdict::NoClient
            && s.transport.shutdown_in_progress && (s.transport.ack_num == u64::MAX
            || s.transport.shutdown_tries >= 16),
        s.verdict() == Verdict::LastTick <==> s.verdict() != Verdict::NoClient && s.verdict()
            != Verdict::Ended && s.transport.received_state_num == u64::MAX
            && s.transport.last_ack_sent_to_client == u64::MAX,
{
}

/// The last of a client's actions that gives a size, if one does.
pub open spec fn last_size(actions: Seq<transport::UserActionView>) -> Option<(i32, i32)>
    decreases actions.len(),
{
    if actions.len() == 0 {
        None
    } else {
        match actions.last() {
            transport::UserActionView::Resize(w, h) => Some((w, h)),
            _ => last_size(actions.drop_last()),
        }
    }
}

/// The sizes among actions end with the last one.
pub proof fn lemma_last_size(actions: Seq<transport::UserActionView>)
    ensures
        last_size(actions) is None <==> crate::server::sizes(actions).len() == 0,
        last_size(actions) matches Some(size) ==> crate::server::sizes(actions).last() == size,
    decreases actions.len(),
{
    if actions.len() > 0 {
        lemma_last_size(actions.drop_last());
    }
}

/// After a new difference of the input, the client is to be told the last size in
/// it, width and height as they are, and the terminal gets the same width and
/// height last, in 16 bits each. Without a size, what is to be told stays.
pub proof fn law_last_size_is_taken_over(
    s: ServerState,
    diff: Seq<u8>,
    now: u64,
    sized_at: u64,
)
    requires
        s.transport.received_state_num != s.last_remote_num,
    ensures
        ({
            let after = s.after_diff(diff, now, sized_at).transport;
            let handed_out = crate::server::terminal_sizes(
                crate::server::sizes(s.new_actions(diff)),
            );
            match last_size(transport::user_actions(diff)) {
                Some((w, h)) => {
                    &&& after.pending_resize == Some((w, h))
                    &&& handed_out.len() > 0
                    &&& handed_out.last().0 == w as int % 0x1_0000
                    &&& handed_out.last().1 == h as int % 0x1_0000
                },
                None => {
                    &&& after.pending_resize == s.transport.pending_resize
                    &&& handed_out.len() == 0
                    &&& after.next_send_time == s.transport.next_send_time
                },
            }
        }),
{
    lemma_last_size(transport::user_actions(diff));
}

/// A new difference of the input is put on record with the time at which the round
/// started, if the client did anything in it; output, echo and deadlines of other
/// kinds stay.
pub proof fn law_input_is_put_on_record(s: ServerState, diff: Seq<u8>, now: u64, sized_at: u64)
    requires
        s.transport.received_state_num != s.last_remote_num,
    ensures
        ({
            let before = s.transport;
            let after = s.after_diff(diff, now, sized_at);
            &&& after.last_remote_num == before.received_state_num
            &&& transport::user_actions(diff).len() > 0 ==> after.transport.input_history
                == before.input_history.push((before.received_state_num, now))
            &&& transport::user_actions(diff).len() == 0 ==> after.transport == before
            &&& TransportState {
                input_history: before.input_history,
                pending_resize: before.pending_resize,
                next_send_time: before.next_send_time,
                ..after.transport
            } == before
            &&& after.phase == s.phase && after.round == s.round
        }),
{
    lemma_last_size(transport::user_actions(diff));
}

/// Keys are typed as they were pressed, and nothing is typed for a size; sizes are
/// taken as they are. With what holds of actions one after the other, this says
/// what is typed for any.
pub proof fn law_each_action_counts(keys: Seq<u8>, w: i32, h: i32)
    ensures
        crate::server::typed(Seq::empty()) == Seq::<u8>::empty(),
        crate::server::typed(seq![transport::UserActionView::Keystroke(keys)]) == keys,
        crate::server::typed(seq![transport::UserActionView::Resize(w, h)]) == Seq::<u8>::empty(),
        crate::server::sizes(seq![transport::UserActionView::Keystroke(keys)]) == Seq::<
            (i32, i32),
        >::empty(),
        crate::server::sizes(seq![transport::UserActionView::Resize(w, h)]) == seq![(w, h)],
{
    let k = seq![transport::UserActionView::Keystroke(keys)];
    let r = seq![transport::UserActionView::Resize(w, h)];
    reveal_with_fuel(crate::server::typed, 2);
    reveal_with_fuel(crate::server::sizes, 2);
    assert(k.drop_last() =~= Seq::empty());
    assert(r.drop_last() =~= Seq::empty());
    assert(crate::server::typed(k) =~= keys);
    assert(crate::server::typed(r) =~= Seq::empty());
    assert(crate::server::sizes(r) =~= seq![(w, h)]);
}

/// The terminal gets every size that the client gave, in order, each side in 16 bits.
pub proof fn law_every_size_is_handed_on(sizes: Seq<(i32, i32)>)
    ensures
        crate::server::terminal_sizes(sizes).len() == sizes.len(),
        forall|i: int|
            0 <= i < sizes.len() ==> {
                let (columns, rows) = #[trigger] crate::server::terminal_sizes(sizes)[i];
                columns == sizes[i].0 as int % 0x1_0000 && rows == sizes[i].1 as int % 0x1_0000
            },
{
}

/// What instructions of a client say it did, one after the other, is what each
/// says.
pub proof fn law_actions_go_on(
    a: Seq<crate::user_message::UserInstructionView>,
    b: Seq<crate::user_message::UserInstructionView>,
)
    ensures
        transport::actions_of(a + b) == transport::actions_of(a) + transport::actions_of(b),
    decreases b.len(),
{
    if b.len() == 0 {
        assert(a + b =~= a);
        assert(transport::actions_of(a) + transport::actions_of(b) =~= transport::actions_of(a));
    } else {
        law_actions_go_on(a, b.drop_last());
        assert((a + b).drop_last() =~= a + b.drop_last());
        assert(transport::actions_of(a + b) =~= transport::actions_of(a) + transport::actions_of(
            b,
        ));
    }
}

/// The instruction that says that keys were pressed.
pub open spec fn pressing(keys: Seq<u8>) -> crate::user_message::UserInstructionView {
    crate::user_message::UserInstructionView {
        keystroke: Some(crate::user_message::KeystrokeView { keys: Some(keys) }),
        resize: None,
    }
}

/// The instruction that says that the terminal has a new size.
pub open spec fn resizing(w: i32, h: i32) -> crate::user_message::UserInstructionView {
    crate::user_message::UserInstructionView {
        keystroke: None,
        resize: Some(messages::ResizeMessage { width: Some(w), height: Some(h) }),
    }
}

/// An instruction with keys, and one with a size, say just that.
pub proof fn law_an_instruction_says_what_was_done(keys: Seq<u8>, w: i32, h: i32)
    ensures
        transport::actions_of(seq![pressing(keys)]) == seq![
            transport::UserActionView::Keystroke(keys),
        ],
        transport::actions_of(seq![resizing(w, h)]) == seq![
            transport::UserActionView::Resize(w, h),
        ],
{
    let k = pressing(keys);
    let r = resizing(w, h);
    reveal_with_fuel(transport::actions_of, 2);
    assert(seq![k].drop_last() =~= Seq::empty());
    assert(seq![r].drop_last() =~= Seq::empty());
    assert(transport::actions_of(seq![k]) =~= seq![transport::UserActionView::Keystroke(keys)]);
    assert(transport::actions_of(seq![r]) =~= seq![transport::UserActionView::Resize(w, h)]);
}

} // verus!
