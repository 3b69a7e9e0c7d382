//! What a server does in a round, told by what comes in and what goes out.

use vstd::prelude::*;

use crate::crypto;
use crate::effects;
use crate::fragment;
use crate::network::{self, PacketView, RemoteAddr};
use crate::reassembly;
use crate::server::{self, ClientInput, Phase, ReceiveClock, ServerState, Verdict};
use crate::transport::{self, Due, TransportState};

verus! {

/// A new server sleeps, has taken in all input that came, and gives its first client
/// just a minute from its start, whatever wakes it.
pub proof fn law_new_server(
    t: TransportState,
    start: u64,
    now: u64,
    network: bool,
    readable: bool,
    gone: bool,
    told_at: u64,
)
    requires
        t.received_state_num == 0,
    ensures
        ({
            let s = ServerState::initial(t, start);
            &&& s.phase == Phase::Asleep
            &&& s.transport == t
            &&& s.in_step() && !s.child_exited
            &&& s.on_polled(now, network, readable, gone, told_at).verdict() == Verdict::NoClient
                <==> now - start >= 60000
        }),
{
}

/// A genuine packet to the server that is no older than those before it is heard by
/// the server: its sender is the client from then on, and was heard at that time,
/// whether it was the client before or not.
pub proof fn law_server_follows_its_client(
    before: ServerState,
    key: Seq<u8>,
    data: Seq<u8>,
    p: PacketView,
    src: RemoteAddr,
    clock: ReceiveClock,
    after: ServerState,
    input: ClientInput,
)
    requires
        server::receives(before, key, data, src, clock, after, input),
        crypto::opened(key, data) == Some((p.nonce(), p.text())),
        p.direction == network::Direction::ToServer,
        before.transport.conn.expected_receiver_seq <= p.seq < 0x8000_0000_0000_0000,
    ensures
        after.transport.conn.remote_addr == Some(src),
        after.transport.conn.last_heard == clock.heard,
        after.transport.conn.expected_receiver_seq == p.seq + 1,
        input.attached <==> before.transport.conn.remote_addr != Some(src),
        p.timestamp_reply == 0xffff ==> input.rtt is None,
{
    effects::law_genuine_payloads_are_taken_in(
        before.transport,
        key,
        data,
        p,
        src,
        clock.saved_at,
        clock.now16,
        clock.heard,
        clock.at,
    );
    network::law_datagram_is_accepted_as_sent(before.transport.conn, key, data, p);
}

/// Keys are typed in the round in which they come: the server waits for that exactly
/// when there are any, and turns to the terminal if not. Output that waits to be sent
/// goes on waiting.
pub proof fn law_keys_are_typed_at_once(
    before: ServerState,
    key: Seq<u8>,
    data: Seq<u8>,
    src: RemoteAddr,
    clock: ReceiveClock,
    after: ServerState,
    input: ClientInput,
)
    requires
        server::receives(before, key, data, src, clock, after, input),
    ensures
        after.phase == Phase::Typing <==> input.keys@.len() > 0,
        after.phase != Phase::Typing ==> after.phase == Phase::Host || after.phase == Phase::Child
            || after.phase == Phase::Closing,
        after.transport.pending_output == before.transport.pending_output,
        after.round == before.round,
        after.child_exited == before.child_exited,
        after.startup_time == before.startup_time,
{
}

/// What a server does for the client's input is the same whether it types keys or
/// not: once they are typed, it looks at the echo and turns to the terminal.
pub proof fn law_typing_comes_first(
    before: ServerState,
    key: Seq<u8>,
    data: Seq<u8>,
    src: RemoteAddr,
    clock: ReceiveClock,
    after: ServerState,
    input: ClientInput,
    told_at: u64,
)
    requires
        server::receives(before, key, data, src, clock, after, input),
        input.keys@.len() > 0,
    ensures
        after.on_written(true, told_at) == after.done_with_input(told_at),
        after.on_written(true, told_at).phase != Phase::Typing,
        after.transport.echo_ack == before.transport.echo_ack,
        after.transport.pending_echo_ack == before.transport.pending_echo_ack,
{
}

/// Input with keys in it is on record, when these are about to be typed, under the
/// newest number and with the time at which the round started; and if it gives a size,
/// the client is to be told of that, width and height as they are, within a fiftieth
/// of a second.
pub proof fn law_typed_input_is_on_record(
    before: ServerState,
    key: Seq<u8>,
    data: Seq<u8>,
    src: RemoteAddr,
    clock: ReceiveClock,
    after: ServerState,
    input: ClientInput,
    diff: Seq<u8>,
)
    requires
        server::receives(before, key, data, src, clock, after, input),
        before.in_step(),
        before.transport.datagram_delivers(key, data) == Some(diff),
        input.keys@.len() > 0,
        clock.sized_at + 20 <= u64::MAX,
    ensures
        after.last_remote_num == after.transport.received_state_num,
        after.transport.received_state_num > before.transport.received_state_num,
        after.transport.input_history == before.transport.input_history.push(
            (after.transport.received_state_num, before.round.now),
        ),
        match effects::last_size(transport::user_actions(diff)) {
            Some(size) => after.transport.pending_resize == Some(size)
                && after.transport.next_send_time <= clock.sized_at + 20,
            None => after.transport.pending_resize == before.transport.pending_resize
                && after.transport.next_send_time == before.transport.next_send_time,
        },
{
    server::law_delivered_input_is_new(
        before,
        key,
        data,
        src,
        clock.saved_at,
        clock.now16,
        clock.heard,
        clock.at,
    );
    let over = before.over(
        before.transport.after_datagram(
            key,
            data,
            src,
            clock.saved_at,
            clock.now16,
            clock.heard,
            clock.at,
        ),
    );
    effects::law_input_is_put_on_record(over, diff, before.round.now, clock.sized_at);
    effects::lemma_last_size(transport::user_actions(diff));
    assert(server::typed(Seq::empty()).len() == 0);
}

/// After the terminal was read, the program in it is looked after, unless it has
/// ended or the server ends; nothing else changes but the transport.
pub proof fn law_after_reading(s: ServerState, output: Option<Seq<u8>>, now: u64)
    ensures
        ({
            let after = s.on_host_read(output, now);
            let ends = s.transport.shutdown_in_progress || !(output matches Some(data)
                && data.len() > 0);
            &&& after.transport.shutdown_in_progress == ends
            &&& after.phase == Phase::Child <==> !s.child_exited && !ends
            &&& after.phase == Phase::Child || after.phase == Phase::Closing
            &&& ends && !s.transport.shutdown_in_progress ==> after.transport.pending_output
                == s.transport.pending_output && after.transport.next_send_time
                == s.transport.next_send_time
            &&& after.round == s.round && after.child_exited == s.child_exited
            &&& after.last_remote_num == s.last_remote_num
            &&& after.startup_time == s.startup_time
        }),
{
}

/// A round that is closed sends something exactly when something is due and the
/// server does not end at once; the server is over when it ends or a packet is
/// refused, and sleeps otherwise. Nothing else changes but the transport.
pub proof fn law_how_a_round_is_closed(
    before: ServerState,
    key: Seq<u8>,
    now: u64,
    chaff: Seq<u8>,
    estimate: u64,
    clock: Seq<(u64, u16)>,
    after: ServerState,
    sent: Seq<network::OutgoingView>,
)
    requires
        server::closes(before, key, now, chaff, estimate, clock, after, sent),
        before.transport.conn.mtu == 1280 - 28,
    ensures
        ({
            let at_once = before.verdict() == Verdict::NoClient || before.verdict()
                == Verdict::Ended;
            let due = before.transport.due(now);
            &&& at_once ==> sent.len() == 0 && after.transport == before.transport
            &&& sent.len() > 0 <==> !at_once && (due == Due::Diff || due == Due::Ack)
            &&& after.phase == Phase::Over <==> before.verdict() != Verdict::GoOn || (sent.len()
                > 0 && sent.last() is Refused)
            &&& after.phase == Phase::Over || after.phase == Phase::Asleep
            &&& after.round == before.round && after.child_exited == before.child_exited
            &&& after.last_remote_num == before.last_remote_num
            &&& after.startup_time == before.startup_time
        }),
{
    let t = before.transport;
    let due = t.due(now);
    if before.verdict() == Verdict::GoOn || before.verdict() == Verdict::LastTick {
        let payloads = t.tick_payloads(now, chaff);
        transport::lemma_no_more_than_handed(t.conn, key, payloads, clock);
        if due == Due::Diff || due == Due::Ack {
            reassembly::law_split_shape(
                fragment::zlib_compressed(t.instruction(due, chaff).bytes()),
                (t.fragment_mtu() - fragment::FRAG_HEADER_LEN) as nat,
                t.taken_up(due).fragmenter.next_id,
                0,
            );
        }
    }
}

/// A server that ends, and whose client was sent all there was, announces its end
/// again after just the interval for the estimated round trip; one that goes on is
/// heard of again after three seconds at the latest.
pub proof fn law_client_is_not_left_waiting(
    before: ServerState,
    key: Seq<u8>,
    now: u64,
    chaff: Seq<u8>,
    estimate: u64,
    clock: Seq<(u64, u16)>,
    after: ServerState,
    sent: Seq<network::OutgoingView>,
)
    requires
        server::closes(before, key, now, chaff, estimate, clock, after, sent),
        before.verdict() == Verdict::GoOn,
        sent.len() > 0,
        !(sent.last() is Refused),
        now + 3000 <= u64::MAX,
    ensures
        before.transport.shutdown_in_progress && estimate < 50 ==> after.transport.next_ack_time
            == now + 50,
        before.transport.shutdown_in_progress && 50 <= estimate <= 250
            ==> after.transport.next_ack_time == now + estimate,
        before.transport.shutdown_in_progress && estimate > 250 ==> after.transport.next_ack_time
            == now + 250,
        !before.transport.shutdown_in_progress ==> after.transport.next_ack_time == now + 3000,
{
    transport::lemma_no_more_than_handed(
        before.transport.conn,
        key,
        before.transport.tick_payloads(now, chaff),
        clock,
    );
}

} // verus!
