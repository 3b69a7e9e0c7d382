//! What holds of the transport as a whole, whatever the client sends and
//! whenever the clock is looked at.

use vstd::prelude::*;

use crate::crypto;
use crate::fragment::{self, AssemblyView, FragmentView};
use crate::host_message;
use crate::messages;
use crate::network::{self, RemoteAddr};
use crate::reassembly;
use crate::transport::{self, Due, TransportState};
use crate::user_message;

verus! {

/// Neither the newest state of the input nor what the client acknowledged ever
/// falls, whatever instruction comes.
pub proof fn law_numbers_of_the_client_never_fall(
    t: TransportState,
    inst: messages::InstructionView,
    now: u64,
)
    ensures
        t.after_instruction(inst, now).received_state_num >= t.received_state_num,
        t.after_instruction(inst, now).ack_num >= t.ack_num,
{
}

/// The same holds of whole datagrams.
pub proof fn law_numbers_never_fall_with_datagrams(
    t: TransportState,
    key: Seq<u8>,
    data: Seq<u8>,
    src: RemoteAddr,
    saved_at: u64,
    now16: u16,
    heard: u64,
    now: u64,
)
    ensures
        t.after_datagram(key, data, src, saved_at, now16, heard, now).received_state_num
            >= t.received_state_num,
        t.after_datagram(key, data, src, saved_at, now16, heard, now).ack_num >= t.ack_num,
{
}

/// Input is delivered only by an instruction from the state that is known, or
/// from the first one, to a newer one; that state is then the one that is known,
/// and the same instruction delivers nothing again.
pub proof fn law_input_is_delivered_once(
    t: TransportState,
    inst: messages::InstructionView,
    now: u64,
)
    requires
        t.delivered(inst) is Some,
    ensures
        inst.diff == t.delivered(inst),
        messages::or_zero(inst.old_num) == t.received_state_num || messages::or_zero(inst.old_num)
            == 0,
        messages::or_zero(inst.new_num) > t.received_state_num,
        t.after_instruction(inst, now).received_state_num == messages::or_zero(inst.new_num),
        t.after_instruction(inst, now).delivered(inst) is None,
{
}

/// An instruction of another protocol version changes nothing and delivers
/// nothing.
pub proof fn law_other_versions_are_ignored(
    t: TransportState,
    inst: messages::InstructionView,
    now: u64,
)
    requires
        inst.protocol_version != Some(transport::MOSH_PROTOCOL_VERSION),
    ensures
        t.after_instruction(inst, now) == t,
        t.delivered(inst) is None,
{
}

/// Once the client ended the transport, no more input is delivered, and the next
/// instruction tells the client that this is known.
pub proof fn law_end_of_input_is_final(
    t: TransportState,
    inst: messages::InstructionView,
    now: u64,
    due: Due,
    chaff: Seq<u8>,
)
    requires
        t.received_state_num == u64::MAX,
        due == Due::Diff || due == Due::Ack,
    ensures
        t.delivered(inst) is None,
        t.after_instruction(inst, now).received_state_num == u64::MAX,
        t.instruction(due, chaff).ack_num == Some(u64::MAX),
        t.taken_up(due).counterparty_shutdown_ack_sent(),
{
}

/// A transport that was told to end stays so, whatever happens.
pub proof fn law_shutdown_is_final(
    t: TransportState,
    key: Seq<u8>,
    data: Seq<u8>,
    src: RemoteAddr,
    saved_at: u64,
    now16: u16,
    heard: u64,
    now: u64,
    num: u64,
    w: i32,
    h: i32,
    chaff: Seq<u8>,
    interval: u64,
    clock: Seq<(u64, u16)>,
)
    requires
        t.shutdown_in_progress,
    ensures
        t.shutting_down() == t,
        t.with_input_frame(num, now).shutdown_in_progress,
        t.with_echo_ack(now).shutdown_in_progress,
        t.with_output(data, now).shutdown_in_progress,
        t.with_pending_echo_ack(num, now).shutdown_in_progress,
        t.with_pending_resize(w, h, now).shutdown_in_progress,
        t.after_datagram(key, data, src, saved_at, now16, heard, now).shutdown_in_progress,
        t.after_tick(key, now, chaff, interval, clock).shutdown_in_progress,
{
}

/// Each state that is sent has the next number, and the end of the transport the
/// greatest of all, which counts as a try.
pub proof fn law_states_are_numbered_in_order(t: TransportState, due: Due)
    requires
        due == Due::Diff || due == Due::Ack,
        t.last_sent_num < u64::MAX - 1,
        t.shutdown_tries < i32::MAX,
    ensures
        due == Due::Diff || !t.shutdown_in_progress ==> t.next_num(due) == t.last_sent_num + 1
            && t.taken_up(due).last_sent_num == t.last_sent_num + 1
            && t.taken_up(due).shutdown_tries == t.shutdown_tries,
        due == Due::Ack && t.shutdown_in_progress ==> t.next_num(due) == u64::MAX && t.taken_up(
            due,
        ).last_sent_num == t.last_sent_num && t.taken_up(due).shutdown_tries == t.shutdown_tries
            + 1,
{
}

/// A tick whose packets are all accepted leaves the client, as far as is assumed,
/// at the state that it sent: the next instruction starts there.
pub proof fn law_instructions_follow_each_other(
    t: TransportState,
    key: Seq<u8>,
    now: u64,
    chaff: Seq<u8>,
    interval: u64,
    clock: Seq<(u64, u16)>,
    next: Due,
    next_chaff: Seq<u8>,
)
    requires
        t.due(now) == Due::Diff || t.due(now) == Due::Ack,
        !(t.tick_outgoing(key, now, chaff, clock).last() is Refused),
    ensures
        t.after_tick(key, now, chaff, interval, clock).instruction(next, next_chaff).old_num
            == t.instruction(t.due(now), chaff).new_num,
{
}

/// Taking up what is pending leaves nothing pending; anything else leaves it as
/// it was.
pub proof fn law_pending_is_taken_whole(t: TransportState, due: Due)
    ensures
        due == Due::Diff ==> !t.taken_up(due).has_pending_data(),
        due != Due::Diff ==> t.taken_up(due).pending_diff() == t.pending_diff(),
{
}

/// The client reads exactly what was pending out of the instruction that is sent
/// for it.
pub proof fn law_client_reads_what_was_pending(t: TransportState, chaff: Seq<u8>)
    requires
        forall|i: int|
            0 <= i < t.pending_diff().instruction.len() ==> (
            #[trigger] t.pending_diff().instruction[i]).bytes().len() <= u64::MAX,
    ensures
        t.instruction(Due::Diff, chaff).diff is Some,
        host_message::decoded_host_message(t.instruction(Due::Diff, chaff).diff->0) == Some(
            t.pending_diff(),
        ),
{
    host_message::law_host_message_decode_after_encode(t.pending_diff());
}

/// There is nothing to wait for exactly when something is due.
pub proof fn law_wait_ends_when_something_is_due(t: TransportState, now: u64)
    requires
        t.conn.remote_addr is Some,
    ensures
        t.wait_time(now) == 0 <==> t.due(now) != Due::Nothing,
{
}

/// Waiting as long as is said makes something due, unless the clock wraps.
pub proof fn law_waiting_makes_something_due(t: TransportState, now: u64)
    requires
        t.conn.remote_addr is Some,
        now + t.wait_time(now) <= u64::MAX,
    ensures
        t.due((now + t.wait_time(now)) as u64) != Due::Nothing,
{
}

/// Every instruction acknowledges the newest state of the input.
pub proof fn law_input_is_always_acknowledged(t: TransportState, due: Due, chaff: Seq<u8>)
    requires
        due == Due::Diff || due == Due::Ack,
    ensures
        t.instruction(due, chaff).ack_num == Some(t.received_state_num),
        t.taken_up(due).last_ack_sent_to_client == t.received_state_num,
{
}

/// Whatever instruction of this version comes, something is due a tenth of a
/// second later at the latest.
pub proof fn law_input_is_acknowledged_soon(
    t: TransportState,
    inst: messages::InstructionView,
    now: u64,
)
    requires
        t.conn.remote_addr is Some,
        inst.protocol_version == Some(transport::MOSH_PROTOCOL_VERSION),
        now + transport::ACK_DELAY <= u64::MAX,
    ensures
        t.after_instruction(inst, now).due((now + transport::ACK_DELAY) as u64) != Due::Nothing,
{
}

/// After a tick that sent all it had, something is due three seconds later at
/// the latest; while the transport ends, after the interval for the estimated
/// round trip, which is between 50 and 250 milliseconds.
pub proof fn law_client_hears_from_the_server(
    t: TransportState,
    key: Seq<u8>,
    now: u64,
    chaff: Seq<u8>,
    estimate: u64,
    clock: Seq<(u64, u16)>,
)
    requires
        t.due(now) == Due::Diff || t.due(now) == Due::Ack,
        !(t.tick_outgoing(key, now, chaff, clock).last() is Refused),
        now + transport::ACK_INTERVAL <= u64::MAX,
    ensures
        ({
            let after = t.after_tick(
                key,
                now,
                chaff,
                transport::interval_for(estimate),
                clock,
            );
            &&& after.next_ack_time <= now + transport::ACK_INTERVAL
            &&& t.shutdown_in_progress ==> after.next_ack_time <= now + transport::interval_for(
                estimate,
            )
            &&& 50 <= transport::interval_for(estimate) <= transport::SEND_INTERVAL_MAX
        }),
{
}

/// What a client says it did is what the server understands, in order.
pub proof fn law_actions_come_through(m: user_message::UserMessageView)
    requires
        forall|i: int|
            0 <= i < m.instruction.len() ==> (#[trigger] m.instruction[i]).bytes().len()
                <= u64::MAX,
    ensures
        transport::user_actions(m.bytes()) == transport::actions_of(m.instruction),
{
    user_message::law_user_message_decode_after_encode(m);
}

/// Without a client nothing is sent and nothing changes.
pub proof fn law_nothing_happens_without_a_client(
    t: TransportState,
    key: Seq<u8>,
    now: u64,
    chaff: Seq<u8>,
    interval: u64,
    clock: Seq<(u64, u16)>,
)
    requires
        t.conn.remote_addr is None,
    ensures
        t.after_tick(key, now, chaff, interval, clock) == t,
        t.tick_payloads(now, chaff).len() == 0,
        t.wait_time(now) == u64::MAX,
{
}

/// The newest state of the input that has had time to show is at least every one
/// that has, and is one of them, unless it is 0.
pub proof fn law_newest_shown(history: Seq<(u64, u64)>, cutoff: u64)
    ensures
        forall|i: int|
            0 <= i < history.len() && (#[trigger] history[i]).1 <= cutoff ==> history[i].0
                <= transport::newest_shown(history, cutoff),
        transport::newest_shown(history, cutoff) == 0 || exists|i: int|
            0 <= i < history.len() && (#[trigger] history[i]).1 <= cutoff && history[i].0
                == transport::newest_shown(history, cutoff),
    decreases history.len(),
{
    if history.len() > 0 {
        let before = history.drop_last();
        let n = history.len() - 1;
        law_newest_shown(before, cutoff);
        assert forall|i: int|
            0 <= i < history.len() && (#[trigger] history[i]).1 <= cutoff implies history[i].0
            <= transport::newest_shown(history, cutoff) by {
            if i < n {
                assert(before[i] == history[i]);
            }
        }
        if transport::newest_shown(history, cutoff) != 0 {
            if transport::newest_shown(history, cutoff) == transport::newest_shown(before, cutoff) {
                let i = choose|i: int|
                    0 <= i < before.len() && (#[trigger] before[i]).1 <= cutoff && before[i].0
                        == transport::newest_shown(before, cutoff);
                assert(history[i] == before[i]);
            } else {
                assert(history[n].1 <= cutoff);
            }
        }
    }
}

/// States from the given one on are kept, and no others, each with its time.
pub proof fn law_kept_frames(history: Seq<(u64, u64)>, newest: u64, entry: (u64, u64))
    ensures
        transport::kept_frames(history, newest).contains(entry) <==> history.contains(entry)
            && entry.0 >= newest,
    decreases history.len(),
{
    let kept = transport::kept_frames(history, newest);
    if history.len() > 0 {
        let before = history.drop_last();
        let fewer = transport::kept_frames(before, newest);
        law_kept_frames(before, newest, entry);
        assert(history =~= before.push(history.last()));
        assert(history.contains(entry) <==> before.contains(entry) || entry == history.last()) by {
            if history.contains(entry) {
                let i = choose|i: int| 0 <= i < history.len() && history[i] == entry;
                if i < before.len() {
                    assert(before[i] == entry);
                }
            }
            if before.contains(entry) {
                let i = choose|i: int| 0 <= i < before.len() && before[i] == entry;
                assert(history[i] == entry);
            }
            if entry == history.last() {
                assert(history[history.len() - 1] == entry);
            }
        }
        if history.last().0 >= newest {
            assert(kept == fewer.push(history.last()));
            assert(kept.contains(entry) <==> fewer.contains(entry) || entry == history.last()) by {
                if kept.contains(entry) {
                    let i = choose|i: int| 0 <= i < kept.len() && kept[i] == entry;
                    if i < fewer.len() {
                        assert(fewer[i] == entry);
                    }
                }
                if fewer.contains(entry) {
                    let i = choose|i: int| 0 <= i < fewer.len() && fewer[i] == entry;
                    assert(kept[i] == entry);
                }
                if entry == history.last() {
                    assert(kept[kept.len() - 1] == entry);
                }
            }
        }
    }
}

/// They are kept in the order in which they came, each as often as it came.
pub proof fn law_kept_frames_stay_in_order(history: Seq<(u64, u64)>, newest: u64)
    ensures
        transport::kept_frames(history, newest) == history.filter(
            |entry: (u64, u64)| entry.0 >= newest,
        ),
    decreases history.len(),
{
    reveal(Seq::filter);
    if history.len() > 0 {
        law_kept_frames_stay_in_order(history.drop_last(), newest);
    } else {
        assert(history =~= Seq::empty());
    }
}

/// Whether the input that is said to be echoed is on record, with a time that
/// has had time to show at `now`.
pub open spec fn echo_on_record(t: TransportState, now: u64) -> bool {
    t.echo_ack == 0 || exists|i: int|
        0 <= i < t.input_history.len() && (#[trigger] t.input_history[i]).0 == t.echo_ack
            && t.input_history[i].1 <= transport::shown_before(now)
}

/// What is said to be echoed never falls while the clock does not go back, and
/// stays on record as new input comes.
pub proof fn law_echo_ack_never_falls(t: TransportState, now: u64, later: u64, num: u64, at: u64)
    requires
        echo_on_record(t, now),
        now <= later,
    ensures
        t.with_echo_ack(later).echo_ack >= t.echo_ack,
        echo_on_record(t.with_echo_ack(later), later),
        echo_on_record(t.with_input_frame(num, at), now),
{
    let cutoff = transport::shown_before(later);
    let history = t.input_history;
    let newest = t.shown_at(later);
    let after = t.with_echo_ack(later);
    law_newest_shown(history, cutoff);
    if newest != 0 {
        let i = choose|i: int|
            0 <= i < history.len() && (#[trigger] history[i]).1 <= cutoff && history[i].0
                == newest;
        let entry = history[i];
        assert(history.contains(entry));
        law_kept_frames(history, newest, entry);
        let k = choose|k: int|
            0 <= k < after.input_history.len() && after.input_history[k] == entry;
        assert(after.input_history[k].0 == after.echo_ack);
    }
    if t.echo_ack != 0 {
        let i = choose|i: int|
            0 <= i < t.input_history.len() && (#[trigger] t.input_history[i]).0 == t.echo_ack
                && t.input_history[i].1 <= transport::shown_before(now);
        assert(t.with_input_frame(num, at).input_history[i] == history[i]);
    }
}

/// The input is on record as echoed from the start.
pub proof fn law_nothing_is_echoed_at_first(t: TransportState, now: u64, start: u64)
    requires
        t == TransportState::initial(t.conn, start),
    ensures
        echo_on_record(t, now),
{
}

/// The fragment that a client finds in what is sent, under the key of the session.
pub open spec fn fragment_found(key: Seq<u8>, out: network::OutgoingView) -> Option<FragmentView> {
    match out {
        network::OutgoingView::Datagram { bytes, .. } => match crypto::opened(key, bytes) {
            Some((nonce, text)) => match network::parsed_packet(nonce, text) {
                Some(p) => fragment::parsed_fragment(p.payload),
                None => None,
            },
            None => None,
        },
        _ => None,
    }
}

/// The fragments that a client finds in datagrams that all hold one.
pub open spec fn fragments_found(
    key: Seq<u8>,
    sent: Seq<network::OutgoingView>,
) -> Seq<FragmentView> {
    Seq::new(sent.len(), |i: int| fragment_found(key, sent[i])->0)
}

/// A client that has nothing of the instruction yet, and that gets every datagram
/// of a tick at least once, in whatever order, has the instruction that was sent,
/// whole. Fragments are numbered with 15 bits.
pub proof fn law_client_gets_what_was_sent(
    before: TransportState,
    key: Seq<u8>,
    now: u64,
    chaff: Seq<u8>,
    estimate: u64,
    clock: Seq<(u64, u16)>,
    after: TransportState,
    sent: Seq<network::OutgoingView>,
    a: AssemblyView,
    order: Seq<int>,
)
    requires
        before.due(now) == Due::Diff || before.due(now) == Due::Ack,
        before.tick_payloads(now, chaff).len() <= 0x8000,
        forall|i: int| 0 <= i < sent.len() ==> (#[trigger] sent[i]) is Datagram,
        a.ready_for(before.taken_up(before.due(now)).fragmenter.next_id),
        reassembly::covers(order, sent.len()),
        before.fragment_mtu() > fragment::FRAG_HEADER_LEN,
    ensures
        transport::ticks(before, key, now, chaff, estimate, clock, after, sent) ==> {
            let g = reassembly::gathered(a, fragments_found(key, sent), order);
            &&& forall|i: int|
                0 <= i < sent.len() ==> fragment_found(key, #[trigger] sent[i]) is Some
            &&& g.complete()
            &&& g.instruction() == Some(before.instruction(before.due(now), chaff))
        },
{
    if transport::ticks(before, key, now, chaff, estimate, clock, after, sent) {
        let due = before.due(now);
        let frags = before.fragments(due, chaff);
        let payloads = before.tick_payloads(now, chaff);
        transport::lemma_no_more_than_handed(before.conn, key, payloads, clock);
        assert(sent.len() == payloads.len()) by {
            if sent.len() > 0 {
                assert(sent[sent.len() - 1] is Datagram);
            }
        }
        assert forall|i: int| 0 <= i < sent.len() implies #[trigger] fragments_found(key, sent)[i]
            == reassembly::over_the_wire(frags)[i] by {
            assert(sent[i] is Datagram);
            assert(payloads[i] == frags[i].bytes());
        }
        assert forall|i: int| 0 <= i < sent.len() implies fragment_found(
            key,
            #[trigger] sent[i],
        ) is Some by {
            assert(payloads[i] == frags[i].bytes());
            reassembly::law_fragment_length(frags[i]);
        }
        assert(fragments_found(key, sent) =~= reassembly::over_the_wire(frags));
        reassembly::law_split_shape(
            fragment::zlib_compressed(before.instruction(due, chaff).bytes()),
            (before.fragment_mtu() - fragment::FRAG_HEADER_LEN) as nat,
            before.taken_up(due).fragmenter.next_id,
            0,
        );
        assert(frags[0].id == before.taken_up(due).fragmenter.next_id);
        assert(reassembly::comes_out_whole(frags, before.instruction(due, chaff)));
        let g = reassembly::gathered(a, reassembly::over_the_wire(frags), order);
        assert(g.complete() && g.instruction() == Some(before.instruction(due, chaff)));
    }
}

/// Every datagram of a tick but the last one is as long as the path carries, and that
/// one is no longer.
pub proof fn law_datagrams_are_filled(
    before: TransportState,
    key: Seq<u8>,
    now: u64,
    chaff: Seq<u8>,
    estimate: u64,
    clock: Seq<(u64, u16)>,
    after: TransportState,
    sent: Seq<network::OutgoingView>,
    i: int,
    to: RemoteAddr,
    bytes: Seq<u8>,
)
    requires
        transport::ticks(before, key, now, chaff, estimate, clock, after, sent),
        before.conn.mtu == 1280 - 28,
        0 <= i < sent.len(),
        sent[i] == (network::OutgoingView::Datagram { to, bytes }),
    ensures
        bytes.len() <= 1280 - 28,
        i + 1 < before.tick_payloads(now, chaff).len() ==> bytes.len() == 1280 - 28,
{
    let due = before.due(now);
    let frags = before.fragments(due, chaff);
    let payloads = before.tick_payloads(now, chaff);
    transport::lemma_no_more_than_handed(before.conn, key, payloads, clock);
    reassembly::law_split_shape(
        fragment::zlib_compressed(before.instruction(due, chaff).bytes()),
        (before.fragment_mtu() - fragment::FRAG_HEADER_LEN) as nat,
        before.taken_up(due).fragmenter.next_id,
        0,
    );
    assert(sent[i] is Datagram);
    assert(payloads[i] == frags[i].bytes());
    reassembly::law_fragment_length(frags[i]);
}

/// The transport after the payloads with the given indices came, in order, at the
/// given times.
pub open spec fn after_payloads(
    t: TransportState,
    payloads: Seq<Seq<u8>>,
    order: Seq<int>,
    times: Seq<u64>,
) -> TransportState
    decreases order.len(),
{
    if order.len() == 0 {
        t
    } else {
        after_payloads(t, payloads, order.drop_last(), times.drop_last()).after_payload(
            payloads[order.last()],
            times.last(),
        )
    }
}

proof fn lemma_parts_only_gather(
    t: TransportState,
    data: Seq<u8>,
    payload: nat,
    id: u64,
    order: Seq<int>,
    times: Seq<u64>,
)
    requires
        payload > 0,
        t.assembly.ready_for(id),
        fragment::split(data, payload, id, 0).len() <= 0x8000,
        forall|j: int|
            0 <= j < order.len() ==> 0 <= #[trigger] order[j] < fragment::split(
                data,
                payload,
                id,
                0,
            ).len(),
        !reassembly::covers(order, fragment::split(data, payload, id, 0).len()),
    ensures
        after_payloads(
            t,
            transport::fragment_payloads(fragment::split(data, payload, id, 0)),
            order,
            times,
        ) == (TransportState {
            assembly: reassembly::gathered(
                t.assembly,
                fragment::split(data, payload, id, 0),
                order,
            ),
            ..t
        }),
    decreases order.len(),
{
    let frags = fragment::split(data, payload, id, 0);
    let payloads = transport::fragment_payloads(frags);
    if order.len() > 0 {
        let before = order.drop_last();
        let k = order.last();
        assert forall|j: int| 0 <= j < before.len() implies 0 <= #[trigger] before[j]
            < frags.len() by {
            assert(before[j] == order[j]);
        }
        if reassembly::covers(before, frags.len()) {
            assert forall|i: int| 0 <= i < frags.len() implies #[trigger] order.contains(i) by {
                assert(before.contains(i));
                let j = choose|j: int| 0 <= j < before.len() && before[j] == i;
                assert(order[j] == i);
            }
        }
        lemma_parts_only_gather(t, data, payload, id, before, times.drop_last());
        reassembly::law_split_shape(data, payload, id, 0);
        assert(k == order[order.len() - 1]);
        assert(frags[k].fragment_num < 0x8000);
        fragment::law_fragment_read_after_write(frags[k]);
        reassembly::law_fragments_in_any_order(t.assembly, data, payload, id, order);
        let s = after_payloads(t, payloads, before, times.drop_last());
        assert(s.assembly_with(payloads[k]) == reassembly::gathered(t.assembly, frags, order));
        assert(!reassembly::gathered(t.assembly, frags, order).complete());
    }
}

/// However the payloads of an instruction of the client come in, in any order and
/// however often, nothing changes but what is gathered until the last missing one
/// comes; that one delivers what the instruction adds to the input, and the
/// instruction is taken in.
pub proof fn law_input_comes_through(
    t: TransportState,
    inst: messages::InstructionView,
    data: Seq<u8>,
    payload: nat,
    id: u64,
    order: Seq<int>,
    times: Seq<u64>,
    last: int,
    now: u64,
)
    requires
        payload > 0,
        t.assembly.ready_for(id),
        fragment::split(data, payload, id, 0).len() <= 0x8000,
        0 <= last < fragment::split(data, payload, id, 0).len(),
        forall|j: int|
            0 <= j < order.len() ==> 0 <= #[trigger] order[j] < fragment::split(
                data,
                payload,
                id,
                0,
            ).len(),
        !reassembly::covers(order, fragment::split(data, payload, id, 0).len()),
        reassembly::covers(order.push(last), fragment::split(data, payload, id, 0).len()),
    ensures
        ({
            let payloads = transport::fragment_payloads(fragment::split(data, payload, id, 0));
            let s = after_payloads(t, payloads, order, times);
            &&& s == TransportState { assembly: s.assembly, ..t }
            &&& (match fragment::zlib_decompressed(data) {
                Some(bytes) => messages::decoded_instruction(bytes),
                None => None,
            }) == Some(inst) ==> {
                &&& s.payload_delivers(payloads[last]) == t.delivered(inst)
                &&& s.after_payload(payloads[last], now) == (TransportState {
                    assembly: s.after_payload(payloads[last], now).assembly,
                    ..t.after_instruction(inst, now)
                })
            }
        }),
{
    let frags = fragment::split(data, payload, id, 0);
    let payloads = transport::fragment_payloads(frags);
    let s = after_payloads(t, payloads, order, times);
    let all = order.push(last);
    lemma_parts_only_gather(t, data, payload, id, order, times);
    reassembly::law_split_shape(data, payload, id, 0);
    assert(frags[last].fragment_num < 0x8000);
    fragment::law_fragment_read_after_write(frags[last]);
    reassembly::law_fragments_in_any_order(t.assembly, data, payload, id, all);
    assert(all.drop_last() =~= order);
    assert(s.assembly_with(payloads[last]) == reassembly::gathered(t.assembly, frags, all));
}

} // verus!
