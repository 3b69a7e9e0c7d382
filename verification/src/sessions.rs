//! What holds over whole sessions of a server: what is read from the terminal
//! comes to the client, what the client types comes to the terminal, and both
//! agree on what has been echoed and on the size of the terminal.

use vstd::prelude::*;

use crate::effects;
use crate::host_message;
use crate::network;
use crate::runs;
use crate::server::{self, ClientInput, ReceiveClock, ServerState, Verdict};
use crate::synchronization;
use crate::transport::{self, Due, TransportState};

verus! {

/// One thing that happens to a server.
pub enum ServerEvent {
    Polled { now: u64, network: bool, readable: bool, gone: bool, told_at: u64 },
    Received {
        data: Seq<u8>,
        src: network::RemoteAddr,
        clock: ReceiveClock,
        input: ClientInput,
    },
    NothingReceived { told_at: u64 },
    Written { ok: bool, told_at: u64 },
    HostRead { output: Option<Seq<u8>>, now: u64 },
    ChildChecked { exited: bool },
    Closed {
        now: u64,
        chaff: Seq<u8>,
        estimate: u64,
        clocks: Seq<(u64, u16)>,
        sent: Seq<network::OutgoingView>,
    },
}

/// Whether something that happens to a server leads from one state to another.
#[verifier::opaque]
pub open spec fn happens(
    before: ServerState,
    key: Seq<u8>,
    e: ServerEvent,
    after: ServerState,
) -> bool {
    match e {
        ServerEvent::Polled { now, network, readable, gone, told_at } => after
            == before.on_polled(now, network, readable, gone, told_at),
        ServerEvent::Received { data, src, clock, input } => server::receives(
            before,
            key,
            data,
            src,
            clock,
            after,
            input,
        ),
        ServerEvent::NothingReceived { told_at } => after == before.done_with_input(told_at),
        ServerEvent::Written { ok, told_at } => after == before.on_written(ok, told_at),
        ServerEvent::HostRead { output, now } => after == before.on_host_read(output, now),
        ServerEvent::ChildChecked { exited } => after == before.on_child(exited),
        ServerEvent::Closed { now, chaff, estimate, clocks, sent } => server::closes(
            before,
            key,
            now,
            chaff,
            estimate,
            clocks,
            after,
            sent,
        ),
    }
}

/// Whether some events lead through some states, one more than there are events.
pub open spec fn is_session(
    states: Seq<ServerState>,
    key: Seq<u8>,
    events: Seq<ServerEvent>,
) -> bool {
    &&& states.len() == events.len() + 1
    &&& forall|i: int|
        0 <= i < events.len() ==> happens(states[i], key, #[trigger] events[i], states[i + 1])
}

/// Whether what is pending can be held in memory once it is written down.
pub open spec fn representable(t: TransportState) -> bool {
    forall|i: int|
        0 <= i < t.pending_diff().instruction.len() ==> (
        #[trigger] t.pending_diff().instruction[i]).bytes().len() <= u64::MAX
}

/// The output of the terminal in what the client is told.
pub open spec fn output_in(insts: Seq<host_message::HostInstructionView>) -> Seq<u8>
    decreases insts.len(),
{
    if insts.len() == 0 {
        Seq::empty()
    } else {
        output_in(insts.drop_last()) + match insts.last().hostbytes {
            Some(host_message::HostBytesView { hoststring: Some(s) }) => s,
            _ => Seq::empty(),
        }
    }
}

/// The last echo acknowledgment in what the client is told, if there is one.
pub open spec fn echo_in(insts: Seq<host_message::HostInstructionView>) -> Option<u64>
    decreases insts.len(),
{
    if insts.len() == 0 {
        None
    } else {
        match insts.last().echoack {
            Some(host_message::EchoAck { echo_ack_num: Some(num) }) => Some(num),
            _ => echo_in(insts.drop_last()),
        }
    }
}

/// The last size in what the client is told, if there is one.
pub open spec fn size_in(insts: Seq<host_message::HostInstructionView>) -> Option<(i32, i32)>
    decreases insts.len(),
{
    if insts.len() == 0 {
        None
    } else {
        match insts.last().resize {
            Some(crate::messages::ResizeMessage { width: Some(w), height: Some(h) }) => Some(
                (w, h),
            ),
            _ => size_in(insts.drop_last()),
        }
    }
}

proof fn lemma_told_on(
    a: Seq<host_message::HostInstructionView>,
    b: Seq<host_message::HostInstructionView>,
)
    requires
        b.len() <= 1,
    ensures
        output_in(a + b) == output_in(a) + output_in(b),
        echo_in(a + b) == if echo_in(b) is Some {
            echo_in(b)
        } else {
            echo_in(a)
        },
        size_in(a + b) == if size_in(b) is Some {
            size_in(b)
        } else {
            size_in(a)
        },
{
    reveal_with_fuel(output_in, 2);
    reveal_with_fuel(echo_in, 2);
    reveal_with_fuel(size_in, 2);
    if b.len() == 0 {
        assert(a + b =~= a);
        assert(output_in(a) + output_in(b) =~= output_in(a));
    } else {
        assert((a + b).drop_last() =~= a);
        assert(b.drop_last() =~= Seq::empty());
        assert(output_in(a + b) =~= output_in(a) + output_in(b));
    }
}

/// What the client is told holds the output that is given, the echo
/// acknowledgment and the size, if these are given, and no others.
pub proof fn law_client_is_told_what_is_given(
    data: Seq<u8>,
    echo_ack: Option<u64>,
    resize: Option<(i32, i32)>,
)
    ensures
        output_in(transport::host_diff(data, echo_ack, resize).instruction) == data,
        echo_in(transport::host_diff(data, echo_ack, resize).instruction) == echo_ack,
        size_in(transport::host_diff(data, echo_ack, resize).instruction) == resize,
{
    let none: Option<u64> = None;
    let a = transport::host_diff(Seq::empty(), echo_ack, None).instruction;
    let b = transport::host_diff(Seq::empty(), none, resize).instruction;
    let c = transport::host_diff(data, none, None).instruction;
    let all = transport::host_diff(data, echo_ack, resize).instruction;
    assert(all =~= a + b + c);
    reveal_with_fuel(output_in, 2);
    reveal_with_fuel(echo_in, 2);
    reveal_with_fuel(size_in, 2);
    assert(a.len() == 1 ==> a.drop_last() =~= Seq::empty());
    assert(b.len() == 1 ==> b.drop_last() =~= Seq::empty());
    assert(c.len() == 1 ==> c.drop_last() =~= Seq::empty());
    lemma_told_on(a, b);
    lemma_told_on(a + b, c);
    assert(output_in(a) =~= Seq::empty());
    assert(output_in(b) =~= Seq::empty());
    assert(output_in(c) =~= data);
    assert(output_in(all) =~= data);
}

/// What the client is told when a round is closed, as it reads it: nothing, unless
/// something pending is due and the server does not end at once.
#[verifier::opaque]
pub open spec fn told_at_close(s: ServerState, e: ServerEvent) -> Seq<
    host_message::HostInstructionView,
> {
    match e {
        ServerEvent::Closed { now, chaff, .. } => if s.verdict() != Verdict::NoClient
            && s.verdict() != Verdict::Ended && s.transport.due(now) == Due::Diff {
            match s.transport.instruction(Due::Diff, chaff).diff {
                Some(diff) => match host_message::decoded_host_message(diff) {
                    Some(m) => m.instruction,
                    None => Seq::empty(),
                },
                None => Seq::empty(),
            }
        } else {
            Seq::empty()
        },
        _ => Seq::empty(),
    }
}

/// What was read from the terminal by something that happened.
pub open spec fn read_by(e: ServerEvent) -> Seq<u8> {
    match e {
        ServerEvent::HostRead { output: Some(data), .. } => data,
        _ => Seq::empty(),
    }
}

/// What the client did, as far as something that happened delivered it.
#[verifier::opaque]
pub open spec fn done_by_client(s: ServerState, key: Seq<u8>, e: ServerEvent) -> Seq<
    transport::UserActionView,
> {
    match e {
        ServerEvent::Received { data, .. } => match s.transport.datagram_delivers(key, data) {
            Some(diff) => transport::user_actions(diff),
            None => Seq::empty(),
        },
        _ => Seq::empty(),
    }
}

/// The keys that were handed out to be typed.
pub open spec fn keys_of(e: ServerEvent) -> Seq<u8> {
    match e {
        ServerEvent::Received { input, .. } => input.keys@,
        _ => Seq::empty(),
    }
}

proof fn lemma_told_at_close(before: ServerState, key: Seq<u8>, e: ServerEvent, after: ServerState)
    requires
        happens(before, key, e, after),
        representable(before.transport),
        e is Closed,
    ensures
        ({
            let told = told_at_close(before, e);
            let s = before.transport;
            let t = after.transport;
            &&& output_in(told) + t.pending_output == s.pending_output
            &&& match echo_in(told) {
                Some(num) => s.pending_echo_ack == Some(num) && t.pending_echo_ack is None,
                None => t.pending_echo_ack == s.pending_echo_ack,
            }
            &&& match size_in(told) {
                Some(size) => s.pending_resize == Some(size) && t.pending_resize is None,
                None => t.pending_resize == s.pending_resize,
            }
            &&& t.input_history == s.input_history && t.echo_ack == s.echo_ack
            &&& t.received_state_num == s.received_state_num
            &&& after.round == before.round && after.last_remote_num == before.last_remote_num
        }),
{
    reveal(happens);
    reveal(told_at_close);
    let s = before.transport;
    let none = Seq::<u8>::empty();
    assert(none + after.transport.pending_output =~= after.transport.pending_output);
    match e {
        ServerEvent::Closed { now, chaff, .. } => {
            if before.verdict() != Verdict::NoClient && before.verdict() != Verdict::Ended
                && s.due(now) == Due::Diff {
                synchronization::law_client_reads_what_was_pending(s, chaff);
                law_client_is_told_what_is_given(
                    s.pending_output,
                    s.pending_echo_ack,
                    s.pending_resize,
                );
                assert(s.pending_output + none =~= s.pending_output);
            }
        },
        _ => {},
    }
}

#[verifier::rlimit(40)]
proof fn lemma_output_step(before: ServerState, key: Seq<u8>, e: ServerEvent, after: ServerState)
    requires
        happens(before, key, e, after),
        representable(before.transport),
    ensures
        output_in(told_at_close(before, e)) + after.transport.pending_output
            == before.transport.pending_output + read_by(e),
{
    reveal(happens);
    reveal(told_at_close);
    let none = Seq::<u8>::empty();
    assert(none + after.transport.pending_output =~= after.transport.pending_output);
    assert(before.transport.pending_output + none =~= before.transport.pending_output);
    if e is Closed {
        lemma_told_at_close(before, key, e, after);
    }
    match e {
        ServerEvent::HostRead { output: Some(data), now } => {
            assert(data.len() == 0 ==> before.transport.pending_output + data
                =~= before.transport.pending_output);
        },
        _ => {},
    }
}

/// All that was read from the terminal in the first `n` events, in order.
pub open spec fn all_read(events: Seq<ServerEvent>, n: nat) -> Seq<u8>
    decreases n,
{
    if n == 0 {
        Seq::empty()
    } else {
        all_read(events, (n - 1) as nat) + read_by(events[n - 1])
    }
}

/// All output that the client was sent in the first `n` events, in order.
pub open spec fn all_sent(states: Seq<ServerState>, events: Seq<ServerEvent>, n: nat) -> Seq<u8>
    decreases n,
{
    if n == 0 {
        Seq::empty()
    } else {
        all_sent(states, events, (n - 1) as nat) + output_in(
            told_at_close(states[n - 1], events[n - 1]),
        )
    }
}

proof fn lemma_in_order(
    sent: Seq<u8>,
    told: Seq<u8>,
    pending: Seq<u8>,
    before: Seq<u8>,
    first: Seq<u8>,
    read: Seq<u8>,
    more: Seq<u8>,
)
    requires
        sent + before == first + read,
        told + pending == before + more,
    ensures
        (sent + told) + pending == first + (read + more),
{
    assert((sent + told) + pending =~= sent + (told + pending));
    assert(sent + (before + more) =~= (sent + before) + more);
    assert((first + read) + more =~= first + (read + more));
}

/// Whatever happens in a session, the output that was put into instructions to
/// the client, one after the other, and what is still pending, are what was
/// pending at first and all that was read from the terminal since, in order.
pub proof fn law_output_comes_to_the_client(
    states: Seq<ServerState>,
    key: Seq<u8>,
    events: Seq<ServerEvent>,
    n: nat,
)
    requires
        is_session(states, key, events),
        n <= events.len(),
        forall|i: int| 0 <= i < n ==> representable((#[trigger] states[i]).transport),
    ensures
        all_sent(states, events, n) + states[n as int].transport.pending_output
            == states[0].transport.pending_output + all_read(events, n),
    decreases n,
{
    let first = states[0].transport.pending_output;
    if n == 0 {
        assert(all_sent(states, events, n) + first =~= first + all_read(events, n));
    } else {
        let k = n - 1;
        law_output_comes_to_the_client(states, key, events, k as nat);
        assert(happens(states[k], key, events[k], states[k + 1]));
        assert(representable(states[k].transport));
        lemma_output_step(states[k], key, events[k], states[k + 1]);
        lemma_in_order(
            all_sent(states, events, k as nat),
            output_in(told_at_close(states[k], events[k])),
            states[n as int].transport.pending_output,
            states[k].transport.pending_output,
            first,
            all_read(events, k as nat),
            read_by(events[k]),
        );
    }
}

#[verifier::rlimit(40)]
proof fn lemma_in_step(before: ServerState, key: Seq<u8>, e: ServerEvent, after: ServerState)
    requires
        happens(before, key, e, after),
        before.in_step(),
    ensures
        after.in_step(),
        e matches ServerEvent::Received { data, src, clock, input } ==> {
            let actions = done_by_client(before, key, e);
            &&& input.keys@ == server::typed(actions)
            &&& input.sizes@ == server::terminal_sizes(server::sizes(actions))
        },
        !(e is Received) ==> done_by_client(before, key, e).len() == 0,
{
    reveal(happens);
    reveal(done_by_client);
    match e {
        ServerEvent::Received { data, src, clock, input } => {
            server::law_delivered_input_is_new(
                before,
                key,
                data,
                src,
                clock.saved_at,
                clock.now16,
                clock.heard,
                clock.at,
            );
        },
        _ => {},
    }
}

/// All that the client did, as far as it was delivered in the first `n` events.
pub open spec fn all_done(
    states: Seq<ServerState>,
    key: Seq<u8>,
    events: Seq<ServerEvent>,
    n: nat,
) -> Seq<transport::UserActionView>
    decreases n,
{
    if n == 0 {
        Seq::empty()
    } else {
        all_done(states, key, events, (n - 1) as nat) + done_by_client(
            states[n - 1],
            key,
            events[n - 1],
        )
    }
}

/// All keys that were handed out to be typed in the first `n` events.
pub open spec fn all_keys(events: Seq<ServerEvent>, n: nat) -> Seq<u8>
    decreases n,
{
    if n == 0 {
        Seq::empty()
    } else {
        all_keys(events, (n - 1) as nat) + keys_of(events[n - 1])
    }
}

/// Whatever happens in a session, the keys that are handed out to be typed are
/// those that the client pressed, in order, as far as they were delivered.
pub proof fn law_keys_come_to_the_terminal(
    states: Seq<ServerState>,
    key: Seq<u8>,
    events: Seq<ServerEvent>,
    n: nat,
)
    requires
        is_session(states, key, events),
        states[0].in_step(),
        n <= events.len(),
    ensures
        states[n as int].in_step(),
        all_keys(events, n) == server::typed(all_done(states, key, events, n)),
    decreases n,
{
    if n > 0 {
        let k = n - 1;
        law_keys_come_to_the_terminal(states, key, events, k as nat);
        assert(happens(states[k], key, events[k], states[k + 1]));
        lemma_in_step(states[k], key, events[k], states[k + 1]);
        runs::law_typing_goes_on(
            all_done(states, key, events, k as nat),
            done_by_client(states[k], key, events[k]),
        );
        assert(server::typed(Seq::empty()) =~= Seq::empty());
        assert(keys_of(events[k]) == server::typed(done_by_client(states[k], key, events[k])));
    }
}

/// The echo acknowledgment that the client was told last, `start` before any.
pub open spec fn echo_told(
    states: Seq<ServerState>,
    events: Seq<ServerEvent>,
    start: u64,
    n: nat,
) -> u64
    decreases n,
{
    if n == 0 {
        start
    } else {
        match echo_in(told_at_close(states[n - 1], events[n - 1])) {
            Some(num) => num,
            None => echo_told(states, events, start, (n - 1) as nat),
        }
    }
}

/// Whether what is acknowledged as echoed is what the client is to be told, or was
/// told already.
pub open spec fn echo_agrees(t: TransportState, told: u64) -> bool {
    t.echo_ack == match t.pending_echo_ack {
        Some(num) => num,
        None => told,
    }
}

proof fn lemma_still_on_record(t: TransportState, now: u64, later: u64)
    requires
        synchronization::echo_on_record(t, now),
        now <= later,
    ensures
        synchronization::echo_on_record(t, later),
{
    if t.echo_ack != 0 {
        let i = choose|i: int|
            0 <= i < t.input_history.len() && (#[trigger] t.input_history[i]).0 == t.echo_ack
                && t.input_history[i].1 <= transport::shown_before(now);
        assert(t.input_history[i].1 <= transport::shown_before(later));
    }
}

proof fn lemma_look(s: ServerState, told_at: u64, told: u64)
    requires
        synchronization::echo_on_record(s.transport, s.round.now),
        echo_agrees(s.transport, told),
    ensures
        synchronization::echo_on_record(s.done_with_input(told_at).transport, s.round.now),
        echo_agrees(s.done_with_input(told_at).transport, told),
        s.done_with_input(told_at).round == s.round,
{
    let t = s.transport;
    let now = s.round.now;
    synchronization::law_echo_ack_never_falls(t, now, now, 0, 0);
    let u = t.with_echo_ack(now);
    let after = s.done_with_input(told_at).transport;
    assert(after.input_history == u.input_history);
    assert(after.echo_ack == u.echo_ack);
    lemma_same_record(u, after, now);
}

proof fn lemma_same_record(t: TransportState, u: TransportState, now: u64)
    requires
        synchronization::echo_on_record(t, now),
        u.input_history == t.input_history,
        u.echo_ack == t.echo_ack,
    ensures
        synchronization::echo_on_record(u, now),
{
    if t.echo_ack != 0 {
        let i = choose|i: int|
            0 <= i < t.input_history.len() && (#[trigger] t.input_history[i]).0 == t.echo_ack
                && t.input_history[i].1 <= transport::shown_before(now);
        assert(u.input_history[i].0 == u.echo_ack);
    }
}

#[verifier::rlimit(40)]
proof fn lemma_echo_step(
    before: ServerState,
    key: Seq<u8>,
    e: ServerEvent,
    after: ServerState,
    told: u64,
)
    requires
        happens(before, key, e, after),
        representable(before.transport),
        synchronization::echo_on_record(before.transport, before.round.now),
        echo_agrees(before.transport, told),
        e matches ServerEvent::Polled { now, .. } ==> now >= before.round.now,
    ensures
        synchronization::echo_on_record(after.transport, after.round.now),
        echo_agrees(
            after.transport,
            match echo_in(told_at_close(before, e)) {
                Some(num) => num,
                None => told,
            },
        ),
{
    reveal(happens);
    reveal(told_at_close);
    let t = before.transport;
    let now = before.round.now;
    match e {
        ServerEvent::Polled { now: later, network, readable, gone, told_at } => {
            lemma_still_on_record(t, now, later);
            let watched = !t.shutdown_in_progress;
            let woken = ServerState {
                round: server::Round { now: later, watched, readable, gone },
                ..before
            };
            if !network {
                lemma_look(woken, told_at, told);
            }
        },
        ServerEvent::Received { data, src, clock, input } => {
            let over = before.over(
                t.after_datagram(
                    key,
                    data,
                    src,
                    clock.saved_at,
                    clock.now16,
                    clock.heard,
                    clock.at,
                ),
            );
            lemma_same_record(t, over.transport, now);
            let taken_in = match t.datagram_delivers(key, data) {
                Some(diff) => over.after_diff(diff, now, clock.sized_at),
                None => over,
            };
            synchronization::law_echo_ack_never_falls(
                over.transport,
                now,
                now,
                over.transport.received_state_num,
                now,
            );
            assert(synchronization::echo_on_record(taken_in.transport, now)) by {
                let recorded = over.transport.with_input_frame(
                    over.transport.received_state_num,
                    now,
                );
                if taken_in.transport.input_history == recorded.input_history {
                    lemma_same_record(recorded, taken_in.transport, now);
                } else {
                    assert(taken_in.transport.input_history == over.transport.input_history);
                    lemma_same_record(over.transport, taken_in.transport, now);
                }
            }
            assert(echo_agrees(taken_in.transport, told));
            lemma_look(taken_in, clock.told_at, told);
        },
        ServerEvent::NothingReceived { told_at } => {
            lemma_look(before, told_at, told);
        },
        ServerEvent::Written { ok, told_at } => {
            lemma_same_record(t, before.ending().transport, now);
            lemma_look(before, told_at, told);
            lemma_look(before.ending(), told_at, told);
        },
        ServerEvent::HostRead { output, now: at } => {
            lemma_same_record(t, after.transport, now);
        },
        ServerEvent::ChildChecked { exited } => {
            lemma_same_record(t, after.transport, now);
        },
        ServerEvent::Closed { .. } => {
            lemma_told_at_close(before, key, e, after);
            lemma_same_record(t, after.transport, now);
        },
    }
}

/// Whatever happens in a session, as long as the clock does not go back between
/// rounds, what the client was last told to have been echoed, or is to be told
/// next, is what has been echoed.
pub proof fn law_client_learns_what_is_echoed(
    states: Seq<ServerState>,
    key: Seq<u8>,
    events: Seq<ServerEvent>,
    start: u64,
    n: nat,
)
    requires
        is_session(states, key, events),
        n <= events.len(),
        forall|i: int| 0 <= i < n ==> representable((#[trigger] states[i]).transport),
        forall|i: int|
            0 <= i < n ==> (#[trigger] events[i] matches ServerEvent::Polled { now, .. } ==> now
                >= states[i].round.now),
        synchronization::echo_on_record(states[0].transport, states[0].round.now),
        echo_agrees(states[0].transport, start),
    ensures
        synchronization::echo_on_record(states[n as int].transport, states[n as int].round.now),
        echo_agrees(states[n as int].transport, echo_told(states, events, start, n)),
    decreases n,
{
    if n > 0 {
        let k = n - 1;
        law_client_learns_what_is_echoed(states, key, events, start, k as nat);
        assert(happens(states[k], key, events[k], states[k + 1]));
        assert(representable(states[k].transport));
        lemma_echo_step(
            states[k],
            key,
            events[k],
            states[k + 1],
            echo_told(states, events, start, k as nat),
        );
    }
}

/// The size that the client was told last, `start` before any.
pub open spec fn size_told(
    states: Seq<ServerState>,
    events: Seq<ServerEvent>,
    start: Option<(i32, i32)>,
    n: nat,
) -> Option<(i32, i32)>
    decreases n,
{
    if n == 0 {
        start
    } else {
        match size_in(told_at_close(states[n - 1], events[n - 1])) {
            Some(size) => Some(size),
            None => size_told(states, events, start, (n - 1) as nat),
        }
    }
}

/// The size that the client gave its window last, as far as was delivered, `start`
/// before any.
pub open spec fn size_given(
    states: Seq<ServerState>,
    key: Seq<u8>,
    events: Seq<ServerEvent>,
    start: Option<(i32, i32)>,
    n: nat,
) -> Option<(i32, i32)>
    decreases n,
{
    if n == 0 {
        start
    } else {
        match effects::last_size(done_by_client(states[n - 1], key, events[n - 1])) {
            Some(size) => Some(size),
            None => size_given(states, key, events, start, (n - 1) as nat),
        }
    }
}

/// The size that the terminal was given last, `start` before any.
pub open spec fn size_set(
    events: Seq<ServerEvent>,
    start: Option<(u16, u16)>,
    n: nat,
) -> Option<(u16, u16)>
    decreases n,
{
    if n == 0 {
        start
    } else {
        match events[n - 1] {
            ServerEvent::Received { input, .. } => if input.sizes@.len() > 0 {
                Some(input.sizes@.last())
            } else {
                size_set(events, start, (n - 1) as nat)
            },
            _ => size_set(events, start, (n - 1) as nat),
        }
    }
}

/// Whether the size that the client gave is what it is to be told, or was told
/// already.
pub open spec fn size_agrees(
    t: TransportState,
    told: Option<(i32, i32)>,
    given: Option<(i32, i32)>,
) -> bool {
    given == match t.pending_resize {
        Some(size) => Some(size),
        None => told,
    }
}

/// Whether a size of the terminal is the one that the client gave, in 16 bits for
/// each side.
pub open spec fn same_size(set: Option<(u16, u16)>, given: Option<(i32, i32)>) -> bool {
    match (set, given) {
        (Some((columns, rows)), Some((w, h))) => columns == w as int % 0x1_0000 && rows == h as int
            % 0x1_0000,
        (None, None) => true,
        _ => false,
    }
}

#[verifier::rlimit(40)]
proof fn lemma_size_step(
    before: ServerState,
    key: Seq<u8>,
    e: ServerEvent,
    after: ServerState,
    told: Option<(i32, i32)>,
    given: Option<(i32, i32)>,
)
    requires
        happens(before, key, e, after),
        representable(before.transport),
        before.in_step(),
        size_agrees(before.transport, told, given),
    ensures
        size_agrees(
            after.transport,
            match size_in(told_at_close(before, e)) {
                Some(size) => Some(size),
                None => told,
            },
            match effects::last_size(done_by_client(before, key, e)) {
                Some(size) => Some(size),
                None => given,
            },
        ),
{
    reveal(happens);
    reveal(told_at_close);
    reveal(done_by_client);
    assert(effects::last_size(Seq::empty()) is None);
    match e {
        ServerEvent::Received { data, src, clock, input } => {
            let t = before.transport;
            server::law_delivered_input_is_new(
                before,
                key,
                data,
                src,
                clock.saved_at,
                clock.now16,
                clock.heard,
                clock.at,
            );
            let over = before.over(
                t.after_datagram(
                    key,
                    data,
                    src,
                    clock.saved_at,
                    clock.now16,
                    clock.heard,
                    clock.at,
                ),
            );
            assert(over.transport.pending_resize == t.pending_resize);
            if let Some(diff) = t.datagram_delivers(key, data) {
                effects::lemma_last_size(transport::user_actions(diff));
                let taken_in = over.after_diff(diff, before.round.now, clock.sized_at);
                assert(after.transport.pending_resize == taken_in.transport.pending_resize);
            }
        },
        ServerEvent::Closed { .. } => {
            lemma_told_at_close(before, key, e, after);
        },
        _ => {},
    }
}

/// Whatever happens in a session, the size that the client gave its window last is
/// the one that the terminal was given last, and the one that the client was last
/// told, or is to be told next: width for width and height for height.
pub proof fn law_sizes_agree(
    states: Seq<ServerState>,
    key: Seq<u8>,
    events: Seq<ServerEvent>,
    told: Option<(i32, i32)>,
    given: Option<(i32, i32)>,
    set: Option<(u16, u16)>,
    n: nat,
)
    requires
        is_session(states, key, events),
        n <= events.len(),
        forall|i: int| 0 <= i < n ==> representable((#[trigger] states[i]).transport),
        states[0].in_step(),
        size_agrees(states[0].transport, told, given),
        same_size(set, given),
    ensures
        size_agrees(
            states[n as int].transport,
            size_told(states, events, told, n),
            size_given(states, key, events, given, n),
        ),
        same_size(size_set(events, set, n), size_given(states, key, events, given, n)),
    decreases n,
{
    if n > 0 {
        let k = n - 1;
        law_sizes_agree(states, key, events, told, given, set, k as nat);
        law_keys_come_to_the_terminal(states, key, events, k as nat);
        assert(happens(states[k], key, events[k], states[k + 1]));
        assert(representable(states[k].transport));
        lemma_in_step(states[k], key, events[k], states[k + 1]);
        lemma_size_step(
            states[k],
            key,
            events[k],
            states[k + 1],
            size_told(states, events, told, k as nat),
            size_given(states, key, events, given, k as nat),
        );
        effects::lemma_last_size(done_by_client(states[k], key, events[k]));
    }
}

} // verus!
