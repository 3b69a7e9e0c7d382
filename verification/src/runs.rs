//! What holds over whole runs, of any length: of a connection that sends and
//! receives, of the instructions of a client, and of the input that is echoed.

use vstd::prelude::*;

use crate::messages;
use crate::network::{self, ConnState, RemoteAddr};
use crate::server;
use crate::synchronization;
use crate::transport::{self, TransportState};

verus! {

/// One thing that happens to a connection.
pub enum ConnEvent {
    /// A payload is handed to it, with the clock at `now` and `now16`.
    Send { payload: Seq<u8>, now: u64, now16: u16 },
    /// A datagram comes from `src`, with the clock at `saved_at`, `now16` and
    /// `heard`.
    Receive { data: Seq<u8>, src: RemoteAddr, saved_at: u64, now16: u16, heard: u64 },
}

/// The connection after one thing happened.
pub open spec fn conn_step(c: ConnState, key: Seq<u8>, e: ConnEvent) -> ConnState {
    match e {
        ConnEvent::Send { payload, now, now16 } => c.after_send(payload, now),
        ConnEvent::Receive { data, src, saved_at, now16, heard } => c.after_datagram(
            key,
            data,
            src,
            saved_at,
            now16,
            heard,
        ),
    }
}

/// The connection after the first `n` of some things happened.
pub open spec fn conn_after(c: ConnState, key: Seq<u8>, events: Seq<ConnEvent>, n: nat) -> ConnState
    decreases n,
{
    if n == 0 {
        c
    } else {
        conn_step(conn_after(c, key, events, (n - 1) as nat), key, events[n - 1])
    }
}

/// Whether handing over a payload makes a datagram.
pub open spec fn sends(c: ConnState, key: Seq<u8>, e: ConnEvent) -> bool {
    e matches ConnEvent::Send { payload, now, now16 } && c.outgoing(key, payload, now, now16)
        is Datagram
}

/// The nonce of the packet that is made of a payload.
pub open spec fn nonce_used(c: ConnState, e: ConnEvent) -> Seq<u8> {
    match e {
        ConnEvent::Send { payload, now, now16 } => c.packet(payload, now, now16).nonce(),
        _ => Seq::empty(),
    }
}

proof fn lemma_counter(c: ConnState, key: Seq<u8>, events: Seq<ConnEvent>, m: nat, n: nat)
    requires
        m <= n,
        conn_after(c, key, events, m).seq_counter + (n - m) < u64::MAX,
    ensures
        conn_after(c, key, events, m).seq_counter <= conn_after(c, key, events, n).seq_counter,
        conn_after(c, key, events, n).seq_counter <= conn_after(c, key, events, m).seq_counter + (n
            - m),
    decreases n - m,
{
    if m < n {
        lemma_counter(c, key, events, m, (n - 1) as nat);
    }
}

proof fn lemma_sending_counts(c: ConnState, key: Seq<u8>, e: ConnEvent)
    requires
        sends(c, key, e),
        c.seq_counter < u64::MAX,
    ensures
        conn_step(c, key, e).seq_counter == c.seq_counter + 1,
{
}

proof fn lemma_different_nonces(a: ConnState, b: ConnState, e: ConnEvent, f: ConnEvent)
    requires
        a.seq_counter < b.seq_counter < 0x7fff_ffff_ffff_ffff,
        e is Send,
        f is Send,
    ensures
        nonce_used(a, e) != nonce_used(b, f),
{
    match (e, f) {
        (
            ConnEvent::Send { payload, now, now16 },
            ConnEvent::Send { payload: other, now: later, now16: later16 },
        ) => {
            network::law_nonces_are_not_reused(a, b, payload, other, now, later, now16, later16);
        },
        _ => {},
    }
}

/// No two datagrams of a run go under the same nonce, whatever is received
/// between them, as long as 63 bits are enough to count them.
pub proof fn law_no_nonce_is_used_twice(
    c: ConnState,
    key: Seq<u8>,
    events: Seq<ConnEvent>,
    i: nat,
    j: nat,
)
    requires
        i < j < events.len(),
        c.seq_counter + events.len() < 0x7fff_ffff_ffff_ffff,
        sends(conn_after(c, key, events, i), key, events[i as int]),
        sends(conn_after(c, key, events, j), key, events[j as int]),
    ensures
        nonce_used(conn_after(c, key, events, i), events[i as int]) != nonce_used(
            conn_after(c, key, events, j),
            events[j as int],
        ),
{
    let a = conn_after(c, key, events, i);
    let b = conn_after(c, key, events, j);
    assert(a.seq_counter < b.seq_counter < 0x7fff_ffff_ffff_ffff) by {
        lemma_counter(c, key, events, 0, i);
        lemma_counter(c, key, events, 0, j);
        lemma_sending_counts(a, key, events[i as int]);
        assert(conn_after(c, key, events, i + 1) == conn_step(a, key, events[i as int]));
        lemma_counter(c, key, events, i + 1, j);
    }
    lemma_different_nonces(a, b, events[i as int], events[j as int]);
}

/// Whether handing over a payload answers a timestamp of the client.
pub open spec fn answers(c: ConnState, e: ConnEvent) -> bool {
    e matches ConnEvent::Send { payload, now, now16 } && c.remote_addr is Some && !c.client_gone(
        now,
    ) && c.answers_timestamp(now)
}

/// Whether a datagram brings a timestamp to be answered.
pub open spec fn brings_timestamp(c: ConnState, key: Seq<u8>, e: ConnEvent) -> bool {
    match e {
        ConnEvent::Receive { data, .. } => match c.accepted(key, data) {
            Some(p) => c.in_order(p) && p.timestamp != network::NO_TIMESTAMP,
            None => false,
        },
        _ => false,
    }
}

proof fn lemma_nothing_to_answer(
    c: ConnState,
    key: Seq<u8>,
    events: Seq<ConnEvent>,
    i: nat,
    n: nat,
)
    requires
        i < n <= events.len(),
        answers(conn_after(c, key, events, i), events[i as int]),
        forall|k: nat|
            i < k < n ==> !brings_timestamp(
                #[trigger] conn_after(c, key, events, k),
                key,
                events[k as int],
            ),
    ensures
        conn_after(c, key, events, n).saved_timestamp == network::NO_TIMESTAMP,
    decreases n,
{
    let k = (n - 1) as nat;
    assert(conn_after(c, key, events, n) == conn_step(
        conn_after(c, key, events, k),
        key,
        events[k as int],
    ));
    if i < k {
        lemma_nothing_to_answer(c, key, events, i, k);
        assert(!brings_timestamp(conn_after(c, key, events, k), key, events[k as int]));
    }
}

/// Each timestamp of the client is answered once at most: between two answers a
/// timestamp came.
pub proof fn law_timestamp_is_answered_once(
    c: ConnState,
    key: Seq<u8>,
    events: Seq<ConnEvent>,
    i: nat,
    j: nat,
)
    requires
        i < j < events.len(),
        answers(conn_after(c, key, events, i), events[i as int]),
        answers(conn_after(c, key, events, j), events[j as int]),
    ensures
        exists|k: nat|
            i < k < j && brings_timestamp(
                #[trigger] conn_after(c, key, events, k),
                key,
                events[k as int],
            ),
{
    if !(exists|k: nat|
        i < k < j && brings_timestamp(
            #[trigger] conn_after(c, key, events, k),
            key,
            events[k as int],
        )) {
        lemma_nothing_to_answer(c, key, events, i, j);
    }
}

/// When a client was heard last in the first `n` of some things that happened, and
/// where from: with each genuine packet to the server whose number is not below
/// those of the packets before it.
pub open spec fn heard_last(
    c: ConnState,
    key: Seq<u8>,
    events: Seq<ConnEvent>,
    n: nat,
) -> Option<(u64, RemoteAddr)>
    decreases n,
{
    if n == 0 {
        None
    } else {
        let k = (n - 1) as nat;
        let before = heard_last(c, key, events, k);
        match events[k as int] {
            ConnEvent::Receive { data, src, heard, .. } => match conn_after(
                c,
                key,
                events,
                k,
            ).accepted(key, data) {
                Some(p) => if p.seq >= conn_after(c, key, events, k).expected_receiver_seq {
                    Some((heard, src))
                } else {
                    before
                },
                None => before,
            },
            ConnEvent::Send { .. } => before,
        }
    }
}

/// Whether the `n`th of some things that happened is not a payload that comes more
/// than forty seconds after the client was heard last.
pub open spec fn in_time(c: ConnState, key: Seq<u8>, events: Seq<ConnEvent>, n: nat) -> bool {
    match (events[n as int], heard_last(c, key, events, n)) {
        (ConnEvent::Send { now, .. }, Some((heard, src))) => heard <= now <= heard + 40000,
        _ => true,
    }
}

/// A client that is heard is kept, at the address from which it was heard last, as
/// long as no payload is handed over more than forty seconds after that, whatever
/// else is sent and received: every such payload goes to it, unless it is refused.
/// The next one that is later than that finds it gone.
#[verifier::rlimit(40)]
pub proof fn law_client_is_kept_while_it_is_heard(
    c: ConnState,
    key: Seq<u8>,
    events: Seq<ConnEvent>,
    n: nat,
    payload: Seq<u8>,
    now: u64,
    now16: u16,
)
    requires
        n <= events.len(),
        forall|i: nat| i < n ==> #[trigger] in_time(c, key, events, i),
    ensures
        heard_last(c, key, events, n) matches Some((heard, src)) ==> {
            let d = conn_after(c, key, events, n);
            let out = d.outgoing(key, payload, now, now16);
            &&& d.last_heard == heard
            &&& d.remote_addr == Some(src)
            &&& heard <= now <= heard + 40000 ==> out is Refused || (out matches
                network::OutgoingView::Datagram { to, .. } && to == src)
            &&& now > heard + 40000 && heard > 0 ==> out is Detached
        },
    decreases n,
{
    if n > 0 {
        let k = (n - 1) as nat;
        law_client_is_kept_while_it_is_heard(c, key, events, k, payload, now, now16);
        assert(in_time(c, key, events, k));
        let d = conn_after(c, key, events, k);
        match events[k as int] {
            ConnEvent::Receive { data, src, saved_at, now16, heard } => {
                if let Some(p) = d.accepted(key, data) {
                    if p.seq >= d.expected_receiver_seq {
                        assert(d.in_order(p));
                    }
                }
            },
            ConnEvent::Send { .. } => {},
        }
    }
}

/// Whether each of some instructions of a client adds something to its input, and
/// leads from the state that the one before led to, the first one from `start`,
/// to a newer one.
pub open spec fn one_after_another(
    insts: Seq<messages::InstructionView>,
    nums: Seq<u64>,
    start: u64,
) -> bool {
    &&& nums.len() == insts.len() + 1
    &&& nums[0] == start
    &&& forall|a: int, b: int|
        0 <= a < b < nums.len() ==> #[trigger] nums[a] < #[trigger] nums[b]
    &&& forall|a: int| 0 <= a < nums.len() ==> #[trigger] nums[a] < u64::MAX
    &&& forall|i: int|
        0 <= i < insts.len() ==> {
            let inst = #[trigger] insts[i];
            &&& inst.protocol_version == Some(transport::MOSH_PROTOCOL_VERSION)
            &&& inst.old_num == Some(nums[i])
            &&& inst.new_num == Some(nums[i + 1])
            &&& inst.diff matches Some(diff) && diff.len() > 0
        }
}

/// The transport after the instructions with the given indices came, in order.
pub open spec fn after_instructions(
    t: TransportState,
    insts: Seq<messages::InstructionView>,
    order: Seq<int>,
    times: Seq<u64>,
) -> TransportState
    decreases order.len(),
{
    if order.len() == 0 {
        t
    } else {
        after_instructions(t, insts, order.drop_last(), times.drop_last()).after_instruction(
            insts[order.last()],
            times.last(),
        )
    }
}

/// What the instructions with the given indices delivered, one by one.
pub open spec fn all_delivered(
    t: TransportState,
    insts: Seq<messages::InstructionView>,
    order: Seq<int>,
    times: Seq<u64>,
) -> Seq<Seq<u8>>
    decreases order.len(),
{
    if order.len() == 0 {
        Seq::empty()
    } else {
        let before = all_delivered(t, insts, order.drop_last(), times.drop_last());
        match after_instructions(t, insts, order.drop_last(), times.drop_last()).delivered(
            insts[order.last()],
        ) {
            Some(diff) => before.push(diff),
            None => before,
        }
    }
}

/// How many of the instructions came each after the one before it.
pub open spec fn reached(order: Seq<int>) -> nat
    decreases order.len(),
{
    if order.len() == 0 {
        0
    } else if order.last() == reached(order.drop_last()) {
        reached(order.drop_last()) + 1
    } else {
        reached(order.drop_last())
    }
}

/// However the instructions of a client come, lost, late or repeated, what is
/// delivered is its input from the start, in order and each part once, as far as
/// the instructions came one after another.
pub proof fn law_input_is_delivered_in_order(
    t: TransportState,
    insts: Seq<messages::InstructionView>,
    nums: Seq<u64>,
    order: Seq<int>,
    times: Seq<u64>,
)
    requires
        one_after_another(insts, nums, t.received_state_num),
        forall|j: int| 0 <= j < order.len() ==> 0 <= #[trigger] order[j] < insts.len(),
    ensures
        reached(order) <= insts.len(),
        after_instructions(t, insts, order, times).received_state_num == nums[reached(
            order,
        ) as int],
        all_delivered(t, insts, order, times) == Seq::new(
            reached(order),
            |i: int| insts[i].diff->0,
        ),
    decreases order.len(),
{
    let got = all_delivered(t, insts, order, times);
    let want = Seq::new(reached(order), |i: int| insts[i].diff->0);
    if order.len() == 0 {
        assert(got =~= want);
    } else {
        let before = order.drop_last();
        let k = order.last();
        let r = reached(before) as int;
        assert forall|j: int| 0 <= j < before.len() implies 0 <= #[trigger] before[j]
            < insts.len() by {
            assert(before[j] == order[j]);
        }
        law_input_is_delivered_in_order(t, insts, nums, before, times.drop_last());
        assert(k == order[order.len() - 1]);
        let inst = insts[k];
        let s = after_instructions(t, insts, before, times.drop_last());
        assert(nums[k] < nums[k + 1]);
        assert(nums[k + 1] < u64::MAX);
        if k == r {
            assert(s.delivered(inst) == inst.diff);
        } else if k < r {
            assert(nums[k + 1] <= nums[r]) by {
                if k + 1 < r {
                    assert(nums[k + 1] < nums[r]);
                }
            }
            assert(s.delivered(inst) is None);
        } else {
            assert(nums[r] < nums[k]);
            assert(s.delivered(inst) is None);
        }
        assert(got =~= want);
    }
}

/// What is typed for two differences of the input, one after the other, is what
/// is typed for each; and so it is with sizes.
pub proof fn law_typing_goes_on(
    a: Seq<transport::UserActionView>,
    b: Seq<transport::UserActionView>,
)
    ensures
        server::typed(a + b) == server::typed(a) + server::typed(b),
        server::sizes(a + b) == server::sizes(a) + server::sizes(b),
    decreases b.len(),
{
    if b.len() == 0 {
        assert(a + b =~= a);
        assert(server::typed(a) + server::typed(b) =~= server::typed(a));
        assert(server::sizes(a) + server::sizes(b) =~= server::sizes(a));
    } else {
        law_typing_goes_on(a, b.drop_last());
        assert((a + b).drop_last() =~= a + b.drop_last());
        assert((a + b).last() == b.last());
        assert(server::typed(a + b) =~= server::typed(a) + server::typed(b));
        assert(server::sizes(a + b) =~= server::sizes(a) + server::sizes(b));
    }
}

/// What a look at the input at an earlier time forgets makes no difference later,
/// whatever input comes after it.
pub proof fn law_forgetting_changes_nothing(
    history: Seq<(u64, u64)>,
    more: Seq<(u64, u64)>,
    cutoff: u64,
    later: u64,
)
    requires
        cutoff <= later,
    ensures
        transport::newest_shown(
            transport::kept_frames(history, transport::newest_shown(history, cutoff)) + more,
            later,
        ) == transport::newest_shown(history + more, later),
{
    let newest = transport::newest_shown(history, cutoff);
    let kept = transport::kept_frames(history, newest);
    let x = kept + more;
    let y = history + more;
    let a = transport::newest_shown(x, later);
    let b = transport::newest_shown(y, later);
    synchronization::law_newest_shown(history, cutoff);
    synchronization::law_newest_shown(x, later);
    synchronization::law_newest_shown(y, later);
    if a != 0 {
        let i = choose|i: int| 0 <= i < x.len() && (#[trigger] x[i]).1 <= later && x[i].0 == a;
        if i < kept.len() {
            assert(kept[i] == x[i]);
            assert(kept.contains(x[i]));
            synchronization::law_kept_frames(history, newest, x[i]);
            let k = choose|k: int| 0 <= k < history.len() && history[k] == x[i];
            assert(y[k] == x[i]);
        } else {
            assert(y[i - kept.len() + history.len()] == x[i]);
        }
        assert(a <= b);
    }
    if b != 0 {
        let i = choose|i: int| 0 <= i < y.len() && (#[trigger] y[i]).1 <= later && y[i].0 == b;
        if i < history.len() {
            assert(history[i] == y[i]);
            if b < newest {
                let k = choose|k: int|
                    0 <= k < history.len() && (#[trigger] history[k]).1 <= cutoff && history[k].0
                        == newest;
                assert(y[k] == history[k]);
                assert(false);
            }
            assert(history.contains(y[i]));
            synchronization::law_kept_frames(history, newest, y[i]);
            let k = choose|k: int| 0 <= k < kept.len() && kept[k] == y[i];
            assert(x[k] == y[i]);
        } else {
            assert(x[i - history.len() + kept.len()] == y[i]);
        }
        assert(b <= a);
    }
}

/// One thing that happens to the record of the input.
pub enum EchoEvent {
    /// A state of the input comes at a time.
    Frame(u64, u64),
    /// It is found out what has had time to show at a time.
    Look(u64),
}

/// The transport after such things happened.
pub open spec fn echo_after(t: TransportState, events: Seq<EchoEvent>) -> TransportState
    decreases events.len(),
{
    if events.len() == 0 {
        t
    } else {
        let s = echo_after(t, events.drop_last());
        match events.last() {
            EchoEvent::Frame(num, at) => s.with_input_frame(num, at),
            EchoEvent::Look(now) => s.with_echo_ack(now),
        }
    }
}

/// All states of the input that came, each with its time.
pub open spec fn frames_of(events: Seq<EchoEvent>) -> Seq<(u64, u64)>
    decreases events.len(),
{
    if events.len() == 0 {
        Seq::empty()
    } else {
        match events.last() {
            EchoEvent::Frame(num, at) => frames_of(events.drop_last()).push((num, at)),
            EchoEvent::Look(_) => frames_of(events.drop_last()),
        }
    }
}

proof fn lemma_record_is_enough(
    t: TransportState,
    events: Seq<EchoEvent>,
    more: Seq<(u64, u64)>,
    later: u64,
)
    requires
        forall|i: int|
            0 <= i < events.len() ==> (#[trigger] events[i] matches EchoEvent::Look(now)
                ==> transport::shown_before(now) <= later),
    ensures
        transport::newest_shown(echo_after(t, events).input_history + more, later)
            == transport::newest_shown(t.input_history + frames_of(events) + more, later),
    decreases events.len(),
{
    if events.len() == 0 {
        assert(t.input_history + frames_of(events) + more =~= t.input_history + more);
    } else {
        let before = events.drop_last();
        let s = echo_after(t, before);
        assert forall|i: int| 0 <= i < before.len() implies (#[trigger] before[i] matches
            EchoEvent::Look(now) ==> transport::shown_before(now) <= later) by {
            assert(before[i] == events[i]);
        }
        assert(events.last() == events[events.len() - 1]);
        match events.last() {
            EchoEvent::Frame(num, at) => {
                let longer = seq![(num, at)] + more;
                lemma_record_is_enough(t, before, longer, later);
                assert(echo_after(t, events).input_history + more =~= s.input_history + longer);
                assert(t.input_history + frames_of(events) + more =~= t.input_history + frames_of(
                    before,
                ) + longer);
            },
            EchoEvent::Look(now) => {
                lemma_record_is_enough(t, before, more, later);
                law_forgetting_changes_nothing(
                    s.input_history,
                    more,
                    transport::shown_before(now),
                    later,
                );
            },
        }
    }
}

/// What is said to be echoed is the newest of all states of the input that ever
/// came and have had time to show, whatever was forgotten on the way, as long as
/// no earlier look was at a later time.
pub proof fn law_echo_is_over_all_input(t: TransportState, events: Seq<EchoEvent>, now: u64)
    requires
        forall|i: int|
            0 <= i < events.len() ==> (#[trigger] events[i] matches EchoEvent::Look(then)
                ==> then <= now),
    ensures
        echo_after(t, events).with_echo_ack(now).echo_ack == transport::newest_shown(
            t.input_history + frames_of(events),
            transport::shown_before(now),
        ),
{
    let s = echo_after(t, events);
    let none = Seq::<(u64, u64)>::empty();
    lemma_record_is_enough(t, events, none, transport::shown_before(now));
    assert(s.input_history + none =~= s.input_history);
    assert(t.input_history + frames_of(events) + none =~= t.input_history + frames_of(events));
}

} // verus!
