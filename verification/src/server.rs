//! What the server decides as it passes data between the client and the terminal:
//! how long to sleep, what to do with input and output, and when to end.
//!
//! The server goes round: it sleeps until something happens, takes a datagram in,
//! types what the client typed, reads the terminal, looks after the program in
//! it, and sends what is due. What it waits for is its phase; the caller does
//! that and tells the server how it went.

use vstd::prelude::*;

use crate::crypto;
use crate::network::{self, timestamp, RemoteAddr, RttSample};
use crate::octets::push_all;
use crate::transport::{self, parse_user_actions, Sending, ServerTransport, UserAction};

verus! {

/// How long the server sleeps at most, in milliseconds.
pub const MAX_SLEEP: u64 = 5000;

/// How long the server waits for its first client, in milliseconds.
pub const TIMEOUT_NO_CLIENT: u64 = 60000;

/// The size of the terminal before the client told its own.
pub const INITIAL_COLUMNS: u16 = 80;

/// See [`INITIAL_COLUMNS`].
pub const INITIAL_ROWS: u16 = 24;

/// What the server waits for.
#[derive(Clone, Copy, PartialEq, Eq, Structural)]
pub enum Phase {
    /// Something to happen: see [`Server::poll_plan`].
    Asleep,
    /// A datagram to be received.
    Network,
    /// Keys to be written to the terminal.
    Typing,
    /// The terminal to be read.
    Host,
    /// The program in the terminal to be looked after.
    Child,
    /// The round to be closed.
    Closing,
    /// Nothing: the server has ended.
    Over,
}

/// What was seen at the start of a round.
#[derive(Clone, Copy)]
pub struct Round {
    /// When it started.
    pub now: u64,
    /// Whether the terminal was watched.
    pub watched: bool,
    /// Whether there was something to read from the terminal.
    pub readable: bool,
    /// Whether the terminal was gone.
    pub gone: bool,
}

/// What the server knows.
#[verifier::ext_equal]
pub struct ServerState {
    pub transport: transport::TransportState,
    pub last_remote_num: u64,
    pub child_exited: bool,
    pub startup_time: u64,
    pub phase: Phase,
    pub round: Round,
}

/// What to wait for, and how long, in milliseconds.
#[derive(Clone, Copy, PartialEq, Eq, Structural)]
pub struct PollPlan {
    pub timeout: u64,
    /// Whether to watch the terminal as well as the network.
    pub watch_host: bool,
}

/// What a datagram of the client brought.
pub struct ClientInput {
    /// The keys to write to the terminal.
    pub keys: Vec<u8>,
    /// The sizes to give the terminal, as columns and rows, in order.
    pub sizes: Vec<(u16, u16)>,
    /// The round trip that the datagram tells of, if it does.
    pub rtt: Option<RttSample>,
    /// Whether it came from another address than the ones before.
    pub attached: bool,
}

/// What to do with the terminal.
#[derive(Clone, Copy, PartialEq, Eq, Structural)]
pub enum HostAction {
    /// Nothing.
    Leave,
    /// Its output is to be read.
    Read,
    /// It is gone.
    End,
}

/// What to do at the end of a round.
#[derive(Clone, Copy, PartialEq, Eq, Structural)]
pub enum Verdict {
    /// End: no client came in time.
    NoClient,
    /// End: the client knows, or was told often enough, that the server ends.
    Ended,
    /// Send what is due, then end: the client ended the session.
    LastTick,
    /// Send what is due, and go on.
    GoOn,
}

/// The keys among some actions, one after the other.
pub open spec fn typed(actions: Seq<transport::UserActionView>) -> Seq<u8>
    decreases actions.len(),
{
    if actions.len() == 0 {
        Seq::empty()
    } else {
        typed(actions.drop_last()) + match actions.last() {
            transport::UserActionView::Keystroke(keys) => keys,
            transport::UserActionView::Resize(..) => Seq::empty(),
        }
    }
}

/// The sizes among some actions, in order.
pub open spec fn sizes(actions: Seq<transport::UserActionView>) -> Seq<(i32, i32)>
    decreases actions.len(),
{
    if actions.len() == 0 {
        Seq::empty()
    } else {
        match actions.last() {
            transport::UserActionView::Keystroke(_) => sizes(actions.drop_last()),
            transport::UserActionView::Resize(w, h) => sizes(actions.drop_last()).push((w, h)),
        }
    }
}

/// A side of the terminal, in the 16 bits that the terminal has for it.
pub open spec fn side(v: i32) -> u16 {
    (v as int % 0x1_0000) as u16
}

/// Sizes as the terminal takes them.
pub open spec fn terminal_sizes(s: Seq<(i32, i32)>) -> Seq<(u16, u16)> {
    Seq::new(s.len(), |i: int| (side(s[i].0), side(s[i].1)))
}

/// The content of what was read from the terminal.
pub open spec fn read_view(output: Option<&[u8]>) -> Option<Seq<u8>> {
    match output {
        Some(data) => Some(data@),
        None => None,
    }
}

impl ServerState {
    /// The server before its first client, started at `now`.
    pub open spec fn initial(transport: transport::TransportState, now: u64) -> ServerState {
        ServerState {
            transport,
            last_remote_num: 0,
            child_exited: false,
            startup_time: now,
            phase: Phase::Asleep,
            round: Round { now, watched: false, readable: false, gone: false },
        }
    }

    /// The server in another phase.
    pub open spec fn in_phase(self, phase: Phase) -> ServerState {
        ServerState { phase, ..self }
    }

    /// Whether the server has taken in no newer input than came.
    pub open spec fn in_step(self) -> bool {
        self.last_remote_num <= self.transport.received_state_num
    }

    /// The server over another state of its transport.
    pub open spec fn over(self, transport: transport::TransportState) -> ServerState {
        ServerState { transport, ..self }
    }

    /// What to wait for at `now`. A terminal that is gone is not watched.
    pub open spec fn poll_plan(self, now: u64) -> PollPlan {
        PollPlan {
            timeout: transport::earlier(self.transport.wait_time(now), MAX_SLEEP),
            watch_host: !self.transport.shutdown_in_progress,
        }
    }

    /// The actions of the client in a difference of its input that is new.
    pub open spec fn new_actions(self, diff: Seq<u8>) -> Seq<transport::UserActionView> {
        if self.transport.received_state_num != self.last_remote_num {
            transport::user_actions(diff)
        } else {
            Seq::empty()
        }
    }

    /// The server after a difference of the client's input, at `now`, with sizes
    /// taken in at `sized_at`. The last size counts.
    pub open spec fn after_diff(self, diff: Seq<u8>, now: u64, sized_at: u64) -> ServerState {
        let actions = self.new_actions(diff);
        let num = self.transport.received_state_num;
        let sized = if sizes(actions).len() > 0 {
            let (w, h) = sizes(actions).last();
            self.transport.with_pending_resize(w, h, sized_at)
        } else {
            self.transport
        };
        ServerState {
            transport: if actions.len() > 0 {
                sized.with_input_frame(num, now)
            } else {
                sized
            },
            last_remote_num: num,
            ..self
        }
    }

    /// The server after it was found out, at `now`, what has been echoed, with
    /// the client to be told of that from `told_at` on.
    pub open spec fn after_echo(self, now: u64, told_at: u64) -> ServerState {
        let t = self.transport.with_echo_ack(now);
        self.over(
            if t.echo_ack != self.transport.echo_ack && t.echo_ack > 0 {
                t.with_pending_echo_ack(t.echo_ack, told_at)
            } else {
                t
            },
        )
    }

    /// The server after the terminal, or the program in it, was found to be gone.
    pub open spec fn ending(self) -> ServerState {
        self.over(self.transport.shutting_down())
    }

    /// What to do with the terminal, as it was seen at the start of the round.
    pub open spec fn host_action(self) -> HostAction {
        if self.transport.shutdown_in_progress || !self.round.watched {
            HostAction::Leave
        } else if self.round.readable {
            HostAction::Read
        } else if self.round.gone {
            HostAction::End
        } else {
            HostAction::Leave
        }
    }

    /// The server once it is done with the terminal.
    pub open spec fn done_with_host(self) -> ServerState {
        if self.asks_for_child() {
            self.in_phase(Phase::Child)
        } else {
            self.in_phase(Phase::Closing)
        }
    }

    /// The server once it is done with the client's input.
    pub open spec fn done_with_input(self, told_at: u64) -> ServerState {
        let s = self.after_echo(self.round.now, told_at);
        match s.host_action() {
            HostAction::Read => s.in_phase(Phase::Host),
            HostAction::End => s.ending().done_with_host(),
            HostAction::Leave => s.done_with_host(),
        }
    }

    /// The server after it was woken up at `now`.
    pub open spec fn on_polled(
        self,
        now: u64,
        network: bool,
        readable: bool,
        gone: bool,
        told_at: u64,
    ) -> ServerState {
        let watched = !self.transport.shutdown_in_progress;
        let s = ServerState { round: Round { now, watched, readable, gone }, ..self };
        if network {
            s.in_phase(Phase::Network)
        } else {
            s.done_with_input(told_at)
        }
    }

    /// The server after keys were written to the terminal, or could not be.
    pub open spec fn on_written(self, ok: bool, told_at: u64) -> ServerState {
        if ok {
            self.done_with_input(told_at)
        } else {
            self.ending().done_with_input(told_at)
        }
    }

    /// The server after the terminal was read at `now`, or could not be.
    pub open spec fn on_host_read(self, output: Option<Seq<u8>>, now: u64) -> ServerState {
        self.after_read(output, now).done_with_host()
    }

    /// The server after the program in the terminal was looked after.
    pub open spec fn on_child(self, exited: bool) -> ServerState {
        if exited {
            ServerState { child_exited: true, ..self.ending() }.in_phase(Phase::Closing)
        } else {
            self.in_phase(Phase::Closing)
        }
    }

    /// The server after the terminal was read at `now`. Where there is nothing
    /// to read, or reading fails, it is gone.
    pub open spec fn after_read(self, output: Option<Seq<u8>>, now: u64) -> ServerState {
        match output {
            Some(data) => if data.len() > 0 {
                self.over(self.transport.with_output(data, now))
            } else {
                self.ending()
            },
            None => self.ending(),
        }
    }

    /// Whether to look if the program in the terminal has ended.
    pub open spec fn asks_for_child(self) -> bool {
        !self.child_exited && !self.transport.shutdown_in_progress
    }

    /// What to do at the end of the round.
    pub open spec fn verdict(self) -> Verdict {
        if self.transport.received_state_num == 0 && self.round.now - self.startup_time
            >= TIMEOUT_NO_CLIENT {
            Verdict::NoClient
        } else if self.transport.shutdown_acknowledged() || (self.transport.shutdown_in_progress
            && self.transport.shutdown_ack_timed_out()) {
            Verdict::Ended
        } else if self.transport.counterparty_shutdown_ack_sent() {
            Verdict::LastTick
        } else {
            Verdict::GoOn
        }
    }
}

/// A running server.
pub struct Server {
    transport: ServerTransport,
    last_remote_num: u64,
    child_exited: bool,
    startup_time: u64,
    phase: Phase,
    round: Round,
}

impl View for Server {
    type V = ServerState;

    closed spec fn view(&self) -> ServerState {
        ServerState {
            transport: self.transport@,
            last_remote_num: self.last_remote_num,
            child_exited: self.child_exited,
            startup_time: self.startup_time,
            phase: self.phase,
            round: self.round,
        }
    }
}

fn terminal_side(v: i32) -> (s: u16)
    ensures
        s == side(v),
{
    let wide: i64 = v as i64 + 0x8000_0000;
    (wide % 0x1_0000) as u16
}

impl Server {
    /// The key of the session.
    pub closed spec fn key(self) -> Seq<u8> {
        self.transport.key()
    }

    /// The transport is in order, and the server has taken in no newer input than
    /// came.
    pub closed spec fn wf(self) -> bool {
        &&& self.transport.wf()
        &&& self@.in_step()
    }

    /// A server that starts at `now`.
    pub fn new_at(transport: ServerTransport, now: u64) -> (s: Server)
        requires
            transport.wf(),
        ensures
            s@ == ServerState::initial(transport@, now),
            s.key() == transport.key(),
            s.wf(),
    {
        Server {
            transport,
            last_remote_num: 0,
            child_exited: false,
            startup_time: now,
            phase: Phase::Asleep,
            round: Round { now, watched: false, readable: false, gone: false },
        }
    }

    /// A server that starts now.
    pub fn new(transport: ServerTransport) -> (s: Server)
        requires
            transport.wf(),
        ensures
            exists|now: u64| s@ == #[trigger] ServerState::initial(transport@, now),
            s.key() == transport.key(),
            s.wf(),
    {
        Server::new_at(transport, timestamp())
    }

    /// The transport to the client.
    pub fn transport(&self) -> (t: &ServerTransport)
        ensures
            t@ == self@.transport,
            t.key() == self.key(),
            self.wf() ==> t.wf(),
    {
        &self.transport
    }

    /// What the server waits for.
    pub fn phase(&self) -> (phase: Phase)
        ensures
            phase == self@.phase,
    {
        self.phase
    }

    /// What to wait for at `now`.
    pub fn poll_plan_at(&self, now: u64) -> (plan: PollPlan)
        ensures
            plan == self@.poll_plan(now),
    {
        let wait: u64 = self.transport.wait_time_at(now);
        PollPlan {
            timeout: if wait < MAX_SLEEP {
                wait
            } else {
                MAX_SLEEP
            },
            watch_host: !self.transport.shutdown_in_progress(),
        }
    }

    /// What to wait for.
    pub fn poll_plan(&self) -> (plan: PollPlan)
        ensures
            exists|now: u64| plan == #[trigger] self@.poll_plan(now),
    {
        self.poll_plan_at(timestamp())
    }

    /// Takes a difference of the client's input in at `now`, and sizes in it at
    /// `sized_at`. The keys for the terminal and its sizes are returned.
    pub fn apply_diff(&mut self, diff: &[u8], now: u64, sized_at: u64) -> (r: (
        Vec<u8>,
        Vec<(u16, u16)>,
    ))
        ensures
            final(self)@ == old(self)@.after_diff(diff@, now, sized_at),
            r.0@ == typed(old(self)@.new_actions(diff@)),
            r.1@ == terminal_sizes(sizes(old(self)@.new_actions(diff@))),
            final(self).key() == old(self).key(),
            old(self).wf() ==> final(self).wf(),
    {
        let mut keys: Vec<u8> = Vec::new();
        let mut sizes_out: Vec<(u16, u16)> = Vec::new();
        let remote_num: u64 = self.transport.get_remote_state_num();
        if remote_num == self.last_remote_num {
            assert(sizes_out@ =~= terminal_sizes(sizes(self@.new_actions(diff@))));
            return (keys, sizes_out);
        }
        self.last_remote_num = remote_num;

        let actions = parse_user_actions(diff);
        let ghost views = transport::action_views(actions@);
        let ghost start = old(self)@.transport;
        let mut i: usize = 0;
        assert(views.take(0) =~= Seq::empty());
        assert(sizes_out@ =~= terminal_sizes(sizes(views.take(0))));
        while i < actions.len()
            invariant
                views == transport::action_views(actions@),
                i <= actions@.len(),
                keys@ == typed(views.take(i as int)),
                sizes_out@ == terminal_sizes(sizes(views.take(i as int))),
                self.last_remote_num == remote_num,
                self.child_exited == old(self).child_exited,
                self.startup_time == old(self).startup_time,
                self.phase == old(self).phase,
                self.round == old(self).round,
                self.transport.key() == old(self).transport.key(),
                self.transport.wf() == old(self).transport.wf(),
                start == old(self)@.transport,
                self.transport@ == if sizes(views.take(i as int)).len() > 0 {
                    start.with_pending_resize(
                        sizes(views.take(i as int)).last().0,
                        sizes(views.take(i as int)).last().1,
                        sized_at,
                    )
                } else {
                    start
                },
            decreases actions@.len() - i,
        {
            let ghost before = views.take(i as int);
            let ghost longer = views.take(i + 1);
            proof {
                assert(longer.drop_last() =~= before);
                assert(longer.last() == actions@[i as int]@);
            }
            match &actions[i] {
                UserAction::Keystroke(pressed) => {
                    push_all(&mut keys, pressed.as_slice());
                },
                UserAction::Resize(w, h) => {
                    sizes_out.push((terminal_side(*w), terminal_side(*h)));
                    self.transport.set_pending_resize_at(*w, *h, sized_at);
                    proof {
                        assert(sizes(longer) =~= sizes(before).push((*w, *h)));
                        assert(sizes_out@ =~= terminal_sizes(sizes(longer)));
                    }
                },
            }
            assert(keys@ =~= typed(longer));
            i = i + 1;
        }
        assert(views.take(i as int) =~= views);

        if actions.len() > 0 {
            self.transport.register_input_frame(remote_num, now);
        }
        assert(views.len() == actions@.len());
        (keys, sizes_out)
    }

    /// Goes on once the server is done with the terminal.
    fn finish_host(&mut self)
        ensures
            final(self)@ == old(self)@.done_with_host(),
            final(self).key() == old(self).key(),
            final(self).wf() == old(self).wf(),
    {
        if !self.child_exited && !self.transport.shutdown_in_progress() {
            self.phase = Phase::Child;
        } else {
            self.phase = Phase::Closing;
        }
    }

    /// Goes on once the server is done with the client's input: finds out what
    /// has been echoed, has the client told of it, and turns to the terminal.
    fn finish_input(&mut self, told_at: u64)
        ensures
            final(self)@ == old(self)@.done_with_input(told_at),
            final(self).key() == old(self).key(),
            final(self).wf() == old(self).wf(),
    {
        if self.transport.update_echo_ack(self.round.now) && self.transport.echo_ack() > 0 {
            let ack: u64 = self.transport.echo_ack();
            self.transport.set_pending_echo_ack_at(ack, told_at);
        }
        if self.round.watched && !self.transport.shutdown_in_progress() {
            if self.round.readable {
                self.phase = Phase::Host;
                return;
            }
            if self.round.gone {
                self.transport.start_shutdown();
            }
        }
        self.finish_host();
    }

    /// Takes it that the server was woken up at `now`: by the network, by output
    /// of the terminal, by its end, or by none of these. The client is told what
    /// has been echoed from `told_at` on.
    pub fn polled_at(&mut self, now: u64, network: bool, readable: bool, gone: bool, told_at: u64)
        ensures
            final(self)@ == old(self)@.on_polled(now, network, readable, gone, told_at),
            final(self).key() == old(self).key(),
            final(self).wf() == old(self).wf(),
    {
        let watched = !self.transport.shutdown_in_progress();
        self.round = Round { now, watched, readable, gone };
        if network {
            self.phase = Phase::Network;
        } else {
            self.finish_input(told_at);
        }
    }

    /// Takes it that the server was woken up: by the network, by output of the
    /// terminal, by its end, or by none of these.
    pub fn polled(&mut self, network: bool, readable: bool, gone: bool)
        ensures
            exists|now: u64, told_at: u64|
                final(self)@ == #[trigger] old(self)@.on_polled(
                    now,
                    network,
                    readable,
                    gone,
                    told_at,
                ),
            final(self).key() == old(self).key(),
            final(self).wf() == old(self).wf(),
    {
        let now: u64 = timestamp();
        self.polled_at(now, network, readable, gone, timestamp())
    }

    /// Takes a datagram in that came from `src`, with the clock as given while it
    /// is handled.
    pub fn received_at(&mut self, data: &[u8], src: RemoteAddr, clock: ReceiveClock) -> (r:
        ClientInput)
        requires
            old(self).wf(),
            data@.len() < crypto::ocb_text_limit() + 24,
        ensures
            final(self).wf(),
            final(self).key() == old(self).key(),
            receives(old(self)@, old(self).key(), data@, src, clock, final(self)@, r),
            brings_all(r, old(self)@.transport.datagram_delivers(old(self).key(), data@)),
    {
        proof {
            law_delivered_input_is_new(
                self@,
                self.key(),
                data@,
                src,
                clock.saved_at,
                clock.now16,
                clock.heard,
                clock.at,
            );
        }
        let received = self.transport.recv_at(
            data,
            src,
            clock.saved_at,
            clock.now16,
            clock.heard,
            clock.at,
        );
        let (keys, sizes_out) = match received.diff {
            Some(diff) => self.apply_diff(diff.as_slice(), self.round.now, clock.sized_at),
            None => (Vec::new(), Vec::new()),
        };
        assert(received.diff is None ==> sizes_out@ =~= terminal_sizes(sizes(Seq::empty())));
        assert(received.diff is None ==> keys@ =~= typed(Seq::empty()));
        if keys.len() > 0 {
            self.phase = Phase::Typing;
        } else {
            self.finish_input(clock.told_at);
        }
        ClientInput {
            keys,
            sizes: sizes_out,
            rtt: received.rtt,
            attached: received.attached,
        }
    }

    /// Takes a datagram in that came from `src`.
    pub fn received(&mut self, data: &[u8], src: RemoteAddr) -> (r: ClientInput)
        requires
            old(self).wf(),
            data@.len() < crypto::ocb_text_limit() + 24,
        ensures
            final(self).wf(),
            final(self).key() == old(self).key(),
            brings_all(r, old(self)@.transport.datagram_delivers(old(self).key(), data@)),
            exists|clock: ReceiveClock|
                clock.now16 != network::NO_TIMESTAMP && #[trigger] receives(
                    old(self)@,
                    old(self).key(),
                    data@,
                    src,
                    clock,
                    final(self)@,
                    r,
                ),
    {
        let saved_at: u64 = timestamp();
        let now16: u16 = network::timestamp16();
        let heard: u64 = timestamp();
        let at: u64 = timestamp();
        let sized_at: u64 = timestamp();
        let told_at: u64 = timestamp();
        let clock = ReceiveClock { saved_at, now16, heard, at, sized_at, told_at };
        self.received_at(data, src, clock)
    }

    /// Takes it that there was no datagram after all. The client is told what has
    /// been echoed from `told_at` on.
    pub fn nothing_received_at(&mut self, told_at: u64)
        ensures
            final(self)@ == old(self)@.done_with_input(told_at),
            final(self).key() == old(self).key(),
            final(self).wf() == old(self).wf(),
    {
        self.finish_input(told_at)
    }

    /// Takes it that there was no datagram after all.
    pub fn nothing_received(&mut self)
        ensures
            exists|told_at: u64| final(self)@ == #[trigger] old(self)@.done_with_input(told_at),
            final(self).key() == old(self).key(),
            final(self).wf() == old(self).wf(),
    {
        self.finish_input(timestamp())
    }

    /// Takes it that keys were written to the terminal, or could not be. The
    /// client is told what has been echoed from `told_at` on.
    pub fn written_at(&mut self, ok: bool, told_at: u64)
        ensures
            final(self)@ == old(self)@.on_written(ok, told_at),
            final(self).key() == old(self).key(),
            final(self).wf() == old(self).wf(),
    {
        if !ok {
            self.transport.start_shutdown();
        }
        self.finish_input(told_at)
    }

    /// Takes it that keys were written to the terminal, or could not be.
    pub fn written(&mut self, ok: bool)
        ensures
            exists|told_at: u64| final(self)@ == #[trigger] old(self)@.on_written(ok, told_at),
            final(self).key() == old(self).key(),
            final(self).wf() == old(self).wf(),
    {
        self.written_at(ok, timestamp())
    }

    /// Takes what was read from the terminal at `now`, or that it could not be
    /// read.
    pub fn host_read_at(&mut self, output: Option<&[u8]>, now: u64)
        ensures
            final(self)@ == old(self)@.on_host_read(read_view(output), now),
            final(self).key() == old(self).key(),
            final(self).wf() == old(self).wf(),
    {
        match output {
            Some(data) => {
                if data.len() > 0 {
                    self.transport.push_output_at(data, now);
                } else {
                    self.transport.start_shutdown();
                }
            },
            None => {
                self.transport.start_shutdown();
            },
        }
        self.finish_host()
    }

    /// Takes what was read from the terminal, or that it could not be read.
    pub fn host_read(&mut self, output: Option<&[u8]>)
        ensures
            exists|now: u64|
                final(self)@ == #[trigger] old(self)@.on_host_read(read_view(output), now),
            final(self).key() == old(self).key(),
            final(self).wf() == old(self).wf(),
    {
        self.host_read_at(output, timestamp())
    }

    /// Takes it that the program in the terminal has ended, or has not.
    pub fn child_checked(&mut self, exited: bool)
        ensures
            final(self)@ == old(self)@.on_child(exited),
            final(self).key() == old(self).key(),
            final(self).wf() == old(self).wf(),
    {
        if exited {
            self.child_exited = true;
            self.transport.start_shutdown();
        }
        self.phase = Phase::Closing;
    }

    /// What to do at the end of the round.
    pub fn verdict(&self) -> (verdict: Verdict)
        ensures
            verdict == self@.verdict(),
    {
        if self.transport.get_remote_state_num() == 0 && self.round.now.saturating_sub(
            self.startup_time,
        ) >= TIMEOUT_NO_CLIENT {
            return Verdict::NoClient;
        }
        if self.transport.shutdown_in_progress() && self.transport.shutdown_acknowledged() {
            return Verdict::Ended;
        }
        if self.transport.shutdown_in_progress() && self.transport.shutdown_ack_timed_out() {
            return Verdict::Ended;
        }
        if self.transport.counterparty_shutdown_ack_sent() {
            return Verdict::LastTick;
        }
        Verdict::GoOn
    }

    /// Closes the round: sends what is due at `now`, unless the server ends at
    /// once, with the given bytes to hide its length and given the estimated
    /// round trip. The clock is read again for each packet. The server goes back
    /// to sleep or is over.
    pub fn close_round_at(&mut self, now: u64, chaff: Vec<u8>, estimate: u64) -> (r: (
        Verdict,
        Sending,
    ))
        requires
            old(self).wf(),
        ensures
            final(self).wf(),
            final(self).key() == old(self).key(),
            r.0 == old(self)@.verdict(),
            transport::refusal_is_told(r.1.error),
            exists|clock: Seq<(u64, u16)>| #[trigger]
                closes(
                    old(self)@,
                    old(self).key(),
                    now,
                    chaff@,
                    estimate,
                    clock,
                    final(self)@,
                    r.1@,
                ),
    {
        let verdict = self.verdict();
        let ghost before = self@;
        let ghost key = self.key();
        if verdict == Verdict::NoClient || verdict == Verdict::Ended {
            self.phase = Phase::Over;
            let sending = Sending { outgoing: Vec::new(), error: None };
            proof {
                assert(sending@ =~= Seq::empty());
            }
            let r = (verdict, sending);
            assert(closes(before, key, now, chaff@, estimate, Seq::empty(), self@, r.1@));
            return r;
        }
        let sending = self.transport.tick_at(now, chaff, estimate);
        let ghost clock = choose|clock: Seq<(u64, u16)>| #[trigger]
            transport::ticks(
                before.transport,
                key,
                now,
                chaff@,
                estimate,
                clock,
                self.transport@,
                sending@,
            );
        if verdict == Verdict::LastTick || sending.error.is_some() {
            self.phase = Phase::Over;
        } else {
            self.phase = Phase::Asleep;
        }
        proof {
            if sending@.len() > 0 && sending.error is None {
                let n = sending@.len() - 1;
                assert(sending@[n] == network::outgoing_view(Ok(sending.outgoing@[n])));
            }
        }
        let r = (verdict, sending);
        assert(closes(before, key, now, chaff@, estimate, clock, self@, r.1@));
        r
    }

    /// Closes the round, given the estimated round trip.
    pub fn close_round(&mut self, estimate: u64) -> (r: (Verdict, Sending))
        requires
            old(self).wf(),
        ensures
            final(self).wf(),
            final(self).key() == old(self).key(),
            r.0 == old(self)@.verdict(),
            transport::refusal_is_told(r.1.error),
            exists|now: u64, chaff: Seq<u8>, clock: Seq<(u64, u16)>|
                chaff.len() <= 16 && #[trigger] closes(
                    old(self)@,
                    old(self).key(),
                    now,
                    chaff,
                    estimate,
                    clock,
                    final(self)@,
                    r.1@,
                ),
    {
        let now: u64 = timestamp();
        let chaff = transport::random_chaff();
        self.close_round_at(now, chaff, estimate)
    }
}

/// What the clock shows while a datagram is handled.
#[derive(Clone, Copy)]
pub struct ReceiveClock {
    /// When its timestamp is kept.
    pub saved_at: u64,
    /// When its round trip is measured.
    pub now16: u16,
    /// When it is taken to have been heard.
    pub heard: u64,
    /// When its instruction is taken in.
    pub at: u64,
    /// When sizes in it are taken in.
    pub sized_at: u64,
    /// When it is found out what has been echoed.
    pub told_at: u64,
}

/// Whether a datagram from `src`, with the clock as given while it is handled,
/// leads from one state of the server to another and brings what is given.
pub open spec fn receives(
    before: ServerState,
    key: Seq<u8>,
    data: Seq<u8>,
    src: RemoteAddr,
    clock: ReceiveClock,
    after: ServerState,
    input: ClientInput,
) -> bool {
    let over = before.over(
        before.transport.after_datagram(
            key,
            data,
            src,
            clock.saved_at,
            clock.now16,
            clock.heard,
            clock.at,
        ),
    );
    let incoming = before.transport.conn.incoming_datagram(key, data, src, clock.now16);
    let actions = match before.transport.datagram_delivers(key, data) {
        Some(diff) => over.new_actions(diff),
        None => Seq::empty(),
    };
    let taken_in = match before.transport.datagram_delivers(key, data) {
        Some(diff) => over.after_diff(diff, before.round.now, clock.sized_at),
        None => over,
    };
    &&& after == if typed(actions).len() > 0 {
        taken_in.in_phase(Phase::Typing)
    } else {
        taken_in.done_with_input(clock.told_at)
    }
    &&& input.keys@ == typed(actions)
    &&& input.sizes@ == terminal_sizes(sizes(actions))
    &&& input.rtt == incoming.rtt
    &&& input.attached == incoming.attached
}

/// Whether all keys and sizes of what was delivered, if anything was, are handed
/// out, and no others.
pub open spec fn brings_all(input: ClientInput, delivered: Option<Seq<u8>>) -> bool {
    let actions = match delivered {
        Some(diff) => transport::user_actions(diff),
        None => Seq::empty(),
    };
    input.keys@ == typed(actions) && input.sizes@ == terminal_sizes(sizes(actions))
}

/// A server has taken in no newer input than came.
pub proof fn lemma_server_in_step(s: Server)
    requires
        s.wf(),
    ensures
        s@.in_step(),
{
}

/// What a datagram delivers is always new to a server that has taken in no newer
/// input than came, so all that the client did in it is taken in; and the server
/// stays in step, whatever comes.
pub proof fn law_delivered_input_is_new(
    s: ServerState,
    key: Seq<u8>,
    data: Seq<u8>,
    src: RemoteAddr,
    saved_at: u64,
    now16: u16,
    heard: u64,
    at: u64,
)
    requires
        s.in_step(),
    ensures
        ({
            let over = s.over(
                s.transport.after_datagram(key, data, src, saved_at, now16, heard, at),
            );
            &&& over.in_step()
            &&& s.transport.datagram_delivers(key, data) matches Some(diff) ==> over.new_actions(
                diff,
            ) == transport::user_actions(diff)
        }),
{
    crate::synchronization::law_numbers_never_fall_with_datagrams(
        s.transport,
        key,
        data,
        src,
        saved_at,
        now16,
        heard,
        at,
    );
}

/// Whether closing the round at `now`, with the clock at `clock` as packets are
/// handed over, leads from one state of the server to another and sends what is
/// given.
pub open spec fn closes(
    before: ServerState,
    key: Seq<u8>,
    now: u64,
    chaff: Seq<u8>,
    estimate: u64,
    clock: Seq<(u64, u16)>,
    after: ServerState,
    sent: Seq<network::OutgoingView>,
) -> bool {
    match before.verdict() {
        Verdict::NoClient | Verdict::Ended => {
            &&& after == before.in_phase(Phase::Over)
            &&& sent.len() == 0
        },
        verdict => {
            &&& transport::ticks(
                before.transport,
                key,
                now,
                chaff,
                estimate,
                clock,
                after.transport,
                sent,
            )
            &&& after == before.over(after.transport).in_phase(
                if verdict == Verdict::LastTick || (sent.len() > 0 && sent.last() is Refused) {
                    Phase::Over
                } else {
                    Phase::Asleep
                },
            )
        },
    }
}

/// The server never sleeps longer than five seconds, and watches the terminal
/// just as long as it was not told to end.
pub proof fn law_poll_plan(s: ServerState, now: u64)
    ensures
        s.poll_plan(now).timeout <= MAX_SLEEP,
        s.poll_plan(now).watch_host == !s.transport.shutdown_in_progress,
{
}

/// A server that was told to end looks neither at the terminal nor at the
/// program in it: whatever it was woken by, the round is closed next.
pub proof fn law_ending_server_leaves_the_terminal(
    s: ServerState,
    now: u64,
    readable: bool,
    gone: bool,
    told_at: u64,
)
    requires
        s.transport.shutdown_in_progress,
    ensures
        s.on_polled(now, false, readable, gone, told_at).phase == Phase::Closing,
        s.done_with_input(told_at).phase == Phase::Closing,
{
}

/// A terminal or a program in it that is gone ends the server, and so does a
/// terminal that cannot be written to or read.
pub proof fn law_server_ends_with_the_terminal(s: ServerState, now: u64, told_at: u64)
    ensures
        s.on_written(false, told_at).transport.shutdown_in_progress,
        s.on_host_read(None, now).transport.shutdown_in_progress,
        s.on_host_read(Some(Seq::empty()), now).transport.shutdown_in_progress,
        s.on_child(true).transport.shutdown_in_progress,
        s.on_polled(now, false, false, true, told_at).transport.shutdown_in_progress,
{
}

/// A server that no client ever reached ends after a minute, and not before
/// unless it was told to end.
pub proof fn law_server_waits_a_minute_for_a_client(s: ServerState)
    requires
        s.transport.received_state_num == 0,
        !s.transport.shutdown_in_progress,
    ensures
        s.verdict() == Verdict::NoClient <==> s.round.now - s.startup_time >= TIMEOUT_NO_CLIENT,
        s.verdict() == Verdict::GoOn <==> s.round.now - s.startup_time < TIMEOUT_NO_CLIENT,
{
}

/// A server that has a client ends only if it was told to and the client knows
/// or was told often enough, or if the client ended the session and was told
/// that this is known.
pub proof fn law_server_with_a_client_goes_on(s: ServerState)
    requires
        s.transport.received_state_num != 0,
    ensures
        s.verdict() == Verdict::Ended <==> s.transport.shutdown_in_progress && (
        s.transport.ack_num == u64::MAX || s.transport.shutdown_tries >= 16),
        s.verdict() == Verdict::LastTick ==> s.transport.received_state_num == u64::MAX,
        s.verdict() != Verdict::NoClient,
{
}

/// A difference that is taken in a second time brings no keys and no sizes.
pub proof fn law_input_is_typed_once(s: ServerState, diff: Seq<u8>, now: u64, sized_at: u64)
    ensures
        s.after_diff(diff, now, sized_at).new_actions(diff).len() == 0,
{
}

} // verus!
