use mosh_rs::crypto::{Base64Key, Session};
use mosh_rs::fragment::Fragmenter;
use mosh_rs::launch::{invoked_name, term_name, Greeting};
use mosh_rs::messages::Instruction;
use mosh_rs::network::{timestamp, Connection, Direction, Outgoing, Packet, RemoteAddr};
use mosh_rs::server::{Phase, ReceiveClock, Server, Verdict};
use mosh_rs::transport::ServerTransport;

const HOME: RemoteAddr = RemoteAddr::V4 { ip: 0x7f00_0001, port: 1000 };

fn key() -> Base64Key {
    Base64Key::from_data([5; 16])
}

fn server(now: u64) -> Server {
    let connection = Connection::with_key(key()).unwrap();
    Server::new_at(ServerTransport::new_at(connection, now), now)
}

fn datagram(seq: u64, inst: &Instruction) -> Vec<u8> {
    let mut fragmenter = Fragmenter::new();
    let frags = fragmenter.make_fragments(inst, 1224);
    assert_eq!(frags.len(), 1);
    let packet = Packet {
        seq,
        direction: Direction::ToServer,
        timestamp: 0xffff,
        timestamp_reply: 0xffff,
        payload: frags[0].to_bytes(),
    };
    Session::new(&key()).unwrap().encrypt(&packet.to_message()).unwrap()
}

fn input(old: u64, new: u64, ack: u64, diff: &[u8]) -> Vec<u8> {
    let inst = Instruction {
        protocol_version: Some(2),
        old_num: Some(old),
        new_num: Some(new),
        ack_num: Some(ack),
        throwaway_num: Some(0),
        diff: Some(diff.to_vec()),
        chaff: None,
    };
    datagram(new, &inst)
}

/// Packets are sent by the real clock, so the client is heard by it too.
fn clock(now: u64) -> ReceiveClock {
    let heard = timestamp();
    ReceiveClock { saved_at: now, now16: 0, heard, at: now, sized_at: now, told_at: now }
}

const KEYS: [u8; 8] = [10, 6, 18, 4, 34, 2, b'l', b's'];
const SIZE: [u8; 8] = [10, 6, 26, 4, 40, 100, 48, 30];

#[test]
fn quiet_round() {
    let mut s = server(1000);
    assert!(s.phase() == Phase::Asleep);
    let plan = s.poll_plan_at(1000);
    assert_eq!(plan.timeout, 5000);
    assert!(plan.watch_host);
    s.polled_at(2000, false, false, false, 2000);
    assert!(s.phase() == Phase::Child);
    s.child_checked(false);
    assert!(s.phase() == Phase::Closing);
    let (verdict, sending) = s.close_round_at(2000, vec![], 50);
    assert!(verdict == Verdict::GoOn);
    assert!(sending.outgoing.is_empty());
    assert!(s.phase() == Phase::Asleep);
}

#[test]
fn input_is_typed() {
    let mut s = server(1000);
    s.polled_at(2000, true, false, false, 2000);
    assert!(s.phase() == Phase::Network);
    let diff = [&KEYS[..], &SIZE, &KEYS].concat();
    let r = s.received_at(&input(0, 1, 0, &diff), HOME, clock(2000));
    assert_eq!(r.keys, b"lsls");
    assert_eq!(r.sizes, [(100, 30)]);
    assert!(r.attached);
    assert!(s.phase() == Phase::Typing);
    s.written_at(true, 2000);
    assert!(s.phase() == Phase::Child);
    s.child_checked(false);
    assert!(s.close_round_at(2000, vec![], 50).0 == Verdict::GoOn);
    // The size is told to the client soon.
    assert_eq!(s.poll_plan_at(2000).timeout, 20);
    // The same again brings nothing.
    s.polled_at(2010, true, false, false, 2010);
    let r = s.received_at(&input(0, 1, 0, &diff), HOME, clock(2010));
    assert!(r.keys.is_empty() && r.sizes.is_empty());
    assert!(s.phase() == Phase::Child);
}

#[test]
fn sizes_are_cut_to_sixteen_bits() {
    let mut s = server(1000);
    s.polled_at(2000, true, false, false, 2000);
    let diff =
        [10, 17, 26, 15, 40, 0x81, 0x80, 4, 48, 255, 255, 255, 255, 255, 255, 255, 255, 255, 1];
    let r = s.received_at(&input(0, 1, 0, &diff), HOME, clock(2000));
    assert_eq!(r.sizes, [(1, 0xffff)]);
}

#[test]
fn echo_is_told_to_the_client() {
    let mut s = server(1000);
    s.polled_at(2000, true, false, false, 2000);
    s.received_at(&input(0, 1, 0, &KEYS), HOME, clock(2000));
    s.written_at(true, 2000);
    s.child_checked(false);
    s.close_round_at(2000, vec![], 50);
    assert_eq!(s.transport().echo_ack(), 0);
    s.polled_at(2050, false, false, false, 2050);
    assert_eq!(s.transport().echo_ack(), 1);
    assert_eq!(s.poll_plan_at(2050).timeout, 20);
    s.child_checked(false);
    s.close_round_at(2069, vec![], 50);
    s.polled_at(2070, false, false, false, 2070);
    s.child_checked(false);
    let (_, sending) = s.close_round_at(2070, vec![], 50);
    assert_eq!(sending.outgoing.len(), 1);
    assert!(matches!(sending.outgoing[0], Outgoing::Datagram { .. }));
}

#[test]
fn output_is_read() {
    let mut s = server(1000);
    s.polled_at(2000, false, true, true, 2000);
    assert!(s.phase() == Phase::Host);
    s.host_read_at(Some(b"text"), 2000);
    assert!(s.phase() == Phase::Child);
    assert!(!s.transport().shutdown_in_progress());
}

#[test]
fn server_ends_with_the_terminal() {
    let mut s = server(1000);
    s.polled_at(2000, false, true, false, 2000);
    s.host_read_at(Some(b""), 2000);
    assert!(s.transport().shutdown_in_progress());
    assert!(s.phase() == Phase::Closing);
    assert!(!s.poll_plan_at(2000).watch_host);

    let mut s = server(1000);
    s.polled_at(2000, false, true, false, 2000);
    s.host_read_at(None, 2000);
    assert!(s.transport().shutdown_in_progress());

    let mut s = server(1000);
    s.polled_at(2000, false, false, true, 2000);
    assert!(s.transport().shutdown_in_progress());
    assert!(s.phase() == Phase::Closing);

    let mut s = server(1000);
    s.polled_at(2000, false, false, false, 2000);
    s.child_checked(true);
    assert!(s.transport().shutdown_in_progress());

    let mut s = server(1000);
    s.polled_at(2000, true, true, false, 2000);
    s.received_at(&input(0, 1, 0, &KEYS), HOME, clock(2000));
    s.written_at(false, 2000);
    assert!(s.transport().shutdown_in_progress());
    // The terminal is not read any more.
    assert!(s.phase() == Phase::Closing);
    s.close_round_at(2000, vec![], 50);
    s.polled_at(2001, false, true, true, 2001);
    assert!(s.phase() == Phase::Closing);
}

#[test]
fn failed_receive_is_passed_over() {
    let mut s = server(1000);
    s.polled_at(2000, true, true, false, 2000);
    s.nothing_received_at(2000);
    assert!(s.phase() == Phase::Host);
    let mut s = server(1000);
    s.polled(true, false, false);
    s.nothing_received();
    assert!(s.phase() == Phase::Child);
}

#[test]
fn no_client_within_a_minute() {
    let mut s = server(1000);
    s.polled_at(60_999, false, false, false, 60_999);
    s.child_checked(false);
    assert!(s.verdict() == Verdict::GoOn);
    s.close_round_at(60_999, vec![], 50);
    s.polled_at(61_000, false, false, false, 61_000);
    s.child_checked(false);
    let (verdict, sending) = s.close_round_at(61_000, vec![], 50);
    assert!(verdict == Verdict::NoClient);
    assert!(sending.outgoing.is_empty());
    assert!(s.phase() == Phase::Over);
}

#[test]
fn clock_before_the_start_is_no_timeout() {
    let mut s = server(100_000);
    s.polled_at(10, false, false, false, 10);
    s.child_checked(false);
    assert!(s.verdict() == Verdict::GoOn);
}

#[test]
fn acknowledged_end() {
    let mut s = server(1000);
    s.polled_at(2000, true, false, false, 2000);
    s.received_at(&input(0, 1, u64::MAX, b""), HOME, clock(2000));
    s.child_checked(false);
    assert!(s.verdict() == Verdict::GoOn);
    s.close_round_at(2000, vec![], 50);
    s.polled_at(2001, false, false, true, 2001);
    let (verdict, _) = s.close_round_at(2001, vec![], 50);
    assert!(verdict == Verdict::Ended);
    assert!(s.phase() == Phase::Over);
}

#[test]
fn end_is_announced_sixteen_times() {
    let mut s = server(1000);
    s.polled_at(2000, true, false, true, 2000);
    s.received_at(&input(0, 1, 0, b""), HOME, clock(2000));
    let mut now = 2100;
    let mut announced = 0;
    loop {
        let (verdict, sending) = s.close_round_at(now, vec![], 50);
        if verdict == Verdict::Ended {
            break;
        }
        announced += sending.outgoing.len();
        now += 50;
        s.polled_at(now, false, false, false, now);
    }
    assert_eq!(announced, 16);
}

#[test]
fn server_stops_after_the_client_ends() {
    let mut s = server(1000);
    s.polled_at(2000, true, false, false, 2000);
    s.received_at(&input(0, u64::MAX, 0, b""), HOME, clock(2000));
    s.child_checked(false);
    let (verdict, sending) = s.close_round_at(2000, vec![], 50);
    assert!(verdict == Verdict::GoOn);
    assert_eq!(sending.outgoing.len(), 1);
    s.polled_at(2001, false, false, false, 2001);
    s.child_checked(false);
    let (verdict, _) = s.close_round_at(2001, vec![], 50);
    assert!(verdict == Verdict::LastTick);
    assert!(s.phase() == Phase::Over);
}

#[test]
fn server_reads_the_clock() {
    let connection = Connection::with_key(key()).unwrap();
    let mut s = Server::new(ServerTransport::new(connection));
    assert_eq!(s.poll_plan().timeout, 5000);
    s.polled(true, true, false);
    let r = s.received(&input(0, 1, 0, &KEYS), HOME);
    assert_eq!(r.keys, b"ls");
    s.written(true);
    assert!(s.phase() == Phase::Host);
    s.host_read(Some(b"out"));
    s.child_checked(false);
    let (verdict, sending) = s.close_round(50);
    assert!(verdict == Verdict::GoOn);
    assert!(sending.error.is_none());
    assert!(s.poll_plan().timeout <= 100);
}

#[test]
fn terminals() {
    assert_eq!(term_name(256), "xterm-256color");
    assert_eq!(term_name(8), "xterm");
    assert_eq!(term_name(0), "xterm");
    let command = |words: &[&str]| -> Vec<String> { words.iter().map(|w| w.to_string()).collect() };
    assert_eq!(invoked_name(&command(&["/bin/sh", "-sh"])), "-sh");
    assert_eq!(invoked_name(&command(&["top"])), "top");
    assert_eq!(invoked_name(&command(&["a", "b", "c"])), "b");
}

fn shown(hushed: bool, has: &[&str]) -> Vec<&'static str> {
    let mut out = Vec::new();
    let mut g = Greeting::first(hushed);
    while let Some(path) = g.path() {
        let ok = has.contains(&path);
        if ok {
            out.push(path);
        }
        g = g.next(ok);
    }
    out
}

#[test]
fn greetings() {
    let new = "/run/motd.dynamic";
    let old = "/var/run/motd.dynamic";
    let etc = "/etc/motd";
    assert_eq!(shown(false, &[new, old, etc]), [new, etc]);
    assert_eq!(shown(false, &[old, etc]), [old, etc]);
    assert_eq!(shown(false, &[etc]), [etc]);
    assert_eq!(shown(false, &[new, old]), [new]);
    assert!(shown(true, &[new, old, etc]).is_empty());
}
