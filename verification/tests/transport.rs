use mosh_rs::crypto::{Base64Key, Session};
use mosh_rs::fragment::{Fragment, FragmentAssembly, Fragmenter};
use mosh_rs::messages::Instruction;
use mosh_rs::network::{timestamp, Connection, Direction, Outgoing, Packet, RemoteAddr};
use mosh_rs::transport::{
    chaff_len, make_host_diff, parse_user_actions, random_chaff, Due, Sending, ServerTransport,
    UserAction,
};

const HOME: RemoteAddr = RemoteAddr::V4 { ip: 0x7f00_0001, port: 1000 };

fn key() -> Base64Key {
    Base64Key::from_data([5; 16])
}

fn transport(now: u64) -> ServerTransport {
    ServerTransport::new_at(Connection::with_key(key()).unwrap(), now)
}

struct Client {
    session: Session,
    seq: u64,
    fragmenter: Fragmenter,
    assembly: FragmentAssembly,
}

impl Client {
    fn new() -> Client {
        Client {
            session: Session::new(&key()).unwrap(),
            seq: 0,
            fragmenter: Fragmenter::new(),
            assembly: FragmentAssembly::new(),
        }
    }

    fn datagrams(&mut self, inst: &Instruction) -> Vec<Vec<u8>> {
        let frags = self.fragmenter.make_fragments(inst, 1224);
        let mut out = Vec::new();
        for f in &frags {
            self.seq += 1;
            let packet = Packet {
                seq: self.seq,
                direction: Direction::ToServer,
                timestamp: 0xffff,
                timestamp_reply: 0xffff,
                payload: f.to_bytes(),
            };
            out.push(self.session.encrypt(&packet.to_message()).unwrap());
        }
        out
    }

    fn read(&mut self, sending: &Sending) -> Option<Instruction> {
        assert!(sending.error.is_none());
        let mut last = None;
        for out in &sending.outgoing {
            if let Outgoing::Datagram { to, bytes } = out {
                assert!(*to == HOME);
                assert!(bytes.len() <= 1252);
                let message = self.session.decrypt(bytes).unwrap();
                let packet = Packet::from_message(&message).unwrap();
                assert!(packet.direction == Direction::ToClient);
                let frag = Fragment::from_bytes(&packet.payload).unwrap();
                if self.assembly.add_fragment(&frag) {
                    last = self.assembly.get_assembly();
                }
            }
        }
        last
    }
}

fn input(old: u64, new: u64, ack: u64, diff: &[u8]) -> Instruction {
    Instruction {
        protocol_version: Some(2),
        old_num: Some(old),
        new_num: Some(new),
        ack_num: Some(ack),
        throwaway_num: Some(0),
        diff: Some(diff.to_vec()),
        chaff: None,
    }
}

/// Packets are sent by the real clock, so the client is heard by it too.
fn attach(t: &mut ServerTransport, client: &mut Client, now: u64) {
    for d in client.datagrams(&input(0, 1, 0, b"")) {
        let r = t.recv_at(&d, HOME, now, 0, timestamp(), now);
        assert!(r.diff.is_none());
        assert!(r.attached);
    }
}

#[test]
fn actions_of_the_client() {
    let keys = [10, 6, 18, 4, 34, 2, b'l', b's'];
    let size = [10, 6, 26, 4, 40, 80, 48, 24];
    let half = [10, 4, 26, 2, 48, 24];
    let none = [10, 2, 18, 0];
    let both = [10, 12, 18, 4, 34, 2, b'x', b'y', 26, 4, 40, 1, 48, 2];
    let all: Vec<u8> = [&keys[..], &size, &half, &none, &both].concat();
    let actions = parse_user_actions(&all);
    assert_eq!(actions.len(), 5);
    assert!(matches!(&actions[0], UserAction::Keystroke(k) if k == b"ls"));
    assert!(matches!(actions[1], UserAction::Resize(80, 24)));
    assert!(matches!(actions[2], UserAction::Resize(0, 24)));
    assert!(matches!(&actions[3], UserAction::Keystroke(k) if k == b"xy"));
    assert!(matches!(actions[4], UserAction::Resize(1, 2)));
    assert!(parse_user_actions(&all[..all.len() - 1]).is_empty());
    assert!(parse_user_actions(&[]).is_empty());
}

#[test]
fn host_diff_tells_ack_size_and_output() {
    assert_eq!(make_host_diff(b"", None, None), []);
    assert_eq!(make_host_diff(b"hi", None, None), [10, 6, 18, 4, 34, 2, b'h', b'i']);
    assert_eq!(
        make_host_diff(b"A", Some(5), Some((80, -1))),
        [
            10, 4, 58, 2, 64, 5, 10, 15, 26, 13, 40, 80, 48, 255, 255, 255, 255, 255, 255, 255,
            255, 255, 1, 10, 5, 18, 3, 34, 1, 65
        ]
    );
}

#[test]
fn nothing_is_due_without_a_client() {
    let mut t = transport(1000);
    t.push_output_at(b"x", 1000);
    assert_eq!(t.wait_time_at(5000), u64::MAX);
    assert_eq!(t.wait_time(), u64::MAX);
    let step = t.begin_tick(100_000, vec![]);
    assert!(step.due == Due::Nothing);
    assert!(step.payloads.is_empty());
    assert!(t.tick_at(100_000, vec![], 50).outgoing.is_empty());
    assert!(!t.connection().has_remote_addr());
}

#[test]
fn output_is_sent_after_a_short_wait() {
    let mut t = transport(1000);
    let mut client = Client::new();
    attach(&mut t, &mut client, 2000);
    assert_eq!(t.get_remote_state_num(), 1);
    // The input is to be acknowledged within a tenth of a second.
    assert_eq!(t.wait_time_at(2000), 100);
    t.push_output_at(b"out", 2000);
    t.push_output_at(b"put", 2010);
    assert_eq!(t.wait_time_at(2010), 20);
    assert!(t.tick_at(2029, vec![], 50).outgoing.is_empty());
    assert_eq!(t.wait_time_at(2031), 0);
    let step = t.begin_tick(2030, vec![7, 7]);
    assert!(step.due == Due::Diff);
    assert_eq!(step.num, 1);
    assert_eq!(step.payloads.len(), 1);
    t.end_tick(step.due, step.num, 2030, 50);
    assert_eq!(t.wait_time_at(2030), 3000);
    let mut assembly = FragmentAssembly::new();
    assert!(assembly.add_fragment(&Fragment::from_bytes(&step.payloads[0]).unwrap()));
    let inst = assembly.get_assembly().unwrap();
    assert_eq!(inst.protocol_version, Some(2));
    assert_eq!(inst.old_num, Some(0));
    assert_eq!(inst.new_num, Some(1));
    assert_eq!(inst.ack_num, Some(1));
    assert_eq!(inst.throwaway_num, Some(0));
    assert_eq!(inst.diff.unwrap(), make_host_diff(b"output", None, None));
    assert_eq!(inst.chaff, Some(vec![7, 7]));
}

#[test]
fn states_follow_each_other() {
    let mut t = transport(0);
    let mut client = Client::new();
    attach(&mut t, &mut client, 10);
    let mut now = 10;
    for n in 0..3u64 {
        now += 3000;
        let first = client.read(&t.tick_at(now, vec![], 50)).unwrap();
        assert_eq!(first.old_num, Some(2 * n));
        assert_eq!(first.new_num, Some(2 * n + 1));
        assert_eq!(first.diff, None);
        t.set_pending_resize_at(100, 30, now);
        t.set_pending_echo_ack_at(n, now);
        let second = client.read(&t.tick_at(now + 20, vec![], 50)).unwrap();
        assert_eq!(second.old_num, Some(2 * n + 1));
        assert_eq!(second.new_num, Some(2 * n + 2));
        assert_eq!(second.diff.unwrap(), make_host_diff(b"", Some(n), Some((100, 30))));
        now += 20;
    }
}

#[test]
fn large_output_takes_several_packets() {
    let mut t = transport(0);
    let mut client = Client::new();
    attach(&mut t, &mut client, 10);
    let mut seed = 1u32;
    let data: Vec<u8> = (0..10000)
        .map(|_| {
            seed = seed.wrapping_mul(1664525).wrapping_add(1013904223);
            (seed >> 24) as u8
        })
        .collect();
    t.push_output_at(&data, 10);
    let sending = t.tick_at(30, vec![], 50);
    assert!(sending.outgoing.len() > 8);
    let inst = client.read(&sending).unwrap();
    assert_eq!(inst.diff.unwrap(), make_host_diff(&data, None, None));
}

#[test]
fn silent_client_gets_nothing() {
    let mut t = transport(0);
    let mut client = Client::new();
    for d in client.datagrams(&input(0, 1, 0, b"")) {
        t.recv_at(&d, HOME, 10, 0, 10, 10);
    }
    let data: Vec<u8> = (0..3000u32).map(|i| (i * i * 31 % 251) as u8).collect();
    t.push_output_at(&data, 10);
    let sending = t.tick_at(30, vec![], 50);
    assert!(sending.error.is_none());
    assert!(matches!(sending.outgoing[0], Outgoing::Detached));
    assert!(sending.outgoing[1..].iter().all(|o| matches!(o, Outgoing::NoClient)));
    assert!(!t.connection().has_remote_addr());
}

#[test]
fn input_is_delivered_once_and_in_order() {
    let mut t = transport(0);
    let mut deliver = |old, new, diff: &[u8]| t.apply_instruction(input(old, new, 0, diff), 100);
    assert_eq!(deliver(0, 5, b"a"), Some(b"a".to_vec()));
    assert_eq!(deliver(0, 5, b"a"), None);
    assert_eq!(deliver(4, 7, b"b"), None);
    assert_eq!(deliver(5, 7, b"b"), Some(b"b".to_vec()));
    assert_eq!(deliver(5, 6, b"c"), None);
    assert_eq!(deliver(0, 9, b"d"), Some(b"d".to_vec()));
    assert_eq!(deliver(9, 10, b""), None);
    assert_eq!(deliver(9, 11, b"e"), None);
    assert_eq!(deliver(10, 11, b"e"), Some(b"e".to_vec()));
    assert_eq!(t.get_remote_state_num(), 11);
    let mut without = input(11, 12, 0, b"");
    without.diff = None;
    assert_eq!(t.apply_instruction(without, 100), None);
    assert_eq!(t.get_remote_state_num(), 12);
}

#[test]
fn lost_and_repeated_instructions_leave_the_input_in_order() {
    let parts: [&[u8]; 4] = [b"a", b"b", b"c", b"d"];
    let nums = [0u64, 3, 4, 9, 20];
    let mut t = transport(0);
    let mut got = Vec::new();
    for i in [2usize, 0, 0, 3, 1, 0, 3, 2, 1, 3, 3] {
        if let Some(diff) = t.apply_instruction(input(nums[i], nums[i + 1], 0, parts[i]), 5) {
            got.push(diff);
        }
    }
    assert_eq!(got, parts);
    assert_eq!(t.get_remote_state_num(), 20);
}

#[test]
fn echo_is_over_all_input() {
    let mut t = transport(0);
    let frames = [(1, 100), (5, 130), (2, 140), (6, 300), (4, 310), (9, 500)];
    let mut seen: Vec<(u64, u64)> = Vec::new();
    let mut next = 0;
    for now in (100..700).step_by(7) {
        while next < frames.len() && frames[next].1 <= now {
            t.register_input_frame(frames[next].0, frames[next].1);
            seen.push(frames[next]);
            next += 1;
        }
        t.update_echo_ack(now);
        let newest = seen.iter().filter(|f| f.1 <= now - 50).map(|f| f.0).max().unwrap_or(0);
        assert_eq!(t.echo_ack(), newest);
    }
    assert_eq!(t.echo_ack(), 9);
}

#[test]
fn other_versions_are_ignored() {
    let mut t = transport(0);
    let mut inst = input(0, 5, u64::MAX, b"a");
    inst.protocol_version = Some(3);
    assert_eq!(t.apply_instruction(inst, 0), None);
    assert_eq!(t.get_remote_state_num(), 0);
    let mut inst = input(0, 5, u64::MAX, b"a");
    inst.protocol_version = None;
    assert_eq!(t.apply_instruction(inst, 0), None);
    t.start_shutdown();
    assert!(!t.shutdown_acknowledged());
}

#[test]
fn payloads_that_are_no_fragments_are_ignored() {
    let mut t = transport(0);
    assert_eq!(t.apply_payload(b"short", 0), None);
    assert_eq!(t.apply_payload(&[0; 30], 0), None);
    let mut fragmenter = Fragmenter::new();
    let frags = fragmenter.make_fragments(&input(0, 1, 0, &[9; 50]), 30);
    assert!(frags.len() > 1);
    for (i, f) in frags.iter().enumerate() {
        let diff = t.apply_payload(&f.to_bytes(), 0);
        assert_eq!(diff.is_some(), i + 1 == frags.len());
    }
}

#[test]
fn client_ends_the_session() {
    let mut t = transport(0);
    let mut client = Client::new();
    attach(&mut t, &mut client, 10);
    assert_eq!(t.apply_instruction(input(1, u64::MAX, 0, b"x"), 500), None);
    assert_eq!(t.get_remote_state_num(), u64::MAX);
    assert_eq!(t.wait_time_at(500), 0);
    assert!(!t.counterparty_shutdown_ack_sent());
    let inst = client.read(&t.tick_at(500, vec![], 50)).unwrap();
    assert_eq!(inst.ack_num, Some(u64::MAX));
    assert!(t.counterparty_shutdown_ack_sent());
}

#[test]
fn server_ends_the_session() {
    let mut t = transport(0);
    let mut client = Client::new();
    attach(&mut t, &mut client, 10);
    t.start_shutdown();
    assert!(t.shutdown_in_progress());
    t.push_output_at(b"bye", 10);
    let mut now = 110;
    let inst = client.read(&t.tick_at(now, vec![], 300)).unwrap();
    assert_eq!(inst.new_num, Some(1));
    assert_eq!(inst.diff.unwrap(), make_host_diff(b"bye", None, None));
    // From then on the end is announced every quarter of a second.
    for _ in 0..16 {
        assert!(!t.shutdown_ack_timed_out());
        assert_eq!(t.wait_time_at(now), 250);
        now += 250;
        let inst = client.read(&t.tick_at(now, vec![], 300)).unwrap();
        assert_eq!(inst.new_num, Some(u64::MAX));
        assert_eq!(inst.diff, None);
    }
    assert!(t.shutdown_ack_timed_out());
    assert!(!t.shutdown_acknowledged());
    t.apply_instruction(input(1, 1, u64::MAX, b""), now);
    assert!(t.shutdown_acknowledged());
}

#[test]
fn ending_follows_the_round_trip() {
    for (estimate, interval) in [(0, 50), (70, 70), (2000, 250)] {
        let mut t = transport(0);
        let mut client = Client::new();
        attach(&mut t, &mut client, 10);
        t.start_shutdown();
        t.tick_at(110, vec![], estimate);
        assert_eq!(t.wait_time_at(110), interval);
    }
}

#[test]
fn deadline_without_anything_to_send_is_quiet() {
    let mut t = transport(0);
    let mut client = Client::new();
    attach(&mut t, &mut client, 10);
    t.push_output_at(b"", 10);
    let step = t.begin_tick(30, vec![]);
    assert!(step.due == Due::Quiet);
    t.end_tick(step.due, step.num, 30, 50);
    assert_eq!(t.wait_time_at(30), 0);
}

#[test]
fn echo_is_acknowledged_after_a_while() {
    let mut t = transport(0);
    assert!(!t.update_echo_ack(10_000));
    t.register_input_frame(3, 1000);
    t.register_input_frame(4, 1020);
    assert!(!t.update_echo_ack(1049));
    assert!(t.update_echo_ack(1050));
    assert_eq!(t.echo_ack(), 3);
    assert!(!t.update_echo_ack(1069));
    assert!(t.update_echo_ack(1070));
    assert_eq!(t.echo_ack(), 4);
    t.register_input_frame(9, 2000);
    t.register_input_frame(7, 2000);
    assert!(t.update_echo_ack(5000));
    assert_eq!(t.echo_ack(), 9);
    assert!(!t.update_echo_ack(6000));
}

#[test]
fn drawn_byte_tells_the_length_of_chaff() {
    assert_eq!(chaff_len(0), 0);
    assert_eq!(chaff_len(16), 16);
    assert_eq!(chaff_len(17), 0);
    assert_eq!(chaff_len(255), 0);
    assert_eq!(chaff_len(254), 16);
}

#[test]
fn real_clock_and_chance_are_used() {
    let mut t = ServerTransport::new(Connection::with_key(key()).unwrap());
    let mut client = Client::new();
    for d in client.datagrams(&input(0, 1, 0, b"keys")) {
        let r = t.recv(&d, HOME);
        assert_eq!(r.diff, Some(b"keys".to_vec()));
    }
    assert!(t.wait_time() <= 100);
    t.push_output(b"x");
    t.set_pending_echo_ack(1);
    t.set_pending_resize(1, 2);
    assert!(t.wait_time() <= 20);
    let start = timestamp();
    while timestamp() < start + 40 {}
    let inst = client.read(&t.tick(50)).unwrap();
    assert_eq!(inst.diff.unwrap(), make_host_diff(b"x", Some(1), Some((1, 2))));
    assert!(inst.chaff.unwrap().len() <= 16);
    let lengths: Vec<usize> = (0..200).map(|_| random_chaff().len()).collect();
    assert!(lengths.iter().all(|&n| n <= 16));
    assert!(lengths.iter().any(|&n| n != lengths[0]));
}
