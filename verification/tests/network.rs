use mosh_rs::crypto::{Base64Key, Message, MoshNonce, Session};
use mosh_rs::network::{
    connect_line, timestamp, timestamp16, timestamp16_of, timestamp_diff, timestamp_of, Connection,
    Direction, NetworkError, Outgoing, Packet, RemoteAddr, RttSample, ADDED_BYTES,
    CRYPTO_ADDED_BYTES,
};
use mosh_rs::ports::{parse_port_range, PortRange};
use mosh_rs::text::{parse_i32, parse_u16, same_text, to_decimal};

const HOME: RemoteAddr = RemoteAddr::V4 { ip: 0x7f00_0001, port: 1000 };
const AWAY: RemoteAddr = RemoteAddr::V6 { ip6: 1, port: 1000, flowinfo: 0, scope_id: 0 };

fn key() -> Base64Key {
    Base64Key::from_data([3; 16])
}

fn server() -> Connection {
    Connection::with_key(key()).unwrap()
}

fn client_datagram(seq: u64, timestamp: u16, timestamp_reply: u16, payload: &[u8]) -> Vec<u8> {
    let packet = Packet {
        seq,
        direction: Direction::ToServer,
        timestamp,
        timestamp_reply,
        payload: payload.to_vec(),
    };
    Session::new(&key()).unwrap().encrypt(&packet.to_message()).unwrap()
}

fn opened(bytes: &[u8]) -> Packet {
    let message = Session::new(&key()).unwrap().decrypt(bytes).unwrap();
    Packet::from_message(&message).unwrap()
}

fn datagram(out: Result<Outgoing, NetworkError>) -> (RemoteAddr, Vec<u8>) {
    match out.unwrap() {
        Outgoing::Datagram { to, bytes } => (to, bytes),
        _ => panic!("nothing to send"),
    }
}

fn same(a: RemoteAddr, b: RemoteAddr) -> bool {
    a == b
}

#[test]
fn clock_is_in_milliseconds() {
    let a = timestamp();
    assert!(a > 1_600_000_000_000);
    assert!(timestamp() >= a);
    assert_ne!(timestamp16(), 0xffff);
    assert_eq!(timestamp_of(None), 0);
    assert_eq!(timestamp_of(Some(5)), 5);
    assert_eq!(timestamp_of(Some((1 << 64) + 5)), 5);
}

#[test]
fn short_timestamps() {
    assert_eq!(timestamp16_of(0), 0);
    assert_eq!(timestamp16_of(65534), 65534);
    assert_eq!(timestamp16_of(65535), 0);
    assert_eq!(timestamp16_of(65536), 0);
    assert_eq!(timestamp16_of(70000), 4464);
    assert_eq!(timestamp_diff(10, 3), 7);
    assert_eq!(timestamp_diff(3, 10), 65529);
    assert_eq!(timestamp_diff(0, 65535), 1);
    assert_eq!(timestamp_diff(5, 5), 0);
}

#[test]
fn packet_in_a_message() {
    let packet = Packet {
        seq: 9,
        direction: Direction::ToClient,
        timestamp: 0x0102,
        timestamp_reply: 0xfffe,
        payload: vec![5, 6],
    };
    let message = packet.to_message();
    assert_eq!(message.text, [1, 2, 0xff, 0xfe, 5, 6]);
    assert_eq!(message.nonce.val(), 0x8000_0000_0000_0009);
    let back = Packet::from_message(&message).unwrap();
    assert_eq!(back.seq, 9);
    assert!(back.direction == Direction::ToClient);
    assert_eq!(back.timestamp, 0x0102);
    assert_eq!(back.timestamp_reply, 0xfffe);
    assert_eq!(back.payload, [5, 6]);
}

#[test]
fn packet_needs_two_timestamps() {
    for len in 0..4 {
        let message = Message { nonce: MoshNonce::from_val(1), text: vec![0; len] };
        let err = Packet::from_message(&message).err().unwrap();
        assert_eq!(err.message, "Packet too short for timestamps.");
    }
    let message = Message { nonce: MoshNonce::from_val(1), text: vec![0; 4] };
    assert!(Packet::from_message(&message).unwrap().payload.is_empty());
}

#[test]
fn server_starts_without_a_client() {
    let mut c = server();
    assert!(!c.has_remote_addr());
    assert_eq!(c.get_mtu(), 1252);
    assert_eq!(c.get_key(), key().printable_key());
    assert!(matches!(c.send_at(b"x", 5, 5), Ok(Outgoing::NoClient)));
    assert_eq!(ADDED_BYTES, 12);
    assert_eq!(CRYPTO_ADDED_BYTES, 16);
}

#[test]
fn timeout_is_kept_in_bounds() {
    let c = server();
    assert_eq!(c.timeout(0), 50);
    assert_eq!(c.timeout(50), 50);
    assert_eq!(c.timeout(333), 333);
    assert_eq!(c.timeout(3000), 1000);
}

#[test]
fn datagram_of_the_client_attaches_it() {
    let mut c = server();
    let r = c.recv_at(&client_datagram(4, 100, 0xffff, b"hi"), HOME, 50, 60, 70);
    assert_eq!(r.payload.unwrap(), b"hi");
    assert!(r.attached);
    assert!(r.rtt.is_none());
    assert!(c.has_remote_addr());
    let r = c.recv_at(&client_datagram(5, 100, 0xffff, b""), HOME, 50, 60, 70);
    assert_eq!(r.payload.unwrap(), b"");
    assert!(!r.attached);
    let r = c.recv_at(&client_datagram(6, 100, 0xffff, b"x"), AWAY, 50, 60, 70);
    assert!(r.attached);
    let (to, _) = datagram(c.send_at(b"y", 80, 80));
    assert!(same(to, AWAY));
}

#[test]
fn old_datagrams_are_handed_on_but_change_nothing() {
    let mut c = server();
    c.recv_at(&client_datagram(10, 100, 0xffff, b"new"), HOME, 50, 60, 70);
    let r = c.recv_at(&client_datagram(9, 100, 55, b"old"), AWAY, 500, 60, 700);
    assert_eq!(r.payload.unwrap(), b"old");
    assert!(!r.attached);
    assert!(r.rtt.is_none());
    let r = c.recv_at(&client_datagram(10, 100, 55, b"new"), AWAY, 500, 60, 700);
    assert_eq!(r.payload.unwrap(), b"new");
    assert!(!r.attached);
    let (to, bytes) = datagram(c.send_at(b"y", 71, 80));
    assert!(same(to, HOME));
    assert_eq!(opened(&bytes).timestamp_reply, 100 + 21);
}

#[test]
fn forged_and_reflected_datagrams_are_ignored() {
    let mut c = server();
    assert!(c.recv_at(b"short", HOME, 1, 1, 1).payload.is_none());
    let mut bad = client_datagram(1, 0, 0, b"x");
    bad[20] ^= 1;
    assert!(c.recv_at(&bad, HOME, 1, 1, 1).payload.is_none());
    assert!(!c.has_remote_addr());
    c.recv_at(&client_datagram(1, 0, 0xffff, b"x"), HOME, 1, 1, 1);
    let (_, own) = datagram(c.send_at(b"y", 5, 5));
    assert!(c.recv_at(&own, AWAY, 6, 6, 6).payload.is_none());
    let tiny = Message { nonce: MoshNonce::from_val(8), text: vec![1, 2, 3] };
    let tiny = Session::new(&key()).unwrap().encrypt(&tiny).unwrap();
    assert!(c.recv_at(&tiny, AWAY, 6, 6, 6).payload.is_none());
}

#[test]
fn sent_packets_are_numbered_from_one() {
    let mut c = server();
    c.recv_at(&client_datagram(0, 0xffff, 0xffff, b""), HOME, 10, 10, 10);
    for seq in 1..4 {
        let (to, bytes) = datagram(c.send_at(b"payload", 20, 777));
        assert!(same(to, HOME));
        assert_eq!(bytes.len(), 7 + ADDED_BYTES + CRYPTO_ADDED_BYTES);
        let packet = opened(&bytes);
        assert_eq!(packet.seq, seq);
        assert!(packet.direction == Direction::ToClient);
        assert_eq!(packet.timestamp, 777);
        assert_eq!(packet.timestamp_reply, 0xffff);
        assert_eq!(packet.payload, b"payload");
    }
}

#[test]
fn timestamp_is_answered_once_within_a_second() {
    let mut c = server();
    c.recv_at(&client_datagram(0, 65500, 0xffff, b""), HOME, 1000, 0, 1000);
    let (_, bytes) = datagram(c.send_at(b"", 1999, 0));
    assert_eq!(opened(&bytes).timestamp_reply, 65500u16.wrapping_add(999));
    let (_, bytes) = datagram(c.send_at(b"", 1999, 0));
    assert_eq!(opened(&bytes).timestamp_reply, 0xffff);
    c.recv_at(&client_datagram(1, 7, 0xffff, b""), HOME, 1000, 0, 1000);
    let (_, bytes) = datagram(c.send_at(b"", 2000, 0));
    assert_eq!(opened(&bytes).timestamp_reply, 0xffff);
}

#[test]
fn nonces_differ_and_answers_follow_timestamps() {
    let mut c = server();
    let mut nonces: Vec<Vec<u8>> = Vec::new();
    let mut received = 0;
    let mut answered = 0;
    for i in 0..60u64 {
        if i % 7 == 0 {
            c.recv_at(&client_datagram(i, 5, 0xffff, b""), HOME, 100 + i, 1, 100 + i);
            received += 1;
        } else {
            let (_, bytes) = datagram(c.send_at(b"x", 100 + i, 1));
            nonces.push(bytes[..8].to_vec());
            answered += (opened(&bytes).timestamp_reply != 0xffff) as u32;
        }
        assert!(answered <= received);
    }
    assert_eq!(answered, received);
    let count = nonces.len();
    nonces.sort();
    nonces.dedup();
    assert_eq!(nonces.len(), count);
}

#[test]
fn round_trips_are_measured() {
    let mut c = server();
    let r = c.recv_at(&client_datagram(0, 1, 100, b""), HOME, 0, 130, 0);
    assert!(r.rtt == Some(RttSample::First(30)));
    let r = c.recv_at(&client_datagram(1, 1, 65530, b""), HOME, 0, 4, 0);
    assert!(r.rtt == Some(RttSample::Later(10)));
    let r = c.recv_at(&client_datagram(2, 1, 0, b""), HOME, 0, 5000, 0);
    assert!(r.rtt.is_none());
    let r = c.recv_at(&client_datagram(3, 1, 0, b""), HOME, 0, 4999, 0);
    assert!(r.rtt == Some(RttSample::Later(4999)));
    let r = c.recv_at(&client_datagram(4, 1, 0xffff, b""), HOME, 0, 3, 0);
    assert!(r.rtt.is_none());
}

#[test]
fn silent_client_is_forgotten() {
    let mut c = server();
    c.recv_at(&client_datagram(0, 1, 0xffff, b""), HOME, 10, 10, 1000);
    assert!(matches!(c.send_at(b"", 41000, 0), Ok(Outgoing::Datagram { .. })));
    assert!(matches!(c.send_at(b"", 41001, 0), Ok(Outgoing::Detached)));
    assert!(!c.has_remote_addr());
    assert!(matches!(c.send_at(b"", 41001, 0), Ok(Outgoing::NoClient)));
    let r = c.recv_at(&client_datagram(1, 1, 0xffff, b""), HOME, 10, 10, 42000);
    assert!(r.attached);
}

#[test]
fn client_heard_at_time_zero_is_not_forgotten() {
    let mut c = server();
    c.recv_at(&client_datagram(0, 1, 0xffff, b""), HOME, 0, 10, 0);
    assert!(matches!(c.send_at(b"", 1_000_000, 0), Ok(Outgoing::Datagram { .. })));
}

#[test]
fn connection_reads_the_clock() {
    let mut c = server();
    let r = c.recv(&client_datagram(0, 1, 0xffff, b"p"), HOME);
    assert_eq!(r.payload.unwrap(), b"p");
    let (_, bytes) = datagram(c.send(b"q"));
    let packet = opened(&bytes);
    assert_eq!(packet.payload, b"q");
    assert_ne!(packet.timestamp, 0xffff);
    assert_eq!(bytes.len(), 1 + ADDED_BYTES + CRYPTO_ADDED_BYTES);
    assert!(packet.timestamp_reply < 1001);
}

#[test]
fn new_server_plans_where_to_bind() {
    let (c, mut plan) = Connection::new_server(None, None).unwrap();
    assert_eq!(c.get_key().len(), 22);
    for port in 60001..=60999u16 {
        let (p, address) = plan.next_candidate().unwrap();
        assert_eq!(p, port);
        assert_eq!(address, format!("0.0.0.0:{}", port));
    }
    assert_eq!(plan.next_candidate().unwrap_err().to_string(), "Could not bind to any port");

    let (_, mut plan) = Connection::new_server(Some("::1"), Some("8080")).unwrap();
    assert_eq!(plan.next_candidate().unwrap(), (8080, "::1:8080".to_string()));
    assert!(plan.next_candidate().is_err());

    let (_, mut plan) = Connection::new_server(None, Some("65534:65535")).unwrap();
    assert_eq!(plan.next_candidate().unwrap().0, 65534);
    assert_eq!(plan.next_candidate().unwrap().0, 65535);
    assert!(plan.next_candidate().is_err());

    let (_, mut plan) = Connection::new_server(None, Some("5:4")).unwrap();
    assert_eq!(plan.next_candidate().unwrap_err().message, "Could not bind to any port");

    for bad in ["", "x", "1:", ":1", "1:2:3", "65536", "-1", "1 "] {
        let err = Connection::new_server(None, Some(bad)).err().unwrap();
        assert_eq!(err.message, "Invalid port");
    }
}

#[test]
fn port_ranges() {
    let range = |low, high| Some(PortRange { low, high });
    assert!(parse_port_range("60001") == range(60001, 60001));
    assert!(parse_port_range("60001:60005") == range(60001, 60005));
    assert!(parse_port_range("+7:007") == range(7, 7));
    assert!(parse_port_range("7:+") == None);
    assert!(parse_port_range("7::8") == None);
    assert!(range(3, 2).unwrap().next().is_none());
    assert!(range(65535, 65535).unwrap().next() == Some((65535, None)));
    assert!(range(1, 2).unwrap().next() == Some((1, range(2, 2))));
}

#[test]
fn numbers_parse_like_in_std() {
    let texts = [
        "", "0", "00", "+0", "-0", "+", "-", "++1", "+-1", "1", "65535", "65536", "0065535",
        "2147483647", "2147483648", "-2147483648", "-2147483649", "99999999999999999999", "12a",
        " 1", "1_0", "0x1", "256", "-+1", "\u{661}",
    ];
    for text in texts {
        assert_eq!(parse_u16(text), text.parse().ok(), "{}", text);
        assert_eq!(parse_i32(text), text.parse().ok(), "{}", text);
    }
    for n in [0u64, 7, 10, 99, 100, 65535, u64::MAX] {
        assert_eq!(to_decimal(n), n.to_string());
        assert_eq!(parse_u16(&to_decimal(n)), u16::try_from(n).ok());
    }
    assert!(same_text("abc", "abc"));
    assert!(!same_text("abc", "abd"));
    assert!(!same_text("abc", "ab"));
}

#[test]
fn client_is_told_where_to_connect() {
    assert_eq!(connect_line(60001, "KEY"), "\r\nMOSH CONNECT 60001 KEY\r\n");
}
