use mosh_rs::host_message::{
    EchoAck, HostBytes, HostInstruction, HostMessage,
};
use mosh_rs::messages::{from_int32_wire, to_int32_wire, Instruction, ResizeMessage};
use mosh_rs::octets::{copy_from, push_be, read_be, read_be16};
use mosh_rs::user_message::UserMessage;
use mosh_rs::wire::{get_field, put_bytes_field, put_varint_field, Field};
use prost::bytes::{Buf, BufMut};
use prost::encoding::{self, DecodeContext, WireType};
use prost::{DecodeError, Message};

/// The transport instruction, decoded field by field with the functions that
/// generated code calls.
#[derive(Debug, Default, PartialEq)]
struct Peer {
    protocol_version: Option<u32>,
    old_num: Option<u64>,
    new_num: Option<u64>,
    ack_num: Option<u64>,
    throwaway_num: Option<u64>,
    diff: Option<Vec<u8>>,
    chaff: Option<Vec<u8>>,
}

impl Message for Peer {
    fn encode_raw(&self, buf: &mut impl BufMut) {
        if let Some(v) = &self.protocol_version {
            encoding::uint32::encode(1, v, buf);
        }
        if let Some(v) = &self.old_num {
            encoding::uint64::encode(2, v, buf);
        }
        if let Some(v) = &self.new_num {
            encoding::uint64::encode(3, v, buf);
        }
        if let Some(v) = &self.ack_num {
            encoding::uint64::encode(4, v, buf);
        }
        if let Some(v) = &self.throwaway_num {
            encoding::uint64::encode(5, v, buf);
        }
        if let Some(v) = &self.diff {
            encoding::bytes::encode(6, v, buf);
        }
        if let Some(v) = &self.chaff {
            encoding::bytes::encode(7, v, buf);
        }
    }

    fn merge_field(
        &mut self,
        tag: u32,
        wire_type: WireType,
        buf: &mut impl Buf,
        ctx: DecodeContext,
    ) -> Result<(), DecodeError> {
        match tag {
            1 => {
                let v = self.protocol_version.get_or_insert(0);
                encoding::uint32::merge(wire_type, v, buf, ctx)
            }
            2 => encoding::uint64::merge(wire_type, self.old_num.get_or_insert(0), buf, ctx),
            3 => encoding::uint64::merge(wire_type, self.new_num.get_or_insert(0), buf, ctx),
            4 => encoding::uint64::merge(wire_type, self.ack_num.get_or_insert(0), buf, ctx),
            5 => encoding::uint64::merge(wire_type, self.throwaway_num.get_or_insert(0), buf, ctx),
            6 => {
                let v = self.diff.get_or_insert_with(Vec::new);
                encoding::bytes::merge(wire_type, v, buf, ctx)
            }
            7 => {
                let v = self.chaff.get_or_insert_with(Vec::new);
                encoding::bytes::merge(wire_type, v, buf, ctx)
            }
            _ => encoding::skip_field(wire_type, tag, buf, ctx),
        }
    }

    fn encoded_len(&self) -> usize {
        let mut out = Vec::new();
        self.encode_raw(&mut out);
        out.len()
    }

    fn clear(&mut self) {
        *self = Peer::default();
    }
}

#[derive(Debug, Default, PartialEq, Clone)]
struct PeerKeys {
    keys: Option<Vec<u8>>,
}

impl Message for PeerKeys {
    fn encode_raw(&self, buf: &mut impl BufMut) {
        if let Some(v) = &self.keys {
            encoding::bytes::encode(4, v, buf);
        }
    }

    fn merge_field(
        &mut self,
        tag: u32,
        wire_type: WireType,
        buf: &mut impl Buf,
        ctx: DecodeContext,
    ) -> Result<(), DecodeError> {
        match tag {
            4 => {
                let v = self.keys.get_or_insert_with(Vec::new);
                encoding::bytes::merge(wire_type, v, buf, ctx)
            }
            _ => encoding::skip_field(wire_type, tag, buf, ctx),
        }
    }

    fn encoded_len(&self) -> usize {
        let mut out = Vec::new();
        self.encode_raw(&mut out);
        out.len()
    }

    fn clear(&mut self) {
        *self = PeerKeys::default();
    }
}

#[derive(Debug, Default, PartialEq, Clone)]
struct PeerSize {
    width: Option<i32>,
    height: Option<i32>,
}

impl Message for PeerSize {
    fn encode_raw(&self, buf: &mut impl BufMut) {
        if let Some(v) = &self.width {
            encoding::int32::encode(5, v, buf);
        }
        if let Some(v) = &self.height {
            encoding::int32::encode(6, v, buf);
        }
    }

    fn merge_field(
        &mut self,
        tag: u32,
        wire_type: WireType,
        buf: &mut impl Buf,
        ctx: DecodeContext,
    ) -> Result<(), DecodeError> {
        match tag {
            5 => encoding::int32::merge(wire_type, self.width.get_or_insert(0), buf, ctx),
            6 => encoding::int32::merge(wire_type, self.height.get_or_insert(0), buf, ctx),
            _ => encoding::skip_field(wire_type, tag, buf, ctx),
        }
    }

    fn encoded_len(&self) -> usize {
        let mut out = Vec::new();
        self.encode_raw(&mut out);
        out.len()
    }

    fn clear(&mut self) {
        *self = PeerSize::default();
    }
}

#[derive(Debug, Default, PartialEq, Clone)]
struct PeerAct {
    keystroke: Option<PeerKeys>,
    resize: Option<PeerSize>,
}

impl Message for PeerAct {
    fn encode_raw(&self, buf: &mut impl BufMut) {
        if let Some(v) = &self.keystroke {
            encoding::message::encode(2, v, buf);
        }
        if let Some(v) = &self.resize {
            encoding::message::encode(3, v, buf);
        }
    }

    fn merge_field(
        &mut self,
        tag: u32,
        wire_type: WireType,
        buf: &mut impl Buf,
        ctx: DecodeContext,
    ) -> Result<(), DecodeError> {
        match tag {
            2 => {
                let v = self.keystroke.get_or_insert_with(PeerKeys::default);
                encoding::message::merge(wire_type, v, buf, ctx)
            }
            3 => {
                let v = self.resize.get_or_insert_with(PeerSize::default);
                encoding::message::merge(wire_type, v, buf, ctx)
            }
            _ => encoding::skip_field(wire_type, tag, buf, ctx),
        }
    }

    fn encoded_len(&self) -> usize {
        let mut out = Vec::new();
        self.encode_raw(&mut out);
        out.len()
    }

    fn clear(&mut self) {
        *self = PeerAct::default();
    }
}

#[derive(Debug, Default, PartialEq)]
struct PeerUser {
    instruction: Vec<PeerAct>,
}

impl Message for PeerUser {
    fn encode_raw(&self, buf: &mut impl BufMut) {
        for v in &self.instruction {
            encoding::message::encode(1, v, buf);
        }
    }

    fn merge_field(
        &mut self,
        tag: u32,
        wire_type: WireType,
        buf: &mut impl Buf,
        ctx: DecodeContext,
    ) -> Result<(), DecodeError> {
        match tag {
            1 => encoding::message::merge_repeated(wire_type, &mut self.instruction, buf, ctx),
            _ => encoding::skip_field(wire_type, tag, buf, ctx),
        }
    }

    fn encoded_len(&self) -> usize {
        let mut out = Vec::new();
        self.encode_raw(&mut out);
        out.len()
    }

    fn clear(&mut self) {
        *self = PeerUser::default();
    }
}

fn to_peer(i: Instruction) -> Peer {
    Peer {
        protocol_version: i.protocol_version,
        old_num: i.old_num,
        new_num: i.new_num,
        ack_num: i.ack_num,
        throwaway_num: i.throwaway_num,
        diff: i.diff,
        chaff: i.chaff,
    }
}

fn to_peer_user(m: UserMessage) -> PeerUser {
    PeerUser {
        instruction: m
            .instruction
            .into_iter()
            .map(|i| PeerAct {
                keystroke: i.keystroke.map(|k| PeerKeys { keys: k.keys }),
                resize: i.resize.map(|r| PeerSize { width: r.width, height: r.height }),
            })
            .collect(),
    }
}

struct Lcg(u64);

impl Lcg {
    fn next(&mut self) -> u64 {
        self.0 = self.0.wrapping_mul(6364136223846793005).wrapping_add(1442695040888963407);
        self.0 >> 33
    }
}

fn sample() -> Instruction {
    Instruction {
        protocol_version: Some(2),
        old_num: Some(0),
        new_num: Some(300),
        ack_num: Some(u64::MAX),
        throwaway_num: Some(0),
        diff: Some(vec![1, 2, 3]),
        chaff: Some(vec![]),
    }
}

#[test]
fn instruction_has_the_known_bytes() {
    let mut expected = vec![8, 2, 16, 0, 24, 0xac, 2, 32];
    expected.extend_from_slice(&[0xff; 9]);
    expected.extend_from_slice(&[1, 40, 0, 50, 3, 1, 2, 3, 58, 0]);
    assert_eq!(sample().encode_to_vec(), expected);
}

#[test]
fn instruction_is_decoded_again() {
    let m = Instruction::decode(&sample().encode_to_vec()).unwrap();
    assert_eq!(to_peer(m), to_peer(sample()));
    let nothing = Instruction::decode(&[]).unwrap();
    assert_eq!(to_peer(nothing), Peer::default());
    let missing = Instruction::decode(&[]).unwrap();
    assert_eq!(missing.protocol_version(), 0);
    assert_eq!(missing.old_num(), 0);
    assert_eq!(missing.new_num(), 0);
    assert_eq!(missing.ack_num(), 0);
    assert_eq!(sample().protocol_version(), 2);
    assert_eq!(sample().new_num(), 300);
    assert_eq!(sample().old_num(), 0);
    assert_eq!(sample().ack_num(), u64::MAX);
}

#[test]
fn instruction_encodes_like_generated_code() {
    let mut lcg = Lcg(1);
    for _ in 0..500 {
        let mut num = || {
            let keep = lcg.next() % 3 != 0;
            let shift = lcg.next() % 64;
            let v = (lcg.next() << 33 ^ lcg.next()) >> shift;
            keep.then_some(v)
        };
        let m = Instruction {
            protocol_version: num().map(|v| v as u32),
            old_num: num(),
            new_num: num(),
            ack_num: num(),
            throwaway_num: num(),
            diff: num().map(|v| vec![v as u8; (v % 300) as usize]),
            chaff: num().map(|v| vec![v as u8; (v % 17) as usize]),
        };
        let bytes = m.encode_to_vec();
        let peer = to_peer(m);
        assert_eq!(bytes, peer.encode_to_vec());
        assert_eq!(to_peer(Instruction::decode(&bytes).unwrap()), peer);
    }
}

#[test]
fn instruction_decodes_like_generated_code() {
    let mut lcg = Lcg(2);
    let good = sample().encode_to_vec();
    let mut accepted = 0;
    for round in 0..20000 {
        let mut bytes = if round % 2 == 0 {
            let len = lcg.next() % 24;
            (0..len).map(|_| lcg.next() as u8 % 80).collect()
        } else {
            good.clone()
        };
        for _ in 0..lcg.next() % 3 {
            if !bytes.is_empty() {
                let i = lcg.next() as usize % bytes.len();
                bytes[i] = lcg.next() as u8;
            }
        }
        let ours = Instruction::decode(&bytes).map(to_peer);
        let theirs = Peer::decode(&bytes[..]).ok();
        assert_eq!(ours, theirs, "{:?}", bytes);
        accepted += ours.is_some() as u32;
    }
    assert!(accepted > 1000);
}

#[test]
fn user_message_decodes_like_generated_code() {
    let act = PeerUser {
        instruction: vec![
            PeerAct { keystroke: Some(PeerKeys { keys: Some(b"ls\r".to_vec()) }), resize: None },
            PeerAct {
                keystroke: None,
                resize: Some(PeerSize { width: Some(-1), height: Some(40) }),
            },
            PeerAct::default(),
        ],
    };
    let good = act.encode_to_vec();
    assert_eq!(to_peer_user(UserMessage::decode(&good).unwrap()), act);
    let mut lcg = Lcg(3);
    let mut accepted = 0;
    for _ in 0..20000 {
        let mut bytes = good.clone();
        for _ in 0..1 + lcg.next() % 3 {
            let i = lcg.next() as usize % bytes.len();
            bytes[i] = lcg.next() as u8 % 64;
        }
        bytes.truncate(lcg.next() as usize % (2 * bytes.len()));
        let ours = UserMessage::decode(&bytes).map(to_peer_user);
        let theirs = PeerUser::decode(&bytes[..]).ok();
        assert_eq!(ours, theirs, "{:?}", bytes);
        accepted += ours.is_some() as u32;
    }
    assert!(accepted > 100);
}

#[test]
fn repeated_parts_of_an_instruction_are_merged() {
    // Two keystroke fields in one instruction: the second has no keys.
    let bytes = [10, 7, 18, 3, 34, 1, 65, 18, 0];
    let m = UserMessage::decode(&bytes).unwrap();
    assert_eq!(m.instruction.len(), 1);
    assert_eq!(m.instruction[0].keystroke.as_ref().unwrap().keys, Some(vec![65]));
}

fn nested_groups(levels: usize, inner: &[u8]) -> Vec<u8> {
    let mut bytes = vec![75; levels];
    bytes.extend_from_slice(inner);
    bytes.extend(vec![76; levels]);
    bytes
}

#[test]
fn groups_nest_as_deep_as_in_generated_code() {
    for levels in 1..110 {
        for inner in [vec![], vec![72, 1]] {
            let group = nested_groups(levels, &inner);
            assert_eq!(
                Instruction::decode(&group).map(to_peer),
                Peer::decode(&group[..]).ok(),
                "{}",
                levels
            );
            let mut act = vec![10, group.len() as u8 % 128];
            if group.len() >= 128 {
                act = vec![10, (group.len() % 128 + 128) as u8, (group.len() / 128) as u8];
            }
            act.extend_from_slice(&group);
            assert_eq!(
                UserMessage::decode(&act).map(to_peer_user),
                PeerUser::decode(&act[..]).ok(),
                "{}",
                levels
            );
        }
    }
    assert!(Instruction::decode(&nested_groups(100, &[])).is_some());
    assert!(Instruction::decode(&nested_groups(101, &[])).is_none());
    assert!(Instruction::decode(&[75, 84]).is_none());
    assert!(Instruction::decode(&[76]).is_none());
}

#[test]
fn fields_of_every_type_are_read() {
    let mut out = Vec::new();
    put_varint_field(3, 300, &mut out);
    assert_eq!(out, [24, 0xac, 2]);
    put_bytes_field(6, b"ab", &mut out);
    assert_eq!(out, [24, 0xac, 2, 50, 2, b'a', b'b']);
    let (tag, field, rest) = get_field(&out, 100).unwrap();
    assert_eq!(tag, 3);
    assert!(matches!(field, Field::Varint(300)));
    let (tag, field, rest) = get_field(rest, 100).unwrap();
    assert_eq!(tag, 6);
    assert!(matches!(field, Field::Bytes(b"ab")));
    assert!(rest.is_empty());
    let (tag, field, rest) = get_field(&[73, 1, 2, 3, 4, 5, 6, 7, 8, 9], 100).unwrap();
    assert!(tag == 9 && matches!(field, Field::Fixed64) && rest == [9]);
    let (tag, field, rest) = get_field(&[77, 1, 2, 3, 4, 5], 100).unwrap();
    assert!(tag == 9 && matches!(field, Field::Fixed32) && rest == [5]);
    let (tag, field, rest) = get_field(&[75, 24, 1, 76, 5], 100).unwrap();
    assert!(tag == 9 && matches!(field, Field::Group) && rest == [5]);
    assert!(get_field(&[73, 1, 2, 3, 4, 5, 6, 7], 100).is_none());
    assert!(get_field(&[77, 1, 2, 3], 100).is_none());
    assert!(get_field(&[50, 3, 1, 2], 100).is_none());
    assert!(get_field(&[78, 1], 100).is_none());
    assert!(get_field(&[0, 1], 100).is_none());
    assert!(get_field(&[], 100).is_none());
}

#[test]
fn signed_numbers_on_the_wire() {
    for v in [0, 1, -1, i32::MIN, i32::MAX, 80] {
        assert_eq!(to_int32_wire(v), v as i64 as u64);
        assert_eq!(from_int32_wire(to_int32_wire(v)), v);
    }
    for v in [0x8000_0000u64, 0xffff_ffff_0000_0007, u64::MAX] {
        assert_eq!(from_int32_wire(v), v as i32);
    }
}

#[test]
fn resize_defaults_to_zero() {
    let m = ResizeMessage { width: Some(80), height: None };
    assert_eq!((m.width(), m.height()), (80, 0));
    assert_eq!(m.encode_to_vec(), [40, 80]);
    let back = ResizeMessage::empty().merge(&m.encode_to_vec()).unwrap();
    assert_eq!((back.width, back.height), (Some(80), None));
    assert!(m.merge(&[45, 1, 2, 3, 4]).is_none());
}

#[test]
fn host_message_has_the_known_bytes() {
    let m = HostMessage {
        instruction: vec![
            HostInstruction {
                hostbytes: None,
                resize: None,
                echoack: Some(EchoAck { echo_ack_num: Some(5) }),
            },
            HostInstruction {
                hostbytes: Some(HostBytes { hoststring: Some(b"hi".to_vec()) }),
                resize: Some(ResizeMessage { width: Some(80), height: Some(24) }),
                echoack: None,
            },
        ],
    };
    assert_eq!(
        m.encode_to_vec(),
        [10, 4, 58, 2, 64, 5, 10, 12, 18, 4, 34, 2, b'h', b'i', 26, 4, 40, 80, 48, 24]
    );
}

#[test]
fn big_endian_numbers() {
    let mut out = vec![9];
    push_be(&mut out, 0x0102_0304, 4);
    assert_eq!(out, [9, 1, 2, 3, 4]);
    push_be(&mut out, 0x1_0005, 2);
    assert_eq!(out, [9, 1, 2, 3, 4, 0, 5]);
    assert_eq!(read_be(&out[1..5]), 0x0102_0304);
    assert_eq!(read_be(&[0xff; 8]), u64::MAX);
    assert_eq!(read_be(&[]), 0);
    assert_eq!(read_be16(0x12, 0x34), 0x1234);
    assert_eq!(copy_from(&[1, 2, 3], 1), [2, 3]);
}
