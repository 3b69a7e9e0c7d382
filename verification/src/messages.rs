//! The transport instruction, and what the client's and the server's messages
//! have in common. All are in the protocol buffer wire format, and all of their
//! fields are optional.

use vstd::prelude::*;
use vstd::slice::slice_to_vec;

use crate::wire::{self, get_field, put_content, put_number, Field};

verus! {

/// How deep a message may nest: itself, and groups or messages within it.
pub const MESSAGE_DEPTH: u32 = 100;

/// Bytes in memory are fewer than `2^64`.
proof fn lemma_bytes_len(bytes: &Option<Vec<u8>>)
    ensures
        wire::bytes_view(*bytes) matches Some(b) ==> b.len() <= u64::MAX,
{
    if let Some(b) = bytes {
        assert(b.len() == b@.len());
    }
}

/// A signed 32-bit number on the wire: extended to 64 bits with its sign.
pub open spec fn int32_wire(v: i32) -> nat {
    if v >= 0 {
        v as nat
    } else {
        (0x1_0000_0000_0000_0000 + v) as nat
    }
}

/// The signed 32-bit number in the low 32 bits of a number on the wire.
pub open spec fn int32_of(v: nat) -> i32 {
    if v % 0x1_0000_0000 < 0x8000_0000 {
        (v % 0x1_0000_0000) as i32
    } else {
        (v % 0x1_0000_0000 - 0x1_0000_0000) as i32
    }
}

/// The unsigned 32-bit number in the low 32 bits of a number on the wire.
pub open spec fn uint32_of(v: nat) -> u32 {
    (v % 0x1_0000_0000) as u32
}

/// A signed number that was written is read back.
pub proof fn law_int32_read_after_write(v: i32)
    ensures
        int32_of(int32_wire(v)) == v,
        int32_wire(v) <= u64::MAX,
{
}

/// A signed number as a number on the wire.
pub fn to_int32_wire(v: i32) -> (w: u64)
    ensures
        w == int32_wire(v),
{
    if v >= 0 {
        v as u64
    } else {
        (0x1_0000_0000_0000_0000i128 + v as i128) as u64
    }
}

/// The signed number in a number on the wire.
pub fn from_int32_wire(v: u64) -> (r: i32)
    ensures
        r == int32_of(v as nat),
{
    let low: i64 = (v % 0x1_0000_0000) as i64;
    if low < 0x8000_0000 {
        low as i32
    } else {
        (low - 0x1_0000_0000) as i32
    }
}

/// The value of an optional number, 0 where it is missing.
pub open spec fn or_zero(v: Option<u64>) -> u64 {
    match v {
        Some(v) => v,
        None => 0,
    }
}

fn value_or_zero(v: Option<u64>) -> (r: u64)
    ensures
        r == or_zero(v),
{
    match v {
        Some(v) => v,
        None => 0,
    }
}

/// The size of a terminal.
#[derive(Clone, Copy)]
pub struct ResizeMessage {
    pub width: Option<i32>,
    pub height: Option<i32>,
}

/// An optional signed number as a number on the wire.
pub open spec fn optional_int32_wire(v: Option<i32>) -> Option<nat> {
    match v {
        Some(v) => Some(int32_wire(v)),
        None => None,
    }
}

fn to_optional_int32_wire(v: Option<i32>) -> (w: Option<u64>)
    ensures
        wire::wide(w) == optional_int32_wire(v),
{
    match v {
        Some(v) => Some(to_int32_wire(v)),
        None => None,
    }
}

impl wire::MessageView for ResizeMessage {
    open spec fn depth() -> nat {
        (MESSAGE_DEPTH - 2) as nat
    }

    open spec fn with_field(self, tag: nat, f: wire::FieldView) -> Option<ResizeMessage> {
        match f {
            wire::FieldView::Varint(v) => if tag == 5 {
                Some(ResizeMessage { width: Some(int32_of(v)), ..self })
            } else if tag == 6 {
                Some(ResizeMessage { height: Some(int32_of(v)), ..self })
            } else {
                Some(self)
            },
            _ => if tag == 5 || tag == 6 {
                None
            } else {
                Some(self)
            },
        }
    }
}

impl ResizeMessage {
    /// The message with no field set.
    pub open spec fn nothing() -> ResizeMessage {
        ResizeMessage { width: None, height: None }
    }

    /// The bytes of the message.
    pub open spec fn bytes(self) -> Seq<u8> {
        wire::number_field(5, optional_int32_wire(self.width)) + wire::number_field(
            6,
            optional_int32_wire(self.height),
        )
    }

    /// The message with no field set.
    pub fn empty() -> (m: ResizeMessage)
        ensures
            m == ResizeMessage::nothing(),
    {
        ResizeMessage { width: None, height: None }
    }

    /// The width, 0 where none is given.
    pub fn width(&self) -> (v: i32)
        ensures
            v == match self.width {
                Some(v) => v,
                None => 0,
            },
    {
        match self.width {
            Some(v) => v,
            None => 0,
        }
    }

    /// The height, 0 where none is given.
    pub fn height(&self) -> (v: i32)
        ensures
            v == match self.height {
                Some(v) => v,
                None => 0,
            },
    {
        match self.height {
            Some(v) => v,
            None => 0,
        }
    }

    /// The message with the fields of `data` read.
    pub fn merge(self, data: &[u8]) -> (r: Option<ResizeMessage>)
        ensures
            r == wire::merged(self, data@),
    {
        let mut m = self;
        let mut left = data;
        while left.len() > 0
            invariant
                wire::merged(self, data@) == wire::merged(m, left@),
            decreases left@.len(),
        {
            match get_field(left, MESSAGE_DEPTH - 2) {
                Some((tag, field, rest)) => {
                    proof {
                        wire::lemma_merged_first(m, left@, tag as nat, field@, rest@);
                    }
                    match field {
                        Field::Varint(v) => {
                            if tag == 5 {
                                m.width = Some(from_int32_wire(v));
                            } else if tag == 6 {
                                m.height = Some(from_int32_wire(v));
                            }
                        },
                        _ => {
                            if tag == 5 || tag == 6 {
                                return None;
                            }
                        },
                    }
                    left = rest;
                },
                None => {
                    proof {
                        wire::lemma_merged_bad(m, left@);
                    }
                    return None;
                },
            }
        }
        proof {
            wire::lemma_merged_nothing(m);
            assert(left@ =~= Seq::empty());
        }
        Some(m)
    }

    /// The bytes of the message.
    pub fn encode_to_vec(&self) -> (out: Vec<u8>)
        ensures
            out@ == self.bytes(),
    {
        let mut out: Vec<u8> = Vec::new();
        put_number(5, to_optional_int32_wire(self.width), &mut out);
        put_number(6, to_optional_int32_wire(self.height), &mut out);
        assert(out@ =~= self.bytes());
        out
    }
}

/// A size that was encoded is decoded again.
pub proof fn law_resize_decode_after_encode(m: ResizeMessage)
    ensures
        wire::merged(ResizeMessage::nothing(), m.bytes()) == Some(m),
{
    let m0 = ResizeMessage::nothing();
    let m1 = ResizeMessage { width: m.width, ..m0 };
    let w = optional_int32_wire(m.width);
    let h = optional_int32_wire(m.height);
    let r2 = wire::number_field(6, h) + Seq::<u8>::empty();
    assert(m.bytes() =~= wire::number_field(5, w) + r2);
    wire::lemma_merged_number(m0, 5, w, r2);
    wire::lemma_merged_number(m1, 6, h, Seq::empty());
    wire::lemma_merged_nothing(m);
}

/// A step of the transport: what changed between two states of the sender, with
/// an acknowledgment of the peer's state.
pub struct Instruction {
    pub protocol_version: Option<u32>,
    pub old_num: Option<u64>,
    pub new_num: Option<u64>,
    pub ack_num: Option<u64>,
    pub throwaway_num: Option<u64>,
    pub diff: Option<Vec<u8>>,
    pub chaff: Option<Vec<u8>>,
}

/// The content of an [`Instruction`].
pub struct InstructionView {
    pub protocol_version: Option<u32>,
    pub old_num: Option<u64>,
    pub new_num: Option<u64>,
    pub ack_num: Option<u64>,
    pub throwaway_num: Option<u64>,
    pub diff: Option<Seq<u8>>,
    pub chaff: Option<Seq<u8>>,
}

impl View for Instruction {
    type V = InstructionView;

    open spec fn view(&self) -> InstructionView {
        InstructionView {
            protocol_version: self.protocol_version,
            old_num: self.old_num,
            new_num: self.new_num,
            ack_num: self.ack_num,
            throwaway_num: self.throwaway_num,
            diff: wire::bytes_view(self.diff),
            chaff: wire::bytes_view(self.chaff),
        }
    }
}

impl InstructionView {
    /// The instruction with no field set.
    pub open spec fn empty() -> InstructionView {
        InstructionView {
            protocol_version: None,
            old_num: None,
            new_num: None,
            ack_num: None,
            throwaway_num: None,
            diff: None,
            chaff: None,
        }
    }

    /// The protocol version as a number on the wire.
    pub open spec fn version_wire(self) -> Option<nat> {
        match self.protocol_version {
            Some(v) => Some(v as nat),
            None => None,
        }
    }

    /// The bytes of the instruction: the fields that are set, by number.
    pub open spec fn bytes(self) -> Seq<u8> {
        wire::number_field(1, self.version_wire())
            + wire::number_field(2, wire::wide(self.old_num))
            + wire::number_field(3, wire::wide(self.new_num))
            + wire::number_field(4, wire::wide(self.ack_num))
            + wire::number_field(5, wire::wide(self.throwaway_num))
            + wire::content_field(6, self.diff)
            + wire::content_field(7, self.chaff)
    }
}

impl wire::MessageView for InstructionView {
    open spec fn depth() -> nat {
        MESSAGE_DEPTH as nat
    }

    open spec fn with_field(self, tag: nat, f: wire::FieldView) -> Option<InstructionView> {
        match f {
            wire::FieldView::Varint(v) => if tag == 1 {
                Some(InstructionView { protocol_version: Some(uint32_of(v)), ..self })
            } else if tag == 2 {
                Some(InstructionView { old_num: Some(v as u64), ..self })
            } else if tag == 3 {
                Some(InstructionView { new_num: Some(v as u64), ..self })
            } else if tag == 4 {
                Some(InstructionView { ack_num: Some(v as u64), ..self })
            } else if tag == 5 {
                Some(InstructionView { throwaway_num: Some(v as u64), ..self })
            } else if tag == 6 || tag == 7 {
                None
            } else {
                Some(self)
            },
            wire::FieldView::Bytes(b) => if tag == 6 {
                Some(InstructionView { diff: Some(b), ..self })
            } else if tag == 7 {
                Some(InstructionView { chaff: Some(b), ..self })
            } else if 1 <= tag <= 5 {
                None
            } else {
                Some(self)
            },
            _ => if 1 <= tag <= 7 {
                None
            } else {
                Some(self)
            },
        }
    }
}

/// The instruction that some bytes hold, if they hold one.
pub open spec fn decoded_instruction(s: Seq<u8>) -> Option<InstructionView> {
    wire::merged(InstructionView::empty(), s)
}

proof fn lemma_seven_parts(
    a: Seq<u8>,
    b: Seq<u8>,
    c: Seq<u8>,
    d: Seq<u8>,
    e: Seq<u8>,
    f: Seq<u8>,
    g: Seq<u8>,
)
    ensures
        a + b + c + d + e + f + g == a + (b + (c + (d + (e + (f + (g + Seq::<u8>::empty())))))),
{
    assert(a + b + c + d + e + f + g =~= a + (b + (c + (d + (e + (f + (g + Seq::<
        u8,
    >::empty())))))));
}

/// An instruction that was encoded is decoded again, field by field.
pub proof fn law_instruction_decode_after_encode(m: InstructionView)
    requires
        m.diff matches Some(b) ==> b.len() <= u64::MAX,
        m.chaff matches Some(b) ==> b.len() <= u64::MAX,
    ensures
        decoded_instruction(m.bytes()) == Some(m),
{
    let f1 = wire::number_field(1, m.version_wire());
    let f2 = wire::number_field(2, wire::wide(m.old_num));
    let f3 = wire::number_field(3, wire::wide(m.new_num));
    let f4 = wire::number_field(4, wire::wide(m.ack_num));
    let f5 = wire::number_field(5, wire::wide(m.throwaway_num));
    let f6 = wire::content_field(6, m.diff);
    let f7 = wire::content_field(7, m.chaff);
    let r7 = f7 + Seq::<u8>::empty();
    let r6 = f6 + r7;
    let r5 = f5 + r6;
    let r4 = f4 + r5;
    let r3 = f3 + r4;
    let r2 = f2 + r3;
    let r1 = f1 + r2;
    lemma_seven_parts(f1, f2, f3, f4, f5, f6, f7);

    let m0 = InstructionView::empty();
    let m1 = InstructionView { protocol_version: m.protocol_version, ..m0 };
    let m2 = InstructionView { old_num: m.old_num, ..m1 };
    let m3 = InstructionView { new_num: m.new_num, ..m2 };
    let m4 = InstructionView { ack_num: m.ack_num, ..m3 };
    let m5 = InstructionView { throwaway_num: m.throwaway_num, ..m4 };
    let m6 = InstructionView { diff: m.diff, ..m5 };
    assert(wire::merged(m0, r1) == wire::merged(m1, r2)) by {
        wire::lemma_merged_number(m0, 1, m.version_wire(), r2);
    }
    assert(wire::merged(m1, r2) == wire::merged(m2, r3)) by {
        wire::lemma_merged_number(m1, 2, wire::wide(m.old_num), r3);
    }
    assert(wire::merged(m2, r3) == wire::merged(m3, r4)) by {
        wire::lemma_merged_number(m2, 3, wire::wide(m.new_num), r4);
    }
    assert(wire::merged(m3, r4) == wire::merged(m4, r5)) by {
        wire::lemma_merged_number(m3, 4, wire::wide(m.ack_num), r5);
    }
    assert(wire::merged(m4, r5) == wire::merged(m5, r6)) by {
        wire::lemma_merged_number(m4, 5, wire::wide(m.throwaway_num), r6);
    }
    assert(wire::merged(m5, r6) == wire::merged(m6, r7)) by {
        wire::lemma_merged_content(m5, 6, m.diff, r7);
    }
    assert(wire::merged(m6, r7) == wire::merged(m, Seq::empty())) by {
        wire::lemma_merged_content(m6, 7, m.chaff, Seq::empty());
    }
    wire::lemma_merged_nothing(m);
}

impl Instruction {
    /// The instruction with no field set.
    fn empty() -> (m: Instruction)
        ensures
            m@ == InstructionView::empty(),
    {
        Instruction {
            protocol_version: None,
            old_num: None,
            new_num: None,
            ack_num: None,
            throwaway_num: None,
            diff: None,
            chaff: None,
        }
    }

    /// Takes a field in. False is returned where it has the wrong type.
    fn set_field(&mut self, tag: u32, field: Field) -> (ok: bool)
        ensures
            ok == wire::MessageView::with_field(old(self)@, tag as nat, field@) is Some,
            ok ==> wire::MessageView::with_field(old(self)@, tag as nat, field@) == Some(
                final(self)@,
            ),
    {
        match field {
            Field::Varint(v) => {
                match tag {
                    1 => {
                        self.protocol_version = Some((v % 0x1_0000_0000) as u32);
                    },
                    2 => {
                        self.old_num = Some(v);
                    },
                    3 => {
                        self.new_num = Some(v);
                    },
                    4 => {
                        self.ack_num = Some(v);
                    },
                    5 => {
                        self.throwaway_num = Some(v);
                    },
                    6 => return false,
                    7 => return false,
                    _ => {},
                }
                true
            },
            Field::Bytes(b) => {
                match tag {
                    6 => {
                        self.diff = Some(slice_to_vec(b));
                    },
                    7 => {
                        self.chaff = Some(slice_to_vec(b));
                    },
                    _ => {
                        if 1 <= tag && tag <= 5 {
                            return false;
                        }
                    },
                }
                true
            },
            _ => !(1 <= tag && tag <= 7),
        }
    }

    /// The instruction that `data` holds, if it holds one.
    pub fn decode(data: &[u8]) -> (r: Option<Instruction>)
        ensures
            r is Some == decoded_instruction(data@) is Some,
            r matches Some(m) ==> decoded_instruction(data@) == Some(m@),
    {
        let mut m = Instruction::empty();
        let mut left = data;
        while left.len() > 0
            invariant
                decoded_instruction(data@) == wire::merged(m@, left@),
            decreases left@.len(),
        {
            match get_field(left, MESSAGE_DEPTH) {
                Some((tag, field, rest)) => {
                    proof {
                        wire::lemma_merged_first(m@, left@, tag as nat, field@, rest@);
                    }
                    if !m.set_field(tag, field) {
                        return None;
                    }
                    left = rest;
                },
                None => {
                    proof {
                        wire::lemma_merged_bad(m@, left@);
                    }
                    return None;
                },
            }
        }
        proof {
            wire::lemma_merged_nothing(m@);
            assert(left@ =~= Seq::empty());
        }
        Some(m)
    }

    /// The bytes of the instruction. They decode to it again.
    pub fn encode_to_vec(&self) -> (out: Vec<u8>)
        ensures
            out@ == self@.bytes(),
            decoded_instruction(out@) == Some(self@),
    {
        let mut out: Vec<u8> = Vec::new();
        let version: Option<u64> = match self.protocol_version {
            Some(v) => Some(v as u64),
            None => None,
        };
        put_number(1, version, &mut out);
        put_number(2, self.old_num, &mut out);
        put_number(3, self.new_num, &mut out);
        put_number(4, self.ack_num, &mut out);
        put_number(5, self.throwaway_num, &mut out);
        put_content(6, &self.diff, &mut out);
        put_content(7, &self.chaff, &mut out);
        proof {
            assert(out@ =~= self@.bytes());
            lemma_bytes_len(&self.diff);
            lemma_bytes_len(&self.chaff);
            law_instruction_decode_after_encode(self@);
        }
        out
    }

    /// The protocol version, 0 where none is given.
    pub fn protocol_version(&self) -> (v: u32)
        ensures
            v == match self@.protocol_version {
                Some(v) => v,
                None => 0,
            },
    {
        match self.protocol_version {
            Some(v) => v,
            None => 0,
        }
    }

    /// The state that the difference starts from, 0 where none is given.
    pub fn old_num(&self) -> (v: u64)
        ensures
            v == or_zero(self@.old_num),
    {
        value_or_zero(self.old_num)
    }

    /// The state that the difference leads to, 0 where none is given.
    pub fn new_num(&self) -> (v: u64)
        ensures
            v == or_zero(self@.new_num),
    {
        value_or_zero(self.new_num)
    }

    /// The acknowledged state of the peer, 0 where none is given.
    pub fn ack_num(&self) -> (v: u64)
        ensures
            v == or_zero(self@.ack_num),
    {
        value_or_zero(self.ack_num)
    }
}

} // verus!
