//! How numbers, packets, fragments and messages lie on the wire, byte by byte and
//! field by field.

use vstd::arithmetic::power::pow;
use vstd::prelude::*;

use crate::crypto;
use crate::fragment::FragmentView;
use crate::host_message::{EchoAck, HostBytesView, HostInstructionView, HostMessageView};
use crate::messages::{self, InstructionView, ResizeMessage};
use crate::network::{Direction, PacketView};
use crate::octets;
use crate::user_message::{KeystrokeView, UserInstructionView, UserMessageView};
use crate::wire::{self, FieldView, WireType};

verus! {

/// The first byte of a number counts most: the others count as without it.
pub proof fn law_first_byte_counts_most(first: u8, rest: Seq<u8>)
    ensures
        octets::be_value(seq![first] + rest) == first * pow(256, rest.len()) + octets::be_value(
            rest,
        ),
    decreases rest.len(),
{
    reveal(pow);
    let s = seq![first] + rest;
    if rest.len() == 0 {
        reveal_with_fuel(octets::be_value, 2);
        assert(s.drop_last() =~= Seq::empty());
    } else {
        law_first_byte_counts_most(first, rest.drop_last());
        assert(s.drop_last() =~= seq![first] + rest.drop_last());
        let p = pow(256, (rest.len() - 1) as nat);
        assert(pow(256, rest.len()) == 256 * p);
        assert((first * p) * 256 == first * (256 * p)) by (nonlinear_arith);
    }
}

/// Of a number that does not fit, the low-order bytes are written.
pub proof fn law_numbers_are_cut(v: nat, n: nat)
    ensures
        octets::be_bytes(v, n).len() == n,
        octets::be_value(octets::be_bytes(v, n)) == v as int % pow(256, n),
    decreases n,
{
    reveal(pow);
    octets::lemma_be_bytes_len(v, n);
    if n > 0 {
        let m = (n - 1) as nat;
        law_numbers_are_cut(v / 256, m);
        vstd::arithmetic::power::lemma_pow_positive(256, m);
        vstd::arithmetic::div_mod::lemma_mod_breakdown(v as int, 256, pow(256, m));
        assert(octets::be_bytes(v, n).drop_last() =~= octets::be_bytes(v / 256, m));
    }
}

/// A nonce of twelve bytes is the number that it is made of.
pub proof fn law_nonce_is_its_number(val: u64)
    ensures
        ({
            let nonce = crypto::full_nonce(octets::be_bytes(val as nat, 8));
            &&& nonce.len() == 12
            &&& octets::be_value(nonce) == val
        }),
{
    let cc = octets::be_bytes(val as nat, 8);
    octets::lemma_pow256();
    octets::lemma_be_bytes_len(val as nat, 8);
    octets::law_be_read_after_write(val as nat, 8);
    let one = seq![0u8] + cc;
    let two = seq![0u8] + one;
    let three = seq![0u8] + two;
    law_first_byte_counts_most(0, cc);
    law_first_byte_counts_most(0, one);
    law_first_byte_counts_most(0, two);
    law_first_byte_counts_most(0, three);
    assert(crypto::full_nonce(cc) =~= seq![0u8] + three);
}

/// The text of a packet is its timestamp and its answer to one, two bytes each, and
/// its payload; its nonce is its number, with the top bit of 64 set on the way to
/// the client. The number has 63 bits there.
pub proof fn law_packet_layout(p: PacketView)
    ensures
        p.text().len() == p.payload.len() + 4,
        octets::be_value(p.text().take(2)) == p.timestamp,
        octets::be_value(p.text().subrange(2, 4)) == p.timestamp_reply,
        p.text().skip(4) == p.payload,
        p.direction == Direction::ToServer ==> octets::be_value(p.nonce()) == p.seq as int
            % 0x8000_0000_0000_0000,
        p.direction == Direction::ToClient ==> octets::be_value(p.nonce()) == p.seq as int
            % 0x8000_0000_0000_0000 + 0x8000_0000_0000_0000,
{
    octets::lemma_pow256();
    octets::lemma_be_bytes_len(p.timestamp as nat, 2);
    octets::lemma_be_bytes_len(p.timestamp_reply as nat, 2);
    octets::law_be_read_after_write(p.timestamp as nat, 2);
    octets::law_be_read_after_write(p.timestamp_reply as nat, 2);
    assert(p.text().take(2) =~= octets::be_bytes(p.timestamp as nat, 2));
    assert(p.text().subrange(2, 4) =~= octets::be_bytes(p.timestamp_reply as nat, 2));
    assert(p.text().skip(4) =~= p.payload);
    law_nonce_is_its_number(p.nonce_val());
}

/// A datagram is the last eight bytes of its nonce and what the cipher makes of its
/// text under the whole nonce; it is opened with just these.
pub proof fn law_datagram_layout(key: Seq<u8>, cc: Seq<u8>, text: Seq<u8>, body: Seq<u8>)
    requires
        cc.len() == 8,
    ensures
        ({
            let nonce = seq![0u8, 0u8, 0u8, 0u8] + cc;
            &&& crypto::datagram(key, nonce, text) == cc + crypto::ocb_sealed(key, nonce, text)
            &&& body.len() >= 16 ==> crypto::opened(key, cc + body) == match crypto::ocb_opened(
                key,
                nonce,
                body,
            ) {
                Some(found) => Some((nonce, found)),
                None => None,
            }
            &&& body.len() < 16 ==> crypto::opened(key, cc + body) is None
        }),
{
    let nonce = seq![0u8, 0u8, 0u8, 0u8] + cc;
    assert(nonce.subrange(4, 12) =~= cc);
    assert((cc + body).take(8) =~= cc);
    assert((cc + body).skip(8) =~= body);
}

/// A fragment is its identifier in eight bytes, its number in two, with the top bit
/// set on the last fragment if it is not set already, and its contents.
pub proof fn law_fragment_layout(f: FragmentView)
    ensures
        f.bytes().len() == f.contents.len() + 10,
        octets::be_value(f.bytes().take(8)) == f.id,
        f.is_final && f.fragment_num < 0x8000 ==> octets::be_value(f.bytes().subrange(8, 10))
            == f.fragment_num + 0x8000,
        !f.is_final || f.fragment_num >= 0x8000 ==> octets::be_value(f.bytes().subrange(8, 10))
            == f.fragment_num,
        f.bytes().skip(10) == f.contents,
{
    octets::lemma_pow256();
    octets::lemma_be_bytes_len(f.id as nat, 8);
    octets::lemma_be_bytes_len(f.combined(), 2);
    octets::law_be_read_after_write(f.id as nat, 8);
    octets::law_be_read_after_write(f.combined(), 2);
    assert(f.bytes().take(8) =~= octets::be_bytes(f.id as nat, 8));
    assert(f.bytes().subrange(8, 10) =~= octets::be_bytes(f.combined(), 2));
    assert(f.bytes().skip(10) =~= f.contents);
}

/// Numbers of 32 bits and numbers on the wire differ by whole turns: of 64 bits where
/// they are written, of 32 bits where they are read.
pub proof fn law_numbers_wrap(v: i32, n: nat)
    ensures
        messages::int32_wire(v) < 0x1_0000_0000_0000_0000,
        (messages::int32_wire(v) - v) % 0x1_0000_0000_0000_0000 == 0,
        (messages::int32_of(n) - n) % 0x1_0000_0000 == 0,
        (messages::uint32_of(n) - n) % 0x1_0000_0000 == 0,
{
}

proof fn lemma_number_first<M: wire::MessageView>(m: M, tag: nat, v: nat, rest: Seq<u8>)
    requires
        1 <= tag < 0x2000_0000,
        v <= u64::MAX,
    ensures
        wire::merged(m, wire::varint_field(tag, v) + rest) == match m.with_field(
            tag,
            FieldView::Varint(v),
        ) {
            Some(next) => wire::merged(next, rest),
            None => None,
        },
{
    wire::law_field_read_after_write(tag, v, Seq::empty(), rest, M::depth());
    wire::lemma_merged_first(
        m,
        wire::varint_field(tag, v) + rest,
        tag,
        FieldView::Varint(v),
        rest,
    );
}

proof fn lemma_bytes_first<M: wire::MessageView>(m: M, tag: nat, b: Seq<u8>, rest: Seq<u8>)
    requires
        1 <= tag < 0x2000_0000,
        b.len() <= u64::MAX,
    ensures
        wire::merged(m, wire::bytes_field(tag, b) + rest) == match m.with_field(
            tag,
            FieldView::Bytes(b),
        ) {
            Some(next) => wire::merged(next, rest),
            None => None,
        },
{
    wire::law_field_read_after_write(tag, 0, b, rest, M::depth());
    wire::lemma_merged_first(m, wire::bytes_field(tag, b) + rest, tag, FieldView::Bytes(b), rest);
}

proof fn lemma_number_is_short(tag: nat, v: nat)
    requires
        1 <= tag < 0x2000_0000,
        v <= u64::MAX,
    ensures
        wire::varint_field(tag, v).len() <= 20,
{
    lemma_varint_is_short(v);
    lemma_varint_is_short(tag * 8 + WireType::Varint.number());
}

proof fn lemma_varint_is_short(v: nat)
    requires
        v <= u64::MAX,
    ensures
        wire::varint(v).len() <= 10,
{
    let none = Seq::<u8>::empty();
    let s = wire::varint(v) + none;
    wire::law_varint_read_after_write(v, none);
    wire::lemma_varint_from(s, 0);
    if let Some((_, end)) = wire::varint_from(s, 0) {
        assert(s.skip(end as int).len() == s.len() - end);
    }
}

proof fn lemma_only_number<M: wire::MessageView>(m: M, tag: nat, v: nat)
    requires
        1 <= tag < 0x2000_0000,
        v <= u64::MAX,
    ensures
        wire::merged(m, wire::varint_field(tag, v)) == m.with_field(tag, FieldView::Varint(v)),
{
    let none = Seq::<u8>::empty();
    assert(wire::varint_field(tag, v) + none =~= wire::varint_field(tag, v));
    lemma_number_first(m, tag, v, none);
    if let Some(next) = m.with_field(tag, FieldView::Varint(v)) {
        wire::lemma_merged_nothing(next);
    }
}

proof fn lemma_only_bytes<M: wire::MessageView>(m: M, tag: nat, b: Seq<u8>)
    requires
        1 <= tag < 0x2000_0000,
        b.len() <= u64::MAX,
    ensures
        wire::merged(m, wire::bytes_field(tag, b)) == m.with_field(tag, FieldView::Bytes(b)),
{
    let none = Seq::<u8>::empty();
    assert(wire::bytes_field(tag, b) + none =~= wire::bytes_field(tag, b));
    lemma_bytes_first(m, tag, b, none);
    if let Some(next) = m.with_field(tag, FieldView::Bytes(b)) {
        wire::lemma_merged_nothing(next);
    }
}

/// Each number of an instruction has its field, from 1 to 5: the version, the state
/// that the instruction starts from, the one it leads to, the one that is
/// acknowledged, and the one that may be forgotten. A later field takes the place of
/// an earlier one.
pub proof fn law_numbers_of_an_instruction(m: InstructionView, v: u64, rest: Seq<u8>)
    ensures
        wire::merged(m, wire::varint_field(1, v as nat) + rest) == wire::merged(
            (InstructionView { protocol_version: Some((v % 0x1_0000_0000) as u32), ..m }),
            rest,
        ),
        wire::merged(m, wire::varint_field(2, v as nat) + rest) == wire::merged(
            (InstructionView { old_num: Some(v), ..m }),
            rest,
        ),
        wire::merged(m, wire::varint_field(3, v as nat) + rest) == wire::merged(
            (InstructionView { new_num: Some(v), ..m }),
            rest,
        ),
        wire::merged(m, wire::varint_field(4, v as nat) + rest) == wire::merged(
            (InstructionView { ack_num: Some(v), ..m }),
            rest,
        ),
        wire::merged(m, wire::varint_field(5, v as nat) + rest) == wire::merged(
            (InstructionView { throwaway_num: Some(v), ..m }),
            rest,
        ),
{
    lemma_number_first(m, 1, v as nat, rest);
    lemma_number_first(m, 2, v as nat, rest);
    lemma_number_first(m, 3, v as nat, rest);
    lemma_number_first(m, 4, v as nat, rest);
    lemma_number_first(m, 5, v as nat, rest);
}

/// The difference of an instruction is its field 6, and the bytes that hide its
/// length are its field 7.
pub proof fn law_contents_of_an_instruction(m: InstructionView, b: Seq<u8>, rest: Seq<u8>)
    requires
        b.len() <= u64::MAX,
    ensures
        wire::merged(m, wire::bytes_field(6, b) + rest) == wire::merged(
            (InstructionView { diff: Some(b), ..m }),
            rest,
        ),
        wire::merged(m, wire::bytes_field(7, b) + rest) == wire::merged(
            (InstructionView { chaff: Some(b), ..m }),
            rest,
        ),
{
    lemma_bytes_first(m, 6, b, rest);
    lemma_bytes_first(m, 7, b, rest);
}

/// A field that an instruction does not have is passed over, and one that holds
/// the wrong thing spoils the instruction.
pub proof fn law_other_fields_of_an_instruction(
    m: InstructionView,
    tag: nat,
    v: u64,
    b: Seq<u8>,
    rest: Seq<u8>,
)
    requires
        1 <= tag < 0x2000_0000,
        b.len() <= u64::MAX,
    ensures
        tag > 7 ==> wire::merged(m, wire::varint_field(tag, v as nat) + rest) == wire::merged(
            m,
            rest,
        ),
        tag > 7 ==> wire::merged(m, wire::bytes_field(tag, b) + rest) == wire::merged(m, rest),
        tag <= 5 ==> wire::merged(m, wire::bytes_field(tag, b) + rest) is None,
        tag == 6 || tag == 7 ==> wire::merged(m, wire::varint_field(tag, v as nat) + rest) is None,
{
    lemma_number_first(m, tag, v as nat, rest);
    lemma_bytes_first(m, tag, b, rest);
}

/// Keys that the client pressed are field 4 in field 2 of what it did.
pub proof fn law_keys_on_the_wire(m: UserInstructionView, keys: Seq<u8>, rest: Seq<u8>)
    requires
        wire::bytes_field(4, keys).len() <= u64::MAX,
    ensures
        wire::merged(m, wire::bytes_field(2, wire::bytes_field(4, keys)) + rest) == wire::merged(
            (UserInstructionView { keystroke: Some(KeystrokeView { keys: Some(keys) }), ..m }),
            rest,
        ),
{
    lemma_bytes_first(m, 2, wire::bytes_field(4, keys), rest);
    lemma_only_bytes(m.keystroke_or_empty(), 4, keys);
}

proof fn lemma_size(r: ResizeMessage, w: i32, h: i32)
    ensures
        wire::merged(
            r,
            wire::varint_field(5, messages::int32_wire(w)) + wire::varint_field(
                6,
                messages::int32_wire(h),
            ),
        ) == Some((ResizeMessage { width: Some(w), height: Some(h) })),
{
    messages::law_int32_read_after_write(w);
    messages::law_int32_read_after_write(h);
    let tail = wire::varint_field(6, messages::int32_wire(h));
    lemma_number_first(r, 5, messages::int32_wire(w), tail);
    let wide = ResizeMessage { width: Some(w), ..r };
    lemma_only_number(wide, 6, messages::int32_wire(h));
}

/// The size of the client's terminal is field 3 of what it did: the width in field 5
/// and the height in field 6.
pub proof fn law_sizes_on_the_wire(m: UserInstructionView, w: i32, h: i32, rest: Seq<u8>)
    ensures
        ({
            let size = wire::varint_field(5, messages::int32_wire(w)) + wire::varint_field(
                6,
                messages::int32_wire(h),
            );
            wire::merged(m, wire::bytes_field(3, size) + rest) == wire::merged(
                (UserInstructionView {
                    resize: Some(ResizeMessage { width: Some(w), height: Some(h) }),
                    ..m
                }),
                rest,
            )
        }),
{
    let size = wire::varint_field(5, messages::int32_wire(w)) + wire::varint_field(
        6,
        messages::int32_wire(h),
    );
    lemma_size(m.resize_or_empty(), w, h);
    messages::law_int32_read_after_write(w);
    messages::law_int32_read_after_write(h);
    lemma_number_is_short(5, messages::int32_wire(w));
    lemma_number_is_short(6, messages::int32_wire(h));
    lemma_bytes_first(m, 3, size, rest);
}

/// Each thing that the client did is a field 1 of its message, in order; other
/// fields are passed over, and where one cannot be read, nothing is.
pub proof fn law_client_messages_on_the_wire(
    m: UserMessageView,
    tag: nat,
    b: Seq<u8>,
    v: u64,
    rest: Seq<u8>,
)
    requires
        1 <= tag < 0x2000_0000,
        b.len() <= u64::MAX,
    ensures
        tag == 1 ==> wire::merged(m, wire::bytes_field(tag, b) + rest) == match wire::merged(
            UserInstructionView::empty(),
            b,
        ) {
            Some(inst) => wire::merged(
                (UserMessageView { instruction: m.instruction.push(inst) }),
                rest,
            ),
            None => None,
        },
        tag == 1 ==> wire::merged(m, wire::varint_field(tag, v as nat) + rest) is None,
        tag != 1 ==> wire::merged(m, wire::bytes_field(tag, b) + rest) == wire::merged(m, rest),
        tag != 1 ==> wire::merged(m, wire::varint_field(tag, v as nat) + rest) == wire::merged(
            m,
            rest,
        ),
{
    lemma_bytes_first(m, tag, b, rest);
    lemma_number_first(m, tag, v as nat, rest);
}

/// A field that tells neither of keys nor of a size is passed over; one that should
/// and holds a number spoils what the client did.
pub proof fn law_other_fields_of_what_was_done(
    m: UserInstructionView,
    tag: nat,
    b: Seq<u8>,
    v: u64,
    rest: Seq<u8>,
)
    requires
        1 <= tag < 0x2000_0000,
        b.len() <= u64::MAX,
    ensures
        tag != 2 && tag != 3 ==> wire::merged(m, wire::bytes_field(tag, b) + rest)
            == wire::merged(m, rest),
        tag != 2 && tag != 3 ==> wire::merged(m, wire::varint_field(tag, v as nat) + rest)
            == wire::merged(m, rest),
        tag == 2 || tag == 3 ==> wire::merged(m, wire::varint_field(tag, v as nat) + rest) is None,
{
    lemma_bytes_first(m, tag, b, rest);
    lemma_number_first(m, tag, v as nat, rest);
}

/// Output of the terminal is field 4 in field 2 of what the client is told, and the
/// echo acknowledgment field 8 in field 7.
pub proof fn law_output_and_echo_on_the_wire(
    m: HostInstructionView,
    data: Seq<u8>,
    num: u64,
    rest: Seq<u8>,
)
    requires
        wire::bytes_field(4, data).len() <= u64::MAX,
    ensures
        wire::merged(m, wire::bytes_field(2, wire::bytes_field(4, data)) + rest) == wire::merged(
            (HostInstructionView {
                hostbytes: Some(HostBytesView { hoststring: Some(data) }),
                ..m
            }),
            rest,
        ),
        wire::merged(m, wire::bytes_field(7, wire::varint_field(8, num as nat)) + rest)
            == wire::merged(
            (HostInstructionView { echoack: Some(EchoAck { echo_ack_num: Some(num) }), ..m }),
            rest,
        ),
{
    let output = match m.hostbytes {
        Some(h) => h,
        None => HostBytesView::empty(),
    };
    let echo = match m.echoack {
        Some(e) => e,
        None => EchoAck::empty(),
    };
    lemma_bytes_first(m, 2, wire::bytes_field(4, data), rest);
    lemma_only_bytes(output, 4, data);
    lemma_number_is_short(8, num as nat);
    lemma_bytes_first(m, 7, wire::varint_field(8, num as nat), rest);
    lemma_only_number(echo, 8, num as nat);
}

/// The size that the client is told is field 3 of what it is told, as where it tells
/// its own.
pub proof fn law_told_sizes_on_the_wire(m: HostInstructionView, w: i32, h: i32, rest: Seq<u8>)
    ensures
        ({
            let size = wire::varint_field(5, messages::int32_wire(w)) + wire::varint_field(
                6,
                messages::int32_wire(h),
            );
            wire::merged(m, wire::bytes_field(3, size) + rest) == wire::merged(
                (HostInstructionView {
                    resize: Some(ResizeMessage { width: Some(w), height: Some(h) }),
                    ..m
                }),
                rest,
            )
        }),
{
    let size = wire::varint_field(5, messages::int32_wire(w)) + wire::varint_field(
        6,
        messages::int32_wire(h),
    );
    let before = match m.resize {
        Some(r) => r,
        None => ResizeMessage::nothing(),
    };
    lemma_size(before, w, h);
    messages::law_int32_read_after_write(w);
    messages::law_int32_read_after_write(h);
    lemma_number_is_short(5, messages::int32_wire(w));
    lemma_number_is_short(6, messages::int32_wire(h));
    lemma_bytes_first(m, 3, size, rest);
}

/// Each thing that the client is told is a field 1 of its message, in order.
pub proof fn law_server_messages_on_the_wire(m: HostMessageView, b: Seq<u8>, rest: Seq<u8>)
    requires
        b.len() <= u64::MAX,
    ensures
        wire::merged(m, wire::bytes_field(1, b) + rest) == match wire::merged(
            HostInstructionView::empty(),
            b,
        ) {
            Some(inst) => wire::merged(
                (HostMessageView { instruction: m.instruction.push(inst) }),
                rest,
            ),
            None => None,
        },
{
    lemma_bytes_first(m, 1, b, rest);
}

/// A group ends at its own end and not at that of another; the fields in it, and the
/// groups, are passed over as long as they do not nest too deep.
pub proof fn law_groups_are_passed_over(
    tag: nat,
    other: nat,
    v: u64,
    b: Seq<u8>,
    depth: nat,
    rest: Seq<u8>,
)
    requires
        1 <= tag < 0x2000_0000,
        1 <= other < 0x2000_0000,
        b.len() <= u64::MAX,
    ensures
        wire::read_group(wire::key(tag, WireType::EndGroup) + rest, tag, depth) == Some(rest),
        other != tag ==> wire::read_group(
            wire::key(other, WireType::EndGroup) + rest,
            tag,
            depth,
        ) is None,
        depth > 1 ==> wire::read_group(wire::varint_field(other, v as nat) + rest, tag, depth)
            == wire::read_group(rest, tag, depth),
        depth > 1 ==> wire::read_group(wire::bytes_field(other, b) + rest, tag, depth)
            == wire::read_group(rest, tag, depth),
        depth > 1 ==> wire::read_group(
            wire::key(other, WireType::StartGroup) + (wire::key(other, WireType::EndGroup) + rest),
            tag,
            depth,
        ) == wire::read_group(rest, tag, depth),
        depth <= 1 ==> wire::read_group(wire::varint_field(other, v as nat) + rest, tag, depth)
            is None,
{
    let end = wire::key(tag, WireType::EndGroup) + rest;
    let other_end = wire::key(other, WireType::EndGroup) + rest;
    wire::law_key_read_after_write(tag, WireType::EndGroup, rest);
    wire::law_key_read_after_write(other, WireType::EndGroup, rest);
    wire::lemma_reads_shrink(end);
    wire::lemma_reads_shrink(other_end);
    let number = wire::varint_field(other, v as nat) + rest;
    let content = wire::bytes_field(other, b) + rest;
    let group = wire::key(other, WireType::StartGroup) + other_end;
    wire::lemma_reads_shrink(number);
    wire::lemma_reads_shrink(content);
    wire::lemma_reads_shrink(group);
    wire::law_key_read_after_write(other, WireType::StartGroup, other_end);
    if depth > 1 {
        let inner = (depth - 1) as nat;
        wire::law_field_read_after_write(other, v as nat, b, rest, inner);
        wire::lemma_field_shrinks(number, inner);
        wire::lemma_field_shrinks(content, inner);
        wire::lemma_group_shrinks(other_end, other, inner);
        assert(wire::read_group(other_end, other, inner) == Some(rest));
        assert(wire::read_payload(other_end, other, WireType::StartGroup, inner) == Some(
            (FieldView::Group, rest),
        ));
    } else {
        wire::law_field_read_after_write(other, v as nat, b, rest, depth);
    }
}

/// Groups that nest `n` deep, with nothing else in them.
pub open spec fn nested(tag: nat, n: nat) -> Seq<u8>
    decreases n,
{
    if n == 0 {
        Seq::empty()
    } else {
        wire::key(tag, WireType::StartGroup) + nested(tag, (n - 1) as nat) + wire::key(
            tag,
            WireType::EndGroup,
        )
    }
}

proof fn lemma_nested(tag: nat, n: nat, depth: nat, rest: Seq<u8>)
    requires
        1 <= tag < 0x2000_0000,
        depth >= 1,
    ensures
        wire::read_group(
            nested(tag, n) + (wire::key(tag, WireType::EndGroup) + rest),
            tag,
            depth,
        ) == if n < depth {
            Some(rest)
        } else {
            None
        },
    decreases n,
{
    let end = wire::key(tag, WireType::EndGroup) + rest;
    let s = nested(tag, n) + end;
    wire::law_key_read_after_write(tag, WireType::EndGroup, rest);
    wire::lemma_reads_shrink(end);
    wire::lemma_reads_shrink(s);
    if n == 0 {
        assert(s =~= end);
    } else {
        let m = (n - 1) as nat;
        let inner = nested(tag, m) + (wire::key(tag, WireType::EndGroup) + end);
        assert(s =~= wire::key(tag, WireType::StartGroup) + inner);
        wire::law_key_read_after_write(tag, WireType::StartGroup, inner);
        if depth > 1 {
            let d = (depth - 1) as nat;
            lemma_nested(tag, m, d, end);
            wire::lemma_group_shrinks(inner, tag, d);
            assert(wire::read_group(end, tag, depth) == Some(rest));
            assert(wire::read_payload(inner, tag, WireType::StartGroup, d) == if m < d {
                Some((FieldView::Group, end))
            } else {
                None
            });
        }
        assert(wire::read_key(s) == Some((tag, WireType::StartGroup, inner)));
    }
}

proof fn lemma_nested_in<M: wire::MessageView>(m: M, tag: nat, n: nat, rest: Seq<u8>)
    requires
        1 <= tag < 0x2000_0000,
        n > 0,
        M::depth() >= 1,
        m.with_field(tag, FieldView::Group) == Some(m),
    ensures
        n <= M::depth() ==> wire::merged(m, nested(tag, n) + rest) == wire::merged(m, rest),
        n > M::depth() ==> wire::merged(m, nested(tag, n) + rest) is None,
{
    let k = (n - 1) as nat;
    let depth = M::depth();
    let inner = nested(tag, k) + (wire::key(tag, WireType::EndGroup) + rest);
    let s = nested(tag, n) + rest;
    assert(s =~= wire::key(tag, WireType::StartGroup) + inner);
    wire::law_key_read_after_write(tag, WireType::StartGroup, inner);
    lemma_nested(tag, k, depth, rest);
    wire::lemma_reads_shrink(s);
    assert(wire::read_payload(inner, tag, WireType::StartGroup, depth) == if n <= depth {
        Some((FieldView::Group, rest))
    } else {
        None
    });
    if n <= depth {
        wire::lemma_merged_first(m, s, tag, FieldView::Group, rest);
    } else {
        wire::lemma_merged_bad(m, s);
    }
}

/// Groups may nest a hundred deep in an instruction or a message of the client that
/// does not know them, and one less deep for each message that they are within; any
/// deeper, and the message is not read.
pub proof fn law_groups_nest_a_hundred_deep(
    m: InstructionView,
    u: UserMessageView,
    i: UserInstructionView,
    k: KeystrokeView,
    r: ResizeMessage,
    tag: nat,
    n: nat,
    rest: Seq<u8>,
)
    requires
        7 < tag < 0x2000_0000,
        n > 0,
    ensures
        n <= 100 ==> wire::merged(m, nested(tag, n) + rest) == wire::merged(m, rest),
        n > 100 ==> wire::merged(m, nested(tag, n) + rest) is None,
        n <= 100 ==> wire::merged(u, nested(tag, n) + rest) == wire::merged(u, rest),
        n > 100 ==> wire::merged(u, nested(tag, n) + rest) is None,
        n <= 99 ==> wire::merged(i, nested(tag, n) + rest) == wire::merged(i, rest),
        n > 99 ==> wire::merged(i, nested(tag, n) + rest) is None,
        n <= 98 ==> wire::merged(k, nested(tag, n) + rest) == wire::merged(k, rest),
        n > 98 ==> wire::merged(k, nested(tag, n) + rest) is None,
        n <= 98 ==> wire::merged(r, nested(tag, n) + rest) == wire::merged(r, rest),
        n > 98 ==> wire::merged(r, nested(tag, n) + rest) is None,
{
    lemma_nested_in(m, tag, n, rest);
    lemma_nested_in(u, tag, n, rest);
    lemma_nested_in(i, tag, n, rest);
    lemma_nested_in(k, tag, n, rest);
    lemma_nested_in(r, tag, n, rest);
}

} // verus!
