//! The protocol buffer wire format: a message is a string of fields, each a key
//! (field number and wire type) followed by a payload.

use prost::encoding::{DecodeContext, WireType as ProstWireType};
use vstd::prelude::*;
use vstd::slice::slice_subrange;

use crate::octets::push_all;

verus! {

/// How the payload of a field is laid out.
#[derive(Clone, Copy, PartialEq, Eq, Structural)]
pub enum WireType {
    Varint,
    SixtyFourBit,
    LengthDelimited,
    StartGroup,
    EndGroup,
    ThirtyTwoBit,
}

impl WireType {
    /// The number of the wire type within a key.
    pub open spec fn number(self) -> nat {
        match self {
            WireType::Varint => 0,
            WireType::SixtyFourBit => 1,
            WireType::LengthDelimited => 2,
            WireType::StartGroup => 3,
            WireType::EndGroup => 4,
            WireType::ThirtyTwoBit => 5,
        }
    }
}

/// The wire type with a number below 6.
pub open spec fn wire_type(n: nat) -> WireType {
    if n == 0 {
        WireType::Varint
    } else if n == 1 {
        WireType::SixtyFourBit
    } else if n == 2 {
        WireType::LengthDelimited
    } else if n == 3 {
        WireType::StartGroup
    } else if n == 4 {
        WireType::EndGroup
    } else {
        WireType::ThirtyTwoBit
    }
}

/// The variable-length integer `v`: seven bits to a byte, the low-order ones
/// first, the top bit set on all bytes but the last.
pub open spec fn varint(v: nat) -> Seq<u8>
    decreases v,
{
    if v < 128 {
        seq![v as u8]
    } else {
        seq![(v % 128 + 128) as u8] + varint(v / 128)
    }
}

/// The value of the variable-length integer that has byte `i` of `s` as one of
/// its bytes, counted from that byte on, and the index where it ends. It has at
/// most ten bytes, and the tenth holds one bit.
pub open spec fn varint_from(s: Seq<u8>, i: nat) -> Option<(nat, nat)>
    decreases 10 - i,
{
    if i >= 10 || i >= s.len() {
        None
    } else if s[i as int] < 128 {
        if i == 9 && s[i as int] >= 2 {
            None
        } else {
            Some((s[i as int] as nat, i + 1))
        }
    } else {
        match varint_from(s, i + 1) {
            Some((v, end)) => Some(((s[i as int] - 128 + 128 * v) as nat, end)),
            None => None,
        }
    }
}

/// The variable-length integer at the start of `s`, and what follows it.
pub open spec fn read_varint(s: Seq<u8>) -> Option<(nat, Seq<u8>)> {
    match varint_from(s, 0) {
        Some((v, end)) => Some((v, s.skip(end as int))),
        None => None,
    }
}

/// The key of a field.
pub open spec fn key(tag: nat, wt: WireType) -> Seq<u8> {
    varint(tag * 8 + wt.number())
}

/// The field number and the wire type that the key at the start of `s` tells,
/// and what follows it.
pub open spec fn read_key(s: Seq<u8>) -> Option<(nat, WireType, Seq<u8>)> {
    match read_varint(s) {
        Some((k, rest)) => if k <= u32::MAX && k % 8 < 6 && k / 8 >= 1 {
            Some((k / 8, wire_type(k % 8), rest))
        } else {
            None
        },
        None => None,
    }
}

/// What a field holds. Fixed-width payloads and groups are told apart but not
/// looked into: no message here has any.
pub enum FieldView {
    Varint(nat),
    Fixed64,
    Bytes(Seq<u8>),
    Group,
    Fixed32,
}

/// The payload of a field of the given wire type at the start of `s`, and what
/// follows it. Groups nest to `depth` levels.
pub open spec fn read_payload(s: Seq<u8>, tag: nat, wt: WireType, depth: nat) -> Option<
    (FieldView, Seq<u8>),
>
    decreases s.len(), 1nat,
{
    match wt {
        WireType::Varint => match read_varint(s) {
            Some((v, rest)) => Some((FieldView::Varint(v), rest)),
            None => None,
        },
        WireType::SixtyFourBit => if s.len() >= 8 {
            Some((FieldView::Fixed64, s.skip(8)))
        } else {
            None
        },
        WireType::LengthDelimited => match read_varint(s) {
            Some((n, rest)) => if n <= rest.len() {
                Some((FieldView::Bytes(rest.take(n as int)), rest.skip(n as int)))
            } else {
                None
            },
            None => None,
        },
        WireType::StartGroup => match read_group(s, tag, depth) {
            Some(rest) => Some((FieldView::Group, rest)),
            None => None,
        },
        WireType::EndGroup => None,
        WireType::ThirtyTwoBit => if s.len() >= 4 {
            Some((FieldView::Fixed32, s.skip(4)))
        } else {
            None
        },
    }
}

/// What follows the group `tag` whose contents start `s`. The fields in it may
/// nest one level less deep than it does; none are allowed in a group that may
/// nest one level only.
pub open spec fn read_group(s: Seq<u8>, tag: nat, depth: nat) -> Option<Seq<u8>>
    decreases s.len(), 0nat,
{
    match read_key(s) {
        Some((t, wt, rest)) => if rest.len() >= s.len() {
            None
        } else if wt == WireType::EndGroup {
            if t == tag {
                Some(rest)
            } else {
                None
            }
        } else if depth <= 1 {
            None
        } else {
            match read_payload(rest, t, wt, (depth - 1) as nat) {
                Some((_, after)) => if after.len() >= s.len() {
                    None
                } else {
                    read_group(after, tag, depth)
                },
                None => None,
            }
        },
        None => None,
    }
}

/// The field at the start of `s`: its number, what it holds, and what follows it.
pub open spec fn read_field(s: Seq<u8>, depth: nat) -> Option<(nat, FieldView, Seq<u8>)> {
    match read_key(s) {
        Some((tag, wt, rest)) => match read_payload(rest, tag, wt, depth) {
            Some((field, after)) => Some((tag, field, after)),
            None => None,
        },
        None => None,
    }
}

/// The fields that `s` is made of, in order, or nothing where it is not.
#[verifier::opaque]
pub open spec fn fields(s: Seq<u8>, depth: nat) -> Option<Seq<(nat, FieldView)>>
    decreases s.len(),
{
    if s.len() == 0 {
        Some(Seq::empty())
    } else {
        match read_field(s, depth) {
            Some((tag, field, rest)) => if rest.len() >= s.len() {
                None
            } else {
                match fields(rest, depth) {
                    Some(more) => Some(seq![(tag, field)] + more),
                    None => None,
                }
            },
            None => None,
        }
    }
}

/// Nothing is made of no fields.
pub proof fn lemma_no_fields(depth: nat)
    ensures
        fields(Seq::empty(), depth) == Some(Seq::<(nat, FieldView)>::empty()),
{
    reveal(fields);
}

/// The field that starts `s` comes first among its fields.
pub proof fn lemma_first_field(s: Seq<u8>, depth: nat, tag: nat, f: FieldView, rest: Seq<u8>)
    requires
        read_field(s, depth) == Some((tag, f, rest)),
    ensures
        s.len() > 0,
        fields(s, depth) == match fields(rest, depth) {
            Some(more) => Some(seq![(tag, f)] + more),
            None => None,
        },
{
    reveal(fields);
    lemma_field_shrinks(s, depth);
}

/// A field that holds a number.
pub open spec fn varint_field(tag: nat, v: nat) -> Seq<u8> {
    key(tag, WireType::Varint) + varint(v)
}

/// A field that holds bytes.
pub open spec fn bytes_field(tag: nat, s: Seq<u8>) -> Seq<u8> {
    key(tag, WireType::LengthDelimited) + varint(s.len()) + s
}

/// A number ends within the ten bytes that it may have, and within `s`.
pub proof fn lemma_varint_from(s: Seq<u8>, i: nat)
    ensures
        varint_from(s, i) matches Some((v, end)) ==> i < end <= s.len() && end <= 10,
    decreases 10 - i,
{
    if i < 10 {
        lemma_varint_from(s, i + 1);
    }
}

/// Reading leaves less than there was.
pub proof fn lemma_reads_shrink(s: Seq<u8>)
    ensures
        read_varint(s) matches Some((v, rest)) ==> rest.len() < s.len(),
        read_key(s) matches Some((tag, wt, rest)) ==> rest.len() < s.len(),
{
    lemma_varint_from(s, 0);
}

/// A payload never reads past the end.
pub proof fn lemma_payload_shrinks(s: Seq<u8>, tag: nat, wt: WireType, depth: nat)
    ensures
        read_payload(s, tag, wt, depth) matches Some((f, rest)) ==> rest.len() <= s.len(),
    decreases s.len(), 1nat,
{
    lemma_reads_shrink(s);
    lemma_group_shrinks(s, tag, depth);
}

/// A group ends after it starts.
pub proof fn lemma_group_shrinks(s: Seq<u8>, tag: nat, depth: nat)
    ensures
        read_group(s, tag, depth) matches Some(rest) ==> rest.len() < s.len(),
    decreases s.len(), 0nat,
{
    lemma_reads_shrink(s);
    if let Some((t, wt, rest)) = read_key(s) {
        if depth >= 1 {
            lemma_payload_shrinks(rest, t, wt, (depth - 1) as nat);
            if let Some((_, after)) = read_payload(rest, t, wt, (depth - 1) as nat) {
                lemma_group_shrinks(after, tag, depth);
            }
        }
    }
}

/// A field takes up at least one byte.
pub proof fn lemma_field_shrinks(s: Seq<u8>, depth: nat)
    ensures
        read_field(s, depth) matches Some((tag, f, rest)) ==> rest.len() < s.len(),
{
    lemma_reads_shrink(s);
    if let Some((tag, wt, rest)) = read_key(s) {
        lemma_payload_shrinks(rest, tag, wt, depth);
    }
}

/// The bound on a number whose first seven-bit digit is digit `i` of ten.
pub open spec fn varint_bound(i: nat) -> nat
    decreases 10 - i,
{
    if i >= 9 {
        2
    } else {
        128 * varint_bound(i + 1)
    }
}

proof fn lemma_varint_bound()
    ensures
        varint_bound(0) == 0x1_0000_0000_0000_0000,
{
    reveal_with_fuel(varint_bound, 10);
}

/// The bytes that `varint` writes after `i` bytes of the same number are read
/// back, whatever follows.
proof fn lemma_varint_read(v: nat, before: Seq<u8>, rest: Seq<u8>)
    requires
        before.len() < 10,
        v < varint_bound(before.len()),
    ensures
        varint_from(before + varint(v) + rest, before.len()) == Some(
            (v, before.len() + varint(v).len()),
        ),
    decreases 10 - before.len(),
{
    let i = before.len();
    let s = before + varint(v) + rest;
    if v < 128 {
        assert(s[i as int] == v as u8);
    } else {
        let first = (v % 128 + 128) as u8;
        assert(s[i as int] == first);
        assert(i < 9);
        let longer = before.push(first);
        lemma_varint_read(v / 128, longer, rest);
        assert(longer + varint(v / 128) + rest =~= s);
    }
}

/// A number that was written is read back, whatever follows it.
pub proof fn law_varint_read_after_write(v: nat, rest: Seq<u8>)
    requires
        v <= u64::MAX,
    ensures
        read_varint(varint(v) + rest) == Some((v, rest)),
{
    lemma_varint_bound();
    lemma_varint_read(v, Seq::empty(), rest);
    let s = varint(v) + rest;
    assert(Seq::<u8>::empty() + varint(v) + rest =~= s);
    assert(s.skip(varint(v).len() as int) =~= rest);
}

/// A key that was written is read back, whatever follows it.
pub proof fn law_key_read_after_write(tag: nat, wt: WireType, rest: Seq<u8>)
    requires
        1 <= tag < 0x2000_0000,
    ensures
        read_key(key(tag, wt) + rest) == Some((tag, wt, rest)),
{
    law_varint_read_after_write(tag * 8 + wt.number(), rest);
}

/// A field of either kind that was written is read back, whatever follows it.
pub proof fn law_field_read_after_write(tag: nat, v: nat, b: Seq<u8>, rest: Seq<u8>, depth: nat)
    requires
        1 <= tag < 0x2000_0000,
        v <= u64::MAX,
        b.len() <= u64::MAX,
    ensures
        read_field(varint_field(tag, v) + rest, depth) == Some((tag, FieldView::Varint(v), rest)),
        read_field(bytes_field(tag, b) + rest, depth) == Some((tag, FieldView::Bytes(b), rest)),
{
    let tail = varint(v) + rest;
    law_key_read_after_write(tag, WireType::Varint, tail);
    law_varint_read_after_write(v, rest);
    assert(varint_field(tag, v) + rest =~= key(tag, WireType::Varint) + tail);

    let after = b + rest;
    let tail = varint(b.len()) + after;
    law_key_read_after_write(tag, WireType::LengthDelimited, tail);
    law_varint_read_after_write(b.len(), after);
    assert(bytes_field(tag, b) + rest =~= key(tag, WireType::LengthDelimited) + tail);
    assert(after.take(b.len() as int) =~= b);
    assert(after.skip(b.len() as int) =~= rest);
}

/// The content of a message.
pub trait MessageView: Sized {
    /// How deep groups in the message may nest.
    spec fn depth() -> nat;

    /// The message with one more field read, or nothing where the field has the
    /// wrong type.
    spec fn with_field(self, tag: nat, f: FieldView) -> Option<Self>;
}

/// The message with some more fields read, in order.
pub open spec fn with_fields<M: MessageView>(m: M, fs: Seq<(nat, FieldView)>) -> Option<M>
    decreases fs.len(),
{
    if fs.len() == 0 {
        Some(m)
    } else {
        match m.with_field(fs[0].0, fs[0].1) {
            Some(next) => with_fields(next, fs.drop_first()),
            None => None,
        }
    }
}

/// The message with the fields of `s` read, or nothing where `s` is not made of
/// fields or one has the wrong type.
pub open spec fn merged<M: MessageView>(m: M, s: Seq<u8>) -> Option<M> {
    match fields(s, M::depth()) {
        Some(fs) => with_fields(m, fs),
        None => None,
    }
}

/// Reading nothing changes nothing.
pub proof fn lemma_merged_nothing<M: MessageView>(m: M)
    ensures
        merged(m, Seq::empty()) == Some(m),
{
    lemma_no_fields(M::depth());
}

/// Reading starts with the first field.
pub proof fn lemma_merged_first<M: MessageView>(
    m: M,
    s: Seq<u8>,
    tag: nat,
    f: FieldView,
    rest: Seq<u8>,
)
    requires
        read_field(s, M::depth()) == Some((tag, f, rest)),
    ensures
        s.len() > 0,
        merged(m, s) == match m.with_field(tag, f) {
            Some(next) => merged(next, rest),
            None => None,
        },
{
    lemma_first_field(s, M::depth(), tag, f, rest);
    if let Some(more) = fields(rest, M::depth()) {
        let fs = seq![(tag, f)] + more;
        assert(fs.drop_first() =~= more);
    }
}

/// Reading fails where no field can be read.
pub proof fn lemma_merged_bad<M: MessageView>(m: M, s: Seq<u8>)
    requires
        s.len() > 0,
        read_field(s, M::depth()) is None,
    ensures
        merged(m, s) is None,
{
    reveal(fields);
}

/// An optional number as a field, or nothing.
pub open spec fn number_field(tag: nat, v: Option<nat>) -> Seq<u8> {
    match v {
        Some(v) => varint_field(tag, v),
        None => Seq::empty(),
    }
}

/// Optional bytes as a field, or nothing.
pub open spec fn content_field(tag: nat, b: Option<Seq<u8>>) -> Seq<u8> {
    match b {
        Some(b) => bytes_field(tag, b),
        None => Seq::empty(),
    }
}

/// An optional number that was written is read first.
pub proof fn lemma_merged_number<M: MessageView>(m: M, tag: nat, v: Option<nat>, rest: Seq<u8>)
    requires
        1 <= tag < 0x2000_0000,
        v matches Some(v) ==> v <= u64::MAX,
    ensures
        v matches Some(v) ==> merged(m, number_field(tag, Some(v)) + rest) == match m.with_field(
            tag,
            FieldView::Varint(v),
        ) {
            Some(next) => merged(next, rest),
            None => None,
        },
        v is None ==> merged(m, number_field(tag, v) + rest) == merged(m, rest),
{
    match v {
        Some(v) => {
            law_field_read_after_write(tag, v, Seq::empty(), rest, M::depth());
            lemma_merged_first(m, varint_field(tag, v) + rest, tag, FieldView::Varint(v), rest);
        },
        None => {
            assert(Seq::<u8>::empty() + rest =~= rest);
        },
    }
}

/// Optional bytes that were written are read first.
pub proof fn lemma_merged_content<M: MessageView>(
    m: M,
    tag: nat,
    b: Option<Seq<u8>>,
    rest: Seq<u8>,
)
    requires
        1 <= tag < 0x2000_0000,
        b matches Some(b) ==> b.len() <= u64::MAX,
    ensures
        b matches Some(b) ==> merged(m, content_field(tag, Some(b)) + rest) == match m.with_field(
            tag,
            FieldView::Bytes(b),
        ) {
            Some(next) => merged(next, rest),
            None => None,
        },
        b is None ==> merged(m, content_field(tag, b) + rest) == merged(m, rest),
{
    match b {
        Some(b) => {
            law_field_read_after_write(tag, 0, b, rest, M::depth());
            lemma_merged_first(m, bytes_field(tag, b) + rest, tag, FieldView::Bytes(b), rest);
        },
        None => {
            assert(Seq::<u8>::empty() + rest =~= rest);
        },
    }
}

/// What a field holds, borrowed from the message.
pub enum Field<'a> {
    Varint(u64),
    Fixed64,
    Bytes(&'a [u8]),
    Group,
    Fixed32,
}

impl View for Field<'_> {
    type V = FieldView;

    open spec fn view(&self) -> FieldView {
        match self {
            Field::Varint(v) => FieldView::Varint(*v as nat),
            Field::Fixed64 => FieldView::Fixed64,
            Field::Bytes(b) => FieldView::Bytes(b@),
            Field::Group => FieldView::Group,
            Field::Fixed32 => FieldView::Fixed32,
        }
    }
}

/// Calls `prost::encoding::encode_varint`. Trusted: it appends [`varint`] of
/// the number.
#[verifier::external_body]
fn put_varint(v: u64, out: &mut Vec<u8>)
    ensures
        final(out)@ == old(out)@ + varint(v as nat),
{
    prost::encoding::encode_varint(v, out)
}

/// Calls `prost::encoding::encode_key`. Trusted: it appends [`key`] of field
/// number and wire type. A field number of more than 29 bits would trip an
/// assertion in it.
#[verifier::external_body]
fn put_key(tag: u32, wt: WireType, out: &mut Vec<u8>)
    requires
        1 <= tag < 0x2000_0000,
    ensures
        final(out)@ == old(out)@ + key(tag as nat, wt),
{
    let wire_type = match wt {
        WireType::Varint => ProstWireType::Varint,
        WireType::SixtyFourBit => ProstWireType::SixtyFourBit,
        WireType::LengthDelimited => ProstWireType::LengthDelimited,
        WireType::StartGroup => ProstWireType::StartGroup,
        WireType::EndGroup => ProstWireType::EndGroup,
        WireType::ThirtyTwoBit => ProstWireType::ThirtyTwoBit,
    };
    prost::encoding::encode_key(tag, wire_type, out)
}

/// Calls `prost::encoding::decode_varint`. Trusted: it reads what
/// [`read_varint`] says and leaves the rest, or fails where that has nothing.
#[verifier::external_body]
fn get_varint<'a>(data: &'a [u8]) -> (r: Option<(u64, &'a [u8])>)
    ensures
        r is Some == read_varint(data@) is Some,
        r matches Some((v, rest)) ==> read_varint(data@) == Some((v as nat, rest@)),
{
    let mut rest = data;
    match prost::encoding::decode_varint(&mut rest) {
        Ok(v) => Some((v, rest)),
        Err(_) => None,
    }
}

/// Calls `prost::encoding::decode_key`. Trusted: it reads what [`read_key`]
/// says and leaves the rest, or fails where that has nothing.
#[verifier::external_body]
fn get_key<'a>(data: &'a [u8]) -> (r: Option<(u32, WireType, &'a [u8])>)
    ensures
        r is Some == read_key(data@) is Some,
        r matches Some((tag, wt, rest)) ==> read_key(data@) == Some((tag as nat, wt, rest@)),
{
    let mut rest = data;
    match prost::encoding::decode_key(&mut rest) {
        Ok((tag, ProstWireType::Varint)) => Some((tag, WireType::Varint, rest)),
        Ok((tag, ProstWireType::SixtyFourBit)) => Some((tag, WireType::SixtyFourBit, rest)),
        Ok((tag, ProstWireType::LengthDelimited)) => Some((tag, WireType::LengthDelimited, rest)),
        Ok((tag, ProstWireType::StartGroup)) => Some((tag, WireType::StartGroup, rest)),
        Ok((tag, ProstWireType::EndGroup)) => Some((tag, WireType::EndGroup, rest)),
        Ok((tag, ProstWireType::ThirtyTwoBit)) => Some((tag, WireType::ThirtyTwoBit, rest)),
        Err(_) => None,
    }
}

/// Calls `prost::encoding::skip_field` on a payload of fixed width. Trusted: it
/// leaves what follows the eight or four bytes, or fails where there are fewer,
/// whatever the field number.
#[verifier::external_body]
fn skip_fixed<'a>(data: &'a [u8], tag: u32, wt: WireType) -> (r: Option<&'a [u8]>)
    requires
        wt == WireType::SixtyFourBit || wt == WireType::ThirtyTwoBit,
    ensures
        r is Some == (data@.len() >= fixed_width(wt)),
        r matches Some(rest) ==> rest@ == data@.skip(fixed_width(wt)),
{
    let wire_type = match wt {
        WireType::Varint => ProstWireType::Varint,
        WireType::SixtyFourBit => ProstWireType::SixtyFourBit,
        WireType::LengthDelimited => ProstWireType::LengthDelimited,
        WireType::StartGroup => ProstWireType::StartGroup,
        WireType::EndGroup => ProstWireType::EndGroup,
        WireType::ThirtyTwoBit => ProstWireType::ThirtyTwoBit,
    };
    let mut rest = data;
    match prost::encoding::skip_field(wire_type, tag, &mut rest, DecodeContext::default()) {
        Ok(()) => Some(rest),
        Err(_) => None,
    }
}

/// The length of a payload of fixed width.
pub open spec fn fixed_width(wt: WireType) -> int {
    if wt == WireType::SixtyFourBit {
        8
    } else {
        4
    }
}

/// Reads the payload of a field.
fn get_payload<'a>(data: &'a [u8], tag: u32, wt: WireType, depth: u32) -> (r: Option<
    (Field<'a>, &'a [u8]),
>)
    ensures
        r is Some == read_payload(data@, tag as nat, wt, depth as nat) is Some,
        r matches Some((field, rest)) ==> read_payload(data@, tag as nat, wt, depth as nat) == Some(
            (field@, rest@),
        ),
    decreases data@.len(), 1nat,
{
    match wt {
        WireType::Varint => match get_varint(data) {
            Some((v, rest)) => Some((Field::Varint(v), rest)),
            None => None,
        },
        WireType::SixtyFourBit => match skip_fixed(data, tag, wt) {
            Some(rest) => Some((Field::Fixed64, rest)),
            None => None,
        },
        WireType::LengthDelimited => match get_varint(data) {
            Some((n, rest)) => {
                if n > rest.len() as u64 {
                    return None;
                }
                let n: usize = n as usize;
                let bytes = slice_subrange(rest, 0, n);
                let after = slice_subrange(rest, n, rest.len());
                assert(bytes@ =~= rest@.take(n as int));
                assert(after@ =~= rest@.skip(n as int));
                Some((Field::Bytes(bytes), after))
            },
            None => None,
        },
        WireType::StartGroup => match get_group(data, tag, depth) {
            Some(rest) => Some((Field::Group, rest)),
            None => None,
        },
        WireType::EndGroup => None,
        WireType::ThirtyTwoBit => match skip_fixed(data, tag, wt) {
            Some(rest) => Some((Field::Fixed32, rest)),
            None => None,
        },
    }
}

/// Reads past the end of a group.
fn get_group<'a>(data: &'a [u8], tag: u32, depth: u32) -> (r: Option<&'a [u8]>)
    ensures
        r is Some == read_group(data@, tag as nat, depth as nat) is Some,
        r matches Some(rest) ==> read_group(data@, tag as nat, depth as nat) == Some(rest@),
    decreases data@.len(), 0nat,
{
    let mut left = data;
    loop
        invariant
            left@.len() <= data@.len(),
            read_group(data@, tag as nat, depth as nat) == read_group(
                left@,
                tag as nat,
                depth as nat,
            ),
        decreases left@.len(),
    {
        proof {
            lemma_reads_shrink(left@);
        }
        match get_key(left) {
            Some((t, wt, rest)) => {
                if wt == WireType::EndGroup {
                    return if t == tag {
                        Some(rest)
                    } else {
                        None
                    };
                }
                if depth <= 1 {
                    return None;
                }
                proof {
                    lemma_payload_shrinks(rest@, t as nat, wt, (depth - 1) as nat);
                }
                match get_payload(rest, t, wt, depth - 1) {
                    Some((_, after)) => {
                        left = after;
                    },
                    None => return None,
                }
            },
            None => return None,
        }
    }
}

/// Reads the field at the start of `data`.
pub fn get_field<'a>(data: &'a [u8], depth: u32) -> (r: Option<(u32, Field<'a>, &'a [u8])>)
    ensures
        r is Some == read_field(data@, depth as nat) is Some,
        r matches Some((tag, field, rest)) ==> read_field(data@, depth as nat) == Some(
            (tag as nat, field@, rest@),
        ),
        r matches Some((tag, field, rest)) ==> rest@.len() < data@.len(),
{
    proof {
        lemma_field_shrinks(data@, depth as nat);
    }
    match get_key(data) {
        Some((tag, wt, rest)) => match get_payload(rest, tag, wt, depth) {
            Some((field, after)) => Some((tag, field, after)),
            None => None,
        },
        None => None,
    }
}

/// Appends a field that holds a number.
pub fn put_varint_field(tag: u32, v: u64, out: &mut Vec<u8>)
    requires
        1 <= tag < 0x2000_0000,
    ensures
        final(out)@ == old(out)@ + varint_field(tag as nat, v as nat),
{
    put_key(tag, WireType::Varint, out);
    put_varint(v, out);
    assert(out@ =~= old(out)@ + varint_field(tag as nat, v as nat));
}

/// Appends a field that holds bytes.
pub fn put_bytes_field(tag: u32, bytes: &[u8], out: &mut Vec<u8>)
    requires
        1 <= tag < 0x2000_0000,
    ensures
        final(out)@ == old(out)@ + bytes_field(tag as nat, bytes@),
{
    put_key(tag, WireType::LengthDelimited, out);
    put_varint(bytes.len() as u64, out);
    push_all(out, bytes);
    assert(out@ =~= old(out)@ + bytes_field(tag as nat, bytes@));
}

/// The content of optional bytes.
pub open spec fn bytes_view(bytes: Option<Vec<u8>>) -> Option<Seq<u8>> {
    match bytes {
        Some(b) => Some(b@),
        None => None,
    }
}

/// An optional number as a number on the wire.
pub open spec fn wide(v: Option<u64>) -> Option<nat> {
    match v {
        Some(v) => Some(v as nat),
        None => None,
    }
}

/// Appends an optional number.
pub fn put_number(tag: u32, v: Option<u64>, out: &mut Vec<u8>)
    requires
        1 <= tag < 0x2000_0000,
    ensures
        final(out)@ == old(out)@ + number_field(tag as nat, wide(v)),
{
    match v {
        Some(v) => put_varint_field(tag, v, out),
        None => {
            assert(out@ =~= old(out)@ + Seq::<u8>::empty());
        },
    }
}

/// Appends optional bytes.
pub fn put_content(tag: u32, b: &Option<Vec<u8>>, out: &mut Vec<u8>)
    requires
        1 <= tag < 0x2000_0000,
    ensures
        final(out)@ == old(out)@ + content_field(tag as nat, bytes_view(*b)),
{
    match b {
        Some(b) => put_bytes_field(tag, b.as_slice(), out),
        None => {
            assert(out@ =~= old(out)@ + Seq::<u8>::empty());
        },
    }
}

} // verus!
