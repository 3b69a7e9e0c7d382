//! Instructions on the wire: an encoded instruction is compressed and cut into
//! fragments, and put together again from fragments that come in any order.

use std::io::{Read, Write};

use flate2::read::ZlibDecoder;
use flate2::write::ZlibEncoder;
use flate2::Compression;
use vstd::prelude::*;
use vstd::slice::slice_subrange;
use vstd::slice::slice_to_vec;

use crate::messages::{self, Instruction};
use crate::octets::{self, copy_from, push_all, push_be, read_be, read_be16};

verus! {

/// Length of the header of a fragment: its identifier and its number.
pub const FRAG_HEADER_LEN: usize = 10;

/// A piece of a compressed instruction.
pub struct Fragment {
    pub id: u64,
    pub fragment_num: u16,
    pub is_final: bool,
    pub contents: Vec<u8>,
}

/// The content of a [`Fragment`].
#[verifier::ext_equal]
pub struct FragmentView {
    pub id: u64,
    pub fragment_num: u16,
    pub is_final: bool,
    pub contents: Seq<u8>,
}

impl View for Fragment {
    type V = FragmentView;

    open spec fn view(&self) -> FragmentView {
        FragmentView {
            id: self.id,
            fragment_num: self.fragment_num,
            is_final: self.is_final,
            contents: self.contents@,
        }
    }
}

impl FragmentView {
    /// The second part of the header: the number, with the top bit set on the
    /// last fragment.
    pub open spec fn combined(self) -> nat {
        if self.is_final && self.fragment_num < 0x8000 {
            (0x8000 + self.fragment_num) as nat
        } else {
            self.fragment_num as nat
        }
    }

    /// The fragment on the wire.
    pub open spec fn bytes(self) -> Seq<u8> {
        octets::be_bytes(self.id as nat, 8) + octets::be_bytes(self.combined(), 2) + self.contents
    }
}

/// The fragment that some bytes hold, if they are enough for a header.
pub open spec fn parsed_fragment(s: Seq<u8>) -> Option<FragmentView> {
    if s.len() < 10 {
        None
    } else {
        Some(
            FragmentView {
                id: octets::be_value(s.take(8)) as u64,
                fragment_num: (octets::be_value(seq![s[8], s[9]]) % 0x8000) as u16,
                is_final: octets::be_value(seq![s[8], s[9]]) >= 0x8000,
                contents: s.skip(10),
            },
        )
    }
}

/// A fragment whose number has 15 bits is read back as it was written.
pub proof fn law_fragment_read_after_write(f: FragmentView)
    requires
        f.fragment_num < 0x8000,
    ensures
        parsed_fragment(f.bytes()) == Some(f),
{
    let s = f.bytes();
    octets::lemma_pow256();
    octets::lemma_be_bytes_len(f.id as nat, 8);
    octets::lemma_be_bytes_len(f.combined(), 2);
    octets::law_be_read_after_write(f.id as nat, 8);
    octets::law_be_read_after_write(f.combined(), 2);
    assert(s.take(8) =~= octets::be_bytes(f.id as nat, 8));
    assert(seq![s[8], s[9]] =~= octets::be_bytes(f.combined(), 2));
    assert(s.skip(10) =~= f.contents);
}

/// Bytes that are read as a fragment are what that fragment is written as.
pub proof fn law_fragment_write_after_read(s: Seq<u8>)
    requires
        s.len() >= 10,
    ensures
        parsed_fragment(s) is Some,
        parsed_fragment(s)->0.bytes() == s,
{
    let f = parsed_fragment(s)->0;
    let low = seq![s[8], s[9]];
    octets::lemma_pow256();
    octets::lemma_be_value_bound(s.take(8));
    octets::lemma_be_value_bound(low);
    octets::law_be_write_after_read(s.take(8));
    octets::law_be_write_after_read(low);
    assert(f.combined() == octets::be_value(low));
    assert(f.bytes() =~= s);
}

impl Fragment {
    /// The fragment that `data` holds, if it is enough for a header.
    pub fn from_bytes(data: &[u8]) -> (r: Option<Fragment>)
        ensures
            r is Some == parsed_fragment(data@) is Some,
            r matches Some(f) ==> parsed_fragment(data@) == Some(f@),
    {
        if data.len() < FRAG_HEADER_LEN {
            return None;
        }
        let id: u64 = read_be(slice_subrange(data, 0, 8));
        let combined: u16 = read_be16(data[8], data[9]);
        let contents = copy_from(data, FRAG_HEADER_LEN);
        assert(data@.subrange(0, 8) =~= data@.take(8));
        assert(combined & 0x7fff == combined % 0x8000) by (bit_vector);
        assert((combined & 0x8000 != 0) == (combined >= 0x8000)) by (bit_vector);
        Some(
            Fragment {
                id,
                fragment_num: combined & 0x7fff,
                is_final: combined & 0x8000 != 0,
                contents,
            },
        )
    }

    /// The fragment on the wire.
    pub fn to_bytes(&self) -> (out: Vec<u8>)
        ensures
            out@ == self@.bytes(),
    {
        let num: u16 = self.fragment_num;
        assert(0x8000 | num == if num < 0x8000 {
            0x8000 + num
        } else {
            num as int
        }) by (bit_vector);
        let combined: u16 = if self.is_final {
            0x8000 | num
        } else {
            num
        };
        let mut out: Vec<u8> = Vec::new();
        push_be(&mut out, self.id, 8);
        push_be(&mut out, combined as u64, 2);
        push_all(&mut out, self.contents.as_slice());
        assert(out@ =~= self@.bytes());
        out
    }
}

/// The zlib stream, at the default level, of some bytes.
pub uninterp spec fn zlib_compressed(data: Seq<u8>) -> Seq<u8>;

/// What the zlib stream at the start of some bytes holds, if there is a sound one.
pub uninterp spec fn zlib_decompressed(data: Seq<u8>) -> Option<Seq<u8>>;

/// Calls `flate2::write::ZlibEncoder` on a vector, which takes all bytes and
/// never fails. Trusted: the stream depends on the bytes alone, is not empty, as
/// it starts with a header, and the decoder gives the bytes back.
#[verifier::external_body]
fn zlib_compress(data: &[u8]) -> (out: Vec<u8>)
    ensures
        out@ == zlib_compressed(data@),
        out@.len() > 0,
        zlib_decompressed(out@) == Some(data@),
{
    let mut encoder = ZlibEncoder::new(Vec::new(), Compression::default());
    encoder.write_all(data).expect("zlib compress write");
    encoder.finish().expect("zlib compress finish")
}

/// Calls `flate2::read::ZlibDecoder`, reading to the end of the stream. Trusted:
/// what comes out depends on the bytes alone.
#[verifier::external_body]
fn zlib_decompress(data: &[u8]) -> (r: Option<Vec<u8>>)
    ensures
        r is Some == zlib_decompressed(data@) is Some,
        r matches Some(out) ==> zlib_decompressed(data@) == Some(out@),
{
    let mut out = Vec::new();
    match ZlibDecoder::new(data).read_to_end(&mut out) {
        Ok(_) => Some(out),
        Err(_) => None,
    }
}

/// The slots of an assembly, cut or filled up with empty ones to `len`.
pub open spec fn resized(slots: Seq<Option<Seq<u8>>>, len: nat) -> Seq<Option<Seq<u8>>> {
    Seq::new(
        len,
        |i: int|
            if i < slots.len() {
                slots[i]
            } else {
                None
            },
    )
}

/// What an assembly has gathered: the contents of the fragments by number, how
/// many were counted, and how many there are, once that is known.
#[verifier::ext_equal]
pub struct AssemblyView {
    pub slots: Seq<Option<Seq<u8>>>,
    pub id: u64,
    pub arrived: usize,
    pub total: Option<usize>,
}

impl AssemblyView {
    /// The assembly before the first fragment.
    pub open spec fn empty() -> AssemblyView {
        AssemblyView { slots: Seq::empty(), id: u64::MAX, arrived: 0, total: None }
    }

    /// The assembly with the contents of a fragment: a fragment of another
    /// instruction starts it anew, a fragment that is already there is passed
    /// over.
    pub open spec fn with_contents(self, f: FragmentView) -> AssemblyView {
        let idx = f.fragment_num as int;
        let base = if f.id != self.id {
            AssemblyView { slots: Seq::empty(), id: f.id, arrived: 0, total: None }
        } else {
            self
        };
        let slots = if idx >= base.slots.len() {
            resized(base.slots, (idx + 1) as nat)
        } else {
            base.slots
        };
        if slots[idx] is None {
            AssemblyView {
                slots: slots.update(idx, Some(f.contents)),
                arrived: if base.arrived == usize::MAX {
                    0
                } else {
                    (base.arrived + 1) as usize
                },
                ..base
            }
        } else {
            AssemblyView { slots, ..base }
        }
    }

    /// The assembly with a fragment added. The last fragment tells how many
    /// there are.
    pub open spec fn with_fragment(self, f: FragmentView) -> AssemblyView {
        let next = self.with_contents(f);
        if f.is_final {
            AssemblyView {
                slots: resized(next.slots, (f.fragment_num + 1) as nat),
                total: Some((f.fragment_num + 1) as usize),
                ..next
            }
        } else {
            next
        }
    }

    /// Whether nothing is gathered of the instruction with this identifier: the
    /// assembly is at another one, or is empty.
    pub open spec fn ready_for(self, id: u64) -> bool {
        self.id != id || (self.slots.len() == 0 && self.arrived == 0 && self.total is None)
    }

    /// Whether as many fragments were counted as there are.
    pub open spec fn complete(self) -> bool {
        self.total == Some(self.arrived)
    }

    /// Whether every slot is filled.
    pub open spec fn without_holes(self) -> bool {
        forall|i: int| 0 <= i < self.slots.len() ==> (#[trigger] self.slots[i]) is Some
    }

    /// The assembly after its contents were taken out.
    pub open spec fn cleared(self) -> AssemblyView {
        AssemblyView { slots: Seq::empty(), id: self.id, arrived: 0, total: None }
    }

    /// The compressed instruction, put together.
    pub open spec fn joined(self) -> Seq<u8> {
        joined_slots(self.slots)
    }

    /// The instruction in the assembly: its compressed bytes must be all there,
    /// decompress and decode.
    pub open spec fn instruction(self) -> Option<messages::InstructionView> {
        if !self.without_holes() {
            None
        } else {
            match zlib_decompressed(self.joined()) {
                Some(s) => messages::decoded_instruction(s),
                None => None,
            }
        }
    }
}

/// The contents of filled slots, one after the other.
pub open spec fn joined_slots(slots: Seq<Option<Seq<u8>>>) -> Seq<u8>
    decreases slots.len(),
{
    if slots.len() == 0 {
        Seq::empty()
    } else {
        joined_slots(slots.drop_last()) + slots.last()->0
    }
}

/// The fragments of one instruction, as far as they have come.
pub struct FragmentAssembly {
    fragments: Vec<Option<Vec<u8>>>,
    current_id: u64,
    fragments_arrived: usize,
    fragments_total: Option<usize>,
}

/// The contents of slots.
pub open spec fn slots_view(slots: Seq<Option<Vec<u8>>>) -> Seq<Option<Seq<u8>>> {
    Seq::new(slots.len(), |i: int| crate::wire::bytes_view(slots[i]))
}

impl View for FragmentAssembly {
    type V = AssemblyView;

    closed spec fn view(&self) -> AssemblyView {
        AssemblyView {
            slots: slots_view(self.fragments@),
            id: self.current_id,
            arrived: self.fragments_arrived,
            total: self.fragments_total,
        }
    }
}

/// Cuts slots, or fills them up with empty ones, to `len`.
fn resize_slots(slots: &mut Vec<Option<Vec<u8>>>, len: usize)
    ensures
        slots_view(final(slots)@) == resized(slots_view(old(slots)@), len as nat),
{
    slots.truncate(len);
    let ghost cut = slots@;
    assert(cut =~= old(slots)@.take(if len <= old(slots)@.len() {
        len as int
    } else {
        old(slots)@.len() as int
    }));
    while slots.len() < len
        invariant
            cut.len() <= slots@.len() <= len,
            forall|i: int| 0 <= i < cut.len() ==> slots@[i] == cut[i],
            forall|i: int| cut.len() <= i < slots@.len() ==> (#[trigger] slots@[i]) is None,
        decreases len - slots.len(),
    {
        slots.push(None);
    }
    proof {
        let got = slots_view(slots@);
        let want = resized(slots_view(old(slots)@), len as nat);
        assert forall|i: int| 0 <= i < len implies got[i] == want[i] by {
            if i < cut.len() {
                assert(slots@[i] == cut[i]);
            } else {
                assert(slots@[i] is None);
            }
        }
        assert(got =~= want);
    }
}

impl FragmentAssembly {
    /// The assembly before the first fragment.
    pub fn new() -> (a: FragmentAssembly)
        ensures
            a@ == AssemblyView::empty(),
    {
        let a = FragmentAssembly {
            fragments: Vec::new(),
            current_id: u64::MAX,
            fragments_arrived: 0,
            fragments_total: None,
        };
        assert(a@.slots =~= Seq::empty());
        a
    }

    /// Adds a fragment. True is returned once as many have arrived as there are.
    pub fn add_fragment(&mut self, frag: &Fragment) -> (complete: bool)
        ensures
            final(self)@ == old(self)@.with_fragment(frag@),
            complete == final(self)@.complete(),
    {
        let idx: usize = frag.fragment_num as usize;
        let ghost before = self@;
        if frag.id != self.current_id {
            self.fragments.clear();
            self.fragments_arrived = 0;
            self.fragments_total = None;
            self.current_id = frag.id;
        }
        let ghost base = self@;
        assert(frag.id != before.id ==> base.slots =~= Seq::empty());
        if idx >= self.fragments.len() {
            resize_slots(&mut self.fragments, idx + 1);
        }
        let ghost slots = self@.slots;
        assert(slots == if idx >= base.slots.len() {
            resized(base.slots, (idx + 1) as nat)
        } else {
            base.slots
        });
        assert(slots[idx as int] == crate::wire::bytes_view(self.fragments@[idx as int]));
        if self.fragments[idx].is_none() {
            self.fragments.set(idx, Some(slice_to_vec(frag.contents.as_slice())));
            self.fragments_arrived = self.fragments_arrived.wrapping_add(1);
            assert(self@.slots =~= slots.update(idx as int, Some(frag.contents@)));
        }
        assert(self@ =~= before.with_contents(frag@));

        if frag.is_final {
            self.fragments_total = Some(idx + 1);
            resize_slots(&mut self.fragments, idx + 1);
        }
        assert(self@ =~= before.with_fragment(frag@));

        match self.fragments_total {
            Some(total) => self.fragments_arrived == total,
            None => false,
        }
    }

    /// Takes the instruction out of the assembly. Where a slot is empty, nothing
    /// comes out and everything stays.
    pub fn get_assembly(&mut self) -> (r: Option<Instruction>)
        ensures
            final(self)@ == if old(self)@.without_holes() {
                old(self)@.cleared()
            } else {
                old(self)@
            },
            r is Some == old(self)@.instruction() is Some,
            r matches Some(inst) ==> old(self)@.instruction() == Some(inst@),
    {
        let mut encoded: Vec<u8> = Vec::new();
        let mut i: usize = 0;
        let ghost before = self@;
        assert(before.slots.take(0) =~= Seq::empty());
        while i < self.fragments.len()
            invariant
                before == self@,
                before == old(self)@,
                i <= self.fragments@.len(),
                before.slots.len() == self.fragments@.len(),
                forall|j: int| 0 <= j < i ==> (#[trigger] before.slots[j]) is Some,
                encoded@ == joined_slots(before.slots.take(i as int)),
            decreases self.fragments@.len() - i,
        {
            assert(before.slots[i as int] == crate::wire::bytes_view(self.fragments@[i as int]));
            match &self.fragments[i] {
                Some(contents) => {
                    push_all(&mut encoded, contents.as_slice());
                    proof {
                        let longer = before.slots.take(i + 1);
                        assert(longer.drop_last() =~= before.slots.take(i as int));
                        assert(longer.last() == before.slots[i as int]);
                    }
                },
                None => return None,
            }
            i = i + 1;
        }
        assert(before.slots.take(i as int) =~= before.slots);
        self.fragments.clear();
        self.fragments_arrived = 0;
        self.fragments_total = None;
        assert(self@ =~= before.cleared());

        match zlib_decompress(encoded.as_slice()) {
            Some(decompressed) => Instruction::decode(decompressed.as_slice()),
            None => None,
        }
    }
}

/// The fragments that a compressed instruction is cut into, `payload` bytes in
/// each but the last, numbered from `num` on. There is always a last one. The
/// numbers wrap at `2^16`.
pub open spec fn split(data: Seq<u8>, payload: nat, id: u64, num: nat) -> Seq<FragmentView>
    decreases data.len(),
{
    let fragment_num = (num % 0x1_0000) as u16;
    if payload == 0 || data.len() <= payload {
        seq![FragmentView { id, fragment_num, is_final: true, contents: data }]
    } else {
        seq![
            FragmentView { id, fragment_num, is_final: false, contents: data.take(payload as int) },
        ] + split(data.skip(payload as int), payload, id, num + 1)
    }
}

/// The contents of fragments.
pub open spec fn fragment_views(frags: Seq<Fragment>) -> Seq<FragmentView> {
    Seq::new(frags.len(), |i: int| frags[i]@)
}

/// Cuts a compressed instruction into fragments.
pub fn split_into_fragments(data: &[u8], payload: usize, id: u64) -> (frags: Vec<Fragment>)
    requires
        payload > 0,
    ensures
        fragment_views(frags@) == split(data@, payload as nat, id, 0),
{
    let mut frags: Vec<Fragment> = Vec::new();
    let mut offset: usize = 0;
    let mut frag_num: u16 = 0;
    assert(data@.skip(0) =~= data@);
    assert(fragment_views(frags@) + split(data@, payload as nat, id, 0) =~= split(
        data@,
        payload as nat,
        id,
        0,
    ));
    loop
        invariant
            payload > 0,
            offset <= data@.len(),
            frag_num == frags@.len() % 0x1_0000,
            fragment_views(frags@) + split(
                data@.skip(offset as int),
                payload as nat,
                id,
                frags@.len(),
            ) == split(data@, payload as nat, id, 0),
        decreases data@.len() - offset,
    {
        let ghost rest = data@.skip(offset as int);
        let ghost before = frags@;
        let is_final = data.len() - offset <= payload;
        let end: usize = if is_final {
            data.len()
        } else {
            offset + payload
        };
        let contents = slice_to_vec(slice_subrange(data, offset, end));
        assert(contents@ =~= if is_final {
            rest
        } else {
            rest.take(payload as int)
        });
        frags.push(Fragment { id, fragment_num: frag_num, is_final, contents });
        proof {
            let added = frags@.last()@;
            assert(fragment_views(frags@) =~= fragment_views(before).push(added));
            assert(data@.skip(end as int) =~= rest.skip(end - offset));
            if is_final {
                assert(split(rest, payload as nat, id, before.len()) =~= seq![added]);
                assert(fragment_views(frags@) =~= fragment_views(before) + seq![added]);
            } else {
                let tail = split(data@.skip(end as int), payload as nat, id, before.len() + 1);
                assert(split(rest, payload as nat, id, before.len()) =~= seq![added] + tail);
                assert(fragment_views(frags@) + tail =~= fragment_views(before) + (seq![added]
                    + tail));
            }
        }
        offset = end;
        frag_num = frag_num.wrapping_add(1);
        if is_final {
            return frags;
        }
    }
}

/// Gives instructions their identifiers: an instruction between the same two
/// states as the one before keeps its identifier, any other gets the next one.
#[derive(Clone, Copy)]
pub struct FragmenterView {
    pub next_id: u64,
    pub last_old_num: u64,
    pub last_new_num: u64,
}

impl FragmenterView {
    /// The fragmenter before the first instruction.
    pub open spec fn initial() -> FragmenterView {
        FragmenterView { next_id: 0, last_old_num: u64::MAX, last_new_num: u64::MAX }
    }

    /// The fragmenter after an instruction, whose identifier is `next_id` of the
    /// result. Identifiers wrap at `2^64`.
    pub open spec fn after(self, old_num: u64, new_num: u64) -> FragmenterView {
        FragmenterView {
            next_id: if old_num != self.last_old_num || new_num != self.last_new_num {
                ((self.next_id + 1) % 0x1_0000_0000_0000_0000) as u64
            } else {
                self.next_id
            },
            last_old_num: old_num,
            last_new_num: new_num,
        }
    }
}

/// Cuts instructions into fragments.
pub struct Fragmenter {
    next_id: u64,
    last_old_num: u64,
    last_new_num: u64,
}

impl View for Fragmenter {
    type V = FragmenterView;

    closed spec fn view(&self) -> FragmenterView {
        FragmenterView {
            next_id: self.next_id,
            last_old_num: self.last_old_num,
            last_new_num: self.last_new_num,
        }
    }
}

impl Fragmenter {
    /// The fragmenter before the first instruction.
    pub fn new() -> (f: Fragmenter)
        ensures
            f@ == FragmenterView::initial(),
    {
        Fragmenter { next_id: 0, last_old_num: u64::MAX, last_new_num: u64::MAX }
    }

    /// The fragments of an instruction, none empty, all but the last `mtu` bytes
    /// long on the wire, and the last one no longer. The instruction
    /// can be put together from them again, as long as 15 bits are enough to number
    /// them.
    pub fn make_fragments(&mut self, inst: &Instruction, mtu: usize) -> (frags: Vec<Fragment>)
        requires
            mtu > FRAG_HEADER_LEN,
        ensures
            final(self)@ == old(self)@.after(
                messages::or_zero(inst@.old_num),
                messages::or_zero(inst@.new_num),
            ),
            fragment_views(frags@) == split(
                zlib_compressed(inst@.bytes()),
                (mtu - FRAG_HEADER_LEN) as nat,
                final(self)@.next_id,
                0,
            ),
            frags@.len() <= 0x8000 ==> crate::reassembly::comes_out_whole(
                fragment_views(frags@),
                inst@,
            ),
            forall|i: int|
                0 <= i < frags@.len() ==> {
                    &&& (#[trigger] frags@[i])@.contents.len() > 0
                    &&& i < frags@.len() - 1 ==> frags@[i]@.bytes().len() == mtu
                    &&& frags@[i]@.bytes().len() <= mtu
                },
    {
        let payload_mtu: usize = mtu - FRAG_HEADER_LEN;

        if inst.old_num() != self.last_old_num || inst.new_num() != self.last_new_num {
            self.next_id = self.next_id.wrapping_add(1);
        }
        self.last_old_num = inst.old_num();
        self.last_new_num = inst.new_num();

        let serialized = inst.encode_to_vec();
        let compressed = zlib_compress(serialized.as_slice());
        let frags = split_into_fragments(compressed.as_slice(), payload_mtu, self.next_id);
        proof {
            let payload = payload_mtu as nat;
            let views = fragment_views(frags@);
            crate::reassembly::law_split_shape(compressed@, payload, self.next_id, 0);
            if views.len() <= 0x8000 {
                crate::reassembly::law_instruction_comes_out_whole(
                    compressed@,
                    payload,
                    self.next_id,
                    inst@,
                );
            }
            assert forall|i: int| 0 <= i < frags@.len() implies {
                &&& (#[trigger] frags@[i])@.contents.len() > 0
                &&& i < frags@.len() - 1 ==> frags@[i]@.bytes().len() == mtu
                &&& frags@[i]@.bytes().len() <= mtu
            } by {
                assert(views[i] == frags@[i]@);
                crate::reassembly::law_fragment_length(views[i]);
            }
        }
        frags
    }
}

} // verus!
