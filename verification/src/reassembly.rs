//! Cutting up and putting together are inverse to each other, in whatever order
//! the fragments come and however often one is repeated.

use vstd::prelude::*;

use crate::fragment::{self, AssemblyView, FragmentView};
use crate::messages;

verus! {

/// An assembly after the fragments with the given indices were added, in order.
pub open spec fn gathered(
    a: AssemblyView,
    frags: Seq<FragmentView>,
    order: Seq<int>,
) -> AssemblyView
    decreases order.len(),
{
    if order.len() == 0 {
        a
    } else {
        gathered(a, frags, order.drop_last()).with_fragment(frags[order.last()])
    }
}

/// The contents of fragments, as slots of an assembly.
pub open spec fn contents_of(frags: Seq<FragmentView>) -> Seq<Option<Seq<u8>>> {
    Seq::new(frags.len(), |i: int| Some(frags[i].contents))
}

/// The fragments of an instruction share its identifier and are numbered in order;
/// only the last one is marked as such, all others are of the payload size, and
/// the last one is no longer, and is empty only if there is nothing to cut.
pub proof fn law_split_shape(data: Seq<u8>, payload: nat, id: u64, num: nat)
    requires
        payload > 0,
    ensures
        fragment::split(data, payload, id, num).len() > 0,
        forall|i: int|
            #![trigger fragment::split(data, payload, id, num)[i]]
            0 <= i < fragment::split(data, payload, id, num).len() ==> {
                let f = fragment::split(data, payload, id, num)[i];
                &&& f.id == id
                &&& f.fragment_num == (num + i) % 0x1_0000
                &&& f.is_final == (i == fragment::split(data, payload, id, num).len() - 1)
                &&& f.contents.len() <= payload
                &&& !f.is_final ==> f.contents.len() == payload
                &&& data.len() > 0 ==> f.contents.len() > 0
            },
    decreases data.len(),
{
    let s = fragment::split(data, payload, id, num);
    if data.len() > payload {
        let rest = data.skip(payload as int);
        let tail = fragment::split(rest, payload, id, num + 1);
        law_split_shape(rest, payload, id, num + 1);
        assert forall|i: int| 0 <= i < s.len() implies {
            let f = #[trigger] s[i];
            &&& f.id == id
            &&& f.fragment_num == (num + i) % 0x1_0000
            &&& f.is_final == (i == s.len() - 1)
            &&& f.contents.len() <= payload
            &&& !f.is_final ==> f.contents.len() == payload
            &&& data.len() > 0 ==> f.contents.len() > 0
        } by {
            if i > 0 {
                assert(s[i] == tail[i - 1]);
            }
        }
    }
}

/// A fragment takes up its contents and the header on the wire.
pub proof fn law_fragment_length(f: FragmentView)
    ensures
        f.bytes().len() == f.contents.len() + fragment::FRAG_HEADER_LEN,
{
    crate::octets::lemma_be_bytes_len(f.id as nat, 8);
    crate::octets::lemma_be_bytes_len(f.combined(), 2);
}

proof fn lemma_joined_append(a: Seq<Option<Seq<u8>>>, b: Seq<Option<Seq<u8>>>)
    ensures
        fragment::joined_slots(a + b) == fragment::joined_slots(a) + fragment::joined_slots(b),
    decreases b.len(),
{
    if b.len() == 0 {
        assert(a + b =~= a);
        assert(fragment::joined_slots(a) + fragment::joined_slots(b) =~= fragment::joined_slots(a));
    } else {
        lemma_joined_append(a, b.drop_last());
        assert((a + b).drop_last() =~= a + b.drop_last());
        assert(fragment::joined_slots(a + b) =~= fragment::joined_slots(a)
            + fragment::joined_slots(b));
    }
}

/// The contents of all fragments of an instruction, one after the other, are its
/// compressed bytes.
pub proof fn law_split_loses_nothing(data: Seq<u8>, payload: nat, id: u64, num: nat)
    requires
        payload > 0,
    ensures
        fragment::joined_slots(contents_of(fragment::split(data, payload, id, num))) == data,
    decreases data.len(),
{
    let slots = contents_of(fragment::split(data, payload, id, num));
    reveal_with_fuel(fragment::joined_slots, 2);
    if data.len() <= payload {
        assert(slots =~= seq![Some(data)]);
        assert(slots.drop_last() =~= Seq::empty());
        assert(fragment::joined_slots(slots) =~= data);
    } else {
        let rest = data.skip(payload as int);
        let first: Seq<Option<Seq<u8>>> = seq![Some(data.take(payload as int))];
        let tail = contents_of(fragment::split(rest, payload, id, num + 1));
        law_split_loses_nothing(rest, payload, id, num + 1);
        lemma_joined_append(first, tail);
        assert(slots =~= first + tail);
        assert(first.drop_last() =~= Seq::empty());
        assert(fragment::joined_slots(first) =~= data.take(payload as int));
        assert(data.take(payload as int) + rest =~= data);
    }
}

/// What is true of an assembly while fragments of one instruction come in: the
/// slots of those that came are filled, each was counted once, and the total is
/// known once the last one came.
spec fn gathering(g: AssemblyView, frags: Seq<FragmentView>, id: u64, order: Seq<int>) -> bool {
    &&& g.id == id
    &&& g.slots.len() <= frags.len()
    &&& g.arrived == order.to_set().len()
    &&& forall|i: int| #[trigger] order.contains(i) ==> i < g.slots.len()
    &&& forall|i: int|
        0 <= i < g.slots.len() ==> #[trigger] g.slots[i] == if order.contains(i) {
            Some(frags[i].contents)
        } else {
            None
        }
    &&& g.total == if order.contains(frags.len() - 1) {
        Some(frags.len() as usize)
    } else {
        None
    }
    &&& order.contains(frags.len() - 1) ==> g.slots.len() == frags.len()
}

/// The fragments are those of one instruction.
spec fn fragments_of_one(frags: Seq<FragmentView>, id: u64) -> bool {
    &&& 0 < frags.len() <= 0x1_0000
    &&& forall|i: int|
        0 <= i < frags.len() ==> {
            let f = #[trigger] frags[i];
            &&& f.id == id
            &&& f.fragment_num == i
            &&& f.is_final == (i == frags.len() - 1)
        }
}

spec fn indices(order: Seq<int>, n: nat) -> bool {
    forall|j: int| 0 <= j < order.len() ==> 0 <= #[trigger] order[j] < n
}

proof fn lemma_count(order: Seq<int>, n: nat)
    requires
        indices(order, n),
    ensures
        order.to_set().finite(),
        order.to_set().len() <= n,
        order.to_set().len() == n <==> forall|i: int| 0 <= i < n ==> #[trigger] order.contains(i),
{
    let all = vstd::set_lib::set_int_range(0, n as int);
    vstd::seq_lib::seq_to_set_is_finite(order);
    vstd::set_lib::lemma_int_range(0, n as int);
    assert forall|i: int| order.to_set().contains(i) implies all.contains(i) by {
        assert(order.contains(i));
    }
    vstd::set_lib::lemma_len_subset(order.to_set(), all);
    if order.to_set().len() == n {
        vstd::set_lib::lemma_subset_equality(order.to_set(), all);
        assert forall|i: int| 0 <= i < n implies #[trigger] order.contains(i) by {
            assert(all.contains(i));
            assert(order.to_set().contains(i));
        }
    }
    if forall|i: int| 0 <= i < n ==> #[trigger] order.contains(i) {
        assert forall|i: int| all.contains(i) implies order.to_set().contains(i) by {
            assert(order.contains(i));
        }
        assert(order.to_set() =~= all);
    }
}

proof fn lemma_push(order: Seq<int>)
    requires
        order.len() > 0,
    ensures
        order.to_set() == order.drop_last().to_set().insert(order.last()),
        order.drop_last().to_set().finite(),
        forall|i: int| #[trigger]
            order.contains(i) <==> (order.drop_last().contains(i) || i == order.last()),
{
    let before = order.drop_last();
    vstd::seq_lib::seq_to_set_is_finite(before);
    assert forall|i: int| #[trigger] order.contains(i) <==> (before.contains(i) || i
        == order.last()) by {
        if order.contains(i) {
            let j = choose|j: int| 0 <= j < order.len() && order[j] == i;
            if j < before.len() {
                assert(before[j] == i);
            }
        }
        if before.contains(i) {
            let j = choose|j: int| 0 <= j < before.len() && before[j] == i;
            assert(order[j] == i);
        }
        if i == order.last() {
            assert(order[order.len() - 1] == i);
        }
    }
    assert(order.to_set() =~= before.to_set().insert(order.last())) by {
        assert forall|i: int| order.to_set().contains(i) <==> before.to_set().insert(
            order.last(),
        ).contains(i) by {
            assert(order.to_set().contains(i) <==> order.contains(i));
            assert(before.to_set().contains(i) <==> before.contains(i));
        }
    }
}

proof fn lemma_gathering(a: AssemblyView, frags: Seq<FragmentView>, id: u64, order: Seq<int>)
    requires
        a.ready_for(id),
        fragments_of_one(frags, id),
        order.len() > 0,
        indices(order, frags.len()),
    ensures
        gathering(gathered(a, frags, order), frags, id, order),
    decreases order.len(),
{
    let before = order.drop_last();
    let k = order.last();
    let n = frags.len();
    let g0 = gathered(a, frags, before);
    let g = gathered(a, frags, order);
    let f = frags[k];
    assert(k == order[order.len() - 1]);
    lemma_push(order);
    assert(indices(before, n)) by {
        assert forall|j: int| 0 <= j < before.len() implies 0 <= #[trigger] before[j] < n by {
            assert(before[j] == order[j]);
        }
    }
    lemma_count(before, n);
    let mid = g0.with_contents(f);
    if before.len() == 0 {
        assert(before.to_set() =~= Set::empty());
        assert(!before.contains(k));
        assert(forall|i: int| !before.contains(i));
    } else {
        lemma_gathering(a, frags, id, before);
    }
    assert(mid.id == id);
    assert(mid.slots.len() > k);
    assert(before.to_set().contains(k) == before.contains(k));
    assert forall|i: int| 0 <= i < mid.slots.len() implies #[trigger] mid.slots[i]
        == if order.contains(i) {
        Some(frags[i].contents)
    } else {
        None
    } by {
        if i != k && before.len() > 0 && i < g0.slots.len() {
            assert(mid.slots[i] == g0.slots[i]);
        }
    }
    assert(mid.arrived == order.to_set().len());
    assert(g.slots =~= if f.is_final {
        fragment::resized(mid.slots, n)
    } else {
        mid.slots
    });
    assert forall|i: int| 0 <= i < g.slots.len() implies #[trigger] g.slots[i] == if order.contains(
        i,
    ) {
        Some(frags[i].contents)
    } else {
        None
    } by {
        if i < mid.slots.len() {
            assert(g.slots[i] == mid.slots[i]);
        }
    }
}

/// However the fragments of an instruction come in to an assembly that has
/// nothing of it yet, the assembly is complete exactly when each of them has come
/// at least once; it then holds the compressed bytes, whole.
pub proof fn law_fragments_in_any_order(
    a: AssemblyView,
    data: Seq<u8>,
    payload: nat,
    id: u64,
    order: Seq<int>,
)
    requires
        payload > 0,
        a.ready_for(id),
        fragment::split(data, payload, id, 0).len() <= 0x1_0000,
        order.len() > 0,
        forall|j: int|
            0 <= j < order.len() ==> 0 <= #[trigger] order[j] < fragment::split(
                data,
                payload,
                id,
                0,
            ).len(),
    ensures
        gathered(a, fragment::split(data, payload, id, 0), order).complete() <==> forall|i: int|
            0 <= i < fragment::split(data, payload, id, 0).len() ==> #[trigger] order.contains(i),
        gathered(a, fragment::split(data, payload, id, 0), order).complete() ==> gathered(
            a,
            fragment::split(data, payload, id, 0),
            order,
        ).without_holes() && gathered(a, fragment::split(data, payload, id, 0), order).joined()
            == data,
{
    let frags = fragment::split(data, payload, id, 0);
    let g = gathered(a, frags, order);
    law_split_shape(data, payload, id, 0);
    assert(fragments_of_one(frags, id)) by {
        assert forall|i: int| 0 <= i < frags.len() implies {
            let f = #[trigger] frags[i];
            &&& f.id == id
            &&& f.fragment_num == i
            &&& f.is_final == (i == frags.len() - 1)
        } by {
            assert(frags[i] == fragment::split(data, payload, id, 0)[i]);
        }
    }
    lemma_gathering(a, frags, id, order);
    lemma_count(order, frags.len());
    if g.complete() {
        assert(g.slots =~= contents_of(frags));
        law_split_loses_nothing(data, payload, id, 0);
    } else if forall|i: int| 0 <= i < frags.len() ==> #[trigger] order.contains(i) {
        assert(order.contains(frags.len() - 1));
    }
}

/// Whether every index below `n`, and no other, is in `order`.
pub open spec fn covers(order: Seq<int>, n: nat) -> bool {
    &&& forall|j: int| 0 <= j < order.len() ==> 0 <= #[trigger] order[j] < n
    &&& forall|i: int| 0 <= i < n ==> #[trigger] order.contains(i)
}

/// What is read of fragments that went over the wire.
pub open spec fn over_the_wire(frags: Seq<FragmentView>) -> Seq<FragmentView> {
    Seq::new(frags.len(), |i: int| fragment::parsed_fragment(frags[i].bytes())->0)
}

/// Fragments with numbers of 15 bits come over the wire unchanged.
pub proof fn law_wire_keeps_fragments(data: Seq<u8>, payload: nat, id: u64)
    requires
        payload > 0,
        fragment::split(data, payload, id, 0).len() <= 0x8000,
    ensures
        over_the_wire(fragment::split(data, payload, id, 0)) == fragment::split(
            data,
            payload,
            id,
            0,
        ),
{
    let frags = fragment::split(data, payload, id, 0);
    law_split_shape(data, payload, id, 0);
    assert forall|i: int| 0 <= i < frags.len() implies #[trigger] over_the_wire(frags)[i]
        == frags[i] by {
        assert(frags[i].fragment_num < 0x8000);
        fragment::law_fragment_read_after_write(frags[i]);
    }
    assert(over_the_wire(frags) =~= frags);
}

/// Whether the instruction comes out of every assembly that has nothing of it
/// yet, once each fragment has come over the wire, in any order and however
/// often.
pub open spec fn comes_out_whole(
    frags: Seq<FragmentView>,
    inst: messages::InstructionView,
) -> bool {
    forall|a: AssemblyView, order: Seq<int>|
        a.ready_for(frags[0].id) && covers(order, frags.len()) ==> {
            let g = #[trigger] gathered(a, over_the_wire(frags), order);
            g.complete() && g.instruction() == Some(inst)
        }
}

/// Fragments of bytes that decompress and decode to an instruction bring it
/// over whole, as long as 15 bits are enough to number them.
pub proof fn law_instruction_comes_out_whole(
    data: Seq<u8>,
    payload: nat,
    id: u64,
    inst: messages::InstructionView,
)
    requires
        payload > 0,
        fragment::split(data, payload, id, 0).len() <= 0x8000,
    ensures
        (match fragment::zlib_decompressed(data) {
            Some(s) => messages::decoded_instruction(s),
            None => None,
        }) == Some(inst) ==> comes_out_whole(fragment::split(data, payload, id, 0), inst),
{
    let frags = fragment::split(data, payload, id, 0);
    law_wire_keeps_fragments(data, payload, id);
    law_split_shape(data, payload, id, 0);
    assert forall|a: AssemblyView, order: Seq<int>|
        a.ready_for(frags[0].id) && covers(order, frags.len()) implies {
        let g = #[trigger] gathered(a, over_the_wire(frags), order);
        &&& g.complete()
        &&& g.without_holes()
        &&& g.joined() == data
    } by {
        assert(order.contains(0));
        law_fragments_in_any_order(a, data, payload, id, order);
    }
}

/// An assembly is ready for every instruction before the first fragment came, and
/// again after an instruction was taken out of it, also for the same one.
pub proof fn law_empty_assembly_is_ready(a: AssemblyView, id: u64)
    ensures
        AssemblyView::empty().ready_for(id),
        a.cleared().ready_for(id),
{
}

} // verus!
