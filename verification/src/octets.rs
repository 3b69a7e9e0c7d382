//! Big-endian integers and byte strings.

use vstd::prelude::*;
use vstd::slice::slice_subrange;

verus! {

/// The integer whose big-endian digits to base 256 are `s`.
pub open spec fn be_value(s: Seq<u8>) -> nat
    decreases s.len(),
{
    if s.len() == 0 {
        0
    } else {
        be_value(s.drop_last()) * 256 + s.last() as nat
    }
}

/// The `n` low-order big-endian digits to base 256 of `v`.
pub open spec fn be_bytes(v: nat, n: nat) -> Seq<u8>
    decreases n,
{
    if n == 0 {
        Seq::empty()
    } else {
        be_bytes(v / 256, (n - 1) as nat).push((v % 256) as u8)
    }
}

/// `256` to the power `n`.
pub open spec fn pow256(n: nat) -> nat
    decreases n,
{
    if n == 0 {
        1
    } else {
        256 * pow256((n - 1) as nat)
    }
}

/// The powers of 256 that bound the integers in use here.
pub proof fn lemma_pow256()
    ensures
        pow256(2) == 0x1_0000,
        pow256(8) == 0x1_0000_0000_0000_0000,
{
    reveal_with_fuel(pow256, 9);
}

/// `n` bytes hold an integer below `256^n`.
pub proof fn lemma_be_value_bound(s: Seq<u8>)
    ensures
        be_value(s) < pow256(s.len()),
    decreases s.len(),
{
    if s.len() > 0 {
        lemma_be_value_bound(s.drop_last());
    }
}

/// Writing an integer takes exactly the width asked for.
pub proof fn lemma_be_bytes_len(v: nat, n: nat)
    ensures
        be_bytes(v, n).len() == n,
    decreases n,
{
    if n > 0 {
        lemma_be_bytes_len(v / 256, (n - 1) as nat);
    }
}

/// Reading what was written gives the integer back, if it fits the width.
pub proof fn law_be_read_after_write(v: nat, n: nat)
    requires
        v < pow256(n),
    ensures
        be_value(be_bytes(v, n)) == v,
    decreases n,
{
    lemma_be_bytes_len(v, n);
    if n > 0 {
        law_be_read_after_write(v / 256, (n - 1) as nat);
        assert(be_bytes(v, n).drop_last() =~= be_bytes(v / 256, (n - 1) as nat));
    }
}

/// Writing what was read gives the bytes back.
pub proof fn law_be_write_after_read(s: Seq<u8>)
    ensures
        be_bytes(be_value(s), s.len()) == s,
    decreases s.len(),
{
    if s.len() > 0 {
        law_be_write_after_read(s.drop_last());
        assert((be_value(s) / 256) as nat == be_value(s.drop_last()));
        assert(s.drop_last().push(s.last()) =~= s);
    } else {
        assert(be_bytes(be_value(s), s.len()) =~= s);
    }
}

/// Appends the `n` low-order bytes of `v`, most significant first.
pub fn push_be(out: &mut Vec<u8>, v: u64, n: usize)
    ensures
        final(out)@ == old(out)@ + be_bytes(v as nat, n as nat),
    decreases n,
{
    if n > 0 {
        push_be(out, v / 256, n - 1);
        out.push((v % 256) as u8);
        assert(out@ =~= old(out)@ + be_bytes(v as nat, n as nat));
    } else {
        assert(out@ =~= old(out)@ + be_bytes(v as nat, n as nat));
    }
}

/// Reads up to eight bytes as a big-endian integer.
pub fn read_be(data: &[u8]) -> (v: u64)
    requires
        data@.len() <= 8,
    ensures
        v == be_value(data@),
{
    let mut v: u64 = 0;
    let mut i: usize = 0;
    assert(data@.take(0) =~= Seq::empty());
    while i < data.len()
        invariant
            i <= data@.len() <= 8,
            v == be_value(data@.take(i as int)),
        decreases data.len() - i,
    {
        proof {
            let t = data@.take(i + 1);
            assert(t.drop_last() =~= data@.take(i as int));
            lemma_be_value_bound(data@);
            lemma_be_value_bound(t);
            lemma_pow256_mono((i + 1) as nat, 8);
            lemma_pow256();
        }
        v = v * 256 + data[i] as u64;
        i = i + 1;
    }
    assert(data@.take(data@.len() as int) =~= data@);
    v
}

/// Powers of 256 grow with the exponent.
pub proof fn lemma_pow256_mono(m: nat, n: nat)
    requires
        m <= n,
    ensures
        pow256(m) <= pow256(n),
    decreases n,
{
    if m < n {
        lemma_pow256_mono(m, (n - 1) as nat);
    }
}

/// Reads a big-endian `u16` out of two bytes.
pub fn read_be16(high: u8, low: u8) -> (v: u16)
    ensures
        v == be_value(seq![high, low]),
{
    proof {
        reveal_with_fuel(be_value, 3);
        assert(seq![high, low].drop_last() =~= seq![high]);
        assert(seq![high].drop_last() =~= Seq::<u8>::empty());
    }
    high as u16 * 256 + low as u16
}

/// Appends a copy of `data`.
pub fn push_all(out: &mut Vec<u8>, data: &[u8])
    ensures
        final(out)@ == old(out)@ + data@,
{
    out.extend_from_slice(data);
    assert(out@ =~= old(out)@ + data@);
}

/// A copy of `data` from `start` on.
pub fn copy_from(data: &[u8], start: usize) -> (out: Vec<u8>)
    requires
        start <= data@.len(),
    ensures
        out@ == data@.skip(start as int),
{
    let mut out: Vec<u8> = Vec::new();
    push_all(&mut out, slice_subrange(data, start, data.len()));
    assert(out@ =~= data@.skip(start as int));
    out
}

} // verus!
