use vstd::bytes::*;
use vstd::prelude::*;

verus! {

// Integers travel in network byte order: the little-endian bytes, reversed.
pub open spec fn be16(x: u16) -> Seq<u8> {
    spec_u16_to_le_bytes(x).reverse()
}

pub open spec fn be32(x: u32) -> Seq<u8> {
    spec_u32_to_le_bytes(x).reverse()
}

pub open spec fn be64(x: u64) -> Seq<u8> {
    spec_u64_to_le_bytes(x).reverse()
}

pub open spec fn be128(x: u128) -> Seq<u8> {
    spec_u128_to_le_bytes(x).reverse()
}

pub open spec fn from_be16(s: Seq<u8>) -> u16 {
    spec_u16_from_le_bytes(s.reverse())
}

pub open spec fn from_be32(s: Seq<u8>) -> u32 {
    spec_u32_from_le_bytes(s.reverse())
}

pub open spec fn from_be64(s: Seq<u8>) -> u64 {
    spec_u64_from_le_bytes(s.reverse())
}

pub open spec fn from_be128(s: Seq<u8>) -> u128 {
    spec_u128_from_le_bytes(s.reverse())
}

proof fn lemma_reverse_twice(s: Seq<u8>)
    ensures
        s.reverse().reverse() == s,
        s.reverse().len() == s.len(),
{
    assert(s.reverse().reverse() =~= s);
}

/// Each width of integer reads back from its bytes, and each byte string of
/// the width reads back from its integer.
pub proof fn lemma_be_round_trip()
    ensures
        forall|x: u16| #[trigger] be16(x).len() == 2 && from_be16(be16(x)) == x,
        forall|x: u32| #[trigger] be32(x).len() == 4 && from_be32(be32(x)) == x,
        forall|x: u64| #[trigger] be64(x).len() == 8 && from_be64(be64(x)) == x,
        forall|x: u128| #[trigger] be128(x).len() == 16 && from_be128(be128(x)) == x,
        forall|s: Seq<u8>| s.len() == 2 ==> #[trigger] be16(from_be16(s)) == s,
        forall|s: Seq<u8>| s.len() == 4 ==> #[trigger] be32(from_be32(s)) == s,
        forall|s: Seq<u8>| s.len() == 8 ==> #[trigger] be64(from_be64(s)) == s,
        forall|s: Seq<u8>| s.len() == 16 ==> #[trigger] be128(from_be128(s)) == s,
{
    lemma_auto_spec_u16_to_from_le_bytes();
    lemma_auto_spec_u32_to_from_le_bytes();
    lemma_auto_spec_u64_to_from_le_bytes();
    lemma_auto_spec_u128_to_from_le_bytes();
    assert forall|x: u16| #[trigger] be16(x).len() == 2 && from_be16(be16(x)) == x by {
        lemma_reverse_twice(spec_u16_to_le_bytes(x));
    }
    assert forall|x: u32| #[trigger] be32(x).len() == 4 && from_be32(be32(x)) == x by {
        lemma_reverse_twice(spec_u32_to_le_bytes(x));
    }
    assert forall|x: u64| #[trigger] be64(x).len() == 8 && from_be64(be64(x)) == x by {
        lemma_reverse_twice(spec_u64_to_le_bytes(x));
    }
    assert forall|x: u128| #[trigger] be128(x).len() == 16 && from_be128(be128(x)) == x by {
        lemma_reverse_twice(spec_u128_to_le_bytes(x));
    }
    assert forall|s: Seq<u8>| s.len() == 2 implies #[trigger] be16(from_be16(s)) == s by {
        lemma_reverse_twice(s);
        assert(spec_u16_to_le_bytes(spec_u16_from_le_bytes(s.reverse())) == s.reverse());
    }
    assert forall|s: Seq<u8>| s.len() == 4 implies #[trigger] be32(from_be32(s)) == s by {
        lemma_reverse_twice(s);
        assert(spec_u32_to_le_bytes(spec_u32_from_le_bytes(s.reverse())) == s.reverse());
    }
    assert forall|s: Seq<u8>| s.len() == 8 implies #[trigger] be64(from_be64(s)) == s by {
        lemma_reverse_twice(s);
        assert(spec_u64_to_le_bytes(spec_u64_from_le_bytes(s.reverse())) == s.reverse());
    }
    assert forall|s: Seq<u8>| s.len() == 16 implies #[trigger] be128(from_be128(s)) == s by {
        lemma_reverse_twice(s);
        assert(spec_u128_to_le_bytes(spec_u128_from_le_bytes(s.reverse())) == s.reverse());
    }
}

/// Appends `le` in reverse order.
fn push_reversed(out: &mut Vec<u8>, le: &Vec<u8>)
    ensures
        final(out)@ == old(out)@ + le@.reverse(),
{
    let ghost start = out@;
    let n = le.len();
    let mut i: usize = 0;
    while i < n
        invariant
            i <= n,
            n == le@.len(),
            out@ == start + le@.reverse().take(i as int),
        decreases n - i,
    {
        out.push(le[n - 1 - i]);
        i = i + 1;
        assert(out@ =~= start + le@.reverse().take(i as int));
    }
    assert(le@.reverse().take(n as int) =~= le@.reverse());
}

/// The `n` bytes at `off`, in reverse order.
fn reversed_at(b: &[u8], off: usize, n: usize) -> (r: Vec<u8>)
    requires
        off + n <= b@.len(),
    ensures
        r@ == b@.subrange(off as int, off + n).reverse(),
{
    let mut out: Vec<u8> = Vec::new();
    let len = b.len();
    let mut i: usize = 0;
    while i < n
        invariant
            i <= n,
            len == b@.len(),
            off + n <= b@.len(),
            out@ == b@.subrange(off as int, off + n).reverse().take(i as int),
        decreases n - i,
    {
        out.push(b[off + (n - 1 - i)]);
        i = i + 1;
        assert(out@ =~= b@.subrange(off as int, off + n).reverse().take(i as int));
    }
    assert(b@.subrange(off as int, off + n).reverse().take(n as int) =~= b@.subrange(
        off as int,
        off + n,
    ).reverse());
    out
}

pub fn put_u16(out: &mut Vec<u8>, x: u16)
    ensures
        final(out)@ == old(out)@ + be16(x),
{
    push_reversed(out, &u16_to_le_bytes(x));
}

pub fn put_u32(out: &mut Vec<u8>, x: u32)
    ensures
        final(out)@ == old(out)@ + be32(x),
{
    push_reversed(out, &u32_to_le_bytes(x));
}

pub fn put_u64(out: &mut Vec<u8>, x: u64)
    ensures
        final(out)@ == old(out)@ + be64(x),
{
    push_reversed(out, &u64_to_le_bytes(x));
}

pub fn put_u128(out: &mut Vec<u8>, x: u128)
    ensures
        final(out)@ == old(out)@ + be128(x),
{
    push_reversed(out, &u128_to_le_bytes(x));
}

pub fn get_u16(b: &[u8], off: usize) -> (r: u16)
    requires
        off + 2 <= b@.len(),
    ensures
        r == from_be16(b@.subrange(off as int, off + 2)),
{
    let v = reversed_at(b, off, 2);
    u16_from_le_bytes(v.as_slice())
}

pub fn get_u32(b: &[u8], off: usize) -> (r: u32)
    requires
        off + 4 <= b@.len(),
    ensures
        r == from_be32(b@.subrange(off as int, off + 4)),
{
    let v = reversed_at(b, off, 4);
    u32_from_le_bytes(v.as_slice())
}

pub fn get_u64(b: &[u8], off: usize) -> (r: u64)
    requires
        off + 8 <= b@.len(),
    ensures
        r == from_be64(b@.subrange(off as int, off + 8)),
{
    let v = reversed_at(b, off, 8);
    u64_from_le_bytes(v.as_slice())
}

pub fn get_u128(b: &[u8], off: usize) -> (r: u128)
    requires
        off + 16 <= b@.len(),
    ensures
        r == from_be128(b@.subrange(off as int, off + 16)),
{
    let v = reversed_at(b, off, 16);
    u128_from_le_bytes(v.as_slice())
}

} // verus!
