//! Big-endian integer codecs and byte copying.
use vstd::prelude::*;

verus! {

/// The eight big-endian bytes of `x`.
pub open spec fn be_u64(x: u64) -> Seq<u8> {
    seq![
        (x >> 56) as u8, (x >> 48) as u8, (x >> 40) as u8, (x >> 32) as u8,
        (x >> 24) as u8, (x >> 16) as u8, (x >> 8) as u8, x as u8,
    ]
}

/// The four big-endian bytes of `x`.
pub open spec fn be_u32(x: u32) -> Seq<u8> {
    seq![(x >> 24) as u8, (x >> 16) as u8, (x >> 8) as u8, x as u8]
}

/// The integer whose big-endian bytes are the eight bytes of `s` at `off`.
pub open spec fn u64_at(s: Seq<u8>, off: int) -> u64 {
    ((s[off] as u64) << 56) | ((s[off + 1] as u64) << 48) | ((s[off + 2] as u64) << 40) | ((
    s[off + 3] as u64) << 32) | ((s[off + 4] as u64) << 24) | ((s[off + 5] as u64) << 16) | ((
    s[off + 6] as u64) << 8) | (s[off + 7] as u64)
}

/// The integer whose big-endian bytes are the four bytes of `s` at `off`.
pub open spec fn u32_at(s: Seq<u8>, off: int) -> u32 {
    ((s[off] as u32) << 24) | ((s[off + 1] as u32) << 16) | ((s[off + 2] as u32) << 8) | (s[off
        + 3] as u32)
}

pub proof fn lemma_u64_round_trip(x: u64)
    ensures
        u64_at(be_u64(x), 0) == x,
{
    let b = be_u64(x);
    let (b0, b1, b2, b3, b4, b5, b6, b7) = (b[0], b[1], b[2], b[3], b[4], b[5], b[6], b[7]);
    assert(b0 == (x >> 56) as u8 && b1 == (x >> 48) as u8 && b2 == (x >> 40) as u8 && b3 == (x
        >> 32) as u8 && b4 == (x >> 24) as u8 && b5 == (x >> 16) as u8 && b6 == (x >> 8) as u8
        && b7 == x as u8);
    assert(b0 == (x >> 56) as u8 && b1 == (x >> 48) as u8 && b2 == (x >> 40) as u8 && b3 == (x
        >> 32) as u8 && b4 == (x >> 24) as u8 && b5 == (x >> 16) as u8 && b6 == (x >> 8) as u8
        && b7 == x as u8 ==> ((b0 as u64) << 56) | ((b1 as u64) << 48) | ((b2 as u64) << 40) | ((
    b3 as u64) << 32) | ((b4 as u64) << 24) | ((b5 as u64) << 16) | ((b6 as u64) << 8) | (b7 as u64)
        == x) by (bit_vector);
}

pub proof fn lemma_u32_round_trip(x: u32)
    ensures
        u32_at(be_u32(x), 0) == x,
{
    let b = be_u32(x);
    let (b0, b1, b2, b3) = (b[0], b[1], b[2], b[3]);
    assert(b0 == (x >> 24) as u8 && b1 == (x >> 16) as u8 && b2 == (x >> 8) as u8 && b3 == x as u8
        ==> ((b0 as u32) << 24) | ((b1 as u32) << 16) | ((b2 as u32) << 8) | (b3 as u32) == x)
        by (bit_vector);
}

/// Appends the big-endian bytes of `x`.
pub fn push_u64(v: &mut Vec<u8>, x: u64)
    ensures
        final(v)@ == old(v)@ + be_u64(x),
{
    v.push((x >> 56) as u8);
    v.push((x >> 48) as u8);
    v.push((x >> 40) as u8);
    v.push((x >> 32) as u8);
    v.push((x >> 24) as u8);
    v.push((x >> 16) as u8);
    v.push((x >> 8) as u8);
    v.push(x as u8);
    assert(final(v)@ =~= old(v)@ + be_u64(x));
}

/// Appends the big-endian bytes of `x`.
pub fn push_u32(v: &mut Vec<u8>, x: u32)
    ensures
        final(v)@ == old(v)@ + be_u32(x),
{
    v.push((x >> 24) as u8);
    v.push((x >> 16) as u8);
    v.push((x >> 8) as u8);
    v.push(x as u8);
    assert(final(v)@ =~= old(v)@ + be_u32(x));
}

/// Reads a big-endian integer from the eight bytes of `s` at `off`.
pub fn read_u64(s: &[u8], off: usize) -> (r: u64)
    requires
        off + 8 <= s@.len(),
    ensures
        r == u64_at(s@, off as int),
{
    ((s[off] as u64) << 56) | ((s[off + 1] as u64) << 48) | ((s[off + 2] as u64) << 40) | ((s[off
        + 3] as u64) << 32) | ((s[off + 4] as u64) << 24) | ((s[off + 5] as u64) << 16) | ((s[off
        + 6] as u64) << 8) | (s[off + 7] as u64)
}

/// Reads a big-endian integer from the four bytes of `s` at `off`.
pub fn read_u32(s: &[u8], off: usize) -> (r: u32)
    requires
        off + 4 <= s@.len(),
    ensures
        r == u32_at(s@, off as int),
{
    ((s[off] as u32) << 24) | ((s[off + 1] as u32) << 16) | ((s[off + 2] as u32) << 8) | (s[off
        + 3] as u32)
}

/// Copy the elements of `slice_to_copy` into `copy_into_slice`, starting at `offset`.
pub fn copy_bytes_into(copy_into_slice: &mut Vec<u8>, slice_to_copy: &[u8], offset: usize)
    requires
        offset + slice_to_copy@.len() <= old(copy_into_slice)@.len(),
    ensures
        final(copy_into_slice)@ == old(copy_into_slice)@.subrange(0, offset as int)
            + slice_to_copy@ + old(copy_into_slice)@.subrange(
            offset + slice_to_copy@.len(),
            old(copy_into_slice)@.len() as int,
        ),
{
    let n = slice_to_copy.len();
    let total = copy_into_slice.len();
    let mut idx: usize = 0;
    while idx < n
        invariant
            idx <= n == slice_to_copy@.len(),
            offset + n <= copy_into_slice@.len(),
            copy_into_slice@.len() == old(copy_into_slice)@.len() == total,
            forall|k: int|
                0 <= k < copy_into_slice@.len() ==> #[trigger] copy_into_slice@[k] == if offset
                    <= k < offset + idx {
                    slice_to_copy@[k - offset]
                } else {
                    old(copy_into_slice)@[k]
                },
        decreases n - idx,
    {
        copy_into_slice.set(offset + idx, slice_to_copy[idx]);
        idx += 1;
    }
    assert(copy_into_slice@ =~= old(copy_into_slice)@.subrange(0, offset as int) + slice_to_copy@
        + old(copy_into_slice)@.subrange(offset + n, old(copy_into_slice)@.len() as int));
}

} // verus!
