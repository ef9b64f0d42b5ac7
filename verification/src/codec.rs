//! Little-endian integer views of byte sequences, and verified primitives for
//! reading and writing them inside fixed-size byte buffers.

use vstd::prelude::*;
use vstd::slice::slice_index_get;

verus! {

/// The 16-bit little-endian integer stored at offset `i` of `b`.
pub open spec fn u16_of(b: Seq<u8>, i: int) -> u16 {
    (b[i] + 0x100 * b[i + 1]) as u16
}

/// The 32-bit little-endian integer stored at offset `i` of `b`.
pub open spec fn u32_of(b: Seq<u8>, i: int) -> u32 {
    (b[i] + 0x100 * b[i + 1] + 0x1_0000 * b[i + 2] + 0x100_0000 * b[i + 3]) as u32
}

/// The 64-bit little-endian integer stored at offset `i` of `b`.
pub open spec fn u64_of(b: Seq<u8>, i: int) -> u64 {
    (b[i] + 0x100 * b[i + 1] + 0x1_0000 * b[i + 2] + 0x100_0000 * b[i + 3] + 0x1_0000_0000 * b[i
        + 4] + 0x100_0000_0000 * b[i + 5] + 0x1_0000_0000_0000 * b[i + 6] + 0x100_0000_0000_0000
        * b[i + 7]) as u64
}

pub fn read_u16_at(b: &[u8], i: usize) -> (r: u16)
    requires
        i + 2 <= b@.len(),
    ensures
        r == u16_of(b@, i as int),
{
    let n = b.len();
    let b0 = *slice_index_get(b, i);
    let b1 = *slice_index_get(b, i + 1);
    b0 as u16 + 0x100 * (b1 as u16)
}

pub fn read_u32_at(b: &[u8], i: usize) -> (r: u32)
    requires
        i + 4 <= b@.len(),
    ensures
        r == u32_of(b@, i as int),
{
    let n = b.len();
    let b0 = *slice_index_get(b, i);
    let b1 = *slice_index_get(b, i + 1);
    let b2 = *slice_index_get(b, i + 2);
    let b3 = *slice_index_get(b, i + 3);
    b0 as u32 + 0x100 * (b1 as u32) + 0x1_0000 * (b2 as u32) + 0x100_0000 * (b3 as u32)
}

pub fn read_u64_at(b: &[u8], i: usize) -> (r: u64)
    requires
        i + 8 <= b@.len(),
    ensures
        r == u64_of(b@, i as int),
{
    let n = b.len();
    let b0 = *slice_index_get(b, i);
    let b1 = *slice_index_get(b, i + 1);
    let b2 = *slice_index_get(b, i + 2);
    let b3 = *slice_index_get(b, i + 3);
    let b4 = *slice_index_get(b, i + 4);
    let b5 = *slice_index_get(b, i + 5);
    let b6 = *slice_index_get(b, i + 6);
    let b7 = *slice_index_get(b, i + 7);
    b0 as u64 + 0x100 * (b1 as u64) + 0x1_0000 * (b2 as u64) + 0x100_0000 * (b3 as u64)
        + 0x1_0000_0000 * (b4 as u64) + 0x100_0000_0000 * (b5 as u64) + 0x1_0000_0000_0000 * (b6
        as u64) + 0x100_0000_0000_0000 * (b7 as u64)
}

proof fn lemma_u16_digits(v: u16)
    ensures
        v == (v % 0x100) + 0x100 * ((v / 0x100) % 0x100),
{
    assert(v == (v % 0x100) + 0x100 * ((v / 0x100) % 0x100)) by (bit_vector);
}

proof fn lemma_u32_digits(v: u32)
    ensures
        v == (v % 0x100) + 0x100 * ((v / 0x100) % 0x100) + 0x1_0000 * ((v / 0x1_0000) % 0x100)
            + 0x100_0000 * ((v / 0x100_0000) % 0x100),
{
    assert(v == (v % 0x100) + 0x100 * ((v / 0x100) % 0x100) + 0x1_0000 * ((v / 0x1_0000) % 0x100)
        + 0x100_0000 * ((v / 0x100_0000) % 0x100)) by (bit_vector);
}

proof fn lemma_u64_digits(v: u64)
    ensures
        v == (v % 0x100) + 0x100 * ((v / 0x100) % 0x100) + 0x1_0000 * ((v / 0x1_0000) % 0x100)
            + 0x100_0000 * ((v / 0x100_0000) % 0x100) + 0x1_0000_0000 * ((v / 0x1_0000_0000)
            % 0x100) + 0x100_0000_0000 * ((v / 0x100_0000_0000) % 0x100) + 0x1_0000_0000_0000 * ((
        v / 0x1_0000_0000_0000) % 0x100) + 0x100_0000_0000_0000 * ((v / 0x100_0000_0000_0000)
            % 0x100),
{
    assert(v == (v % 0x100) + 0x100 * ((v / 0x100) % 0x100) + 0x1_0000 * ((v / 0x1_0000) % 0x100)
        + 0x100_0000 * ((v / 0x100_0000) % 0x100) + 0x1_0000_0000 * ((v / 0x1_0000_0000) % 0x100)
        + 0x100_0000_0000 * ((v / 0x100_0000_0000) % 0x100) + 0x1_0000_0000_0000 * ((v
        / 0x1_0000_0000_0000) % 0x100) + 0x100_0000_0000_0000 * ((v / 0x100_0000_0000_0000)
        % 0x100)) by (bit_vector);
}

pub fn write_u16_at(b: &mut Vec<u8>, i: usize, v: u16)
    requires
        i + 2 <= old(b)@.len(),
    ensures
        final(b)@.len() == old(b)@.len(),
        u16_of(final(b)@, i as int) == v,
        forall|k: int| 0 <= k < final(b)@.len() && !(i <= k < i + 2) ==> final(b)@[k] == old(b)@[k],
{
    let n = b.len();
    assert(i + 2 <= n);
    b.set(i, (v % 0x100) as u8);
    b.set(i + 1, (v / 0x100) as u8);
    proof {
        lemma_u16_digits(v);
    }
}

pub fn write_u32_at(b: &mut Vec<u8>, i: usize, v: u32)
    requires
        i + 4 <= old(b)@.len(),
    ensures
        final(b)@.len() == old(b)@.len(),
        u32_of(final(b)@, i as int) == v,
        forall|k: int| 0 <= k < final(b)@.len() && !(i <= k < i + 4) ==> final(b)@[k] == old(b)@[k],
{
    let n = b.len();
    assert(i + 4 <= n);
    b.set(i, (v % 0x100) as u8);
    b.set(i + 1, ((v / 0x100) % 0x100) as u8);
    b.set(i + 2, ((v / 0x1_0000) % 0x100) as u8);
    b.set(i + 3, ((v / 0x100_0000) % 0x100) as u8);
    proof {
        lemma_u32_digits(v);
    }
}

pub fn write_u64_at(b: &mut Vec<u8>, i: usize, v: u64)
    requires
        i + 8 <= old(b)@.len(),
    ensures
        final(b)@.len() == old(b)@.len(),
        u64_of(final(b)@, i as int) == v,
        forall|k: int| 0 <= k < final(b)@.len() && !(i <= k < i + 8) ==> final(b)@[k] == old(b)@[k],
{
    let n = b.len();
    assert(i + 8 <= n);
    b.set(i, (v % 0x100) as u8);
    b.set(i + 1, ((v / 0x100) % 0x100) as u8);
    b.set(i + 2, ((v / 0x1_0000) % 0x100) as u8);
    b.set(i + 3, ((v / 0x100_0000) % 0x100) as u8);
    b.set(i + 4, ((v / 0x1_0000_0000) % 0x100) as u8);
    b.set(i + 5, ((v / 0x100_0000_0000) % 0x100) as u8);
    b.set(i + 6, ((v / 0x1_0000_0000_0000) % 0x100) as u8);
    b.set(i + 7, ((v / 0x100_0000_0000_0000) % 0x100) as u8);
    proof {
        lemma_u64_digits(v);
    }
}

/// Copy `src` into `dst` starting at offset `off`, leaving all other bytes alone.
pub fn copy_range(dst: &mut Vec<u8>, off: usize, src: &[u8])
    requires
        off + src@.len() <= old(dst)@.len(),
    ensures
        final(dst)@.len() == old(dst)@.len(),
        forall|k: int| off <= k < off + src@.len() ==> final(dst)@[k] == src@[k - off],
        forall|k: int|
            0 <= k < final(dst)@.len() && !(off <= k < off + src@.len()) ==> final(dst)@[k] == old(dst)@[k],
{
    let n = src.len();
    let dn = dst.len();
    let mut j: usize = 0;
    while j < n
        invariant
            n == src@.len(),
            dn == dst@.len(),
            off + n <= dst@.len(),
            dst@.len() == old(dst)@.len(),
            0 <= j <= n,
            forall|k: int| off <= k < off + j ==> dst@[k] == src@[k - off],
            forall|k: int| 0 <= k < dst@.len() && !(off <= k < off + j) ==> dst@[k] == old(dst)@[k],
        decreases n - j,
    {
        let x = *slice_index_get(src, j);
        dst.set(off + j, x);
        j = j + 1;
    }
}

/// Move the bytes of `[start, end)` to `[start + shift, end + shift)` within `v`
/// (a copy towards higher offsets; the source range keeps its old bytes where
/// the two ranges do not overlap).
pub fn move_range_right(v: &mut Vec<u8>, start: usize, end: usize, shift: usize)
    requires
        start <= end,
        end + shift <= old(v)@.len(),
    ensures
        final(v)@.len() == old(v)@.len(),
        forall|k: int| start + shift <= k < end + shift ==> final(v)@[k] == old(v)@[k - shift],
        forall|k: int|
            0 <= k < final(v)@.len() && !(start + shift <= k < end + shift) ==> final(v)@[k] == old(v)@[k],
{
    let vn = v.len();
    let n = end - start;
    let mut j: usize = 0;
    while j < n
        invariant
            n == end - start,
            start <= end,
            vn == v@.len(),
            end + shift <= v@.len(),
            v@.len() == old(v)@.len(),
            0 <= j <= n,
            forall|k: int| end + shift - j <= k < end + shift ==> v@[k] == old(v)@[k - shift],
            forall|k: int|
                0 <= k < v@.len() && !(end + shift - j <= k < end + shift) ==> v@[k] == old(v)@[k],
        decreases n - j,
    {
        let idx = end - 1 - j;
        let x = v[idx];
        v.set(idx + shift, x);
        j = j + 1;
    }
}

/// A vector of `n` zero bytes.
pub fn zero_vec(n: usize) -> (r: Vec<u8>)
    ensures
        r@.len() == n,
        forall|k: int| 0 <= k < n ==> r@[k] == 0u8,
{
    let mut v: Vec<u8> = Vec::new();
    let mut j: usize = 0;
    while j < n
        invariant
            0 <= j <= n,
            v@.len() == j,
            forall|k: int| 0 <= k < j ==> v@[k] == 0u8,
        decreases n - j,
    {
        v.push(0u8);
        j = j + 1;
    }
    v
}

/// Two sequences agreeing pointwise on `[x, y)` have equal subranges there.
pub proof fn lemma_subrange_eq(a: Seq<u8>, b: Seq<u8>, x: int, y: int)
    requires
        0 <= x <= y <= a.len(),
        y <= b.len(),
        forall|k: int| x <= k < y ==> a[k] == b[k],
    ensures
        a.subrange(x, y) == b.subrange(x, y),
{
    assert(a.subrange(x, y) =~= b.subrange(x, y));
}

} // verus!
