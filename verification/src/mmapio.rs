//! The trusted boundary to `memmap2`. A `MmapMut` is the writable memory map
//! of the database file; to the verified code it is a byte store whose
//! contents are named by `mmap_bytes`. Every access the engine makes goes
//! through the wrappers here.

use vstd::prelude::*;

verus! {

#[verifier::external_type_specification]
#[verifier::external_body]
pub struct ExMmapMut(memmap2::MmapMut);

#[verifier::external_type_specification]
#[verifier::external_body]
pub struct ExIoError(std::io::Error);

/// The bytes a mutable memory map currently holds.
pub uninterp spec fn mmap_bytes(m: memmap2::MmapMut) -> Seq<u8>;

/// Relies on `memmap2::MmapMut`'s `Deref<Target = [u8]>` impl: the mapped
/// region viewed as a byte slice, whose length is the mapped length.
#[verifier::external_body]
pub fn mmap_len(m: &memmap2::MmapMut) -> (r: usize)
    ensures
        r == mmap_bytes(*m).len(),
{
    m.as_ref().len()
}

/// Relies on `memmap2::MmapMut`'s `Deref<Target = [u8]>` impl: reading a
/// range of the mapped region yields its current bytes.
#[verifier::external_body]
pub fn mmap_read(m: &memmap2::MmapMut, off: usize, len: usize) -> (r: Vec<u8>)
    requires
        off + len <= mmap_bytes(*m).len(),
    ensures
        r@ == mmap_bytes(*m).subrange(off as int, off + len),
{
    m[off..off + len].to_vec()
}

/// Relies on `memmap2::MmapMut`'s `DerefMut<Target = [u8]>` impl: writing a
/// range of the mapped region replaces exactly those bytes.
#[verifier::external_body]
pub fn mmap_write(m: &mut memmap2::MmapMut, off: usize, data: &[u8])
    requires
        off + data@.len() <= mmap_bytes(*old(m)).len(),
    ensures
        mmap_bytes(*final(m)).len() == mmap_bytes(*old(m)).len(),
        forall|k: int|
            off <= k < off + data@.len() ==> mmap_bytes(*final(m))[k] == data@[k - off],
        forall|k: int|
            0 <= k < mmap_bytes(*final(m)).len() && !(off <= k < off + data@.len())
                ==> mmap_bytes(*final(m))[k] == mmap_bytes(*old(m))[k],
{
    m[off..off + data.len()].copy_from_slice(data);
}

/// Relies on `memmap2::MmapMut::flush`: flushes outstanding modifications to
/// disk and reports failure; the mapped bytes themselves are not changed.
#[verifier::external_body]
pub fn mmap_flush(m: &memmap2::MmapMut) -> (r: Result<(), std::io::Error>)
{
    m.flush()
}

} // verus!
