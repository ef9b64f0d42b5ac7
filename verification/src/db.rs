//! The database level: the 48-byte file header, its codec and validation, the
//! read transaction that descends the tree from a header snapshot, and the
//! commit that installs a writer's dirty pages and a new header into the map.

use crate::btree::{page_at, page_in_bounds, pages_view};
use crate::codec::{read_u32_at, read_u64_at, u32_of, u64_of, write_u32_at, write_u64_at, zero_vec};
use crate::mmapio::{mmap_bytes, mmap_flush, mmap_len, mmap_read, mmap_write};
use crate::page::{body_of, branch_page_wf, kvs_get, leaf_page_wf, page_count, page_entries, page_header_of, page_kvs, read_page_header, write_page_header, Page, PageError};
use crate::tree::{tree_get, tree_wf};
use std::collections::HashMap;
use vstd::prelude::*;

verus! {

broadcast use vstd::std_specs::hash::group_hash_axioms;

pub const HEADER_SIZE: usize = 48;

pub const MAGIC: u32 = 0x73796E63;

pub const VERSION: u32 = 1;

#[derive(Debug)]
pub enum DbError {
    Io(std::io::Error),
    Page(PageError),
    InvalidMagic { found: u32, expected: u32 },
    FileTooSmall { size: usize, required: usize },
    PageOutOfBounds { page_id: u64, file_size: usize },
    PageFormat,
}

impl From<PageError> for DbError {
    fn from(err: PageError) -> (r: Self)
        ensures
            r == DbError::Page(err),
    {
        DbError::Page(err)
    }
}

impl vstd::std_specs::convert::FromSpecImpl<PageError> for DbError {
    open spec fn obeys_from_spec() -> bool {
        true
    }

    open spec fn from_spec(err: PageError) -> DbError {
        DbError::Page(err)
    }
}

/// The database header stored in the first 48 bytes of page 0.
#[derive(Debug, Clone, Copy)]
pub struct Header {
    pub magic: u32,
    pub version: u32,
    pub page_size: u32,
    pub _padding: u32,
    pub root_page_id: u64,
    pub free_list_page_id: u64,
    pub highest_page_id: u64,
    pub tx_id: u64,
}

/// The header encoded in the first 48 bytes of `b`.
pub open spec fn header_of(b: Seq<u8>) -> Header {
    Header {
        magic: u32_of(b, 0),
        version: u32_of(b, 4),
        page_size: u32_of(b, 8),
        _padding: u32_of(b, 12),
        root_page_id: u64_of(b, 16),
        free_list_page_id: u64_of(b, 24),
        highest_page_id: u64_of(b, 32),
        tx_id: u64_of(b, 40),
    }
}

impl Header {
    /// The header of a freshly created database: an empty tree whose root
    /// leaf will sit at page 2, with the free list reserved at page 1.
    pub fn new(page_size: u32) -> (h: Self)
        ensures
            h == (Header {
                magic: MAGIC,
                version: VERSION,
                page_size,
                _padding: 0u32,
                root_page_id: 0u64,
                free_list_page_id: 1u64,
                highest_page_id: 2u64,
                tx_id: 0u64,
            }),
    {
        Header {
            magic: MAGIC,
            version: VERSION,
            page_size,
            _padding: 0,
            root_page_id: 0,
            free_list_page_id: 1,
            highest_page_id: 2,
            tx_id: 0,
        }
    }
}

/// Encode a header as its 48 on-disk bytes.
pub fn header_to_bytes(h: &Header) -> (r: Vec<u8>)
    ensures
        r@.len() == 48,
        header_of(r@) == *h,
{
    let mut r = zero_vec(48);
    write_u32_at(&mut r, 0, h.magic);
    write_u32_at(&mut r, 4, h.version);
    write_u32_at(&mut r, 8, h.page_size);
    write_u32_at(&mut r, 12, h._padding);
    write_u64_at(&mut r, 16, h.root_page_id);
    write_u64_at(&mut r, 24, h.free_list_page_id);
    write_u64_at(&mut r, 32, h.highest_page_id);
    write_u64_at(&mut r, 40, h.tx_id);
    r
}

/// Decode a header from 48 bytes.
pub fn header_from_bytes(b: &[u8]) -> (h: Header)
    requires
        b@.len() >= 48,
    ensures
        h == header_of(b@),
{
    let n = b.len();
    Header {
        magic: read_u32_at(b, 0),
        version: read_u32_at(b, 4),
        page_size: read_u32_at(b, 8),
        _padding: read_u32_at(b, 12),
        root_page_id: read_u64_at(b, 16),
        free_list_page_id: read_u64_at(b, 24),
        highest_page_id: read_u64_at(b, 32),
        tx_id: read_u64_at(b, 40),
    }
}

/// Read the header from the first 48 bytes of the map.
pub fn read_header(mmap: &memmap2::MmapMut) -> (r: Result<Header, DbError>)
    ensures
        (r matches Ok(h) ==> mmap_bytes(*mmap).len() >= 48 && h == header_of(mmap_bytes(*mmap))),
        (r matches Err(e) ==> mmap_bytes(*mmap).len() < 48 && e == (DbError::FileTooSmall {
            size: mmap_bytes(*mmap).len() as usize,
            required: 48,
        })),
{
    let len = mmap_len(mmap);
    if len < 48 {
        return Err(DbError::FileTooSmall { size: len, required: 48 });
    }
    let b = mmap_read(mmap, 0, 48);
    let h = header_from_bytes(b.as_slice());
    proof {
        assert(mmap_bytes(*mmap).subrange(0, 48)[0] == mmap_bytes(*mmap)[0]);
        assert(header_of(b@) == header_of(mmap_bytes(*mmap)));
    }
    Ok(h)
}

/// Refuse a header whose magic number is not the database's.
pub fn validate_header(h: &Header) -> (r: Result<(), DbError>)
    ensures
        (r is Ok) <==> h.magic == MAGIC,
        (r matches Err(e) ==> e == (DbError::InvalidMagic { found: h.magic, expected: MAGIC })),
{
    if h.magic != MAGIC {
        return Err(DbError::InvalidMagic { found: h.magic, expected: MAGIC });
    }
    Ok(())
}

/// Grow page 2 into the empty root leaf of a fresh database and persist the
/// header that points at it. The caller has already grown the file and map to
/// at least three pages.
pub fn initialize_root_page(mmap: &mut memmap2::MmapMut, header: &mut Header) -> (r: Result<
    (),
    DbError,
>)
    requires
        mmap_bytes(*old(mmap)).len() >= 3 * 4096,
    ensures
        mmap_bytes(*final(mmap)).len() == mmap_bytes(*old(mmap)).len(),
        *final(header) == (Header {
            root_page_id: 2u64,
            highest_page_id: 2u64,
            ..*old(header)
        }),
        header_of(mmap_bytes(*final(mmap))) == *final(header),
        ({
            let p = page_at(mmap_bytes(*final(mmap)), 2);
            &&& leaf_page_wf(p)
            &&& page_kvs(p).len() == 0
            &&& page_header_of(p).id == 2
        }),
        forall|k: int|
            48 <= k < mmap_bytes(*final(mmap)).len() && !(2 * 4096 <= k < 3 * 4096)
                ==> mmap_bytes(*final(mmap))[k] == mmap_bytes(*old(mmap))[k],
        (r matches Err(e) ==> e matches DbError::Io(_)),
{
    let mut page = zero_vec(4096);
    write_page_header(
        &mut page,
        Page { id: 2, page_type: 3, _padding: 0, count: 0, overflow: 0 },
    );
    mmap_write(mmap, 2 * 4096, page.as_slice());
    header.root_page_id = 2;
    header.highest_page_id = 2;
    let hb = header_to_bytes(header);
    mmap_write(mmap, 0, hb.as_slice());
    proof {
        let bytes = mmap_bytes(*mmap);
        assert(header_of(bytes) == *header);
        let p = page_at(bytes, 2);
        assert(p =~= page@);
        assert(page_count(p) == 0);
        assert(leaf_page_wf(p));
        assert(page_kvs(p).len() == 0);
    }
    match mmap_flush(mmap) {
        Ok(_) => Ok(()),
        Err(e) => Err(DbError::Io(e)),
    }
}

/// Install a write epoch: copy every staged page that lies inside the map over
/// its slot, then write the new header (new root, new highest page id, the
/// next transaction id) and flush. The header goes in last, after every page
/// it refers to.
#[verifier::rlimit(60)]
pub fn commit_dirty_pages(
    mmap: &mut memmap2::MmapMut,
    header: &mut Header,
    dirty_pages: &HashMap<u64, Vec<u8>>,
    new_highest_page_id: u64,
    new_root_page_id: u64,
) -> (r: Result<(), DbError>)
    requires
        mmap_bytes(*old(mmap)).len() >= 4096,
        forall|pid: u64|
            pages_view(dirty_pages@).contains_key(pid) ==> (#[trigger] pages_view(dirty_pages@)[
                pid
            ]).len() == 4096,
        old(header).tx_id < u64::MAX,
    ensures
        mmap_bytes(*final(mmap)).len() == mmap_bytes(*old(mmap)).len(),
        *final(header) == (Header {
            root_page_id: new_root_page_id,
            highest_page_id: new_highest_page_id,
            tx_id: (old(header).tx_id + 1) as u64,
            ..*old(header)
        }),
        header_of(mmap_bytes(*final(mmap))) == *final(header),
        forall|pid: u64|
            1 <= pid && page_in_bounds(pid, mmap_bytes(*final(mmap)).len() as int)
                ==> page_at(mmap_bytes(*final(mmap)), pid) == (if pages_view(
                dirty_pages@,
            ).contains_key(pid) {
                pages_view(dirty_pages@)[pid]
            } else {
                page_at(mmap_bytes(*old(mmap)), pid)
            }),
        forall|k: int|
            48 <= k < 4096 ==> mmap_bytes(*final(mmap))[k] == (if pages_view(
                dirty_pages@,
            ).contains_key(0u64) {
                pages_view(dirty_pages@)[0u64][k]
            } else {
                mmap_bytes(*old(mmap))[k]
            }),
        (r matches Err(e) ==> e matches DbError::Io(_)),
{
    let len = mmap_len(mmap);
    let pages = len / 4096;
    proof {
        crate::btree::lemma_div_page_bounds(len as int);
    }
    let mut pid: usize = 0;
    while pid < pages
        invariant
            pages == len / 4096,
            len == mmap_bytes(*mmap).len(),
            len == mmap_bytes(*old(mmap)).len(),
            len >= 4096,
            4096 * pages <= len,
            forall|pid2: u64|
                pages_view(dirty_pages@).contains_key(pid2) ==> (#[trigger] pages_view(
                    dirty_pages@,
                )[pid2]).len() == 4096,
            0 <= pid <= pages,
            forall|q: u64|
                q < pid ==> page_at(mmap_bytes(*mmap), q) == (if pages_view(
                    dirty_pages@,
                ).contains_key(q) {
                    pages_view(dirty_pages@)[q]
                } else {
                    page_at(mmap_bytes(*old(mmap)), q)
                }),
            forall|k: int|
                4096 * pid <= k < len ==> mmap_bytes(*mmap)[k] == mmap_bytes(*old(mmap))[k],
        decreases pages - pid,
    {
        let ghost prev = mmap_bytes(*mmap);
        match dirty_pages.get(&(pid as u64)) {
            Some(p) => {
                proof {
                    assert(dirty_pages@.contains_key(pid as u64) && dirty_pages@[pid as u64]
                        == *p);
                    assert(pages_view(dirty_pages@).contains_key(pid as u64));
                    assert(pages_view(dirty_pages@)[pid as u64] == p@);
                    assert(p@.len() == 4096);
                }
                let off = pid * 4096;
                mmap_write(mmap, off, p.as_slice());
                proof {
                    assert(page_at(mmap_bytes(*mmap), pid as u64) =~= p@);
                    assert forall|q: u64| q < pid implies #[trigger] page_at(mmap_bytes(*mmap), q)
                        =~= page_at(prev, q) by {}
                }
            },
            None => {
                proof {
                    assert(page_at(mmap_bytes(*mmap), pid as u64) =~= page_at(
                        mmap_bytes(*old(mmap)),
                        pid as u64,
                    ));
                }
            },
        }
        pid = pid + 1;
    }
    let ghost mid = mmap_bytes(*mmap);
    header.highest_page_id = new_highest_page_id;
    header.root_page_id = new_root_page_id;
    header.tx_id = header.tx_id + 1;
    let hb = header_to_bytes(header);
    mmap_write(mmap, 0, hb.as_slice());
    proof {
        let bytes = mmap_bytes(*mmap);
        assert(header_of(bytes) == *header);
        assert forall|pid2: u64|
            1 <= pid2 && page_in_bounds(pid2, bytes.len() as int) implies #[trigger] page_at(
            bytes,
            pid2,
        ) =~= page_at(mid, pid2) by {}
        assert forall|pid2: u64|
            1 <= pid2 && page_in_bounds(pid2, bytes.len() as int) implies page_at(mid, pid2)
                == (if pages_view(dirty_pages@).contains_key(pid2) {
                pages_view(dirty_pages@)[pid2]
            } else {
                page_at(mmap_bytes(*old(mmap)), pid2)
            }) by {
            crate::btree::lemma_page_bounds_div_pub(bytes.len() as int, pid2);
        }
        assert forall|k: int| 48 <= k < 4096 implies mmap_bytes(*mmap)[k] == (if pages_view(
            dirty_pages@,
        ).contains_key(0u64) {
            pages_view(dirty_pages@)[0u64][k]
        } else {
            mmap_bytes(*old(mmap))[k]
        }) by {
            crate::btree::lemma_page_bounds_div_pub(bytes.len() as int, 0u64);
            assert(page_at(mid, 0u64)[k] == mid[k]);
            assert(page_at(mmap_bytes(*old(mmap)), 0u64)[k] == mmap_bytes(*old(mmap))[k]);
        }
    }
    match mmap_flush(mmap) {
        Ok(_) => Ok(()),
        Err(e) => Err(DbError::Io(e)),
    }
}

/// The byte view of an optional owned value.
pub open spec fn opt_view(o: Option<Vec<u8>>) -> Option<Seq<u8>> {
    match o {
        Some(v) => Some(v@),
        None => None,
    }
}

/// Reads page headers out of a paged byte store, checking both the logical
/// bound (the highest allocated page id) and the physical one (the mapped
/// length).
pub trait PageReader {
    fn get_page(&self, page_id: u64, highest_page_id: u64) -> (r: Result<Page, PageError>);
}

/// A read transaction: a shared view of the map and a by-value snapshot of the
/// header, consistent for its whole lifetime whatever commits concurrently.
pub struct ReadTxn<'a> {
    mmap_guard: &'a memmap2::MmapMut,
    header: Header,
}

impl<'a> ReadTxn<'a> {
    /// The pages this snapshot can reach: those inside the mapped bytes and at
    /// or below the snapshot's highest page id.
    pub closed spec fn store(self) -> Map<u64, Seq<u8>> {
        Map::new(
            |pid: u64| pid <= self.header.highest_page_id && page_in_bounds(
                pid,
                mmap_bytes(*self.mmap_guard).len() as int,
            ),
            |pid: u64| page_at(mmap_bytes(*self.mmap_guard), pid),
        )
    }

    pub closed spec fn header_snapshot(self) -> Header {
        self.header
    }

    pub closed spec fn base(self) -> Seq<u8> {
        mmap_bytes(*self.mmap_guard)
    }

    /// Open a snapshot over a shared view of the map and a copy of the header.
    pub fn new(mmap: &'a memmap2::MmapMut, header: Header) -> (txn: Self)
        ensures
            txn.store() == ReadTxn::store_of(mmap_bytes(*mmap), header),
            txn.header_snapshot() == header,
            txn.base() == mmap_bytes(*mmap),
    {
        let txn = ReadTxn { mmap_guard: mmap, header };
        proof {
            assert(txn.store() =~= ReadTxn::store_of(mmap_bytes(*mmap), header));
        }
        txn
    }

    /// The snapshot store determined by mapped bytes and a header.
    pub open spec fn store_of(bytes: Seq<u8>, header: Header) -> Map<u64, Seq<u8>> {
        Map::new(
            |pid: u64| pid <= header.highest_page_id && page_in_bounds(pid, bytes.len() as int),
            |pid: u64| page_at(bytes, pid),
        )
    }

    pub fn root_page_id(&self) -> (r: u64)
        ensures
            r == self.header_snapshot().root_page_id,
    {
        self.header.root_page_id
    }

    /// Read a whole page of the snapshot.
    fn read_full_page(&self, page_id: u64) -> (r: Result<Vec<u8>, DbError>)
        ensures
            (r is Ok) <==> self.store().contains_key(page_id),
            (r matches Ok(v) ==> v@ == self.store()[page_id] && v@.len() == 4096),
    {
        if page_id > self.header.highest_page_id {
            return Err(
                DbError::Page(
                    PageError::InvalidPageId {
                        page_id,
                        highest_page_id: self.header.highest_page_id,
                    },
                ),
            );
        }
        let len = mmap_len(self.mmap_guard);
        let pages = len / 4096;
        proof {
            crate::btree::lemma_page_bounds_div_pub(len as int, page_id);
        }
        if page_id >= pages as u64 {
            return Err(DbError::Page(PageError::OutOfBounds { page_id, mmap_size: len }));
        }
        let v = mmap_read(self.mmap_guard, (page_id as usize) * 4096, 4096);
        proof {
            assert(v@ =~= page_at(self.base(), page_id));
        }
        Ok(v)
    }

    /// Read a page header, checking the logical bound first and the physical
    /// one second.
    fn page_header_at(&self, page_id: u64, highest_page_id: u64) -> (r: Result<Page, PageError>)
        ensures
            (page_id <= highest_page_id && page_in_bounds(page_id, self.base().len() as int))
                ==> r == Ok::<Page, PageError>(page_header_of(page_at(self.base(), page_id))),
    {
        let ghost h = page_id <= highest_page_id && page_in_bounds(
            page_id,
            self.base().len() as int,
        );
        if page_id > highest_page_id {
            return Err(PageError::InvalidPageId { page_id, highest_page_id });
        }
        let len = mmap_len(self.mmap_guard);
        let pages = len / 4096;
        proof {
            crate::btree::lemma_page_bounds_div_pub(len as int, page_id);
        }
        if page_id >= pages as u64 {
            return Err(PageError::OutOfBounds { page_id, mmap_size: len });
        }
        let off = page_id as usize * 4096;
        let b = mmap_read(self.mmap_guard, off, 16);
        proof {
            let full = page_at(self.base(), page_id);
            assert forall|k: int| 0 <= k < 16 implies b@[k] == full[k] by {}
            assert(b@[8] == full[8] && b@[9] == full[9]);
            assert(page_header_of(b@) == page_header_of(full));
        }
        Ok(read_page_header(b.as_slice()))
    }

    /// Read a page header of the snapshot, mapping the error into the
    /// database's own kind.
    pub fn get_page(&self, page_id: u64) -> (r: Result<Page, DbError>)
        ensures
            self.store().contains_key(page_id) ==> r == Ok::<Page, DbError>(
                page_header_of(self.store()[page_id]),
            ),
    {
        match self.page_header_at(page_id, self.header.highest_page_id) {
            Ok(p) => Ok(p),
            Err(e) => {
                proof {
                    if self.store().contains_key(page_id) {
                        assert(false);
                    }
                }
                Err(DbError::Page(e))
            },
        }
    }

    /// Look `key` up from the snapshot root. For a store whose root is a
    /// well-formed tree, the result is exactly the tree's binding of the key.
    #[verifier::rlimit(60)]
    #[verifier::spinoff_prover]
    pub fn get(&self, key: &[u8]) -> (r: Result<Option<Vec<u8>>, DbError>)
        ensures
            ({
                let fuel = (self.header_snapshot().highest_page_id + 1) as nat;
                self.header_snapshot().highest_page_id < u64::MAX && tree_wf(
                    self.store(),
                    self.header_snapshot().root_page_id,
                    fuel,
                    None,
                    None,
                ) ==> (r matches Ok(o) && opt_view(o) == tree_get(
                    self.store(),
                    self.header_snapshot().root_page_id,
                    fuel,
                    key@,
                ))
            }),
    {
        let fuel = if self.header.highest_page_id < u64::MAX {
            self.header.highest_page_id + 1
        } else {
            u64::MAX
        };
        self.get_recursive(
            self.header.root_page_id,
            key,
            fuel,
            Ghost(None),
            Ghost(None),
        )
    }

    /// Descend the tree by separator routing until a leaf answers for the key.
    fn get_recursive(
        &self,
        page_id: u64,
        key: &[u8],
        fuel: u64,
        Ghost(lo): Ghost<Option<Seq<u8>>>,
        Ghost(hi): Ghost<Option<Seq<u8>>>,
    ) -> (r: Result<Option<Vec<u8>>, DbError>)
        ensures
            tree_wf(self.store(), page_id, fuel as nat, lo, hi) ==> (r matches Ok(o) && opt_view(o)
                == tree_get(self.store(), page_id, fuel as nat, key@)),
        decreases fuel,
    {
        let ghost h = tree_wf(self.store(), page_id, fuel as nat, lo, hi);
        let page = match self.read_full_page(page_id) {
            Ok(p) => p,
            Err(e) => {
                proof {
                    if h {
                        assert(false);
                    }
                }
                return Err(e);
            },
        };
        let hdr = read_page_header(page.as_slice());
        if hdr.page_type == 3 {
            let r = self.search_leaf(&page, key);
            proof {
                if h {
                    assert(leaf_page_wf(page@));
                }
            }
            r
        } else if hdr.page_type == 4 {
            if fuel == 0 {
                proof {
                    if h {
                        assert(false);
                    }
                }
                return Ok(None);
            }
            let child_id = match self.find_child_in_branch(&page, page_id, key) {
                Ok(c) => c,
                Err(e) => {
                    proof {
                        if h {
                            assert(false);
                        }
                    }
                    return Err(e);
                },
            };
            proof {
                if h {
                    let entries = page_entries(page@);
                    let count = page_count(page@);
                    crate::page::lemma_seps_le_bounds(entries, key@, count);
                    let i = crate::page::seps_le(entries, key@, count);
                    assert(tree_wf(
                        self.store(),
                        entries[i].1,
                        (fuel - 1) as nat,
                        crate::tree::child_lo(entries, lo, i),
                        crate::tree::child_hi(entries, hi, count, i),
                    ));
                }
            }
            let ghost entries = page_entries(page@);
            let ghost count = page_count(page@);
            let ghost i = crate::page::seps_le(entries, key@, count);
            self.get_recursive(
                child_id,
                key,
                fuel - 1,
                Ghost(if h { crate::tree::child_lo(entries, lo, i) } else { None }),
                Ghost(if h { crate::tree::child_hi(entries, hi, count, i) } else { None }),
            )
        } else {
            proof {
                if h {
                    assert(!leaf_page_wf(page@) && !branch_page_wf(page@));
                    assert(false);
                }
            }
            Ok(None)
        }
    }

    /// Search one leaf page for the key and copy its value out.
    fn search_leaf(&self, page: &Vec<u8>, key: &[u8]) -> (r: Result<Option<Vec<u8>>, DbError>)
        requires
            page@.len() == 4096,
        ensures
            leaf_page_wf(page@) ==> (r matches Ok(o) && opt_view(o) == kvs_get(
                page_kvs(page@),
                key@,
            )),
    {
        let ghost body0 = body_of(page@);
        let ghost kvs0 = page_kvs(page@);
        let hdr = read_page_header(page.as_slice());
        let count = hdr.count as usize;
        if count > 510 {
            proof {
                if leaf_page_wf(page@) {
                    assert(false);
                }
            }
            return Err(DbError::PageFormat);
        }
        let body_slice = vstd::slice::slice_subrange(page.as_slice(), 16, 4096);
        proof {
            assert(body_slice@ =~= body0);
        }
        let (index, found) = match crate::search::search_leaf_elements(body_slice, count, key) {
            Ok(p) => p,
            Err(_) => {
                proof {
                    if leaf_page_wf(page@) {
                        assert(false);
                    }
                }
                return Err(DbError::PageFormat);
            },
        };
        if found {
            let e = crate::page::read_leaf_element(page.as_slice(), index);
            if e.vptr as usize + e.vsize as usize > 4080 {
                proof {
                    if leaf_page_wf(page@) {
                        assert(crate::page::leaf_elem_wf(body0, count as int, index as int));
                        assert(false);
                    }
                }
                return Err(DbError::PageFormat);
            }
            let value = vstd::slice::slice_to_vec(
                vstd::slice::slice_subrange(
                    page.as_slice(),
                    16 + e.vptr as usize,
                    16 + e.vptr as usize + e.vsize as usize,
                ),
            );
            proof {
                if leaf_page_wf(page@) {
                    assert(value@ =~= crate::page::leaf_val(body0, index as int));
                    assert(kvs0[index as int] == (crate::page::leaf_key(body0, index as int),
                        crate::page::leaf_val(body0, index as int)));
                    assert(kvs_get(kvs0, key@) == Some(value@));
                }
            }
            Ok(Some(value))
        } else {
            proof {
                if leaf_page_wf(page@) {
                    assert(kvs_get(kvs0, key@) is None);
                }
            }
            Ok(None)
        }
    }

    /// Route the key through one branch page: the child at the matching
    /// separator, or the one just left of the insertion slot.
    fn find_child_in_branch(&self, page: &Vec<u8>, page_id: u64, for_key: &[u8]) -> (r: Result<
        u64,
        DbError,
    >)
        requires
            page@.len() == 4096,
        ensures
            branch_page_wf(page@) ==> r == Ok::<u64, DbError>(
                crate::page::branch_child_for(page_entries(page@), for_key@),
            ),
    {
        let ghost body0 = body_of(page@);
        let ghost entries0 = page_entries(page@);
        let hdr = read_page_header(page.as_slice());
        let count = hdr.count as usize;
        if count > 254 {
            proof {
                if branch_page_wf(page@) {
                    assert(false);
                }
            }
            return Err(DbError::PageFormat);
        }
        let body_slice = vstd::slice::slice_subrange(page.as_slice(), 16, 4096);
        proof {
            assert(body_slice@ =~= body0);
        }
        let (result_index, found) = match crate::search::search_branch_elements(
            body_slice,
            count,
            for_key,
        ) {
            Ok(p) => p,
            Err(_) => {
                proof {
                    if branch_page_wf(page@) {
                        assert(false);
                    }
                }
                return Err(DbError::PageFormat);
            },
        };
        let child_index = if found {
            result_index
        } else {
            result_index - 1
        };
        let e = crate::page::read_branch_element(page.as_slice(), child_index);
        proof {
            if branch_page_wf(page@) {
                assert(child_index as int == crate::page::seps_le(entries0, for_key@, count as int));
                assert(entries0[child_index as int].1 == e.page_id);
            }
        }
        Ok(e.page_id)
    }
}

impl<'a> PageReader for ReadTxn<'a> {
    fn get_page(&self, page_id: u64, highest_page_id: u64) -> (r: Result<Page, PageError>) {
        self.page_header_at(page_id, highest_page_id)
    }
}

} // verus!
