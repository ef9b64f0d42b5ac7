//! The on-disk page format. A page is 4096 bytes: a 16-byte header followed by
//! a 4080-byte body. The body holds a directory of fixed-width elements growing
//! forward from offset 0 and a payload heap growing backward from offset 4080.
//! This module gives the layout its mathematical model (`leaf_kvs`,
//! `branch_entries`, the well-formedness predicates) and the verified codecs
//! for headers and elements.

use crate::codec::{read_u16_at, read_u32_at, read_u64_at, u16_of, u32_of, u64_of, write_u16_at, write_u32_at, write_u64_at};
use crate::order::lex_lt;
use vstd::prelude::*;

verus! {

pub const PAGE_SIZE: usize = 4096;

pub const PAGE_HEADER_SIZE: usize = 16;

pub const PAGE_BODY_SIZE: usize = 4080;

pub const LEAF_ELEMENT_SIZE: usize = 8;

pub const BRANCH_ELEMENT_SIZE: usize = 16;

#[derive(Debug, Clone, Copy, PartialEq)]
pub enum PageError {
    OutOfBounds { page_id: u64, mmap_size: usize },
    InvalidPageId { page_id: u64, highest_page_id: u64 },
}

#[derive(Debug, Clone, Copy, PartialEq, Eq, Structural)]
pub enum PageType {
    Meta,
    FreeList,
    Leaf,
    Branch,
}

/// The byte that stands for each page type in the page header.
pub open spec fn page_type_code(t: PageType) -> u8 {
    match t {
        PageType::Meta => 1,
        PageType::FreeList => 2,
        PageType::Leaf => 3,
        PageType::Branch => 4,
    }
}

pub fn page_type_byte(t: PageType) -> (r: u8)
    ensures
        r == page_type_code(t),
{
    match t {
        PageType::Meta => 1,
        PageType::FreeList => 2,
        PageType::Leaf => 3,
        PageType::Branch => 4,
    }
}

/// The page header: the first 16 bytes of every page.
#[derive(Debug, Clone, Copy)]
pub struct Page {
    pub id: u64,
    pub page_type: u8,
    pub _padding: u8,
    pub count: u16,
    pub overflow: u32,
}

/// A leaf directory element: key and value sizes and body-relative offsets.
#[derive(Debug, Clone, Copy)]
pub struct LeafElement {
    pub ksize: u16,
    pub vsize: u16,
    pub kptr: u16,
    pub vptr: u16,
}

/// A branch directory element: a child page and its separator key.
#[derive(Debug, Clone, Copy)]
pub struct BranchElement {
    pub page_id: u64,
    pub ksize: u16,
    pub kptr: u16,
    pub _padding: u32,
}

// ---------------------------------------------------------------------------
// Spec-level models of page bytes.
// ---------------------------------------------------------------------------
/// The body of a 4096-byte page: everything after the 16-byte header.
pub open spec fn body_of(p: Seq<u8>) -> Seq<u8> {
    p.subrange(PAGE_HEADER_SIZE as int, PAGE_SIZE as int)
}

/// The header encoded in the first 16 bytes of a page.
pub open spec fn page_header_of(p: Seq<u8>) -> Page {
    Page {
        id: u64_of(p, 0),
        page_type: p[8],
        _padding: p[9],
        count: u16_of(p, 10),
        overflow: u32_of(p, 12),
    }
}

pub open spec fn page_count(p: Seq<u8>) -> int {
    u16_of(p, 10) as int
}

/// The leaf element at directory slot `i` of a page body.
pub open spec fn leaf_elem(body: Seq<u8>, i: int) -> LeafElement {
    LeafElement {
        ksize: u16_of(body, 8 * i),
        vsize: u16_of(body, 8 * i + 2),
        kptr: u16_of(body, 8 * i + 4),
        vptr: u16_of(body, 8 * i + 6),
    }
}

pub open spec fn leaf_key(body: Seq<u8>, i: int) -> Seq<u8> {
    let e = leaf_elem(body, i);
    body.subrange(e.kptr as int, e.kptr + e.ksize)
}

pub open spec fn leaf_val(body: Seq<u8>, i: int) -> Seq<u8> {
    let e = leaf_elem(body, i);
    body.subrange(e.vptr as int, e.vptr + e.vsize)
}

/// Layout soundness of one leaf element: the value bytes follow the key bytes,
/// and the whole payload range lies between the directory end and the body end.
pub open spec fn leaf_elem_wf(body: Seq<u8>, count: int, i: int) -> bool {
    let e = leaf_elem(body, i);
    &&& e.vptr == e.kptr + e.ksize
    &&& 8 * count <= e.kptr
    &&& e.vptr + e.vsize <= 4080
}

/// A well-formed leaf body: every element lies inside the payload heap and the
/// keys are strictly increasing.
pub open spec fn leaf_wf(body: Seq<u8>, count: int) -> bool {
    &&& body.len() == 4080
    &&& 0 <= count
    &&& 8 * count <= 4080
    &&& forall|i: int| 0 <= i < count ==> leaf_elem_wf(body, count, i)
    &&& forall|i: int, j: int|
        0 <= i < j < count ==> lex_lt(#[trigger] leaf_key(body, i), #[trigger] leaf_key(body, j))
}

/// The key/value pairs a leaf body holds, in directory order.
pub open spec fn leaf_kvs(body: Seq<u8>, count: int) -> Seq<(Seq<u8>, Seq<u8>)> {
    Seq::new(count as nat, |i: int| (leaf_key(body, i), leaf_val(body, i)))
}

/// The branch element at directory slot `i` of a page body.
pub open spec fn branch_elem(body: Seq<u8>, i: int) -> BranchElement {
    BranchElement {
        page_id: u64_of(body, 16 * i),
        ksize: u16_of(body, 16 * i + 8),
        kptr: u16_of(body, 16 * i + 10),
        _padding: u32_of(body, 16 * i + 12),
    }
}

pub open spec fn branch_key(body: Seq<u8>, i: int) -> Seq<u8> {
    let e = branch_elem(body, i);
    body.subrange(e.kptr as int, e.kptr + e.ksize)
}

/// Layout soundness of one branch element. Slot 0 is the leftmost child and
/// carries no separator; every other slot carries a non-empty separator lying
/// inside the payload heap.
pub open spec fn branch_elem_wf(body: Seq<u8>, count: int, i: int) -> bool {
    let e = branch_elem(body, i);
    if i == 0 {
        e.ksize == 0 && e.kptr == 0
    } else {
        &&& e.ksize > 0
        &&& 16 * (count + 1) <= e.kptr
        &&& e.kptr + e.ksize <= 4080
    }
}

/// A well-formed branch body holding `count` separators and `count + 1`
/// children: separators are strictly increasing.
pub open spec fn branch_wf(body: Seq<u8>, count: int) -> bool {
    &&& body.len() == 4080
    &&& 0 <= count
    &&& 16 * (count + 1) <= 4080
    &&& forall|i: int| 0 <= i <= count ==> branch_elem_wf(body, count, i)
    &&& forall|i: int, j: int|
        1 <= i < j <= count ==> lex_lt(
            #[trigger] branch_key(body, i),
            #[trigger] branch_key(body, j),
        )
}

/// The `(separator, child)` entries of a branch body, in directory order.
/// Entry 0 has the empty separator.
pub open spec fn branch_entries(body: Seq<u8>, count: int) -> Seq<(Seq<u8>, u64)> {
    Seq::new((count + 1) as nat, |i: int| (branch_key(body, i), branch_elem(body, i).page_id))
}

/// A whole 4096-byte page holding a well-formed leaf.
pub open spec fn leaf_page_wf(p: Seq<u8>) -> bool {
    &&& p.len() == 4096
    &&& p[8] == 3u8
    &&& leaf_wf(body_of(p), page_count(p))
}

/// A whole 4096-byte page holding a well-formed branch.
pub open spec fn branch_page_wf(p: Seq<u8>) -> bool {
    &&& p.len() == 4096
    &&& p[8] == 4u8
    &&& branch_wf(body_of(p), page_count(p))
}

pub open spec fn page_kvs(p: Seq<u8>) -> Seq<(Seq<u8>, Seq<u8>)> {
    leaf_kvs(body_of(p), page_count(p))
}

pub open spec fn page_entries(p: Seq<u8>) -> Seq<(Seq<u8>, u64)> {
    branch_entries(body_of(p), page_count(p))
}

/// The byte-level views of owned key/value pairs.
pub open spec fn kvs_views(s: Seq<(Vec<u8>, Vec<u8>)>) -> Seq<(Seq<u8>, Seq<u8>)> {
    Seq::new(s.len(), |i: int| (s[i].0@, s[i].1@))
}

/// The byte-level views of owned branch entries.
pub open spec fn entries_views(s: Seq<(Vec<u8>, u64)>) -> Seq<(Seq<u8>, u64)> {
    Seq::new(s.len(), |i: int| (s[i].0@, s[i].1))
}

/// Keys strictly increasing across the whole pair sequence.
pub open spec fn kvs_sorted(kvs: Seq<(Seq<u8>, Seq<u8>)>) -> bool {
    forall|i: int, j: int|
        0 <= i < j < kvs.len() ==> lex_lt(#[trigger] kvs[i].0, #[trigger] kvs[j].0)
}

/// What a branch page's entry list must look like: the leftmost entry has the
/// empty separator, every later entry a non-empty one, and the separators are
/// strictly increasing.
pub open spec fn entries_sorted(entries: Seq<(Seq<u8>, u64)>) -> bool {
    &&& entries.len() >= 1
    &&& entries[0].0.len() == 0
    &&& forall|i: int| 1 <= i < entries.len() ==> (#[trigger] entries[i].0).len() > 0
    &&& forall|i: int, j: int|
        1 <= i < j < entries.len() ==> lex_lt(#[trigger] entries[i].0, #[trigger] entries[j].0)
}

// ---------------------------------------------------------------------------
// Capacity accounting.
// ---------------------------------------------------------------------------
/// Total payload bytes of the first `n` key/value pairs.
pub open spec fn payload_size(kvs: Seq<(Seq<u8>, Seq<u8>)>, n: int) -> int
    decreases n,
{
    if n <= 0 {
        0
    } else {
        payload_size(kvs, n - 1) + kvs[n - 1].0.len() + kvs[n - 1].1.len()
    }
}

/// The key/value pairs `kvs` fit in a single fresh leaf page.
pub open spec fn leaf_fits(kvs: Seq<(Seq<u8>, Seq<u8>)>) -> bool {
    8 * kvs.len() + payload_size(kvs, kvs.len() as int) <= 4080
}

/// Total separator bytes of the first `n` branch entries.
pub open spec fn seps_size(entries: Seq<(Seq<u8>, u64)>, n: int) -> int
    decreases n,
{
    if n <= 0 {
        0
    } else {
        seps_size(entries, n - 1) + entries[n - 1].0.len()
    }
}

/// The entries fit in a single fresh branch page.
pub open spec fn branch_fits(entries: Seq<(Seq<u8>, u64)>) -> bool {
    16 * entries.len() + seps_size(entries, entries.len() as int) <= 4080
}

/// The lowest key offset among the first `n` leaf elements (4080 when none):
/// the floor of the payload heap.
pub open spec fn leaf_min_kptr(body: Seq<u8>, n: int) -> int
    decreases n,
{
    if n <= 0 {
        4080
    } else {
        let k = leaf_elem(body, n - 1).kptr as int;
        let m = leaf_min_kptr(body, n - 1);
        if k < m {
            k
        } else {
            m
        }
    }
}

/// The lowest key offset among the first `n` branch elements with a separator
/// (4080 when none).
pub open spec fn branch_min_kptr(body: Seq<u8>, n: int) -> int
    decreases n,
{
    if n <= 0 {
        4080
    } else {
        let e = branch_elem(body, n - 1);
        let m = branch_min_kptr(body, n - 1);
        if e.ksize > 0 && (e.kptr as int) < m {
            e.kptr as int
        } else {
            m
        }
    }
}

/// The heap floor is at or below every element's key offset.
pub proof fn lemma_min_kptr_le(body: Seq<u8>, n: int, j: int)
    requires
        0 <= j < n,
    ensures
        leaf_min_kptr(body, n) <= leaf_elem(body, j).kptr,
    decreases n,
{
    if j < n - 1 {
        lemma_min_kptr_le(body, n - 1, j);
    }
}

// ---------------------------------------------------------------------------
// Search-order helpers over models.
// ---------------------------------------------------------------------------
/// How many of the first `n` keys come strictly before `key`: the sorted
/// insertion position.
pub open spec fn kvs_num_lt(kvs: Seq<(Seq<u8>, Seq<u8>)>, key: Seq<u8>, n: int) -> int
    decreases n,
{
    if n <= 0 {
        0
    } else {
        kvs_num_lt(kvs, key, n - 1) + (if lex_lt(kvs[n - 1].0, key) {
            1int
        } else {
            0int
        })
    }
}

/// The value stored for `key` in a sorted pair sequence, if any.
pub open spec fn kvs_get(kvs: Seq<(Seq<u8>, Seq<u8>)>, key: Seq<u8>) -> Option<Seq<u8>> {
    let pos = kvs_num_lt(kvs, key, kvs.len() as int);
    if pos < kvs.len() && kvs[pos].0 == key {
        Some(kvs[pos].1)
    } else {
        None
    }
}

/// The pair sequence after `key` is bound to `value`: an update in place when
/// the key is present, otherwise an insertion at its sorted position.
pub open spec fn kvs_put(kvs: Seq<(Seq<u8>, Seq<u8>)>, key: Seq<u8>, value: Seq<u8>) -> Seq<
    (Seq<u8>, Seq<u8>),
> {
    let pos = kvs_num_lt(kvs, key, kvs.len() as int);
    if pos < kvs.len() && kvs[pos].0 == key {
        kvs.update(pos, (key, value))
    } else {
        kvs.insert(pos, (key, value))
    }
}

/// How many separators among slots `1 ..= n` of a branch are at or below
/// `key`: the index of the child whose subtree covers `key`.
pub open spec fn seps_le(entries: Seq<(Seq<u8>, u64)>, key: Seq<u8>, n: int) -> int
    decreases n,
{
    if n <= 0 {
        0
    } else {
        seps_le(entries, key, n - 1) + (if !lex_lt(key, entries[n].0) {
            1int
        } else {
            0int
        })
    }
}

/// The child a branch routes `key` to.
pub open spec fn branch_child_for(entries: Seq<(Seq<u8>, u64)>, key: Seq<u8>) -> u64 {
    entries[seps_le(entries, key, entries.len() - 1)].1
}

// ---------------------------------------------------------------------------
// Prefix lemmas for the accounting and counting functions.
// ---------------------------------------------------------------------------
pub proof fn lemma_payload_size_mono(kvs: Seq<(Seq<u8>, Seq<u8>)>, m: int, n: int)
    requires
        m <= n,
    ensures
        payload_size(kvs, m) <= payload_size(kvs, n),
    decreases n - m,
{
    if m < n {
        lemma_payload_size_mono(kvs, m, n - 1);
    }
}

pub proof fn lemma_seps_size_mono(entries: Seq<(Seq<u8>, u64)>, m: int, n: int)
    requires
        m <= n,
    ensures
        seps_size(entries, m) <= seps_size(entries, n),
    decreases n - m,
{
    if m < n {
        lemma_seps_size_mono(entries, m, n - 1);
    }
}

/// A binary-search outcome determines the counting function: if every key
/// before `pos` is below `key` and none from `pos` on is, then exactly `pos`
/// keys are below `key`.
pub proof fn lemma_num_lt_from_split(
    kvs: Seq<(Seq<u8>, Seq<u8>)>,
    key: Seq<u8>,
    pos: int,
    n: int,
)
    requires
        0 <= pos <= n,
        forall|j: int| 0 <= j < pos ==> lex_lt(#[trigger] kvs[j].0, key),
        forall|j: int| pos <= j < n ==> !lex_lt(#[trigger] kvs[j].0, key),
    ensures
        kvs_num_lt(kvs, key, n) == pos,
    decreases n,
{
    if n > 0 {
        if pos == n {
            lemma_num_lt_from_split(kvs, key, pos - 1, n - 1);
        } else {
            lemma_num_lt_from_split(kvs, key, pos, n - 1);
        }
    }
}

/// Likewise for branch separators with the at-or-below test.
pub proof fn lemma_seps_le_from_split(entries: Seq<(Seq<u8>, u64)>, key: Seq<u8>, pos: int, n: int)
    requires
        0 <= pos <= n,
        forall|j: int| 1 <= j <= pos ==> !lex_lt(key, #[trigger] entries[j].0),
        forall|j: int| pos < j <= n ==> lex_lt(key, #[trigger] entries[j].0),
    ensures
        seps_le(entries, key, n) == pos,
    decreases n,
{
    if n > 0 {
        if pos == n {
            lemma_seps_le_from_split(entries, key, n - 1, n - 1);
        } else {
            lemma_seps_le_from_split(entries, key, pos, n - 1);
        }
    }
}


pub proof fn lemma_num_lt_bounds(kvs: Seq<(Seq<u8>, Seq<u8>)>, key: Seq<u8>, n: int)
    ensures
        0 <= kvs_num_lt(kvs, key, n),
        n >= 0 ==> kvs_num_lt(kvs, key, n) <= n,
    decreases n,
{
    if n > 0 {
        lemma_num_lt_bounds(kvs, key, n - 1);
    }
}

/// The counting function only reads the keys.
pub proof fn lemma_num_lt_keys_eq(
    a: Seq<(Seq<u8>, Seq<u8>)>,
    b: Seq<(Seq<u8>, Seq<u8>)>,
    key: Seq<u8>,
    n: int,
)
    requires
        forall|j: int| 0 <= j < n ==> (#[trigger] a[j]).0 == b[j].0,
    ensures
        kvs_num_lt(a, key, n) == kvs_num_lt(b, key, n),
    decreases n,
{
    if n > 0 {
        lemma_num_lt_keys_eq(a, b, key, n - 1);
    }
}

/// In a sorted sequence the keys strictly below `key` are exactly the first
/// `kvs_num_lt` of them.
pub proof fn lemma_sorted_num_lt(kvs: Seq<(Seq<u8>, Seq<u8>)>, key: Seq<u8>, n: int)
    requires
        kvs_sorted(kvs),
        0 <= n <= kvs.len(),
    ensures
        forall|j: int|
            0 <= j < n ==> (lex_lt(#[trigger] kvs[j].0, key) <==> j < kvs_num_lt(kvs, key, n)),
    decreases n,
{
    if n > 0 {
        lemma_sorted_num_lt(kvs, key, n - 1);
        lemma_num_lt_bounds(kvs, key, n - 1);
        if lex_lt(kvs[n - 1].0, key) {
            assert forall|j: int| 0 <= j < n - 1 implies lex_lt(#[trigger] kvs[j].0, key) by {
                crate::order::lemma_lex_trans(kvs[j].0, kvs[n - 1].0, key);
            }
            assert(kvs_num_lt(kvs, key, n - 1) == n - 1) by {
                if kvs_num_lt(kvs, key, n - 1) < n - 1 {
                    assert(!lex_lt(kvs[kvs_num_lt(kvs, key, n - 1)].0, key));
                }
            }
        }
    }
}

/// In a sorted sequence, `kvs_get` finds a pair exactly when one with that key
/// is present.
pub proof fn lemma_sorted_get_mem(kvs: Seq<(Seq<u8>, Seq<u8>)>, key: Seq<u8>)
    requires
        kvs_sorted(kvs),
    ensures
        forall|j: int|
            0 <= j < kvs.len() && (#[trigger] kvs[j]).0 == key ==> kvs_get(kvs, key) == Some(
                kvs[j].1,
            ),
        kvs_get(kvs, key) is None ==> forall|j: int|
            0 <= j < kvs.len() ==> (#[trigger] kvs[j]).0 != key,
        kvs_get(kvs, key) matches Some(v) ==> exists|j: int|
            0 <= j < kvs.len() && #[trigger] kvs[j] == (key, v),
{
    let n = kvs.len() as int;
    let pos = kvs_num_lt(kvs, key, n);
    lemma_sorted_num_lt(kvs, key, n);
    lemma_num_lt_bounds(kvs, key, n);
    assert forall|j: int| 0 <= j < n && (#[trigger] kvs[j]).0 == key implies kvs_get(kvs, key)
        == Some(kvs[j].1) by {
        crate::order::lemma_lex_total(kvs[j].0, key);
        assert(j >= pos);
        if j > pos {
            assert(!lex_lt(kvs[pos].0, key));
            assert(lex_lt(kvs[pos].0, kvs[j].0));
        }
    }
    if pos < n && kvs[pos].0 == key {
        assert(kvs[pos] == (key, kvs[pos].1));
    }
}

/// Binding a key keeps the sequence sorted.
pub proof fn lemma_kvs_put_sorted(kvs: Seq<(Seq<u8>, Seq<u8>)>, key: Seq<u8>, value: Seq<u8>)
    requires
        kvs_sorted(kvs),
    ensures
        kvs_sorted(kvs_put(kvs, key, value)),
{
    let n = kvs.len() as int;
    let pos = kvs_num_lt(kvs, key, n);
    lemma_sorted_num_lt(kvs, key, n);
    lemma_num_lt_bounds(kvs, key, n);
    let put = kvs_put(kvs, key, value);
    if pos < n && kvs[pos].0 == key {
        assert forall|i: int, j: int| 0 <= i < j < put.len() implies lex_lt(
            #[trigger] put[i].0,
            #[trigger] put[j].0,
        ) by {
            assert(kvs[i].0 == put[i].0 || (i == pos && put[i].0 == key));
            assert(kvs[j].0 == put[j].0 || (j == pos && put[j].0 == key));
        }
    } else {
        crate::order::lemma_lex_total(key, key);
        assert forall|i: int, j: int| 0 <= i < j < put.len() implies lex_lt(
            #[trigger] put[i].0,
            #[trigger] put[j].0,
        ) by {
            if i < pos {
                assert(put[i] == kvs[i]);
                assert(lex_lt(kvs[i].0, key));
            }
            if i == pos {
                assert(put[i].0 == key);
            }
            if i > pos {
                assert(put[i] == kvs[i - 1]);
            }
            if j < pos {
                assert(put[j] == kvs[j]);
            }
            if j == pos {
                assert(put[j].0 == key);
            }
            if j > pos {
                assert(put[j] == kvs[j - 1]);
                assert(!lex_lt(kvs[j - 1].0, key));
                crate::order::lemma_lex_total(kvs[j - 1].0, key);
            }
            if i < pos && j == pos {
            } else if i == pos && j > pos {
                assert(!lex_lt(kvs[j - 1].0, key));
                if kvs[j - 1].0 == key {
                } else {
                    assert(lex_lt(key, kvs[j - 1].0));
                }
            } else if i < pos && j > pos {
                if j - 1 == i {
                    crate::order::lemma_lex_trans(kvs[i].0, key, put[j].0);
                }
            }
        }
    }
}

/// Point read after a write: the bound key reads back the new value.
pub proof fn lemma_kvs_put_get(kvs: Seq<(Seq<u8>, Seq<u8>)>, key: Seq<u8>, value: Seq<u8>)
    requires
        kvs_sorted(kvs),
    ensures
        kvs_get(kvs_put(kvs, key, value), key) == Some(value),
{
    let n = kvs.len() as int;
    let pos = kvs_num_lt(kvs, key, n);
    lemma_sorted_num_lt(kvs, key, n);
    lemma_num_lt_bounds(kvs, key, n);
    let put = kvs_put(kvs, key, value);
    crate::order::lemma_lex_total(key, key);
    if pos < n && kvs[pos].0 == key {
        lemma_num_lt_keys_eq(put, kvs, key, n);
    } else {
        assert forall|j: int| 0 <= j < pos implies lex_lt(#[trigger] put[j].0, key) by {
            assert(put[j] == kvs[j]);
        }
        assert forall|j: int| pos <= j < n + 1 implies !lex_lt(#[trigger] put[j].0, key) by {
            if j == pos {
            } else {
                assert(put[j] == kvs[j - 1]);
            }
        }
        lemma_num_lt_from_split_pairs(put, key, pos, n + 1);
    }
}

proof fn lemma_num_lt_from_split_pairs(
    kvs: Seq<(Seq<u8>, Seq<u8>)>,
    key: Seq<u8>,
    pos: int,
    n: int,
)
    requires
        0 <= pos <= n,
        forall|j: int| 0 <= j < pos ==> lex_lt((#[trigger] kvs[j]).0, key),
        forall|j: int| pos <= j < n ==> !lex_lt((#[trigger] kvs[j]).0, key),
    ensures
        kvs_num_lt(kvs, key, n) == pos,
    decreases n,
{
    if n > 0 {
        if pos == n {
            lemma_num_lt_from_split_pairs(kvs, key, pos - 1, n - 1);
        } else {
            lemma_num_lt_from_split_pairs(kvs, key, pos, n - 1);
        }
    }
}

/// Point read after a write: every other key reads as before.
pub proof fn lemma_kvs_put_get_other(
    kvs: Seq<(Seq<u8>, Seq<u8>)>,
    key: Seq<u8>,
    value: Seq<u8>,
    other: Seq<u8>,
)
    requires
        kvs_sorted(kvs),
        other != key,
    ensures
        kvs_get(kvs_put(kvs, key, value), other) == kvs_get(kvs, other),
{
    let n = kvs.len() as int;
    let pos = kvs_num_lt(kvs, key, n);
    lemma_sorted_num_lt(kvs, key, n);
    lemma_num_lt_bounds(kvs, key, n);
    let put = kvs_put(kvs, key, value);
    lemma_kvs_put_sorted(kvs, key, value);
    lemma_sorted_get_mem(kvs, other);
    lemma_sorted_get_mem(put, other);
    match kvs_get(kvs, other) {
        Some(v) => {
            let j = choose|j: int| 0 <= j < kvs.len() && #[trigger] kvs[j] == (other, v);
            if pos < n && kvs[pos].0 == key {
                assert(j != pos);
                assert(put[j] == (other, v));
            } else {
                if j < pos {
                    assert(put[j] == (other, v));
                } else {
                    assert(put[j + 1] == (other, v));
                }
            }
        },
        None => {
            if kvs_get(put, other) is Some {
                let v2 = kvs_get(put, other)->Some_0;
                let j = choose|j: int| 0 <= j < put.len() && #[trigger] put[j] == (other, v2);
                if pos < n && kvs[pos].0 == key {
                    assert(j != pos);
                    assert(kvs[j] == (other, v2));
                } else {
                    assert(j != pos);
                    if j < pos {
                        assert(kvs[j] == (other, v2));
                    } else {
                        assert(kvs[j - 1] == (other, v2));
                    }
                }
            }
        },
    }
}

pub proof fn lemma_seps_le_bounds(entries: Seq<(Seq<u8>, u64)>, key: Seq<u8>, n: int)
    ensures
        0 <= seps_le(entries, key, n),
        n >= 0 ==> seps_le(entries, key, n) <= n,
    decreases n,
{
    if n > 0 {
        lemma_seps_le_bounds(entries, key, n - 1);
    }
}

/// With sorted separators, the ones at or below `key` are exactly slots
/// `1 ..= seps_le`.
pub proof fn lemma_sorted_seps_le(entries: Seq<(Seq<u8>, u64)>, key: Seq<u8>, n: int)
    requires
        0 <= n < entries.len(),
        forall|i: int, j: int|
            1 <= i < j <= n ==> lex_lt((#[trigger] entries[i]).0, (#[trigger] entries[j]).0),
    ensures
        forall|j: int|
            1 <= j <= n ==> (!lex_lt(key, (#[trigger] entries[j]).0) <==> j <= seps_le(
                entries,
                key,
                n,
            )),
    decreases n,
{
    if n > 0 {
        lemma_sorted_seps_le(entries, key, n - 1);
        lemma_seps_le_bounds(entries, key, n - 1);
        if !lex_lt(key, entries[n].0) {
            assert forall|j: int| 1 <= j < n implies !lex_lt(key, (#[trigger] entries[j]).0) by {
                if lex_lt(key, entries[j].0) {
                    crate::order::lemma_lex_trans(key, entries[j].0, entries[n].0);
                }
            }
            assert(seps_le(entries, key, n - 1) == n - 1) by {
                if seps_le(entries, key, n - 1) < n - 1 {
                    assert(lex_lt(key, entries[seps_le(entries, key, n - 1) + 1].0));
                }
            }
        }
    }
}

/// The branch heap floor is at or below every separator's offset.
pub proof fn lemma_branch_min_kptr_le(body: Seq<u8>, n: int, j: int)
    requires
        0 <= j < n,
        branch_elem(body, j).ksize > 0,
    ensures
        branch_min_kptr(body, n) <= branch_elem(body, j).kptr,
    decreases n,
{
    if j < n - 1 {
        lemma_branch_min_kptr_le(body, n - 1, j);
    }
}

// ---------------------------------------------------------------------------
// Executable codecs over whole 4096-byte pages.
// ---------------------------------------------------------------------------
pub fn read_page_header(p: &[u8]) -> (h: Page)
    requires
        p@.len() >= 16,
    ensures
        h == page_header_of(p@),
{
    let n = p.len();
    Page {
        id: read_u64_at(p, 0),
        page_type: *vstd::slice::slice_index_get(p, 8),
        _padding: *vstd::slice::slice_index_get(p, 9),
        count: read_u16_at(p, 10),
        overflow: read_u32_at(p, 12),
    }
}

pub fn write_page_header(p: &mut Vec<u8>, h: Page)
    requires
        old(p)@.len() >= 16,
    ensures
        final(p)@.len() == old(p)@.len(),
        page_header_of(final(p)@) == h,
        forall|k: int| 16 <= k < final(p)@.len() ==> final(p)@[k] == old(p)@[k],
{
    write_u64_at(p, 0, h.id);
    p.set(8, h.page_type);
    p.set(9, h._padding);
    write_u16_at(p, 10, h.count);
    write_u32_at(p, 12, h.overflow);
}

pub fn read_leaf_element(p: &[u8], i: usize) -> (e: LeafElement)
    requires
        p@.len() == 4096,
        16 + 8 * i + 8 <= 4096,
    ensures
        e == leaf_elem(body_of(p@), i as int),
{
    let n = p.len();
    let off = 16 + 8 * i;
    let e = LeafElement {
        ksize: read_u16_at(p, off),
        vsize: read_u16_at(p, off + 2),
        kptr: read_u16_at(p, off + 4),
        vptr: read_u16_at(p, off + 6),
    };
    proof {
        let body = body_of(p@);
        assert(body[8 * i] == p@[off as int]);
        assert(body[8 * i + 1] == p@[off + 1]);
        assert(body[8 * i + 2] == p@[off + 2]);
        assert(body[8 * i + 3] == p@[off + 3]);
        assert(body[8 * i + 4] == p@[off + 4]);
        assert(body[8 * i + 5] == p@[off + 5]);
        assert(body[8 * i + 6] == p@[off + 6]);
        assert(body[8 * i + 7] == p@[off + 7]);
    }
    e
}

pub fn write_leaf_element(p: &mut Vec<u8>, i: usize, e: LeafElement)
    requires
        old(p)@.len() == 4096,
        16 + 8 * i + 8 <= 4096,
    ensures
        final(p)@.len() == 4096,
        leaf_elem(body_of(final(p)@), i as int) == e,
        forall|k: int|
            0 <= k < 4096 && !(16 + 8 * i <= k < 16 + 8 * i + 8) ==> final(p)@[k] == old(p)@[k],
{
    let off = 16 + 8 * i;
    write_u16_at(p, off, e.ksize);
    write_u16_at(p, off + 2, e.vsize);
    write_u16_at(p, off + 4, e.kptr);
    write_u16_at(p, off + 6, e.vptr);
    proof {
        let body = body_of(p@);
        assert(body[8 * i] == p@[off as int]);
        assert(body[8 * i + 1] == p@[off + 1]);
        assert(body[8 * i + 2] == p@[off + 2]);
        assert(body[8 * i + 3] == p@[off + 3]);
        assert(body[8 * i + 4] == p@[off + 4]);
        assert(body[8 * i + 5] == p@[off + 5]);
        assert(body[8 * i + 6] == p@[off + 6]);
        assert(body[8 * i + 7] == p@[off + 7]);
    }
}

pub fn read_branch_element(p: &[u8], i: usize) -> (e: BranchElement)
    requires
        p@.len() == 4096,
        16 + 16 * i + 16 <= 4096,
    ensures
        e == branch_elem(body_of(p@), i as int),
{
    let n = p.len();
    let off = 16 + 16 * i;
    let e = BranchElement {
        page_id: read_u64_at(p, off),
        ksize: read_u16_at(p, off + 8),
        kptr: read_u16_at(p, off + 10),
        _padding: read_u32_at(p, off + 12),
    };
    proof {
        let body = body_of(p@);
        assert forall|d: int| 0 <= d < 16 implies #[trigger] body[16 * i + d] == p@[off + d] by {}
    }
    e
}

pub fn write_branch_element(p: &mut Vec<u8>, i: usize, e: BranchElement)
    requires
        old(p)@.len() == 4096,
        16 + 16 * i + 16 <= 4096,
    ensures
        final(p)@.len() == 4096,
        branch_elem(body_of(final(p)@), i as int) == e,
        forall|k: int|
            0 <= k < 4096 && !(16 + 16 * i <= k < 16 + 16 * i + 16) ==> final(p)@[k] == old(p)@[k],
{
    let off = 16 + 16 * i;
    write_u64_at(p, off, e.page_id);
    write_u16_at(p, off + 8, e.ksize);
    write_u16_at(p, off + 10, e.kptr);
    write_u32_at(p, off + 12, e._padding);
    proof {
        let body = body_of(p@);
        assert forall|d: int| 0 <= d < 16 implies #[trigger] body[16 * i + d] == p@[off + d] by {}
    }
}

} // verus!
