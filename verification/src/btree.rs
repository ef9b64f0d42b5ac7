//! The write transaction: an exclusive writer over a shared view of the
//! memory map. Mutated pages are staged in an in-memory dirty buffer keyed by
//! page id; the map itself is never written before commit. `store()` is the
//! writer's view of the paged file: the dirty buffer shadowing the map.

use crate::db::DbError;
use crate::mmapio::{mmap_bytes, mmap_len, mmap_read};
use crate::codec::{copy_range, move_range_right, write_u16_at, zero_vec, u64_of};
use crate::order::lex_lt;
use crate::page::{branch_child_for, branch_min_kptr, kvs_num_lt, kvs_put, leaf_min_kptr, lemma_branch_min_kptr_le, lemma_seps_le_bounds, lemma_sorted_seps_le, seps_le, lemma_kvs_put_sorted, lemma_min_kptr_le, lemma_num_lt_bounds, read_branch_element, read_leaf_element, read_page_header, body_of, branch_elem, branch_elem_wf, branch_fits, branch_key, branch_page_wf, entries_sorted, entries_views, lemma_seps_size_mono, page_entries, seps_size, write_branch_element, BranchElement, kvs_sorted, kvs_views, leaf_elem, leaf_elem_wf, leaf_fits, leaf_key, leaf_page_wf, leaf_val, lemma_payload_size_mono, page_count, page_header_of, page_kvs, payload_size, write_leaf_element, write_page_header, LeafElement, Page, PageType, page_type_code};
use std::collections::HashMap;
use vstd::prelude::*;

verus! {

broadcast use vstd::std_specs::hash::group_hash_axioms;

#[derive(Debug)]
pub enum BTreeError {
    InvalidPageType { page_id: u64, page_type: PageType },
    CorruptPageType { page_id: u64, raw_type: u8 },
    EmptyBranchPage { page_id: u64 },
    KeyTooLarge { key_size: usize, max_size: usize },
    ValueTooLarge { value_size: usize, max_size: usize },
    PageFull { page_id: u64 },
    Db(DbError),
}

impl From<DbError> for BTreeError {
    fn from(err: DbError) -> (r: Self)
        ensures
            r == BTreeError::Db(err),
    {
        BTreeError::Db(err)
    }
}

impl vstd::std_specs::convert::FromSpecImpl<DbError> for BTreeError {
    open spec fn obeys_from_spec() -> bool {
        true
    }

    open spec fn from_spec(err: DbError) -> BTreeError {
        BTreeError::Db(err)
    }
}

/// The per-page byte images of a dirty buffer.
pub open spec fn pages_view(m: Map<u64, Vec<u8>>) -> Map<u64, Seq<u8>> {
    m.map_values(|v: Vec<u8>| v@)
}

/// Whether `(pid + 1) * 4096 <= len`: page `pid` lies inside a byte region of
/// length `len`.
pub open spec fn page_in_bounds(pid: u64, len: int) -> bool {
    4096 * (pid + 1) <= len
}

/// The 4096 bytes of page `pid` within a byte region.
pub open spec fn page_at(bytes: Seq<u8>, pid: u64) -> Seq<u8> {
    bytes.subrange(4096 * pid as int, 4096 * (pid + 1))
}

proof fn lemma_page_bounds_div(len: int, pid: u64)
    requires
        len >= 0,
    ensures
        (pid < len / 4096) <==> page_in_bounds(pid, len),
{
    vstd::arithmetic::div_mod::lemma_fundamental_div_mod(len, 4096);
    vstd::arithmetic::div_mod::lemma_mod_bound(len, 4096);
}

/// Page `pid` fits in `len` bytes exactly when `pid` is below the page count
/// `len / 4096`.
pub proof fn lemma_page_bounds_div_pub(len: int, pid: u64)
    requires
        len >= 0,
    ensures
        (pid < len / 4096) <==> page_in_bounds(pid, len),
{
    lemma_page_bounds_div(len, pid);
}

/// A byte region holds at least `len / 4096` whole pages.
pub proof fn lemma_div_page_bounds(len: int)
    requires
        len >= 0,
    ensures
        4096 * (len / 4096) <= len,
        len >= 4096 ==> len / 4096 >= 1,
{
    vstd::arithmetic::div_mod::lemma_fundamental_div_mod(len, 4096);
    vstd::arithmetic::div_mod::lemma_mod_bound(len, 4096);
}

/// Materialise the key/value pairs a leaf page holds, in directory order.
/// Fails with `CorruptPageType` exactly on an element whose directory slot or
/// payload range leaves the page body.
fn read_leaf_pairs(page: &Vec<u8>, page_id: u64) -> (r: Result<Vec<(Vec<u8>, Vec<u8>)>, BTreeError>)
    requires
        page@.len() == 4096,
    ensures
        (r matches Ok(v) ==> kvs_views(v@) == page_kvs(page@)),
        leaf_page_wf(page@) ==> r is Ok,
{
    let ghost body = body_of(page@);
    let ghost count = page_count(page@);
    let hdr = read_page_header(page.as_slice());
    let n = hdr.count as usize;
    let mut out: Vec<(Vec<u8>, Vec<u8>)> = Vec::new();
    let mut i: usize = 0;
    while i < n
        invariant
            page@.len() == 4096,
            body == body_of(page@),
            count == page_count(page@),
            n == count,
            n <= 65535,
            0 <= i <= n,
            out@.len() == i,
            forall|j: int|
                0 <= j < i ==> (#[trigger] out@[j]).0@ == leaf_key(body, j) && out@[j].1@
                    == leaf_val(body, j),
        decreases n - i,
    {
        proof {
            if leaf_page_wf(page@) {
                assert(leaf_elem_wf(body, count, i as int));
            }
        }
        if 16 + 8 * i + 8 > 4096 {
            return Err(BTreeError::CorruptPageType { page_id, raw_type: hdr.page_type });
        }
        let e = read_leaf_element(page.as_slice(), i);
        let kend = e.kptr as usize + e.ksize as usize;
        let vend = e.vptr as usize + e.vsize as usize;
        if kend > 4080 || vend > 4080 {
            return Err(BTreeError::CorruptPageType { page_id, raw_type: hdr.page_type });
        }
        let k = vstd::slice::slice_to_vec(
            vstd::slice::slice_subrange(page.as_slice(), 16 + e.kptr as usize, 16 + kend),
        );
        let v = vstd::slice::slice_to_vec(
            vstd::slice::slice_subrange(page.as_slice(), 16 + e.vptr as usize, 16 + vend),
        );
        proof {
            assert(k@ =~= leaf_key(body, i as int));
            assert(v@ =~= leaf_val(body, i as int));
        }
        out.push((k, v));
        i = i + 1;
    }
    proof {
        assert(kvs_views(out@) =~= page_kvs(page@));
    }
    Ok(out)
}

/// Materialise the `(separator, child)` entries a branch page holds, in
/// directory order. Fails with `CorruptPageType` exactly on an element whose
/// slot or separator range leaves the page body.
fn read_branch_pairs(page: &Vec<u8>, page_id: u64) -> (r: Result<Vec<(Vec<u8>, u64)>, BTreeError>)
    requires
        page@.len() == 4096,
    ensures
        (r matches Ok(v) ==> entries_views(v@) == page_entries(page@) && v@.len() == page_count(
            page@,
        ) + 1),
        branch_page_wf(page@) ==> r is Ok,
{
    let ghost body = body_of(page@);
    let ghost count = page_count(page@);
    let hdr = read_page_header(page.as_slice());
    let n = hdr.count as usize + 1;
    let mut out: Vec<(Vec<u8>, u64)> = Vec::new();
    let mut i: usize = 0;
    while i < n
        invariant
            page@.len() == 4096,
            body == body_of(page@),
            count == page_count(page@),
            n == count + 1,
            n <= 65536,
            0 <= i <= n,
            out@.len() == i,
            forall|j: int|
                0 <= j < i ==> (#[trigger] out@[j]).0@ == branch_key(body, j) && out@[j].1
                    == branch_elem(body, j).page_id,
        decreases n - i,
    {
        proof {
            if branch_page_wf(page@) {
                assert(branch_elem_wf(body, count, i as int));
            }
        }
        if 16 + 16 * i + 16 > 4096 {
            return Err(BTreeError::CorruptPageType { page_id, raw_type: hdr.page_type });
        }
        let e = read_branch_element(page.as_slice(), i);
        let kend = e.kptr as usize + e.ksize as usize;
        if kend > 4080 {
            return Err(BTreeError::CorruptPageType { page_id, raw_type: hdr.page_type });
        }
        let k = vstd::slice::slice_to_vec(
            vstd::slice::slice_subrange(page.as_slice(), 16 + e.kptr as usize, 16 + kend),
        );
        proof {
            assert(k@ =~= branch_key(body, i as int));
        }
        out.push((k, e.page_id));
        i = i + 1;
    }
    proof {
        assert(entries_views(out@) =~= page_entries(page@));
    }
    Ok(out)
}

/// The two transactions agree on everything a page operation may not change.
pub open spec fn txn_unchanged<'a>(pre: WriteTxn<'a>, post: WriteTxn<'a>) -> bool {
    &&& post.store() == pre.store()
    &&& post.dirty() == pre.dirty()
    &&& post.highest() == pre.highest()
    &&& post.free() == pre.free()
}

/// The id the allocator will hand out next.
pub open spec fn next_alloc<'a>(pre: WriteTxn<'a>) -> u64 {
    if pre.free().len() > 0 {
        pre.free().last()
    } else {
        (pre.highest() + 1) as u64
    }
}

/// What splitting leaf `page_id` around the bound pair does: the merged pairs
/// are cut at the midpoint; the left half rewrites the page, the right half
/// goes to a fresh page, and the first key of the right half comes back as the
/// separator. `PageFull` exactly when a half cannot fit a page (or no page id
/// is left).
pub open spec fn leaf_split_effect<'a>(
    pre: WriteTxn<'a>,
    post: WriteTxn<'a>,
    page_id: u64,
    key: Seq<u8>,
    value: Seq<u8>,
    r: Result<Option<(Vec<u8>, u64)>, BTreeError>,
) -> bool {
    let p = pre.store()[page_id];
    let kvs = page_kvs(p);
    let merged = kvs_put(kvs, key, value);
    let s = (merged.len() + 1) as int / 2;
    let can_alloc = pre.free().len() > 0 || pre.highest() < u64::MAX;
    let npid = next_alloc(pre);
    if merged.len() <= 1 || !leaf_fits(merged.take(s)) || !leaf_fits(merged.skip(s)) || !can_alloc {
        &&& (r matches Err(e) && e matches BTreeError::PageFull { .. })
        &&& txn_unchanged(pre, post)
    } else {
        &&& (r matches Ok(o) && o matches Some(pr) && pr.0@ == merged[s].0 && pr.1 == npid)
        &&& post.highest() == if pre.free().len() > 0 {
            pre.highest()
        } else {
            (pre.highest() + 1) as u64
        }
        &&& post.free() == if pre.free().len() > 0 {
            pre.free().drop_last()
        } else {
            pre.free()
        }
        &&& post.store() == pre.store().insert(page_id, post.store()[page_id]).insert(
            npid,
            post.store()[npid],
        )
        &&& post.dirty() == pre.dirty().insert(page_id, post.store()[page_id]).insert(
            npid,
            post.store()[npid],
        )
        &&& (npid != page_id ==> page_kvs(post.store()[page_id]) == merged.take(s)
            && leaf_page_wf(post.store()[page_id]) && page_header_of(post.store()[page_id]).id
            == page_id)
        &&& page_kvs(post.store()[npid]) == merged.skip(s)
        &&& leaf_page_wf(post.store()[npid])
        &&& page_header_of(post.store()[npid]).id == npid
    }
}

/// What binding `key` to `value` in leaf `page_id` does: a size error leaves
/// the writer untouched; a pair that fits is put in place; otherwise the leaf
/// splits as `leaf_split_effect` says.
pub open spec fn leaf_put_effect<'a>(
    pre: WriteTxn<'a>,
    post: WriteTxn<'a>,
    page_id: u64,
    key: Seq<u8>,
    value: Seq<u8>,
    r: Result<Option<(Vec<u8>, u64)>, BTreeError>,
) -> bool {
    let p = pre.store()[page_id];
    let body = body_of(p);
    let count = page_count(p);
    let kvs = page_kvs(p);
    let merged = kvs_put(kvs, key, value);
    if key.len() > 65535 {
        &&& r == Err::<Option<(Vec<u8>, u64)>, BTreeError>(
            BTreeError::KeyTooLarge { key_size: key.len() as usize, max_size: 65535 },
        )
        &&& txn_unchanged(pre, post)
    } else if value.len() > 65535 {
        &&& r == Err::<Option<(Vec<u8>, u64)>, BTreeError>(
            BTreeError::ValueTooLarge { value_size: value.len() as usize, max_size: 65535 },
        )
        &&& txn_unchanged(pre, post)
    } else if 8 * (count + 1) + key.len() + value.len() <= leaf_min_kptr(body, count) {
        &&& r == Ok::<Option<(Vec<u8>, u64)>, BTreeError>(None)
        &&& post.highest() == pre.highest()
        &&& post.free() == pre.free()
        &&& post.store() == pre.store().insert(page_id, post.store()[page_id])
        &&& post.dirty() == pre.dirty().insert(page_id, post.store()[page_id])
        &&& page_kvs(post.store()[page_id]) == merged
        &&& leaf_page_wf(post.store()[page_id])
        &&& page_header_of(post.store()[page_id]).id == page_header_of(p).id
    } else {
        leaf_split_effect(pre, post, page_id, key, value, r)
    }
}

/// Materialise the pairs of a leaf page with the new pair merged in at its
/// sorted position (replacing an equal key), and check that both halves of the
/// midpoint cut fit a page each. Returns the merged pairs and the cut index,
/// or `PageFull` when the cut is impossible or a half does not fit.
#[verifier::rlimit(60)]
#[verifier::spinoff_prover]
fn leaf_merge_pairs(page: &Vec<u8>, page_id: u64, new_key: &[u8], new_value: &[u8]) -> (r: Result<(Vec<(Vec<u8>, Vec<u8>)>, usize), BTreeError>)
    requires
        page@.len() == 4096,
    ensures
        ({
            let merged = kvs_put(page_kvs(page@), new_key@, new_value@);
            let s = (merged.len() + 1) as int / 2;
            leaf_page_wf(page@) ==> {
                &&& (merged.len() <= 1 || !leaf_fits(merged.take(s)) || !leaf_fits(merged.skip(s))
                    ==> r == Err::<(Vec<(Vec<u8>, Vec<u8>)>, usize), BTreeError>(
                    BTreeError::PageFull { page_id },
                ))
                &&& (!(merged.len() <= 1 || !leaf_fits(merged.take(s)) || !leaf_fits(
                    merged.skip(s),
                )) ==> (r matches Ok(pr) && kvs_views(pr.0@) == merged && pr.1 == s && pr.0@.len()
                    == merged.len() && kvs_sorted(merged)))
            }
        }),
        (r matches Ok(pr) ==> 0 < pr.1 < pr.0@.len()),
{
    let ghost wf = leaf_page_wf(page@);
    let ghost kvs0 = page_kvs(page@);
    let ghost merged = kvs_put(kvs0, new_key@, new_value@);
    let hdr = read_page_header(page.as_slice());
    let count = hdr.count as usize;
    let mut kvs = match read_leaf_pairs(&page, page_id) {
        Ok(v) => v,
        Err(e) => {
            proof {
                if wf {
                    assert(false);
                }
            }
            return Err(e);
        },
    };
    if count != kvs.len() {
        proof {
            if wf {
                assert(false);
            }
        }
        return Err(BTreeError::CorruptPageType { page_id, raw_type: hdr.page_type });
    }
    let body_slice = vstd::slice::slice_subrange(page.as_slice(), 16, 4096);
    proof {
        assert(body_slice@ =~= body_of(page@));
    }
    let (pos, found) = match crate::search::search_leaf_elements(body_slice, count, new_key) {
        Ok(p) => p,
        Err(_) => {
            proof {
                if wf {
                    assert(false);
                }
            }
            return Err(BTreeError::CorruptPageType { page_id, raw_type: hdr.page_type });
        },
    };
    let kv = (vstd::slice::slice_to_vec(new_key), vstd::slice::slice_to_vec(new_value));
    if found {
        kvs.remove(pos);
        kvs.insert(pos, kv);
    } else {
        kvs.insert(pos, kv);
    }
    proof {
        if wf {
            assert(kvs_views(kvs@) =~= merged);
            lemma_kvs_put_sorted(kvs0, new_key@, new_value@);
        }
    }
    let total = kvs.len();
    let split_idx = (total + 1) / 2;
    if split_idx >= total {
        proof {
            if wf {
                assert(merged.len() == kvs@.len());
                assert(merged.len() <= 1);
            }
        }
        return Err(BTreeError::PageFull { page_id });
    }
    let ghost left_v = merged.take(split_idx as int);
    let ghost right_v = merged.skip(split_idx as int);
    let mut left_total: usize = 0;
    let mut i: usize = 0;
    while i < split_idx
        invariant
            0 <= i <= split_idx < total,
            total == kvs@.len(),
            split_idx == (total + 1) / 2,
            wf == leaf_page_wf(page@),
            merged == kvs_put(page_kvs(page@), new_key@, new_value@),
            wf ==> kvs_views(kvs@) == merged && left_v == merged.take(split_idx as int)
                && merged.len() == total,
            wf ==> left_total == payload_size(left_v, i as int),
            left_total <= 8160 * i,
        decreases split_idx - i,
    {
        let pair = vstd::slice::slice_index_get(kvs.as_slice(), i);
        let kl = pair.0.len();
        let vl = pair.1.len();
        if kl > 4080 || vl > 4080 || left_total > 4080 {
            proof {
                if wf {
                    lemma_payload_size_mono(left_v, i + 1, split_idx as int);
                    assert(!leaf_fits(left_v));
                }
            }
            return Err(BTreeError::PageFull { page_id });
        }
        left_total = left_total + kl + vl;
        i = i + 1;
    }
    if 8 * split_idx + left_total > 4080 {
        proof {
            if wf {
                assert(left_v.len() == split_idx as int);
                assert(!leaf_fits(left_v));
            }
        }
        return Err(BTreeError::PageFull { page_id });
    }
    let mut right_total: usize = 0;
    let mut i: usize = split_idx;
    while i < total
        invariant
            split_idx <= i <= total,
            0 < split_idx < total,
            total == kvs@.len(),
            split_idx == (total + 1) / 2,
            wf == leaf_page_wf(page@),
            merged == kvs_put(page_kvs(page@), new_key@, new_value@),
            wf ==> kvs_views(kvs@) == merged && right_v == merged.skip(split_idx as int)
                && merged.len() == total,
            wf ==> right_total == payload_size(right_v, i - split_idx),
            right_total <= 8160 * i,
        decreases total - i,
    {
        let pair = vstd::slice::slice_index_get(kvs.as_slice(), i);
        let kl = pair.0.len();
        let vl = pair.1.len();
        if kl > 4080 || vl > 4080 || right_total > 4080 {
            proof {
                if wf {
                    lemma_payload_size_mono(right_v, i - split_idx + 1, total - split_idx);
                    assert(!leaf_fits(right_v));
                }
            }
            return Err(BTreeError::PageFull { page_id });
        }
        right_total = right_total + kl + vl;
        i = i + 1;
    }
    if 8 * (total - split_idx) + right_total > 4080 {
        proof {
            if wf {
                assert(right_v.len() == total - split_idx);
                assert(!leaf_fits(right_v));
            }
        }
        return Err(BTreeError::PageFull { page_id });
    }
    proof {
        if wf {
            assert(left_v.len() == split_idx as int);
            assert(right_v.len() == total - split_idx);
            assert(leaf_fits(left_v));
            assert(leaf_fits(right_v));
        }
    }
    Ok((kvs, split_idx))
}

/// What splitting branch `page_id` around a new `(separator, child)` entry
/// does: the merged entries are cut at the midpoint; the left half rewrites
/// the page, the right half (its first child under the empty separator) goes
/// to a fresh page, and the cut entry's separator is promoted to the caller.
pub open spec fn branch_split_effect<'a>(
    pre: WriteTxn<'a>,
    post: WriteTxn<'a>,
    page_id: u64,
    key: Seq<u8>,
    child: u64,
    r: Result<Option<(Vec<u8>, u64)>, BTreeError>,
) -> bool {
    let p = pre.store()[page_id];
    let count = page_count(p);
    let entries = page_entries(p);
    let pos = seps_le(entries, key, count) + 1;
    let ins = entries.insert(pos, (key, child));
    let s = ins.len() as int / 2;
    let left = ins.take(s);
    let right = ins.skip(s).update(0, (Seq::<u8>::empty(), ins[s].1));
    let can_alloc = pre.free().len() > 0 || pre.highest() < u64::MAX;
    let npid = next_alloc(pre);
    if !branch_fits(left) || !branch_fits(right) || !can_alloc {
        &&& (r matches Err(e) && e matches BTreeError::PageFull { .. })
        &&& txn_unchanged(pre, post)
    } else {
        &&& (r matches Ok(o) && o matches Some(pr) && pr.0@ == ins[s].0 && pr.1 == npid)
        &&& post.highest() == if pre.free().len() > 0 {
            pre.highest()
        } else {
            (pre.highest() + 1) as u64
        }
        &&& post.free() == if pre.free().len() > 0 {
            pre.free().drop_last()
        } else {
            pre.free()
        }
        &&& post.store() == pre.store().insert(page_id, post.store()[page_id]).insert(
            npid,
            post.store()[npid],
        )
        &&& post.dirty() == pre.dirty().insert(page_id, post.store()[page_id]).insert(
            npid,
            post.store()[npid],
        )
        &&& (npid != page_id ==> page_entries(post.store()[page_id]) == left && branch_page_wf(
            post.store()[page_id],
        ) && page_header_of(post.store()[page_id]).id == page_id)
        &&& page_entries(post.store()[npid]) == right
        &&& branch_page_wf(post.store()[npid])
        &&& page_header_of(post.store()[npid]).id == npid
    }
}

/// What inserting a `(separator, child)` entry into branch `page_id` does: the
/// entry goes in at its sorted slot when it fits, else the branch splits as
/// `branch_split_effect` says.
pub open spec fn branch_put_effect<'a>(
    pre: WriteTxn<'a>,
    post: WriteTxn<'a>,
    page_id: u64,
    key: Seq<u8>,
    child: u64,
    r: Result<Option<(Vec<u8>, u64)>, BTreeError>,
) -> bool {
    let p = pre.store()[page_id];
    let body = body_of(p);
    let count = page_count(p);
    let entries = page_entries(p);
    let pos = seps_le(entries, key, count) + 1;
    let ins = entries.insert(pos, (key, child));
    if 16 * (count + 2) + key.len() <= branch_min_kptr(body, count + 1) {
        &&& r == Ok::<Option<(Vec<u8>, u64)>, BTreeError>(None)
        &&& post.highest() == pre.highest()
        &&& post.free() == pre.free()
        &&& post.store() == pre.store().insert(page_id, post.store()[page_id])
        &&& post.dirty() == pre.dirty().insert(page_id, post.store()[page_id])
        &&& page_entries(post.store()[page_id]) == ins
        &&& branch_page_wf(post.store()[page_id])
        &&& page_header_of(post.store()[page_id]).id == page_header_of(p).id
    } else {
        branch_split_effect(pre, post, page_id, key, child, r)
    }
}

/// The hypotheses under which a branch insert is meaningful: the page is a
/// well-formed branch, the separator is non-empty, and no separator in it
/// equals the new one.
pub open spec fn branch_put_pre<'a>(pre: WriteTxn<'a>, page_id: u64, key: Seq<u8>) -> bool {
    &&& pre.store().contains_key(page_id)
    &&& branch_page_wf(pre.store()[page_id])
    &&& key.len() >= 1
    &&& forall|j: int|
        1 <= j <= page_count(pre.store()[page_id]) ==> (#[trigger] page_entries(
            pre.store()[page_id],
        )[j]).0 != key
}

pub struct WriteTxn<'a> {
    mmap: &'a memmap2::MmapMut,
    root_page_id: u64,
    dirty_pages: HashMap<u64, Vec<u8>>,
    free_list: Vec<u64>,
    highest_page_id: u64,
}

impl<'a> WriteTxn<'a> {
    /// The bytes of the shared map this writer reads through.
    pub closed spec fn base(self) -> Seq<u8> {
        mmap_bytes(*self.mmap)
    }

    /// The staged pages that shadow the map.
    pub closed spec fn dirty(self) -> Map<u64, Seq<u8>> {
        pages_view(self.dirty_pages@)
    }

    pub closed spec fn root(self) -> u64 {
        self.root_page_id
    }

    pub closed spec fn highest(self) -> u64 {
        self.highest_page_id
    }

    pub closed spec fn free(self) -> Seq<u64> {
        self.free_list@
    }

    /// The writer's view of the paged file: a staged page where one exists,
    /// otherwise the page bytes of the shared map.
    pub closed spec fn store(self) -> Map<u64, Seq<u8>> {
        Map::new(
            |pid: u64| self.dirty().contains_key(pid) || page_in_bounds(pid, self.base().len() as int),
            |pid: u64|
                if self.dirty().contains_key(pid) {
                    self.dirty()[pid]
                } else {
                    page_at(self.base(), pid)
                },
        )
    }

    /// Every staged page is a whole page image.
    pub closed spec fn wf(self) -> bool {
        forall|pid: u64| self.dirty().contains_key(pid) ==> (#[trigger] self.dirty()[pid]).len() == 4096
    }

    /// Begin a write transaction over a shared view of the map. The caller
    /// holds the exclusive writer token and supplies the header snapshot.
    pub fn new(
        mmap: &'a memmap2::MmapMut,
        root_page_id: u64,
        free_list: Vec<u64>,
        highest_page_id: u64,
    ) -> (txn: Self)
        ensures
            txn.wf(),
            txn.base() == mmap_bytes(*mmap),
            txn.dirty() == Map::<u64, Seq<u8>>::empty(),
            txn.root() == root_page_id,
            txn.highest() == highest_page_id,
            txn.free() == free_list@,
    {
        let txn = WriteTxn {
            mmap,
            root_page_id,
            dirty_pages: HashMap::new(),
            free_list,
            highest_page_id,
        };
        proof {
            assert(txn.dirty() =~= Map::<u64, Seq<u8>>::empty());
        }
        txn
    }

    /// Surrender the staged pages, the highest allocated page id and the root
    /// to the database for commit. The writer ends here.
    pub fn prepare_commit(self) -> (r: (HashMap<u64, Vec<u8>>, u64, u64))
        ensures
            pages_view(r.0@) == self.dirty(),
            r.1 == self.highest(),
            r.2 == self.root(),
    {
        let WriteTxn { mmap: _, root_page_id, dirty_pages, free_list: _, highest_page_id } = self;
        (dirty_pages, highest_page_id, root_page_id)
    }

    /// Read the current image of a page: the staged copy if one exists, the
    /// mapped bytes otherwise. Fails exactly on a page outside the view.
    fn read_page(&self, page_id: u64) -> (r: Result<Vec<u8>, BTreeError>)
        requires
            self.wf(),
        ensures
            r is Ok <==> self.store().contains_key(page_id),
            r matches Ok(v) ==> v@ == self.store()[page_id] && v@.len() == 4096,
            r matches Err(e) ==> e == BTreeError::Db(
                DbError::PageOutOfBounds { page_id, file_size: self.base().len() as usize },
            ),
    {
        match self.dirty_pages.get(&page_id) {
            Some(p) => {
                let v = vstd::slice::slice_to_vec(p.as_slice());
                Ok(v)
            },
            None => {
                let len = mmap_len(self.mmap);
                let pages = len / 4096;
                proof {
                    lemma_page_bounds_div(len as int, page_id);
                }
                if page_id >= pages as u64 {
                    return Err(
                        BTreeError::Db(DbError::PageOutOfBounds { page_id, file_size: len }),
                    );
                }
                let off = (page_id as usize) * 4096;
                let v = mmap_read(self.mmap, off, 4096);
                proof {
                    assert(v@ =~= page_at(self.base(), page_id));
                }
                Ok(v)
            },
        }
    }

    /// Stage a whole page image under `page_id`, shadowing the map.
    fn set_dirty(&mut self, page_id: u64, page: Vec<u8>)
        requires
            old(self).wf(),
            page@.len() == 4096,
        ensures
            final(self).wf(),
            final(self).store() == old(self).store().insert(page_id, page@),
            final(self).dirty() == old(self).dirty().insert(page_id, page@),
            final(self).base() == old(self).base(),
            final(self).root() == old(self).root(),
            final(self).highest() == old(self).highest(),
            final(self).free() == old(self).free(),
    {
        self.dirty_pages.insert(page_id, page);
        proof {
            assert(self.dirty() =~= old(self).dirty().insert(page_id, page@));
            assert(self.store() =~= old(self).store().insert(page_id, page@));
        }
    }

    /// Read the page type byte of a page, refusing bytes that stand for no
    /// type.
    fn get_page_type(&self, page_id: u64) -> (r: Result<PageType, BTreeError>)
        requires
            self.wf(),
        ensures
            r matches Ok(t) ==> self.store().contains_key(page_id) && self.store()[page_id][8]
                == page_type_code(t),
            r is Ok <==> (self.store().contains_key(page_id) && {
                let b = self.store()[page_id][8];
                b == 1 || b == 2 || b == 3 || b == 4
            }),
    {
        let page = self.read_page(page_id)?;
        let raw = page[8];
        match raw {
            1u8 => Ok(PageType::Meta),
            2u8 => Ok(PageType::FreeList),
            3u8 => Ok(PageType::Leaf),
            4u8 => Ok(PageType::Branch),
            _ => Err(BTreeError::CorruptPageType { page_id, raw_type: raw }),
        }
    }

    /// Take a page id from the free list, or mint the next one past the
    /// highest allocated so far.
    fn allocate_page(&mut self) -> (r: Result<u64, BTreeError>)
        requires
            old(self).wf(),
        ensures
            final(self).wf(),
            final(self).store() == old(self).store(),
            final(self).dirty() == old(self).dirty(),
            final(self).base() == old(self).base(),
            final(self).root() == old(self).root(),
            r is Ok <==> (old(self).free().len() > 0 || old(self).highest() < u64::MAX),
            r matches Ok(pid) ==> if old(self).free().len() > 0 {
                &&& pid == old(self).free().last()
                &&& final(self).free() == old(self).free().drop_last()
                &&& final(self).highest() == old(self).highest()
            } else {
                &&& pid == old(self).highest() + 1
                &&& final(self).highest() == old(self).highest() + 1
                &&& final(self).free() == old(self).free()
            },
            (r matches Err(e) ==> e matches BTreeError::PageFull { .. } && final(self).highest()
                == old(self).highest() && final(self).free() == old(self).free()),
    {
        let r = match self.free_list.pop() {
            Some(pid) => Ok(pid),
            None => {
                if self.highest_page_id == u64::MAX {
                    Err(BTreeError::PageFull { page_id: self.highest_page_id })
                } else {
                    self.highest_page_id = self.highest_page_id + 1;
                    Ok(self.highest_page_id)
                }
            },
        };
        proof {
            assert(self.dirty() =~= old(self).dirty());
            assert(self.store() =~= old(self).store());
        }
        r
    }

    /// Rebuild page `page_id` as a fresh leaf holding exactly `kvs`, keys and
    /// values packed backward from the body end in directory order. Fails with
    /// `PageFull` exactly when the pairs do not fit a single page.
    fn write_leaf_page(&mut self, page_id: u64, kvs: &[(Vec<u8>, Vec<u8>)]) -> (r: Result<(), BTreeError>)
        requires
            old(self).wf(),
        ensures
            final(self).wf(),
            final(self).base() == old(self).base(),
            final(self).root() == old(self).root(),
            final(self).highest() == old(self).highest(),
            final(self).free() == old(self).free(),
            (r is Ok) <==> leaf_fits(kvs_views(kvs@)),
            (r matches Err(e) ==> e == BTreeError::PageFull { page_id } && final(self).store()
                == old(self).store() && final(self).dirty() == old(self).dirty()),
            (r is Ok) ==> ({
                let p = final(self).store()[page_id];
                &&& final(self).store() == old(self).store().insert(page_id, p)
                &&& final(self).dirty() == old(self).dirty().insert(page_id, p)
                &&& page_header_of(p) == (Page {
                    id: page_id,
                    page_type: 3u8,
                    _padding: 0u8,
                    count: kvs@.len() as u16,
                    overflow: 0u32,
                })
                &&& p.len() == 4096
                &&& page_kvs(p) == kvs_views(kvs@)
                &&& (kvs_sorted(kvs_views(kvs@)) ==> leaf_page_wf(p))
            }),
    {
        let ghost views = kvs_views(kvs@);
        let n = kvs.len();
        if n > 510 {
            proof {
                lemma_payload_size_mono(views, 0, n as int);
            }
            return Err(BTreeError::PageFull { page_id });
        }
        // Capacity check: directory plus payload must fit the 4080-byte body.
        let mut total: usize = 0;
        let mut i: usize = 0;
        while i < n
            invariant
                *self == *old(self),
                self.wf(),
                n == kvs@.len(),
                views == kvs_views(kvs@),
                n <= 510,
                0 <= i <= n,
                total == payload_size(views, i as int),
                8 * n + total <= 4080,
            decreases n - i,
        {
            let pair = vstd::slice::slice_index_get(kvs, i);
            let kl = pair.0.len();
            let vl = pair.1.len();
            if kl > 4080 || vl > 4080 || 8 * n + total + kl + vl > 4080 {
                proof {
                    lemma_payload_size_mono(views, i + 1, n as int);
                }
                return Err(BTreeError::PageFull { page_id });
            }
            total = total + kl + vl;
            i = i + 1;
        }
        // Build the page: header, then for each pair its payload (value after
        // key, packed downward) and its directory element.
        let mut page = zero_vec(4096);
        let ghost hdr = Page {
            id: page_id,
            page_type: 3u8,
            _padding: 0u8,
            count: n as u16,
            overflow: 0u32,
        };
        write_page_header(
            &mut page,
            Page { id: page_id, page_type: 3, _padding: 0, count: n as u16, overflow: 0 },
        );
        let mut data_offset: usize = 4096;
        let mut i: usize = 0;
        while i < n
            invariant
                *self == *old(self),
                self.wf(),
                n == kvs@.len(),
                views == kvs_views(kvs@),
                n <= 510,
                0 <= i <= n,
                8 * n + payload_size(views, n as int) <= 4080,
                page@.len() == 4096,
                page_header_of(page@) == hdr,
                hdr == (Page {
                    id: page_id,
                    page_type: 3u8,
                    _padding: 0u8,
                    count: n as u16,
                    overflow: 0u32,
                }),
                data_offset == 4096 - payload_size(views, i as int),
                forall|j: int|
                    0 <= j < i ==> #[trigger] leaf_elem(body_of(page@), j) == (LeafElement {
                        ksize: views[j].0.len() as u16,
                        vsize: views[j].1.len() as u16,
                        kptr: (4080 - payload_size(views, j + 1)) as u16,
                        vptr: (4080 - payload_size(views, j + 1) + views[j].0.len()) as u16,
                    }),
                forall|j: int|
                    0 <= j < i ==> #[trigger] leaf_key(body_of(page@), j) == views[j].0
                        && #[trigger] leaf_val(body_of(page@), j) == views[j].1,
            decreases n - i,
        {
            proof {
                lemma_payload_size_mono(views, i + 1, n as int);
                lemma_payload_size_mono(views, 0, i as int);
            }
            let ghost old_page = page@;
            let pair = vstd::slice::slice_index_get(kvs, i);
            let kl = pair.0.len();
            let vl = pair.1.len();
            assert(kl == views[i as int].0.len() && vl == views[i as int].1.len());
            assert(data_offset - vl - kl == 4096 - payload_size(views, i + 1));
            assert(data_offset - vl - kl >= 16 + 8 * n);
            data_offset = data_offset - vl;
            copy_range(&mut page, data_offset, pair.1.as_slice());
            let vptr_body = data_offset - 16;
            data_offset = data_offset - kl;
            copy_range(&mut page, data_offset, pair.0.as_slice());
            let kptr_body = data_offset - 16;
            write_leaf_element(
                &mut page,
                i,
                LeafElement {
                    ksize: kl as u16,
                    vsize: vl as u16,
                    kptr: kptr_body as u16,
                    vptr: vptr_body as u16,
                },
            );
            proof {
                let body = body_of(page@);
                let obody = body_of(old_page);
                // Bytes below the new payload and outside the new element slot
                // are unchanged.
                assert forall|x: int|
                    0 <= x < 4096 && !(16 + kptr_body <= x < 16 + kptr_body + kl + vl) && !(16 + 8
                        * i <= x < 16 + 8 * i + 8) implies page@[x] == old_page[x] by {}
                assert(page_header_of(page@) == hdr);
                // The new element decodes as written, and its key and value
                // read back.
                assert(leaf_elem(body, i as int) == (LeafElement {
                    ksize: kl as u16,
                    vsize: vl as u16,
                    kptr: kptr_body as u16,
                    vptr: vptr_body as u16,
                }));
                assert forall|x: int| kptr_body <= x < kptr_body + kl implies body[x] == views[
                    i as int
                ].0[x - kptr_body] by {
                    assert(body[x] == page@[16 + x]);
                }
                assert(leaf_key(body, i as int) =~= views[i as int].0);
                assert forall|x: int| vptr_body <= x < vptr_body + vl implies body[x] == views[
                    i as int
                ].1[x - vptr_body] by {
                    assert(body[x] == page@[16 + x]);
                }
                assert(leaf_val(body, i as int) =~= views[i as int].1);
                // Earlier elements and their payloads are untouched.
                assert forall|j: int| 0 <= j < i implies #[trigger] leaf_elem(body, j) == leaf_elem(
                    obody,
                    j,
                ) && leaf_key(body, j) == leaf_key(obody, j) && leaf_val(body, j) == leaf_val(
                    obody,
                    j,
                ) by {
                    lemma_payload_size_mono(views, 0, j as int);
                    lemma_payload_size_mono(views, j as int, j + 1);
                    lemma_payload_size_mono(views, j + 1, i as int);
                    lemma_payload_size_mono(views, i as int, n as int);
                    assert forall|d: int| 0 <= d < 8 implies #[trigger] body[8 * j + d] == obody[8
                        * j + d] by {
                        assert(body[8 * j + d] == page@[16 + 8 * j + d]);
                        assert(obody[8 * j + d] == old_page[16 + 8 * j + d]);
                    }
                    assert(leaf_elem(body, j) == leaf_elem(obody, j));
                    let e = leaf_elem(obody, j);
                    assert(e.kptr == 4080 - payload_size(views, j + 1));
                    assert forall|x: int| e.kptr <= x < e.vptr + e.vsize implies body[x] == obody[
                        x
                    ] by {
                        assert(body[x] == page@[16 + x]);
                        assert(obody[x] == old_page[16 + x]);
                    }
                    crate::codec::lemma_subrange_eq(body, obody, e.kptr as int, e.kptr + e.ksize);
                    crate::codec::lemma_subrange_eq(body, obody, e.vptr as int, e.vptr + e.vsize);
                }
            }
            i = i + 1;
        }
        proof {
            let body = body_of(page@);
            assert(page_count(page@) == n as int);
            assert(page_kvs(page@) =~= views);
            if kvs_sorted(views) {
                assert forall|j: int| 0 <= j < n implies leaf_elem_wf(body, n as int, j) by {
                    lemma_payload_size_mono(views, j + 1, n as int);
                    lemma_payload_size_mono(views, 0, j as int);
                }
                assert(leaf_page_wf(page@));
            }
        }
        self.set_dirty(page_id, page);
        Ok(())
    }
    /// Rebuild page `page_id` as a fresh branch holding exactly `entries`
    /// (`(separator, child)` pairs, the first with the empty separator), the
    /// separators packed backward from the body end. Fails with `PageFull`
    /// exactly when the entries do not fit a single page.
    fn write_branch_page(&mut self, page_id: u64, entries: &[(Vec<u8>, u64)]) -> (r: Result<(), BTreeError>)
        requires
            old(self).wf(),
            entries@.len() >= 1,
        ensures
            final(self).wf(),
            final(self).base() == old(self).base(),
            final(self).root() == old(self).root(),
            final(self).highest() == old(self).highest(),
            final(self).free() == old(self).free(),
            (r is Ok) <==> branch_fits(entries_views(entries@)),
            (r matches Err(e) ==> e == BTreeError::PageFull { page_id } && final(self).store()
                == old(self).store() && final(self).dirty() == old(self).dirty()),
            (r is Ok) ==> ({
                let p = final(self).store()[page_id];
                &&& final(self).store() == old(self).store().insert(page_id, p)
                &&& final(self).dirty() == old(self).dirty().insert(page_id, p)
                &&& page_header_of(p) == (Page {
                    id: page_id,
                    page_type: 4u8,
                    _padding: 0u8,
                    count: (entries@.len() - 1) as u16,
                    overflow: 0u32,
                })
                &&& p.len() == 4096
                &&& page_entries(p) == entries_views(entries@)
                &&& (entries_sorted(entries_views(entries@)) ==> branch_page_wf(p))
            }),
    {
        let ghost views = entries_views(entries@);
        let n = entries.len();
        if n > 255 {
            proof {
                lemma_seps_size_mono(views, 0, n as int);
            }
            return Err(BTreeError::PageFull { page_id });
        }
        // Capacity check: directory plus separator payload must fit the body.
        let mut total: usize = 0;
        let mut i: usize = 0;
        while i < n
            invariant
                *self == *old(self),
                self.wf(),
                n == entries@.len(),
                views == entries_views(entries@),
                n <= 255,
                0 <= i <= n,
                total == seps_size(views, i as int),
                16 * n + total <= 4080,
            decreases n - i,
        {
            let pair = vstd::slice::slice_index_get(entries, i);
            let kl = pair.0.len();
            if kl > 4080 || 16 * n + total + kl > 4080 {
                proof {
                    lemma_seps_size_mono(views, i + 1, n as int);
                }
                return Err(BTreeError::PageFull { page_id });
            }
            total = total + kl;
            i = i + 1;
        }
        // Build the page: header, then each entry's separator (packed
        // downward) and its directory element.
        let mut page = zero_vec(4096);
        let ghost hdr = Page {
            id: page_id,
            page_type: 4u8,
            _padding: 0u8,
            count: (n - 1) as u16,
            overflow: 0u32,
        };
        write_page_header(
            &mut page,
            Page { id: page_id, page_type: 4, _padding: 0, count: (n - 1) as u16, overflow: 0 },
        );
        let mut data_offset: usize = 4096;
        let mut i: usize = 0;
        while i < n
            invariant
                *self == *old(self),
                self.wf(),
                n == entries@.len(),
                views == entries_views(entries@),
                1 <= n <= 255,
                0 <= i <= n,
                16 * n + seps_size(views, n as int) <= 4080,
                page@.len() == 4096,
                page_header_of(page@) == hdr,
                hdr == (Page {
                    id: page_id,
                    page_type: 4u8,
                    _padding: 0u8,
                    count: (n - 1) as u16,
                    overflow: 0u32,
                }),
                data_offset == 4096 - seps_size(views, i as int),
                forall|j: int|
                    0 <= j < i ==> #[trigger] branch_elem(body_of(page@), j) == (BranchElement {
                        page_id: views[j].1,
                        ksize: views[j].0.len() as u16,
                        kptr: if views[j].0.len() == 0 {
                            0u16
                        } else {
                            (4080 - seps_size(views, j + 1)) as u16
                        },
                        _padding: 0u32,
                    }),
                forall|j: int| 0 <= j < i ==> #[trigger] branch_key(body_of(page@), j) == views[j].0,
            decreases n - i,
        {
            proof {
                lemma_seps_size_mono(views, i + 1, n as int);
                lemma_seps_size_mono(views, 0, i as int);
            }
            let ghost old_page = page@;
            let pair = vstd::slice::slice_index_get(entries, i);
            let kl = pair.0.len();
            assert(kl == views[i as int].0.len());
            assert(data_offset - kl >= 16 + 16 * n);
            let kptr_body: usize = if kl == 0 {
                0
            } else {
                data_offset = data_offset - kl;
                copy_range(&mut page, data_offset, pair.0.as_slice());
                data_offset - 16
            };
            write_branch_element(
                &mut page,
                i,
                BranchElement { page_id: pair.1, ksize: kl as u16, kptr: kptr_body as u16, _padding: 0 },
            );
            proof {
                let body = body_of(page@);
                let obody = body_of(old_page);
                assert forall|x: int|
                    0 <= x < 4096 && !(16 + kptr_body <= x < 16 + kptr_body + kl) && !(16 + 16 * i
                        <= x < 16 + 16 * i + 16) implies page@[x] == old_page[x] by {}
                assert(page_header_of(page@) == hdr);
                assert(branch_elem(body, i as int) == (BranchElement {
                    page_id: views[i as int].1,
                    ksize: kl as u16,
                    kptr: kptr_body as u16,
                    _padding: 0u32,
                }));
                if kl == 0 {
                    assert(branch_key(body, i as int) =~= views[i as int].0);
                } else {
                    assert forall|x: int| kptr_body <= x < kptr_body + kl implies body[x] == views[
                        i as int
                    ].0[x - kptr_body] by {
                        assert(body[x] == page@[16 + x]);
                    }
                    assert(branch_key(body, i as int) =~= views[i as int].0);
                }
                assert forall|j: int| 0 <= j < i implies #[trigger] branch_elem(body, j)
                    == branch_elem(obody, j) && branch_key(body, j) == branch_key(obody, j) by {
                    lemma_seps_size_mono(views, 0, j as int);
                    lemma_seps_size_mono(views, j as int, j + 1);
                    lemma_seps_size_mono(views, j + 1, i as int);
                    lemma_seps_size_mono(views, i as int, n as int);
                    assert forall|d: int| 0 <= d < 16 implies #[trigger] body[16 * j + d] == obody[
                        16 * j + d] by {
                        assert(body[16 * j + d] == page@[16 + 16 * j + d]);
                        assert(obody[16 * j + d] == old_page[16 + 16 * j + d]);
                    }
                    assert(branch_elem(body, j) == branch_elem(obody, j));
                    let e = branch_elem(obody, j);
                    if e.ksize == 0 {
                        assert(branch_key(body, j) =~= branch_key(obody, j));
                    } else {
                        assert(e.kptr == 4080 - seps_size(views, j + 1));
                        assert forall|x: int| e.kptr <= x < e.kptr + e.ksize implies body[x]
                            == obody[x] by {
                            assert(body[x] == page@[16 + x]);
                            assert(obody[x] == old_page[16 + x]);
                        }
                        crate::codec::lemma_subrange_eq(body, obody, e.kptr as int, e.kptr + e.ksize);
                    }
                }
            }
            i = i + 1;
        }
        proof {
            let body = body_of(page@);
            assert(page_count(page@) == n - 1);
            assert(page_entries(page@) =~= views);
            if entries_sorted(views) {
                assert forall|j: int| 0 <= j <= n - 1 implies #[trigger] branch_elem_wf(body, n - 1, j) by {
                    lemma_seps_size_mono(views, 0, j as int);
                    lemma_seps_size_mono(views, j as int, j + 1);
                    lemma_seps_size_mono(views, j + 1, n as int);
                }
                assert forall|a: int, b: int| 1 <= a < b <= n - 1 implies lex_lt(
                    #[trigger] branch_key(body, a),
                    #[trigger] branch_key(body, b),
                ) by {
                    assert(views[a].0 == branch_key(body, a));
                    assert(views[b].0 == branch_key(body, b));
                }
                assert(branch_page_wf(page@));
            }
        }
        self.set_dirty(page_id, page);
        Ok(())
    }
    /// Split leaf `page_id` around the new pair: merge it in at its sorted
    /// position (replacing an equal key), cut at the midpoint, rewrite the
    /// page as the left half and a fresh page as the right half, and hand the
    /// right half's first key up as the separator.
    #[verifier::rlimit(60)]
    #[verifier::spinoff_prover]
    fn split_leaf(&mut self, page_id: u64, new_key: &[u8], new_value: &[u8]) -> (r: Result<Option<(Vec<u8>, u64)>, BTreeError>)
        requires
            old(self).wf(),
        ensures
            final(self).wf(),
            final(self).base() == old(self).base(),
            final(self).root() == old(self).root(),
            old(self).highest() <= final(self).highest(),
            (old(self).store().contains_key(page_id) && leaf_page_wf(old(self).store()[page_id]))
                ==> leaf_split_effect(*old(self), *final(self), page_id, new_key@, new_value@, r),
    {
        let ghost pre = *old(self);
        let ghost h = pre.store().contains_key(page_id) && leaf_page_wf(pre.store()[page_id]);
        let page = match self.read_page(page_id) {
            Ok(p) => p,
            Err(e) => {
                return Err(e);
            },
        };
        let ghost merged = kvs_put(page_kvs(page@), new_key@, new_value@);
        let ghost s = (merged.len() + 1) as int / 2;
        let (kvs, split_idx) = match leaf_merge_pairs(&page, page_id, new_key, new_value) {
            Ok(p) => p,
            Err(e) => {
                return Err(e);
            },
        };
        let total = kvs.len();
        let ghost left_v = merged.take(s);
        let ghost right_v = merged.skip(s);
        let new_page_id = match self.allocate_page() {
            Ok(pid) => pid,
            Err(e) => {
                return Err(e);
            },
        };
        let left = vstd::slice::slice_subrange(kvs.as_slice(), 0, split_idx);
        proof {
            if h {
                assert(kvs_views(left@) =~= left_v);
                assert forall|a: int, b: int| 0 <= a < b < left_v.len() implies lex_lt(
                    (#[trigger] left_v[a]).0,
                    (#[trigger] left_v[b]).0,
                ) by {
                    assert(left_v[a] == merged[a] && left_v[b] == merged[b]);
                }
            }
        }
        match self.write_leaf_page(page_id, left) {
            Ok(_) => (),
            Err(e) => {
                proof {
                    if h {
                        assert(false);
                    }
                }
                return Err(e);
            },
        }
        let right = vstd::slice::slice_subrange(kvs.as_slice(), split_idx, total);
        proof {
            if h {
                assert(kvs_views(right@) =~= right_v);
                assert forall|a: int, b: int| 0 <= a < b < right_v.len() implies lex_lt(
                    (#[trigger] right_v[a]).0,
                    (#[trigger] right_v[b]).0,
                ) by {
                    assert(right_v[a] == merged[a + s] && right_v[b] == merged[b + s]);
                }
            }
        }
        match self.write_leaf_page(new_page_id, right) {
            Ok(_) => (),
            Err(e) => {
                proof {
                    if h {
                        assert(false);
                    }
                }
                return Err(e);
            },
        }
        let sep_pair = vstd::slice::slice_index_get(kvs.as_slice(), split_idx);
        let separator = vstd::slice::slice_to_vec(sep_pair.0.as_slice());
        proof {
            if h {
                assert(separator@ == merged[s].0);
                assert(self.store() =~= pre.store().insert(page_id, self.store()[page_id]).insert(
                    new_page_id,
                    self.store()[new_page_id],
                ));
                assert(self.dirty() =~= pre.dirty().insert(page_id, self.store()[page_id]).insert(
                    new_page_id,
                    self.store()[new_page_id],
                ));
            }
        }
        Ok(Some((separator, new_page_id)))
    }


/// Rewrite the element at `pos` of a leaf page with a fresh copy of the pair,
/// appending the new payload below the heap floor.
#[verifier::rlimit(100)]
#[verifier::spinoff_prover]
fn leaf_update_element(page: &mut Vec<u8>, pos: usize, key: &[u8], value: &[u8], min_kptr: usize, count: usize)
    requires
        old(page)@.len() == 4096,
        count == page_count(old(page)@),
        count <= 510,
        pos < count,
        min_kptr <= 4080,
        min_kptr == leaf_min_kptr(body_of(old(page)@), count as int),
        8 * (count + 1) + key@.len() + value@.len() <= min_kptr,
    ensures
        final(page)@.len() == 4096,
        ({
            let p0 = old(page)@;
            let p2 = final(page)@;
            let kvs0 = page_kvs(p0);
            (leaf_page_wf(p0) && leaf_key(body_of(p0), pos as int) == key@ && pos as int
                == kvs_num_lt(kvs0, key@, count as int)) ==> {
                &&& page_kvs(p2) == kvs_put(kvs0, key@, value@)
                &&& leaf_page_wf(p2)
                &&& page_header_of(p2) == page_header_of(p0)
            }
        }),
{
    let ghost p0 = page@;
    let ghost body0 = body_of(p0);
    let ghost kvs0 = page_kvs(p0);
    let ghost h = leaf_page_wf(p0) && leaf_key(body0, pos as int) == key@ && pos as int
        == kvs_num_lt(kvs0, key@, count as int);
    let key_offset = min_kptr - (key.len() + value.len());
    let value_offset = key_offset + key.len();
    copy_range(page, 16 + key_offset, key);
    copy_range(page, 16 + value_offset, value);
    let elem = LeafElement {
        ksize: key.len() as u16,
        vsize: value.len() as u16,
        kptr: key_offset as u16,
        vptr: value_offset as u16,
    };
    write_leaf_element(page, pos, elem);
    proof {
        if h {
            let p2 = page@;
            let body2 = body_of(p2);
            let put = kvs_put(kvs0, key@, value@);
            lemma_num_lt_bounds(kvs0, key@, count as int);
            assert(put == kvs0.update(pos as int, (key@, value@)));
            assert forall|x: int|
                0 <= x < 4096 && !(16 + key_offset <= x < 16 + min_kptr) && !(16 + 8 * pos <= x < 16
                    + 8 * pos + 8) implies p2[x] == p0[x] by {}
            assert(page_header_of(p2) == page_header_of(p0));
            assert(page_count(p2) == count as int);
            assert(leaf_elem(body2, pos as int) == elem);
            assert forall|t: int| 0 <= t < key@.len() implies body2[key_offset + t] == key@[t] by {
                assert(body2[key_offset + t] == p2[16 + key_offset + t]);
            }
            assert(leaf_key(body2, pos as int) =~= key@);
            assert forall|t: int| 0 <= t < value@.len() implies body2[value_offset + t] == value@[
                t
            ] by {
                assert(body2[value_offset + t] == p2[16 + value_offset + t]);
            }
            assert(leaf_val(body2, pos as int) =~= value@);
            assert forall|j: int| 0 <= j < count && j != pos implies #[trigger] leaf_elem(body2, j)
                == leaf_elem(body0, j) && leaf_key(body2, j) == leaf_key(body0, j) && leaf_val(
                body2,
                j,
            ) == leaf_val(body0, j) by {
                assert(leaf_elem_wf(body0, count as int, j));
                assert forall|d: int| 0 <= d < 8 implies #[trigger] body2[8 * j + d] == body0[8 * j
                    + d] by {
                    assert(body2[8 * j + d] == p2[16 + 8 * j + d]);
                    assert(body0[8 * j + d] == p0[16 + 8 * j + d]);
                }
                assert(leaf_elem(body2, j) == leaf_elem(body0, j));
                let e = leaf_elem(body0, j);
                lemma_min_kptr_le(body0, count as int, j);
                assert forall|x: int| e.kptr <= x < e.vptr + e.vsize implies body2[x] == body0[
                    x
                ] by {
                    assert(body2[x] == p2[16 + x]);
                    assert(body0[x] == p0[16 + x]);
                }
                crate::codec::lemma_subrange_eq(body2, body0, e.kptr as int, e.kptr + e.ksize);
                crate::codec::lemma_subrange_eq(body2, body0, e.vptr as int, e.vptr + e.vsize);
            }
            assert(page_kvs(p2) =~= put);
            assert forall|j: int| 0 <= j < count implies leaf_elem_wf(body2, count as int, j) by {
                assert(leaf_elem_wf(body0, count as int, j));
            }
            assert forall|a: int, b: int| 0 <= a < b < count implies lex_lt(
                #[trigger] leaf_key(body2, a),
                #[trigger] leaf_key(body2, b),
            ) by {
                assert(leaf_key(body0, pos as int) == key@);
                assert(leaf_key(body2, a) == leaf_key(body0, a));
                assert(leaf_key(body2, b) == leaf_key(body0, b));
            }
            assert(leaf_page_wf(p2));
        }
    }
}

/// Insert a new element at slot `pos` of a leaf page, shifting the directory
/// tail one slot right and appending the payload below the heap floor.
#[verifier::rlimit(100)]
#[verifier::spinoff_prover]
fn leaf_insert_element(page: &mut Vec<u8>, pos: usize, key: &[u8], value: &[u8], min_kptr: usize, count: usize)
    requires
        old(page)@.len() == 4096,
        count == page_count(old(page)@),
        count <= 510,
        pos <= count,
        min_kptr <= 4080,
        min_kptr == leaf_min_kptr(body_of(old(page)@), count as int),
        8 * (count + 1) + key@.len() + value@.len() <= min_kptr,
    ensures
        final(page)@.len() == 4096,
        ({
            let p0 = old(page)@;
            let p2 = final(page)@;
            let kvs0 = page_kvs(p0);
            (leaf_page_wf(p0) && pos as int == kvs_num_lt(kvs0, key@, count as int) && (forall|
                j: int,
            |
                0 <= j < pos ==> lex_lt(#[trigger] leaf_key(body_of(p0), j), key@)) && (forall|
                j: int,
            |
                pos <= j < count ==> lex_lt(key@, #[trigger] leaf_key(body_of(p0), j)))) ==> {
                &&& page_kvs(p2) == kvs_put(kvs0, key@, value@)
                &&& leaf_page_wf(p2)
                &&& page_count(p2) == count + 1
                &&& page_header_of(p2).id == page_header_of(p0).id
            }
        }),
{
    let ghost p0 = page@;
    let ghost body0 = body_of(p0);
    let ghost kvs0 = page_kvs(p0);
    let ghost h = leaf_page_wf(p0) && pos as int == kvs_num_lt(kvs0, key@, count as int) && (forall|
        j: int,
    |
        0 <= j < pos ==> lex_lt(#[trigger] leaf_key(body0, j), key@)) && (forall|j: int|
        pos <= j < count ==> lex_lt(key@, #[trigger] leaf_key(body0, j)));
    proof {
        if h {
            crate::order::lemma_lex_total(key@, key@);
            if (pos as int) < count && leaf_key(body0, pos as int) == key@ {
                assert(lex_lt(key@, key@));
            }
        }
    }
    let key_offset = min_kptr - (key.len() + value.len());
    let value_offset = key_offset + key.len();
    copy_range(page, 16 + key_offset, key);
    copy_range(page, 16 + value_offset, value);
    let elem = LeafElement {
        ksize: key.len() as u16,
        vsize: value.len() as u16,
        kptr: key_offset as u16,
        vptr: value_offset as u16,
    };
    let ghost p1 = page@;
    if pos < count {
        move_range_right(page, 16 + 8 * pos, 16 + 8 * count, 8);
    }
    write_leaf_element(page, pos, elem);
    write_u16_at(page, 10, (count + 1) as u16);
    proof {
        if h {
            let p2 = page@;
            let body2 = body_of(p2);
            let put = kvs_put(kvs0, key@, value@);
            lemma_num_lt_bounds(kvs0, key@, count as int);
            assert(put == kvs0.insert(pos as int, (key@, value@)));
            assert forall|x: int|
                0 <= x < 4096 && !(16 + key_offset <= x < 16 + min_kptr) && !(16 + 8 * pos <= x < 16
                    + 8 * count + 8) && !(10 <= x < 12) implies p2[x] == p0[x] by {}
            assert forall|j: int| pos < j <= count implies #[trigger] leaf_elem(body2, j)
                == leaf_elem(body0, j - 1) by {
                assert forall|d: int| 0 <= d < 8 implies #[trigger] body2[8 * j + d] == body0[8 * (j
                    - 1) + d] by {
                    assert(body2[8 * j + d] == p2[16 + 8 * j + d]);
                    assert(p2[16 + 8 * j + d] == p1[16 + 8 * (j - 1) + d]);
                    assert(p1[16 + 8 * (j - 1) + d] == p0[16 + 8 * (j - 1) + d]);
                    assert(body0[8 * (j - 1) + d] == p0[16 + 8 * (j - 1) + d]);
                }
            }
            assert(page_count(p2) == count + 1);
            assert(p2[8] == p0[8]);
            assert(u64_of(p2, 0) == u64_of(p0, 0));
            assert(leaf_elem(body2, pos as int) == elem);
            assert forall|t: int| 0 <= t < key@.len() implies body2[key_offset + t] == key@[t] by {
                assert(body2[key_offset + t] == p2[16 + key_offset + t]);
                assert(p2[16 + key_offset + t] == p1[16 + key_offset + t]);
            }
            assert(leaf_key(body2, pos as int) =~= key@);
            assert forall|t: int| 0 <= t < value@.len() implies body2[value_offset + t] == value@[
                t
            ] by {
                assert(body2[value_offset + t] == p2[16 + value_offset + t]);
                assert(p2[16 + value_offset + t] == p1[16 + value_offset + t]);
            }
            assert(leaf_val(body2, pos as int) =~= value@);
            assert forall|j: int| 0 <= j < pos implies #[trigger] leaf_elem(body2, j) == leaf_elem(
                body0,
                j,
            ) by {
                assert forall|d: int| 0 <= d < 8 implies #[trigger] body2[8 * j + d] == body0[8 * j
                    + d] by {
                    assert(body2[8 * j + d] == p2[16 + 8 * j + d]);
                    assert(body0[8 * j + d] == p0[16 + 8 * j + d]);
                }
            }
            assert forall|j: int|
                0 <= j < count implies leaf_key(
                body2,
                j + (if j < pos {
                    0int
                } else {
                    1int
                }),
            ) == #[trigger] leaf_key(body0, j) && leaf_val(
                body2,
                j + (if j < pos {
                    0int
                } else {
                    1int
                }),
            ) == leaf_val(body0, j) by {
                let j2 = j + (if j < pos {
                    0int
                } else {
                    1int
                });
                assert(leaf_elem(body2, j2) == leaf_elem(body0, j));
                let e = leaf_elem(body0, j);
                assert(leaf_elem_wf(body0, count as int, j));
                lemma_min_kptr_le(body0, count as int, j);
                assert forall|x: int| e.kptr <= x < e.vptr + e.vsize implies body2[x] == body0[
                    x
                ] by {
                    assert(body2[x] == p2[16 + x]);
                    assert(p2[16 + x] == p1[16 + x]);
                    assert(body0[x] == p0[16 + x]);
                }
                crate::codec::lemma_subrange_eq(body2, body0, e.kptr as int, e.kptr + e.ksize);
                crate::codec::lemma_subrange_eq(body2, body0, e.vptr as int, e.vptr + e.vsize);
            }
            assert(page_kvs(p2) =~= put);
            assert forall|j: int| 0 <= j < count + 1 implies #[trigger] leaf_elem_wf(
                body2,
                count + 1,
                j,
            ) by {
                if j < pos {
                    assert(leaf_elem(body2, j) == leaf_elem(body0, j));
                    assert(leaf_elem_wf(body0, count as int, j));
                    lemma_min_kptr_le(body0, count as int, j);
                } else if j == pos {
                } else {
                    assert(leaf_elem(body2, j) == leaf_elem(body0, j - 1));
                    assert(leaf_elem_wf(body0, count as int, j - 1));
                    lemma_min_kptr_le(body0, count as int, j - 1);
                }
            }
            lemma_kvs_put_sorted(kvs0, key@, value@);
            assert forall|a: int, b: int| 0 <= a < b < count + 1 implies lex_lt(
                #[trigger] leaf_key(body2, a),
                #[trigger] leaf_key(body2, b),
            ) by {
                assert(leaf_key(body2, a) == page_kvs(p2)[a].0);
                assert(leaf_key(body2, b) == page_kvs(p2)[b].0);
                assert(lex_lt(put[a].0, put[b].0));
            }
            assert(leaf_page_wf(p2));
        }
    }
}

    /// Bind `key` to `value` in leaf `page_id`: update the matching element in
    /// place, or insert a new one at its sorted position when the pair fits the
    /// page, or split the leaf.
    #[verifier::rlimit(60)]
    #[verifier::spinoff_prover]
    fn insert_into_leaf(&mut self, page_id: u64, key: &[u8], value: &[u8]) -> (r: Result<Option<(Vec<u8>, u64)>, BTreeError>)
        requires
            old(self).wf(),
        ensures
            final(self).wf(),
            final(self).base() == old(self).base(),
            final(self).root() == old(self).root(),
            old(self).highest() <= final(self).highest(),
            (old(self).store().contains_key(page_id) && leaf_page_wf(old(self).store()[page_id]))
                ==> leaf_put_effect(*old(self), *final(self), page_id, key@, value@, r),
    {
        let ghost pre = *old(self);
        let ghost h = pre.store().contains_key(page_id) && leaf_page_wf(pre.store()[page_id]);
        if key.len() > 65535 {
            return Err(BTreeError::KeyTooLarge { key_size: key.len(), max_size: 65535 });
        }
        if value.len() > 65535 {
            return Err(BTreeError::ValueTooLarge { value_size: value.len(), max_size: 65535 });
        }
        let mut page = match self.read_page(page_id) {
            Ok(p) => p,
            Err(e) => {
                return Err(e);
            },
        };
        let ghost p0 = page@;
        let ghost body0 = body_of(p0);
        let ghost kvs0 = page_kvs(p0);
        let hdr = read_page_header(page.as_slice());
        let count = hdr.count as usize;
        if count > 510 {
            proof {
                if h {
                    assert(false);
                }
            }
            return Err(BTreeError::CorruptPageType { page_id, raw_type: hdr.page_type });
        }
        let mut min_kptr: usize = 4080;
        let mut i: usize = 0;
        while i < count
            invariant
                page@ == p0,
                p0.len() == 4096,
                count == page_count(p0),
                count <= 510,
                0 <= i <= count,
                min_kptr == leaf_min_kptr(body_of(p0), i as int),
                min_kptr <= 4080,
            decreases count - i,
        {
            let e = read_leaf_element(page.as_slice(), i);
            if (e.kptr as usize) < min_kptr {
                min_kptr = e.kptr as usize;
            }
            i = i + 1;
        }
        if 8 * (count + 1) + key.len() + value.len() > min_kptr {
            return self.split_leaf(page_id, key, value);
        }
        let body_slice = vstd::slice::slice_subrange(page.as_slice(), 16, 4096);
        proof {
            assert(body_slice@ =~= body0);
        }
        let (pos, found) = match crate::search::search_leaf_elements(body_slice, count, key) {
            Ok(p) => p,
            Err(_) => {
                proof {
                    if h {
                        assert(false);
                    }
                }
                return Err(BTreeError::CorruptPageType { page_id, raw_type: hdr.page_type });
            },
        };
        if found {
            Self::leaf_update_element(&mut page, pos, key, value, min_kptr, count);
        } else {
            Self::leaf_insert_element(&mut page, pos, key, value, min_kptr, count);
        }
        proof {
            if h {
                assert(page_kvs(page@) == kvs_put(kvs0, key@, value@));
                assert(leaf_page_wf(page@));
            }
        }
        self.set_dirty(page_id, page);
        Ok(None)
    }
    /// Insert a new element at slot `pos` of a branch page, shifting the
    /// directory tail one slot right and packing the separator below the heap
    /// floor.
    #[verifier::rlimit(100)]
    #[verifier::spinoff_prover]
    fn branch_insert_element(page: &mut Vec<u8>, pos: usize, key: &[u8], child: u64, min_kptr: usize, count: usize)
        requires
            old(page)@.len() == 4096,
            count == page_count(old(page)@),
            count <= 254,
            1 <= pos <= count + 1,
            min_kptr <= 4080,
            min_kptr == branch_min_kptr(body_of(old(page)@), count + 1),
            16 * (count + 2) + key@.len() <= min_kptr,
        ensures
            final(page)@.len() == 4096,
            ({
                let p0 = old(page)@;
                let p2 = final(page)@;
                let body0 = body_of(p0);
                let entries0 = page_entries(p0);
                (branch_page_wf(p0) && key@.len() >= 1 && (forall|j: int|
                    1 <= j < pos ==> lex_lt((#[trigger] entries0[j]).0, key@)) && (forall|j: int|
                    pos <= j <= count ==> lex_lt(key@, (#[trigger] entries0[j]).0))) ==> {
                    &&& page_entries(p2) == entries0.insert(pos as int, (key@, child))
                    &&& branch_page_wf(p2)
                    &&& page_count(p2) == count + 1
                    &&& page_header_of(p2).id == page_header_of(p0).id
                }
            }),
    {
        let ghost p0 = page@;
        let ghost body0 = body_of(p0);
        let ghost entries0 = page_entries(p0);
        let ghost h = branch_page_wf(p0) && key@.len() >= 1 && (forall|j: int|
            1 <= j < pos ==> lex_lt((#[trigger] entries0[j]).0, key@)) && (forall|j: int|
            pos <= j <= count ==> lex_lt(key@, (#[trigger] entries0[j]).0));
        let key_offset = min_kptr - key.len();
        copy_range(page, 16 + key_offset, key);
        let elem = BranchElement {
            page_id: child,
            ksize: key.len() as u16,
            kptr: key_offset as u16,
            _padding: 0,
        };
        let ghost p1 = page@;
        move_range_right(page, 16 + 16 * pos, 16 + 16 * (count + 1), 16);
        write_branch_element(page, pos, elem);
        write_u16_at(page, 10, (count + 1) as u16);
        proof {
            if h {
                let p2 = page@;
                let body2 = body_of(p2);
                let ins = entries0.insert(pos as int, (key@, child));
                assert forall|x: int|
                    0 <= x < 4096 && !(16 + key_offset <= x < 16 + min_kptr) && !(16 + 16 * pos <= x
                        < 16 + 16 * (count + 1) + 16) && !(10 <= x < 12) implies p2[x] == p0[x] by {}
                assert forall|j: int| pos < j <= count + 1 implies #[trigger] branch_elem(body2, j)
                    == branch_elem(body0, j - 1) by {
                    assert forall|d: int| 0 <= d < 16 implies #[trigger] body2[16 * j + d] == body0[
                        16 * (j - 1) + d] by {
                        assert(body2[16 * j + d] == p2[16 + 16 * j + d]);
                        assert(p2[16 + 16 * j + d] == p1[16 + 16 * (j - 1) + d]);
                        assert(p1[16 + 16 * (j - 1) + d] == p0[16 + 16 * (j - 1) + d]);
                        assert(body0[16 * (j - 1) + d] == p0[16 + 16 * (j - 1) + d]);
                    }
                }
                assert(page_count(p2) == count + 1);
                assert(p2[8] == p0[8]);
                assert(u64_of(p2, 0) == u64_of(p0, 0));
                assert(branch_elem(body2, pos as int) == elem);
                assert forall|t: int| 0 <= t < key@.len() implies body2[key_offset + t] == key@[
                    t
                ] by {
                    assert(body2[key_offset + t] == p2[16 + key_offset + t]);
                    assert(p2[16 + key_offset + t] == p1[16 + key_offset + t]);
                }
                assert(branch_key(body2, pos as int) =~= key@);
                assert forall|j: int| 0 <= j < pos implies #[trigger] branch_elem(body2, j)
                    == branch_elem(body0, j) by {
                    assert forall|d: int| 0 <= d < 16 implies #[trigger] body2[16 * j + d] == body0[
                        16 * j + d] by {
                        assert(body2[16 * j + d] == p2[16 + 16 * j + d]);
                        assert(body0[16 * j + d] == p0[16 + 16 * j + d]);
                    }
                }
                assert forall|j: int|
                    0 <= j <= count implies branch_key(
                    body2,
                    j + (if j < pos {
                        0int
                    } else {
                        1int
                    }),
                ) == #[trigger] branch_key(body0, j) by {
                    let j2 = j + (if j < pos {
                        0int
                    } else {
                        1int
                    });
                    assert(branch_elem(body2, j2) == branch_elem(body0, j));
                    let e = branch_elem(body0, j);
                    assert(branch_elem_wf(body0, count as int, j));
                    if e.ksize == 0 {
                        assert(branch_key(body2, j2) =~= branch_key(body0, j));
                    } else {
                        lemma_branch_min_kptr_le(body0, count + 1, j);
                        assert forall|x: int| e.kptr <= x < e.kptr + e.ksize implies body2[x]
                            == body0[x] by {
                            assert(body2[x] == p2[16 + x]);
                            assert(p2[16 + x] == p1[16 + x]);
                            assert(body0[x] == p0[16 + x]);
                        }
                        crate::codec::lemma_subrange_eq(body2, body0, e.kptr as int, e.kptr + e.ksize);
                    }
                }
                assert(page_entries(p2) =~= ins);
                assert forall|j: int| 0 <= j <= count + 1 implies #[trigger] branch_elem_wf(
                    body2,
                    count + 1,
                    j,
                ) by {
                    if j < pos {
                        assert(branch_elem(body2, j) == branch_elem(body0, j));
                        assert(branch_elem_wf(body0, count as int, j));
                        if j > 0 {
                            lemma_branch_min_kptr_le(body0, count + 1, j);
                        }
                    } else if j == pos {
                    } else {
                        assert(branch_elem(body2, j) == branch_elem(body0, j - 1));
                        assert(branch_elem_wf(body0, count as int, j - 1));
                        lemma_branch_min_kptr_le(body0, count + 1, j - 1);
                    }
                }
                assert forall|a: int, b: int| 1 <= a < b <= count + 1 implies lex_lt(
                    #[trigger] branch_key(body2, a),
                    #[trigger] branch_key(body2, b),
                ) by {
                    assert(branch_key(body2, a) == ins[a].0);
                    assert(branch_key(body2, b) == ins[b].0);
                    if a < pos && b < pos {
                    } else if b == pos {
                        assert(ins[b].0 == key@);
                        assert(lex_lt(entries0[a].0, key@));
                    } else if a == pos {
                        assert(lex_lt(key@, entries0[b - 1].0));
                    } else if a < pos && b > pos {
                        assert(ins[a].0 == entries0[a].0 && ins[b].0 == entries0[b - 1].0);
                        if a == b - 1 {
                            assert(lex_lt(entries0[a].0, key@));
                            assert(lex_lt(key@, entries0[b - 1].0));
                            crate::order::lemma_lex_trans(entries0[a].0, key@, entries0[b - 1].0);
                        }
                    } else {
                    }
                }
                assert(branch_page_wf(p2));
            }
        }
    }

    /// Insert a promoted `(separator, child)` entry into branch `page_id`,
    /// splitting the branch when the entry does not fit.
    #[verifier::rlimit(60)]
    #[verifier::spinoff_prover]
    fn insert_into_branch(&mut self, page_id: u64, key: Vec<u8>, child_page_id: u64) -> (r: Result<Option<(Vec<u8>, u64)>, BTreeError>)
        requires
            old(self).wf(),
        ensures
            final(self).wf(),
            final(self).base() == old(self).base(),
            final(self).root() == old(self).root(),
            old(self).highest() <= final(self).highest(),
            branch_put_pre(*old(self), page_id, key@) ==> branch_put_effect(
                *old(self),
                *final(self),
                page_id,
                key@,
                child_page_id,
                r,
            ),
    {
        let ghost pre = *old(self);
        let ghost h = branch_put_pre(pre, page_id, key@);
        let mut page = match self.read_page(page_id) {
            Ok(p) => p,
            Err(e) => {
                return Err(e);
            },
        };
        let ghost p0 = page@;
        let ghost body0 = body_of(p0);
        let ghost entries0 = page_entries(p0);
        let hdr = read_page_header(page.as_slice());
        let count = hdr.count as usize;
        if count > 254 {
            proof {
                if h {
                    assert(false);
                }
            }
            return Err(BTreeError::CorruptPageType { page_id, raw_type: hdr.page_type });
        }
        let mut min_kptr: usize = 4080;
        let mut i: usize = 0;
        while i < count + 1
            invariant
                page@ == p0,
                p0.len() == 4096,
                count == page_count(p0),
                count <= 254,
                0 <= i <= count + 1,
                min_kptr == branch_min_kptr(body_of(p0), i as int),
                min_kptr <= 4080,
            decreases count + 1 - i,
        {
            let e = read_branch_element(page.as_slice(), i);
            if e.ksize > 0 && (e.kptr as usize) < min_kptr {
                min_kptr = e.kptr as usize;
            }
            i = i + 1;
        }
        if key.len() > min_kptr || 16 * (count + 2) > min_kptr - key.len() {
            return self.split_branch(page_id, key, child_page_id);
        }
        let body_slice = vstd::slice::slice_subrange(page.as_slice(), 16, 4096);
        proof {
            assert(body_slice@ =~= body0);
        }
        let (pos, found) = match crate::search::search_branch_elements(
            body_slice,
            count,
            key.as_slice(),
        ) {
            Ok(p) => p,
            Err(_) => {
                proof {
                    if h {
                        assert(false);
                    }
                }
                return Err(BTreeError::CorruptPageType { page_id, raw_type: hdr.page_type });
            },
        };
        proof {
            if h {
                if found {
                    assert(entries0[pos as int].0 == branch_key(body0, pos as int));
                    assert(false);
                }
                assert(pos as int == seps_le(entries0, key@, count as int) + 1);
            }
        }
        Self::branch_insert_element(&mut page, pos, key.as_slice(), child_page_id, min_kptr, count);
        proof {
            if h {
                assert(page_entries(page@) == entries0.insert(pos as int, (key@, child_page_id)));
                assert(branch_page_wf(page@));
            }
        }
        self.set_dirty(page_id, page);
        Ok(None)
    }
/// Materialise the entries of a branch page with a new `(separator, child)`
/// entry merged in at its sorted slot, and check that both halves of the
/// midpoint cut fit a page each. Returns the merged entries and the cut index,
/// or `PageFull` when a half does not fit.
#[verifier::rlimit(60)]
#[verifier::spinoff_prover]
fn branch_merge_entries(page: &Vec<u8>, page_id: u64, new_key: &[u8], new_child: u64) -> (r: Result<(Vec<(Vec<u8>, u64)>, usize), BTreeError>)
    requires
        page@.len() == 4096,
    ensures
        (r matches Ok(pr) ==> 0 < pr.1 < pr.0@.len()),
        ({
            let count = page_count(page@);
            let entries = page_entries(page@);
            let pos = seps_le(entries, new_key@, count) + 1;
            let ins = entries.insert(pos, (new_key@, new_child));
            let s = ins.len() as int / 2;
            let left = ins.take(s);
            let right = ins.skip(s).update(0, (Seq::<u8>::empty(), ins[s].1));
            (branch_page_wf(page@) && new_key@.len() >= 1 && (forall|j: int|
                1 <= j <= count ==> (#[trigger] entries[j]).0 != new_key@)) ==> {
                &&& (!branch_fits(left) || !branch_fits(right) ==> r == Err::<
                    (Vec<(Vec<u8>, u64)>, usize),
                    BTreeError,
                >(BTreeError::PageFull { page_id }))
                &&& (branch_fits(left) && branch_fits(right) ==> (r matches Ok(pr)
                    && entries_views(pr.0@) == ins && pr.1 == s))
            }
        }),
{
    let ghost count = page_count(page@);
    let ghost entries = page_entries(page@);
    let ghost pos_s = seps_le(entries, new_key@, count) + 1;
    let ghost ins = entries.insert(pos_s, (new_key@, new_child));
    let ghost wf = branch_page_wf(page@) && new_key@.len() >= 1 && (forall|j: int|
        1 <= j <= count ==> (#[trigger] entries[j]).0 != new_key@);
    let hdr = read_page_header(page.as_slice());
    let mut out = match read_branch_pairs(&page, page_id) {
        Ok(v) => v,
        Err(e) => {
            proof {
                if wf {
                    assert(false);
                }
            }
            return Err(e);
        },
    };
    let n = out.len();
    if n > 255 || n != hdr.count as usize + 1 {
        proof {
            if wf {
                assert(false);
            }
        }
        return Err(BTreeError::CorruptPageType { page_id, raw_type: hdr.page_type });
    }
    let body_slice = vstd::slice::slice_subrange(page.as_slice(), 16, 4096);
    proof {
        assert(body_slice@ =~= body_of(page@));
    }
    let (pos, found) = match crate::search::search_branch_elements(
        body_slice,
        n - 1,
        new_key,
    ) {
        Ok(p) => p,
        Err(_) => {
            proof {
                if wf {
                    assert(false);
                }
            }
            return Err(BTreeError::CorruptPageType { page_id, raw_type: hdr.page_type });
        },
    };
    proof {
        if wf {
            if found {
                assert(entries[pos as int].0 == branch_key(body_of(page@), pos as int));
                assert(false);
            }
            assert(pos as int == pos_s);
            lemma_seps_le_bounds(entries, new_key@, count);
        }
    }
    out.insert(pos, (vstd::slice::slice_to_vec(new_key), new_child));
    proof {
        if wf {
            assert(entries_views(out@) =~= ins);
        }
    }
    let total = out.len();
    let split_idx = total / 2;
    let ghost left_v = ins.take(split_idx as int);
    let ghost right_v = ins.skip(split_idx as int).update(0, (Seq::<u8>::empty(), ins[split_idx as int].1));
    let mut left_total: usize = 0;
    let mut i: usize = 0;
    while i < split_idx
        invariant
            0 < split_idx < total,
            total == out@.len(),
            split_idx == total / 2,
            wf == (branch_page_wf(page@) && new_key@.len() >= 1 && (forall|j: int|
                1 <= j <= page_count(page@) ==> (#[trigger] page_entries(page@)[j]).0 != new_key@)),
            ins == page_entries(page@).insert(
                seps_le(page_entries(page@), new_key@, page_count(page@)) + 1,
                (new_key@, new_child),
            ),
            0 <= i <= split_idx,
            wf ==> entries_views(out@) == ins && left_v == ins.take(split_idx as int) && ins.len()
                == total,
            wf ==> left_total == seps_size(left_v, i as int),
            left_total <= 4080 * i,
        decreases split_idx - i,
    {
        let pair = vstd::slice::slice_index_get(out.as_slice(), i);
        let kl = pair.0.len();
        if kl > 4080 || left_total > 4080 {
            proof {
                if wf {
                    lemma_seps_size_mono(left_v, i + 1, split_idx as int);
                    assert(!branch_fits(left_v));
                }
            }
            return Err(BTreeError::PageFull { page_id });
        }
        left_total = left_total + kl;
        i = i + 1;
    }
    if 16 * split_idx + left_total > 4080 {
        proof {
            if wf {
                assert(left_v.len() == split_idx as int);
                assert(!branch_fits(left_v));
            }
        }
        return Err(BTreeError::PageFull { page_id });
    }
    let mut right_total: usize = 0;
    proof {
        if wf {
            assert(right_v[0].0 =~= Seq::<u8>::empty());
            assert(seps_size(right_v, 0) == 0);
            assert(seps_size(right_v, 1) == 0);
        }
    }
    let mut i: usize = split_idx + 1;
    while i < total
        invariant
            0 < split_idx < total,
            total == out@.len(),
            split_idx == total / 2,
            wf == (branch_page_wf(page@) && new_key@.len() >= 1 && (forall|j: int|
                1 <= j <= page_count(page@) ==> (#[trigger] page_entries(page@)[j]).0 != new_key@)),
            ins == page_entries(page@).insert(
                seps_le(page_entries(page@), new_key@, page_count(page@)) + 1,
                (new_key@, new_child),
            ),
            split_idx + 1 <= i <= total,
            wf ==> entries_views(out@) == ins && right_v == ins.skip(split_idx as int).update(
                0,
                (Seq::<u8>::empty(), ins[split_idx as int].1),
            ) && ins.len() == total,
            wf ==> right_total == seps_size(right_v, i - split_idx),
            right_total <= 4080 * i,
        decreases total - i,
    {
        let pair = vstd::slice::slice_index_get(out.as_slice(), i);
        let kl = pair.0.len();
        if kl > 4080 || right_total > 4080 {
            proof {
                if wf {
                    lemma_seps_size_mono(right_v, i - split_idx + 1, total - split_idx);
                    assert(!branch_fits(right_v));
                }
            }
            return Err(BTreeError::PageFull { page_id });
        }
        right_total = right_total + kl;
        i = i + 1;
    }
    if 16 * (total - split_idx) + right_total > 4080 {
        proof {
            if wf {
                assert(right_v.len() == total - split_idx);
                assert(!branch_fits(right_v));
            }
        }
        return Err(BTreeError::PageFull { page_id });
    }
    proof {
        if wf {
            assert(left_v.len() == split_idx as int);
            assert(right_v.len() == total - split_idx);
            assert(branch_fits(left_v));
            assert(branch_fits(right_v));
        }
    }
    Ok((out, split_idx))
}

    /// Split branch `page_id` around a new `(separator, child)` entry: merge
    /// it in at its sorted slot, cut at the midpoint, rewrite the page as the
    /// left half and a fresh page as the right half (whose first child sits
    /// under the empty separator), and promote the cut entry's separator.
    #[verifier::rlimit(100)]
    #[verifier::spinoff_prover]
    fn split_branch(&mut self, page_id: u64, new_key: Vec<u8>, new_child_id: u64) -> (r: Result<Option<(Vec<u8>, u64)>, BTreeError>)
        requires
            old(self).wf(),
        ensures
            final(self).wf(),
            final(self).base() == old(self).base(),
            final(self).root() == old(self).root(),
            old(self).highest() <= final(self).highest(),
            branch_put_pre(*old(self), page_id, new_key@) ==> branch_split_effect(
                *old(self),
                *final(self),
                page_id,
                new_key@,
                new_child_id,
                r,
            ),
    {
        let ghost pre = *old(self);
        let ghost h = branch_put_pre(pre, page_id, new_key@);
        let page = match self.read_page(page_id) {
            Ok(p) => p,
            Err(e) => {
                return Err(e);
            },
        };
        let ghost count = page_count(page@);
        let ghost entries = page_entries(page@);
        let ghost pos_s = seps_le(entries, new_key@, count) + 1;
        let ghost ins = entries.insert(pos_s, (new_key@, new_child_id));
        let ghost s = ins.len() as int / 2;
        let (merged, split_idx) = match Self::branch_merge_entries(
            &page,
            page_id,
            new_key.as_slice(),
            new_child_id,
        ) {
            Ok(p) => p,
            Err(e) => {
                return Err(e);
            },
        };
        let total = merged.len();
        let ghost left_v = ins.take(s);
        let ghost right_v = ins.skip(s).update(0, (Seq::<u8>::empty(), ins[s].1));
        let new_page_id = match self.allocate_page() {
            Ok(pid) => pid,
            Err(e) => {
                return Err(e);
            },
        };
        let left = vstd::slice::slice_subrange(merged.as_slice(), 0, split_idx);
        proof {
            if h {
                assert(entries_views(left@) =~= left_v);
                assert(entries_sorted(ins)) by {
                    lemma_sorted_seps_le(entries, new_key@, count);
                    lemma_seps_le_bounds(entries, new_key@, count);
                    assert(0 <= pos_s <= entries.len());
                    assert forall|a: int| 1 <= a < ins.len() implies (#[trigger] ins[a]).0.len()
                        > 0 by {
                        if a < pos_s {
                            assert(ins[a] == entries[a]);
                            assert(branch_elem_wf(body_of(page@), count, a));
                        } else if a > pos_s {
                            assert(ins[a] == entries[a - 1]);
                            assert(branch_elem_wf(body_of(page@), count, a - 1));
                        }
                    }
                    assert(ins[0] == entries[0]);
                    assert(branch_elem_wf(body_of(page@), count, 0));
                    assert(ins[0].0 =~= Seq::<u8>::empty());
                    assert forall|a: int, b: int| 1 <= a < b < ins.len() implies lex_lt(
                        (#[trigger] ins[a]).0,
                        (#[trigger] ins[b]).0,
                    ) by {
                        if b < pos_s {
                        } else if b == pos_s {
                            assert(ins[a] == entries[a]);
                            assert(!lex_lt(new_key@, entries[a].0));
                            crate::order::lemma_lex_total(new_key@, entries[a].0);
                        } else if a == pos_s {
                            assert(ins[b] == entries[b - 1]);
                            assert(lex_lt(new_key@, entries[b - 1].0));
                        } else if a < pos_s {
                            assert(ins[a] == entries[a] && ins[b] == entries[b - 1]);
                            if a == b - 1 {
                                assert(!lex_lt(new_key@, entries[a].0));
                                assert(lex_lt(new_key@, entries[b - 1].0));
                            }
                        }
                    }
                }
                assert(entries_sorted(left_v)) by {
                    assert(left_v[0] == ins[0]);
                    assert forall|a: int| 1 <= a < left_v.len() implies (#[trigger] left_v[a]).0.len()
                        > 0 by {
                        assert(left_v[a] == ins[a]);
                    }
                    assert forall|a: int, b: int| 1 <= a < b < left_v.len() implies lex_lt(
                        (#[trigger] left_v[a]).0,
                        (#[trigger] left_v[b]).0,
                    ) by {
                        assert(left_v[a] == ins[a] && left_v[b] == ins[b]);
                    }
                }
            }
        }
        match self.write_branch_page(page_id, left) {
            Ok(_) => (),
            Err(e) => {
                proof {
                    if h {
                        assert(false);
                    }
                }
                return Err(e);
            },
        }
        let mut right: Vec<(Vec<u8>, u64)> = Vec::new();
        let first_child = vstd::slice::slice_index_get(merged.as_slice(), split_idx).1;
        right.push((Vec::new(), first_child));
        let mut i: usize = split_idx + 1;
        while i < total
            invariant
                0 < split_idx < total,
                total == merged@.len(),
                split_idx + 1 <= i <= total,
                right@.len() == i - split_idx,
                h ==> entries_views(merged@) == ins && right_v == ins.skip(s).update(
                    0,
                    (Seq::<u8>::empty(), ins[s].1),
                ) && s == split_idx as int && ins.len() == total,
                h ==> entries_views(right@) == right_v.take(i - split_idx),
            decreases total - i,
        {
            let pair = vstd::slice::slice_index_get(merged.as_slice(), i);
            let k = vstd::slice::slice_to_vec(pair.0.as_slice());
            right.push((k, pair.1));
            proof {
                if h {
                    assert(entries_views(right@) =~= right_v.take(i + 1 - split_idx));
                }
            }
            i = i + 1;
        }
        proof {
            if h {
                assert(right_v.take(total - split_idx) =~= right_v);
                assert(entries_views(right@) == right_v);
                assert(entries_sorted(right_v)) by {
                    assert(right_v[0].0 =~= Seq::<u8>::empty());
                    assert forall|a: int| 1 <= a < right_v.len() implies (#[trigger] right_v[a]).0.len()
                        > 0 by {
                        assert(right_v[a] == ins[a + s]);
                    }
                    assert forall|a: int, b: int| 1 <= a < b < right_v.len() implies lex_lt(
                        (#[trigger] right_v[a]).0,
                        (#[trigger] right_v[b]).0,
                    ) by {
                        assert(right_v[a] == ins[a + s] && right_v[b] == ins[b + s]);
                    }
                }
            }
        }
        match self.write_branch_page(new_page_id, right.as_slice()) {
            Ok(_) => (),
            Err(e) => {
                proof {
                    if h {
                        assert(false);
                    }
                }
                return Err(e);
            },
        }
        let sep_pair = vstd::slice::slice_index_get(merged.as_slice(), split_idx);
        let separator = vstd::slice::slice_to_vec(sep_pair.0.as_slice());
        proof {
            if h {
                assert(separator@ == ins[s].0);
                assert(self.store() =~= pre.store().insert(page_id, self.store()[page_id]).insert(
                    new_page_id,
                    self.store()[new_page_id],
                ));
                assert(self.dirty() =~= pre.dirty().insert(page_id, self.store()[page_id]).insert(
                    new_page_id,
                    self.store()[new_page_id],
                ));
            }
        }
        Ok(Some((separator, new_page_id)))
    }
    /// Install a fresh branch root over the old root and a newly split-off
    /// page: its two children are the old root (under the empty separator) and
    /// the new page (under the promoted separator).
    fn split_root(&mut self, separator_key: Vec<u8>, new_page_id: u64) -> (r: Result<(), BTreeError>)
        requires
            old(self).wf(),
        ensures
            final(self).wf(),
            final(self).base() == old(self).base(),
            old(self).highest() <= final(self).highest(),
            ({
                let can_alloc = old(self).free().len() > 0 || old(self).highest() < u64::MAX;
                let nroot = next_alloc(*old(self));
                if separator_key@.len() <= 4048 && can_alloc {
                    &&& r == Ok::<(), BTreeError>(())
                    &&& final(self).root() == nroot
                    &&& final(self).highest() == if old(self).free().len() > 0 {
                        old(self).highest()
                    } else {
                        (old(self).highest() + 1) as u64
                    }
                    &&& final(self).free() == if old(self).free().len() > 0 {
                        old(self).free().drop_last()
                    } else {
                        old(self).free()
                    }
                    &&& final(self).store() == old(self).store().insert(
                        nroot,
                        final(self).store()[nroot],
                    )
                    &&& final(self).dirty() == old(self).dirty().insert(
                        nroot,
                        final(self).store()[nroot],
                    )
                    &&& page_entries(final(self).store()[nroot]) == seq![
                        (Seq::<u8>::empty(), old(self).root()),
                        (separator_key@, new_page_id),
                    ]
                    &&& page_header_of(final(self).store()[nroot]).id == nroot
                    &&& (separator_key@.len() >= 1 ==> branch_page_wf(final(self).store()[nroot]))
                } else {
                    &&& (r matches Err(e) && e matches BTreeError::PageFull { .. })
                    &&& txn_unchanged(*old(self), *final(self))
                    &&& final(self).root() == old(self).root()
                }
            }),
    {
        if separator_key.len() > 4048 {
            return Err(BTreeError::PageFull { page_id: self.root_page_id });
        }
        let old_root_id = self.root_page_id;
        let new_root_id = match self.allocate_page() {
            Ok(pid) => pid,
            Err(e) => {
                return Err(e);
            },
        };
        let mut entries: Vec<(Vec<u8>, u64)> = Vec::new();
        entries.push((Vec::new(), old_root_id));
        entries.push((separator_key, new_page_id));
        let ghost views = entries_views(entries@);
        proof {
            assert(views =~= seq![
                (Seq::<u8>::empty(), old_root_id),
                (entries@[1].0@, new_page_id),
            ]);
            assert(seps_size(views, 0) == 0);
            assert(seps_size(views, 1) == 0);
            assert(seps_size(views, 2) == views[1].0.len());
            assert(branch_fits(views));
            if views[1].0.len() >= 1 {
                crate::order::lemma_lex_empty(views[1].0);
                assert(entries_sorted(views));
            }
        }
        match self.write_branch_page(new_root_id, entries.as_slice()) {
            Ok(_) => (),
            Err(e) => {
                // A two-entry page always fits; the write cannot refuse it.
                assert(false);
                return Err(e);
            },
        }
        self.root_page_id = new_root_id;
        proof {
            assert(self.store() =~= old(self).store().insert(new_root_id, self.store()[new_root_id]));
            assert(self.dirty() =~= old(self).dirty().insert(new_root_id, self.store()[new_root_id]));
        }
        Ok(())
    }

    /// The child of branch `page_id` whose subtree covers `for_key`: the child
    /// at the matching separator, or the one just left of the insertion slot.
    fn find_child_page(&self, page_id: u64, for_key: &[u8]) -> (r: Result<u64, BTreeError>)
        requires
            self.wf(),
        ensures
            (self.store().contains_key(page_id) && branch_page_wf(self.store()[page_id])) ==> r
                == Ok::<u64, BTreeError>(
                branch_child_for(page_entries(self.store()[page_id]), for_key@),
            ),
    {
        let ghost h = self.store().contains_key(page_id) && branch_page_wf(
            self.store()[page_id],
        );
        let page = match self.read_page(page_id) {
            Ok(p) => p,
            Err(e) => {
                return Err(e);
            },
        };
        let ghost body0 = body_of(page@);
        let ghost entries0 = page_entries(page@);
        let hdr = read_page_header(page.as_slice());
        let count = hdr.count as usize;
        if count > 254 {
            proof {
                if h {
                    assert(false);
                }
            }
            return Err(BTreeError::CorruptPageType { page_id, raw_type: hdr.page_type });
        }
        let body_slice = vstd::slice::slice_subrange(page.as_slice(), 16, 4096);
        proof {
            assert(body_slice@ =~= body0);
        }
        let (result_index, found) = match crate::search::search_branch_elements(
            body_slice,
            count,
            for_key,
        ) {
            Ok(p) => p,
            Err(_) => {
                proof {
                    if h {
                        assert(false);
                    }
                }
                return Err(BTreeError::CorruptPageType { page_id, raw_type: hdr.page_type });
            },
        };
        let child_index = if found {
            result_index
        } else {
            result_index - 1
        };
        let e = read_branch_element(page.as_slice(), child_index);
        proof {
            if h {
                assert(child_index as int == seps_le(entries0, for_key@, count as int));
                assert(entries0[child_index as int].1 == e.page_id);
            }
        }
        Ok(e.page_id)
    }

    /// Descend from `page_id` to the leaf covering `key`, bind the pair there,
    /// and absorb any separator a split hands back up. `depth` bounds the
    /// descent; a tree deeper than it is treated as corrupt.
    fn insert_recursive(&mut self, page_id: u64, key: &[u8], value: &[u8], depth: u64) -> (r: Result<Option<(Vec<u8>, u64)>, BTreeError>)
        requires
            old(self).wf(),
        ensures
            final(self).wf(),
            final(self).base() == old(self).base(),
            final(self).root() == old(self).root(),
            old(self).highest() <= final(self).highest(),
            (depth >= 1 && old(self).store().contains_key(page_id) && leaf_page_wf(
                old(self).store()[page_id],
            )) ==> leaf_put_effect(*old(self), *final(self), page_id, key@, value@, r),
        decreases depth,
    {
        let ghost h = old(self).store().contains_key(page_id) && leaf_page_wf(
            old(self).store()[page_id],
        );
        if depth == 0 {
            return Err(BTreeError::Db(DbError::PageFormat));
        }
        let page_type = match self.get_page_type(page_id) {
            Ok(t) => t,
            Err(e) => {
                proof {
                    if h {
                        assert(false);
                    }
                }
                return Err(e);
            },
        };
        match page_type {
            PageType::Leaf => self.insert_into_leaf(page_id, key, value),
            PageType::Branch => {
                proof {
                    if h {
                        assert(false);
                    }
                }
                let child_page_id = match self.find_child_page(page_id, key) {
                    Ok(c) => c,
                    Err(e) => {
                        return Err(e);
                    },
                };
                match self.insert_recursive(child_page_id, key, value, depth - 1) {
                    Ok(Some((sep_key, new_child_id))) => self.insert_into_branch(
                        page_id,
                        sep_key,
                        new_child_id,
                    ),
                    Ok(None) => Ok(None),
                    Err(e) => Err(e),
                }
            },
            _ => {
                proof {
                    if h {
                        assert(false);
                    }
                }
                Err(BTreeError::InvalidPageType { page_id, page_type })
            },
        }
    }

    /// Bind `key` to `value` in the tree. A split that reaches the root
    /// installs a fresh branch root over the old root and the split-off page.
    #[verifier::rlimit(60)]
    #[verifier::spinoff_prover]
    pub fn insert(&mut self, key: &[u8], value: &[u8]) -> (r: Result<(), BTreeError>)
        requires
            old(self).wf(),
        ensures
            final(self).wf(),
            final(self).base() == old(self).base(),
            old(self).highest() <= final(self).highest(),
            // A change of root only comes from a successful root split: the
            // new root is a one-separator branch whose left child is the old
            // root.
            final(self).root() != old(self).root() ==> r == Ok::<(), BTreeError>(())
                && final(self).store().contains_key(final(self).root()) && page_entries(
                final(self).store()[final(self).root()],
            ).len() == 2 && page_entries(final(self).store()[final(self).root()])[0].1 == old(
                self,
            ).root(),
            // When the root is a well-formed leaf and no split is needed, the
            // bind is exact: the root leaf now holds the merged pairs.
            ({
                let rootid = old(self).root();
                let p = old(self).store()[rootid];
                (old(self).store().contains_key(rootid) && leaf_page_wf(p) && (key@.len() > 65535
                    || value@.len() > 65535 || 8 * (page_count(p) + 1) + key@.len() + value@.len()
                    <= leaf_min_kptr(body_of(p), page_count(p)))) ==> leaf_put_effect(
                    *old(self),
                    *final(self),
                    rootid,
                    key@,
                    value@,
                    match r {
                        Ok(u) => Ok(None),
                        Err(e) => Err(e),
                    },
                )
            }),
            // When the root is a well-formed leaf that must split and both
            // halves and the new branch root fit, the first root split is
            // exact: the merged pairs are cut at the midpoint across the old
            // root and a fresh leaf, under a fresh one-separator branch root.
            ({
                let rootid = old(self).root();
                let p = old(self).store()[rootid];
                let merged = kvs_put(page_kvs(p), key@, value@);
                let s = (merged.len() + 1) as int / 2;
                let npid = (old(self).highest() + 1) as u64;
                let nroot = (old(self).highest() + 2) as u64;
                (old(self).store().contains_key(rootid) && leaf_page_wf(p) && key@.len() <= 65535
                    && value@.len() <= 65535 && !(8 * (page_count(p) + 1) + key@.len()
                    + value@.len() <= leaf_min_kptr(body_of(p), page_count(p))) && merged.len()
                    >= 2 && leaf_fits(merged.take(s)) && leaf_fits(merged.skip(s)) && old(
                    self,
                ).free().len() == 0 && old(self).highest() <= u64::MAX - 2 && rootid <= old(
                    self,
                ).highest() && merged[s].0.len() <= 4048) ==> {
                    &&& r == Ok::<(), BTreeError>(())
                    &&& final(self).root() == nroot
                    &&& final(self).highest() == (old(self).highest() + 2) as u64
                    &&& final(self).store().contains_key(rootid)
                    &&& page_kvs(final(self).store()[rootid]) == merged.take(s)
                    &&& leaf_page_wf(final(self).store()[rootid])
                    &&& final(self).store().contains_key(npid)
                    &&& page_kvs(final(self).store()[npid]) == merged.skip(s)
                    &&& leaf_page_wf(final(self).store()[npid])
                    &&& final(self).store().contains_key(nroot)
                    &&& page_entries(final(self).store()[nroot]) == seq![
                        (Seq::<u8>::empty(), rootid),
                        (merged[s].0, npid),
                    ]
                    &&& branch_page_wf(final(self).store()[nroot])
                }
            }),
    {
        let ghost pre = *old(self);
        let ghost rootid = pre.root();
        let ghost p = pre.store()[rootid];
        let ghost merged = kvs_put(page_kvs(p), key@, value@);
        let ghost s = (merged.len() + 1) as int / 2;
        let ghost h_split = pre.store().contains_key(rootid) && leaf_page_wf(p) && key@.len()
            <= 65535 && value@.len() <= 65535 && !(8 * (page_count(p) + 1) + key@.len()
            + value@.len() <= leaf_min_kptr(body_of(p), page_count(p))) && merged.len() >= 2
            && leaf_fits(merged.take(s)) && leaf_fits(merged.skip(s)) && pre.free().len() == 0
            && pre.highest() <= u64::MAX - 2 && rootid <= pre.highest() && merged[s].0.len()
            <= 4048;
        let root = self.root_page_id;
        let depth = if self.highest_page_id < u64::MAX {
            self.highest_page_id + 1
        } else {
            u64::MAX
        };
        let rr = self.insert_recursive(root, key, value, depth);
        let ghost mid = *self;
        match rr {
            Ok(Some((separator_key, new_page_id))) => {
                proof {
                    if h_split {
                        assert(separator_key@ == merged[s].0);
                        assert(new_page_id == (pre.highest() + 1) as u64);
                        assert(mid.root() == rootid);
                        assert(mid.highest() == (pre.highest() + 1) as u64);
                        assert(mid.free() == pre.free());
                    }
                }
                let res = self.split_root(separator_key, new_page_id);
                proof {
                    if h_split {
                        let npid = (pre.highest() + 1) as u64;
                        let nroot = (pre.highest() + 2) as u64;
                        // The promoted separator is a real key: it sits above
                        // the smallest merged key, and nothing lies below the
                        // empty string.
                        assert(merged[s].0.len() >= 1) by {
                            assert(kvs_sorted(page_kvs(p))) by {
                                let kvs0 = page_kvs(p);
                                assert forall|i: int, j: int|
                                    0 <= i < j < kvs0.len() implies lex_lt(
                                    (#[trigger] kvs0[i]).0,
                                    (#[trigger] kvs0[j]).0,
                                ) by {
                                    assert(kvs0[i].0 == leaf_key(body_of(p), i));
                                    assert(kvs0[j].0 == leaf_key(body_of(p), j));
                                }
                            }
                            lemma_kvs_put_sorted(page_kvs(p), key@, value@);
                            assert(lex_lt(merged[0].0, merged[s].0));
                        }
                        assert(res == Ok::<(), BTreeError>(()));
                        assert(self.root() == nroot);
                        assert(self.store() == mid.store().insert(nroot, self.store()[nroot]));
                        assert(self.store()[rootid] == mid.store()[rootid]);
                        assert(self.store()[npid] == mid.store()[npid]);
                        assert(page_kvs(self.store()[rootid]) == merged.take(s));
                        assert(page_kvs(self.store()[npid]) == merged.skip(s));
                        assert(page_entries(self.store()[nroot]) == seq![
                            (Seq::<u8>::empty(), rootid),
                            (merged[s].0, npid),
                        ]);
                    }
                }
                res
            },
            Ok(None) => {
                proof {
                    if h_split {
                        assert(false);
                    }
                }
                Ok(())
            },
            Err(e) => {
                proof {
                    if h_split {
                        assert(false);
                    }
                }
                Err(e)
            },
        }
    }

}

} // verus!
