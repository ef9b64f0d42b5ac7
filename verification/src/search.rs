//! Binary search over the sorted element directories of leaf and branch page
//! bodies. Each search returns `(index, found)`: the matching slot on
//! equality, otherwise the unique position that keeps the directory sorted.
//! A search fails only on a corrupt element (a directory or payload range
//! that leaves the body).

use crate::order::{compare_bytes, lemma_lex_total, lemma_lex_trans, lex_lt};
use crate::page::{branch_elem, branch_entries, branch_key, branch_wf, kvs_num_lt, leaf_elem, leaf_key, leaf_kvs, leaf_wf, lemma_num_lt_from_split, lemma_seps_le_from_split, seps_le};
use crate::codec::read_u16_at;
use vstd::prelude::*;
use vstd::slice::slice_subrange;

verus! {

/// What a successful leaf search says: `idx` is the number of keys strictly
/// below the search key, and `found` tells whether slot `idx` holds it.
pub open spec fn leaf_search_post(
    body: Seq<u8>,
    count: int,
    key: Seq<u8>,
    r: Result<(usize, bool), ()>,
) -> bool {
    &&& r is Ok
    &&& {
        let pr = r->Ok_0;
        let idx = pr.0 as int;
        let found = pr.1;
        &&& 0 <= idx <= count
        &&& idx == kvs_num_lt(leaf_kvs(body, count), key, count)
        &&& (found <==> idx < count && leaf_key(body, idx) == key)
        &&& (!found ==> forall|j: int| 0 <= j < idx ==> lex_lt(#[trigger] leaf_key(body, j), key))
        &&& (!found ==> forall|j: int| idx <= j < count ==> lex_lt(key, #[trigger] leaf_key(body, j)))
    }
}

/// Find `search_key` among the `element_count` sorted elements of a leaf body.
pub fn search_leaf_elements(page_body: &[u8], element_count: usize, search_key: &[u8]) -> (r:
    Result<(usize, bool), ()>)
    ensures
        (r matches Ok(pr) ==> pr.0 <= element_count && (pr.1 ==> pr.0 < element_count)),
        leaf_wf(page_body@, element_count as int) ==> leaf_search_post(
            page_body@,
            element_count as int,
            search_key@,
            r,
        ),
{
    let ghost body = page_body@;
    let ghost count = element_count as int;
    let ghost skey = search_key@;
    let blen = page_body.len();
    if element_count > 510 {
        return Err(());
    }
    let mut left: usize = 0;
    let mut right: usize = element_count;
    let mut insert_pos: usize = element_count;
    while left < right
        invariant
            body == page_body@,
            count == element_count as int,
            skey == search_key@,
            blen == body.len(),
            element_count <= 510,
            0 <= left <= right <= element_count,
            insert_pos == left || insert_pos == right,
            leaf_wf(body, count) ==> forall|j: int|
                0 <= j < left ==> lex_lt(#[trigger] leaf_key(body, j), skey),
            leaf_wf(body, count) ==> forall|j: int|
                right <= j < count ==> lex_lt(skey, #[trigger] leaf_key(body, j)),
        decreases right - left,
    {
        let mid = left + (right - left) / 2;
        proof {
            if leaf_wf(body, count) {
                assert(crate::page::leaf_elem_wf(body, count, mid as int));
            }
        }
        if 8 * mid + 8 > blen {
            return Err(());
        }
        let ksize = read_u16_at(page_body, 8 * mid);
        let kptr = read_u16_at(page_body, 8 * mid + 4);
        if kptr as usize + ksize as usize > blen {
            return Err(());
        }
        let stored_key = slice_subrange(page_body, kptr as usize, kptr as usize + ksize as usize);
        assert(leaf_wf(body, count) ==> stored_key@ == leaf_key(body, mid as int));
        match compare_bytes(stored_key, search_key) {
            core::cmp::Ordering::Equal => {
                proof {
                    if leaf_wf(body, count) {
                        assert(leaf_key(body, mid as int) == skey);
                        assert forall|j: int| 0 <= j < mid implies lex_lt(
                            #[trigger] leaf_key(body, j),
                            skey,
                        ) by {
                            assert(lex_lt(leaf_key(body, j), leaf_key(body, mid as int)));
                        }
                        assert forall|j: int| mid < j < count implies !lex_lt(
                            #[trigger] leaf_key(body, j),
                            skey,
                        ) by {
                            assert(lex_lt(leaf_key(body, mid as int), leaf_key(body, j)));
                            lemma_lex_total(leaf_key(body, j), skey);
                        }
                        lemma_lex_total(skey, skey);
                        lemma_num_lt_from_split(leaf_kvs(body, count), skey, mid as int, count);
                    }
                }
                return Ok((mid, true));
            },
            core::cmp::Ordering::Less => {
                proof {
                    if leaf_wf(body, count) {
                        assert forall|j: int| 0 <= j < mid + 1 implies lex_lt(
                            #[trigger] leaf_key(body, j),
                            skey,
                        ) by {
                            if j < mid {
                                lemma_lex_trans(leaf_key(body, j), leaf_key(body, mid as int), skey);
                            }
                        }
                    }
                }
                left = mid + 1;
                insert_pos = left;
            },
            core::cmp::Ordering::Greater => {
                proof {
                    if leaf_wf(body, count) {
                        assert forall|j: int| mid <= j < count implies lex_lt(
                            skey,
                            #[trigger] leaf_key(body, j),
                        ) by {
                            if j > mid {
                                lemma_lex_trans(skey, leaf_key(body, mid as int), leaf_key(body, j));
                            }
                        }
                    }
                }
                right = mid;
                insert_pos = mid;
            },
        }
    }
    proof {
        if leaf_wf(body, count) {
            assert forall|j: int| (insert_pos as int) <= j < count implies !lex_lt(
                #[trigger] leaf_key(body, j),
                skey,
            ) by {
                lemma_lex_total(leaf_key(body, j), skey);
            }
            lemma_num_lt_from_split(leaf_kvs(body, count), skey, insert_pos as int, count);
            assert forall|j: int| 0 <= j < count implies leaf_key(body, j) != skey by {
                lemma_lex_total(leaf_key(body, j), skey);
            }
        }
    }
    Ok((insert_pos, false))
}

/// What a successful branch search says: slots `1 ..` hold the separators;
/// `idx` points at the match or the insertion slot, and determines how many
/// separators are at or below the key (the child index for descent).
pub open spec fn branch_search_post(
    body: Seq<u8>,
    count: int,
    key: Seq<u8>,
    r: Result<(usize, bool), ()>,
) -> bool {
    &&& r is Ok
    &&& {
        let pr = r->Ok_0;
        let idx = pr.0 as int;
        let found = pr.1;
        &&& 1 <= idx <= count + 1
        &&& (found <==> idx <= count && branch_key(body, idx) == key)
        &&& (found ==> seps_le(branch_entries(body, count), key, count) == idx)
        &&& (!found ==> seps_le(branch_entries(body, count), key, count) == idx - 1)
        &&& (!found ==> forall|j: int| 1 <= j < idx ==> lex_lt(#[trigger] branch_key(body, j), key))
        &&& (!found ==> forall|j: int|
            idx <= j <= count ==> lex_lt(key, #[trigger] branch_key(body, j)))
    }
}

/// Find the position of `search_key` among the separators of a branch body.
/// Slot 0 carries no separator and is never probed.
pub fn search_branch_elements(page_body: &[u8], element_count: usize, search_key: &[u8]) -> (r:
    Result<(usize, bool), ()>)
    ensures
        (r matches Ok(pr) ==> 1 <= pr.0 <= element_count + 1 && (pr.1 ==> pr.0 <= element_count)),
        branch_wf(page_body@, element_count as int) ==> branch_search_post(
            page_body@,
            element_count as int,
            search_key@,
            r,
        ),
{
    let ghost body = page_body@;
    let ghost count = element_count as int;
    let ghost skey = search_key@;
    let ghost entries = branch_entries(body, count);
    let blen = page_body.len();
    if element_count > 254 {
        return Err(());
    }
    let mut left: usize = 1;
    let mut right: usize = element_count + 1;
    let mut insert_pos: usize = element_count + 1;
    while left < right
        invariant
            body == page_body@,
            count == element_count as int,
            skey == search_key@,
            entries == branch_entries(body, count),
            blen == body.len(),
            element_count <= 254,
            1 <= left <= right <= element_count + 1,
            insert_pos == left || insert_pos == right,
            branch_wf(body, count) ==> forall|j: int|
                1 <= j < left ==> lex_lt(#[trigger] branch_key(body, j), skey),
            branch_wf(body, count) ==> forall|j: int|
                right <= j <= count ==> lex_lt(skey, #[trigger] branch_key(body, j)),
        decreases right - left,
    {
        let mid = left + (right - left) / 2;
        proof {
            if branch_wf(body, count) {
                assert(crate::page::branch_elem_wf(body, count, mid as int));
            }
        }
        if 16 * mid + 16 > blen {
            return Err(());
        }
        let ksize = read_u16_at(page_body, 16 * mid + 8);
        let kptr = read_u16_at(page_body, 16 * mid + 10);
        if ksize == 0 {
            // A separator of size zero never occurs in a well-formed branch
            // above slot 0; treat it as larger than every key so the search
            // never dereferences it.
            assert(!branch_wf(body, count));
            right = mid;
            insert_pos = mid;
            continue;
        }
        if kptr as usize + ksize as usize > blen {
            return Err(());
        }
        let stored_key = slice_subrange(page_body, kptr as usize, kptr as usize + ksize as usize);
        assert(branch_wf(body, count) ==> stored_key@ == branch_key(body, mid as int));
        match compare_bytes(stored_key, search_key) {
            core::cmp::Ordering::Equal => {
                proof {
                    if branch_wf(body, count) {
                        assert(branch_key(body, mid as int) == skey);
                        assert forall|j: int| 1 <= j <= mid implies !lex_lt(
                            skey,
                            #[trigger] entries[j].0,
                        ) by {
                            assert(entries[j].0 == branch_key(body, j));
                            if j < mid {
                                assert(lex_lt(branch_key(body, j), branch_key(body, mid as int)));
                                lemma_lex_total(skey, branch_key(body, j));
                            } else {
                                lemma_lex_total(skey, skey);
                            }
                        }
                        assert forall|j: int| mid < j <= count implies lex_lt(
                            skey,
                            #[trigger] entries[j].0,
                        ) by {
                            assert(entries[j].0 == branch_key(body, j));
                            assert(lex_lt(branch_key(body, mid as int), branch_key(body, j)));
                        }
                        lemma_seps_le_from_split(entries, skey, mid as int, count);
                    }
                }
                return Ok((mid, true));
            },
            core::cmp::Ordering::Less => {
                proof {
                    if branch_wf(body, count) {
                        assert forall|j: int| 1 <= j < mid + 1 implies lex_lt(
                            #[trigger] branch_key(body, j),
                            skey,
                        ) by {
                            if j < mid {
                                lemma_lex_trans(
                                    branch_key(body, j),
                                    branch_key(body, mid as int),
                                    skey,
                                );
                            }
                        }
                    }
                }
                left = mid + 1;
                insert_pos = left;
            },
            core::cmp::Ordering::Greater => {
                proof {
                    if branch_wf(body, count) {
                        assert forall|j: int| mid <= j <= count implies lex_lt(
                            skey,
                            #[trigger] branch_key(body, j),
                        ) by {
                            if j > mid {
                                lemma_lex_trans(
                                    skey,
                                    branch_key(body, mid as int),
                                    branch_key(body, j),
                                );
                            }
                        }
                    }
                }
                right = mid;
                insert_pos = mid;
            },
        }
    }
    proof {
        if branch_wf(body, count) {
            assert forall|j: int| 1 <= j < (insert_pos as int) implies !lex_lt(
                skey,
                #[trigger] entries[j].0,
            ) by {
                assert(entries[j].0 == branch_key(body, j));
                assert(lex_lt(branch_key(body, j), skey));
                lemma_lex_total(skey, branch_key(body, j));
            }
            assert forall|j: int| (insert_pos as int) <= j <= count implies lex_lt(
                skey,
                #[trigger] entries[j].0,
            ) by {
                assert(entries[j].0 == branch_key(body, j));
            }
            lemma_seps_le_from_split(entries, skey, insert_pos as int - 1, count);
            assert forall|j: int| 1 <= j <= count implies branch_key(body, j) != skey by {
                lemma_lex_total(branch_key(body, j), skey);
            }
        }
    }
    Ok((insert_pos, false))
}

/// Half-open binary search over `[start, end)` through a comparator that maps
/// an index to how its element stands relative to the search key. `ord` names
/// the comparator's verdicts; they must be sorted (nothing at or above the key
/// may be followed by anything below it). Returns the matching index, or the
/// unique insertion position that keeps the range sorted. Fails only if the
/// comparator fails.
pub fn binary_search<F: Fn(usize) -> Result<core::cmp::Ordering, ()>>(
    start: usize,
    end: usize,
    compare: F,
    Ghost(ord): Ghost<spec_fn(int) -> core::cmp::Ordering>,
) -> (r: Result<(usize, bool), ()>)
    requires
        start <= end,
        forall|i: usize| start <= i < end ==> call_requires(compare, (i,)),
        forall|i: usize, o: core::cmp::Ordering|
            start <= i < end && call_ensures(compare, (i,), Ok(o)) ==> o == ord(i as int),
        forall|i: int, j: int|
            start <= i < j < end && !((#[trigger] ord(i)) is Less) ==> (#[trigger] ord(j)) is Greater,
    ensures
        (r matches Ok(pr) ==> {
            &&& start <= pr.0 <= end
            &&& (pr.1 ==> pr.0 < end && ord(pr.0 as int) is Equal)
            &&& (!pr.1 ==> (forall|j: int| start <= j < pr.0 ==> (#[trigger] ord(j)) is Less) && (
            forall|j: int| pr.0 <= j < end ==> (#[trigger] ord(j)) is Greater))
        }),
        (forall|i: usize| start <= i < end ==> !call_ensures(compare, (i,), Err(()))) ==> r is Ok,
{
    let mut left = start;
    let mut right = end;
    let mut insert_pos = end;
    while left < right
        invariant
            start <= left <= right <= end,
            insert_pos == left || insert_pos == right,
            forall|i: usize| start <= i < end ==> call_requires(compare, (i,)),
            forall|i: usize, o: core::cmp::Ordering|
                start <= i < end && call_ensures(compare, (i,), Ok(o)) ==> o == ord(i as int),
            forall|i: int, j: int|
                start <= i < j < end && !((#[trigger] ord(i)) is Less) ==> (#[trigger] ord(j)) is Greater,
            forall|j: int| start <= j < left ==> (#[trigger] ord(j)) is Less,
            forall|j: int| right <= j < end ==> (#[trigger] ord(j)) is Greater,
        decreases right - left,
    {
        let mid = left + (right - left) / 2;
        let cres = compare(mid);
        let c = match cres {
            Ok(o) => o,
            Err(e) => {
                proof {
                    assert(e == ());
                    assert(call_ensures(compare, (mid,), Err::<core::cmp::Ordering, ()>(())));
                }
                return Err(());
            },
        };
        match c {
            core::cmp::Ordering::Equal => {
                return Ok((mid, true));
            },
            core::cmp::Ordering::Less => {
                proof {
                    assert forall|j: int| start <= j < mid + 1 implies (#[trigger] ord(j)) is Less by {
                        if j < mid && !(ord(j) is Less) {
                            assert(ord(mid as int) is Greater);
                        }
                    }
                }
                left = mid + 1;
                insert_pos = left;
            },
            core::cmp::Ordering::Greater => {
                proof {
                    assert forall|j: int| mid <= j < end implies (#[trigger] ord(j)) is Greater by {
                        if j > mid {
                            assert(!(ord(mid as int) is Less));
                        }
                    }
                }
                right = mid;
                insert_pos = mid;
            },
        }
    }
    Ok((insert_pos, false))
}

} // verus!
