//! The tree seen as a whole: a store of pages, well-formedness of the B+tree
//! rooted at a page (strictly increasing separators, every key inside the
//! bounds its ancestors route to it), and the lookup a reader's descent
//! computes.

use crate::btree::{page_at, page_in_bounds};
use crate::order::lex_lt;
use crate::page::{body_of, branch_child_for, branch_page_wf, kvs_get, leaf_key, leaf_page_wf, page_count, page_entries, page_kvs};
use vstd::prelude::*;

verus! {

/// The pages of a flat byte region (a mapped database file).
pub open spec fn read_store(bytes: Seq<u8>) -> Map<u64, Seq<u8>> {
    Map::new(
        |pid: u64| page_in_bounds(pid, bytes.len() as int),
        |pid: u64| page_at(bytes, pid),
    )
}

/// `key` lies inside the half-open window `[lo, hi)`; `None` is unbounded.
pub open spec fn key_in_range(key: Seq<u8>, lo: Option<Seq<u8>>, hi: Option<Seq<u8>>) -> bool {
    &&& (lo matches Some(l) ==> !lex_lt(key, l))
    &&& (hi matches Some(h) ==> lex_lt(key, h))
}

/// The lower bound a branch passes to its child `i`: its own bound for the
/// leftmost child, otherwise separator `i` (inclusive).
pub open spec fn child_lo(entries: Seq<(Seq<u8>, u64)>, lo: Option<Seq<u8>>, i: int) -> Option<
    Seq<u8>,
> {
    if i == 0 {
        lo
    } else {
        Some(entries[i].0)
    }
}

/// The upper bound a branch passes to its child `i`: its own bound for the
/// rightmost child, otherwise separator `i + 1` (exclusive).
pub open spec fn child_hi(
    entries: Seq<(Seq<u8>, u64)>,
    hi: Option<Seq<u8>>,
    count: int,
    i: int,
) -> Option<Seq<u8>> {
    if i == count {
        hi
    } else {
        Some(entries[i + 1].0)
    }
}

/// The page tree rooted at `pid` is a well-formed B+tree of height at most
/// `fuel` whose keys all lie in `[lo, hi)`: every page is a well-formed leaf
/// or branch, and every branch routes child `i` exactly the window between
/// separators `i` and `i + 1`.
pub open spec fn tree_wf(
    st: Map<u64, Seq<u8>>,
    pid: u64,
    fuel: nat,
    lo: Option<Seq<u8>>,
    hi: Option<Seq<u8>>,
) -> bool
    decreases fuel,
{
    &&& st.contains_key(pid)
    &&& {
        let p = st[pid];
        let count = page_count(p);
        ||| (leaf_page_wf(p) && (forall|i: int|
            0 <= i < count ==> key_in_range(#[trigger] leaf_key(body_of(p), i), lo, hi)))
        ||| (branch_page_wf(p) && fuel > 0 && {
            let entries = page_entries(p);
            &&& (forall|i: int| 1 <= i <= count ==> key_in_range(#[trigger] entries[i].0, lo, hi))
            &&& (forall|i: int|
                0 <= i <= count ==> tree_wf(
                    st,
                    (#[trigger] entries[i]).1,
                    (fuel - 1) as nat,
                    child_lo(entries, lo, i),
                    child_hi(entries, hi, count, i),
                ))
        })
    }
}

/// The value the tree rooted at `pid` associates with `key`: descend branches
/// by separator routing, then look the key up in the leaf.
pub open spec fn tree_get(st: Map<u64, Seq<u8>>, pid: u64, fuel: nat, key: Seq<u8>) -> Option<
    Seq<u8>,
>
    decreases fuel,
{
    if !st.contains_key(pid) {
        None
    } else {
        let p = st[pid];
        if p.len() == 4096 && p[8] == 3u8 {
            kvs_get(page_kvs(p), key)
        } else if p.len() == 4096 && p[8] == 4u8 && fuel > 0 {
            tree_get(st, branch_child_for(page_entries(p), key), (fuel - 1) as nat, key)
        } else {
            None
        }
    }
}

} // verus!
