//! Laws of the engine, stated once over the models the contracts use and
//! proved for every input: point reads after writes, last-write-wins,
//! page-layout arithmetic, the order facts a split establishes, header
//! monotonicity across a commit, and the indifference of a snapshot read to
//! anything but its own captured state.

use crate::db::Header;
use crate::order::{lemma_lex_total, lex_lt};
use crate::page::{kvs_get, kvs_put, kvs_sorted, leaf_elem, leaf_elem_wf, leaf_min_kptr, leaf_wf, lemma_kvs_put_get, lemma_kvs_put_get_other, lemma_kvs_put_sorted};
use crate::tree::{tree_get, tree_wf};
use vstd::prelude::*;

verus! {

/// Point read: binding a key makes it read back the bound value, and leaves
/// every other key reading exactly as before.
pub proof fn lemma_point_read(
    kvs: Seq<(Seq<u8>, Seq<u8>)>,
    key: Seq<u8>,
    value: Seq<u8>,
    other: Seq<u8>,
)
    requires
        kvs_sorted(kvs),
        other != key,
    ensures
        kvs_get(kvs_put(kvs, key, value), key) == Some(value),
        kvs_get(kvs_put(kvs, key, value), other) == kvs_get(kvs, other),
        kvs_sorted(kvs_put(kvs, key, value)),
{
    lemma_kvs_put_get(kvs, key, value);
    lemma_kvs_put_get_other(kvs, key, value, other);
    lemma_kvs_put_sorted(kvs, key, value);
}

/// Last write wins: binding the same key twice reads back the second value
/// only, whatever was bound first.
pub proof fn lemma_last_write_wins(
    kvs: Seq<(Seq<u8>, Seq<u8>)>,
    key: Seq<u8>,
    v1: Seq<u8>,
    v2: Seq<u8>,
)
    requires
        kvs_sorted(kvs),
    ensures
        kvs_get(kvs_put(kvs_put(kvs, key, v1), key, v2), key) == Some(v2),
{
    lemma_kvs_put_sorted(kvs, key, v1);
    lemma_kvs_put_get(kvs_put(kvs, key, v1), key, v2);
}

/// Page arithmetic: in a well-formed leaf the directory ends at or below the
/// heap floor, and every payload range lies between the directory end and the
/// body end.
pub proof fn lemma_page_arithmetic(body: Seq<u8>, count: int)
    requires
        leaf_wf(body, count),
    ensures
        8 * count <= leaf_min_kptr(body, count),
        forall|i: int|
            0 <= i < count ==> {
                let e = #[trigger] leaf_elem(body, i);
                8 * count <= e.kptr && e.kptr <= e.vptr && e.vptr + e.vsize <= 4080
            },
{
    assert forall|i: int| 0 <= i < count implies {
        let e = #[trigger] leaf_elem(body, i);
        8 * count <= e.kptr && e.kptr <= e.vptr && e.vptr + e.vsize <= 4080
    } by {
        assert(leaf_elem_wf(body, count, i));
    }
    lemma_min_kptr_ge(body, count, count);
}

proof fn lemma_min_kptr_ge(body: Seq<u8>, count: int, n: int)
    requires
        leaf_wf(body, count),
        0 <= n <= count,
    ensures
        8 * count <= leaf_min_kptr(body, n),
    decreases n,
{
    if n > 0 {
        lemma_min_kptr_ge(body, count, n - 1);
        assert(leaf_elem_wf(body, count, n - 1));
    }
}

/// What a split separates: cutting a sorted pair sequence at `s` puts every
/// left key strictly below the separator (the first right key) and every
/// right key at or above it.
pub proof fn lemma_split_separates(kvs: Seq<(Seq<u8>, Seq<u8>)>, s: int)
    requires
        kvs_sorted(kvs),
        0 <= s < kvs.len(),
    ensures
        forall|i: int| 0 <= i < s ==> lex_lt((#[trigger] kvs.take(s)[i]).0, kvs[s].0),
        forall|j: int| 0 <= j < kvs.len() - s ==> !lex_lt((#[trigger] kvs.skip(s)[j]).0, kvs[s].0),
{
    assert forall|i: int| 0 <= i < s implies lex_lt((#[trigger] kvs.take(s)[i]).0, kvs[s].0) by {
        assert(kvs.take(s)[i] == kvs[i]);
    }
    assert forall|j: int| 0 <= j < kvs.len() - s implies !lex_lt(
        (#[trigger] kvs.skip(s)[j]).0,
        kvs[s].0,
    ) by {
        assert(kvs.skip(s)[j] == kvs[j + s]);
        if j == 0 {
            lemma_lex_total(kvs[s].0, kvs[s].0);
        } else {
            lemma_lex_total(kvs[j + s].0, kvs[s].0);
        }
    }
}

/// Header monotonicity: a successful commit writes a header whose transaction
/// id strictly increases and whose highest page id never falls.
pub proof fn lemma_header_monotonic(pre: Header, post: Header, new_highest: u64, new_root: u64)
    requires
        pre.tx_id < u64::MAX,
        pre.highest_page_id <= new_highest,
        post == (Header {
            root_page_id: new_root,
            highest_page_id: new_highest,
            tx_id: (pre.tx_id + 1) as u64,
            ..pre
        }),
    ensures
        post.tx_id > pre.tx_id,
        post.highest_page_id >= pre.highest_page_id,
{
}

/// Snapshot isolation: what a read returns is a function of the snapshot's own
/// captured store and root alone. Two snapshots that captured the same state
/// answer every key equally, whatever commits happened in between.
pub proof fn lemma_snapshot_isolation(
    st1: Map<u64, Seq<u8>>,
    st2: Map<u64, Seq<u8>>,
    root: u64,
    fuel: nat,
    key: Seq<u8>,
)
    requires
        st1 == st2,
    ensures
        tree_get(st1, root, fuel, key) == tree_get(st2, root, fuel, key),
        tree_wf(st1, root, fuel, None, None) == tree_wf(st2, root, fuel, None, None),
{
}

/// Write then read, end to end on a one-leaf tree: after a fitting insert
/// into a well-formed root leaf, the tree read of the written key returns
/// exactly the written value, and every other key reads as before.
pub proof fn lemma_root_leaf_insert_then_get<'a>(
    pre: crate::btree::WriteTxn<'a>,
    post: crate::btree::WriteTxn<'a>,
    root: u64,
    key: Seq<u8>,
    value: Seq<u8>,
    other: Seq<u8>,
    fuel: nat,
)
    requires
        pre.store().contains_key(root),
        crate::page::leaf_page_wf(pre.store()[root]),
        key.len() <= 65535,
        value.len() <= 65535,
        8 * (crate::page::page_count(pre.store()[root]) + 1) + key.len() + value.len()
            <= crate::page::leaf_min_kptr(
            crate::page::body_of(pre.store()[root]),
            crate::page::page_count(pre.store()[root]),
        ),
        crate::btree::leaf_put_effect(
            pre,
            post,
            root,
            key,
            value,
            Ok::<Option<(Vec<u8>, u64)>, crate::btree::BTreeError>(None),
        ),
        other != key,
    ensures
        tree_get(post.store(), root, fuel, key) == Some(value),
        tree_get(post.store(), root, fuel, other) == tree_get(pre.store(), root, fuel, other),
{
    let p0 = pre.store()[root];
    let p2 = post.store()[root];
    let kvs0 = crate::page::page_kvs(p0);
    assert(crate::page::page_kvs(p2) == kvs_put(kvs0, key, value));
    assert(crate::page::leaf_page_wf(p2));
    assert(kvs_sorted(kvs0)) by {
        assert forall|i: int, j: int| 0 <= i < j < kvs0.len() implies lex_lt(
            (#[trigger] kvs0[i]).0,
            (#[trigger] kvs0[j]).0,
        ) by {
            let body = crate::page::body_of(p0);
            let count = crate::page::page_count(p0);
            assert(kvs0[i].0 == crate::page::leaf_key(body, i));
            assert(kvs0[j].0 == crate::page::leaf_key(body, j));
        }
    }
    lemma_kvs_put_get(kvs0, key, value);
    lemma_kvs_put_get_other(kvs0, key, value, other);
    assert(post.store().contains_key(root));
    assert(p2.len() == 4096 && p2[8] == 3u8);
    assert(tree_get(post.store(), root, fuel, key) == kvs_get(crate::page::page_kvs(p2), key));
    assert(p0.len() == 4096 && p0[8] == 3u8);
    assert(tree_get(pre.store(), root, fuel, other) == kvs_get(kvs0, other));
}

/// Subtree bounds: a well-formed tree holds no key outside the window its
/// ancestors route to it, so a lookup of such a key comes back empty. This is
/// what makes separator routing sound: the one descent the reader takes is
/// the only place the key could live.
pub proof fn lemma_subtree_bounds(
    st: Map<u64, Seq<u8>>,
    pid: u64,
    fuel: nat,
    lo: Option<Seq<u8>>,
    hi: Option<Seq<u8>>,
    key: Seq<u8>,
)
    requires
        tree_wf(st, pid, fuel, lo, hi),
        !crate::tree::key_in_range(key, lo, hi),
    ensures
        tree_get(st, pid, fuel, key) is None,
    decreases fuel,
{
    let p = st[pid];
    let count = crate::page::page_count(p);
    if crate::page::leaf_page_wf(p) && (forall|i: int|
        0 <= i < count ==> crate::tree::key_in_range(
            #[trigger] crate::page::leaf_key(crate::page::body_of(p), i),
            lo,
            hi,
        )) {
        let kvs = crate::page::page_kvs(p);
        assert(kvs_sorted(kvs)) by {
            assert forall|i: int, j: int| 0 <= i < j < kvs.len() implies lex_lt(
                (#[trigger] kvs[i]).0,
                (#[trigger] kvs[j]).0,
            ) by {
                assert(kvs[i].0 == crate::page::leaf_key(crate::page::body_of(p), i));
                assert(kvs[j].0 == crate::page::leaf_key(crate::page::body_of(p), j));
            }
        }
        crate::page::lemma_sorted_get_mem(kvs, key);
        if kvs_get(kvs, key) is Some {
            let j = choose|j: int| 0 <= j < kvs.len() && (#[trigger] kvs[j]).0 == key;
            assert(kvs[j].0 == crate::page::leaf_key(crate::page::body_of(p), j));
            assert(crate::tree::key_in_range(key, lo, hi));
        }
    } else {
        let entries = crate::page::page_entries(p);
        crate::page::lemma_seps_le_bounds(entries, key, count);
        let i = crate::page::seps_le(entries, key, count);
        let clo = crate::tree::child_lo(entries, lo, i);
        let chi = crate::tree::child_hi(entries, hi, count, i);
        assert(tree_wf(st, entries[i].1, (fuel - 1) as nat, clo, chi));
        assert(!crate::tree::key_in_range(key, clo, chi)) by {
            if lo is Some && lex_lt(key, lo->Some_0) {
                let l = lo->Some_0;
                if i >= 1 {
                    assert(crate::tree::key_in_range(entries[i].0, lo, hi));
                    lemma_lex_total(entries[i].0, l);
                    if entries[i].0 == l {
                    } else {
                        assert(lex_lt(l, entries[i].0));
                        crate::order::lemma_lex_trans(key, l, entries[i].0);
                    }
                }
            } else {
                let h = hi->Some_0;
                assert(!lex_lt(key, h));
                if i < count {
                    assert(crate::tree::key_in_range(entries[i + 1].0, lo, hi));
                    assert(lex_lt(entries[i + 1].0, h));
                    if lex_lt(key, entries[i + 1].0) {
                        crate::order::lemma_lex_trans(key, entries[i + 1].0, h);
                    }
                }
            }
        }
        lemma_subtree_bounds(st, entries[i].1, (fuel - 1) as nat, clo, chi, key);
        assert(tree_get(st, pid, fuel, key) == tree_get(
            st,
            crate::page::branch_child_for(entries, key),
            (fuel - 1) as nat,
            key,
        ));
    }
}

/// Write then read, end to end across the first root split: after a split
/// insert whose halves sit under a fresh one-separator branch root, the tree
/// read of the written key returns exactly the written value.
pub proof fn lemma_root_split_insert_then_get<'a>(
    pre: crate::btree::WriteTxn<'a>,
    post: crate::btree::WriteTxn<'a>,
    key: Seq<u8>,
    value: Seq<u8>,
    fuel: nat,
)
    requires
        fuel >= 1,
        pre.store().contains_key(pre.root()),
        crate::page::leaf_page_wf(pre.store()[pre.root()]),
        ({
            let rootid = pre.root();
            let p = pre.store()[rootid];
            let merged = kvs_put(crate::page::page_kvs(p), key, value);
            let s = (merged.len() + 1) as int / 2;
            let npid = (pre.highest() + 1) as u64;
            let nroot = (pre.highest() + 2) as u64;
            &&& merged.len() >= 2
            &&& post.root() == nroot
            &&& post.store().contains_key(rootid)
            &&& crate::page::page_kvs(post.store()[rootid]) == merged.take(s)
            &&& crate::page::leaf_page_wf(post.store()[rootid])
            &&& post.store().contains_key(npid)
            &&& crate::page::page_kvs(post.store()[npid]) == merged.skip(s)
            &&& crate::page::leaf_page_wf(post.store()[npid])
            &&& post.store().contains_key(nroot)
            &&& crate::page::page_entries(post.store()[nroot]) == seq![
                (Seq::<u8>::empty(), rootid),
                (merged[s].0, npid),
            ]
            &&& crate::page::branch_page_wf(post.store()[nroot])
        }),
    ensures
        tree_get(post.store(), post.root(), fuel, key) == Some(value),
{
    let rootid = pre.root();
    let p = pre.store()[rootid];
    let kvs0 = crate::page::page_kvs(p);
    let merged = kvs_put(kvs0, key, value);
    let s = (merged.len() + 1) as int / 2;
    let npid = (pre.highest() + 1) as u64;
    let nroot = (pre.highest() + 2) as u64;
    let b = post.store()[nroot];
    let entries = crate::page::page_entries(b);
    let sep = merged[s].0;
    assert(kvs_sorted(kvs0)) by {
        assert forall|i: int, j: int| 0 <= i < j < kvs0.len() implies lex_lt(
            (#[trigger] kvs0[i]).0,
            (#[trigger] kvs0[j]).0,
        ) by {
            assert(kvs0[i].0 == crate::page::leaf_key(crate::page::body_of(p), i));
            assert(kvs0[j].0 == crate::page::leaf_key(crate::page::body_of(p), j));
        }
    }
    lemma_kvs_put_sorted(kvs0, key, value);
    lemma_kvs_put_get(kvs0, key, value);
    crate::page::lemma_sorted_get_mem(merged, key);
    let pos = choose|j: int| 0 <= j < merged.len() && #[trigger] merged[j] == (key, value);
    assert(0 < s < merged.len()) by {
        assert(merged.len() >= 2);
    }
    // The branch routes by the one separator; page_count is fixed by the
    // entry count.
    assert(crate::page::page_count(b) == 1) by {
        assert(entries.len() == crate::page::page_count(b) + 1);
        assert(entries.len() == 2);
    }
    assert(b.len() == 4096 && b[8] == 4u8);
    assert(crate::page::seps_le(entries, key, 0) == 0);
    assert(entries[1].0 == sep);
    lemma_lex_total(key, sep);
    if lex_lt(key, sep) {
        assert(crate::page::seps_le(entries, key, 1) == 0);
        assert(crate::page::branch_child_for(entries, key) == rootid);
        assert(pos < s) by {
            if pos >= s {
                if pos == s {
                    assert(merged[s].0 == key);
                } else {
                    assert(lex_lt(merged[s].0, merged[pos].0));
                    crate::order::lemma_lex_trans(key, sep, merged[pos].0);
                    lemma_lex_total(key, merged[pos].0);
                }
            }
        }
        let left = merged.take(s);
        assert(left[pos] == (key, value));
        assert(kvs_sorted(left)) by {
            assert forall|i: int, j: int| 0 <= i < j < left.len() implies lex_lt(
                (#[trigger] left[i]).0,
                (#[trigger] left[j]).0,
            ) by {
                assert(left[i] == merged[i] && left[j] == merged[j]);
            }
        }
        crate::page::lemma_sorted_get_mem(left, key);
        let lp = post.store()[rootid];
        assert(lp.len() == 4096 && lp[8] == 3u8);
        assert(tree_get(post.store(), rootid, (fuel - 1) as nat, key) == Some(value));
    } else {
        assert(crate::page::seps_le(entries, key, 1) == 1);
        assert(crate::page::branch_child_for(entries, key) == npid);
        assert(pos >= s) by {
            if pos < s {
                assert(lex_lt(merged[pos].0, merged[s].0));
            }
        }
        let right = merged.skip(s);
        assert(right[pos - s] == (key, value));
        assert(kvs_sorted(right)) by {
            assert forall|i: int, j: int| 0 <= i < j < right.len() implies lex_lt(
                (#[trigger] right[i]).0,
                (#[trigger] right[j]).0,
            ) by {
                assert(right[i] == merged[i + s] && right[j] == merged[j + s]);
            }
        }
        crate::page::lemma_sorted_get_mem(right, key);
        let rp = post.store()[npid];
        assert(rp.len() == 4096 && rp[8] == 3u8);
        assert(tree_get(post.store(), npid, (fuel - 1) as nat, key) == Some(value));
    }
}

} // verus!
