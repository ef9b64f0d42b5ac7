//! The unsigned lexicographic order on byte strings: the order of keys in the
//! tree. `lex_lt` is the specification; `compare_bytes` is the executable
//! comparator, and the proof functions state that `lex_lt` is a strict total
//! order.

use vstd::prelude::*;
use vstd::slice::slice_index_get;

verus! {

/// `a` comes strictly before `b` in unsigned lexicographic order.
pub open spec fn lex_lt(a: Seq<u8>, b: Seq<u8>) -> bool
    decreases a.len(),
{
    if b.len() == 0 {
        false
    } else if a.len() == 0 {
        true
    } else {
        a[0] < b[0] || (a[0] == b[0] && lex_lt(a.subrange(1, a.len() as int), b.subrange(1, b.len() as int)))
    }
}

/// Dropping one equal head byte from both strings keeps the order.
proof fn lemma_lex_step(a: Seq<u8>, b: Seq<u8>)
    requires
        a.len() > 0,
        b.len() > 0,
        a[0] == b[0],
    ensures
        lex_lt(a, b) <==> lex_lt(a.subrange(1, a.len() as int), b.subrange(1, b.len() as int)),
        (a == b) <==> (a.subrange(1, a.len() as int) == b.subrange(1, b.len() as int)),
{
    if a.subrange(1, a.len() as int) == b.subrange(1, b.len() as int) {
        assert forall|k: int| 0 <= k < a.len() implies a[k] == b[k] by {
            if k >= 1 {
                assert(a.subrange(1, a.len() as int)[k - 1] == b.subrange(1, b.len() as int)[k
                    - 1]);
            }
        }
        assert(a =~= b);
    }
    if a == b {
        assert(a.subrange(1, a.len() as int) =~= b.subrange(1, b.len() as int));
    }
}

/// Of `lex_lt(a, b)`, `a == b`, and `lex_lt(b, a)`, exactly one holds.
pub proof fn lemma_lex_total(a: Seq<u8>, b: Seq<u8>)
    ensures
        lex_lt(a, b) || a == b || lex_lt(b, a),
        lex_lt(a, b) ==> a != b && !lex_lt(b, a),
        a == b ==> !lex_lt(a, b) && !lex_lt(b, a),
    decreases a.len(),
{
    if a.len() == 0 && b.len() == 0 {
        assert(a =~= b);
    } else if a.len() == 0 || b.len() == 0 {
    } else {
        if a[0] == b[0] {
            lemma_lex_step(a, b);
            lemma_lex_step(b, a);
            lemma_lex_total(a.subrange(1, a.len() as int), b.subrange(1, b.len() as int));
        }
    }
}

/// `lex_lt` is transitive.
pub proof fn lemma_lex_trans(a: Seq<u8>, b: Seq<u8>, c: Seq<u8>)
    requires
        lex_lt(a, b),
        lex_lt(b, c),
    ensures
        lex_lt(a, c),
    decreases a.len(),
{
    if a.len() == 0 {
        if c.len() == 0 {
            assert(b.len() > 0);
        }
    } else {
        assert(b.len() > 0);
        assert(c.len() > 0);
        if a[0] < b[0] {
            if b[0] == c[0] {
            }
        } else {
            if b[0] < c[0] {
            } else {
                lemma_lex_trans(
                    a.subrange(1, a.len() as int),
                    b.subrange(1, b.len() as int),
                    c.subrange(1, c.len() as int),
                );
            }
        }
    }
}

/// The empty string comes before every non-empty string.
pub proof fn lemma_lex_empty(a: Seq<u8>)
    ensures
        a.len() > 0 ==> lex_lt(Seq::<u8>::empty(), a),
        !lex_lt(a, Seq::<u8>::empty()),
{
}

/// Compare two byte strings in unsigned lexicographic order.
/// `Less` means the stored order puts `a` strictly before `b`.
pub fn compare_bytes(a: &[u8], b: &[u8]) -> (o: core::cmp::Ordering)
    ensures
        (o == core::cmp::Ordering::Less <==> lex_lt(a@, b@)),
        (o == core::cmp::Ordering::Equal <==> a@ == b@),
        (o == core::cmp::Ordering::Greater <==> lex_lt(b@, a@)),
{
    proof {
        lemma_lex_total(a@, b@);
    }
    let alen = a.len();
    let blen = b.len();
    let n = if alen < blen {
        alen
    } else {
        blen
    };
    let mut i: usize = 0;
    proof {
        assert(a@.subrange(0, alen as int) =~= a@);
        assert(b@.subrange(0, blen as int) =~= b@);
    }
    while i < n
        invariant
            n <= alen && n <= blen,
            alen == a@.len(),
            blen == b@.len(),
            n == if alen < blen { alen } else { blen },
            0 <= i <= n,
            lex_lt(a@, b@) <==> lex_lt(
                a@.subrange(i as int, alen as int),
                b@.subrange(i as int, blen as int),
            ),
            lex_lt(b@, a@) <==> lex_lt(
                b@.subrange(i as int, blen as int),
                a@.subrange(i as int, alen as int),
            ),
            (a@ == b@) <==> (a@.subrange(i as int, alen as int) == b@.subrange(
                i as int,
                blen as int,
            )),
        decreases n - i,
    {
        let x = *slice_index_get(a, i);
        let y = *slice_index_get(b, i);
        let ghost asub = a@.subrange(i as int, alen as int);
        let ghost bsub = b@.subrange(i as int, blen as int);
        if x < y {
            assert(lex_lt(asub, bsub));
            proof {
                lemma_lex_total(asub, bsub);
            }
            return core::cmp::Ordering::Less;
        }
        if y < x {
            assert(lex_lt(bsub, asub));
            proof {
                lemma_lex_total(asub, bsub);
            }
            return core::cmp::Ordering::Greater;
        }
        proof {
            lemma_lex_step(asub, bsub);
            lemma_lex_step(bsub, asub);
            assert(asub.subrange(1, asub.len() as int) =~= a@.subrange(i + 1, alen as int));
            assert(bsub.subrange(1, bsub.len() as int) =~= b@.subrange(i + 1, blen as int));
        }
        i = i + 1;
    }
    let ghost asub = a@.subrange(i as int, alen as int);
    let ghost bsub = b@.subrange(i as int, blen as int);
    if alen < blen {
        assert(asub.len() == 0 && bsub.len() > 0);
        assert(lex_lt(asub, bsub));
        proof {
            lemma_lex_total(asub, bsub);
        }
        core::cmp::Ordering::Less
    } else if blen < alen {
        assert(bsub.len() == 0 && asub.len() > 0);
        assert(lex_lt(bsub, asub));
        proof {
            lemma_lex_total(asub, bsub);
        }
        core::cmp::Ordering::Greater
    } else {
        assert(asub =~= bsub);
        proof {
            lemma_lex_total(asub, bsub);
        }
        core::cmp::Ordering::Equal
    }
}

} // verus!
