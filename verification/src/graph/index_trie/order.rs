//! Byte strings in ascending order, and the rank of a byte string among
//! them.

use crate::bytes::{lemma_lex_lt_asymmetric, lemma_lex_lt_irreflexive, lex_lt};
use vstd::prelude::*;

verus! {

/// Whether every key comes before all the keys behind it.
pub open spec fn strictly_sorted(keys: Seq<Seq<u8>>) -> bool {
    forall|i: int, j: int| 0 <= i < j < keys.len() ==> lex_lt(#[trigger] keys[i], #[trigger] keys[j])
}

/// The number of keys that come before `k`: the rank of `k` where it is among
/// the keys, and the rank it would take where it is not.
pub open spec fn rank_of(keys: Seq<Seq<u8>>, k: Seq<u8>) -> int
    decreases keys.len(),
{
    if keys.len() == 0 {
        0
    } else {
        rank_of(keys.drop_last(), k) + if lex_lt(keys.last(), k) {
            1int
        } else {
            0int
        }
    }
}

/// Where the first `p` keys come before `k` and no other does, `p` is the
/// rank of `k`.
pub proof fn lemma_rank_of(keys: Seq<Seq<u8>>, k: Seq<u8>, p: int)
    requires
        0 <= p <= keys.len(),
        forall|i: int| 0 <= i < p ==> lex_lt(#[trigger] keys[i], k),
        forall|i: int| p <= i < keys.len() ==> !lex_lt(#[trigger] keys[i], k),
    ensures
        rank_of(keys, k) == p,
    decreases keys.len(),
{
    if keys.len() > 0 {
        let front = keys.drop_last();
        let q = if p == keys.len() { p - 1 } else { p };
        assert forall|i: int| 0 <= i < q implies lex_lt(#[trigger] front[i], k) by {
            assert(front[i] == keys[i]);
        }
        assert forall|i: int| q <= i < front.len() implies !lex_lt(#[trigger] front[i], k) by {
            assert(front[i] == keys[i]);
        }
        lemma_rank_of(front, k, q);
        assert(keys.last() == keys[keys.len() - 1]);
    }
}

/// In ascending keys, the rank of the key at position `i` is `i`.
pub proof fn lemma_rank_of_member(keys: Seq<Seq<u8>>, i: int)
    requires
        strictly_sorted(keys),
        0 <= i < keys.len(),
    ensures
        rank_of(keys, keys[i]) == i,
{
    assert forall|j: int| i <= j < keys.len() implies !lex_lt(#[trigger] keys[j], keys[i]) by {
        if j == i {
            lemma_lex_lt_irreflexive(keys[i]);
        } else {
            lemma_lex_lt_asymmetric(keys[i], keys[j]);
        }
    }
    lemma_rank_of(keys, keys[i], i);
}

/// In ascending keys, a key stands at one position only.
pub proof fn lemma_position_unique(keys: Seq<Seq<u8>>, i: int, j: int)
    requires
        strictly_sorted(keys),
        0 <= i < keys.len(),
        0 <= j < keys.len(),
        keys[i] == keys[j],
    ensures
        i == j,
{
    lemma_lex_lt_irreflexive(keys[i]);
    if i < j {
        assert(lex_lt(keys[i], keys[j]));
    } else if j < i {
        assert(lex_lt(keys[j], keys[i]));
    }
}

/// Where keys stay in ascending order when `k` is put at position `p`, that
/// position is the rank of `k`.
pub proof fn lemma_rank_of_inserted(keys: Seq<Seq<u8>>, k: Seq<u8>, p: int)
    requires
        0 <= p <= keys.len(),
        strictly_sorted(keys.insert(p, k)),
    ensures
        rank_of(keys, k) == p,
{
    let after = keys.insert(p, k);
    assert(after[p] == k);
    assert forall|i: int| 0 <= i < p implies lex_lt(#[trigger] keys[i], k) by {
        assert(after[i] == keys[i]);
    }
    assert forall|i: int| p <= i < keys.len() implies !lex_lt(#[trigger] keys[i], k) by {
        assert(after[i + 1] == keys[i]);
        lemma_lex_lt_asymmetric(k, keys[i]);
    }
    lemma_rank_of(keys, k, p);
}

/// Ascending keys are determined by their members: two ascending sequences
/// with the same members are the same sequence.
pub proof fn lemma_sorted_determined(a: Seq<Seq<u8>>, b: Seq<Seq<u8>>)
    requires
        strictly_sorted(a),
        strictly_sorted(b),
        forall|x: Seq<u8>| a.contains(x) <==> b.contains(x),
    ensures
        a == b,
    decreases a.len(),
{
    if a.len() == 0 {
        if b.len() > 0 {
            assert(b.contains(b[0]));
        }
        assert(a =~= b);
    } else {
        let x = a.last();
        assert(a.contains(x));
        let j = choose|j: int| 0 <= j < b.len() && b[j] == x;
        let y = b.last();
        assert(b.contains(y));
        let i = choose|i: int| 0 <= i < a.len() && a[i] == y;
        if j < b.len() - 1 {
            assert(lex_lt(b[j], b[b.len() - 1]));
            if i < a.len() - 1 {
                assert(lex_lt(a[i], a[a.len() - 1]));
                lemma_lex_lt_asymmetric(x, y);
            } else {
                lemma_lex_lt_irreflexive(x);
            }
        }
        let fa = a.drop_last();
        let fb = b.drop_last();
        assert forall|z: Seq<u8>| fa.contains(z) <==> fb.contains(z) by {
            lemma_lex_lt_irreflexive(x);
            if fa.contains(z) {
                let m = choose|m: int| 0 <= m < fa.len() && fa[m] == z;
                assert(lex_lt(a[m], a[a.len() - 1]));
                assert(a.contains(z));
                let n = choose|n: int| 0 <= n < b.len() && b[n] == z;
                assert(fb[n] == z);
            }
            if fb.contains(z) {
                let m = choose|m: int| 0 <= m < fb.len() && fb[m] == z;
                assert(lex_lt(b[m], b[b.len() - 1]));
                assert(b.contains(z));
                let n = choose|n: int| 0 <= n < a.len() && a[n] == z;
                assert(fa[n] == z);
            }
        }
        assert(strictly_sorted(fa)) by {
            assert forall|m: int, n: int| 0 <= m < n < fa.len() implies lex_lt(
                #[trigger] fa[m],
                #[trigger] fa[n],
            ) by {
                assert(lex_lt(a[m], a[n]));
            }
        }
        assert(strictly_sorted(fb)) by {
            assert forall|m: int, n: int| 0 <= m < n < fb.len() implies lex_lt(
                #[trigger] fb[m],
                #[trigger] fb[n],
            ) by {
                assert(lex_lt(b[m], b[n]));
            }
        }
        lemma_sorted_determined(fa, fb);
        assert(a =~= fa.push(x));
        assert(b =~= fb.push(x));
    }
}

} // verus!
