//! Picking the best-scoring records of a scan.

use vstd::prelude::*;
use crate::order::{lemma_other_member, precedes, rank, ranked, ranked_is_unique};

verus! {

/// `hits` is the head of the ranking of all positions by descending key:
/// at most `k` positions, best first, ties in scan order, and every position
/// left out ranks after all that were kept.
pub open spec fn is_top_k(keys: Seq<i32>, k: int, hits: Seq<usize>) -> bool {
    &&& hits.len() == if k <= keys.len() {
        k
    } else {
        keys.len() as int
    }
    &&& ranked(keys, true, hits)
    &&& forall|j: usize, p: int|
        j < keys.len() && !hits.contains(j) && 0 <= p < hits.len() ==> #[trigger] precedes(
            keys,
            true,
            hits[p] as int,
            j as int,
        )
}

/// The keys and `k` leave no choice: two lists that are each the head of
/// the ranking are the same list.
pub proof fn top_k_is_unique(keys: Seq<i32>, k: int, a: Seq<usize>, b: Seq<usize>)
    requires
        is_top_k(keys, k, a),
        is_top_k(keys, k, b),
    ensures
        a == b,
{
    assert forall|x: usize| a.contains(x) <==> b.contains(x) by {
        if a.contains(x) && !b.contains(x) {
            let y = lemma_other_member(a, b, x);
            let p = choose|p: int| 0 <= p < a.len() && a[p] == x;
            let q = choose|q: int| 0 <= q < b.len() && b[q] == y;
            assert(precedes(keys, true, a[p] as int, y as int));
            assert(precedes(keys, true, b[q] as int, x as int));
        }
        if b.contains(x) && !a.contains(x) {
            let y = lemma_other_member(b, a, x);
            let p = choose|p: int| 0 <= p < b.len() && b[p] == x;
            let q = choose|q: int| 0 <= q < a.len() && a[q] == y;
            assert(precedes(keys, true, b[p] as int, y as int));
            assert(precedes(keys, true, a[q] as int, x as int));
        }
    }
    ranked_is_unique(keys, true, a, b);
}

/// The positions `0, 1, .., n - 1`.
pub fn positions(n: usize) -> (all: Vec<usize>)
    ensures
        all.len() == n,
        forall|i: int| 0 <= i < n ==> all[i] == i,
{
    let mut all: Vec<usize> = Vec::new();
    let mut i: usize = 0;
    while i < n
        invariant
            i <= n,
            all.len() == i,
            forall|j: int| 0 <= j < i ==> all[j] == j,
        decreases n - i,
    {
        all.push(i);
        i = i + 1;
    }
    all
}

/// The first `m` entries of `list`.
pub fn head(list: &Vec<usize>, m: usize) -> (out: Vec<usize>)
    requires
        m <= list.len(),
    ensures
        out@ == list@.take(m as int),
{
    let mut out: Vec<usize> = Vec::new();
    let mut i: usize = 0;
    while i < m
        invariant
            i <= m <= list.len(),
            out@ == list@.take(i as int),
        decreases m - i,
    {
        out.push(list[i]);
        proof {
            assert(list@.take(i + 1) =~= list@.take(i as int).push(list[i as int]));
        }
        i = i + 1;
    }
    out
}

/// Ranks the scanned records by descending score key and keeps the first `k`.
///
/// `keys[i]` is the key of the score of the `i`-th record of the scan. The
/// result lists positions of the scan: the best `min(k, n)` of them, the
/// highest key first, and among equal keys the earlier record first.
pub fn top_k_by_score(keys: &Vec<i32>, k: usize) -> (hits: Vec<usize>)
    ensures
        is_top_k(keys@, k as int, hits@),
        forall|p: int, q: int|
            0 <= p <= q < hits.len() ==> keys[hits[p] as int] >= keys[hits[q] as int],
{
    let n: usize = keys.len();
    let all = positions(n);
    let full = rank(keys, true, &all);
    let m: usize = if k <= n {
        k
    } else {
        n
    };
    let hits = head(&full, m);
    proof {
        assert forall|j: usize, p: int|
            j < keys.len() && !hits@.contains(j) && 0 <= p < hits.len() implies #[trigger] precedes(
            keys@,
            true,
            hits[p] as int,
            j as int,
        ) by {
            assert(all[j as int] == j);
            assert(all@.contains(j));
            assert(full@.contains(j));
            let q = choose|q: int| 0 <= q < full.len() && full[q] == j;
            if q < m {
                assert(hits[q] == j);
            }
            assert(hits[p] == full[p]);
        }
        assert forall|p: int, q: int| 0 <= p <= q < hits.len() implies keys[hits[p] as int]
            >= keys[hits[q] as int] by {
            if p < q {
                assert(precedes(keys@, true, hits[p] as int, hits[q] as int));
            }
        }
    }
    hits
}

} // verus!
