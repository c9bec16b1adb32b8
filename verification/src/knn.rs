//! Exact nearest-neighbour selection from distance keys.

use vstd::prelude::*;
use crate::order::{distinct, lemma_other_member, precedes, rank, ranked, ranked_is_unique};
use crate::search::head;

verus! {

/// `near` lists the `k` rows nearest to `row`: never `row` itself, the
/// smallest distance key first, the lower row first among equal keys, and
/// every other row left out ranks after all that were kept.
pub open spec fn is_nearest(keys: Seq<i32>, row: int, k: int, near: Seq<usize>) -> bool {
    &&& near.len() == k
    &&& ranked(keys, false, near)
    &&& forall|p: int| 0 <= p < near.len() ==> (#[trigger] near[p]) != row
    &&& forall|j: usize, p: int|
        j < keys.len() && j != row && !near.contains(j) && 0 <= p < near.len()
            ==> #[trigger] precedes(keys, false, near[p] as int, j as int)
}

/// The keys, the row and `k` leave no choice: two lists that each hold the
/// `k` nearest rows are the same list.
pub proof fn nearest_is_unique(keys: Seq<i32>, row: int, k: int, a: Seq<usize>, b: Seq<usize>)
    requires
        is_nearest(keys, row, k, a),
        is_nearest(keys, row, k, b),
    ensures
        a == b,
{
    assert forall|x: usize| a.contains(x) <==> b.contains(x) by {
        if a.contains(x) && !b.contains(x) {
            let y = lemma_other_member(a, b, x);
            let p = choose|p: int| 0 <= p < a.len() && a[p] == x;
            let q = choose|q: int| 0 <= q < b.len() && b[q] == y;
            assert(precedes(keys, false, a[p] as int, y as int));
            assert(precedes(keys, false, b[q] as int, x as int));
        }
        if b.contains(x) && !a.contains(x) {
            let y = lemma_other_member(b, a, x);
            let p = choose|p: int| 0 <= p < b.len() && b[p] == x;
            let q = choose|q: int| 0 <= q < a.len() && a[q] == y;
            assert(precedes(keys, false, b[p] as int, y as int));
            assert(precedes(keys, false, a[q] as int, x as int));
        }
    }
    ranked_is_unique(keys, false, a, b);
}

/// The rows `0, .., n - 1` without `row`, in ascending order.
fn other_rows(n: usize, row: usize) -> (others: Vec<usize>)
    requires
        row < n,
    ensures
        others.len() == n - 1,
        distinct(others@),
        forall|p: int| 0 <= p < others.len() ==> (#[trigger] others[p]) < n && others[p] != row,
        forall|j: usize| j < n && j != row ==> others@.contains(j),
{
    let mut others: Vec<usize> = Vec::new();
    let mut j: usize = 0;
    while j < n
        invariant
            j <= n,
            row < n,
            others.len() == if j <= row {
                j as int
            } else {
                j - 1
            },
            forall|p: int|
                0 <= p < others.len() ==> (#[trigger] others[p]) == if p < row {
                    p
                } else {
                    p + 1
                },
        decreases n - j,
    {
        if j != row {
            others.push(j);
        }
        j = j + 1;
    }
    proof {
        assert forall|x: usize| x < n && x != row implies others@.contains(x) by {
            if x < row {
                assert(others[x as int] == x);
            } else {
                assert(others[x - 1] == x);
            }
        }
    }
    others
}

/// Picks the `k` nearest neighbours of one row.
///
/// `keys[j]` is the key of the distance from `row` to row `j`; the entry at
/// `row` itself is not read.
pub fn nearest_neighbors(keys: &Vec<i32>, row: usize, k: usize) -> (near: Vec<usize>)
    requires
        row < keys.len(),
        k < keys.len(),
    ensures
        is_nearest(keys@, row as int, k as int, near@),
        forall|p: int, q: int|
            0 <= p <= q < near.len() ==> keys[near[p] as int] <= keys[near[q] as int],
{
    let n: usize = keys.len();
    let others = other_rows(n, row);
    let full = rank(keys, false, &others);
    let near = head(&full, k);
    proof {
        assert forall|p: int| 0 <= p < near.len() implies (#[trigger] near[p]) != row by {
            assert(near[p] == full[p]);
            assert(full@.contains(full[p]));
            assert(others@.contains(full[p]));
        }
        assert forall|j: usize, p: int|
            j < keys.len() && j != row && !near@.contains(j) && 0 <= p < near.len()
            implies #[trigger] precedes(keys@, false, near[p] as int, j as int) by {
            assert(others@.contains(j));
            assert(full@.contains(j));
            let q = choose|q: int| 0 <= q < full.len() && full[q] == j;
            if q < k {
                assert(near[q] == j);
            }
            assert(near[p] == full[p]);
        }
        assert forall|p: int, q: int| 0 <= p <= q < near.len() implies keys[near[p] as int]
            <= keys[near[q] as int] by {
            if p < q {
                assert(precedes(keys@, false, near[p] as int, near[q] as int));
            }
        }
    }
    near
}

/// `table` holds one row of `n` distance keys for each of `n` rows.
pub open spec fn is_square(table: Seq<Vec<i32>>) -> bool {
    forall|i: int| 0 <= i < table.len() ==> (#[trigger] table[i]).len() == table.len()
}

/// Picks the `k` nearest neighbours of every row of a square table of
/// distance keys, where `table[i][j]` is the key of the distance from row
/// `i` to row `j`.
pub fn knn_indices(table: &Vec<Vec<i32>>, k: usize) -> (indices: Vec<Vec<usize>>)
    requires
        is_square(table@),
        k < table.len(),
    ensures
        indices.len() == table.len(),
        forall|i: int|
            0 <= i < table.len() ==> is_nearest(table[i]@, i, k as int, (#[trigger] indices[i])@),
{
    let n: usize = table.len();
    let mut indices: Vec<Vec<usize>> = Vec::new();
    let mut i: usize = 0;
    while i < n
        invariant
            i <= n,
            n == table.len(),
            k < n,
            is_square(table@),
            indices.len() == i,
            forall|r: int|
                0 <= r < i ==> is_nearest(table[r]@, r, k as int, (#[trigger] indices[r])@),
        decreases n - i,
    {
        assert(table[i as int].len() == n);
        let near = nearest_neighbors(&table[i], i, k);
        indices.push(near);
        i = i + 1;
    }
    indices
}

} // verus!
