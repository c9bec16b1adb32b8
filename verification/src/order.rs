//! Ranking positions by an integer key, with ties going to the lower position.
//!
//! Scores and distances reach this crate as integer keys (see `single`), so
//! every comparison here is exact. The order used throughout is a strict total
//! order on positions, which makes each ranking unique.

use vstd::prelude::*;
use vstd::seq_lib::seq_to_set_is_finite;
use vstd::set_lib::lemma_len_subset;

verus! {

/// Position `a` is listed before position `b`: the smaller key first (the
/// greater one when `descending`), and on equal keys the lower position.
pub open spec fn precedes(keys: Seq<i32>, descending: bool, a: int, b: int) -> bool {
    if keys[a] == keys[b] {
        a < b
    } else if descending {
        keys[a] > keys[b]
    } else {
        keys[a] < keys[b]
    }
}

/// Every entry of `order` is a position of `keys`.
pub open spec fn in_range(keys: Seq<i32>, order: Seq<usize>) -> bool {
    forall|p: int| 0 <= p < order.len() ==> (#[trigger] order[p]) < keys.len()
}

/// `order` lists positions of `keys`, each strictly before the next ones.
pub open spec fn ranked(keys: Seq<i32>, descending: bool, order: Seq<usize>) -> bool {
    &&& in_range(keys, order)
    &&& forall|p: int, q: int|
        0 <= p < q < order.len() ==> precedes(
            keys,
            descending,
            #[trigger] order[p] as int,
            #[trigger] order[q] as int,
        )
}

/// No position occurs twice in `items`.
pub open spec fn distinct(items: Seq<usize>) -> bool {
    forall|p: int, q: int| 0 <= p < q < items.len() ==> #[trigger] items[p] != #[trigger] items[q]
}

/// A ranked list names no position twice.
pub proof fn ranked_is_distinct(keys: Seq<i32>, descending: bool, order: Seq<usize>)
    requires
        ranked(keys, descending, order),
    ensures
        distinct(order),
{
}

/// Two ranked lists that hold the same positions are the same list.
pub proof fn ranked_is_unique(keys: Seq<i32>, descending: bool, a: Seq<usize>, b: Seq<usize>)
    requires
        ranked(keys, descending, a),
        ranked(keys, descending, b),
        forall|x: usize| a.contains(x) <==> b.contains(x),
    ensures
        a == b,
    decreases a.len(),
{
    if a.len() == 0 {
        if b.len() > 0 {
            assert(b.contains(b[0]));
            assert(a.contains(b[0]));
        }
        assert(a =~= b);
    } else if b.len() == 0 {
        assert(a.contains(a[0]));
        assert(b.contains(a[0]));
    } else {
        // The first entry of each list precedes every other entry of both.
        assert(a.contains(a[0]));
        assert(b.contains(b[0]));
        let i = choose|i: int| 0 <= i < b.len() && b[i] == a[0];
        let j = choose|j: int| 0 <= j < a.len() && a[j] == b[0];
        assert(a[0] == b[0]) by {
            if i > 0 && j > 0 {
                assert(precedes(keys, descending, b[0] as int, b[i] as int));
                assert(precedes(keys, descending, a[0] as int, a[j] as int));
            }
        }
        let ra = a.drop_first();
        let rb = b.drop_first();
        assert forall|x: usize| ra.contains(x) <==> rb.contains(x) by {
            if ra.contains(x) {
                let p = choose|p: int| 0 <= p < ra.len() && ra[p] == x;
                assert(a[p + 1] == x);
                assert(a.contains(x));
                let q = choose|q: int| 0 <= q < b.len() && b[q] == x;
                assert(precedes(keys, descending, a[0] as int, a[p + 1] as int));
                assert(q != 0);
                assert(rb[q - 1] == x);
            }
            if rb.contains(x) {
                let p = choose|p: int| 0 <= p < rb.len() && rb[p] == x;
                assert(b[p + 1] == x);
                assert(b.contains(x));
                let q = choose|q: int| 0 <= q < a.len() && a[q] == x;
                assert(precedes(keys, descending, b[0] as int, b[p + 1] as int));
                assert(q != 0);
                assert(ra[q - 1] == x);
            }
        }
        assert(ranked(keys, descending, ra)) by {
            assert forall|p: int, q: int| 0 <= p < q < ra.len() implies precedes(
                keys,
                descending,
                #[trigger] ra[p] as int,
                #[trigger] ra[q] as int,
            ) by {
                assert(ra[p] == a[p + 1] && ra[q] == a[q + 1]);
            }
            assert forall|p: int| 0 <= p < ra.len() implies (#[trigger] ra[p]) < keys.len() by {
                assert(ra[p] == a[p + 1]);
            }
        }
        assert(ranked(keys, descending, rb)) by {
            assert forall|p: int, q: int| 0 <= p < q < rb.len() implies precedes(
                keys,
                descending,
                #[trigger] rb[p] as int,
                #[trigger] rb[q] as int,
            ) by {
                assert(rb[p] == b[p + 1] && rb[q] == b[q + 1]);
            }
            assert forall|p: int| 0 <= p < rb.len() implies (#[trigger] rb[p]) < keys.len() by {
                assert(rb[p] == b[p + 1]);
            }
        }
        ranked_is_unique(keys, descending, ra, rb);
        assert(a =~= seq![a[0]] + ra);
        assert(b =~= seq![b[0]] + rb);
    }
}

/// Of two lists of equally many positions, none named twice, each holds a
/// position that the other lacks as soon as one of them does.
pub proof fn lemma_other_member(a: Seq<usize>, b: Seq<usize>, x: usize) -> (y: usize)
    requires
        distinct(a),
        distinct(b),
        a.len() == b.len(),
        a.contains(x),
        !b.contains(x),
    ensures
        b.contains(y),
        !a.contains(y),
{
    if forall|y: usize| b.contains(y) ==> a.contains(y) {
        let sa = a.to_set();
        let sb = b.to_set();
        seq_to_set_is_finite(a);
        seq_to_set_is_finite(b);
        a.unique_seq_to_set();
        b.unique_seq_to_set();
        assert(sa.contains(x));
        assert forall|y: usize| sb.contains(y) implies sa.remove(x).contains(y) by {
            assert(b.contains(y));
            assert(a.contains(y));
        }
        assert(sb.subset_of(sa.remove(x)));
        lemma_len_subset(sb, sa.remove(x));
        assert(sb.len() < sa.len());
    }
    choose|y: usize| b.contains(y) && !a.contains(y)
}

/// Decides `precedes` for two positions.
pub fn goes_before(keys: &Vec<i32>, descending: bool, a: usize, b: usize) -> (r: bool)
    requires
        a < keys.len(),
        b < keys.len(),
    ensures
        r == precedes(keys@, descending, a as int, b as int),
{
    let ka: i32 = keys[a];
    let kb: i32 = keys[b];
    if ka == kb {
        a < b
    } else if descending {
        ka > kb
    } else {
        ka < kb
    }
}

/// Merges two ranked lists that share no position into one ranked list.
fn merge(keys: &Vec<i32>, descending: bool, left: &Vec<usize>, right: &Vec<usize>) -> (out: Vec<
    usize,
>)
    requires
        ranked(keys@, descending, left@),
        ranked(keys@, descending, right@),
        forall|p: int, q: int|
            0 <= p < left.len() && 0 <= q < right.len() ==> #[trigger] left[p] != #[trigger] right[q],
    ensures
        ranked(keys@, descending, out@),
        out.len() == left.len() + right.len(),
        forall|x: usize| out@.contains(x) <==> left@.contains(x) || right@.contains(x),
{
    let mut out: Vec<usize> = Vec::new();
    let mut i: usize = 0;
    let mut j: usize = 0;
    while i < left.len() || j < right.len()
        invariant
            i <= left.len(),
            j <= right.len(),
            out.len() == i + j,
            ranked(keys@, descending, left@),
            ranked(keys@, descending, right@),
            forall|p: int, q: int|
                0 <= p < left.len() && 0 <= q < right.len() ==> #[trigger] left[p]
                    != #[trigger] right[q],
            ranked(keys@, descending, out@),
            forall|p: int, q: int|
                0 <= p < out.len() && i <= q < left.len() ==> precedes(
                    keys@,
                    descending,
                    #[trigger] out[p] as int,
                    #[trigger] left[q] as int,
                ),
            forall|p: int, q: int|
                0 <= p < out.len() && j <= q < right.len() ==> precedes(
                    keys@,
                    descending,
                    #[trigger] out[p] as int,
                    #[trigger] right[q] as int,
                ),
            forall|x: usize|
                out@.contains(x) <==> left@.take(i as int).contains(x) || right@.take(
                    j as int,
                ).contains(x),
        decreases left.len() - i + right.len() - j,
    {
        let take_left: bool = if i >= left.len() {
            false
        } else if j >= right.len() {
            true
        } else {
            goes_before(keys, descending, left[i], right[j])
        };
        let ghost before = out@;
        if take_left {
            let x: usize = left[i];
            out.push(x);
            proof {
                assert(out@ == before.push(x));
                assert forall|y: usize|
                    out@.contains(y) <==> left@.take(i + 1).contains(y) || right@.take(
                        j as int,
                    ).contains(y) by {
                    lemma_contains_push(before, x, y);
                    lemma_take_step(left@, i as int, y);
                }
            }
            i = i + 1;
        } else {
            let x: usize = right[j];
            out.push(x);
            proof {
                assert(out@ == before.push(x));
                assert forall|y: usize|
                    out@.contains(y) <==> left@.take(i as int).contains(y) || right@.take(
                        j + 1,
                    ).contains(y) by {
                    lemma_contains_push(before, x, y);
                    lemma_take_step(right@, j as int, y);
                }
            }
            j = j + 1;
        }
    }
    proof {
        assert(left@.take(i as int) =~= left@);
        assert(right@.take(j as int) =~= right@);
    }
    out
}

/// The entries of `items` from `lo` up to `hi`, ranked.
fn sort_range(keys: &Vec<i32>, descending: bool, items: &Vec<usize>, lo: usize, hi: usize) -> (out:
    Vec<usize>)
    requires
        lo <= hi <= items.len(),
        in_range(keys@, items@),
        distinct(items@),
    ensures
        ranked(keys@, descending, out@),
        out.len() == hi - lo,
        forall|x: usize| out@.contains(x) <==> items@.subrange(lo as int, hi as int).contains(x),
    decreases hi - lo,
{
    let ghost part = items@.subrange(lo as int, hi as int);
    if hi - lo == 0 {
        let out: Vec<usize> = Vec::new();
        proof {
            assert forall|x: usize| out@.contains(x) <==> part.contains(x) by {
                if part.contains(x) {
                    let p = choose|p: int| 0 <= p < part.len() && part[p] == x;
                }
            }
        }
        out
    } else if hi - lo == 1 {
        let mut out: Vec<usize> = Vec::new();
        out.push(items[lo]);
        proof {
            assert(out@ =~= part);
        }
        out
    } else {
        let mid: usize = lo + (hi - lo) / 2;
        let left = sort_range(keys, descending, items, lo, mid);
        let right = sort_range(keys, descending, items, mid, hi);
        proof {
            let lpart = items@.subrange(lo as int, mid as int);
            let rpart = items@.subrange(mid as int, hi as int);
            assert forall|p: int, q: int|
                0 <= p < left.len() && 0 <= q < right.len() implies #[trigger] left[p]
                != #[trigger] right[q] by {
                assert(left@.contains(left[p]));
                assert(right@.contains(right[q]));
                let a = choose|a: int| 0 <= a < lpart.len() && lpart[a] == left[p];
                let b = choose|b: int| 0 <= b < rpart.len() && rpart[b] == right[q];
                assert(items[lo + a] == left[p]);
                assert(items[mid + b] == right[q]);
            }
        }
        let out = merge(keys, descending, &left, &right);
        proof {
            let lpart = items@.subrange(lo as int, mid as int);
            let rpart = items@.subrange(mid as int, hi as int);
            assert(part =~= lpart + rpart);
            assert forall|x: usize| out@.contains(x) <==> part.contains(x) by {
                if lpart.contains(x) {
                    let a = choose|a: int| 0 <= a < lpart.len() && lpart[a] == x;
                    assert(part[a] == x);
                }
                if rpart.contains(x) {
                    let b = choose|b: int| 0 <= b < rpart.len() && rpart[b] == x;
                    assert(part[lpart.len() + b] == x);
                }
                if part.contains(x) {
                    let c = choose|c: int| 0 <= c < part.len() && part[c] == x;
                    if c < lpart.len() {
                        assert(lpart[c] == x);
                    } else {
                        assert(rpart[c - lpart.len()] == x);
                    }
                }
            }
        }
        out
    }
}

/// Ranks the positions in `items`: the result holds exactly the entries of
/// `items`, each before every entry that it precedes.
pub fn rank(keys: &Vec<i32>, descending: bool, items: &Vec<usize>) -> (out: Vec<usize>)
    requires
        in_range(keys@, items@),
        distinct(items@),
    ensures
        ranked(keys@, descending, out@),
        out.len() == items.len(),
        forall|x: usize| out@.contains(x) <==> items@.contains(x),
{
    proof {
        assert(items@.subrange(0, items.len() as int) =~= items@);
    }
    sort_range(keys, descending, items, 0, items.len())
}

/// Membership in a list that grew by one entry.
proof fn lemma_contains_push(s: Seq<usize>, x: usize, y: usize)
    ensures
        s.push(x).contains(y) <==> s.contains(y) || y == x,
{
    let t = s.push(x);
    if s.contains(y) {
        let p = choose|p: int| 0 <= p < s.len() && s[p] == y;
        assert(t[p] == y);
    }
    if y == x {
        assert(t[s.len() as int] == y);
    }
    if t.contains(y) {
        let p = choose|p: int| 0 <= p < t.len() && t[p] == y;
        if p < s.len() {
            assert(s[p] == y);
        }
    }
}

/// Membership in a prefix that grew by one entry.
proof fn lemma_take_step(s: Seq<usize>, i: int, y: usize)
    requires
        0 <= i < s.len(),
    ensures
        s.take(i + 1).contains(y) <==> s.take(i).contains(y) || y == s[i],
{
    assert(s.take(i + 1) =~= s.take(i).push(s[i]));
    lemma_contains_push(s.take(i), s[i], y);
}

} // verus!
