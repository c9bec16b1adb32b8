//! The undirected edge set of a fuzzy graph, built from directed memberships.
//!
//! A directed edge `(i, j)` says that row `j` is a stored neighbour of row
//! `i`; its membership strength lives beside it, at the same position, with
//! the caller. Symmetrising pairs each direction with its reverse: the result
//! names, for every connected pair of rows, where the two strengths are found,
//! so that the caller can combine them.

use vstd::prelude::*;
use vstd::seq_lib::seq_to_set_is_finite;
use vstd::set_lib::{lemma_int_range, lemma_len_subset, set_int_range};

verus! {

/// One entry of the symmetrised edge set: the pair of rows `(i, j)` and the
/// positions of the memberships `i -> j` and `j -> i` among the directed
/// edges, where stored.
#[derive(Clone, Copy, Debug, PartialEq, Eq)]
pub struct Link {
    pub i: usize,
    pub j: usize,
    pub forward: Option<usize>,
    pub backward: Option<usize>,
}

/// Position `e` of `edges` holds the directed edge `i -> j`.
pub open spec fn stored_at(edges: Seq<(usize, usize)>, e: int, i: int, j: int) -> bool {
    0 <= e < edges.len() && edges[e].0 == i && edges[e].1 == j
}

/// `found` is the last position of `edges` that holds `i -> j`, or `None`
/// where no position does. A later duplicate replaces an earlier one.
pub open spec fn last_stored(
    edges: Seq<(usize, usize)>,
    i: int,
    j: int,
    found: Option<usize>,
) -> bool {
    match found {
        Some(e) => stored_at(edges, e as int, i, j) && forall|l: int|
            e < l < edges.len() ==> !stored_at(edges, l, i, j),
        None => forall|l: int| 0 <= l < edges.len() ==> !stored_at(edges, l, i, j),
    }
}

/// Rows `a` and `b` are joined by a directed edge, one way or the other.
pub open spec fn joined(edges: Seq<(usize, usize)>, a: int, b: int) -> bool {
    exists|e: int| stored_at(edges, e, a, b) || stored_at(edges, e, b, a)
}

/// `links` has an entry for the ordered pair `(a, b)`.
pub open spec fn has_link(links: Seq<Link>, a: int, b: int) -> bool {
    exists|p: int| 0 <= p < links.len() && (#[trigger] links[p]).i == a && links[p].j == b
}

/// `x` comes before `y` in row-major order.
pub open spec fn row_major(x: Link, y: Link) -> bool {
    x.i < y.i || (x.i == y.i && x.j < y.j)
}

/// The entry `link` is right for `edges` over `n` rows: two different rows,
/// both positions as `last_stored` gives them, and at least one of them there.
pub open spec fn link_fits(n: int, edges: Seq<(usize, usize)>, link: Link) -> bool {
    &&& link.i < n
    &&& link.j < n
    &&& link.i != link.j
    &&& last_stored(edges, link.i as int, link.j as int, link.forward)
    &&& last_stored(edges, link.j as int, link.i as int, link.backward)
    &&& (link.forward is Some || link.backward is Some)
}

/// `links` is the symmetrised edge set of `edges` over `n` rows: every entry
/// fits, the entries stand in strict row-major order, and every ordered pair
/// of different rows below `n` that an edge joins has its entry.
pub open spec fn is_symmetrized(n: int, edges: Seq<(usize, usize)>, links: Seq<Link>) -> bool {
    &&& forall|p: int| 0 <= p < links.len() ==> link_fits(n, edges, #[trigger] links[p])
    &&& forall|p: int, q: int|
        0 <= p < q < links.len() ==> row_major(#[trigger] links[p], #[trigger] links[q])
    &&& forall|a: int, b: int|
        0 <= a < n && 0 <= b < n && a != b && joined(edges, a, b) ==> #[trigger] has_link(
            links,
            a,
            b,
        )
}

/// The last-stored position of `a -> b` is unique.
pub proof fn last_stored_is_unique(
    edges: Seq<(usize, usize)>,
    a: int,
    b: int,
    x: Option<usize>,
    y: Option<usize>,
)
    requires
        last_stored(edges, a, b, x),
        last_stored(edges, a, b, y),
    ensures
        x == y,
{
    match (x, y) {
        (Some(e), Some(f)) => {
            if e < f {
                assert(stored_at(edges, f as int, a, b));
            } else if f < e {
                assert(stored_at(edges, e as int, a, b));
            }
        },
        (Some(e), None) => {
            assert(stored_at(edges, e as int, a, b));
        },
        (None, Some(f)) => {
            assert(stored_at(edges, f as int, a, b));
        },
        (None, None) => {},
    }
}

/// The symmetrised edge set is symmetric: with the entry for `(i, j)` it
/// holds the entry for `(j, i)`, whose two positions are the same two,
/// exchanged. No entry joins a row to itself.
pub proof fn symmetrized_is_symmetric(
    n: int,
    edges: Seq<(usize, usize)>,
    links: Seq<Link>,
    p: int,
) -> (q: int)
    requires
        is_symmetrized(n, edges, links),
        0 <= p < links.len(),
    ensures
        0 <= q < links.len(),
        links[q].i == links[p].j,
        links[q].j == links[p].i,
        links[q].forward == links[p].backward,
        links[q].backward == links[p].forward,
        links[p].i != links[p].j,
{
    let x = links[p];
    assert(link_fits(n, edges, x));
    let a = x.j as int;
    let b = x.i as int;
    assert(joined(edges, a, b)) by {
        if x.forward is Some {
            let e = x.forward->0 as int;
            assert(stored_at(edges, e, b, a));
        } else {
            let e = x.backward->0 as int;
            assert(stored_at(edges, e, a, b));
        }
    }
    assert(has_link(links, a, b));
    let q = choose|q: int| 0 <= q < links.len() && (#[trigger] links[q]).i == a && links[q].j == b;
    let y = links[q];
    assert(link_fits(n, edges, y));
    last_stored_is_unique(edges, a, b, y.forward, x.backward);
    last_stored_is_unique(edges, b, a, y.backward, x.forward);
    q
}

/// Two lists in strict row-major order that hold the same entries are the
/// same list.
proof fn lemma_same_entries_same_list(a: Seq<Link>, b: Seq<Link>)
    requires
        forall|p: int, q: int|
            0 <= p < q < a.len() ==> row_major(#[trigger] a[p], #[trigger] a[q]),
        forall|p: int, q: int|
            0 <= p < q < b.len() ==> row_major(#[trigger] b[p], #[trigger] b[q]),
        forall|x: Link| a.contains(x) <==> b.contains(x),
    ensures
        a == b,
    decreases a.len(),
{
    if a.len() == 0 {
        if b.len() > 0 {
            assert(b.contains(b[0]));
            assert(a.contains(b[0]));
        }
        assert(a =~= b);
    } else if b.len() == 0 {
        assert(a.contains(a[0]));
        assert(b.contains(a[0]));
    } else {
        assert(a.contains(a[0]));
        assert(b.contains(b[0]));
        let i = choose|i: int| 0 <= i < b.len() && b[i] == a[0];
        let j = choose|j: int| 0 <= j < a.len() && a[j] == b[0];
        assert(a[0] == b[0]) by {
            if i > 0 && j > 0 {
                assert(row_major(b[0], b[i]));
                assert(row_major(a[0], a[j]));
            }
        }
        let ra = a.drop_first();
        let rb = b.drop_first();
        assert forall|x: Link| ra.contains(x) <==> rb.contains(x) by {
            if ra.contains(x) {
                let p = choose|p: int| 0 <= p < ra.len() && ra[p] == x;
                assert(a[p + 1] == x);
                assert(a.contains(x));
                let q = choose|q: int| 0 <= q < b.len() && b[q] == x;
                assert(row_major(a[0], a[p + 1]));
                assert(q != 0);
                assert(rb[q - 1] == x);
            }
            if rb.contains(x) {
                let p = choose|p: int| 0 <= p < rb.len() && rb[p] == x;
                assert(b[p + 1] == x);
                assert(b.contains(x));
                let q = choose|q: int| 0 <= q < a.len() && a[q] == x;
                assert(row_major(b[0], b[p + 1]));
                assert(q != 0);
                assert(ra[q - 1] == x);
            }
        }
        assert forall|p: int, q: int| 0 <= p < q < ra.len() implies row_major(
            #[trigger] ra[p],
            #[trigger] ra[q],
        ) by {
            assert(ra[p] == a[p + 1] && ra[q] == a[q + 1]);
        }
        assert forall|p: int, q: int| 0 <= p < q < rb.len() implies row_major(
            #[trigger] rb[p],
            #[trigger] rb[q],
        ) by {
            assert(rb[p] == b[p + 1] && rb[q] == b[q + 1]);
        }
        lemma_same_entries_same_list(ra, rb);
        assert(a =~= seq![a[0]] + ra);
        assert(b =~= seq![b[0]] + rb);
    }
}

/// An entry of one symmetrised edge set is an entry of every other.
proof fn lemma_entry_is_shared(n: int, edges: Seq<(usize, usize)>, a: Seq<Link>, b: Seq<Link>, x: Link)
    requires
        is_symmetrized(n, edges, a),
        is_symmetrized(n, edges, b),
        a.contains(x),
    ensures
        b.contains(x),
{
    let p = choose|p: int| 0 <= p < a.len() && a[p] == x;
    assert(link_fits(n, edges, a[p]));
    assert(joined(edges, x.i as int, x.j as int)) by {
        if x.forward is Some {
            assert(stored_at(edges, x.forward->0 as int, x.i as int, x.j as int));
        } else {
            assert(stored_at(edges, x.backward->0 as int, x.j as int, x.i as int));
        }
    }
    assert(has_link(b, x.i as int, x.j as int));
    let q = choose|q: int| 0 <= q < b.len() && (#[trigger] b[q]).i == x.i && b[q].j == x.j;
    assert(link_fits(n, edges, b[q]));
    last_stored_is_unique(edges, x.i as int, x.j as int, x.forward, b[q].forward);
    last_stored_is_unique(edges, x.j as int, x.i as int, x.backward, b[q].backward);
    assert(b[q] == x);
}

/// The directed edges leave no choice: two symmetrised edge sets of the
/// same edges are the same list.
pub proof fn symmetrized_is_unique(n: int, edges: Seq<(usize, usize)>, a: Seq<Link>, b: Seq<Link>)
    requires
        is_symmetrized(n, edges, a),
        is_symmetrized(n, edges, b),
    ensures
        a == b,
{
    assert forall|x: Link| a.contains(x) <==> b.contains(x) by {
        if a.contains(x) {
            lemma_entry_is_shared(n, edges, a, b, x);
        }
        if b.contains(x) {
            lemma_entry_is_shared(n, edges, b, a, x);
        }
    }
    lemma_same_entries_same_list(a, b);
}

/// The number under which an entry is counted: twice the position of its
/// forward membership where it has one, and else twice the position of its
/// backward membership and one more.
pub open spec fn witness(link: Link) -> int {
    match link.forward {
        Some(e) => 2 * e,
        None => 2 * link.backward->0 + 1,
    }
}

/// The symmetrised edge set has at most two entries for each directed edge.
pub proof fn symmetrized_is_small(n: int, edges: Seq<(usize, usize)>, links: Seq<Link>)
    requires
        is_symmetrized(n, edges, links),
    ensures
        links.len() <= 2 * edges.len(),
{
    let codes = Seq::new(links.len(), |p: int| witness(links[p]));
    assert forall|p: int| 0 <= p < codes.len() implies 0 <= #[trigger] codes[p] < 2 * edges.len() by {
        assert(link_fits(n, edges, links[p]));
    }
    assert(codes.no_duplicates()) by {
        assert forall|p: int, q: int|
            0 <= p < codes.len() && 0 <= q < codes.len() && p != q implies codes[p]
            != codes[q] by {
            let x = links[p];
            let y = links[q];
            assert(link_fits(n, edges, x));
            assert(link_fits(n, edges, y));
            if p < q {
                assert(row_major(x, y));
            } else {
                assert(row_major(y, x));
            }
            if codes[p] == codes[q] {
                if x.forward is Some {
                    assert(y.forward is Some);
                    assert(stored_at(edges, x.forward->0 as int, x.i as int, x.j as int));
                    assert(stored_at(edges, y.forward->0 as int, y.i as int, y.j as int));
                } else {
                    assert(y.forward is None);
                    assert(stored_at(edges, x.backward->0 as int, x.j as int, x.i as int));
                    assert(stored_at(edges, y.backward->0 as int, y.j as int, y.i as int));
                }
            }
        }
    }
    let range = set_int_range(0, 2 * edges.len() as int);
    lemma_int_range(0, 2 * edges.len() as int);
    seq_to_set_is_finite(codes);
    codes.unique_seq_to_set();
    assert forall|c: int| codes.to_set().contains(c) implies range.contains(c) by {
        let p = choose|p: int| 0 <= p < codes.len() && codes[p] == c;
        assert(0 <= codes[p] < 2 * edges.len());
    }
    assert(codes.to_set().subset_of(range));
    lemma_len_subset(codes.to_set(), range);
}

/// The directed edges that row `i` gets from its neighbour list `row`: one
/// triple `(i, row[slot], slot)` for every slot whose neighbour is not `i`
/// itself, in slot order.
pub open spec fn row_memberships(i: usize, row: Seq<usize>) -> Seq<(usize, usize, usize)>
    decreases row.len(),
{
    if row.len() == 0 {
        Seq::empty()
    } else {
        let slot = (row.len() - 1) as usize;
        let rest = row_memberships(i, row.drop_last());
        if row[slot as int] == i {
            rest
        } else {
            rest.push((i, row[slot as int], slot))
        }
    }
}

/// The directed edges of a neighbour table, row after row.
pub open spec fn memberships(indices: Seq<Vec<usize>>) -> Seq<(usize, usize, usize)>
    decreases indices.len(),
{
    if indices.len() == 0 {
        Seq::empty()
    } else {
        let i = (indices.len() - 1) as usize;
        memberships(indices.drop_last()) + row_memberships(i, indices[i as int]@)
    }
}

/// Lists the directed edges of a neighbour table.
///
/// `indices[i]` holds the neighbours of row `i`. The first result holds the
/// edges `(i, j)`, the second, at the same position, the slot of `j` in
/// `indices[i]`, where the caller finds the distance that belongs to the
/// edge. A row that names itself as a neighbour gets no edge for that slot.
pub fn directed_edges(indices: &Vec<Vec<usize>>) -> (out: (Vec<(usize, usize)>, Vec<usize>))
    ensures
        out.0.len() == memberships(indices@).len(),
        out.1.len() == memberships(indices@).len(),
        forall|e: int|
            0 <= e < out.0.len() ==> (out.0[e].0, out.0[e].1, out.1[e]) == #[trigger] memberships(
                indices@,
            )[e],
{
    let mut edges: Vec<(usize, usize)> = Vec::new();
    let mut slots: Vec<usize> = Vec::new();
    let ghost mut listed: Seq<(usize, usize, usize)> = Seq::empty();
    let mut i: usize = 0;
    while i < indices.len()
        invariant
            i <= indices.len(),
            listed == memberships(indices@.take(i as int)),
            edges.len() == listed.len(),
            slots.len() == listed.len(),
            forall|e: int|
                0 <= e < listed.len() ==> (edges[e].0, edges[e].1, slots[e]) == #[trigger] listed[e],
        decreases indices.len() - i,
    {
        let row = &indices[i];
        let ghost done = listed;
        let mut slot: usize = 0;
        while slot < row.len()
            invariant
                i < indices.len(),
                row == &indices[i as int],
                slot <= row.len(),
                listed == done + row_memberships(i, row@.take(slot as int)),
                edges.len() == listed.len(),
                slots.len() == listed.len(),
                forall|e: int|
                    0 <= e < listed.len() ==> (edges[e].0, edges[e].1, slots[e])
                        == #[trigger] listed[e],
            decreases row.len() - slot,
        {
            let j: usize = row[slot];
            let ghost so_far = row_memberships(i, row@.take(slot as int));
            proof {
                let next = row@.take(slot + 1);
                assert(next.drop_last() =~= row@.take(slot as int));
                assert(next[slot as int] == j);
                assert(row_memberships(i, next) == if j == i {
                    so_far
                } else {
                    so_far.push((i, j, slot))
                });
            }
            if j != i {
                edges.push((i, j));
                slots.push(slot);
                proof {
                    assert(done + so_far.push((i, j, slot)) =~= (done + so_far).push((i, j, slot)));
                    listed = listed.push((i, j, slot));
                }
            }
            slot = slot + 1;
        }
        proof {
            assert(row@.take(slot as int) =~= row@);
            let next = indices@.take(i + 1);
            assert(next.drop_last() =~= indices@.take(i as int));
            assert(next[i as int] == indices[i as int]);
        }
        i = i + 1;
    }
    proof {
        assert(indices@.take(i as int) =~= indices@);
    }
    (edges, slots)
}

/// A list of `n` empty slots.
fn empty_slots(n: usize) -> (slots: Vec<Option<usize>>)
    ensures
        slots.len() == n,
        forall|j: int| 0 <= j < n ==> (#[trigger] slots[j]) is None,
{
    let mut slots: Vec<Option<usize>> = Vec::new();
    let mut j: usize = 0;
    while j < n
        invariant
            j <= n,
            slots.len() == j,
            forall|t: int| 0 <= t < j ==> (#[trigger] slots[t]) is None,
        decreases n - j,
    {
        slots.push(None);
        j = j + 1;
    }
    slots
}

/// For one row `i`, finds for every row `j` below `n` the last stored
/// position of `i -> j` (first list) and of `j -> i` (second list).
fn scan_row(n: usize, edges: &Vec<(usize, usize)>, i: usize) -> (found: (
    Vec<Option<usize>>,
    Vec<Option<usize>>,
))
    ensures
        found.0.len() == n,
        found.1.len() == n,
        forall|j: int|
            0 <= j < n ==> last_stored(edges@, i as int, j, #[trigger] found.0[j]),
        forall|j: int|
            0 <= j < n ==> last_stored(edges@, j, i as int, #[trigger] found.1[j]),
{
    let mut fwd = empty_slots(n);
    let mut bwd = empty_slots(n);
    let mut e: usize = 0;
    while e < edges.len()
        invariant
            e <= edges.len(),
            fwd.len() == n,
            bwd.len() == n,
            forall|j: int|
                0 <= j < n ==> last_stored(edges@.take(e as int), i as int, j, #[trigger] fwd[j]),
            forall|j: int|
                0 <= j < n ==> last_stored(edges@.take(e as int), j, i as int, #[trigger] bwd[j]),
        decreases edges.len() - e,
    {
        let from: usize = edges[e].0;
        let to: usize = edges[e].1;
        let ghost before = edges@.take(e as int);
        let ghost after = edges@.take(e + 1);
        let ghost old_fwd = fwd@;
        let ghost old_bwd = bwd@;
        proof {
            assert(after =~= before.push(edges[e as int]));
        }
        if from == i && to < n {
            fwd.set(to, Some(e));
        }
        if to == i && from < n {
            bwd.set(from, Some(e));
        }
        proof {
            assert forall|j: int| 0 <= j < n implies last_stored(
                after,
                i as int,
                j,
                #[trigger] fwd[j],
            ) by {
                if from == i && to == j {
                    assert(stored_at(after, e as int, i as int, j));
                } else {
                    assert(fwd[j] == old_fwd[j]);
                    assert(last_stored(before, i as int, j, old_fwd[j]));
                    lemma_last_stored_grows(before, edges[e as int], i as int, j, old_fwd[j]);
                }
            }
            assert forall|j: int| 0 <= j < n implies last_stored(
                after,
                j,
                i as int,
                #[trigger] bwd[j],
            ) by {
                if to == i && from == j {
                    assert(stored_at(after, e as int, j, i as int));
                } else {
                    assert(bwd[j] == old_bwd[j]);
                    assert(last_stored(before, j, i as int, old_bwd[j]));
                    lemma_last_stored_grows(before, edges[e as int], j, i as int, old_bwd[j]);
                }
            }
        }
        e = e + 1;
    }
    proof {
        assert(edges@.take(e as int) =~= edges@);
    }
    (fwd, bwd)
}

/// Appending an edge other than `a -> b` leaves the last stored position of
/// `a -> b` as it was.
proof fn lemma_last_stored_grows(
    edges: Seq<(usize, usize)>,
    next: (usize, usize),
    a: int,
    b: int,
    found: Option<usize>,
)
    requires
        last_stored(edges, a, b, found),
        !(next.0 == a && next.1 == b),
    ensures
        last_stored(edges.push(next), a, b, found),
{
    let grown = edges.push(next);
    assert forall|l: int| 0 <= l < grown.len() implies (stored_at(grown, l, a, b) <==> stored_at(
        edges,
        l,
        a,
        b,
    )) by {
        if l < edges.len() {
            assert(grown[l] == edges[l]);
        }
    }
    match found {
        Some(e) => {
            assert(stored_at(edges, e as int, a, b));
            assert(stored_at(grown, e as int, a, b));
        },
        None => {},
    }
}

/// An entry stays in a list that grows.
proof fn lemma_has_link_grows(links: Seq<Link>, link: Link)
    ensures
        forall|a: int, b: int| has_link(links, a, b) ==> #[trigger] has_link(links.push(link), a, b),
{
    let grown = links.push(link);
    assert forall|a: int, b: int| has_link(links, a, b) implies #[trigger] has_link(
        grown,
        a,
        b,
    ) by {
        let p = choose|p: int| 0 <= p < links.len() && (#[trigger] links[p]).i == a && links[p].j == b;
        assert(grown[p] == links[p]);
    }
}

/// Symmetrises the directed edges of a graph over `n` rows.
///
/// The result has one entry for each ordered pair `(i, j)` of different rows
/// below `n` that are joined by an edge in either direction, in row-major
/// order. Edges that name a row from `n` on, and edges from a row to itself,
/// take no part. Where an edge is stored more than once, its last position
/// counts.
pub fn symmetrize(n: usize, edges: &Vec<(usize, usize)>) -> (links: Vec<Link>)
    ensures
        is_symmetrized(n as int, edges@, links@),
{
    let mut links: Vec<Link> = Vec::new();
    let mut i: usize = 0;
    while i < n
        invariant
            i <= n,
            forall|p: int| 0 <= p < links.len() ==> link_fits(n as int, edges@, #[trigger] links[p]),
            forall|p: int, q: int|
                0 <= p < q < links.len() ==> row_major(#[trigger] links[p], #[trigger] links[q]),
            forall|p: int| 0 <= p < links.len() ==> (#[trigger] links[p]).i < i,
            forall|a: int, b: int|
                0 <= a < i && 0 <= b < n && a != b && joined(edges@, a, b) ==> #[trigger] has_link(
                    links@,
                    a,
                    b,
                ),
        decreases n - i,
    {
        let (fwd, bwd) = scan_row(n, edges, i);
        let mut j: usize = 0;
        while j < n
            invariant
                i < n,
                j <= n,
                fwd.len() == n,
                bwd.len() == n,
                forall|t: int|
                    0 <= t < n ==> last_stored(edges@, i as int, t, #[trigger] fwd[t]),
                forall|t: int|
                    0 <= t < n ==> last_stored(edges@, t, i as int, #[trigger] bwd[t]),
                forall|p: int|
                    0 <= p < links.len() ==> link_fits(n as int, edges@, #[trigger] links[p]),
                forall|p: int, q: int|
                    0 <= p < q < links.len() ==> row_major(
                        #[trigger] links[p],
                        #[trigger] links[q],
                    ),
                forall|p: int|
                    0 <= p < links.len() ==> (#[trigger] links[p]).i < i || (links[p].i == i
                        && links[p].j < j),
                forall|a: int, b: int|
                    0 <= a < i && 0 <= b < n && a != b && joined(edges@, a, b)
                        ==> #[trigger] has_link(links@, a, b),
                forall|b: int|
                    0 <= b < j && i != b && joined(edges@, i as int, b) ==> #[trigger] has_link(
                        links@,
                        i as int,
                        b,
                    ),
            decreases n - j,
        {
            let forward: Option<usize> = fwd[j];
            let backward: Option<usize> = bwd[j];
            let ghost before = links@;
            proof {
                assert(last_stored(edges@, i as int, j as int, fwd[j as int]));
                assert(last_stored(edges@, j as int, i as int, bwd[j as int]));
            }
            if j != i && (forward.is_some() || backward.is_some()) {
                let link = Link { i, j, forward, backward };
                links.push(link);
                proof {
                    assert(links@ == before.push(link));
                    assert(links[before.len() as int] == link);
                    assert(has_link(links@, i as int, j as int));
                    lemma_has_link_grows(before, link);
                }
            } else {
                proof {
                    if j != i && joined(edges@, i as int, j as int) {
                        let e = choose|e: int|
                            stored_at(edges@, e, i as int, j as int) || stored_at(
                                edges@,
                                e,
                                j as int,
                                i as int,
                            );
                        assert(!stored_at(edges@, e, i as int, j as int));
                        assert(!stored_at(edges@, e, j as int, i as int));
                    }
                }
            }
            j = j + 1;
        }
        i = i + 1;
    }
    links
}

} // verus!
