//! Orders of the activities of a project, and the swap of two activities.

use crate::counting::count_true;
use crate::counting::lemma_count_all;
use crate::counting::lemma_count_none;
use crate::counting::lemma_count_set;
use crate::project::Project;
use vstd::prelude::*;

verus! {

/// Activity `a` stands somewhere in `order`.
pub open spec fn occurs(order: Seq<u8>, a: int) -> bool {
    exists|i: int| 0 <= i < order.len() && #[trigger] order[i] == a
}

/// Activity `a` stands among the first `n` entries of `order`.
pub open spec fn placed(order: Seq<u8>, n: int, a: int) -> bool {
    exists|i: int| 0 <= i < n && i < order.len() && #[trigger] order[i] == a
}

/// For each activity below `n`, whether it stands among the first `m`
/// entries of `order`.
pub open spec fn marked_by(order: Seq<u8>, m: int, n: int) -> Seq<bool> {
    Seq::new(n as nat, |a: int| placed(order, m, a))
}

/// `order` holds each of the activities `0 .. n` exactly once.
pub open spec fn is_permutation(order: Seq<u8>, n: int) -> bool {
    &&& order.len() == n
    &&& forall|i: int| 0 <= i < n ==> (#[trigger] order[i] as int) < n
    &&& forall|i: int, j: int| 0 <= i < j < n ==> #[trigger] order[i] != #[trigger] order[j]
    &&& forall|a: int| 0 <= a < n ==> #[trigger] occurs(order, a)
}

/// The place at which activity `a` stands in `order`.
pub open spec fn position(order: Seq<u8>, a: int) -> int {
    choose|i: int| 0 <= i < order.len() && #[trigger] order[i] == a
}

/// `order` with the activities `i` and `j` exchanged.
pub open spec fn swap_ids(order: Seq<u8>, i: u8, j: u8) -> Seq<u8> {
    Seq::new(
        order.len(),
        |p: int|
            if order[p] == i {
                j
            } else if order[p] == j {
                i
            } else {
                order[p]
            },
    )
}

/// `order` with an optional swap of two activities applied.
pub open spec fn with_swap(order: Seq<u8>, swap: Option<(u8, u8)>) -> Seq<u8> {
    match swap {
        Some((i, j)) => swap_ids(order, i, j),
        None => order,
    }
}

/// `order` with the entries at the places `p` and `q` exchanged.
pub open spec fn swap_positions(order: Seq<u8>, p: int, q: int) -> Seq<u8> {
    order.update(p, order[q]).update(q, order[p])
}

impl Project {
    /// `order` is a permutation of the activities in which every activity
    /// stands after all its predecessors.
    pub open spec fn topological(self, order: Seq<u8>) -> bool {
        &&& is_permutation(order, self.jobs())
        &&& forall|i: int, j: int|
            0 <= i < order.len() && 0 <= j < order.len() && #[trigger] self.edges.contains(
                (order[i] as int, order[j] as int),
            ) ==> i < j
    }
}

/// In a permutation the place of an activity is the one place that holds it.
pub proof fn lemma_position(order: Seq<u8>, n: int, i: int)
    requires
        is_permutation(order, n),
        0 <= i < n,
    ensures
        position(order, order[i] as int) == i,
{
    let a = order[i] as int;
    let p = position(order, a);
    assert(0 <= p < order.len() && order[p] == a);
    if p != i {
        if p < i {
            assert(order[p] != order[i]);
        } else {
            assert(order[i] != order[p]);
        }
    }
}

/// In a topological order every activity stands at a later place than each
/// of its predecessors.
pub proof fn lemma_topological_positions(p: Project, order: Seq<u8>, u: int, v: int)
    requires
        p.shaped(),
        p.topological(order),
        p.edge(u, v),
    ensures
        position(order, u) < position(order, v),
{
    assert(p.edges.contains((u, v)));
    assert(occurs(order, u));
    assert(occurs(order, v));
    let i = choose|i: int| 0 <= i < order.len() && #[trigger] order[i] == u;
    let j = choose|j: int| 0 <= j < order.len() && #[trigger] order[j] == v;
    lemma_position(order, p.jobs(), i);
    lemma_position(order, p.jobs(), j);
    assert(p.edges.contains((order[i] as int, order[j] as int)));
}

/// A topological order of a valid project begins with the source and ends
/// with the sink.
pub proof fn lemma_ends_of_order(p: Project, order: Seq<u8>)
    requires
        p.valid(),
        p.topological(order),
    ensures
        order[0] == 0,
        order[p.jobs() - 1] == p.sink(),
{
    let first = order[0] as int;
    assert(0 <= first < p.jobs());
    assert(p.connected(first));
    if first != 0 {
        assert(p.has_predecessor(first));
        let u = choose|u: int| p.edges.contains((u, first));
        assert(occurs(order, u));
        let i = choose|i: int| 0 <= i < order.len() && #[trigger] order[i] == u;
        assert(p.edges.contains((order[i] as int, order[0] as int)));
    }
    let last = order[p.jobs() - 1] as int;
    assert(0 <= last < p.jobs());
    assert(p.connected(last));
    if last != p.sink() {
        assert(p.has_successor(last));
        let v = choose|v: int| p.edges.contains((last, v));
        assert(occurs(order, v));
        let j = choose|j: int| 0 <= j < order.len() && #[trigger] order[j] == v;
        assert(p.edges.contains((order[p.jobs() - 1] as int, order[j] as int)));
    }
}

/// Exchanging an activity with itself changes nothing.
pub proof fn lemma_swap_same(order: Seq<u8>, i: u8)
    ensures
        swap_ids(order, i, i) == order,
        with_swap(order, Some((i, i))) == with_swap(order, None),
{
    assert(swap_ids(order, i, i) =~= order);
}

/// The order in which the two activities come does not matter.
pub proof fn lemma_swap_symmetric(order: Seq<u8>, i: u8, j: u8)
    ensures
        swap_ids(order, i, j) == swap_ids(order, j, i),
{
    assert(swap_ids(order, i, j) =~= swap_ids(order, j, i));
}

/// In a permutation, exchanging two activities is exchanging the entries at
/// their places.
pub proof fn lemma_swap_ids_at_positions(order: Seq<u8>, n: int, p: int, q: int)
    requires
        is_permutation(order, n),
        0 <= p < n,
        0 <= q < n,
    ensures
        swap_ids(order, order[p], order[q]) == swap_positions(order, p, q),
{
    let a = swap_ids(order, order[p], order[q]);
    let b = swap_positions(order, p, q);
    assert forall|x: int| 0 <= x < n implies a[x] == b[x] by {
        if x != p && x != q {
            if x < p {
                assert(order[x] != order[p]);
            } else {
                assert(order[p] != order[x]);
            }
            if x < q {
                assert(order[x] != order[q]);
            } else {
                assert(order[q] != order[x]);
            }
        }
    }
    assert(a =~= b);
}

/// Exchanging two entries of a permutation gives a permutation.
pub proof fn lemma_swap_positions_permutation(order: Seq<u8>, n: int, p: int, q: int)
    requires
        is_permutation(order, n),
        0 <= p < n,
        0 <= q < n,
    ensures
        is_permutation(swap_positions(order, p, q), n),
{
    let b = swap_positions(order, p, q);
    let f = |x: int|
        if x == p {
            q
        } else if x == q {
            p
        } else {
            x
        };
    assert forall|x: int| 0 <= x < n implies b[x] == order[f(x)] by {}
    assert forall|i: int, j: int| 0 <= i < j < n implies b[i] != b[j] by {
        let fi = f(i);
        let fj = f(j);
        assert(fi != fj);
        if fi < fj {
            assert(order[fi] != order[fj]);
        } else {
            assert(order[fj] != order[fi]);
        }
    }
    assert forall|a: int| 0 <= a < n implies #[trigger] occurs(b, a) by {
        assert(occurs(order, a));
        let i = choose|i: int| 0 <= i < order.len() && #[trigger] order[i] == a;
        let x = f(i);
        assert(b[x] == order[f(x)]);
        assert(b[x] == a);
    }
}

/// The activity at place `m - 1` of a sequence of distinct activities is not
/// among those before it, and it is the one that the place adds.
pub proof fn lemma_mark_next(order: Seq<u8>, n: int, m: int)
    requires
        0 <= n <= 256,
        0 < m <= order.len(),
        forall|i: int| 0 <= i < order.len() ==> (#[trigger] order[i] as int) < n,
        forall|i: int, j: int| 0 <= i < j < order.len() ==> #[trigger] order[i] != #[trigger] order[j],
    ensures
        !marked_by(order, m - 1, n)[order[m - 1] as int],
        marked_by(order, m, n) == marked_by(order, m - 1, n).update(order[m - 1] as int, true),
{
    let before = marked_by(order, m - 1, n);
    let a = order[m - 1] as int;
    assert(!before[a]) by {
        if placed(order, m - 1, a) {
            let i = choose|i: int| 0 <= i < m - 1 && i < order.len() && #[trigger] order[i] == a;
            assert(order[i] != order[m - 1]);
        }
    }
    assert(marked_by(order, m, n) =~= before.update(a, true)) by {
        assert forall|b: int| 0 <= b < n implies marked_by(order, m, n)[b] == before.update(
            a,
            true,
        )[b] by {
            if placed(order, m, b) {
                let i = choose|i: int| 0 <= i < m && i < order.len() && #[trigger] order[i] == b;
                if i < m - 1 {
                    assert(placed(order, m - 1, b));
                }
            }
            if placed(order, m - 1, b) {
                let i = choose|i: int| 0 <= i < m - 1 && i < order.len() && #[trigger] order[i] == b;
                assert(0 <= i < m && order[i] == b);
            }
            if b == a {
                assert(order[m - 1] == b);
            }
        }
    }
}

/// A sequence of distinct activities below `n` in which each of them occurs
/// has `n` entries.
pub proof fn lemma_distinct_cover(order: Seq<u8>, n: int)
    requires
        0 <= n <= 256,
        forall|i: int| 0 <= i < order.len() ==> (#[trigger] order[i] as int) < n,
        forall|i: int, j: int| 0 <= i < j < order.len() ==> #[trigger] order[i] != #[trigger] order[j],
        forall|a: int| 0 <= a < n ==> #[trigger] occurs(order, a),
    ensures
        order.len() == n,
        is_permutation(order, n),
{
    let marks = Seq::new(n as nat, |a: int| true);
    lemma_count_all(marks);
    lemma_count_marked(order, n, order.len() as int);
    assert(marked_by(order, order.len() as int, n) =~= marks) by {
        assert forall|a: int| 0 <= a < n implies marked_by(
            order,
            order.len() as int,
            n,
        )[a] by {
            assert(occurs(order, a));
            let i = choose|i: int| 0 <= i < order.len() && #[trigger] order[i] == a;
            assert(placed(order, order.len() as int, a));
        }
    }
}

/// The first `m` entries of a sequence of distinct activities mark `m`
/// activities.
pub proof fn lemma_count_marked(order: Seq<u8>, n: int, m: int)
    requires
        0 <= n <= 256,
        0 <= m <= order.len(),
        forall|i: int| 0 <= i < order.len() ==> (#[trigger] order[i] as int) < n,
        forall|i: int, j: int| 0 <= i < j < order.len() ==> #[trigger] order[i] != #[trigger] order[j],
    ensures
        count_true(marked_by(order, m, n)) == m,
    decreases m,
{
    if m == 0 {
        lemma_count_none(marked_by(order, 0, n));
    } else {
        lemma_count_marked(order, n, m - 1);
        lemma_mark_next(order, n, m);
        lemma_count_set(marked_by(order, m - 1, n), order[m - 1] as int);
    }
}

/// A sequence of `n` distinct activities below `n` holds each of them.
pub proof fn lemma_distinct_full(order: Seq<u8>, n: int)
    requires
        0 <= n <= 256,
        order.len() == n,
        forall|i: int| 0 <= i < order.len() ==> (#[trigger] order[i] as int) < n,
        forall|i: int, j: int| 0 <= i < j < order.len() ==> #[trigger] order[i] != #[trigger] order[j],
    ensures
        is_permutation(order, n),
{
    lemma_count_marked(order, n, n);
    let marks = marked_by(order, n, n);
    crate::counting::lemma_count_full(marks);
    assert forall|a: int| 0 <= a < n implies #[trigger] occurs(order, a) by {
        assert(marks[a]);
        assert(placed(order, n, a));
        let i = choose|i: int| 0 <= i < n && i < order.len() && #[trigger] order[i] == a;
        assert(order[i] == a);
    }
}

} // verus!
