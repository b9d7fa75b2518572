//! The reduced neighbourhood of an order: the swaps of two activities that
//! stand close to each other and that no precedence edge forbids.

use crate::dag::DAG;
use crate::graph::graph_has_edge;
use crate::order::lemma_swap_ids_at_positions;
use crate::order::lemma_swap_positions_permutation;
use crate::order::lemma_swap_symmetric;
use crate::order::swap_ids;
use crate::order::swap_positions;
use crate::project::Project;
use vstd::prelude::*;

verus! {

/// The unordered pair of two activities: the smaller one first.
pub open spec fn pair(a: u8, b: u8) -> (u8, u8) {
    if a <= b {
        (a, b)
    } else {
        (b, a)
    }
}

impl Project {
    /// Exchanging the entries at the places `p` and `q` breaks no precedence:
    /// no edge leads from the activity at `p` to one at a place from `p` to
    /// `q`, and none from such an activity to the one at `q`.
    pub open spec fn swap_allowed(self, order: Seq<u8>, p: int, q: int) -> bool {
        forall|x: int|
            p <= x <= q ==> !self.edges.contains((order[p] as int, #[trigger] order[x] as int))
                && !self.edges.contains((order[x] as int, order[q] as int))
    }

    /// The allowed swaps of the entry at place `p` with an entry at a later
    /// place below `end`, less than `range` places away, nearest first.
    pub open spec fn moves_at(self, order: Seq<u8>, range: int, p: int, end: int) -> Seq<(u8, u8)>
        decreases end - p,
    {
        if end <= p + 1 {
            Seq::empty()
        } else {
            let nearer = self.moves_at(order, range, p, end - 1);
            let q = end - 1;
            if q - p < range && self.swap_allowed(order, p, q) {
                nearer.push(pair(order[p], order[q]))
            } else {
                nearer
            }
        }
    }

    /// The allowed swaps of the entries at the places below `p`, place by place.
    pub open spec fn moves_before(self, order: Seq<u8>, range: int, p: int) -> Seq<(u8, u8)>
        decreases p,
    {
        if p <= 0 {
            Seq::empty()
        } else {
            self.moves_before(order, range, p - 1) + self.moves_at(
                order,
                range,
                p - 1,
                order.len() as int,
            )
        }
    }

    /// The reduced neighbourhood of `order`: for each place `p` and each
    /// distance from 1 up to, not including, `range`, the swap of the entries
    /// at `p` and at that distance behind it, where it is allowed; ordered by
    /// place, then by distance.
    pub open spec fn reduced_neighborhood(self, order: Seq<u8>, range: int) -> Seq<(u8, u8)> {
        self.moves_before(order, range, order.len() as int)
    }
}

/// No swap reaches `range` places or more ahead.
pub proof fn lemma_moves_at_beyond(p: Project, order: Seq<u8>, range: int, place: int, end: int)
    requires
        0 <= range,
        place + range <= end,
    ensures
        p.moves_at(order, range, place, end) == p.moves_at(order, range, place, place + range),
    decreases end - place - range,
{
    if end > place + range {
        lemma_moves_at_beyond(p, order, range, place, end - 1);
    }
}

/// An allowed swap of two entries of a topological order gives a topological
/// order.
pub proof fn lemma_allowed_swap_topological(p: Project, order: Seq<u8>, a: int, b: int)
    requires
        p.topological(order),
        0 <= a < b < order.len(),
        p.swap_allowed(order, a, b),
    ensures
        p.topological(swap_positions(order, a, b)),
        p.topological(swap_ids(order, order[a], order[b])),
        p.topological(swap_ids(order, pair(order[a], order[b]).0, pair(order[a], order[b]).1)),
{
    let n = p.jobs();
    let swapped = swap_positions(order, a, b);
    lemma_swap_positions_permutation(order, n, a, b);
    lemma_swap_ids_at_positions(order, n, a, b);
    lemma_swap_symmetric(order, order[a], order[b]);
    assert forall|i: int, j: int|
        0 <= i < swapped.len() && 0 <= j < swapped.len() && #[trigger] p.edges.contains(
            (swapped[i] as int, swapped[j] as int),
        ) implies i < j by {
        let fi = if i == a {
            b
        } else if i == b {
            a
        } else {
            i
        };
        let fj = if j == a {
            b
        } else if j == b {
            a
        } else {
            j
        };
        assert(swapped[i] == order[fi]);
        assert(swapped[j] == order[fj]);
        assert(p.edges.contains((order[fi] as int, order[fj] as int)));
        assert(fi < fj);
        if i == b {
            assert(a <= fj <= b ==> !p.edges.contains((order[a] as int, order[fj] as int)));
        }
        if j == a {
            assert(a <= fi <= b ==> !p.edges.contains((order[fi] as int, order[b] as int)));
        }
    }
}

/// Every swap of a place leads from a topological order to a topological
/// order.
proof fn lemma_moves_at_topological(
    p: Project,
    order: Seq<u8>,
    range: int,
    place: int,
    end: int,
    k: int,
)
    requires
        p.topological(order),
        0 <= place,
        end <= order.len(),
        0 <= k < p.moves_at(order, range, place, end).len(),
    ensures
        p.topological(
            swap_ids(
                order,
                p.moves_at(order, range, place, end)[k].0,
                p.moves_at(order, range, place, end)[k].1,
            ),
        ),
    decreases end - place,
{
    if end > place + 1 {
        let nearer = p.moves_at(order, range, place, end - 1);
        if k < nearer.len() {
            lemma_moves_at_topological(p, order, range, place, end - 1, k);
        } else {
            lemma_allowed_swap_topological(p, order, place, end - 1);
        }
    }
}

/// Every swap of the places below `place` leads from a topological order to
/// a topological order.
proof fn lemma_moves_before_topological(
    p: Project,
    order: Seq<u8>,
    range: int,
    place: int,
    k: int,
)
    requires
        p.topological(order),
        0 <= place <= order.len(),
        0 <= k < p.moves_before(order, range, place).len(),
    ensures
        p.topological(
            swap_ids(
                order,
                p.moves_before(order, range, place)[k].0,
                p.moves_before(order, range, place)[k].1,
            ),
        ),
    decreases place,
{
    if place > 0 {
        let earlier = p.moves_before(order, range, place - 1);
        if k < earlier.len() {
            lemma_moves_before_topological(p, order, range, place - 1, k);
        } else {
            lemma_moves_at_topological(
                p,
                order,
                range,
                place - 1,
                order.len() as int,
                k - earlier.len(),
            );
        }
    }
}

/// Every move of the reduced neighbourhood of a topological order leads to a
/// topological order: exchanging the two activities breaks no precedence.
pub proof fn lemma_neighborhood_topological(p: Project, order: Seq<u8>, range: int, k: int)
    requires
        p.topological(order),
        0 <= k < p.reduced_neighborhood(order, range).len(),
    ensures
        p.topological(
            swap_ids(
                order,
                p.reduced_neighborhood(order, range)[k].0,
                p.reduced_neighborhood(order, range)[k].1,
            ),
        ),
{
    lemma_moves_before_topological(p, order, range, order.len() as int, k);
}

impl DAG {
    /// Whether exchanging the entries at the places `p` and `q` is allowed.
    fn swap_keeps_order(&self, schedule: &[u8], p: usize, q: usize) -> (allowed: bool)
        requires
            self.wf(),
            self@.topological(schedule@),
            p < q < schedule.len(),
        ensures
            allowed == self@.swap_allowed(schedule@, p as int, q as int),
    {
        let first = schedule[p];
        let last = schedule[q];
        let mut x: usize = p;
        while x <= q
            invariant
                self.wf(),
                self@.topological(schedule@),
                p < q < schedule.len(),
                first == schedule[p as int],
                last == schedule[q as int],
                p <= x <= q + 1,
                forall|y: int|
                    p <= y < x ==> !self@.edges.contains(
                        (schedule[p as int] as int, #[trigger] schedule[y] as int),
                    ) && !self@.edges.contains((schedule[y] as int, schedule[q as int] as int)),
            decreases q + 1 - x,
        {
            let node = schedule[x];
            assert(0 <= schedule[x as int] < self@.jobs());
            assert(0 <= schedule[p as int] < self@.jobs());
            assert(0 <= schedule[q as int] < self@.jobs());
            if graph_has_edge(&self.graph, node, last) || graph_has_edge(&self.graph, first, node) {
                return false;
            }
            x += 1;
        }
        true
    }

    /// The reduced neighbourhood of the order: every allowed swap of two
    /// activities less than `swap_range` places apart, each as the pair of the
    /// two activities, ordered by the place of the first and then by the
    /// distance. Each of them leads to a topological order again.
    pub fn compute_reduced_neighborhood_moves(&self, schedule: &[u8], swap_range: usize) -> (moves:
        Vec<(u8, u8)>)
        requires
            self.wf(),
            self@.topological(schedule@),
        ensures
            moves@ == self@.reduced_neighborhood(schedule@, swap_range as int),
            forall|m: int|
                0 <= m < moves.len() ==> self@.topological(
                    swap_ids(schedule@, (#[trigger] moves[m]).0, moves[m].1),
                ),
            forall|m: int|
                0 <= m < moves.len() ==> ((#[trigger] moves[m]).0 as int) < self@.jobs() && (
                moves[m].1 as int) < self@.jobs(),
    {
        let ghost project = self@;
        let ghost order = schedule@;
        let ghost range = swap_range as int;
        let n = schedule.len();
        let mut moves: Vec<(u8, u8)> = Vec::new();
        let mut p: usize = 0;
        while p < n
            invariant
                self.wf(),
                project == self@,
                order == schedule@,
                range == swap_range,
                project.topological(order),
                n == schedule.len(),
                p <= n,
                moves@ == project.moves_before(order, range, p as int),
                forall|m: int|
                    0 <= m < moves.len() ==> project.topological(
                        swap_ids(order, (#[trigger] moves[m]).0, moves[m].1),
                    ),
                forall|m: int|
                    0 <= m < moves.len() ==> ((#[trigger] moves[m]).0 as int) < project.jobs() && (
                    moves[m].1 as int) < project.jobs(),
            decreases n - p,
        {
            let limit = if swap_range < n - p {
                p + swap_range
            } else {
                n
            };
            let ghost earlier = moves@;
            let mut q: usize = p + 1;
            while q < limit
                invariant
                    self.wf(),
                    project == self@,
                    order == schedule@,
                    range == swap_range,
                    project.topological(order),
                    n == schedule.len(),
                    p < n,
                    limit <= n,
                    limit <= p + swap_range,
                    p + 1 <= q,
                    q <= limit || q == p + 1,
                    moves@ == earlier + project.moves_at(order, range, p as int, q as int),
                    forall|m: int|
                        0 <= m < moves.len() ==> project.topological(
                            swap_ids(order, (#[trigger] moves[m]).0, moves[m].1),
                        ),
                    forall|m: int|
                        0 <= m < moves.len() ==> ((#[trigger] moves[m]).0 as int) < project.jobs()
                            && (moves[m].1 as int) < project.jobs(),
                decreases limit - q,
            {
                let ghost nearer = project.moves_at(order, range, p as int, q as int);
                if self.swap_keeps_order(schedule, p, q) {
                    let first = schedule[p];
                    let other = schedule[q];
                    let found = if first <= other {
                        (first, other)
                    } else {
                        (other, first)
                    };
                    assert(found == pair(order[p as int], order[q as int]));
                    assert(0 <= order[p as int] < project.jobs());
                    assert(0 <= order[q as int] < project.jobs());
                    proof {
                        lemma_allowed_swap_topological(project, order, p as int, q as int);
                    }
                    moves.push(found);
                    assert(moves@ =~= earlier + nearer.push(found));
                }
                q += 1;
            }
            proof {
                if limit == n {
                    if q != limit {
                        assert(n == p + 1);
                    }
                } else {
                    lemma_moves_at_beyond(project, order, range, p as int, n as int);
                    if q != limit {
                        assert(swap_range == 0);
                        assert(project.moves_at(order, range, p as int, p as int) =~= Seq::empty());
                    }
                }
                assert(moves@ == earlier + project.moves_at(order, range, p as int, n as int));
            }
            p += 1;
        }
        moves
    }
}

} // verus!
