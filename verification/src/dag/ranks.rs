//! The ranks of a project: its activities layer by layer, each activity in the
//! first layer that comes after all its predecessors.

use crate::counting::count_true;
use crate::counting::lemma_count_all;
use crate::counting::lemma_count_bounds;
use crate::counting::lemma_count_none;
use crate::counting::lemma_count_set;
use crate::dag::DAG;
use crate::order::occurs;
use crate::order::placed;
use crate::counting::lemma_shuffled;
use crate::random::shuffle;
use crate::project::Project;
use vstd::prelude::*;

verus! {

/// The ranks one after the other, as one order.
pub open spec fn flat(ranks: Seq<Vec<u8>>) -> Seq<u8>
    decreases ranks.len(),
{
    if ranks.len() == 0 {
        Seq::empty()
    } else {
        flat(ranks.drop_last()) + ranks.last()@
    }
}

/// The parts one after the other, as one order.
pub open spec fn join(parts: Seq<Seq<u8>>) -> Seq<u8>
    decreases parts.len(),
{
    if parts.len() == 0 {
        Seq::empty()
    } else {
        join(parts.drop_last()) + parts.last()
    }
}

/// Each part of `mixed` holds the activities of the rank of the same number,
/// in some order.
pub open spec fn mixed_ranks(ranks: Seq<Vec<u8>>, mixed: Seq<Seq<u8>>) -> bool {
    &&& mixed.len() == ranks.len()
    &&& forall|k: int|
        0 <= k < ranks.len() ==> (#[trigger] mixed[k]).to_multiset() == ranks[k]@.to_multiset()
}

/// `order` is the ranks one after the other, each rank in some order of its
/// own.
pub open spec fn mixed_order(ranks: Seq<Vec<u8>>, order: Seq<u8>) -> bool {
    exists|mixed: Seq<Seq<u8>>| mixed_ranks(ranks, mixed) && order == join(mixed)
}

/// Activity `v` has no rank yet.
pub open spec fn waiting(level: Seq<int>, v: int) -> bool {
    level[v] == -1
}

/// Activity `v` has a rank above rank 0.
pub open spec fn raised(level: Seq<int>, v: int) -> bool {
    level[v] >= 1
}

impl Project {
    /// Every predecessor of `b` is marked.
    pub open spec fn ready(self, visited: Seq<bool>, b: int) -> bool {
        forall|u: int| #[trigger] self.edges.contains((u, b)) ==> visited[u]
    }

    /// `ranks[k]` lists in ascending order the activities that `level` puts
    /// on level `k`, and none is empty.
    pub open spec fn ranked_by(self, ranks: Seq<Vec<u8>>, level: Seq<int>) -> bool {
        &&& level.len() == self.jobs()
        &&& forall|a: int| 0 <= a < self.jobs() ==> -1 <= #[trigger] level[a] < ranks.len()
        &&& forall|k: int, i: int|
            0 <= k < ranks.len() && 0 <= i < ranks[k].len() ==> (#[trigger] ranks[k][i] as int)
                < self.jobs() && level[ranks[k][i] as int] == k
        &&& forall|k: int, i: int, j: int|
            0 <= k < ranks.len() && 0 <= i < j < ranks[k].len() ==> #[trigger] ranks[k][i]
                < #[trigger] ranks[k][j]
        &&& forall|a: int|
            0 <= a < self.jobs() && #[trigger] level[a] >= 0 ==> ranks[level[a]]@.contains(a as u8)
        &&& forall|k: int| 0 <= k < ranks.len() ==> (#[trigger] ranks[k]).len() > 0
    }

    /// The level of an activity is one more than the highest level among its
    /// predecessors; the source alone is on level 0.
    pub open spec fn steepest(self, level: Seq<int>) -> bool {
        &&& forall|v: int|
            0 <= v < self.jobs() && #[trigger] raised(level, v) ==> exists|u: int| #[trigger]
                self.edges.contains((u, v)) && level[u] == level[v] - 1
        &&& forall|v: int| 0 <= v < self.jobs() ==> (#[trigger] level[v] == 0 <==> v == 0)
    }

    /// `ranks` are the ranks of the project: rank 0 holds the source, and rank
    /// `k + 1` the activities whose predecessors all stand in the ranks up to
    /// `k`, one of them in rank `k`; each rank in ascending order.
    pub open spec fn layered(self, ranks: Seq<Vec<u8>>) -> bool {
        exists|level: Seq<int>|
            self.levelled_by(level) && self.steepest(level) && self.ranked_by(ranks, level)
    }

    /// What holds while the ranks are being built, `level` being -1 for an
    /// activity that has no rank yet.
    pub open spec fn layering(
        self,
        ranks: Seq<Vec<u8>>,
        order: Seq<u8>,
        visited: Seq<bool>,
        level: Seq<int>,
    ) -> bool {
        &&& ranks.len() >= 1
        &&& visited.len() == self.jobs()
        &&& forall|a: int| 0 <= a < self.jobs() ==> (#[trigger] visited[a] <==> level[a] >= 0)
        &&& self.ranked_by(ranks, level)
        &&& self.partly_levelled_by(level)
        &&& self.steepest(level)
        &&& forall|v: int|
            0 <= v < self.jobs() && #[trigger] waiting(level, v) ==> exists|u: int| #[trigger]
                self.edges.contains((u, v)) && (level[u] == -1 || level[u] == ranks.len() - 1)
        &&& order == flat(ranks)
        &&& forall|i: int|
            0 <= i < order.len() ==> (#[trigger] order[i] as int) < self.jobs() && level[order[i] as int]
                >= 0
        &&& forall|i: int, j: int|
            0 <= i < j < order.len() ==> level[#[trigger] order[i] as int]
                <= level[#[trigger] order[j] as int] && order[i] != order[j]
        &&& forall|a: int| 0 <= a < self.jobs() && #[trigger] level[a] >= 0 ==> occurs(order, a)
        &&& order.len() == count_true(visited)
    }

    /// The activities that get the next rank: those without a rank whose
    /// predecessors all have one, in ascending order.
    pub open spec fn next_rank(self, visited: Seq<bool>, next: Seq<u8>, end: int) -> bool {
        &&& forall|i: int|
            0 <= i < next.len() ==> (#[trigger] next[i] as int) < end && !visited[next[i] as int]
                && self.ready(visited, next[i] as int)
        &&& forall|i: int, j: int| 0 <= i < j < next.len() ==> #[trigger] next[i] < #[trigger] next[j]
        &&& forall|b: int|
            0 <= b < end && !#[trigger] visited[b] && self.ready(visited, b) ==> next.contains(
                b as u8,
            )
    }

    /// `order` is the order in which the search starts: the ranks of the
    /// project one after the other.
    pub open spec fn initial_order(self, order: Seq<u8>) -> bool {
        exists|ranks: Seq<Vec<u8>>| self.layered(ranks) && order == flat(ranks)
    }

    /// No activity without a rank can get one: each has a predecessor
    /// without a rank.
    pub open spec fn stuck(self, level: Seq<int>) -> bool {
        forall|v: int|
            0 <= v < self.jobs() && #[trigger] waiting(level, v) ==> exists|u: int| #[trigger]
                self.edges.contains((u, v)) && level[u] == -1
    }
}

/// The state after the source has been given rank 0.
proof fn lemma_first_rank(
    p: Project,
    ranks: Seq<Vec<u8>>,
    order: Seq<u8>,
    visited: Seq<bool>,
    level: Seq<int>,
)
    requires
        p.shaped(),
        forall|a: int| 0 <= a < p.jobs() ==> p.connected(a),
        ranks.len() == 1,
        ranks[0]@ == seq![0u8],
        order == seq![0u8],
        visited.len() == p.jobs(),
        forall|a: int| 0 <= a < p.jobs() ==> (#[trigger] visited[a] <==> a == 0),
        level.len() == p.jobs(),
        forall|a: int|
            0 <= a < p.jobs() ==> #[trigger] level[a] == if a == 0 {
                0int
            } else {
                -1int
            },
    ensures
        p.layering(ranks, order, visited, level),
{
    assert(p.connected(0));
    assert(ranks[0]@[0] == 0u8);
    assert forall|a: int| 0 <= a < p.jobs() && #[trigger] level[a] >= 0 implies ranks[level[a]]@.contains(
        a as u8,
    ) by {
        assert(ranks[0]@[0] == a as u8);
    }
    assert forall|u: int, v: int| #[trigger]
        p.edges.contains((u, v)) && level[v] >= 0 implies 0 <= level[u] < level[v] by {
        assert(v == 0);
        assert(p.has_predecessor(0));
    }
    assert forall|v: int| 0 <= v < p.jobs() && #[trigger] waiting(level, v) implies exists|u: int| #[trigger]
        p.edges.contains((u, v)) && (level[u] == -1 || level[u] == ranks.len() - 1) by {
        assert(p.connected(v));
        assert(p.has_predecessor(v));
        let u = choose|u: int| p.edges.contains((u, v));
        assert(0 <= u < p.jobs());
        assert(p.edges.contains((u, v)) && (level[u] == -1 || level[u] == 0));
    }
    assert(ranks.drop_last() =~= Seq::<Vec<u8>>::empty());
    assert(flat(ranks.drop_last()) =~= Seq::<u8>::empty());
    assert(flat(ranks) =~= order);
    assert forall|a: int| 0 <= a < p.jobs() && #[trigger] level[a] >= 0 implies occurs(
        order,
        a,
    ) by {
        assert(order[0] == a);
    }
    let rest = visited.update(0, false);
    lemma_count_none(rest);
    lemma_count_set(rest, 0);
    assert(rest.update(0, true) =~= visited);
}

/// The state after one more rank has been found.
proof fn lemma_next_rank(
    p: Project,
    ranks: Seq<Vec<u8>>,
    order: Seq<u8>,
    visited: Seq<bool>,
    level: Seq<int>,
    next: Vec<u8>,
    visited2: Seq<bool>,
    level2: Seq<int>,
)
    requires
        p.shaped(),
        p.layering(ranks, order, visited, level),
        next.len() > 0,
        p.next_rank(visited, next@, p.jobs()),
        visited2.len() == p.jobs(),
        level2.len() == p.jobs(),
        forall|a: int|
            0 <= a < p.jobs() ==> (#[trigger] visited2[a] <==> (visited[a] || next@.contains(
                a as u8,
            ))),
        forall|a: int|
            0 <= a < p.jobs() ==> #[trigger] level2[a] == if next@.contains(a as u8) {
                ranks.len() as int
            } else {
                level[a]
            },
        count_true(visited2) == count_true(visited) + next.len(),
    ensures
        p.layering(ranks.push(next), order + next@, visited2, level2),
{
    let n = p.jobs();
    let r = ranks.len() as int;
    let ranks2 = ranks.push(next);
    let order2 = order + next@;
    // an activity of the new rank had no rank, any other keeps what it had
    assert forall|a: int| 0 <= a < n && next@.contains(a as u8) implies !visited[a] && level[a]
        == -1 && level2[a] == r by {
        let i = choose|i: int| 0 <= i < next.len() && next@[i] == a as u8;
        assert(!visited[next[i] as int]);
        assert(level[a] < 0);
    }
    assert forall|a: int| 0 <= a < n && visited[a] implies !next@.contains(a as u8) && level2[a]
        == level[a] by {}
    assert forall|k: int| 0 <= k < r implies #[trigger] ranks2[k] == ranks[k] by {}
    assert(ranks2[r] == next);

    assert(p.ranked_by(ranks2, level2)) by {
        assert forall|k: int, i: int| 0 <= k < ranks2.len() && 0 <= i < ranks2[k].len() implies (
        #[trigger] ranks2[k][i] as int) < n && level2[ranks2[k][i] as int] == k by {
            if k < r {
                let e = ranks[k][i] as int;
                assert(level[e] == k);
                assert(visited[e]);
            } else {
                assert(next@.contains(next[i]));
            }
        }
        assert forall|k: int, i: int, j: int|
            0 <= k < ranks2.len() && 0 <= i < j < ranks2[k].len() implies #[trigger] ranks2[k][i]
            < #[trigger] ranks2[k][j] by {
            if k < r {
                assert(ranks[k][i] < ranks[k][j]);
            }
        }
        assert forall|a: int| 0 <= a < n && #[trigger] level2[a] >= 0 implies ranks2[level2[a]]@.contains(
            a as u8,
        ) by {
            if !next@.contains(a as u8) {
                assert(level[a] >= 0);
                assert(ranks[level[a]]@.contains(a as u8));
                assert(ranks2[level[a]] == ranks[level[a]]);
            }
        }
        assert forall|k: int| 0 <= k < ranks2.len() implies (#[trigger] ranks2[k]).len() > 0 by {
            if k < r {
                assert(ranks[k].len() > 0);
            }
        }
    }
    assert(p.partly_levelled_by(level2)) by {
        assert forall|u: int, v: int| #[trigger]
            p.edges.contains((u, v)) && level2[v] >= 0 implies 0 <= level2[u] < level2[v] by {
            assert(0 <= u < n && 0 <= v < n);
            if next@.contains(v as u8) {
                let i = choose|i: int| 0 <= i < next.len() && next@[i] == v as u8;
                assert(p.ready(visited, next[i] as int));
                assert(visited[u]);
                assert(level[u] >= 0);
            } else {
                assert(level[v] >= 0);
                assert(0 <= level[u] < level[v]);
                assert(visited[u]);
            }
        }
    }
    assert(p.steepest(level2)) by {
        assert forall|v: int| 0 <= v < n && #[trigger] raised(level2, v) implies exists|u: int| #[trigger]
            p.edges.contains((u, v)) && level2[u] == level2[v] - 1 by {
            if next@.contains(v as u8) {
                let i = choose|i: int| 0 <= i < next.len() && next@[i] == v as u8;
                assert(p.ready(visited, next[i] as int));
                assert(level[v] == -1);
                assert(waiting(level, v));
                let u = choose|u: int| #[trigger]
                    p.edges.contains((u, v)) && (level[u] == -1 || level[u] == r - 1);
                assert(0 <= u < n);
                assert(visited[u]);
                assert(level[u] >= 0);
                assert(p.edges.contains((u, v)) && level2[u] == level2[v] - 1);
            } else {
                assert(level[v] >= 1);
                assert(raised(level, v));
                let u = choose|u: int| #[trigger]
                    p.edges.contains((u, v)) && level[u] == level[v] - 1;
                assert(0 <= u < n);
                assert(level[u] >= 0);
                assert(visited[u]);
                assert(p.edges.contains((u, v)) && level2[u] == level2[v] - 1);
            }
        }
        assert forall|v: int| 0 <= v < n implies (#[trigger] level2[v] == 0 <==> v == 0) by {
            assert(level[0] == 0);
            assert(visited[0]);
            assert(level[v] == 0 <==> v == 0);
        }
    }
    assert forall|v: int| 0 <= v < n && #[trigger] waiting(level2, v) implies exists|u: int| #[trigger]
        p.edges.contains((u, v)) && (level2[u] == -1 || level2[u] == ranks2.len() - 1) by {
        assert(!next@.contains(v as u8));
        assert(level[v] == -1);
        assert(!visited[v]);
        assert(!p.ready(visited, v));
        let u = choose|u: int| #[trigger] p.edges.contains((u, v)) && !visited[u];
        assert(0 <= u < n);
        assert(level[u] < 0);
        assert(level[u] == -1);
        assert(p.edges.contains((u, v)) && (level2[u] == -1 || level2[u] == ranks2.len() - 1));
    }
    assert(order2 == flat(ranks2)) by {
        assert(ranks2.drop_last() =~= ranks);
        assert(ranks2.last() == next);
    }
    assert forall|i: int| 0 <= i < order2.len() implies (#[trigger] order2[i] as int) < n
        && level2[order2[i] as int] >= 0 by {
        if i < order.len() {
            assert(order2[i] == order[i]);
            assert(level[order[i] as int] >= 0);
            assert(visited[order[i] as int]);
        } else {
            assert(order2[i] == next[i - order.len()]);
            assert(next@.contains(next[i - order.len()]));
        }
    }
    assert forall|i: int, j: int| 0 <= i < j < order2.len() implies level2[#[trigger] order2[i] as int]
        <= level2[#[trigger] order2[j] as int] && order2[i] != order2[j] by {
        if j < order.len() {
            assert(order2[i] == order[i] && order2[j] == order[j]);
            assert(level[order[i] as int] <= level[order[j] as int] && order[i] != order[j]);
            assert(visited[order[i] as int]);
            assert(visited[order[j] as int]);
        } else if i < order.len() {
            assert(order2[i] == order[i]);
            assert(order2[j] == next[j - order.len()]);
            assert(next@.contains(next[j - order.len()]));
            assert(visited[order[i] as int]);
            assert(level[order[i] as int] < r);
        } else {
            assert(order2[i] == next[i - order.len()]);
            assert(order2[j] == next[j - order.len()]);
            assert(next@.contains(next[i - order.len()]));
            assert(next@.contains(next[j - order.len()]));
            assert(next[i - order.len()] < next[j - order.len()]);
        }
    }
    assert forall|a: int| 0 <= a < n && #[trigger] level2[a] >= 0 implies occurs(order2, a) by {
        if next@.contains(a as u8) {
            let i = choose|i: int| 0 <= i < next.len() && next@[i] == a as u8;
            assert(order2[order.len() + i] == a);
        } else {
            assert(occurs(order, a));
            let i = choose|i: int| 0 <= i < order.len() && #[trigger] order[i] == a;
            assert(order2[i] == a);
        }
    }
}

/// Where the search for ranks is stuck, an activity without a rank cannot be
/// put in an order with its predecessors: no numbering that respects the
/// edges gives it a number.
pub proof fn lemma_stuck(p: Project, level: Seq<int>, other: Seq<int>, a: int)
    requires
        p.shaped(),
        level.len() == p.jobs(),
        p.stuck(level),
        p.partly_levelled_by(other),
        0 <= a < p.jobs(),
        level[a] == -1,
    ensures
        other[a] < 0,
    decreases other[a],
{
    if other[a] >= 0 {
        assert(waiting(level, a));
        let u = choose|u: int| #[trigger] p.edges.contains((u, a)) && level[u] == -1;
        assert(0 <= u < p.jobs());
        assert(0 <= other[u] < other[a]);
        lemma_stuck(p, level, other, u);
    }
}

/// Once every activity has a rank, the ranks are the ranks of the project, and
/// one after the other they are a topological order.
pub proof fn lemma_layers_complete(
    p: Project,
    ranks: Seq<Vec<u8>>,
    order: Seq<u8>,
    visited: Seq<bool>,
    level: Seq<int>,
)
    requires
        p.shaped(),
        p.layering(ranks, order, visited, level),
        forall|a: int| 0 <= a < p.jobs() ==> #[trigger] level[a] >= 0,
    ensures
        p.levelled_by(level),
        p.steepest(level),
        p.ranked_by(ranks, level),
        p.layered(ranks),
        p.topological(order),
        p.initial_order(order),
{
    assert(p.levelled_by(level)) by {
        assert forall|u: int, v: int| #[trigger] p.edges.contains((u, v)) implies level[u]
            < level[v] by {
            assert(0 <= v < p.jobs());
            assert(level[v] >= 0);
        }
    }
    assert forall|a: int| 0 <= a < visited.len() implies visited[a] by {
        assert(level[a] >= 0);
    }
    lemma_count_all(visited);
    assert(order.len() == p.jobs());
    assert forall|a: int| 0 <= a < p.jobs() implies #[trigger] occurs(order, a) by {
        assert(level[a] >= 0);
    }
    assert forall|i: int, j: int| 0 <= i < j < p.jobs() implies #[trigger] order[i]
        != #[trigger] order[j] by {}
    assert(crate::order::is_permutation(order, p.jobs()));
    assert(p.topological(order)) by {
        assert forall|i: int, j: int|
            0 <= i < order.len() && 0 <= j < order.len() && #[trigger] p.edges.contains(
                (order[i] as int, order[j] as int),
            ) implies i < j by {
            assert(level[order[j] as int] >= 0);
            assert(level[order[i] as int] < level[order[j] as int]);
            if j < i {
                assert(level[order[j] as int] <= level[order[i] as int]);
            }
        }
    }
}

/// Where no activity can get the next rank, the search is stuck.
proof fn lemma_no_next_rank(
    p: Project,
    ranks: Seq<Vec<u8>>,
    order: Seq<u8>,
    visited: Seq<bool>,
    level: Seq<int>,
    next: Seq<u8>,
)
    requires
        p.shaped(),
        p.layering(ranks, order, visited, level),
        p.next_rank(visited, next, p.jobs()),
        next.len() == 0,
    ensures
        p.stuck(level),
{
    assert forall|v: int| 0 <= v < p.jobs() && #[trigger] waiting(level, v) implies exists|u: int| #[trigger]
        p.edges.contains((u, v)) && level[u] == -1 by {
        assert(!visited[v]);
        if p.ready(visited, v) {
            assert(next.contains(v as u8));
            let i = choose|i: int| 0 <= i < next.len() && next[i] == v as u8;
        }
        let u = choose|u: int| #[trigger] p.edges.contains((u, v)) && !visited[u];
        assert(0 <= u < p.jobs());
        assert(level[u] < 0);
        assert(-1 <= level[u]);
    }
}

/// Marks the activities of a new rank and appends them to the order.
fn mark_rank(visited: &mut Vec<bool>, order: &mut Vec<u8>, next: &Vec<u8>)
    requires
        old(visited).len() <= 256,
        forall|i: int|
            0 <= i < next.len() ==> (#[trigger] next[i] as int) < old(visited).len() && !old(
                visited,
            )[next[i] as int],
        forall|i: int, j: int| 0 <= i < j < next.len() ==> #[trigger] next[i] < #[trigger] next[j],
    ensures
        final(visited).len() == old(visited).len(),
        forall|a: int|
            0 <= a < old(visited).len() ==> (#[trigger] final(visited)[a] <==> (old(visited)[a]
                || next@.contains(a as u8))),
        final(order)@ == old(order)@ + next@,
        count_true(final(visited)@) == count_true(old(visited)@) + next.len(),
{
    let ghost visited0 = visited@;
    let ghost order0 = order@;
    let n = visited.len();
    let mut i: usize = 0;
    while i < next.len()
        invariant
            n <= 256,
            visited0.len() == n,
            visited.len() == n,
            i <= next.len(),
            forall|i: int|
                0 <= i < next.len() ==> (#[trigger] next[i] as int) < n && !visited0[next[i] as int],
            forall|i: int, j: int|
                0 <= i < j < next.len() ==> #[trigger] next[i] < #[trigger] next[j],
            forall|a: int|
                0 <= a < n ==> (#[trigger] visited[a] <==> (visited0[a] || placed(
                    next@,
                    i as int,
                    a,
                ))),
            order@ == order0 + next@.subrange(0, i as int),
            count_true(visited@) == count_true(visited0) + i,
        decreases next.len() - i,
    {
        let b = next[i];
        proof {
            assert(!visited0[b as int]);
            assert(!placed(next@, i as int, b as int)) by {
                if placed(next@, i as int, b as int) {
                    let j = choose|j: int|
                        0 <= j < i && j < next@.len() && #[trigger] next@[j] == b;
                    assert(next[j] < next[i as int]);
                }
            }
            lemma_count_set(visited@, b as int);
        }
        visited[b as usize] = true;
        order.push(b);
        proof {
            assert(order@ =~= order0 + next@.subrange(0, i as int + 1));
            assert forall|a: int| 0 <= a < n implies (placed(next@, i as int + 1, a) <==> (placed(
                next@,
                i as int,
                a,
            ) || a == b)) by {
                if placed(next@, i as int + 1, a) {
                    let j = choose|j: int|
                        0 <= j < i + 1 && j < next@.len() && #[trigger] next@[j] == a;
                    if j < i {
                        assert(placed(next@, i as int, a));
                    }
                }
                if placed(next@, i as int, a) {
                    let j = choose|j: int|
                        0 <= j < i && j < next@.len() && #[trigger] next@[j] == a;
                    assert(0 <= j < i + 1 && next@[j] == a);
                }
                if a == b {
                    assert(next@[i as int] == a);
                }
            }
        }
        i += 1;
    }
    proof {
        assert forall|a: int| 0 <= a < n implies (placed(next@, next.len() as int, a)
            <==> next@.contains(a as u8)) by {
            if placed(next@, next.len() as int, a) {
                let j = choose|j: int|
                    0 <= j < next.len() && j < next@.len() && #[trigger] next@[j] == a;
                assert(next@[j] == a as u8);
            }
            if next@.contains(a as u8) {
                let j = choose|j: int| 0 <= j < next@.len() && next@[j] == a as u8;
                assert(next@[j] == a);
            }
        }
        assert(next@.subrange(0, next.len() as int) =~= next@);
    }
}

/// The level of an activity is no higher than any numbering that respects
/// the edges puts it.
proof fn lemma_level_lowest(p: Project, level: Seq<int>, other: Seq<int>, v: int)
    requires
        p.shaped(),
        p.levelled_by(level),
        p.steepest(level),
        p.levelled_by(other),
        0 <= v < p.jobs(),
    ensures
        level[v] <= other[v],
    decreases level[v],
{
    if level[v] >= 1 {
        assert(raised(level, v));
        let u = choose|u: int| #[trigger] p.edges.contains((u, v)) && level[u] == level[v] - 1;
        assert(0 <= u < p.jobs());
        lemma_level_lowest(p, level, other, u);
        assert(other[u] < other[v]);
    }
}

/// A project has one assignment of levels only.
pub proof fn lemma_levels_unique(p: Project, level: Seq<int>, other: Seq<int>)
    requires
        p.shaped(),
        p.levelled_by(level),
        p.steepest(level),
        p.levelled_by(other),
        p.steepest(other),
    ensures
        level == other,
{
    assert forall|v: int| 0 <= v < p.jobs() implies level[v] == other[v] by {
        lemma_level_lowest(p, level, other, v);
        lemma_level_lowest(p, other, level, v);
    }
    assert(level =~= other);
}

/// Two ascending lists of the same activities are the same list.
proof fn lemma_ascending_unique(a: Seq<u8>, b: Seq<u8>)
    requires
        forall|i: int, j: int| 0 <= i < j < a.len() ==> #[trigger] a[i] < #[trigger] a[j],
        forall|i: int, j: int| 0 <= i < j < b.len() ==> #[trigger] b[i] < #[trigger] b[j],
        forall|x: u8| a.contains(x) <==> b.contains(x),
    ensures
        a == b,
    decreases a.len(),
{
    if a.len() == 0 {
        if b.len() > 0 {
            assert(b.contains(b[0]));
        }
        assert(a =~= b);
    } else {
        let top = a.last();
        assert(a.contains(top));
        assert(b.contains(top));
        let at = choose|at: int| 0 <= at < b.len() && b[at] == top;
        assert(b.contains(b.last()));
        assert(a.contains(b.last()));
        let back = choose|back: int| 0 <= back < a.len() && a[back] == b.last();
        if back < a.len() - 1 {
            assert(a[back] < a[a.len() - 1]);
        }
        if at < b.len() - 1 {
            assert(b[at] < b[b.len() - 1]);
        }
        assert(b.last() == top);
        let shorter = a.drop_last();
        let other = b.drop_last();
        assert forall|x: u8| shorter.contains(x) <==> other.contains(x) by {
            if shorter.contains(x) {
                let i = choose|i: int| 0 <= i < shorter.len() && shorter[i] == x;
                assert(a[i] == x);
                assert(a[i] < a[a.len() - 1]);
                assert(a.contains(x));
                let j = choose|j: int| 0 <= j < b.len() && b[j] == x;
                assert(other[j] == x);
            }
            if other.contains(x) {
                let j = choose|j: int| 0 <= j < other.len() && other[j] == x;
                assert(b[j] == x);
                assert(b[j] < b[b.len() - 1]);
                assert(b.contains(x));
                let i = choose|i: int| 0 <= i < a.len() && a[i] == x;
                assert(shorter[i] == x);
            }
        }
        assert forall|i: int, j: int| 0 <= i < j < shorter.len() implies #[trigger] shorter[i]
            < #[trigger] shorter[j] by {
            assert(a[i] < a[j]);
        }
        assert forall|i: int, j: int| 0 <= i < j < other.len() implies #[trigger] other[i]
            < #[trigger] other[j] by {
            assert(b[i] < b[j]);
        }
        lemma_ascending_unique(shorter, other);
        assert(a =~= shorter.push(top));
        assert(b =~= other.push(top));
    }
}

/// Ranks that hold the same lists give the same order.
proof fn lemma_flat_alike(ranks: Seq<Vec<u8>>, other: Seq<Vec<u8>>)
    requires
        ranks.len() == other.len(),
        forall|k: int| 0 <= k < ranks.len() ==> (#[trigger] ranks[k])@ == other[k]@,
    ensures
        flat(ranks) == flat(other),
    decreases ranks.len(),
{
    if ranks.len() > 0 {
        assert(ranks.last()@ == other.last()@);
        assert forall|k: int| 0 <= k < ranks.drop_last().len() implies (
        #[trigger] ranks.drop_last()[k])@ == other.drop_last()[k]@ by {
            assert(ranks[k]@ == other[k]@);
        }
        lemma_flat_alike(ranks.drop_last(), other.drop_last());
    }
}

/// A project has one order in which the search starts.
pub proof fn lemma_initial_order_unique(p: Project, order: Seq<u8>, other: Seq<u8>)
    requires
        p.shaped(),
        p.initial_order(order),
        p.initial_order(other),
    ensures
        order == other,
{
    let ranks = choose|ranks: Seq<Vec<u8>>| p.layered(ranks) && order == flat(ranks);
    let ranks_other = choose|ranks: Seq<Vec<u8>>| p.layered(ranks) && other == flat(ranks);
    let level = choose|level: Seq<int>|
        p.levelled_by(level) && p.steepest(level) && p.ranked_by(ranks, level);
    let level_other = choose|level: Seq<int>|
        p.levelled_by(level) && p.steepest(level) && p.ranked_by(ranks_other, level);
    lemma_levels_unique(p, level, level_other);
    assert(ranks.len() == ranks_other.len()) by {
        if ranks.len() < ranks_other.len() {
            let top = ranks_other.len() - 1;
            assert(ranks_other[top].len() > 0);
            let a = ranks_other[top][0] as int;
            assert(level[a] == top);
        }
        if ranks_other.len() < ranks.len() {
            let top = ranks.len() - 1;
            assert(ranks[top].len() > 0);
            let a = ranks[top][0] as int;
            assert(level[a] == top);
        }
    }
    assert forall|k: int| 0 <= k < ranks.len() implies (#[trigger] ranks[k])@ == ranks_other[k]@ by {
        let one = ranks[k]@;
        let two = ranks_other[k]@;
        assert forall|x: u8| one.contains(x) <==> two.contains(x) by {
            if one.contains(x) {
                let i = choose|i: int| 0 <= i < one.len() && one[i] == x;
                assert(ranks[k][i] == x);
                assert(level[x as int] == k);
                assert(ranks_other[level[x as int]]@.contains(x as int as u8));
            }
            if two.contains(x) {
                let i = choose|i: int| 0 <= i < two.len() && two[i] == x;
                assert(ranks_other[k][i] == x);
                assert(level[x as int] == k);
                assert(ranks[level[x as int]]@.contains(x as int as u8));
            }
        }
        assert forall|i: int, j: int| 0 <= i < j < one.len() implies #[trigger] one[i]
            < #[trigger] one[j] by {
            assert(ranks[k][i] < ranks[k][j]);
        }
        assert forall|i: int, j: int| 0 <= i < j < two.len() implies #[trigger] two[i]
            < #[trigger] two[j] by {
            assert(ranks_other[k][i] < ranks_other[k][j]);
        }
        lemma_ascending_unique(one, two);
    }
    lemma_flat_alike(ranks, ranks_other);
}

/// The ranks as they were found, with what was found beside them.
pub(crate) struct Layers {
    /// The ranks, each in ascending order.
    pub ranks: Vec<Vec<u8>>,
    /// The ranks one after the other.
    pub order: Vec<u8>,
    /// For each activity, whether it has a rank.
    pub visited: Vec<bool>,
    /// For each activity its rank, -1 where it has none.
    pub level: Ghost<Seq<int>>,
}

impl DAG {
    /// Whether every predecessor of `b` is marked.
    fn all_predecessors_visited(&self, visited: &Vec<bool>, b: usize) -> (ready: bool)
        requires
            self.consistent(),
            visited.len() == self@.jobs(),
            b < self@.jobs(),
        ensures
            ready == self@.ready(visited@, b as int),
    {
        let list = &self.predecessors[b];
        let mut i: usize = 0;
        while i < list.len()
            invariant
                self.consistent(),
                visited.len() == self@.jobs(),
                b < self@.jobs(),
                list == &self.predecessors[b as int],
                i <= list.len(),
                forall|j: int| 0 <= j < i ==> visited[#[trigger] list[j] as int],
            decreases list.len() - i,
        {
            let u = list[i];
            assert(self@.edges.contains((u as int, b as int)));
            assert(0 <= u < self@.jobs());
            if !visited[u as usize] {
                return false;
            }
            i += 1;
        }
        proof {
            assert forall|u: int| #[trigger] self@.edges.contains((u, b as int)) implies visited[u] by {
                assert(list@.contains(u as u8));
                let j = choose|j: int| 0 <= j < list.len() && list[j] == u as u8;
                assert(0 <= u < self@.jobs());
                assert(visited[list[j] as int]);
            }
        }
        true
    }

    /// The activities that get the next rank.
    fn find_next_rank(&self, visited: &Vec<bool>) -> (next: Vec<u8>)
        requires
            self.consistent(),
            visited.len() == self@.jobs(),
        ensures
            self@.next_rank(visited@, next@, self@.jobs()),
    {
        let n = self.durations.len();
        let mut next: Vec<u8> = Vec::new();
        let mut b: usize = 0;
        while b < n
            invariant
                self.consistent(),
                visited.len() == self@.jobs(),
                n == self@.jobs(),
                b <= n,
                self@.next_rank(visited@, next@, b as int),
            decreases n - b,
        {
            let ghost before = next@;
            if !visited[b] && self.all_predecessors_visited(visited, b) {
                next.push(b as u8);
                proof {
                    assert forall|i: int, j: int| 0 <= i < j < next.len() implies #[trigger] next[i]
                        < #[trigger] next[j] by {
                        if j == next.len() - 1 {
                            assert(next[i] == before[i]);
                            assert((before[i] as int) < b);
                        } else {
                            assert(next[i] == before[i] && next[j] == before[j]);
                        }
                    }
                    assert forall|i: int| 0 <= i < next.len() implies (#[trigger] next[i] as int)
                        < b + 1 && !visited[next[i] as int] && self@.ready(
                        visited@,
                        next[i] as int,
                    ) by {
                        if i < next.len() - 1 {
                            assert(next[i] == before[i]);
                        }
                    }
                    assert forall|c: int|
                        0 <= c < b + 1 && !#[trigger] visited[c] && self@.ready(
                            visited@,
                            c,
                        ) implies next@.contains(c as u8) by {
                        if c < b {
                            assert(before.contains(c as u8));
                            let i = choose|i: int| 0 <= i < before.len() && before[i] == c as u8;
                            assert(next[i] == c as u8);
                        } else {
                            assert(next[next.len() - 1] == c as u8);
                        }
                    }
                }
            }
            b += 1;
        }
        next
    }

    /// Builds the ranks: rank 0 is the source; then, again and again, the
    /// activities without a rank whose predecessors all have one form the next
    /// rank, until there is none.
    pub(crate) fn build_layers(&self) -> (layers: Layers)
        requires
            self.consistent(),
            forall|a: int| 0 <= a < self@.jobs() ==> self@.connected(a),
        ensures
            self@.layering(layers.ranks@, layers.order@, layers.visited@, layers.level@),
            self@.stuck(layers.level@),
    {
        let ghost p = self@;
        let n = self.durations.len();
        let mut visited: Vec<bool> = Vec::new();
        let mut a: usize = 0;
        while a < n
            invariant
                a <= n,
                visited.len() == a,
                forall|b: int| 0 <= b < a ==> !#[trigger] visited[b],
            decreases n - a,
        {
            visited.push(false);
            a += 1;
        }
        visited[0] = true;
        let mut first: Vec<u8> = Vec::new();
        first.push(0);
        let mut ranks: Vec<Vec<u8>> = Vec::new();
        ranks.push(first);
        let mut order: Vec<u8> = Vec::new();
        order.push(0);
        let ghost mut level: Seq<int> = Seq::new(
            n as nat,
            |a: int|
                if a == 0 {
                    0int
                } else {
                    -1int
                },
        );
        proof {
            assert(ranks[0]@ =~= seq![0u8]);
            assert(order@ =~= seq![0u8]);
            lemma_first_rank(p, ranks@, order@, visited@, level);
        }
        let mut done = false;
        while !done
            invariant
                self.consistent(),
                p == self@,
                n == p.jobs(),
                p.layering(ranks@, order@, visited@, level),
                done ==> p.stuck(level),
            decreases
                    n - order.len() + if done {
                        0int
                    } else {
                        1int
                    },
        {
            proof {
                lemma_count_bounds(visited@);
            }
            let next = self.find_next_rank(&visited);
            if next.len() == 0 {
                done = true;
                proof {
                    lemma_no_next_rank(p, ranks@, order@, visited@, level, next@);
                }
            } else {
                let ghost visited0 = visited@;
                let ghost level0 = level;
                let ghost order0 = order@;
                mark_rank(&mut visited, &mut order, &next);
                proof {
                    level = Seq::new(
                        n as nat,
                        |a: int|
                            if next@.contains(a as u8) {
                                ranks.len() as int
                            } else {
                                level0[a]
                            },
                    );
                    lemma_next_rank(p, ranks@, order0, visited0, level0, next, visited@, level);
                    lemma_count_bounds(visited@);
                }
                ranks.push(next);
            }
        }
        Layers { ranks, order, visited, level: Ghost(level) }
    }

    /// Builds the ranks of a graph that is known to be acyclic: then every
    /// activity gets a rank.
    fn build_all_layers(&self) -> (layers: Layers)
        requires
            self.wf(),
        ensures
            self@.layering(layers.ranks@, layers.order@, layers.visited@, layers.level@),
            self@.layered(layers.ranks@),
            self@.topological(layers.order@),
            self@.initial_order(layers.order@),
    {
        let layers = self.build_layers();
        proof {
            let p = self@;
            let other = self.levels@;
            assert(p.partly_levelled_by(other));
            assert forall|a: int| 0 <= a < p.jobs() implies #[trigger] layers.level@[a] >= 0 by {
                if layers.level@[a] == -1 {
                    lemma_stuck(p, layers.level@, other, a);
                }
            }
            lemma_layers_complete(p, layers.ranks@, layers.order@, layers.visited@, layers.level@);
        }
        layers
    }

    /// The ranks of the project: rank 0 holds the source, and every other
    /// activity stands in the first rank after those of all its predecessors;
    /// each rank is in ascending order.
    pub fn compute_job_execution_ranks(&self) -> (ranks: Vec<Vec<u8>>)
        requires
            self.wf(),
        ensures
            self@.layered(ranks@),
            self@.topological(flat(ranks@)),
    {
        let layers = self.build_all_layers();
        layers.ranks
    }

    /// The order in which the search starts: the ranks one after the other.
    pub fn compute_initial_schedule(&self) -> (schedule: Vec<u8>)
        requires
            self.wf(),
        ensures
            self@.initial_order(schedule@),
            self@.topological(schedule@),
    {
        let layers = self.build_all_layers();
        layers.order
    }

    /// An order in which a further walker starts: the ranks one after the
    /// other, each shuffled. It is a topological order, since no edge joins
    /// two activities of one rank.
    pub fn compute_diversified_schedule(&self, ranks: &Vec<Vec<u8>>) -> (schedule: Vec<u8>)
        requires
            self.wf(),
            self@.layered(ranks@),
        ensures
            self@.topological(schedule@),
            mixed_order(ranks@, schedule@),
    {
        let ghost p = self@;
        let ghost level = choose|level: Seq<int>|
            p.levelled_by(level) && p.steepest(level) && p.ranked_by(ranks@, level);
        let mut schedule: Vec<u8> = Vec::new();
        let ghost mut mixed: Seq<Seq<u8>> = Seq::empty();
        let mut k: usize = 0;
        while k < ranks.len()
            invariant
                self.wf(),
                p == self@,
                p.levelled_by(level),
                p.ranked_by(ranks@, level),
                k <= ranks.len(),
                mixed.len() == k,
                forall|r: int|
                    0 <= r < k ==> (#[trigger] mixed[r]).to_multiset() == ranks[r]@.to_multiset(),
                schedule@ == join(mixed),
                forall|i: int|
                    0 <= i < schedule.len() ==> (#[trigger] schedule[i] as int) < p.jobs()
                        && level[schedule[i] as int] < k,
                forall|i: int, j: int|
                    0 <= i < j < schedule.len() ==> level[#[trigger] schedule[i] as int]
                        <= level[#[trigger] schedule[j] as int] && schedule[i] != schedule[j],
                forall|a: int|
                    0 <= a < p.jobs() && #[trigger] level[a] < k ==> occurs(schedule@, a),
            decreases ranks.len() - k,
        {
            let mut rank = crate::util::copy_bytes(ranks[k].as_slice());
            let ghost sorted = rank@;
            let ghost before = schedule@;
            proof {
                assert(sorted.no_duplicates()) by {
                    assert forall|i: int, j: int|
                        0 <= i < sorted.len() && 0 <= j < sorted.len() && i != j implies sorted[i]
                        != sorted[j] by {
                        if i < j {
                            assert(ranks[k as int][i] < ranks[k as int][j]);
                        } else {
                            assert(ranks[k as int][j] < ranks[k as int][i]);
                        }
                    }
                }
            }
            shuffle(&mut rank);
            proof {
                lemma_shuffled(sorted, rank@);
                assert forall|i: int| 0 <= i < rank.len() implies (#[trigger] rank[i] as int)
                    < p.jobs() && level[rank[i] as int] == k by {
                    assert(rank@.contains(rank@[i]));
                    assert(sorted.contains(rank@[i]));
                    let j = choose|j: int| 0 <= j < sorted.len() && sorted[j] == rank@[i];
                    assert(ranks[k as int][j] == rank@[i]);
                }
            }
            let mut i: usize = 0;
            while i < rank.len()
                invariant
                    i <= rank.len(),
                    schedule@ == before + rank@.subrange(0, i as int),
                decreases rank.len() - i,
            {
                schedule.push(rank[i]);
                assert(schedule@ =~= before + rank@.subrange(0, i as int + 1));
                i += 1;
            }
            proof {
                assert(rank@.subrange(0, rank.len() as int) =~= rank@);
                let longer = mixed.push(rank@);
                assert(longer.drop_last() =~= mixed);
                assert(join(longer) == join(mixed) + rank@);
                assert forall|r: int| 0 <= r < k + 1 implies (#[trigger] longer[r]).to_multiset()
                    == ranks[r]@.to_multiset() by {
                    if r < k {
                        assert(longer[r] == mixed[r]);
                    }
                }
                assert forall|i: int| 0 <= i < schedule.len() implies (
                #[trigger] schedule[i] as int) < p.jobs() && level[schedule[i] as int] < k + 1 by {
                    if i < before.len() {
                        assert(schedule[i] == before[i]);
                    } else {
                        assert(schedule[i] == rank[i - before.len()]);
                    }
                }
                assert forall|i: int, j: int| 0 <= i < j < schedule.len() implies level[
                #[trigger] schedule[i] as int] <= level[#[trigger] schedule[j] as int]
                    && schedule[i] != schedule[j] by {
                    if j < before.len() {
                        assert(schedule[i] == before[i] && schedule[j] == before[j]);
                    } else if i < before.len() {
                        assert(schedule[i] == before[i]);
                        assert(schedule[j] == rank[j - before.len()]);
                        assert(level[before[i] as int] < k);
                    } else {
                        assert(schedule[i] == rank[i - before.len()]);
                        assert(schedule[j] == rank[j - before.len()]);
                    }
                }
                assert forall|a: int| 0 <= a < p.jobs() && #[trigger] level[a] < k + 1 implies occurs(
                    schedule@,
                    a,
                ) by {
                    if level[a] < k {
                        assert(occurs(before, a));
                        let i = choose|i: int| 0 <= i < before.len() && #[trigger] before[i] == a;
                        assert(schedule[i] == a);
                    } else {
                        assert(level[a] >= 0);
                        assert(ranks[level[a]]@.contains(a as u8));
                        assert(sorted.contains(a as u8));
                        assert(rank@.contains(a as u8));
                        let i = choose|i: int| 0 <= i < rank@.len() && rank@[i] == a as u8;
                        assert(schedule[before.len() + i] == a);
                    }
                }
                mixed = longer;
            }
            k += 1;
        }
        proof {
            lemma_levels_topological(p, schedule@, level, ranks.len() as int);
            assert(mixed_ranks(ranks@, mixed));
        }
        schedule
    }
}

/// An order that holds every activity once, level by level, is topological.
proof fn lemma_levels_topological(p: Project, order: Seq<u8>, level: Seq<int>, ranks: int)
    requires
        p.shaped(),
        p.levelled_by(level),
        forall|a: int| 0 <= a < p.jobs() ==> #[trigger] level[a] < ranks,
        forall|i: int|
            0 <= i < order.len() ==> (#[trigger] order[i] as int) < p.jobs() && level[order[i] as int]
                < ranks,
        forall|i: int, j: int|
            0 <= i < j < order.len() ==> level[#[trigger] order[i] as int]
                <= level[#[trigger] order[j] as int] && order[i] != order[j],
        forall|a: int| 0 <= a < p.jobs() && #[trigger] level[a] < ranks ==> occurs(order, a),
    ensures
        p.topological(order),
{
    assert forall|a: int| 0 <= a < p.jobs() implies #[trigger] occurs(order, a) by {
        assert(level[a] < ranks);
    }
    crate::order::lemma_distinct_cover(order, p.jobs());
    assert forall|i: int, j: int|
        0 <= i < order.len() && 0 <= j < order.len() && #[trigger] p.edges.contains(
            (order[i] as int, order[j] as int),
        ) implies i < j by {
        assert(level[order[i] as int] < level[order[j] as int]);
        if j < i {
            assert(level[order[j] as int] <= level[order[i] as int]);
        }
    }
}

} // verus!
