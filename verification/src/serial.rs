//! The serial schedule of an order: each activity in turn starts at the first
//! time at which its predecessors have finished and its resources are free.

use crate::order::is_permutation;
use crate::order::occurs;
use crate::order::placed;
use crate::order::swap_positions;
use crate::order::with_swap;
use crate::project::Project;
use crate::project::RESOURCES;
use vstd::prelude::*;

verus! {

impl Project {
    /// The time at which activity `a` ends when it starts as `starts` says.
    pub open spec fn finish(self, starts: Seq<int>, a: int) -> int {
        starts[a] + self.durations[a]
    }

    /// The latest end among the predecessors of `a` that are below `m`, or 0.
    pub open spec fn latest_finish(self, starts: Seq<int>, a: int, m: int) -> int
        decreases m,
    {
        if m <= 0 {
            0
        } else {
            let rest = self.latest_finish(starts, a, m - 1);
            if self.edges.contains((m - 1, a)) && self.finish(starts, m - 1) > rest {
                self.finish(starts, m - 1)
            } else {
                rest
            }
        }
    }

    /// The earliest start that precedence allows to `a`: the latest end among
    /// its predecessors, 0 where it has none.
    pub open spec fn precedence_start(self, starts: Seq<int>, a: int) -> int {
        self.latest_finish(starts, a, self.jobs())
    }

    /// Activity `a` is being executed at time `t`.
    pub open spec fn running(self, starts: Seq<int>, a: int, t: int) -> bool {
        starts[a] <= t < starts[a] + self.durations[a]
    }

    /// What the first `n` activities of `order` take of resource `k` at time `t`.
    pub open spec fn load(self, order: Seq<u8>, starts: Seq<int>, n: int, k: int, t: int) -> int
        decreases n,
    {
        if n <= 0 {
            0
        } else {
            let a = order[n - 1] as int;
            self.load(order, starts, n - 1, k, t) + if self.running(starts, a, t) {
                self.requests[a][k]
            } else {
                0
            }
        }
    }

    /// Beside the first `n` activities of `order`, activity `a` can run from
    /// `t` on without overloading a resource.
    pub open spec fn fits(self, order: Seq<u8>, starts: Seq<int>, n: int, a: int, t: int) -> bool {
        forall|k: int, x: int|
            0 <= k < RESOURCES && t <= x < t + self.durations[a] ==> #[trigger] self.load(
                order,
                starts,
                n,
                k,
                x,
            ) + self.requests[a][k] <= self.capacities[k]
    }

    /// The first time from `t` on at which `a` fits, looked for up to `limit`.
    pub open spec fn first_fit(
        self,
        order: Seq<u8>,
        starts: Seq<int>,
        n: int,
        a: int,
        t: int,
        limit: int,
    ) -> int
        decreases limit - t,
    {
        if t >= limit || self.fits(order, starts, n, a, t) {
            t
        } else {
            self.first_fit(order, starts, n, a, t + 1, limit)
        }
    }

    /// The sum of the durations of the first `n` activities of `order`.
    pub open spec fn elapsed(self, order: Seq<u8>, n: int) -> int
        decreases n,
    {
        if n <= 0 {
            0
        } else {
            self.elapsed(order, n - 1) + self.durations[order[n - 1] as int]
        }
    }

    /// The start times after the first `n` activities of `order` have been
    /// scheduled one by one; an activity not yet scheduled has 0.
    pub open spec fn serial_starts(self, order: Seq<u8>, n: int) -> Seq<int>
        decreases n,
    {
        if n <= 0 {
            Seq::new(self.durations.len(), |a: int| 0int)
        } else {
            let before = self.serial_starts(order, n - 1);
            let a = order[n - 1] as int;
            let earliest = self.precedence_start(before, a);
            before.update(
                a,
                self.first_fit(order, before, n - 1, a, earliest, self.elapsed(order, n - 1)),
            )
        }
    }

    /// The start time of every activity in the serial schedule of `order`.
    pub open spec fn start_times(self, order: Seq<u8>) -> Seq<int> {
        self.serial_starts(order, self.jobs())
    }

    /// The latest end among the activities below `m`.
    pub open spec fn latest_end(self, starts: Seq<int>, m: int) -> int
        decreases m,
    {
        if m <= 0 {
            0
        } else {
            let rest = self.latest_end(starts, m - 1);
            if self.finish(starts, m - 1) > rest {
                self.finish(starts, m - 1)
            } else {
                rest
            }
        }
    }

    /// The makespan of `order`: the time at which the last activity of its
    /// serial schedule ends.
    pub open spec fn makespan(self, order: Seq<u8>) -> int {
        self.latest_end(self.start_times(order), self.jobs())
    }

    /// What the marked activities below `m` take of resource `k` at time `t`.
    pub open spec fn usage_of(
        self,
        starts: Seq<int>,
        marks: Seq<bool>,
        m: int,
        k: int,
        t: int,
    ) -> int
        decreases m,
    {
        if m <= 0 {
            0
        } else {
            self.usage_of(starts, marks, m - 1, k, t) + if marks[m - 1] && self.running(
                starts,
                m - 1,
                t,
            ) {
                self.requests[m - 1][k]
            } else {
                0
            }
        }
    }

    /// What the activities that run at time `t` take of resource `k`
    /// together.
    pub open spec fn usage(self, starts: Seq<int>, k: int, t: int) -> int {
        self.usage_of(starts, Seq::new(self.durations.len(), |a: int| true), self.jobs(), k, t)
    }

    /// What holds of the start times once the first `n` activities of `order`
    /// are scheduled.
    pub open spec fn scheduled(self, order: Seq<u8>, starts: Seq<int>, n: int) -> bool {
        &&& starts.len() == self.jobs()
        &&& forall|a: int| 0 <= a < self.jobs() ==> 0 <= #[trigger] starts[a]
        &&& forall|i: int|
            0 <= i < n ==> self.finish(starts, #[trigger] order[i] as int) <= self.elapsed(order, n)
        &&& forall|a: int|
            0 <= a < self.jobs() && !placed(order, n, a) ==> #[trigger] starts[a] == 0
        &&& forall|k: int, x: int|
            0 <= k < RESOURCES ==> 0 <= #[trigger] self.load(order, starts, n, k, x)
                <= self.capacities[k]
        &&& forall|k: int, x: int|
            0 <= k < RESOURCES && x >= self.elapsed(order, n) ==> #[trigger] self.load(
                order,
                starts,
                n,
                k,
                x,
            ) == 0
        &&& forall|u: int, i: int|
            0 <= i < n && #[trigger] self.edges.contains((u, order[i] as int)) ==> self.finish(
                starts,
                u,
            ) <= starts[order[i] as int]
    }
}

/// `precedence_start` is no earlier than the end of any predecessor, and is
/// the end of one unless it is 0.
pub proof fn lemma_latest_finish(p: Project, starts: Seq<int>, a: int, m: int)
    ensures
        0 <= p.latest_finish(starts, a, m),
        forall|u: int|
            0 <= u < m && #[trigger] p.edges.contains((u, a)) ==> p.finish(starts, u)
                <= p.latest_finish(starts, a, m),
        p.latest_finish(starts, a, m) == 0 || exists|u: int|
            0 <= u < m && #[trigger] p.edges.contains((u, a)) && p.finish(starts, u)
                == p.latest_finish(starts, a, m),
    decreases m,
{
    if m > 0 {
        lemma_latest_finish(p, starts, a, m - 1);
        let rest = p.latest_finish(starts, a, m - 1);
        if p.edges.contains((m - 1, a)) && p.finish(starts, m - 1) > rest {
        } else if rest != 0 {
            let u = choose|u: int|
                0 <= u < m - 1 && #[trigger] p.edges.contains((u, a)) && p.finish(starts, u)
                    == rest;
            assert(0 <= u < m && p.edges.contains((u, a)));
        }
    }
}

/// A time that bounds the ends of all predecessors from above, and is one of
/// them or 0, is the precedence start.
pub proof fn lemma_precedence_start_unique(p: Project, starts: Seq<int>, a: int, e: int)
    requires
        p.shaped(),
        0 <= e,
        forall|u: int| #[trigger] p.edges.contains((u, a)) ==> p.finish(starts, u) <= e,
        e == 0 || exists|u: int| #[trigger] p.edges.contains((u, a)) && p.finish(starts, u) == e,
    ensures
        e == p.precedence_start(starts, a),
{
    lemma_latest_finish(p, starts, a, p.jobs());
    let f = p.precedence_start(starts, a);
    if f != 0 {
        let u = choose|u: int|
            0 <= u < p.jobs() && #[trigger] p.edges.contains((u, a)) && p.finish(starts, u) == f;
        assert(f <= e);
    }
    if e != 0 {
        let u = choose|u: int| #[trigger] p.edges.contains((u, a)) && p.finish(starts, u) == e;
        assert(0 <= u < p.jobs());
        assert(e <= f);
    }
}

/// The first fit is the first time from `t` on at which the activity fits,
/// provided that it fits at `limit`.
pub proof fn lemma_first_fit(
    p: Project,
    order: Seq<u8>,
    starts: Seq<int>,
    n: int,
    a: int,
    t: int,
    limit: int,
)
    requires
        t <= limit,
        p.fits(order, starts, n, a, limit),
    ensures
        t <= p.first_fit(order, starts, n, a, t, limit) <= limit,
        p.fits(order, starts, n, a, p.first_fit(order, starts, n, a, t, limit)),
        forall|x: int|
            t <= x < p.first_fit(order, starts, n, a, t, limit) ==> !p.fits(
                order,
                starts,
                n,
                a,
                x,
            ),
    decreases limit - t,
{
    if t >= limit || p.fits(order, starts, n, a, t) {
    } else {
        lemma_first_fit(p, order, starts, n, a, t + 1, limit);
    }
}

/// The load of the first `n` activities does not depend on the start time of
/// an activity that is not among them.
pub proof fn lemma_load_update(
    p: Project,
    order: Seq<u8>,
    starts: Seq<int>,
    n: int,
    a: int,
    t: int,
    k: int,
    x: int,
)
    requires
        0 <= n <= order.len(),
        0 <= a < starts.len(),
        !placed(order, n, a),
        forall|i: int| 0 <= i < n ==> 0 <= #[trigger] order[i] < starts.len(),
    ensures
        p.load(order, starts.update(a, t), n, k, x) == p.load(order, starts, n, k, x),
    decreases n,
{
    if n > 0 {
        assert(!placed(order, n - 1, a)) by {
            if placed(order, n - 1, a) {
                let i = choose|i: int| 0 <= i < n - 1 && i < order.len() && #[trigger] order[i] == a;
                assert(0 <= i < n && order[i] == a);
            }
        }
        lemma_load_update(p, order, starts, n - 1, a, t, k, x);
        assert(order[n - 1] != a);
        let b = order[n - 1] as int;
        assert(starts.update(a, t)[b] == starts[b]);
    }
}

/// The durations of a shaped project add up to something that is not negative.
pub proof fn lemma_elapsed_bounds(p: Project, order: Seq<u8>, n: int)
    requires
        p.shaped(),
        is_permutation(order, p.jobs()),
        0 <= n <= p.jobs(),
    ensures
        0 <= p.elapsed(order, n) <= 255 * n,
    decreases n,
{
    if n > 0 {
        lemma_elapsed_bounds(p, order, n - 1);
        assert(0 <= order[n - 1] < p.jobs());
    }
}

/// The facts that the evaluation of one more activity rests on: `a`, the
/// activity at place `n`, starts at the first time at or after its precedence
/// start at which it fits, which is no later than the time elapsed so far.
pub open spec fn next_start(p: Project, order: Seq<u8>, n: int, t: int) -> bool {
    let before = p.serial_starts(order, n);
    let a = order[n] as int;
    let earliest = p.precedence_start(before, a);
    &&& t == p.first_fit(order, before, n, a, earliest, p.elapsed(order, n))
    &&& p.serial_starts(order, n + 1) == before.update(a, t)
    &&& 0 <= earliest <= t <= p.elapsed(order, n)
    &&& p.fits(order, before, n, a, t)
    &&& forall|x: int| earliest <= x < t ==> !p.fits(order, before, n, a, x)
    &&& !placed(order, n, a)
}

/// Scheduling one more activity keeps every precedence and every capacity.
pub proof fn lemma_schedule_next(p: Project, order: Seq<u8>, n: int) -> (t: int)
    requires
        p.valid(),
        p.topological(order),
        0 <= n < p.jobs(),
        p.scheduled(order, p.serial_starts(order, n), n),
    ensures
        p.scheduled(order, p.serial_starts(order, n + 1), n + 1),
        next_start(p, order, n, t),
{
    let before = p.serial_starts(order, n);
    let a = order[n] as int;
    let e = p.precedence_start(before, a);
    let limit = p.elapsed(order, n);
    let t = p.first_fit(order, before, n, a, e, limit);
    let after = before.update(a, t);
    assert(p.serial_starts(order, n + 1) == after);
    assert(0 <= a < p.jobs());
    lemma_elapsed_bounds(p, order, n);
    assert(!placed(order, n, a)) by {
        if placed(order, n, a) {
            let i = choose|i: int| 0 <= i < n && i < order.len() && #[trigger] order[i] == a;
            assert(order[i] != order[n]);
        }
    }
    lemma_latest_finish(p, before, a, p.jobs());
    assert(e <= limit) by {
        if e != 0 {
            let u = choose|u: int|
                0 <= u < p.jobs() && #[trigger] p.edges.contains((u, a)) && p.finish(before, u)
                    == e;
            assert(occurs(order, u));
            let i = choose|i: int| 0 <= i < order.len() && #[trigger] order[i] == u;
            assert(p.edges.contains((order[i] as int, order[n] as int)));
            assert(i < n);
            assert(p.finish(before, order[i] as int) <= limit);
        }
    }
    assert(p.within_capacity(a));
    assert(p.fits(order, before, n, a, limit)) by {
        assert forall|k: int, x: int|
            0 <= k < RESOURCES && limit <= x < limit + p.durations[a] implies #[trigger] p.load(
                order,
                before,
                n,
                k,
                x,
            ) + p.requests[a][k] <= p.capacities[k] by {
            assert(p.load(order, before, n, k, x) == 0);
            assert(p.requests[a][k] <= p.capacities[k]);
        }
    }
    lemma_first_fit(p, order, before, n, a, e, limit);
    assert(p.elapsed(order, n + 1) == limit + p.durations[a]);
    assert(0 <= p.durations[a]);

    assert forall|i: int| 0 <= i < n + 1 implies p.finish(after, #[trigger] order[i] as int)
        <= p.elapsed(order, n + 1) by {
        if i < n {
            assert(order[i] != order[n]);
            assert(p.finish(before, order[i] as int) <= limit);
        }
    }
    assert forall|b: int| 0 <= b < p.jobs() && !placed(order, n + 1, b) implies #[trigger] after[b]
        == 0 by {
        assert(b != a) by {
            if b == a {
                assert(order[n] == a);
                assert(placed(order, n + 1, b));
            }
        }
        assert(!placed(order, n, b)) by {
            if placed(order, n, b) {
                let i = choose|i: int| 0 <= i < n && i < order.len() && #[trigger] order[i] == b;
                assert(0 <= i < n + 1 && order[i] == b);
            }
        }
        assert(before[b] == 0);
    }
    assert forall|k: int, x: int| 0 <= k < RESOURCES implies 0 <= #[trigger] p.load(
        order,
        after,
        n + 1,
        k,
        x,
    ) <= p.capacities[k] && (x >= p.elapsed(order, n + 1) ==> p.load(order, after, n + 1, k, x)
        == 0) by {
        lemma_load_update(p, order, before, n, a, t, k, x);
        assert(0 <= p.load(order, before, n, k, x) <= p.capacities[k]);
        assert(0 <= p.requests[a][k]);
        if p.running(after, a, x) {
            assert(t <= x < t + p.durations[a]);
            assert(p.load(order, before, n, k, x) + p.requests[a][k] <= p.capacities[k]);
        }
        if x >= p.elapsed(order, n + 1) {
            assert(p.load(order, before, n, k, x) == 0);
        }
    }
    assert forall|u: int, i: int|
        0 <= i < n + 1 && #[trigger] p.edges.contains((u, order[i] as int)) implies p.finish(
        after,
        u,
    ) <= after[order[i] as int] by {
        assert(0 <= u < p.jobs());
        assert(occurs(order, u));
        let j = choose|j: int| 0 <= j < order.len() && #[trigger] order[j] == u;
        assert(p.edges.contains((order[j] as int, order[i] as int)));
        assert(j < i);
        assert(order[j] != order[n]);
        assert(u != a);
        if i < n {
            assert(order[i] != order[n]);
            assert(p.finish(before, u) <= before[order[i] as int]);
        } else {
            assert(p.finish(before, u) <= e);
        }
    }
    t
}

/// After any number of activities the serial schedule keeps every precedence
/// and every capacity.
pub proof fn lemma_serial_scheduled(p: Project, order: Seq<u8>, n: int)
    requires
        p.valid(),
        p.topological(order),
        0 <= n <= p.jobs(),
    ensures
        p.scheduled(order, p.serial_starts(order, n), n),
    decreases n,
{
    if n <= 0 {
        let starts = p.serial_starts(order, 0);
        assert forall|k: int, x: int| 0 <= k < RESOURCES implies 0 <= #[trigger] p.load(
            order,
            starts,
            0,
            k,
            x,
        ) <= p.capacities[k] by {}
    } else {
        lemma_serial_scheduled(p, order, n - 1);
        let t = lemma_schedule_next(p, order, n - 1);
    }
}

/// In the serial schedule of a topological order no activity starts before
/// its predecessors have finished, and at no time do the running activities
/// take more of a resource than its capacity.
pub proof fn lemma_schedule_feasible(p: Project, order: Seq<u8>)
    requires
        p.valid(),
        p.topological(order),
    ensures
        forall|a: int| 0 <= a < p.jobs() ==> 0 <= #[trigger] p.start_times(order)[a],
        forall|u: int, v: int| #[trigger]
            p.edges.contains((u, v)) ==> p.start_times(order)[u] + p.durations[u]
                <= p.start_times(order)[v],
        forall|k: int, t: int|
            0 <= k < RESOURCES ==> 0 <= #[trigger] p.load(
                order,
                p.start_times(order),
                p.jobs(),
                k,
                t,
            ) <= p.capacities[k],
{
    lemma_serial_scheduled(p, order, p.jobs());
    let s = p.start_times(order);
    assert forall|u: int, v: int| #[trigger] p.edges.contains((u, v)) implies s[u]
        + p.durations[u] <= s[v] by {
        assert(occurs(order, v));
        let i = choose|i: int| 0 <= i < order.len() && #[trigger] order[i] == v;
        assert(p.edges.contains((u, order[i] as int)));
        assert(p.finish(s, u) <= s[order[i] as int]);
    }
}

/// `latest_end` is no earlier than the end of any activity below `m`, and is
/// the end of one of them unless it is 0.
pub proof fn lemma_latest_end(p: Project, starts: Seq<int>, m: int)
    ensures
        0 <= p.latest_end(starts, m),
        forall|a: int| 0 <= a < m ==> #[trigger] p.finish(starts, a) <= p.latest_end(starts, m),
        p.latest_end(starts, m) == 0 || exists|a: int|
            0 <= a < m && #[trigger] p.finish(starts, a) == p.latest_end(starts, m),
    decreases m,
{
    if m > 0 {
        lemma_latest_end(p, starts, m - 1);
        let rest = p.latest_end(starts, m - 1);
        if p.finish(starts, m - 1) > rest {
        } else if rest != 0 {
            let a = choose|a: int| 0 <= a < m - 1 && #[trigger] p.finish(starts, a) == rest;
            assert(0 <= a < m && p.finish(starts, a) == rest);
        }
    }
}

/// The makespan is the latest of the times at which the activities end: no
/// activity ends later, and one ends then.
pub proof fn lemma_makespan_is_latest_end(p: Project, order: Seq<u8>)
    requires
        p.valid(),
        p.topological(order),
    ensures
        forall|a: int|
            0 <= a < p.jobs() ==> p.start_times(order)[a] + #[trigger] p.durations[a]
                <= p.makespan(order),
        exists|a: int|
            0 <= a < p.jobs() && p.start_times(order)[a] + #[trigger] p.durations[a] == p.makespan(
                order,
            ),
{
    let s = p.start_times(order);
    lemma_latest_end(p, s, p.jobs());
    lemma_schedule_feasible(p, order);
    assert forall|a: int| 0 <= a < p.jobs() implies s[a] + #[trigger] p.durations[a] <= p.makespan(
        order,
    ) by {
        assert(p.finish(s, a) <= p.latest_end(s, p.jobs()));
    }
    if p.makespan(order) == 0 {
        assert(p.finish(s, 0) <= 0);
        assert(0 <= s[0]);
        assert(0 <= p.durations[0]);
        assert(s[0] + p.durations[0] == p.makespan(order));
    } else {
        let a = choose|a: int| 0 <= a < p.jobs() && #[trigger] p.finish(s, a) == p.makespan(order);
        assert(s[a] + p.durations[a] == p.makespan(order));
    }
}

/// Evaluating an order with the swap of an activity with itself is
/// evaluating the order as it is.
pub proof fn lemma_swap_with_itself_evaluates_alike(p: Project, order: Seq<u8>, i: u8)
    ensures
        p.makespan(with_swap(order, Some((i, i)))) == p.makespan(with_swap(order, None)),
        p.start_times(with_swap(order, Some((i, i)))) == p.start_times(with_swap(order, None)),
{
    crate::order::lemma_swap_same(order, i);
}

/// Exchanging the entries at two places of a permutation and evaluating what
/// comes of it gives what evaluating the permutation with the swap of the
/// two activities gives.
pub proof fn lemma_apply_then_evaluate(p: Project, order: Seq<u8>, n: int, a: int, b: int)
    requires
        is_permutation(order, n),
        0 <= a < n,
        0 <= b < n,
    ensures
        p.makespan(with_swap(swap_positions(order, a, b), None)) == p.makespan(
            with_swap(order, Some((order[a], order[b]))),
        ),
{
    crate::order::lemma_swap_ids_at_positions(order, n, a, b);
}

/// Marking one more activity adds what it takes where it runs.
proof fn lemma_usage_mark(
    p: Project,
    starts: Seq<int>,
    marks: Seq<bool>,
    a: int,
    m: int,
    k: int,
    t: int,
)
    requires
        0 <= a < marks.len(),
        !marks[a],
        0 <= m <= marks.len(),
    ensures
        p.usage_of(starts, marks.update(a, true), m, k, t) == p.usage_of(starts, marks, m, k, t)
            + if a < m && p.running(starts, a, t) {
            p.requests[a][k]
        } else {
            0
        },
    decreases m,
{
    if m > 0 {
        lemma_usage_mark(p, starts, marks, a, m - 1, k, t);
    }
}

/// The load of the first `n` activities of an order is what the activities
/// among them take where they run.
proof fn lemma_load_is_usage(
    p: Project,
    order: Seq<u8>,
    starts: Seq<int>,
    n: int,
    k: int,
    t: int,
)
    requires
        p.shaped(),
        is_permutation(order, p.jobs()),
        0 <= n <= p.jobs(),
    ensures
        p.load(order, starts, n, k, t) == p.usage_of(
            starts,
            crate::order::marked_by(order, n, p.jobs()),
            p.jobs(),
            k,
            t,
        ),
    decreases n,
{
    let marks = crate::order::marked_by(order, n, p.jobs());
    if n <= 0 {
        lemma_usage_none(p, starts, marks, p.jobs(), k, t);
    } else {
        lemma_load_is_usage(p, order, starts, n - 1, k, t);
        crate::order::lemma_mark_next(order, p.jobs(), n);
        let before = crate::order::marked_by(order, n - 1, p.jobs());
        lemma_usage_mark(p, starts, before, order[n - 1] as int, p.jobs(), k, t);
    }
}

/// Where nothing is marked nothing is taken.
proof fn lemma_usage_none(p: Project, starts: Seq<int>, marks: Seq<bool>, m: int, k: int, t: int)
    requires
        0 <= m <= marks.len(),
        forall|a: int| 0 <= a < marks.len() ==> !marks[a],
    ensures
        p.usage_of(starts, marks, m, k, t) == 0,
    decreases m,
{
    if m > 0 {
        lemma_usage_none(p, starts, marks, m - 1, k, t);
    }
}

/// In the serial schedule of a topological order the activities that run at
/// a time never take more of a resource than its capacity.
pub proof fn lemma_usage_within_capacity(p: Project, order: Seq<u8>, k: int, t: int)
    requires
        p.valid(),
        p.topological(order),
        0 <= k < RESOURCES,
    ensures
        0 <= p.usage(p.start_times(order), k, t) <= p.capacities[k],
{
    lemma_schedule_feasible(p, order);
    let starts = p.start_times(order);
    lemma_load_is_usage(p, order, starts, p.jobs(), k, t);
    let marks = crate::order::marked_by(order, p.jobs(), p.jobs());
    assert(marks =~= Seq::new(p.durations.len(), |a: int| true)) by {
        assert forall|a: int| 0 <= a < p.jobs() implies marks[a] by {
            assert(occurs(order, a));
            let i = choose|i: int| 0 <= i < order.len() && #[trigger] order[i] == a;
            assert(placed(order, p.jobs(), a));
        }
    }
    assert(0 <= p.load(order, starts, p.jobs(), k, t) <= p.capacities[k]);
}

impl Project {
    /// The sum of the durations of the marked activities below `m`.
    pub open spec fn marked_sum(self, marks: Seq<bool>, m: int) -> int
        decreases m,
    {
        if m <= 0 {
            0
        } else {
            self.marked_sum(marks, m - 1) + if marks[m - 1] {
                self.durations[m - 1]
            } else {
                0
            }
        }
    }
}

/// Marking one more activity adds its duration.
proof fn lemma_sum_mark(p: Project, marks: Seq<bool>, a: int, m: int)
    requires
        0 <= a < marks.len(),
        !marks[a],
        0 <= m <= marks.len(),
    ensures
        p.marked_sum(marks.update(a, true), m) == p.marked_sum(marks, m) + if a < m {
            p.durations[a]
        } else {
            0
        },
    decreases m,
{
    if m > 0 {
        lemma_sum_mark(p, marks, a, m - 1);
    }
}

/// The sum over the marked activities: nothing where none is marked, the sum
/// of all durations where all are.
proof fn lemma_sum_ends(p: Project, marks: Seq<bool>, m: int)
    requires
        0 <= m <= marks.len(),
    ensures
        (forall|a: int| 0 <= a < marks.len() ==> !marks[a]) ==> p.marked_sum(marks, m) == 0,
        (forall|a: int| 0 <= a < marks.len() ==> marks[a]) ==> p.marked_sum(marks, m)
            == p.duration_sum(m),
    decreases m,
{
    if m > 0 {
        lemma_sum_ends(p, marks, m - 1);
    }
}

/// The time elapsed after the first `n` activities of an order is the sum of
/// the durations of the activities among them.
proof fn lemma_elapsed_is_sum(p: Project, order: Seq<u8>, n: int)
    requires
        p.shaped(),
        is_permutation(order, p.jobs()),
        0 <= n <= p.jobs(),
    ensures
        p.elapsed(order, n) == p.marked_sum(crate::order::marked_by(order, n, p.jobs()), p.jobs()),
    decreases n,
{
    if n <= 0 {
        lemma_sum_ends(p, crate::order::marked_by(order, n, p.jobs()), p.jobs());
    } else {
        lemma_elapsed_is_sum(p, order, n - 1);
        crate::order::lemma_mark_next(order, p.jobs(), n);
        lemma_sum_mark(
            p,
            crate::order::marked_by(order, n - 1, p.jobs()),
            order[n - 1] as int,
            p.jobs(),
        );
    }
}

/// The time elapsed after all activities of an order is the sum of all
/// durations.
pub proof fn lemma_elapsed_is_horizon(p: Project, order: Seq<u8>)
    requires
        p.shaped(),
        is_permutation(order, p.jobs()),
    ensures
        p.elapsed(order, p.jobs()) == p.horizon(),
{
    let n = p.jobs();
    lemma_elapsed_is_sum(p, order, n);
    let marks = crate::order::marked_by(order, n, n);
    assert forall|a: int| 0 <= a < marks.len() implies marks[a] by {
        assert(occurs(order, a));
        let i = choose|i: int| 0 <= i < order.len() && #[trigger] order[i] == a;
        assert(placed(order, n, a));
    }
    lemma_sum_ends(p, marks, n);
}

/// No serial schedule of a topological order ends later than the sum of all
/// durations.
pub proof fn lemma_makespan_at_most_horizon(p: Project, order: Seq<u8>)
    requires
        p.valid(),
        p.topological(order),
    ensures
        p.makespan(order) <= p.horizon(),
{
    let n = p.jobs();
    let s = p.start_times(order);
    lemma_serial_scheduled(p, order, n);
    lemma_latest_end(p, s, n);
    lemma_elapsed_is_horizon(p, order);
    lemma_elapsed_bounds(p, order, n);
    if p.makespan(order) != 0 {
        let a = choose|a: int| 0 <= a < n && #[trigger] p.finish(s, a) == p.makespan(order);
        assert(occurs(order, a));
        let i = choose|i: int| 0 <= i < order.len() && #[trigger] order[i] == a;
        assert(p.finish(s, order[i] as int) <= p.elapsed(order, n));
    }
}

} // verus!
