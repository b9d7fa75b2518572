//! A tabu list of fixed length: a circular buffer of pairs beside a table
//! that answers at once whether a pair is tabu.

use crate::counting::count_true;
use crate::counting::lemma_count_none;
use crate::counting::lemma_count_set;
use crate::counting::lemma_shuffled;
use crate::random::shuffle;
use crate::tabu_list::occupied_marks;
use crate::tabu_list::removed_marks;
use crate::tabu_list::TabuList;
use crate::tabu_list::TabuMemory;
use crate::MoveType;
use vstd::prelude::*;

verus! {

/// One place of the buffer: a pair of activities, or -1 twice for nothing.
#[derive(Debug, Clone, Copy)]
pub struct ListRecord {
    i: i32,
    j: i32,
}

impl ListRecord {
    /// The pair that the record holds, if it holds one.
    pub closed spec fn entry(self) -> Option<(int, int)> {
        if self.i != -1 && self.j != -1 {
            Some((self.i as int, self.j as int))
        } else {
            None
        }
    }
}

/// The tabu list: the buffer, the place that is written next, and for each
/// pair of activities whether it is tabu.
#[derive(Clone)]
pub struct SimpleTabuList {
    cur_idx: usize,
    tabu: Vec<ListRecord>,
    tabu_search: Vec<Vec<bool>>,
    tabu_length: usize,
}

impl View for SimpleTabuList {
    type V = TabuMemory;

    closed spec fn view(&self) -> TabuMemory {
        TabuMemory {
            entries: Seq::new(self.tabu@.len(), |s: int| self.tabu[s].entry()),
            cursor: self.cur_idx as int,
            members: Set::new(
                |pair: (int, int)|
                    0 <= pair.0 < self.tabu_search.len() && 0 <= pair.1 < self.tabu_search.len()
                        && self.tabu_search[pair.0][pair.1],
            ),
        }
    }
}

impl SimpleTabuList {
    /// Every record is empty or holds two activities of the project.
    closed spec fn records_ok(&self) -> bool {
        forall|s: int|
            0 <= s < self.tabu.len() ==> {
                let record = #[trigger] self.tabu[s];
                (record.i == -1 && record.j == -1) || (0 <= record.i < self.tabu_search.len() && 0
                    <= record.j < self.tabu_search.len())
            }
    }

    /// The table has a row and a column for each activity.
    closed spec fn table_ok(&self) -> bool {
        &&& self.tabu_search.len() <= 0x7fff_ffff
        &&& forall|a: int|
            0 <= a < self.tabu_search.len() ==> (#[trigger] self.tabu_search[a]).len()
                == self.tabu_search.len()
    }

    /// An empty list for a project of `number_of_activities` activities that
    /// remembers the last `length` moves.
    pub fn new(number_of_activities: usize, length: usize) -> (list: Self)
        requires
            length >= 1,
            number_of_activities <= 0x7fff_ffff,
        ensures
            list.well_formed(),
            list.activities() == number_of_activities,
            list@ == TabuMemory::empty(length as int),
    {
        let mut tabu: Vec<ListRecord> = Vec::new();
        let mut s: usize = 0;
        while s < length
            invariant
                s <= length,
                tabu.len() == s,
                forall|t: int| 0 <= t < s ==> (#[trigger] tabu[t]).i == -1 && tabu[t].j == -1,
            decreases length - s,
        {
            tabu.push(ListRecord { i: -1, j: -1 });
            s += 1;
        }
        let mut tabu_search: Vec<Vec<bool>> = Vec::new();
        let mut a: usize = 0;
        while a < number_of_activities
            invariant
                a <= number_of_activities,
                tabu_search.len() == a,
                forall|b: int|
                    0 <= b < a ==> (#[trigger] tabu_search[b]).len() == number_of_activities,
                forall|b: int, c: int|
                    0 <= b < a && 0 <= c < number_of_activities ==> !#[trigger] tabu_search[b][c],
            decreases number_of_activities - a,
        {
            let mut row: Vec<bool> = Vec::new();
            let mut c: usize = 0;
            while c < number_of_activities
                invariant
                    c <= number_of_activities,
                    row.len() == c,
                    forall|d: int| 0 <= d < c ==> !#[trigger] row[d],
                decreases number_of_activities - c,
            {
                row.push(false);
                c += 1;
            }
            tabu_search.push(row);
            a += 1;
        }
        let list = Self { cur_idx: 0, tabu, tabu_search, tabu_length: length };
        proof {
            assert(list@.entries =~= TabuMemory::empty(length as int).entries);
            assert(list@.members =~= TabuMemory::empty(length as int).members);
        }
        list
    }

    /// A copy of the list, to go back to later.
    pub fn snapshot(&self) -> (copy: Self)
        requires
            self.well_formed(),
        ensures
            copy.well_formed(),
            copy.activities() == self.activities(),
            copy@ == self@,
    {
        let n = self.tabu_search.len();
        let mut tabu: Vec<ListRecord> = Vec::new();
        let mut s: usize = 0;
        while s < self.tabu.len()
            invariant
                s <= self.tabu.len(),
                tabu.len() == s,
                forall|t: int| 0 <= t < s ==> #[trigger] tabu[t] == self.tabu[t],
            decreases self.tabu.len() - s,
        {
            tabu.push(self.tabu[s]);
            s += 1;
        }
        let mut tabu_search: Vec<Vec<bool>> = Vec::new();
        let mut a: usize = 0;
        while a < n
            invariant
                self.well_formed(),
                n == self.tabu_search.len(),
                a <= n,
                tabu_search.len() == a,
                forall|b: int| 0 <= b < a ==> (#[trigger] tabu_search[b])@ == self.tabu_search[b]@,
            decreases n - a,
        {
            let source = &self.tabu_search[a];
            let mut row: Vec<bool> = Vec::new();
            let mut c: usize = 0;
            while c < source.len()
                invariant
                    c <= source.len(),
                    row.len() == c,
                    forall|d: int| 0 <= d < c ==> #[trigger] row[d] == source[d],
                decreases source.len() - c,
            {
                row.push(source[c]);
                c += 1;
            }
            assert(row@ =~= source@);
            tabu_search.push(row);
            a += 1;
        }
        let copy = Self { cur_idx: self.cur_idx, tabu, tabu_search, tabu_length: self.tabu_length };
        proof {
            assert(copy.tabu@ =~= self.tabu@);
            assert(copy@.entries =~= self@.entries);
            assert(copy@.members =~= self@.members);
            assert forall|a: int, b: int|
                0 <= a < n && 0 <= b < n && #[trigger] copy.tabu_search[a][b] implies exists|s: int|
                0 <= s < copy.tabu.len() && (#[trigger] copy.tabu[s]).i == a && copy.tabu[s].j
                    == b by {
                assert(self.tabu_search[a][b]);
                let s = choose|s: int|
                    0 <= s < self.tabu.len() && (#[trigger] self.tabu[s]).i == a && self.tabu[s].j
                        == b;
                assert(copy.tabu[s].i == a);
            }
        }
        copy
    }

    /// Puts the list back to what a copy holds.
    pub fn restore(&mut self, snapshot: &Self)
        requires
            snapshot.well_formed(),
        ensures
            final(self).well_formed(),
            final(self).activities() == snapshot.activities(),
            final(self)@ == snapshot@,
    {
        *self = snapshot.snapshot();
    }
}

impl TabuList for SimpleTabuList {
    closed spec fn well_formed(&self) -> bool {
        &&& self.tabu_length >= 1
        &&& self.tabu.len() == self.tabu_length
        &&& self.cur_idx < self.tabu_length
        &&& self.table_ok()
        &&& self.records_ok()
        &&& forall|a: int, b: int|
            0 <= a < self.tabu_search.len() && 0 <= b < self.tabu_search.len()
                && #[trigger] self.tabu_search[a][b] ==> exists|s: int|
                0 <= s < self.tabu.len() && (#[trigger] self.tabu[s]).i == a && self.tabu[s].j == b
    }

    closed spec fn activities(&self) -> int {
        self.tabu_search.len() as int
    }

    open spec fn is_tabu(&self, i: int, j: int) -> bool {
        self@.members.contains((i, j))
    }

    fn is_possible_move(&self, i: usize, j: usize, move_type: MoveType) -> (possible: bool) {
        if i < self.tabu_search.len() && j < self.tabu_search.len() {
            !self.tabu_search[i][j]
        } else {
            false
        }
    }

    fn add_turn_to_tabu_list(&mut self, i: usize, j: usize, move_type: MoveType)
        ensures
            final(self)@ == old(self)@.inserted(i as int, j as int),
    {
        let ghost before = *self;
        let n = self.tabu_search.len();
        let record = self.tabu[self.cur_idx];
        if record.i != -1 && record.j != -1 {
            self.tabu_search[record.i as usize][record.j as usize] = false;
        }
        let ghost cleared = self.tabu_search@;
        self.tabu[self.cur_idx] = ListRecord { i: i as i32, j: j as i32 };
        self.tabu_search[i][j] = true;
        self.cur_idx = (self.cur_idx + 1) % self.tabu_length;
        proof {
            assert forall|a: int, b: int| 0 <= a < n && 0 <= b < n implies (
            #[trigger] self.tabu_search[a][b] <==> ((a == i && b == j) || (before.tabu_search[a][b]
                && !(record.i == a && record.j == b)))) by {
                if a != i {
                    assert(self.tabu_search[a] == cleared[a]);
                }
                if record.i != -1 && record.j != -1 && a != record.i {
                    assert(cleared[a] == before.tabu_search[a]);
                }
            }
            assert forall|a: int| 0 <= a < n implies (#[trigger] self.tabu_search[a]).len() == n by {
                assert(before.tabu_search[a].len() == n);
            }
            assert(self@.entries =~= before@.inserted(i as int, j as int).entries);
            assert(self@.members =~= before@.inserted(i as int, j as int).members);
            assert forall|a: int, b: int|
                0 <= a < n && 0 <= b < n && #[trigger] self.tabu_search[a][b] implies exists|s: int|
                0 <= s < self.tabu.len() && (#[trigger] self.tabu[s]).i == a && self.tabu[s].j
                    == b by {
                if a == i && b == j {
                    assert(self.tabu[before.cur_idx as int].i == a);
                } else {
                    assert(before.tabu_search[a][b]);
                    let s = choose|s: int|
                        0 <= s < before.tabu.len() && (#[trigger] before.tabu[s]).i == a
                            && before.tabu[s].j == b;
                    assert(s != before.cur_idx);
                    assert(self.tabu[s].i == a);
                }
            }
        }
    }

    fn best_solution_found(&self) {
    }

    fn go_to_next_iter(&self) -> (count: usize)
        ensures
            count == 0,
    {
        0
    }

    fn prune(&mut self)
        ensures
            old(self)@.pruned_to(final(self)@),
    {
        let ghost before = *self;
        let n = self.tabu_search.len();
        let mut idx_valid_moves: Vec<usize> = Vec::new();
        let mut s: usize = 0;
        while s < self.tabu_length
            invariant
                self.well_formed(),
                *self == before,
                s <= self.tabu_length,
                forall|m: int|
                    0 <= m < idx_valid_moves.len() ==> (#[trigger] idx_valid_moves[m]) < s
                        && self.tabu[idx_valid_moves[m] as int].entry() is Some,
                forall|m: int, k: int|
                    0 <= m < k < idx_valid_moves.len() ==> #[trigger] idx_valid_moves[m]
                        < #[trigger] idx_valid_moves[k],
                idx_valid_moves.len() == count_true(occupied_marks(self@.entries).subrange(0, s as int)),
            decreases self.tabu_length - s,
        {
            let record = self.tabu[s];
            proof {
                let marks = occupied_marks(self@.entries);
                assert(marks.subrange(0, s as int + 1).drop_last() =~= marks.subrange(0, s as int));
                assert(marks[s as int] == (self.tabu[s as int].entry() is Some));
            }
            if record.i != -1 && record.j != -1 {
                idx_valid_moves.push(s);
            }
            s += 1;
        }
        let ghost listed = idx_valid_moves@;
        proof {
            let marks = occupied_marks(self@.entries);
            assert(marks.subrange(0, s as int) =~= marks);
            assert(listed.no_duplicates());
        }
        shuffle(&mut idx_valid_moves);
        let count = idx_valid_moves.len();
        proof {
            lemma_shuffled(listed, idx_valid_moves@);
            assert(count == before@.occupied());
            assert forall|k: int| 0 <= k < idx_valid_moves.len() implies (
            #[trigger] idx_valid_moves[k]) < before.tabu.len()
                && before.tabu[idx_valid_moves[k] as int].entry() is Some by {
                assert(idx_valid_moves@.contains(idx_valid_moves@[k]));
                assert(listed.contains(idx_valid_moves@[k]));
                let m = choose|m: int| 0 <= m < listed.len() && listed[m] == idx_valid_moves@[k];
                assert(listed[m] < before.tabu.len());
            }
        }
        let count_moves_to_remove = count / 10 * 3 + count % 10 * 3 / 10;
        assert(count_moves_to_remove == 3 * count / 10) by (nonlinear_arith)
            requires
                count_moves_to_remove == count / 10 * 3 + count % 10 * 3 / 10,
        ;
        assert(count_moves_to_remove <= count) by (nonlinear_arith)
            requires
                count_moves_to_remove == 3 * count / 10,
        ;
        let mut m: usize = 0;
        proof {
            assert(removed_marks(before@.entries, self@.entries) =~= Seq::new(
                before.tabu@.len(),
                |t: int| false,
            ));
            lemma_count_none(removed_marks(before@.entries, self@.entries));
        }
        while m < count_moves_to_remove
            invariant
                before.well_formed(),
                self.tabu_length == before.tabu_length,
                self.cur_idx == before.cur_idx,
                self.tabu.len() == before.tabu.len(),
                self.tabu_search.len() == n,
                n == before.tabu_search.len(),
                self.table_ok(),
                count_moves_to_remove <= idx_valid_moves.len(),
                m <= count_moves_to_remove,
                idx_valid_moves@.no_duplicates(),
                forall|k: int|
                    0 <= k < idx_valid_moves.len() ==> (#[trigger] idx_valid_moves[k])
                        < before.tabu.len() && before.tabu[idx_valid_moves[k] as int].entry() is Some,
                forall|t: int|
                    0 <= t < self.tabu.len() ==> #[trigger] self.tabu[t] == if picked(
                        idx_valid_moves@,
                        m as int,
                        t,
                    ) {
                        ListRecord { i: -1i32, j: -1i32 }
                    } else {
                        before.tabu[t]
                    },
                forall|a: int, b: int|
                    0 <= a < n && 0 <= b < n ==> (#[trigger] self.tabu_search[a][b] <==> (
                    before.tabu_search[a][b] && !before.taken(idx_valid_moves@, m as int, a, b))),
                count_true(removed_marks(before@.entries, self@.entries)) == m,
            decreases count_moves_to_remove - m,
        {
            let move_idx = idx_valid_moves[m];
            let ghost current = *self;
            let ghost marks = removed_marks(before@.entries, self@.entries);
            proof {
                assert(!picked(idx_valid_moves@, m as int, move_idx as int)) by {
                    if picked(idx_valid_moves@, m as int, move_idx as int) {
                        let k = choose|k: int|
                            0 <= k < m && #[trigger] idx_valid_moves@[k] == move_idx;
                        assert(idx_valid_moves@[k] != idx_valid_moves@[m as int]);
                    }
                }
                assert(self.tabu[move_idx as int] == before.tabu[move_idx as int]);
                assert(before.tabu[move_idx as int].entry() is Some);
                assert(!marks[move_idx as int]);
                lemma_count_set(marks, move_idx as int);
            }
            let record = self.tabu[move_idx];
            assert(0 <= record.i < n && 0 <= record.j < n);
            self.tabu_search[record.i as usize][record.j as usize] = false;
            self.tabu[move_idx] = ListRecord { i: -1, j: -1 };
            proof {
                assert forall|t: int| 0 <= t < self.tabu.len() implies (picked(
                    idx_valid_moves@,
                    m as int + 1,
                    t,
                ) <==> (picked(idx_valid_moves@, m as int, t) || t == move_idx)) by {
                    if picked(idx_valid_moves@, m as int + 1, t) {
                        let k = choose|k: int| 0 <= k < m + 1 && #[trigger] idx_valid_moves@[k] == t;
                        if k < m {
                            assert(picked(idx_valid_moves@, m as int, t));
                        }
                    }
                    if picked(idx_valid_moves@, m as int, t) {
                        let k = choose|k: int| 0 <= k < m && #[trigger] idx_valid_moves@[k] == t;
                        assert(0 <= k < m + 1 && idx_valid_moves@[k] == t);
                    }
                    if t == move_idx {
                        assert(idx_valid_moves@[m as int] == t);
                    }
                }
                assert forall|a: int, b: int| 0 <= a < n && 0 <= b < n implies (
                #[trigger] self.tabu_search[a][b] <==> (before.tabu_search[a][b] && !before.taken(
                    idx_valid_moves@,
                    m as int + 1,
                    a,
                    b,
                ))) by {
                    if a != record.i {
                        assert(self.tabu_search[a] == current.tabu_search[a]);
                    }
                    assert(self.tabu_search[a][b] <==> (current.tabu_search[a][b] && !(a == record.i
                        && b == record.j)));
                    if before.taken(idx_valid_moves@, m as int + 1, a, b) {
                        let k = choose|k: int|
                            0 <= k < m + 1 && before.tabu[#[trigger] idx_valid_moves@[k] as int].i
                                == a && before.tabu[idx_valid_moves@[k] as int].j == b;
                        if k < m {
                            assert(before.taken(idx_valid_moves@, m as int, a, b));
                        }
                    }
                    if before.taken(idx_valid_moves@, m as int, a, b) {
                        let k = choose|k: int|
                            0 <= k < m && before.tabu[#[trigger] idx_valid_moves@[k] as int].i == a
                                && before.tabu[idx_valid_moves@[k] as int].j == b;
                        assert(0 <= k < m + 1);
                    }
                    if a == record.i && b == record.j {
                        assert(before.tabu[idx_valid_moves@[m as int] as int].i == a);
                    }
                }
                assert forall|a: int| 0 <= a < n implies (#[trigger] self.tabu_search[a]).len()
                    == n by {
                    assert(current.tabu_search[a].len() == n);
                }
                assert(removed_marks(before@.entries, self@.entries) =~= marks.update(
                    move_idx as int,
                    true,
                ));
            }
            m += 1;
        }
        proof {
            let picks = idx_valid_moves@;
            let after = *self;
            assert forall|a: int, b: int|
                0 <= a < n && 0 <= b < n && #[trigger] self.tabu_search[a][b] implies exists|s: int|
                0 <= s < self.tabu.len() && (#[trigger] self.tabu[s]).i == a && self.tabu[s].j
                    == b by {
                assert(before.tabu_search[a][b]);
                let s = choose|s: int|
                    0 <= s < before.tabu.len() && (#[trigger] before.tabu[s]).i == a
                        && before.tabu[s].j == b;
                if picked(picks, m as int, s) {
                    let k = choose|k: int| 0 <= k < m && #[trigger] picks[k] == s;
                    assert(before.taken(picks, m as int, a, b));
                }
                assert(self.tabu[s].i == a);
            }
            assert forall|s: int| 0 <= s < self.tabu.len() implies {
                let record = #[trigger] self.tabu[s];
                (record.i == -1 && record.j == -1) || (0 <= record.i < self.tabu_search.len() && 0
                    <= record.j < self.tabu_search.len())
            } by {
                let old_record = before.tabu[s];
                assert((old_record.i == -1 && old_record.j == -1) || (0 <= old_record.i < n && 0
                    <= old_record.j < n));
            }
            assert forall|pair: (int, int)|
                #[trigger] after@.members.contains(pair) <==> before@.members.contains(pair)
                    && !before@.removed(after@, pair) by {
                let (a, b) = pair;
                if before@.removed(after@, pair) {
                    let s = choose|s: int|
                        0 <= s < before@.entries.len() && #[trigger] before@.entries[s] == Some(pair)
                            && after@.entries[s] is None;
                    assert(after.tabu[s] != before.tabu[s]);
                    assert(picked(picks, m as int, s));
                    let k = choose|k: int| 0 <= k < m && #[trigger] picks[k] == s;
                    assert(before.taken(picks, m as int, a, b));
                }
                if 0 <= a < n && 0 <= b < n && before.taken(picks, m as int, a, b) {
                    let k = choose|k: int|
                        0 <= k < m && before.tabu[#[trigger] picks[k] as int].i == a
                            && before.tabu[picks[k] as int].j == b;
                    let s = picks[k] as int;
                    assert(picked(picks, m as int, s));
                    assert(before.tabu[s].entry() is Some);
                    assert(before@.entries[s] == Some(pair));
                    assert(after@.entries[s] is None);
                    assert(before@.removed(after@, pair));
                }
            }
            assert forall|s: int| 0 <= s < before@.entries.len() implies #[trigger] after@.entries[s]
                == before@.entries[s] || after@.entries[s] is None by {}
        }
    }
}

/// Place `t` is among the first `m` places that were picked.
spec fn picked(picks: Seq<usize>, m: int, t: int) -> bool {
    exists|k: int| 0 <= k < m && #[trigger] picks[k] == t
}

impl SimpleTabuList {
    /// One of the first `m` places that were picked holds the pair `(a, b)`.
    closed spec fn taken(&self, picks: Seq<usize>, m: int, a: int, b: int) -> bool {
        exists|k: int|
            0 <= k < m && self.tabu[#[trigger] picks[k] as int].i == a && self.tabu[picks[k] as int].j
                == b
    }
}

} // verus!
