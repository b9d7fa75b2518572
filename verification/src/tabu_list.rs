//! The tabu memory of the search: the swaps that were made of late and are
//! not to be made again for a while.

use crate::counting::count_true;
use crate::MoveType;
use vstd::prelude::*;

pub mod simple_tabu_list;

verus! {

/// What a tabu list of fixed length remembers.
pub struct TabuMemory {
    /// The buffer, place by place: a pair of activities, or nothing.
    pub entries: Seq<Option<(int, int)>>,
    /// The place that is written next.
    pub cursor: int,
    /// The pairs that are tabu.
    pub members: Set<(int, int)>,
}

/// For each place of the buffer, whether it holds a pair.
pub open spec fn occupied_marks(entries: Seq<Option<(int, int)>>) -> Seq<bool> {
    Seq::new(entries.len(), |s: int| entries[s] is Some)
}

/// For each place of the buffer, whether it held a pair before and holds none
/// after.
pub open spec fn removed_marks(
    before: Seq<Option<(int, int)>>,
    after: Seq<Option<(int, int)>>,
) -> Seq<bool> {
    Seq::new(before.len(), |s: int| before[s] is Some && after[s] is None)
}

impl TabuMemory {
    /// The memory of a new list of the given length: nothing is tabu.
    pub open spec fn empty(length: int) -> TabuMemory {
        TabuMemory {
            entries: Seq::new(length as nat, |s: int| None::<(int, int)>),
            cursor: 0,
            members: Set::empty(),
        }
    }

    /// The pairs that stay tabu when the entry under the cursor leaves.
    pub open spec fn without_evicted(self) -> Set<(int, int)> {
        match self.entries[self.cursor] {
            Some(pair) => self.members.remove(pair),
            None => self.members,
        }
    }

    /// The memory after the pair `(i, j)` has been written under the cursor:
    /// the pair that stood there is tabu no more, `(i, j)` is, and the cursor
    /// has moved on, from the last place back to the first.
    pub open spec fn inserted(self, i: int, j: int) -> TabuMemory {
        TabuMemory {
            entries: self.entries.update(self.cursor, Some((i, j))),
            cursor: (self.cursor + 1) % (self.entries.len() as int),
            members: self.without_evicted().insert((i, j)),
        }
    }

    /// The number of places that hold a pair.
    pub open spec fn occupied(self) -> int {
        count_true(occupied_marks(self.entries))
    }

    /// Some place that held `pair` holds nothing in `after`.
    pub open spec fn removed(self, after: TabuMemory, pair: (int, int)) -> bool {
        exists|s: int|
            0 <= s < self.entries.len() && #[trigger] self.entries[s] == Some(pair)
                && after.entries[s] is None
    }

    /// `after` is this memory with three tenths of its pairs, rounded down,
    /// taken out: their places hold nothing, and they are tabu no more.
    pub open spec fn pruned_to(self, after: TabuMemory) -> bool {
        &&& after.cursor == self.cursor
        &&& after.entries.len() == self.entries.len()
        &&& forall|s: int|
            0 <= s < self.entries.len() ==> #[trigger] after.entries[s] == self.entries[s]
                || after.entries[s] is None
        &&& count_true(removed_marks(self.entries, after.entries)) == 3 * self.occupied() / 10
        &&& forall|pair: (int, int)|
            #[trigger] after.members.contains(pair) <==> self.members.contains(pair)
                && !self.removed(after, pair)
    }
}

/// A pair is tabu as soon as it has been inserted.
pub proof fn lemma_inserted_is_tabu(memory: TabuMemory, i: int, j: int)
    ensures
        memory.inserted(i, j).members.contains((i, j)),
{
}

/// The pair under the cursor is tabu no more once another pair has been
/// inserted in its place.
pub proof fn lemma_evicted_is_not_tabu(memory: TabuMemory, i: int, j: int, pair: (int, int))
    requires
        memory.entries[memory.cursor] == Some(pair),
        pair != (i, j),
    ensures
        !memory.inserted(i, j).members.contains(pair),
{
}

/// A pair that pruning takes out of a place is tabu no more.
pub proof fn lemma_pruned_is_not_tabu(before: TabuMemory, after: TabuMemory, pair: (int, int))
    requires
        before.pruned_to(after),
        before.removed(after, pair),
    ensures
        !after.members.contains(pair),
{
}

/// A memory of moves that are not to be made.
pub trait TabuList {
    /// The state is consistent.
    spec fn well_formed(&self) -> bool;

    /// The number of activities of the project.
    spec fn activities(&self) -> int;

    /// The move of the activities `i` and `j` is tabu.
    spec fn is_tabu(&self, i: int, j: int) -> bool;

    /// Whether the move is permitted: it is a move of two activities of the
    /// project and not tabu.
    fn is_possible_move(&self, i: usize, j: usize, move_type: MoveType) -> (possible: bool)
        requires
            self.well_formed(),
        ensures
            possible == (i < self.activities() && j < self.activities() && !self.is_tabu(
                i as int,
                j as int,
            )),
    ;

    /// Makes the move tabu.
    fn add_turn_to_tabu_list(&mut self, i: usize, j: usize, move_type: MoveType)
        requires
            old(self).well_formed(),
            i < old(self).activities(),
            j < old(self).activities(),
        ensures
            final(self).well_formed(),
            final(self).activities() == old(self).activities(),
            final(self).is_tabu(i as int, j as int),
    ;

    /// Tells the list that a new best solution was found.
    fn best_solution_found(&self)
        requires
            self.well_formed(),
    ;

    /// Tells the list that an iteration has ended.
    fn go_to_next_iter(&self) -> (count: usize)
        requires
            self.well_formed(),
    ;

    /// Takes some moves out of the list at random. No move becomes tabu.
    fn prune(&mut self)
        requires
            old(self).well_formed(),
        ensures
            final(self).well_formed(),
            final(self).activities() == old(self).activities(),
            forall|i: int, j: int| #[trigger] final(self).is_tabu(i, j) ==> old(self).is_tabu(i, j),
    ;
}

} // verus!
