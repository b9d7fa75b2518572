//! The load on the resources while a schedule is built.

use vstd::prelude::*;

pub mod time_resolution;

verus! {

/// What an activity takes of resource `k`; nothing where the list is too short.
pub open spec fn need(requirements: Seq<usize>, k: int) -> int {
    if 0 <= k < requirements.len() {
        requirements[k] as int
    } else {
        0
    }
}

/// The state of the resources over the time slots `0 .. slots`.
pub trait SourcesLoad {
    /// The state is consistent.
    spec fn well_formed(&self) -> bool;

    /// The number of resources.
    spec fn resources(&self) -> int;

    /// The number of time slots that the state covers.
    spec fn slots(&self) -> int;

    /// What is free of resource `k` at time `t`.
    spec fn free(&self, k: int, t: int) -> int;

    /// At time `t` every resource has free what the activity takes of it.
    open spec fn slot_open(&self, requirements: Seq<usize>, t: int) -> bool {
        forall|k: int|
            0 <= k < self.resources() ==> need(requirements, k) <= #[trigger] self.free(k, t)
    }

    /// An activity of the given duration cannot start at `start`: some time
    /// slot that it would cover is not open.
    open spec fn blocked(&self, requirements: Seq<usize>, start: int, duration: int) -> bool {
        exists|t: int|
            start <= t < start + duration && t < self.slots() && !#[trigger] self.slot_open(
                requirements,
                t,
            )
    }

    /// The earliest start time, not before the one that precedence allows, at
    /// which the activity overloads no resource: every covered time slot is
    /// open, and every earlier start is blocked. Time slots beyond the last
    /// one count as open.
    fn get_earliest_start_time(
        &self,
        activity_resource_requirements: &[usize],
        earliest_precedence_start_time: usize,
        activity_duration: usize,
    ) -> (start: usize)
        requires
            self.well_formed(),
        ensures
            earliest_precedence_start_time <= start,
            forall|t: int|
                start <= t < start + activity_duration && t < self.slots() ==> #[trigger] self.slot_open(
                    activity_resource_requirements@,
                    t,
                ),
            forall|s: int|
                earliest_precedence_start_time <= s < start ==> #[trigger] self.blocked(
                    activity_resource_requirements@,
                    s,
                    activity_duration as int,
                ),
    ;

    /// Takes from every resource what the activity needs, at each time slot
    /// from `activity_start` up to, not including, `activity_stop`.
    fn add_activity(
        &mut self,
        activity_start: usize,
        activity_stop: usize,
        activity_requirements: &[usize],
    )
        requires
            old(self).well_formed(),
            forall|t: int|
                activity_start <= t < activity_stop && t < old(self).slots() ==> #[trigger] old(self).slot_open(
                    activity_requirements@,
                    t,
                ),
        ensures
            final(self).well_formed(),
            final(self).resources() == old(self).resources(),
            final(self).slots() == old(self).slots(),
            forall|k: int, t: int|
                0 <= k < old(self).resources() && 0 <= t < old(self).slots()
                    ==> #[trigger] final(self).free(k, t) == old(self).free(k, t)
                    - if activity_start <= t < activity_stop {
                    need(activity_requirements@, k)
                } else {
                    0
                },
    ;
}

} // verus!
