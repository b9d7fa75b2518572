//! The load on the resources, kept for each time slot.

use crate::sources_load::need;
use crate::sources_load::SourcesLoad;
use vstd::prelude::*;

verus! {

/// For each resource and each time slot, what is still free of the resource.
pub struct TimeResolution {
    number_of_resources: usize,
    makespan_upper_bound: usize,
    remaining_resource_capacity: Vec<Vec<usize>>,
}

impl TimeResolution {
    /// The state in which nothing is scheduled: at every time slot below
    /// `makespan_upper_bound` each resource has its whole capacity free. A
    /// resource without a listed capacity has none.
    pub fn new(
        number_of_resources: usize,
        capacity_of_resources: Vec<usize>,
        makespan_upper_bound: usize,
    ) -> (load: Self)
        ensures
            load.well_formed(),
            load.resources() == number_of_resources,
            load.slots() == makespan_upper_bound,
            forall|k: int, t: int|
                0 <= k < number_of_resources && 0 <= t < makespan_upper_bound ==> #[trigger] load.free(
                    k,
                    t,
                ) == need(capacity_of_resources@, k),
    {
        let mut remaining_resource_capacity: Vec<Vec<usize>> = Vec::new();
        let mut resource_id: usize = 0;
        while resource_id < number_of_resources
            invariant
                resource_id <= number_of_resources,
                remaining_resource_capacity.len() == resource_id,
                forall|k: int|
                    0 <= k < resource_id ==> (#[trigger] remaining_resource_capacity[k]).len()
                        == makespan_upper_bound,
                forall|k: int, t: int|
                    0 <= k < resource_id && 0 <= t < makespan_upper_bound
                        ==> #[trigger] remaining_resource_capacity[k][t] == need(
                        capacity_of_resources@,
                        k,
                    ),
            decreases number_of_resources - resource_id,
        {
            let capacity_of_resource: usize = if resource_id < capacity_of_resources.len() {
                capacity_of_resources[resource_id]
            } else {
                0
            };
            let mut capacity_vec: Vec<usize> = Vec::new();
            let mut t: usize = 0;
            while t < makespan_upper_bound
                invariant
                    t <= makespan_upper_bound,
                    capacity_vec.len() == t,
                    forall|x: int| 0 <= x < t ==> #[trigger] capacity_vec[x] == capacity_of_resource,
                decreases makespan_upper_bound - t,
            {
                capacity_vec.push(capacity_of_resource);
                t += 1;
            }
            remaining_resource_capacity.push(capacity_vec);
            resource_id += 1;
        }
        Self { number_of_resources, makespan_upper_bound, remaining_resource_capacity }
    }
}

impl SourcesLoad for TimeResolution {
    closed spec fn well_formed(&self) -> bool {
        &&& self.remaining_resource_capacity.len() == self.number_of_resources
        &&& forall|k: int|
            0 <= k < self.number_of_resources ==> (#[trigger] self.remaining_resource_capacity[k]).len()
                == self.makespan_upper_bound
    }

    closed spec fn resources(&self) -> int {
        self.number_of_resources as int
    }

    closed spec fn slots(&self) -> int {
        self.makespan_upper_bound as int
    }

    closed spec fn free(&self, k: int, t: int) -> int {
        self.remaining_resource_capacity[k][t] as int
    }

    fn get_earliest_start_time(
        &self,
        activity_resource_requirements: &[usize],
        earliest_precedence_start_time: usize,
        activity_duration: usize,
    ) -> (start: usize) {
        let ghost requirements = activity_resource_requirements@;
        let ghost duration = activity_duration as int;
        let mut load_time: usize = 0;
        let mut t: usize = earliest_precedence_start_time;
        while t < self.makespan_upper_bound && load_time < activity_duration
            invariant
                self.well_formed(),
                requirements == activity_resource_requirements@,
                duration == activity_duration,
                earliest_precedence_start_time <= t,
                load_time <= t - earliest_precedence_start_time,
                load_time <= activity_duration,
                t <= self.makespan_upper_bound || t == earliest_precedence_start_time,
                forall|x: int| t - load_time <= x < t ==> #[trigger] self.slot_open(requirements, x),
                forall|s: int|
                    earliest_precedence_start_time <= s < t - load_time ==> #[trigger] self.blocked(requirements,
                        s,
                        duration,
                    ),
            decreases self.makespan_upper_bound - t,
        {
            let mut capacity_available = true;
            let mut resource_id: usize = 0;
            while resource_id < self.number_of_resources && capacity_available
                invariant
                    self.well_formed(),
                    requirements == activity_resource_requirements@,
                    resource_id <= self.number_of_resources,
                    t < self.makespan_upper_bound,
                    capacity_available ==> forall|k: int|
                        0 <= k < resource_id ==> need(requirements, k) <= #[trigger] self.free(k, t as int),
                    !capacity_available ==> !self.slot_open(requirements, t as int),
                decreases self.number_of_resources - resource_id,
            {
                if resource_id < activity_resource_requirements.len() {
                    if self.remaining_resource_capacity[resource_id][t]
                        < activity_resource_requirements[resource_id] {
                        capacity_available = false;
                        assert(need(requirements, resource_id as int) > self.free(
                            resource_id as int,
                            t as int,
                        ));
                    }
                }
                resource_id += 1;
            }
            if capacity_available {
                assert(self.slot_open(requirements, t as int));
                load_time += 1;
            } else {
                assert forall|s: int|
                    earliest_precedence_start_time <= s < t + 1 implies #[trigger] self.blocked(requirements,
                    s,
                    duration,
                ) by {
                    if s >= t - load_time {
                        assert(s <= t < s + duration && t < self.slots() && !self.slot_open(requirements,
                            t as int,
                        ));
                    }
                }
                load_time = 0;
            }
            t += 1;
        }
        t - load_time
    }

    fn add_activity(
        &mut self,
        activity_start: usize,
        activity_stop: usize,
        activity_requirements: &[usize],
    ) {
        let ghost before = *self;
        let ghost requirements = activity_requirements@;
        let end = if activity_stop < self.makespan_upper_bound {
            activity_stop
        } else {
            self.makespan_upper_bound
        };
        let mut resource_id: usize = 0;
        while resource_id < self.number_of_resources
            invariant
                self.well_formed(),
                before.well_formed(),
                requirements == activity_requirements@,
                self.number_of_resources == before.number_of_resources,
                self.makespan_upper_bound == before.makespan_upper_bound,
                resource_id <= self.number_of_resources,
                end <= self.makespan_upper_bound,
                end <= activity_stop,
                end == activity_stop || end == self.makespan_upper_bound,
                forall|t: int|
                    activity_start <= t < activity_stop && t < before.slots() ==> #[trigger] before.slot_open(requirements,
                        t,
                    ),
                forall|k: int, t: int|
                    0 <= k < resource_id && 0 <= t < self.makespan_upper_bound ==> #[trigger] self.free(
                        k,
                        t,
                    ) == before.free(k, t) - if activity_start <= t < activity_stop {
                        need(requirements, k)
                    } else {
                        0
                    },
                forall|k: int|
                    resource_id <= k < self.number_of_resources
                        ==> #[trigger] self.remaining_resource_capacity[k]
                        == before.remaining_resource_capacity[k],
            decreases self.number_of_resources - resource_id,
        {
            if resource_id < activity_requirements.len() {
                let requirement = activity_requirements[resource_id];
                let mut t: usize = activity_start;
                while t < end
                    invariant
                        self.well_formed(),
                        before.well_formed(),
                        requirements == activity_requirements@,
                        self.number_of_resources == before.number_of_resources,
                        self.makespan_upper_bound == before.makespan_upper_bound,
                        resource_id < self.number_of_resources,
                        resource_id < activity_requirements.len(),
                        requirement == need(requirements, resource_id as int),
                        end <= self.makespan_upper_bound,
                        end <= activity_stop,
                        activity_start <= t,
                        t <= end || t == activity_start,
                        forall|x: int|
                            activity_start <= x < activity_stop && x < before.slots()
                                ==> #[trigger] before.slot_open(requirements, x),
                        forall|k: int, x: int|
                            0 <= k < resource_id && 0 <= x < self.makespan_upper_bound
                                ==> #[trigger] self.free(k, x) == before.free(k, x)
                                - if activity_start <= x < activity_stop {
                                need(requirements, k)
                            } else {
                                0
                            },
                        forall|k: int|
                            resource_id < k < self.number_of_resources
                                ==> #[trigger] self.remaining_resource_capacity[k]
                                == before.remaining_resource_capacity[k],
                        forall|x: int|
                            0 <= x < self.makespan_upper_bound ==> #[trigger] self.free(
                                resource_id as int,
                                x,
                            ) == before.free(resource_id as int, x) - if activity_start <= x < t {
                                requirement as int
                            } else {
                                0
                            },
                    decreases end - t,
                {
                    assert(before.slot_open(requirements, t as int));
                    assert(need(requirements, resource_id as int) <= before.free(
                        resource_id as int,
                        t as int,
                    ));
                    assert(self.free(resource_id as int, t as int) == before.free(
                        resource_id as int,
                        t as int,
                    ));
                    let ghost prev = *self;
                    let left = self.remaining_resource_capacity[resource_id][t] - requirement;
                    self.remaining_resource_capacity[resource_id][t] = left;
                    assert forall|k: int, x: int|
                        0 <= k < self.number_of_resources && 0 <= x
                            < self.makespan_upper_bound implies #[trigger] self.free(k, x) == if k
                        == resource_id && x == t {
                        left as int
                    } else {
                        prev.free(k, x)
                    } by {
                        if k != resource_id {
                            assert(self.remaining_resource_capacity[k]
                                == prev.remaining_resource_capacity[k]);
                        }
                    }
                    t += 1;
                }
            }
            resource_id += 1;
        }
    }
}

} // verus!
