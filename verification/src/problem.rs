//! The plain description of a project, as a problem file states it.

use vstd::prelude::*;

verus! {

/// A project scheduling problem. Job numbers are the activity ids `0 .. jobs`:
/// job `0` is the source and job `jobs - 1` the sink.
#[derive(Debug, PartialEq, Clone)]
pub struct PspLibProblem {
    pub file_with_basedata: String,
    pub initial_rng: usize,
    pub projects: usize,
    pub jobs: usize,
    pub horizon: usize,
    pub resources: PspLibProblemResources,
    pub project_info: Vec<PspLibProjectInformation>,
    pub precedence_relations: Vec<PspLibPrecedenceRelation>,
    pub request_durations: Vec<PspLibRequestDuration>,
    pub resource_availabilities: PspLibResourceAvailability,
}

/// How many resources of each kind the problem declares.
#[derive(Debug, PartialEq, Clone)]
pub struct PspLibProblemResources {
    pub renewable: usize,
    pub nonrenewable: usize,
    pub doubly_constrained: usize,
}

#[derive(Debug, PartialEq, Clone)]
/// What the problem says of one of its projects.
pub struct PspLibProjectInformation {
    pub number: u8,
    pub jobs: u8,
    pub relative_date: u8,
    pub due_date: u8,
    pub tard_cost: u8,
    pub mpm_time: u8,
}

/// The successors of one job.
#[derive(Debug, PartialEq, Clone)]
pub struct PspLibPrecedenceRelation {
    pub job_number: u8,
    pub mode_count: u8,
    pub successor_count: u8,
    pub successors: Vec<u8>,
}

/// The duration of one job and what it takes of each renewable resource.
#[derive(Debug, PartialEq, Clone)]
pub struct PspLibRequestDuration {
    pub job_number: u8,
    pub mode: u8,
    pub duration: u8,
    pub r1: u8,
    pub r2: u8,
    pub r3: u8,
    pub r4: u8,
}

/// The capacity of each renewable resource.
#[derive(Debug, PartialEq, Clone)]
pub struct PspLibResourceAvailability {
    pub r1: u8,
    pub r2: u8,
    pub r3: u8,
    pub r4: u8,
}

} // verus!
