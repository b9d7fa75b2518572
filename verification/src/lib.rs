//! Tabu search for the resource-constrained project scheduling problem.
//!
//! A project is a set of activities with durations, precedence constraints
//! and demands on renewable resources of fixed capacity. The search looks for
//! an order of the activities whose serial schedule has a small makespan.
//!
//! - `project` is the mathematical model of a project, `order` that of an
//!   order of its activities, and `serial` that of the serial schedule of an
//!   order; the contracts of the other modules speak of these.
//! - `dag` holds the project graph: it is built from a `problem`, gives the
//!   ranks and the initial order, the critical path, the reduced
//!   neighbourhood of an order, and the makespan of an order.
//! - `sources_load` keeps the load on the resources while a schedule is
//!   built, and `tabu_list` the moves that were made of late.
//! - `scheduler` is the search itself, with one walker or with several.
//! - `psp_lib_parser` reads the head of a problem file, and `generator` makes
//!   activities up.
//! - `graph` and `random` hold what is taken on trust: the adjacency matrix
//!   and the random choices.

pub mod counting;
pub mod dag;
pub mod generator;
pub mod graph;
pub mod order;
pub mod problem;
pub mod project;
pub mod psp_lib_parser;
pub mod random;
pub mod scheduler;
pub mod serial;
pub mod sources_load;
pub mod tabu_list;
pub mod util;

use vstd::prelude::*;

verus! {

/// The kinds of move that a tabu list can tell apart.
pub enum MoveType {
    /// Two activities change places.
    Swap,
    /// An activity goes to another place.
    Shift,
    /// No move.
    NoMove,
}

} // verus!
