//! A hierarchical task network (HTN) planner.
//!
//! The library models a symbolic world as a set of named facts, tasks as
//! primitive or composite operations with pre- and postconditions, and goals
//! as constraint sets over the world.  A forward depth-first search produces
//! the cheapest sequence of primitive tasks that reaches the active goal, and
//! a per-agent execution state machine consumes that sequence.

use vstd::prelude::*;

pub mod data;
pub mod default_tasks;
pub mod execution;
pub mod goals;
pub mod planning;
pub mod tasks;

verus! {

/// Configuration a host runtime installs the planner with: optionally, the
/// initial global world state.
#[derive(Debug)]
pub struct HtnPlanningPlugin {
    pub initial_world: Option<crate::data::Context>,
}

impl HtnPlanningPlugin {
    /// A planner installation with an empty initial world.
    pub fn new() -> (r: HtnPlanningPlugin)
        ensures
            r.initial_world is None,
    {
        HtnPlanningPlugin { initial_world: None }
    }

    /// A planner installation seeded with `world` as the global facts.
    pub fn with(world: crate::data::Context) -> (r: HtnPlanningPlugin)
        ensures
            r.initial_world matches Some(w) && w@ == world@,
    {
        HtnPlanningPlugin { initial_world: Some(world) }
    }
}

} // verus!
