//! The per-agent execution state machine.
//!
//! The host runtime owns the side effects (attaching and removing behaviour
//! markers) and reports each tick whether the active task is still running,
//! succeeded, or failed.  The decision of what to do next — keep waiting,
//! activate the next primitive of the plan, skip an unknown name, or clear
//! all execution markers — is computed here, as a verified function from the
//! reported state to a directive the host carries out.

use vstd::prelude::*;

use crate::data::Context;
use crate::planning::{leaf_names_via, plan_outcome, string_views, HtnAgent};
use crate::tasks::{views_of, GlobalHtnTaskRegistry};

verus! {

/// An agent-local overlay of facts, merged over the global world (the
/// overlay wins on conflict) before each planning attempt.
#[derive(Debug)]
pub struct HtnAgentWorld(pub Context);

/// The ordered primitive task names an agent still has to run; the next one
/// stands first.
#[derive(Debug)]
pub struct HtnAgentPlan {
    pub plan_stack: Vec<String>,
}

/// The name of the task currently active for an agent.
#[derive(Debug)]
pub struct HtnAgentCurrentTask(pub String);

/// The externally reported outcome of the active task.
#[derive(Debug, PartialEq, Eq, Structural, Clone, Copy)]
pub enum HtnAgentState {
    /// The task's behaviour has been activated and has not resolved yet.
    Running,
    /// The task resolved successfully: the next plan step may start.
    Success,
    /// The task resolved unsuccessfully: the plan is abandoned.
    Failure,
}

/// What the host must do with an agent this cycle.
#[derive(Debug)]
pub enum AgentDirective {
    /// Leave the agent alone: its task is still running.
    Wait,
    /// Deactivate the previous task's behaviour (if one is named), activate
    /// `task`'s, mark it current, and set the state back to running.
    StartTask { task: String, previous: Option<String> },
    /// The popped plan step names no registered task: activate nothing this
    /// cycle (the step is dropped with a diagnostic).
    SkipUnknown { task: String },
    /// Remove the current-task marker, the state and the plan: the agent
    /// becomes unplanned and eligible for a fresh planning attempt.
    ClearAll,
}

/// One state-machine transition for an agent that owns a plan.  Running
/// waits; Failure clears; Success (or a plan not yet started) pops the next
/// primitive name off the plan stack and asks the host to activate it, or
/// clears everything once the stack is empty.
pub fn handle_agent_state(
    plan: &mut HtnAgentPlan,
    state: Option<&HtnAgentState>,
    current: Option<&HtnAgentCurrentTask>,
    registry: &GlobalHtnTaskRegistry,
) -> (r: AgentDirective)
    ensures
        state matches Some(s) && s is Running ==> r is Wait && final(plan).plan_stack@ == old(
            plan,
        ).plan_stack@,
        state matches Some(s) && s is Failure ==> r is ClearAll && final(plan).plan_stack@ == old(
            plan,
        ).plan_stack@,
        (state is None || (state matches Some(s) && s is Success)) && old(
            plan,
        ).plan_stack@.len() == 0 ==> r is ClearAll && final(plan).plan_stack@ == old(
            plan,
        ).plan_stack@,
        (state is None || (state matches Some(s) && s is Success)) && old(
            plan,
        ).plan_stack@.len() > 0 ==> {
            &&& final(plan).plan_stack@ == old(plan).plan_stack@.drop_first()
            &&& ({
                let next = old(plan).plan_stack@[0];
                if registry@.contains_key(next@) {
                    r matches AgentDirective::StartTask { task, previous } && task@ == next@
                        && (match (previous, current) {
                        (Some(pn), Some(c)) => pn@ == c.0@,
                        (None, None) => true,
                        _ => false,
                    })
                } else {
                    r matches AgentDirective::SkipUnknown { task } && task@ == next@
                }
            })
        },
{
    match state {
        Some(HtnAgentState::Running) => AgentDirective::Wait,
        Some(HtnAgentState::Failure) => AgentDirective::ClearAll,
        _ => {
            if plan.plan_stack.len() == 0 {
                AgentDirective::ClearAll
            } else {
                let next = plan.plan_stack.remove(0);
                if registry.get_named(next.as_str()).is_some() {
                    let previous = match current {
                        Some(c) => Some(c.0.clone()),
                        None => None,
                    };
                    AgentDirective::StartTask { task: next, previous }
                } else {
                    AgentDirective::SkipUnknown { task: next }
                }
            }
        },
    }
}

/// The planning pass for an unplanned agent: merges the agent's overlay over
/// the global facts (the overlay wins), plans towards the agent's active
/// goal, and flattens a found plan into its stack of primitive names.  An
/// agent whose planning fails is simply left unplanned this cycle.
pub fn plan_for_agent(
    agent: &HtnAgent,
    world: &Context,
    overlay: Option<&HtnAgentWorld>,
    registry: &GlobalHtnTaskRegistry,
) -> (r: Option<HtnAgentPlan>)
    ensures
        ({
            let w = match overlay {
                Some(o) => world@.union_prefer_right(o.0@),
                None => world@,
            };
            let avail = views_of(agent.available_tasks@);
            &&& (agent.goals@.len() == 0 ==> r is None)
            &&& (agent.goal_eval is Top && agent.goals@.len() > 0 ==> match r {
                Some(p) => plan_outcome(
                    avail,
                    registry@,
                    agent.goals@[0]@.requirements,
                    w,
                ) matches Some(tasks) && string_views(p.plan_stack@) == leaf_names_via(tasks),
                None => plan_outcome(avail, registry@, agent.goals@[0]@.requirements, w) is None,
            })
            &&& (agent.goal_eval is Random && agent.goals@.len() > 0 ==> exists|i: int|
                0 <= i < agent.goals@.len() && (match r {
                    Some(p) => plan_outcome(
                        avail,
                        registry@,
                        (#[trigger] agent.goals@[i])@.requirements,
                        w,
                    ) matches Some(tasks) && string_views(p.plan_stack@) == leaf_names_via(tasks),
                    None => plan_outcome(
                        avail,
                        registry@,
                        agent.goals@[i]@.requirements,
                        w,
                    ) is None,
                }))
        }),
{
    let merged = match overlay {
        Some(o) => world.concat(&o.0),
        None => world.clone(),
    };
    let ghost w = merged@;
    let ghost avail = views_of(agent.available_tasks@);
    let planned = agent.create_plan(&merged, registry);
    match planned {
        Ok(path) => {
            let stack = path.decompose_tasks();
            proof {
                crate::tasks::lemma_views_of(path.0@);
                if agent.goal_eval is Random && agent.goals@.len() > 0 {
                    let i = choose|i: int|
                        0 <= i < agent.goals@.len() && crate::planning::planning_result_matches(
                            planned,
                            avail,
                            registry@,
                            (#[trigger] agent.goals@[i])@.requirements,
                            w,
                        );
                    assert(plan_outcome(avail, registry@, agent.goals@[i]@.requirements, w)
                        == Some(views_of(path.0@)));
                }
            }
            Some(HtnAgentPlan { plan_stack: stack })
        },
        Err(_) => {
            proof {
                if agent.goal_eval is Random && agent.goals@.len() > 0 {
                    let i = choose|i: int|
                        0 <= i < agent.goals@.len() && crate::planning::planning_result_matches(
                            planned,
                            avail,
                            registry@,
                            (#[trigger] agent.goals@[i])@.requirements,
                            w,
                        );
                    assert(plan_outcome(avail, registry@, agent.goals@[i]@.requirements, w) is None);
                }
            }
            None
        },
    }
}

} // verus!
