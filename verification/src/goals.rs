//! Goals and goal selection.
//!
//! A goal is a named constraint set with a static utility.  A
//! [`GoalEvaluation`] policy picks the active goal from an agent's list:
//! the first by list order, a uniformly random one, or a caller-supplied
//! selector.

use vstd::prelude::*;

use crate::data::{Context, ReqValue, Requirements};

verus! {

/// Spec-level twin of [`Goal`].
pub struct GoalValue {
    pub name: Seq<char>,
    pub requirements: Map<Seq<char>, ReqValue>,
    pub utility: int,
}

/// A named target: a constraint set to reach, with a static utility used by
/// the host to order an agent's goal list.
#[derive(Debug)]
pub struct Goal {
    pub name: String,
    pub requirements: Requirements,
    pub utility: u64,
}

impl View for Goal {
    type V = GoalValue;

    open spec fn view(&self) -> GoalValue {
        GoalValue { name: self.name@, requirements: self.requirements@, utility: self.utility as int }
    }
}

impl Clone for Goal {
    fn clone(&self) -> (r: Goal)
        ensures
            r@ == self@,
    {
        Goal {
            name: self.name.clone(),
            requirements: self.requirements.clone(),
            utility: self.utility,
        }
    }
}

impl Goal {
    /// A goal named `name` that demands `requirements`, with the given
    /// static utility.
    pub fn new(name: &str, requirements: Requirements, utility: u64) -> (r: Goal)
        ensures
            r@ == (GoalValue {
                name: name@,
                requirements: requirements@,
                utility: utility as int,
            }),
    {
        Goal { name: name.to_owned(), requirements, utility }
    }
}

/// Relies on rand's `Rng::gen_range` (through `rand::thread_rng`): a draw
/// from `0..n` lies in that range; the call panics only on an empty range,
/// which the precondition excludes.  Nothing more is assumed of the draw.
#[verifier::external_body]
fn random_index(n: usize) -> (r: usize)
    requires
        n > 0,
    ensures
        r < n,
{
    rand::Rng::gen_range(&mut rand::thread_rng(), 0..n)
}

/// The policy that picks an agent's active goal.  A host with a selection
/// rule of its own picks the goal itself and hands it to the goal-explicit
/// planning entry instead.
#[derive(Debug)]
pub enum GoalEvaluation {
    /// A uniformly random goal.
    Random,
    /// The first goal by list order; callers keep the list sorted by
    /// priority.
    Top,
}

impl GoalEvaluation {
    /// The active goal under this policy, `None` exactly when the list is
    /// empty.  `Top` yields the first goal; `Random` yields some goal of the
    /// list.
    pub fn next_goal(&self, goals: &Vec<Goal>, _world: &Context) -> (r: Option<Goal>)
        ensures
            self is Top ==> match r {
                Some(g) => goals@.len() > 0 && g@ == goals@[0]@,
                None => goals@.len() == 0,
            },
            self is Random ==> match r {
                Some(g) => exists|i: int| 0 <= i < goals@.len() && g@ == (#[trigger] goals@[i])@,
                None => goals@.len() == 0,
            },
    {
        match self {
            GoalEvaluation::Top => {
                if goals.len() > 0 {
                    Some(goals[0].clone())
                } else {
                    None
                }
            },
            GoalEvaluation::Random => {
                if goals.len() > 0 {
                    let i = random_index(goals.len());
                    Some(goals[i].clone())
                } else {
                    None
                }
            },
        }
    }
}

} // verus!
