use htnp::data::{Context, Predicate, Requirements};
use htnp::execution::{
    handle_agent_state, plan_for_agent, AgentDirective, HtnAgentCurrentTask, HtnAgentPlan,
    HtnAgentState, HtnAgentWorld,
};
use htnp::goals::Goal;
use htnp::planning::HtnAgent;
use htnp::tasks::{GlobalHtnTaskRegistry, Task};

fn fact(key: &str, value: bool) -> Context {
    Context::new().add(key, Predicate::Bool(value))
}

fn registry_with(names: &[&str]) -> GlobalHtnTaskRegistry {
    let mut registry = GlobalHtnTaskRegistry::new();
    for name in names {
        registry.task(name, None, None, 1);
    }
    registry
}

#[test]
fn execution_walks_the_plan_and_clears_at_the_end() {
    // An agent with plan ["a","b"] and no current task activates "a";
    // upon Success, "a" deactivates and "b" activates; upon a second
    // Success with an empty stack, all execution markers are cleared.
    let registry = registry_with(&["a", "b"]);
    let mut plan = HtnAgentPlan {
        plan_stack: vec!["a".to_string(), "b".to_string()],
    };

    let first = handle_agent_state(&mut plan, None, None, &registry);
    match first {
        AgentDirective::StartTask { task, previous } => {
            assert_eq!(task, "a".to_string());
            assert!(previous.is_none());
        }
        _ => panic!("expected the first task to start"),
    }
    assert_eq!(plan.plan_stack, vec!["b".to_string()]);

    let current = HtnAgentCurrentTask("a".to_string());
    let second = handle_agent_state(
        &mut plan,
        Some(&HtnAgentState::Success),
        Some(&current),
        &registry,
    );
    match second {
        AgentDirective::StartTask { task, previous } => {
            assert_eq!(task, "b".to_string());
            assert_eq!(previous, Some("a".to_string()));
        }
        _ => panic!("expected the next task to start"),
    }
    assert!(plan.plan_stack.is_empty());

    let current = HtnAgentCurrentTask("b".to_string());
    let third = handle_agent_state(
        &mut plan,
        Some(&HtnAgentState::Success),
        Some(&current),
        &registry,
    );
    assert!(matches!(third, AgentDirective::ClearAll));
}

#[test]
fn running_waits_and_failure_clears() {
    let registry = registry_with(&["a"]);
    let mut plan = HtnAgentPlan {
        plan_stack: vec!["a".to_string()],
    };
    let current = HtnAgentCurrentTask("a".to_string());

    let waiting = handle_agent_state(
        &mut plan,
        Some(&HtnAgentState::Running),
        Some(&current),
        &registry,
    );
    assert!(matches!(waiting, AgentDirective::Wait));
    assert_eq!(plan.plan_stack, vec!["a".to_string()]);

    let failed = handle_agent_state(
        &mut plan,
        Some(&HtnAgentState::Failure),
        Some(&current),
        &registry,
    );
    assert!(matches!(failed, AgentDirective::ClearAll));
    assert_eq!(plan.plan_stack, vec!["a".to_string()]);
}

#[test]
fn unknown_plan_steps_are_skipped() {
    let registry = registry_with(&["known"]);
    let mut plan = HtnAgentPlan {
        plan_stack: vec!["mystery".to_string(), "known".to_string()],
    };
    let skipped = handle_agent_state(&mut plan, None, None, &registry);
    match skipped {
        AgentDirective::SkipUnknown { task } => assert_eq!(task, "mystery".to_string()),
        _ => panic!("expected the unknown step to be skipped"),
    }
    assert_eq!(plan.plan_stack, vec!["known".to_string()]);
}

#[test]
fn planning_pass_fills_a_plan_stack() {
    let mut agent = HtnAgent::default();
    let mut registry = GlobalHtnTaskRegistry::new();
    registry.task("reach", Some(Context::new()), Some(fact("goal", true)), 1);
    agent.add_task(Task::primitive("reach", Context::new(), fact("goal", true)));
    agent.add_goal(Goal::new("g", Requirements::from_world(&fact("goal", true)), 1));

    let plan = plan_for_agent(&agent, &Context::new(), None, &registry);
    assert_eq!(plan.unwrap().plan_stack, vec!["reach".to_string()]);
}

#[test]
fn agent_overlay_wins_over_global_facts() {
    // The agent-local world overlays the global one, so a precondition the
    // global world denies can be met by the agent's own facts.
    let mut agent = HtnAgent::default();
    let mut registry = GlobalHtnTaskRegistry::new();
    registry.task("act", Some(fact("ready", true)), Some(fact("goal", true)), 1);
    agent.add_task(Task::primitive("act", fact("ready", true), fact("goal", true)));
    agent.add_goal(Goal::new("g", Requirements::from_world(&fact("goal", true)), 1));

    let global = fact("ready", false);
    assert!(plan_for_agent(&agent, &global, None, &registry).is_none());

    let overlay = HtnAgentWorld(fact("ready", true));
    let plan = plan_for_agent(&agent, &global, Some(&overlay), &registry);
    assert_eq!(plan.unwrap().plan_stack, vec!["act".to_string()]);
}
