use htnp::data::{Context, Predicate, Requirements};
use htnp::goals::{Goal, GoalEvaluation};
use htnp::planning::{HtnAgent, PlanError};
use htnp::tasks::{GlobalHtnTaskRegistry, Task};

fn fact(key: &str, value: bool) -> Context {
    Context::new().add(key, Predicate::Bool(value))
}

/// Registers every primitive of `task` under its own conditions and cost.
fn register_primitives(registry: &mut GlobalHtnTaskRegistry, task: &Task, cost: u64) {
    for leaf in task.decompose() {
        if let Task::Primitive {
            precon,
            postcon,
            name,
        } = leaf
        {
            registry.task(name.as_str(), Some(precon), Some(postcon), cost);
        }
    }
}

#[test]
fn mod_goal_picking_planning() {
    let mut agent = HtnAgent::default();
    agent.goal_eval = GoalEvaluation::Top;
    let goal_a = Requirements::from_world(&fact("a", true));
    let goal_b = Requirements::from_world(&fact("b", true));
    let goal_c = Requirements::from_world(&fact("c", true));

    let world_ab = Context::new()
        .add("a", Predicate::Bool(true))
        .add("b", Predicate::Bool(true))
        .build();
    let world_b = fact("b", true);
    let world_not_a = Context::new()
        .add("a", Predicate::Bool(false))
        .add("b", Predicate::Bool(true))
        .build();

    agent.add_goal(Goal::new("a", goal_a, 1));
    agent.add_goal(Goal::new("b", goal_b, 1));
    agent.add_goal(Goal::new("c", goal_c, 1));

    let next_goal = agent.get_next_goal(&Context::new());
    assert!(next_goal.is_some());
    let next_goal = next_goal.unwrap();

    assert!(next_goal.requirements.validate(&world_ab));
    assert!(!next_goal.requirements.validate(&world_b));
    assert!(!next_goal.requirements.validate(&world_not_a));
}

#[test]
fn state_goal_picking_planning() {
    // The top-of-list policy picks the first goal in priority order.
    let mut agent = HtnAgent::default();
    agent.goal_eval = GoalEvaluation::Top;
    agent.add_goal(Goal::new("first", Requirements::from_world(&fact("a", true)), 3));
    agent.add_goal(Goal::new("second", Requirements::from_world(&fact("b", true)), 2));
    agent.add_goal(Goal::new("third", Requirements::from_world(&fact("c", true)), 1));

    let next_goal = agent.get_next_goal(&Context::new());
    assert!(next_goal.is_some());
    let next_goal = next_goal.unwrap();
    assert_eq!(next_goal.name, "first".to_string());
    assert!(next_goal.requirements.validate(&fact("a", true)));
    assert!(!next_goal.requirements.validate(&fact("b", true)));
    assert!(!next_goal.requirements.validate(&fact("c", true)));
}

#[test]
fn random_goal_picking_from_singleton() {
    // With a single goal the uniform draw can only land on it.
    let mut agent = HtnAgent::default();
    agent.goal_eval = GoalEvaluation::Random;
    assert!(agent.get_next_goal(&Context::new()).is_none());
    agent.add_goal(Goal::new("only", Requirements::from_world(&fact("a", true)), 1));
    let picked = agent.get_next_goal(&Context::new());
    assert!(picked.is_some());
    assert_eq!(picked.unwrap().name, "only".to_string());
}

#[test]
fn single_task_planning() {
    let precon = fact("hungry", true);
    let postcon = fact("hungry", true);

    let mut registry = GlobalHtnTaskRegistry::new();
    registry.task("test", Some(precon.build()), Some(postcon.build()), 0);

    let mut agent = HtnAgent::default();
    agent.add_task(Task::Primitive {
        precon: precon.build(),
        postcon: postcon.build(),
        name: "test".into(),
    });
    agent.add_goal(Goal::new("fed", Requirements::from_world(&postcon), 1));

    let result = agent.create_plan(&precon, &registry);

    assert!(result.is_ok());
    let plan = result.unwrap();
    assert_eq!(plan.0.len(), 1);
    assert_eq!(plan.decompose_tasks(), vec!["test".to_string()]);
    // the plan's final world satisfies the goal
    let reached = precon.concat(&plan.0[0].postconditions());
    assert!(Requirements::from_world(&postcon).validate(&reached));
}

#[test]
fn multi_task_planning() {
    let mut agent = HtnAgent::default();
    let mut registry = GlobalHtnTaskRegistry::new();
    let goto_door = Task::primitive(
        "goto_door",
        Context::new()
            .add("in_room_a", Predicate::Bool(true))
            .add("near_door", Predicate::Bool(false))
            .build(),
        fact("near_door", true),
    );
    let open_door = Task::primitive(
        "open_door",
        Context::new()
            .add("near_door", Predicate::Bool(true))
            .add("door_open", Predicate::Bool(false))
            .build(),
        fact("door_open", true),
    );
    let walk_thru_door = Task::primitive(
        "walk_thru_door",
        Context::new()
            .add("in_room_a", Predicate::Bool(true))
            .add("door_open", Predicate::Bool(true))
            .add("near_door", Predicate::Bool(true))
            .build(),
        fact("in_room_a", false),
    );
    for task in [&goto_door, &open_door, &walk_thru_door] {
        register_primitives(&mut registry, task, 0);
        agent.add_task(task.clone());
    }
    agent.add_goal(Goal::new(
        "leave",
        Requirements::from_world(&fact("in_room_a", false)),
        1,
    ));

    let result = agent.create_plan(
        &Context::new()
            .add("in_room_a", Predicate::Bool(true))
            .add("near_door", Predicate::Bool(false))
            .add("door_open", Predicate::Bool(false))
            .build(),
        &registry,
    );

    assert!(result.is_ok());
    let plan = result.unwrap();
    assert_eq!(plan.0.len(), 3);
    assert_eq!(
        plan.decompose_tasks(),
        vec![
            "goto_door".to_string(),
            "open_door".to_string(),
            "walk_thru_door".to_string()
        ]
    );
}

#[test]
fn planning_is_deterministic_on_identical_inputs() {
    let mut agent = HtnAgent::default();
    let mut registry = GlobalHtnTaskRegistry::new();
    let a = Task::primitive("a", Context::new(), fact("x", true));
    let b = Task::primitive("b", fact("x", true), fact("goal", true));
    for task in [&a, &b] {
        register_primitives(&mut registry, task, 1);
        agent.add_task(task.clone());
    }
    agent.add_goal(Goal::new("g", Requirements::from_world(&fact("goal", true)), 1));

    let first = agent.create_plan(&Context::new(), &registry);
    let second = agent.create_plan(&Context::new(), &registry);
    assert!(first.is_ok());
    assert!(second.is_ok());
    assert_eq!(
        first.unwrap().decompose_tasks(),
        second.unwrap().decompose_tasks()
    );
}

#[test]
fn search_prefers_the_cheaper_path() {
    let mut agent = HtnAgent::default();
    let mut registry = GlobalHtnTaskRegistry::new();
    let dear = Task::primitive("dear", Context::new(), fact("goal", true));
    let cheap = Task::primitive("cheap", Context::new(), fact("goal", true));
    register_primitives(&mut registry, &dear, 5);
    register_primitives(&mut registry, &cheap, 1);
    agent.add_task(dear);
    agent.add_task(cheap);
    agent.add_goal(Goal::new("g", Requirements::from_world(&fact("goal", true)), 1));

    let plan = agent.create_plan(&Context::new(), &registry).unwrap();
    assert_eq!(plan.decompose_tasks(), vec!["cheap".to_string()]);
}

#[test]
fn equally_cheap_paths_pick_the_first_found() {
    // The depth-first pop order discovers the later-listed child first;
    // between equally cheap goal-reaching leaves the first discovered wins.
    let mut agent = HtnAgent::default();
    let mut registry = GlobalHtnTaskRegistry::new();
    let one = Task::primitive("one", Context::new(), fact("goal", true));
    let two = Task::primitive("two", Context::new(), fact("goal", true));
    register_primitives(&mut registry, &one, 1);
    register_primitives(&mut registry, &two, 1);
    agent.add_task(one);
    agent.add_task(two);
    agent.add_goal(Goal::new("g", Requirements::from_world(&fact("goal", true)), 1));

    let plan = agent.create_plan(&Context::new(), &registry).unwrap();
    assert_eq!(plan.decompose_tasks(), vec!["two".to_string()]);
}

#[test]
fn oscillating_tasks_terminate_with_planning_failed() {
    // Two tasks that exactly undo each other and an unreachable goal: the
    // search must stop at its bounds and fail, not hang.
    let mut agent = HtnAgent::default();
    let mut registry = GlobalHtnTaskRegistry::new();
    let set_x = Task::primitive("set_x", Context::new(), fact("x", true));
    let clear_x = Task::primitive("clear_x", Context::new(), fact("x", false));
    register_primitives(&mut registry, &set_x, 1);
    register_primitives(&mut registry, &clear_x, 1);
    agent.add_task(set_x);
    agent.add_task(clear_x);
    agent.add_goal(Goal::new(
        "unreachable",
        Requirements::from_world(&fact("never", true)),
        1,
    ));

    let result = agent.create_plan(&Context::new(), &registry);
    assert_eq!(result.unwrap_err(), PlanError::PlanningFailed);
}

#[test]
fn wide_search_hits_the_iteration_ceiling() {
    // Six always-eligible tasks give a search space far beyond the global
    // iteration ceiling; with no goal in reach the soft abort is reported.
    let mut agent = HtnAgent::default();
    let mut registry = GlobalHtnTaskRegistry::new();
    for name in ["t0", "t1", "t2", "t3", "t4", "t5"] {
        let task = Task::primitive(name, Context::new(), fact(name, true));
        register_primitives(&mut registry, &task, 1);
        agent.add_task(task);
    }
    agent.add_goal(Goal::new(
        "unreachable",
        Requirements::from_world(&fact("never", true)),
        1,
    ));

    let result = agent.create_plan(&Context::new(), &registry);
    assert_eq!(result.unwrap_err(), PlanError::SearchBudgetExceeded);
}

#[test]
fn no_goal_fails_planning() {
    let agent = HtnAgent::default();
    let registry = GlobalHtnTaskRegistry::new();
    let result = agent.create_plan(&Context::new(), &registry);
    assert_eq!(result.unwrap_err(), PlanError::PlanningFailed);
}

#[test]
fn unregistered_tasks_are_unusable() {
    // An available task whose name is not registered is skipped, so the
    // goal stays out of reach even though the task would reach it.
    let mut agent = HtnAgent::default();
    let registry = GlobalHtnTaskRegistry::new();
    agent.add_task(Task::primitive("ghostly", Context::new(), fact("goal", true)));
    agent.add_goal(Goal::new("g", Requirements::from_world(&fact("goal", true)), 1));
    let result = agent.create_plan(&Context::new(), &registry);
    assert_eq!(result.unwrap_err(), PlanError::PlanningFailed);
}

#[test]
fn planning_for_an_explicit_goal() {
    // Hosts with their own goal selection hand the goal in directly.
    let mut agent = HtnAgent::default();
    let mut registry = GlobalHtnTaskRegistry::new();
    let task = Task::primitive("reach", Context::new(), fact("goal", true));
    register_primitives(&mut registry, &task, 1);
    agent.add_task(task);
    let goal = Goal::new("g", Requirements::from_world(&fact("goal", true)), 1);
    let plan = agent
        .create_plan_for_goal(&goal, &Context::new(), &registry)
        .unwrap();
    assert_eq!(plan.decompose_tasks(), vec!["reach".to_string()]);
}

#[test]
fn has_plan_reflects_the_current_plan() {
    let mut agent = HtnAgent::new();
    assert!(!agent.has_plan());
    agent.current_plan = Some(htnp::planning::Plan(vec![]));
    assert!(agent.has_plan());
}

#[test]
fn possible_tasks_filter_by_precondition() {
    let mut agent = HtnAgent::default();
    agent.add_task(Task::primitive("ready", fact("go", true), fact("done", true)));
    agent.add_task(Task::primitive("blocked", fact("go", false), fact("done", true)));
    let world = fact("go", true);
    let usable = agent.possible_tasks(&world);
    assert_eq!(usable.len(), 1);
    assert_eq!(usable[0].name(), "ready".to_string());
}
