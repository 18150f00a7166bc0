use htnp::data::{Context, Predicate};
use htnp::tasks::{GlobalHtnTaskRegistry, Task, TaskDefinition};

fn fact(key: &str, value: bool) -> Context {
    Context::new().add(key, Predicate::Bool(value))
}

fn named_primitive(name: &str) -> Task {
    Task::primitive(name, Context::new(), fact(name, true))
}

#[test]
fn decompose_flattens_depth_first() {
    // A nested composite flattens to the ordered concatenation of its leaf
    // primitives' names, depth-first and left to right.
    let inner = Task::macro_(vec![named_primitive("b"), named_primitive("c")]);
    let outer = Task::macro_(vec![
        named_primitive("a"),
        inner,
        Task::macro_(vec![Task::macro_(vec![named_primitive("d")])]),
    ]);
    let leaves = outer.decompose();
    let names: Vec<String> = leaves
        .iter()
        .map(|t| match t {
            Task::Primitive { name, .. } => name.clone(),
            Task::Macro(_) => panic!("decompose yielded a composite"),
        })
        .collect();
    assert_eq!(
        names,
        vec![
            "a".to_string(),
            "b".to_string(),
            "c".to_string(),
            "d".to_string()
        ]
    );
}

#[test]
fn primitive_decomposes_to_itself() {
    let t = named_primitive("solo");
    let leaves = t.decompose();
    assert_eq!(leaves.len(), 1);
    assert_eq!(leaves[0].name(), "solo".to_string());
}

#[test]
fn macro_postconditions_merge_forward() {
    // Later steps override earlier ones on collision.
    let first = Task::primitive("first", Context::new(), fact("shared", false));
    let second = Task::primitive(
        "second",
        Context::new(),
        Context::new()
            .add("shared", Predicate::Bool(true))
            .add("own", Predicate::Bool(true))
            .build(),
    );
    let combined = Task::macro_(vec![first, second]).postconditions();
    assert_eq!(combined.get("shared"), Predicate::Bool(true));
    assert_eq!(combined.get("own"), Predicate::Bool(true));
}

#[test]
fn macro_preconditions_merge_in_reverse() {
    // The reverse-order merge lets the first step's demand win, so the
    // combined precondition is what must hold before the macro begins.
    let first = Task::primitive("first", fact("shared", false), Context::new());
    let second = Task::primitive("second", fact("shared", true), Context::new());
    let combined = Task::macro_(vec![first, second]).preconditions();
    assert_eq!(combined.get("shared"), Predicate::Bool(false));
}

#[test]
fn task_names() {
    assert_eq!(named_primitive("x").name(), "x".to_string());
    assert_eq!(Task::macro_(vec![]).name(), "macro".to_string());
}

#[test]
fn registry_lookup_and_overwrite() {
    let mut registry = GlobalHtnTaskRegistry::new();
    assert!(registry.get_named("eat").is_none());
    registry.task("eat", Some(fact("hungry", true)), Some(fact("hungry", false)), 2);
    let def = registry.get_named("eat").unwrap();
    assert_eq!(def.cost, 2);
    assert_eq!(def.precon.get("hungry"), Predicate::Bool(true));
    // registration overwrites silently, last write wins
    registry.custom_task(
        "eat",
        TaskDefinition {
            precon: Context::new(),
            postcon: Context::new(),
            cost: 7,
        },
    );
    assert_eq!(registry.get_named("eat").unwrap().cost, 7);
}

#[test]
fn registry_get_from_resolves_primitives_only() {
    let mut registry = GlobalHtnTaskRegistry::new();
    registry.task("known", None, None, 1);
    let known = named_primitive("known");
    let unknown = named_primitive("unknown");
    let composite = Task::macro_(vec![]);

    let (name, def) = registry.get_from(&known).unwrap();
    assert_eq!(name, "known".to_string());
    assert_eq!(def.cost, 1);
    assert!(registry.get_from(&unknown).is_none());
    assert!(registry.get_from(&composite).is_none());
}

#[test]
fn task_cost_sums_over_leaves() {
    let mut registry = GlobalHtnTaskRegistry::new();
    registry.task("a", None, None, 2);
    registry.task("b", None, None, 3);
    let composite = Task::macro_(vec![named_primitive("a"), named_primitive("b")]);
    assert_eq!(registry.task_cost(&composite), Some(5));
    // a composite with an unregistered leaf has no usable cost
    let broken = Task::macro_(vec![named_primitive("a"), named_primitive("c")]);
    assert_eq!(registry.task_cost(&broken), None);
}

#[test]
fn plugin_configuration_carries_the_initial_world() {
    let plugin = htnp::HtnPlanningPlugin::new();
    assert!(plugin.initial_world.is_none());
    let seeded = htnp::HtnPlanningPlugin::with(fact("ready", true));
    assert_eq!(
        seeded.initial_world.unwrap().get("ready"),
        Predicate::Bool(true)
    );
    let debug_task = htnp::default_tasks::HtnTaskDebug::new("hello");
    assert_eq!(debug_task.0, "hello".to_string());
}
