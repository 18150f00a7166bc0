use htnp::data::{Context, Predicate, Requirement, Requirements};

#[test]
fn test_truth_equality() {
    let bool_true = Predicate::Bool(true);
    let bool_false = Predicate::Bool(false);
    let string_empty = Predicate::Text("".to_string());
    let string_test = Predicate::Text("test".to_string());
    let none = Predicate::Absent;

    // bools matrix
    assert_eq!(bool_true, Predicate::Bool(true));
    assert_eq!(bool_false, Predicate::Bool(false));

    assert_ne!(bool_true, bool_false);
    assert_ne!(bool_true, Predicate::Bool(false));
    assert_ne!(bool_false, Predicate::Bool(true));

    // strings matrix
    assert_eq!(string_empty, Predicate::Text("".to_string()));
    assert_eq!(string_test, Predicate::Text("test".to_string()));

    assert_ne!(string_empty, string_test);

    // nones
    assert_eq!(none, Predicate::Absent);

    // cross comparisons
    assert_ne!(bool_true, string_empty);
    assert_ne!(bool_true, string_test);
    assert_ne!(bool_true, none);

    assert_ne!(bool_false, string_empty);
    assert_ne!(bool_false, string_test);
    assert_ne!(bool_false, none);

    assert_ne!(string_empty, bool_true);
    assert_ne!(string_empty, bool_false);
    assert_ne!(string_empty, none);

    assert_ne!(string_test, bool_true);
    assert_ne!(string_test, bool_false);
    assert_ne!(string_test, none);
}

fn world_of(pairs: Vec<(&str, Predicate)>) -> Context {
    let owned: Vec<(String, Predicate)> =
        pairs.into_iter().map(|(k, v)| (k.to_string(), v)).collect();
    Context::from_pairs(owned)
}

#[test]
fn test_world_validation() {
    let truths_base = world_of(vec![
        ("safe", Predicate::Bool(true)),
        ("running", Predicate::Bool(false)),
        ("happy", Predicate::Bool(true)),
    ]);
    let truths_valid = world_of(vec![
        ("safe", Predicate::Bool(true)),
        ("happy", Predicate::Bool(true)),
    ]);
    let truths_invalid = world_of(vec![("running", Predicate::Bool(true))]);

    assert!(truths_base.validate(&truths_valid));
    assert!(!truths_base.validate(&truths_invalid));

    assert!(!truths_valid.validate(&truths_base));
    assert!(!truths_valid.validate(&truths_invalid));

    assert!(!truths_invalid.validate(&truths_base));
    assert!(!truths_invalid.validate(&truths_valid));

    let concatenated_set = world_of(vec![("running", Predicate::Bool(true))]);
    let super_set = truths_base.concat(&concatenated_set);
    assert!(!truths_base.validate(&truths_invalid)); // ensure that concating doesn't change base value
    assert!(super_set.validate(&truths_invalid)); // ensure new concatenation is valid for both
    assert!(super_set.validate(&truths_valid)); // ensure new concatenation is valid for both
}

#[test]
fn get_returns_absent_for_missing_key() {
    let w = Context::new().add("known", Predicate::Bool(true));
    assert_eq!(w.get("known"), Predicate::Bool(true));
    assert_eq!(w.get("unknown"), Predicate::Absent);
}

#[test]
fn insert_overwrites_and_returns_previous() {
    let mut w = Context::new();
    assert_eq!(w.insert("k", Predicate::Bool(true)), None);
    assert_eq!(
        w.insert("k", Predicate::Text("x".to_string())),
        Some(Predicate::Bool(true))
    );
    assert_eq!(w.get("k"), Predicate::Text("x".to_string()));
}

#[test]
fn duplicate_keys_keep_the_later_value() {
    let w = world_of(vec![
        ("k", Predicate::Bool(false)),
        ("k", Predicate::Bool(true)),
    ]);
    assert_eq!(w.get("k"), Predicate::Bool(true));
}

#[test]
fn concat_is_right_biased() {
    // A key present in the right operand reads the right operand's value;
    // any other key reads the left operand's value.
    let a = world_of(vec![
        ("both", Predicate::Bool(false)),
        ("only_a", Predicate::Num(1)),
    ]);
    let b = world_of(vec![
        ("both", Predicate::Bool(true)),
        ("only_b", Predicate::Num(2)),
    ]);
    let merged = a.concat(&b);
    assert_eq!(merged.get("both"), Predicate::Bool(true));
    assert_eq!(merged.get("only_a"), Predicate::Num(1));
    assert_eq!(merged.get("only_b"), Predicate::Num(2));
}

#[test]
fn validation_accepts_subsets_and_rejects_changed_values() {
    let w = world_of(vec![
        ("a", Predicate::Bool(true)),
        ("b", Predicate::Num(3)),
        ("c", Predicate::Text("x".to_string())),
    ]);
    // every subset of the world's own facts validates
    assert!(w.validate(&Context::new()));
    assert!(w.validate(&world_of(vec![("b", Predicate::Num(3))])));
    assert!(w.validate(&world_of(vec![
        ("a", Predicate::Bool(true)),
        ("c", Predicate::Text("x".to_string())),
    ])));
    // changing any entry's value breaks validation
    assert!(!w.validate(&world_of(vec![("b", Predicate::Num(4))])));
    assert!(!w.validate(&world_of(vec![("a", Predicate::Absent)])));
}

#[test]
fn requirements_validation() {
    // numeric facts are whole-valued in this model
    let req = Requirements::new()
        .req_equals("bool_eq", Predicate::Bool(true))
        .req_equals("str_eq", Predicate::Text("something".to_string()))
        .req_equals("num_eq", Predicate::Num(3))
        .req_has("any_key")
        .req_greater("num_grt", 0)
        .req_less("num_lst", 0)
        .build();

    let valid_world = Context::new()
        .add("bool_eq", Predicate::Bool(true))
        .add("str_eq", Predicate::Text("something".to_string()))
        .add("num_eq", Predicate::Num(3))
        .add("any_key", Predicate::Num(25))
        .add("num_grt", Predicate::Num(10))
        .add("num_lst", Predicate::Num(-12))
        .build();

    let invalid_world = Context::new()
        .add("bool_eq", Predicate::Bool(false))
        .add("str_eq", Predicate::Text("else".to_string()))
        .add("num_eq", Predicate::Num(4))
        .add("num_grt", Predicate::Num(-10))
        .add("num_lst", Predicate::Num(12))
        .build();

    assert!(req.validate(&valid_world));
    assert!(!req.validate(&Context::new()));
    assert!(!req.validate(&invalid_world));
}

#[test]
fn requirements_constraints_individually() {
    let world = Context::new()
        .add("n", Predicate::Num(5))
        .add("s", Predicate::Text("v".to_string()))
        .build();
    assert!(Requirements::new().req_has("n").validate(&world));
    assert!(!Requirements::new().req_has("missing").validate(&world));
    assert!(Requirements::new().req_greater("n", 4).validate(&world));
    assert!(!Requirements::new().req_greater("n", 5).validate(&world));
    assert!(!Requirements::new().req_greater("s", 0).validate(&world));
    assert!(Requirements::new().req_less("n", 6).validate(&world));
    assert!(!Requirements::new().req_less("n", 5).validate(&world));
    // a missing key fails every constraint except an equals-absent one
    assert!(!Requirements::new().req_greater("missing", 0).validate(&world));
    assert!(Requirements::new()
        .req_equals("missing", Predicate::Absent)
        .validate(&world));
    let _ = Requirement::Has; // constraint variants are public
}

#[test]
fn requirements_from_world_match_subset_validation() {
    let goal = Context::new()
        .add("x", Predicate::Bool(true))
        .add("n", Predicate::Num(2))
        .build();
    let req = Requirements::from_world(&goal);
    let reaches = Context::new()
        .add("x", Predicate::Bool(true))
        .add("n", Predicate::Num(2))
        .add("extra", Predicate::Bool(false))
        .build();
    let misses = Context::new().add("x", Predicate::Bool(true)).build();
    assert!(req.validate(&reaches));
    assert!(!req.validate(&misses));
}
