use std::cmp::Ordering;
use gps::condition::{Compare, CompareOperator, ConditionImpl, ConditionSet, Contain, NotContain};
use gps::operation::{Modification, Operation, OperationBuilder};
use gps::solver::GeneralProblemSolver;
use gps::state::{State, StateData, StateSet};

type Modifier = Box<dyn Fn(StateData) -> StateData>;

fn adder(amount: i32) -> Modifier {
    Box::new(move |data| match data {
        StateData::Symbol => StateData::Integer(0),
        StateData::Integer(x) => StateData::Integer(x + amount),
    })
}

fn test_operations() -> Vec<Operation<Modifier>> {
    vec![
        OperationBuilder::new("drive-son-to-school".to_owned())
            .insert_prerequisite(Contain::new("son-at-home".to_owned()).into())
            .insert_prerequisite(Contain::new("car-works".to_owned()).into())
            .insert_add_state(State::new_symbol("son-at-school".to_owned()))
            .insert_remove_state("son-at-home".to_owned())
            .build(),
        OperationBuilder::new("shop-installs-battery".to_owned())
            .insert_prerequisite(Contain::new("car-needs-battery".to_owned()).into())
            .insert_prerequisite(Contain::new("shop-knows-problem".to_owned()).into())
            .insert_prerequisite(Contain::new("shop-has-money".to_owned()).into())
            .insert_add_state(State::new_symbol("car-works".to_owned()))
            .build(),
        OperationBuilder::new("tell-shop-problem".to_owned())
            .insert_prerequisite(Contain::new("in-communication-with-shop".to_owned()).into())
            .insert_add_state(State::new_symbol("shop-knows-problem".to_owned()))
            .build(),
        OperationBuilder::new("telephone-shop".to_owned())
            .insert_prerequisite(Contain::new("know-phone-number".to_owned()).into())
            .insert_add_state(State::new_symbol("in-communication-with-shop".to_owned()))
            .build(),
        OperationBuilder::new("look-up-number".to_owned())
            .insert_prerequisite(Contain::new("have-phone-book".to_owned()).into())
            .insert_add_state(State::new_symbol("know-phone-number".to_owned()))
            .build(),
        OperationBuilder::new("give-shop-money".to_owned())
            .insert_prerequisite(Contain::new("have-money".to_owned()).into())
            .insert_add_state(State::new_symbol("shop-has-money".to_owned()))
            .insert_remove_state("have-money".to_owned())
            .build(),
    ]
}

fn symbols(names: &[&str]) -> StateSet {
    let mut states = StateSet::new();
    for name in names {
        states.insert(State::new_symbol(name.to_string()));
    }
    states
}

fn plan_names(plan: &[&Operation<Modifier>]) -> Vec<String> {
    plan.iter().map(|o| o.name().to_owned()).collect()
}

fn counter_operations() -> Vec<Operation<Modifier>> {
    vec![
        OperationBuilder::new("add-10".to_owned())
            .insert_modify_state(Modification::new("value".to_owned(), adder(10)))
            .build(),
        OperationBuilder::new("add-50".to_owned())
            .insert_modify_state(Modification::new("value".to_owned(), adder(50)))
            .build(),
    ]
}

fn less_than_20() -> ConditionImpl {
    Compare::new(
        "less-than-20".to_owned(),
        "value".to_owned(),
        CompareOperator::Less,
        StateData::Integer(20),
    )
    .into()
}

#[test]
fn it_should_return_valid_operations_that_add_the_state() {
    let mut gps: GeneralProblemSolver<Modifier> = GeneralProblemSolver::new();
    let goal: ConditionImpl = Contain::new("state".to_owned()).into();

    gps.set_operations(vec![
        OperationBuilder::new("add-state".to_owned())
            .insert_add_state(State::new_symbol("state".to_owned()))
            .build(),
        OperationBuilder::new("add-state-with-prerequisite".to_owned())
            .insert_prerequisite(Contain::new("prerequisite".to_owned()).into())
            .insert_add_state(State::new_symbol("state".to_owned()))
            .build(),
        OperationBuilder::new("add-another-state".to_owned())
            .insert_add_state(State::new_symbol("another-state".to_owned()))
            .build(),
    ]);

    let operations = gps.find_valid_operations(&goal, &StateSet::new(), &mut ConditionSet::new());
    assert!(operations
        .iter()
        .find(|operation| operation.name() == "add-state")
        .is_some());
    assert!(operations
        .iter()
        .find(|operation| operation.name() == "add-state-with-prerequisite")
        .is_some());
    assert!(operations
        .iter()
        .find(|operation| operation.name() == "add-another-state")
        .is_none());
}

#[test]
fn it_should_return_the_valid_operations_that_satisify_the_conditions() {
    let mut gps: GeneralProblemSolver<Modifier> = GeneralProblemSolver::new();
    gps.set_operations(counter_operations());

    let goal = less_than_20();
    let current_states = {
        let mut state_set = StateSet::new();
        state_set.insert(State::new_integer("value".to_owned(), 0));
        state_set
    };

    let mut condition_set = ConditionSet::new();
    condition_set.insert("value", goal.clone());

    let operations = gps.find_valid_operations(&goal, &current_states, &condition_set);
    assert_eq!(operations.first().unwrap().name(), "add-10");
    assert_eq!(operations.len(), 1);
}

#[test]
fn it_should_achieve_the_goal() {
    let mut gps: GeneralProblemSolver<Modifier> = GeneralProblemSolver::new();
    gps.set_operations(test_operations())
        .set_goals(vec![Contain::new("son-at-school".to_owned()).into()])
        .set_states(symbols(&[
            "son-at-home",
            "car-needs-battery",
            "have-money",
            "have-phone-book",
        ]));

    match gps.solve() {
        Some(operations) => {
            let mut iter = operations.iter();
            assert_eq!(iter.next().unwrap().name(), "look-up-number");
            assert_eq!(iter.next().unwrap().name(), "telephone-shop");
            assert_eq!(iter.next().unwrap().name(), "tell-shop-problem");
            assert_eq!(iter.next().unwrap().name(), "give-shop-money");
            assert_eq!(iter.next().unwrap().name(), "shop-installs-battery");
            assert_eq!(iter.next().unwrap().name(), "drive-son-to-school");
            assert!(iter.next().is_none());
        }
        None => unreachable!(),
    }
}

#[test]
fn is_should_return_none_when_solving_recursive_subgoals() {
    let mut gps: GeneralProblemSolver<Modifier> = GeneralProblemSolver::new();
    gps.set_operations({
        let mut operations = test_operations();
        operations.push(
            OperationBuilder::new("ask-phone-number".to_owned())
                .insert_prerequisite(Contain::new("in-communication-with-shop".to_owned()).into())
                .insert_add_state(State::new_symbol("know-phone-number".to_owned()))
                .build(),
        );
        operations
    })
    .set_goals(vec![Contain::new("son-at-school".to_owned()).into()])
    .set_states(symbols(&["son-at-home", "car-needs-battery", "have-money"]));

    let res = gps.solve();
    assert!(res.is_none());
}

#[test]
fn it_should_try_another_operation_to_solve_goals_after_first_operation_failed() {
    let mut gps: GeneralProblemSolver<Modifier> = GeneralProblemSolver::new();
    gps.set_operations({
        let mut operations = test_operations();
        operations.push(
            OperationBuilder::new("taxi-son-to-school".to_owned())
                .insert_prerequisite(Contain::new("son-at-home".to_owned()).into())
                .insert_prerequisite(Contain::new("have-money".to_owned()).into())
                .insert_add_state(State::new_symbol("son-at-school".to_owned()))
                .insert_remove_state("son-at-home".to_owned())
                .insert_remove_state("have-money".to_owned())
                .build(),
        );
        operations
    })
    .set_goals(vec![
        Contain::new("son-at-school".to_owned()).into(),
        Contain::new("have-money".to_owned()).into(),
    ])
    .set_states(symbols(&["son-at-home", "have-money", "car-works"]));

    match gps.solve() {
        Some(operations) => {
            let mut iter = operations.iter();
            assert_eq!(iter.next().unwrap().name(), "drive-son-to-school");
            assert!(iter.next().is_none());
        }
        None => unreachable!(),
    }
}

#[test]
fn already_satisfied_goals_give_an_empty_plan() {
    let mut gps: GeneralProblemSolver<Modifier> = GeneralProblemSolver::new();
    gps.set_operations(test_operations())
        .set_goals(vec![
            Contain::new("son-at-home".to_owned()).into(),
            NotContain::new("son-at-school".to_owned()).into(),
        ])
        .set_states(symbols(&["son-at-home"]));
    let plan = gps.solve().unwrap();
    assert!(plan.is_empty());
}

#[test]
fn no_goals_give_an_empty_plan() {
    let gps: GeneralProblemSolver<Modifier> = GeneralProblemSolver::new();
    assert!(gps.solve().unwrap().is_empty());
}

#[test]
fn a_goal_that_needs_itself_fails() {
    let mut gps: GeneralProblemSolver<Modifier> = GeneralProblemSolver::new();
    gps.set_operations(vec![
        OperationBuilder::new("chicken".to_owned())
            .insert_prerequisite(Contain::new("egg".to_owned()).into())
            .insert_add_state(State::new_symbol("chicken".to_owned()))
            .build(),
        OperationBuilder::new("egg".to_owned())
            .insert_prerequisite(Contain::new("chicken".to_owned()).into())
            .insert_add_state(State::new_symbol("egg".to_owned()))
            .build(),
    ])
    .set_goals(vec![Contain::new("chicken".to_owned()).into()])
    .set_states(StateSet::new());
    assert!(gps.solve().is_none());
}

#[test]
fn unprotected_candidates_come_in_registration_order() {
    let mut gps: GeneralProblemSolver<Modifier> = GeneralProblemSolver::new();
    gps.set_operations(counter_operations());
    let goal = less_than_20();
    let mut current_states = StateSet::new();
    current_states.insert(State::new_integer("value".to_owned(), 0));

    let operations = gps.find_valid_operations(&goal, &current_states, &ConditionSet::new());
    let names: Vec<&str> = operations.iter().map(|o| o.name()).collect();
    assert_eq!(names, vec!["add-10", "add-50"]);
}

#[test]
fn the_first_candidate_is_committed_to() {
    let mut gps: GeneralProblemSolver<Modifier> = GeneralProblemSolver::new();
    let mut states = StateSet::new();
    states.insert(State::new_integer("value".to_owned(), 0));
    gps.set_operations(counter_operations())
        .set_goals(vec![Compare::new(
            "at-least-5".to_owned(),
            "value".to_owned(),
            CompareOperator::GreaterEqual,
            StateData::Integer(5),
        )
        .into()])
        .set_states(states);
    let plan = gps.solve().unwrap();
    assert_eq!(plan_names(&plan), vec!["add-10".to_owned()]);
}

#[test]
fn a_failed_final_check_is_failure() {
    // The first candidate takes 25 to 35; the final check then fails.
    let mut gps: GeneralProblemSolver<Modifier> = GeneralProblemSolver::new();
    let mut states = StateSet::new();
    states.insert(State::new_integer("value".to_owned(), 25));
    gps.set_operations(counter_operations())
        .set_goals(vec![less_than_20()])
        .set_states(states);
    assert!(gps.solve().is_none());
}

#[test]
fn value_equality_and_order() {
    assert_eq!(StateData::Symbol, StateData::Symbol);
    assert_eq!(StateData::Integer(3), StateData::Integer(3));
    assert_ne!(StateData::Integer(3), StateData::Integer(4));
    assert_ne!(StateData::Symbol, StateData::Integer(0));
    assert_eq!(StateData::Symbol.partial_cmp(&StateData::Integer(0)), None);
    assert_eq!(StateData::Integer(0).partial_cmp(&StateData::Symbol), None);
    assert_eq!(StateData::Symbol.partial_cmp(&StateData::Symbol), Some(Ordering::Equal));
    assert_eq!(StateData::Integer(-2).partial_cmp(&StateData::Integer(7)), Some(Ordering::Less));
    assert_eq!(StateData::Integer(7).partial_cmp(&StateData::Integer(-2)), Some(Ordering::Greater));
}

#[test]
fn candidates_that_undo_a_protected_goal_are_excluded() {
    let mut gps: GeneralProblemSolver<Modifier> = GeneralProblemSolver::new();
    let mut operations = test_operations();
    operations.push(
        OperationBuilder::new("taxi-son-to-school".to_owned())
            .insert_prerequisite(Contain::new("son-at-home".to_owned()).into())
            .insert_prerequisite(Contain::new("have-money".to_owned()).into())
            .insert_add_state(State::new_symbol("son-at-school".to_owned()))
            .insert_remove_state("son-at-home".to_owned())
            .insert_remove_state("have-money".to_owned())
            .build(),
    );
    gps.set_operations(operations);
    let goal: ConditionImpl = Contain::new("son-at-school".to_owned()).into();
    let states = symbols(&["son-at-home", "have-money", "car-works"]);
    let mut protected = ConditionSet::new();
    protected.insert("have-money", Contain::new("have-money".to_owned()).into());

    let names: Vec<&str> = gps
        .find_valid_operations(&goal, &states, &protected)
        .iter()
        .map(|o| o.name())
        .collect();
    assert_eq!(names, vec!["drive-son-to-school"]);

    let unprotected: Vec<&str> = gps
        .find_valid_operations(&goal, &states, &ConditionSet::new())
        .iter()
        .map(|o| o.name())
        .collect();
    assert_eq!(unprotected, vec!["drive-son-to-school", "taxi-son-to-school"]);
}
