use gps::condition::{Compare, CompareOperator, Condition, ConditionImpl, ConditionSet, Contain, NotContain};
use gps::operation::{Modification, OperationBuilder};
use gps::state::{State, StateData, StateSet};

type Modifier = Box<dyn Fn(StateData) -> StateData>;

fn compare(op: CompareOperator, value: StateData) -> ConditionImpl {
    Compare::new("id".to_owned(), "x".to_owned(), op, value).into()
}

fn world(x: StateData) -> StateSet {
    let mut s = StateSet::new();
    s.insert(State::new("x".to_owned(), x));
    s
}

#[test]
fn state_set_insert_overwrites_and_reports_newness() {
    let mut s = StateSet::new();
    assert!(s.insert(State::new_integer("a".to_owned(), 1)));
    assert!(!s.insert(State::new_integer("a".to_owned(), 2)));
    assert_eq!(s.get("a"), Some(&StateData::Integer(2)));
    assert!(s.contains(&State::new_integer("a".to_owned(), 2)));
    assert!(!s.contains(&State::new_integer("a".to_owned(), 1)));
    assert!(!s.contains(&State::new_symbol("b".to_owned())));
}

#[test]
fn state_set_remove_reports_prior_value() {
    let mut s = StateSet::new();
    s.insert(State::new_symbol("a".to_owned()));
    s.insert(State::new_integer("b".to_owned(), 4));
    assert_eq!(s.remove("b"), Some(StateData::Integer(4)));
    assert_eq!(s.remove("b"), None);
    assert_eq!(s.get("b"), None);
    assert_eq!(s.get("a"), Some(&StateData::Symbol));
}

#[test]
fn state_accessors() {
    let mut st = State::new_integer("n".to_owned(), 5);
    assert_eq!(st.name(), "n");
    assert_eq!(*st.data(), StateData::Integer(5));
    *st.data_mut() = StateData::Symbol;
    assert_eq!(st.into_inner(), ("n".to_owned(), StateData::Symbol));
}

#[test]
fn presence_and_absence_goals() {
    let s = world(StateData::Integer(1));
    let c: ConditionImpl = Contain::new("x".to_owned()).into();
    let n: ConditionImpl = NotContain::new("x".to_owned()).into();
    assert!(c.check(&s));
    assert!(!n.check(&s));
    assert!(!c.check(&StateSet::new()));
    assert!(n.check(&StateSet::new()));
    assert!(s.has_reached(&vec![c.clone()]));
    assert!(!s.has_reached(&vec![c, n]));
}

#[test]
fn comparison_goals_follow_the_operator() {
    let s = world(StateData::Integer(10));
    let ten = StateData::Integer(10);
    let nine = StateData::Integer(9);
    assert!(compare(CompareOperator::Equal, ten.clone()).check(&s));
    assert!(!compare(CompareOperator::NotEqual, ten.clone()).check(&s));
    assert!(compare(CompareOperator::Greater, nine.clone()).check(&s));
    assert!(!compare(CompareOperator::Greater, ten.clone()).check(&s));
    assert!(compare(CompareOperator::GreaterEqual, ten.clone()).check(&s));
    assert!(!compare(CompareOperator::Less, ten.clone()).check(&s));
    assert!(compare(CompareOperator::LessEqual, ten.clone()).check(&s));
    assert!(!compare(CompareOperator::LessEqual, nine).check(&s));
    assert!(!compare(CompareOperator::Equal, ten).check(&StateSet::new()));
}

#[test]
fn comparison_across_variants_is_unordered() {
    let s = world(StateData::Symbol);
    assert!(!compare(CompareOperator::Less, StateData::Integer(0)).check(&s));
    assert!(!compare(CompareOperator::GreaterEqual, StateData::Integer(0)).check(&s));
    assert!(!compare(CompareOperator::Equal, StateData::Integer(0)).check(&s));
    assert!(compare(CompareOperator::NotEqual, StateData::Integer(0)).check(&s));
    assert!(compare(CompareOperator::LessEqual, StateData::Symbol).check(&s));
}

#[test]
fn condition_names_and_keys() {
    let c: ConditionImpl = Compare::new(
        "small".to_owned(),
        "value".to_owned(),
        CompareOperator::Less,
        StateData::Integer(3),
    )
    .into();
    assert_eq!(c.name(), "small");
    assert_eq!(c.state_name(), "value");
    assert!(c.check_data(&StateData::Integer(2)));
    assert!(!c.check_data(&StateData::Integer(3)));
    let n: ConditionImpl = NotContain::new("gone".to_owned()).into();
    assert_eq!(n.state_name(), "gone");
    assert!(!n.check_data(&StateData::Symbol));
}

#[test]
fn operator_tokens() {
    assert_eq!(CompareOperator::try_from("=="), Ok(CompareOperator::Equal));
    assert_eq!(CompareOperator::try_from("!="), Ok(CompareOperator::NotEqual));
    assert_eq!(CompareOperator::try_from(">"), Ok(CompareOperator::Greater));
    assert_eq!(CompareOperator::try_from(">="), Ok(CompareOperator::GreaterEqual));
    assert_eq!(CompareOperator::try_from("<"), Ok(CompareOperator::Less));
    assert_eq!(CompareOperator::try_from("<="), Ok(CompareOperator::LessEqual));
    assert_eq!(CompareOperator::try_from("=>"), Err(()));
    assert_eq!(CompareOperator::try_from(""), Err(()));
}

#[test]
fn condition_set_groups_and_filters() {
    let mut set = ConditionSet::new();
    assert!(set.get("a").is_none());
    let a: ConditionImpl = Contain::new("a".to_owned()).into();
    let not_a: ConditionImpl = NotContain::new("a".to_owned()).into();
    set.insert("a", a.clone());
    set.insert("a", not_a.clone());
    set.insert("a", a.clone());
    assert_eq!(set.get("a").unwrap().len(), 3);
    set.remove("a", &a);
    let left = set.get("a").unwrap();
    assert_eq!(left.len(), 1);
    assert!(left[0] == not_a);
    set.remove("b", &a);
    assert!(set.get("b").is_none());
}

#[test]
fn apply_adds_then_removes_then_modifies() {
    let double: Modifier = Box::new(|d| match d {
        StateData::Integer(x) => StateData::Integer(2 * x),
        other => other,
    });
    let untouched: Modifier = Box::new(|_| StateData::Integer(99));
    let op = OperationBuilder::new("op".to_owned())
        .insert_add_state(State::new_integer("n".to_owned(), 4))
        .insert_add_state(State::new_symbol("t".to_owned()))
        .insert_remove_state("t".to_owned())
        .insert_modify_state(Modification::new("n".to_owned(), double))
        .insert_modify_state(Modification::new("missing".to_owned(), untouched))
        .build();
    let mut s = StateSet::new();
    s.insert(State::new_integer("n".to_owned(), 1));
    op.apply(&mut s);
    assert_eq!(s.get("n"), Some(&StateData::Integer(8)));
    assert_eq!(s.get("t"), None);
    assert_eq!(s.get("missing"), None);
    assert_eq!(op.name(), "op");
    assert_eq!(op.add_states().len(), 2);
    assert_eq!(op.remove_states().len(), 1);
    assert_eq!(op.modification_states()[0].target_name(), "n");
    assert!(op.prerequisites().is_empty());
}

#[test]
fn interference_with_protected_goals() {
    let adds_x = OperationBuilder::<Modifier>::new("adds".to_owned())
        .insert_add_state(State::new_symbol("x".to_owned()))
        .build();
    let removes_x = OperationBuilder::<Modifier>::new("removes".to_owned())
        .insert_remove_state("x".to_owned())
        .build();
    let s = world(StateData::Integer(1));

    let mut absent = ConditionSet::new();
    absent.insert("x", NotContain::new("x".to_owned()).into());
    assert!(adds_x.has_affect(&s, &absent));
    assert!(!removes_x.has_affect(&s, &absent));

    let mut present = ConditionSet::new();
    present.insert("x", Contain::new("x".to_owned()).into());
    assert!(!adds_x.has_affect(&s, &present));
    assert!(removes_x.has_affect(&s, &present));

    let mut compared = ConditionSet::new();
    compared.insert("x", compare(CompareOperator::Less, StateData::Integer(5)));
    assert!(removes_x.has_affect(&s, &compared));
    let big: Modifier = Box::new(|_| StateData::Integer(7));
    let small: Modifier = Box::new(|_| StateData::Integer(3));
    let to_big = OperationBuilder::new("big".to_owned())
        .insert_modify_state(Modification::new("x".to_owned(), big))
        .build();
    let to_small = OperationBuilder::new("small".to_owned())
        .insert_modify_state(Modification::new("x".to_owned(), small))
        .build();
    assert!(to_big.has_affect(&s, &compared));
    assert!(!to_small.has_affect(&s, &compared));
    assert!(!to_big.has_affect(&StateSet::new(), &compared));
}

#[test]
fn get_mut_writes_through() {
    let mut s = StateSet::new();
    s.insert(State::new_integer("n".to_owned(), 1));
    *s.get_mut("n").unwrap() = StateData::Integer(9);
    assert_eq!(s.get("n"), Some(&StateData::Integer(9)));
    assert!(s.get_mut("m").is_none());
    assert_eq!(s.get("m"), None);
}

#[test]
fn modification_ignores_absence_protections() {
    let set_seven: Modifier = Box::new(|_| StateData::Integer(7));
    let op = OperationBuilder::new("set".to_owned())
        .insert_modify_state(Modification::new("x".to_owned(), set_seven))
        .build();
    let s = world(StateData::Integer(1));
    let mut absent = ConditionSet::new();
    absent.insert("x", NotContain::new("x".to_owned()).into());
    assert!(!op.has_affect(&s, &absent));
}
