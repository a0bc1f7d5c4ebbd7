use std::rc::Rc;

use restructure::cond::{Condition, Condition_, Predicate};

fn base(i: u64) -> Condition {
    Rc::new(Condition_::Base(i))
}

fn not(c: Condition) -> Condition {
    Rc::new(Condition_::Not(c))
}

fn and(v: Vec<Condition>) -> Condition {
    Rc::new(Condition_::And(v))
}

fn or(v: Vec<Condition>) -> Condition {
    Rc::new(Condition_::Or(v))
}

fn tt() -> Condition {
    <Condition as Predicate>::true_value()
}

fn ff() -> Condition {
    <Condition as Predicate>::false_value()
}

fn eq(a: &Condition, b: &Condition) -> bool {
    format!("{:?}", a) == format!("{:?}", b)
}

#[test]
fn atoms_are_fixed_points() {
    let b = base(7);
    assert!(eq(&b.simplify(), &b));
    assert!(eq(&tt().simplify(), &tt()));
    assert!(eq(&ff().simplify(), &ff()));
    assert!(eq(&not(base(3)).simplify(), &not(base(3))));
}

#[test]
fn negated_constants_flip() {
    assert!(eq(&not(tt()).simplify(), &ff()));
    assert!(eq(&not(ff()).simplify(), &tt()));
}

#[test]
fn double_negation_unwraps() {
    let c = not(not(base(5)));
    assert!(eq(&c.simplify(), &base(5)));
}

#[test]
fn de_morgan_negated_conjunction() {
    let c = not(and(vec![base(1), base(2)]));
    let expected = or(vec![not(base(1)), not(base(2))]);
    assert!(eq(&c.simplify(), &expected));
}

#[test]
fn de_morgan_negated_disjunction() {
    let c = not(or(vec![base(1), base(2)]));
    // And of the negations, distributed: a single clause of two literals.
    let expected = and(vec![not(base(1)), not(base(2))]);
    assert!(eq(&c.simplify(), &expected));
}

#[test]
fn conjunction_distributes_over_disjunction() {
    let c = and(vec![base(1), or(vec![base(2), base(3)])]);
    let expected = or(vec![and(vec![base(1), base(2)]), and(vec![base(1), base(3)])]);
    assert!(eq(&c.simplify(), &expected));
}

#[test]
fn empty_conjunction_is_true() {
    assert!(eq(&and(vec![]).simplify(), &tt()));
}

#[test]
fn empty_disjunction_is_false() {
    assert!(eq(&or(vec![]).simplify(), &ff()));
}

#[test]
fn disjunction_with_true_collapses() {
    let c = or(vec![base(1), tt()]);
    assert!(eq(&c.simplify(), &tt()));
}

#[test]
fn singleton_disjunction_unwraps() {
    let c = or(vec![base(4)]);
    assert!(eq(&c.simplify(), &base(4)));
}

#[test]
fn nested_disjunction_flattens() {
    let c = or(vec![or(vec![base(1), base(2)]), base(3)]);
    let expected = or(vec![base(1), base(2), base(3)]);
    assert!(eq(&c.simplify(), &expected));
}

#[test]
fn simplify_is_idempotent_on_nested_condition() {
    let c = not(and(vec![or(vec![base(1), not(not(base(2)))]), not(or(vec![base(3), tt()]))]));
    let once = c.simplify();
    let twice = once.simplify();
    assert!(eq(&once, &twice));
}

#[test]
fn simplified_shape_has_no_negated_compound() {
    let c = not(and(vec![or(vec![base(1), base(2)]), base(3)]));
    let s = format!("{:?}", c.simplify());
    // No negation of a conjunction, disjunction or negation survives.
    assert!(!s.contains("Not(And"));
    assert!(!s.contains("Not(Or"));
    assert!(!s.contains("Not(Not"));
}

#[test]
fn is_true_only_on_the_true_literal() {
    assert!(tt().is_true());
    assert!(!ff().is_true());
    assert!(!base(1).is_true());
    assert!(!or(vec![tt()]).is_true());
}
