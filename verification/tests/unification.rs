use proof_checker::ast::Formula;
use proof_checker::checker::CheckingError;
use proof_checker::unification::{
    add_substitution_variables, assert_complete_substitution, starts_with_dollar, subst, subst_many, unify,
};

fn var(name: &str) -> Formula {
    Formula::Var(name.to_string())
}

fn and(a: Formula, b: Formula) -> Formula {
    Formula::And(Box::new(a), Box::new(b))
}

fn or(a: Formula, b: Formula) -> Formula {
    Formula::Or(Box::new(a), Box::new(b))
}

fn imp(a: Formula, b: Formula) -> Formula {
    Formula::Imp(Box::new(a), Box::new(b))
}

fn not(a: Formula) -> Formula {
    Formula::Not(Box::new(a))
}

#[test]
fn marks_every_variable_but_the_listed_ones() {
    let mut f = imp(var("p"), and(var("q"), not(var("p"))));
    add_substitution_variables(&mut f, &vec!["p".to_string()]);
    assert_eq!(f, imp(var("p"), and(var("$q"), not(var("p")))));
}

#[test]
fn marking_leaves_constants() {
    let mut f = or(Formula::Top, Formula::Bot);
    add_substitution_variables(&mut f, &vec![]);
    assert_eq!(f, or(Formula::Top, Formula::Bot));
}

#[test]
fn complete_substitution_reports_first_inference_variable() {
    assert_eq!(assert_complete_substitution(&imp(var("p"), var("q"))), Ok(()));
    assert_eq!(assert_complete_substitution(&imp(var("p"), and(var("$q"), var("$r")))), Err("$q".to_string()));
    assert_eq!(assert_complete_substitution(&not(var("$x"))), Err("$x".to_string()));
}

#[test]
fn marking_then_checking_fails_exactly_on_unlisted_variables() {
    let mut f = and(var("p"), var("q"));
    add_substitution_variables(&mut f, &vec!["p".to_string(), "q".to_string()]);
    assert_eq!(assert_complete_substitution(&f), Ok(()));
    let mut g = and(var("p"), var("q"));
    add_substitution_variables(&mut g, &vec!["p".to_string()]);
    assert_eq!(assert_complete_substitution(&g), Err("$q".to_string()));
}

#[test]
fn dollar_prefix() {
    assert!(starts_with_dollar(&"$p".to_string()));
    assert!(!starts_with_dollar(&"p".to_string()));
    assert!(!starts_with_dollar(&"".to_string()));
}

#[test]
fn subst_replaces_every_occurrence() {
    let mut f = and(var("p"), not(var("p")));
    subst(&mut f, "p", &and(var("q"), var("r")));
    assert_eq!(f, and(and(var("q"), var("r")), not(and(var("q"), var("r")))));
}

#[test]
fn subst_of_absent_variable_changes_nothing() {
    let mut f = or(var("a"), Formula::Top);
    subst(&mut f, "p", &var("q"));
    assert_eq!(f, or(var("a"), Formula::Top));
}

#[test]
fn subst_many_is_simultaneous() {
    let mut f = and(var("p"), var("q"));
    subst_many(&mut f, &vec![("p".to_string(), var("q")), ("q".to_string(), var("p"))]);
    assert_eq!(f, and(var("q"), var("p")));
}

#[test]
fn subst_many_later_binding_wins() {
    let mut f = var("p");
    subst_many(&mut f, &vec![("p".to_string(), var("q")), ("p".to_string(), var("r"))]);
    assert_eq!(f, var("r"));
}

#[test]
fn subst_many_with_one_binding_is_subst() {
    let mut f = imp(var("p"), or(var("p"), var("s")));
    let mut g = imp(var("p"), or(var("p"), var("s")));
    subst_many(&mut f, &vec![("p".to_string(), not(var("t")))]);
    subst(&mut g, "p", &not(var("t")));
    assert_eq!(f, g);
}

#[test]
fn unify_infers_hypotheses_from_conclusion() {
    let goal = and(var("a"), imp(var("b"), var("c")));
    let mut hyps = vec![var("$q"), and(var("$p"), var("$q"))];
    let mut concl = and(var("$p"), var("$q"));
    assert!(unify(&goal, &mut hyps, &mut concl).is_ok());
    assert_eq!(concl, goal);
    assert_eq!(hyps, vec![imp(var("b"), var("c")), and(var("a"), imp(var("b"), var("c")))]);
}

#[test]
fn unify_keeps_fixed_variables() {
    let goal = imp(var("x"), var("y"));
    let mut hyps = vec![var("x")];
    let mut concl = imp(var("x"), var("$p"));
    assert!(unify(&goal, &mut hyps, &mut concl).is_ok());
    assert_eq!(concl, goal);
    assert_eq!(hyps, vec![var("x")]);
}

#[test]
fn unify_fails_on_different_connectives() {
    let goal = or(var("a"), var("b"));
    let mut hyps = vec![];
    let mut concl = and(var("$p"), var("$q"));
    assert!(matches!(unify(&goal, &mut hyps, &mut concl), Err(CheckingError::UnificationError)));
}

#[test]
fn unify_fails_on_different_fixed_variables() {
    let goal = var("a");
    let mut hyps = vec![];
    let mut concl = var("b");
    assert!(matches!(unify(&goal, &mut hyps, &mut concl), Err(CheckingError::UnificationError)));
}

#[test]
fn unify_fails_on_inconsistent_bindings() {
    let goal = and(var("a"), var("b"));
    let mut hyps = vec![];
    let mut concl = and(var("$p"), var("$p"));
    assert!(matches!(unify(&goal, &mut hyps, &mut concl), Err(CheckingError::UnificationError)));
}

#[test]
fn unify_fails_when_a_hypothesis_cannot_be_inferred() {
    let goal = var("a");
    let mut hyps = vec![and(var("$p"), var("$r"))];
    let mut concl = var("$p");
    assert!(matches!(unify(&goal, &mut hyps, &mut concl), Err(CheckingError::UnificationError)));
    assert_eq!(hyps.len(), 1);
}

#[test]
fn variables_after_subst() {
    let mut f = and(var("p"), imp(var("q"), var("p")));
    subst(&mut f, "p", &or(var("r"), var("q")));
    let mut vs = f.vars();
    vs.sort();
    assert_eq!(vs, vec!["q".to_string(), "r".to_string()]);
}

#[test]
fn variables_after_marking() {
    let mut f = and(var("p"), imp(var("q"), var("p")));
    add_substitution_variables(&mut f, &vec!["q".to_string()]);
    let mut vs = f.vars();
    vs.sort();
    assert_eq!(vs, vec!["$p".to_string(), "q".to_string()]);
}
