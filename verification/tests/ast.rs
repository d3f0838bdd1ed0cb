use proof_checker::ast::{ContextPrinter, Formula, Proof};

fn var(name: &str) -> Formula {
    Formula::Var(name.to_string())
}

fn and(a: Formula, b: Formula) -> Formula {
    Formula::And(Box::new(a), Box::new(b))
}

fn or(a: Formula, b: Formula) -> Formula {
    Formula::Or(Box::new(a), Box::new(b))
}

fn imp(a: Formula, b: Formula) -> Formula {
    Formula::Imp(Box::new(a), Box::new(b))
}

fn leaf(name: &str) -> Proof {
    Proof { name: name.to_string(), args: vec![], children: vec![] }
}

#[test]
fn formula_is_written_with_parentheses() {
    let f = and(var("a"), or(var("b"), imp(Formula::Top, Formula::Bot)));
    assert_eq!(f.to_string(), "(a . (b | (Top -> Bot)))");
}

#[test]
fn negation_is_written_as_its_operand() {
    let f = Formula::Not(Box::new(and(var("p"), var("q"))));
    assert_eq!(f.to_string(), "(p . q)");
}

#[test]
fn vars_lists_each_variable_once() {
    let f = and(var("p"), or(var("q"), imp(var("p"), Formula::Top)));
    let vs = f.vars();
    assert_eq!(vs, vec!["p".to_string(), "q".to_string()]);
}

#[test]
fn vars_of_constant_is_empty() {
    assert!(Formula::Bot.vars().is_empty());
}

#[test]
fn same_is_structural_equality() {
    assert!(and(var("p"), var("q")).same(&and(var("p"), var("q"))));
    assert!(!and(var("p"), var("q")).same(&and(var("q"), var("p"))));
    assert!(!and(var("p"), var("q")).same(&or(var("p"), var("q"))));
}

#[test]
fn clone_is_equal() {
    let f = imp(var("x"), Formula::Not(Box::new(var("y"))));
    assert_eq!(f.clone(), f);
}

#[test]
fn proof_is_written_as_indented_tree() {
    let proof = Proof {
        name: "AndIntro".to_string(),
        args: vec![],
        children: vec![
            Proof { name: "AndElimRight".to_string(), args: vec![var("q")], children: vec![leaf("Ax")] },
            Proof { name: "OrElim".to_string(), args: vec![var("p"), and(var("a"), var("b"))], children: vec![leaf("Ax")] },
        ],
    };
    assert_eq!(
        proof.to_string(),
        "AndIntro:\n  AndElimRight(q):\n    Ax\n  OrElim(p, (a . b)):\n    Ax\n"
    );
}

#[test]
fn leaf_proof_with_arguments_is_one_line() {
    let proof = Proof { name: "Lem".to_string(), args: vec![var("a")], children: vec![] };
    assert_eq!(proof.to_string(), "Lem(a)\n");
}

#[test]
fn context_is_written_comma_separated() {
    let ctx = vec![var("p"), and(var("p"), var("q"))];
    assert_eq!(ContextPrinter(&ctx).to_string(), "p, (p . q)");
    let empty: Vec<Formula> = vec![];
    assert_eq!(ContextPrinter(&empty).to_string(), "");
}
