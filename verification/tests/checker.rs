use proof_checker::ast::{Formula, Program, Proof, Statement};
use proof_checker::checker::{Checker, CheckingError, ProgramOutcome};
use proof_checker::lexer::Lexer;
use proof_checker::parser::Parser;

fn parse(source: &str) -> Program {
    assert!(Lexer::source_fits(source));
    let tokens = Lexer::new(source).try_lex().unwrap().unwrap();
    Parser::new(tokens).parse().unwrap()
}

fn var(name: &str) -> Formula {
    Formula::Var(name.to_string())
}

fn and(a: Formula, b: Formula) -> Formula {
    Formula::And(Box::new(a), Box::new(b))
}

fn imp(a: Formula, b: Formula) -> Formula {
    Formula::Imp(Box::new(a), Box::new(b))
}

fn leaf(name: &str) -> Proof {
    Proof { name: name.to_string(), args: vec![], children: vec![] }
}

fn rule(name: &str, args: Vec<Formula>, children: Vec<Proof>) -> Proof {
    Proof { name: name.to_string(), args, children }
}

fn stmt(name: &str, args: &[(&str, bool)], context: Vec<Formula>, prop: Formula, proof: Proof) -> Statement {
    Statement {
        name: name.to_string(),
        args: args.iter().map(|(n, i)| (n.to_string(), *i)).collect(),
        context,
        prop,
        proof,
    }
}

/// Checks every statement in order and gives each verdict.
fn check_all(source: &str) -> Vec<Result<(), CheckingError>> {
    let mut checker = Checker::new();
    parse(source).into_iter().map(|s| checker.try_check(s).unwrap()).collect()
}

const AND_COMM: &str = "Prop AndComm(infer p, infer q):
  q.p => p.q
Proof:
  AndIntro:
    AndElimRight(q):
      Ax
    AndElimLeft(p):
      Ax
";

#[test]
fn readme_example_is_accepted() {
    let results = check_all(AND_COMM);
    assert_eq!(results.len(), 1);
    assert!(matches!(results[0], Ok(())));
}

#[test]
fn proved_statement_can_be_used_with_inferred_arguments() {
    let source = format!("{}\nProp Use(a, b):\n  b.a => a.b\nProof:\n  AndComm:\n    Ax\n", AND_COMM);
    let results = check_all(&source);
    assert!(matches!(results[0], Ok(())));
    assert!(matches!(results[1], Ok(())));
}

#[test]
fn use_of_unknown_statement_is_incorrect() {
    let source = "Prop Use(a, b):\n  b.a => a.b\nProof:\n  AndComm:\n    Ax\n";
    let results = check_all(source);
    assert!(matches!(results[0], Err(CheckingError::IncorrectProof)));
}

#[test]
fn explicit_parameter_is_substituted() {
    let source = "Prop Cut(q, infer p):
  q, q -> p => p
Proof:
  ImpElim(q):
    Ax
    Ax

Prop UseCut(a, b):
  a, a -> b => b
Proof:
  Cut(a):
    Ax
    Ax
";
    let results = check_all(source);
    assert!(matches!(results[0], Ok(())));
    assert!(matches!(results[1], Ok(())));
}

#[test]
fn explicit_parameter_with_wrong_argument_is_incorrect() {
    let source = "Prop Cut(q, infer p):
  q, q -> p => p
Proof:
  ImpElim(q):
    Ax
    Ax

Prop UseCut(a, b, c):
  a, a -> b => b
Proof:
  Cut(c):
    Ax
    Ax
";
    let results = check_all(source);
    assert!(matches!(results[0], Ok(())));
    assert!(matches!(results[1], Err(CheckingError::IncorrectProof)));
}

#[test]
fn statement_whose_conclusion_does_not_match_is_incorrect() {
    let source = format!("{}\nProp Use(a, b):\n  b.a => a | b\nProof:\n  AndComm:\n    Ax\n", AND_COMM);
    let results = check_all(&source);
    assert!(matches!(results[1], Err(CheckingError::IncorrectProof)));
}

#[test]
fn inferred_argument_before_explicit_is_refused() {
    let s = stmt("S", &[("p", true), ("q", false)], vec![], var("p"), leaf("Admitted"));
    let mut checker = Checker::new();
    match checker.check(s) {
        Err(CheckingError::NoInferAfterInferred(name)) => assert_eq!(name, "q"),
        other => panic!("unexpected {:?}", other),
    }
}

#[test]
fn undeclared_variable_in_hypothesis_is_refused() {
    let s = stmt("S", &[("p", false)], vec![var("p"), and(var("p"), var("r"))], var("p"), leaf("Ax"));
    let mut checker = Checker::new();
    match checker.check(s) {
        Err(CheckingError::UnknownVariable(f, v)) => {
            assert_eq!(f, and(var("p"), var("r")));
            assert_eq!(v, "r");
        },
        other => panic!("unexpected {:?}", other),
    }
}

#[test]
fn undeclared_variable_in_proposition_is_refused() {
    let s = stmt("S", &[("p", false)], vec![var("p")], imp(var("p"), var("z")), leaf("Admitted"));
    let mut checker = Checker::new();
    match checker.check(s) {
        Err(CheckingError::UnknownVariable(f, v)) => {
            assert_eq!(f, imp(var("p"), var("z")));
            assert_eq!(v, "z");
        },
        other => panic!("unexpected {:?}", other),
    }
}

#[test]
fn inferred_argument_missing_from_proposition_is_refused() {
    let s = stmt("S", &[("p", false), ("q", true)], vec![var("q")], var("p"), leaf("Admitted"));
    let mut checker = Checker::new();
    match checker.check(s) {
        Err(CheckingError::CannotInfer(v)) => assert_eq!(v, "q"),
        other => panic!("unexpected {:?}", other),
    }
}

#[test]
fn wrong_proof_is_refused() {
    let s = stmt("S", &[("p", false)], vec![], var("p"), leaf("Ax"));
    let mut checker = Checker::new();
    assert!(matches!(checker.check(s), Err(CheckingError::IncorrectProof)));
}

#[test]
fn refused_statement_is_not_kept() {
    let mut checker = Checker::new();
    let bad = stmt("Bad", &[("p", false)], vec![], var("p"), leaf("Ax"));
    assert!(checker.check(bad).is_err());
    let user = stmt("User", &[("p", false)], vec![], var("p"), leaf("Bad"));
    assert!(matches!(checker.check(user), Err(CheckingError::IncorrectProof)));
}

#[test]
fn admitted_statement_is_kept_and_usable() {
    let mut checker = Checker::new();
    let lem = stmt("Lem", &[("p", true)], vec![], imp(var("p"), var("p")), leaf("Admitted"));
    assert!(checker.check(lem).is_ok());
    let user = stmt("User", &[("a", false)], vec![], imp(var("a"), var("a")), leaf("Lem"));
    assert!(checker.check(user).is_ok());
}

#[test]
fn rule_missing_a_premise_stops_the_check() {
    let s = stmt("S", &[("p", false), ("q", false)], vec![var("p")], and(var("p"), var("q")), rule("AndIntro", vec![], vec![leaf("Ax")]));
    let mut checker = Checker::new();
    assert!(checker.try_check(s).is_none());
}

#[test]
fn failing_first_premise_stops_before_missing_second() {
    let s = stmt("S", &[("p", false), ("q", false)], vec![var("q")], and(var("p"), var("q")), rule("AndIntro", vec![], vec![leaf("Ax")]));
    let mut checker = Checker::new();
    assert!(matches!(checker.try_check(s), Some(Err(CheckingError::IncorrectProof))));
}

#[test]
fn axiom_needs_goal_in_context() {
    let mut checker = Checker::new();
    let mut ctx = vec![var("p"), var("q")];
    assert!(checker.check_proof(&var("q"), &mut ctx, &leaf("Ax")));
    assert!(!checker.check_proof(&var("r"), &mut ctx, &leaf("Ax")));
    assert_eq!(ctx, vec![var("p"), var("q")]);
}

#[test]
fn weakening_keeps_accepted_proof() {
    let mut checker = Checker::new();
    let proof = rule("ImpIntro", vec![], vec![leaf("Ax")]);
    let goal = imp(var("p"), var("p"));
    let mut small = vec![];
    let mut large = vec![var("q"), var("r")];
    assert!(checker.check_proof(&goal, &mut small, &proof));
    assert!(checker.check_proof(&goal, &mut large, &proof));
    assert_eq!(large, vec![var("q"), var("r")]);
}

#[test]
fn top_introduction_and_bottom_elimination() {
    let mut checker = Checker::new();
    let mut ctx = vec![Formula::Bot];
    assert!(checker.check_proof(&Formula::Top, &mut ctx, &leaf("TopIntro")));
    assert!(!checker.check_proof(&var("p"), &mut ctx, &leaf("TopIntro")));
    assert!(checker.check_proof(&var("p"), &mut ctx, &rule("BottomElim", vec![], vec![leaf("Ax")])));
}

#[test]
fn negation_rules() {
    let mut checker = Checker::new();
    let mut ctx = vec![var("p")];
    let not_not_p = Formula::Not(Box::new(Formula::Not(Box::new(var("p")))));
    let proof = rule(
        "NotIntro",
        vec![],
        vec![rule("NotElim", vec![var("p"), Formula::Not(Box::new(var("p")))], vec![leaf("Ax"), leaf("Ax")])],
    );
    assert!(checker.check_proof(&not_not_p, &mut ctx, &proof));
    assert!(!checker.check_proof(&var("p"), &mut ctx, &rule("NotIntro", vec![], vec![leaf("Ax")])));
}

#[test]
fn disjunction_rules() {
    let mut checker = Checker::new();
    let p_or_q = Formula::Or(Box::new(var("p")), Box::new(var("q")));
    let q_or_p = Formula::Or(Box::new(var("q")), Box::new(var("p")));
    let mut ctx = vec![p_or_q.clone()];
    let proof = rule(
        "OrElim",
        vec![var("p"), var("q")],
        vec![
            leaf("Ax"),
            rule("OrIntroRight", vec![], vec![leaf("Ax")]),
            rule("OrIntroLeft", vec![], vec![leaf("Ax")]),
        ],
    );
    assert!(checker.check_proof(&q_or_p, &mut ctx, &proof));
    assert_eq!(ctx, vec![p_or_q]);
}

#[test]
fn implication_elimination() {
    let mut checker = Checker::new();
    let mut ctx = vec![var("p"), imp(var("p"), var("q"))];
    let proof = rule("ImpElim", vec![var("p")], vec![leaf("Ax"), leaf("Ax")]);
    assert!(checker.check_proof(&var("q"), &mut ctx, &proof));
    let wrong = rule("ImpElim", vec![var("r")], vec![leaf("Ax"), leaf("Ax")]);
    assert!(!checker.check_proof(&var("q"), &mut ctx, &wrong));
}

#[test]
fn later_statement_replaces_earlier_of_same_name() {
    let mut checker = Checker::new();
    let first = stmt("L", &[("p", false)], vec![], var("p"), leaf("Admitted"));
    assert!(checker.check(first).is_ok());
    let second = stmt("L", &[("p", true)], vec![var("p")], var("p"), leaf("Ax"));
    assert!(checker.check(second).is_ok());
    // Only the replacement, whose variable is inferred, matches the goal `a`.
    let user = stmt("U", &[("a", false)], vec![var("a")], var("a"), rule("L", vec![], vec![leaf("Ax")]));
    assert!(matches!(checker.check(user), Ok(())));
}

#[test]
fn new_statement_keeps_earlier_proofs() {
    let mut checker = Checker::new();
    for s in parse(AND_COMM) {
        assert!(checker.check(s).is_ok());
    }
    let proof = rule("AndComm", vec![], vec![leaf("Ax")]);
    let goal = and(var("a"), var("b"));
    let mut ctx = vec![and(var("b"), var("a"))];
    assert!(checker.check_proof(&goal, &mut ctx, &proof));
    let other = stmt("Other", &[("p", false)], vec![], var("p"), leaf("Admitted"));
    assert!(checker.check(other).is_ok());
    assert!(checker.check_proof(&goal, &mut ctx, &proof));
}

#[test]
fn inferred_hypotheses_follow_from_the_goal() {
    let mut checker = Checker::new();
    for s in parse(AND_COMM) {
        assert!(checker.check(s).is_ok());
    }
    let proof = rule("AndComm", vec![], vec![leaf("Ax")]);
    let goal = and(Formula::Top, imp(var("x"), var("y")));
    let mut right = vec![and(imp(var("x"), var("y")), Formula::Top)];
    let mut wrong = vec![and(Formula::Top, imp(var("x"), var("y")))];
    assert!(checker.check_proof(&goal, &mut right, &proof));
    assert!(!checker.check_proof(&goal, &mut wrong, &proof));
}

#[test]
fn not_elim_needs_a_formula_and_its_negation() {
    let mut checker = Checker::new();
    let mut ctx = vec![var("p"), var("q")];
    let proof = rule("NotElim", vec![var("p"), var("q")], vec![leaf("Ax"), leaf("Ax")]);
    assert!(!checker.check_proof(&Formula::Bot, &mut ctx, &proof));
    let mut ctx = vec![var("p"), Formula::Not(Box::new(var("p")))];
    let proof = rule("NotElim", vec![var("p"), Formula::Not(Box::new(var("p")))], vec![leaf("Ax"), leaf("Ax")]);
    assert!(checker.check_proof(&Formula::Bot, &mut ctx, &proof));
}

#[test]
fn explicit_argument_binds_only_its_parameter() {
    let source = "Prop W(q, infer p):
  q, p => p
Proof:
  Ax

Prop Use(q, r):
  r => q
Proof:
  W(r):
    Ax
    Ax
";
    let results = check_all(source);
    assert!(matches!(results[0], Ok(())));
    assert!(matches!(results[1], Err(CheckingError::IncorrectProof)));
}

#[test]
fn explicit_argument_is_bound_before_matching() {
    let mut checker = Checker::new();
    let t = stmt("T", &[("a", false)], vec![var("a")], var("a"), leaf("Ax"));
    assert!(checker.check(t).is_ok());
    let use_t = rule("T", vec![var("q")], vec![leaf("Ax")]);
    assert!(checker.check_proof(&var("q"), &mut vec![var("q")], &use_t));
    assert!(!checker.check_proof(&var("a"), &mut vec![var("q")], &use_t));
}

#[test]
fn statement_used_on_goal_with_inference_variable_gets_no_verdict() {
    let mut checker = Checker::new();
    let t = stmt("T", &[("a", true)], vec![], var("a"), leaf("Admitted"));
    assert!(checker.check(t).is_ok());
    let mut ctx = vec![];
    assert_eq!(checker.try_proof(&var("$x"), &mut ctx, &leaf("T")), None);
    assert_eq!(checker.try_proof(&var("$x"), &mut ctx, &leaf("Unknown")), Some(false));
    let mut ctx = vec![var("$x")];
    assert_eq!(checker.try_proof(&var("$x"), &mut ctx, &leaf("Ax")), Some(true));
}

#[test]
fn readme_example_with_comments_is_accepted() {
    let source = "// proof of the commutativity of the disjunction

Prop AndComm(infer p, infer q):
  q.p => p.q
Proof:
  // we start the proof by using the and introduction rule
  // every hypothesis (p, q) can be infered here
  AndIntro:
    // we can infer the right side of the hypothesis q \u{2227} p 
    // as the conclusion is p
    // but not the left side (q) so it is passed as an argument
    AndElimRight(q): 
      // the axiom rule does not have any hypothesis
      Ax
    AndElimLeft(p):
      Ax
";
    let results = check_all(source);
    assert_eq!(results.len(), 1);
    assert!(matches!(results[0], Ok(())));
}

#[test]
fn check_program_stops_at_first_refusal() {
    let source = format!("{}\nProp Bad(p):\n  => p\nProof:\n  Ax\n\nProp Later(p):\n  p => p\nProof:\n  Ax\n", AND_COMM);
    let mut checker = Checker::new();
    let (names, outcome) = checker.check_program(parse(&source));
    assert_eq!(names, vec!["AndComm".to_string()]);
    assert!(matches!(outcome, ProgramOutcome::Refused(CheckingError::IncorrectProof)));
    // Later was never checked, so it is unknown.
    let user = stmt("U", &[("p", false)], vec![var("p")], var("p"), rule("Later", vec![], vec![leaf("Ax")]));
    assert!(matches!(checker.check(user), Err(CheckingError::IncorrectProof)));
}

#[test]
fn check_program_accepts_all() {
    let source = format!("{}\nProp Use(a, b):\n  b.a => a.b\nProof:\n  AndComm:\n    Ax\n", AND_COMM);
    let mut checker = Checker::new();
    let (names, outcome) = checker.check_program(parse(&source));
    assert_eq!(names, vec!["AndComm".to_string(), "Use".to_string()]);
    assert!(matches!(outcome, ProgramOutcome::Accepted));
}

#[test]
fn check_program_reports_missing_verdict() {
    let first = stmt("A", &[("p", false)], vec![var("p")], var("p"), leaf("Ax"));
    let second = stmt("B", &[("p", false), ("q", false)], vec![var("p")], and(var("p"), var("q")), rule("AndIntro", vec![], vec![leaf("Ax")]));
    let mut checker = Checker::new();
    let (names, outcome) = checker.check_program(vec![first, second]);
    assert_eq!(names, vec!["A".to_string()]);
    assert!(matches!(outcome, ProgramOutcome::NoVerdict));
}

#[test]
fn cloned_statement_checks_alike() {
    let source_stmt = parse(AND_COMM).pop().unwrap();
    let copy = source_stmt.clone();
    assert_eq!(copy.name, source_stmt.name);
    assert_eq!(copy.context, source_stmt.context);
    assert_eq!(copy.proof.children.len(), source_stmt.proof.children.len());
    let mut checker = Checker::new();
    assert!(checker.check(copy).is_ok());
}
