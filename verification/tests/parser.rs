use proof_checker::ast::{Formula, Program, Statement};
use proof_checker::lexer::Lexer;
use proof_checker::parser::Parser;

fn parse(source: &str) -> Option<Program> {
    assert!(Lexer::source_fits(source));
    let tokens = Lexer::new(source).try_lex().unwrap().unwrap();
    Parser::new(tokens).parse()
}

fn var(name: &str) -> Formula {
    Formula::Var(name.to_string())
}

fn and(a: Formula, b: Formula) -> Formula {
    Formula::And(Box::new(a), Box::new(b))
}

fn or(a: Formula, b: Formula) -> Formula {
    Formula::Or(Box::new(a), Box::new(b))
}

fn imp(a: Formula, b: Formula) -> Formula {
    Formula::Imp(Box::new(a), Box::new(b))
}

fn not(a: Formula) -> Formula {
    Formula::Not(Box::new(a))
}

fn single(source: &str) -> Statement {
    let mut program = parse(source).unwrap();
    assert_eq!(program.len(), 1);
    program.pop().unwrap()
}

const AND_COMM: &str = "Prop AndComm(infer p, infer q):
  q.p => p.q
Proof:
  AndIntro:
    AndElimRight(q):
      Ax
    AndElimLeft(p):
      Ax
";

#[test]
fn parses_readme_example() {
    let stmt = single(AND_COMM);
    assert_eq!(stmt.name, "AndComm");
    assert_eq!(stmt.args, vec![("p".to_string(), true), ("q".to_string(), true)]);
    assert_eq!(stmt.context, vec![and(var("q"), var("p"))]);
    assert_eq!(stmt.prop, and(var("p"), var("q")));
    assert_eq!(stmt.proof.name, "AndIntro");
    assert!(stmt.proof.args.is_empty());
    assert_eq!(stmt.proof.children.len(), 2);
    let left = &stmt.proof.children[0];
    assert_eq!(left.name, "AndElimRight");
    assert_eq!(left.args, vec![var("q")]);
    assert_eq!(left.children.len(), 1);
    assert_eq!(left.children[0].name, "Ax");
    assert!(left.children[0].children.is_empty());
    let right = &stmt.proof.children[1];
    assert_eq!(right.name, "AndElimLeft");
    assert_eq!(right.args, vec![var("p")]);
    assert_eq!(right.children[0].name, "Ax");
}

#[test]
fn operator_precedence_and_associativity() {
    let stmt = single("Prop T(a, b, c, d):\n  a . b -> c | ~d, a . b . c => a | b | c\nProof:\n  Admitted\n");
    assert_eq!(
        stmt.context,
        vec![
            or(and(var("a"), imp(var("b"), var("c"))), not(var("d"))),
            and(var("a"), and(var("b"), var("c"))),
        ]
    );
    assert_eq!(stmt.prop, or(var("a"), or(var("b"), var("c"))));
}

#[test]
fn parentheses_group_and_constants_parse() {
    let stmt = single("Prop T(a, b):\n  => (a -> b) -> Top . ~Bot\nProof:\n  Admitted\n");
    assert!(stmt.context.is_empty());
    assert_eq!(stmt.prop, and(imp(imp(var("a"), var("b")), Formula::Top), not(Formula::Bot)));
}

#[test]
fn explicit_and_inferred_arguments() {
    let stmt = single("Prop Cut(q, infer p):\n  q, q -> p => p\nProof:\n  ImpElim(q):\n    Ax\n    Ax\n");
    assert_eq!(stmt.args, vec![("q".to_string(), false), ("p".to_string(), true)]);
    assert_eq!(stmt.context, vec![var("q"), imp(var("q"), var("p"))]);
    assert_eq!(stmt.proof.name, "ImpElim");
    assert_eq!(stmt.proof.args, vec![var("q")]);
    assert_eq!(stmt.proof.children.len(), 2);
}

#[test]
fn several_statements_in_order() {
    let source = "Prop A(p):\n  p => p\nProof:\n  Ax\n\nProp B():\n  => Top\nProof:\n  TopIntro\n";
    let program = parse(source).unwrap();
    assert_eq!(program.len(), 2);
    assert_eq!(program[0].name, "A");
    assert_eq!(program[1].name, "B");
    assert_eq!(program[1].prop, Formula::Top);
    assert_eq!(program[1].proof.name, "TopIntro");
}

#[test]
fn empty_program() {
    assert_eq!(parse("").unwrap().len(), 0);
    assert_eq!(parse("\n\n").unwrap().len(), 0);
}

#[test]
fn program_must_start_with_prop() {
    assert!(parse("p").is_none());
}

#[test]
fn truncated_statement_is_refused() {
    assert!(parse("Prop").is_none());
    assert!(parse("Prop A(p):\n  p => p\n").is_none());
}

#[test]
fn missing_fat_arrow_is_refused() {
    assert!(parse("Prop A(p):\n  p\nProof:\n  Ax\n").is_none());
}
