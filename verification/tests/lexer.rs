use proof_checker::lexer::{Lexer, Position, Token, TokenData};

fn lex(source: &str) -> Option<Option<Vec<Token>>> {
    assert!(Lexer::source_fits(source));
    let mut lexer = Lexer::new(source);
    lexer.try_lex()
}

fn pos(line: usize, column: usize) -> Position {
    Position { line, column }
}

fn ident(name: &str, line: usize, column: usize) -> Token {
    Token { data: TokenData::Identifier(name.to_string()), pos: pos(line, column) }
}

fn tok(data: TokenData, line: usize, column: usize) -> Token {
    Token { data, pos: pos(line, column) }
}

#[test]
fn lexes_operators_with_positions() {
    let tokens = lex("a . b -> c | ~d").unwrap().unwrap();
    assert_eq!(
        tokens,
        vec![
            ident("a", 1, 1),
            tok(TokenData::Dot, 1, 3),
            ident("b", 1, 5),
            tok(TokenData::ThinArrow, 1, 8),
            ident("c", 1, 10),
            tok(TokenData::Pipe, 1, 12),
            tok(TokenData::Tilde, 1, 14),
            ident("d", 1, 15),
        ]
    );
}

#[test]
fn lexes_keywords() {
    let tokens = lex("Prop Proof infer Top Bot Props x_1").unwrap().unwrap();
    let kinds: Vec<TokenData> = tokens.into_iter().map(|t| t.data).collect();
    assert_eq!(
        kinds,
        vec![
            TokenData::Prop,
            TokenData::Proof,
            TokenData::Infer,
            TokenData::Top,
            TokenData::Bot,
            TokenData::Identifier("Props".to_string()),
            TokenData::Identifier("x_1".to_string()),
        ]
    );
}

#[test]
fn lexes_fat_arrow_colon_and_comma() {
    let tokens = lex("p, q => r:").unwrap().unwrap();
    let kinds: Vec<TokenData> = tokens.into_iter().map(|t| t.data).collect();
    assert_eq!(
        kinds,
        vec![
            TokenData::Identifier("p".to_string()),
            TokenData::Comma,
            TokenData::Identifier("q".to_string()),
            TokenData::FatArrow,
            TokenData::Identifier("r".to_string()),
            TokenData::Colon,
        ]
    );
}

#[test]
fn newline_token_starts_next_line() {
    let tokens = lex("a\nb").unwrap().unwrap();
    assert_eq!(tokens, vec![ident("a", 1, 1), tok(TokenData::NewLine, 2, 0), ident("b", 2, 1)]);
}

#[test]
fn comment_runs_to_end_of_line_without_newline_token() {
    let tokens = lex("a // note\nb").unwrap().unwrap();
    assert_eq!(tokens, vec![ident("a", 1, 1), ident("b", 2, 1)]);
}

#[test]
fn indentation_opens_a_block() {
    let tokens = lex("a\n  b\nc").unwrap().unwrap();
    assert_eq!(
        tokens,
        vec![
            ident("a", 1, 1),
            tok(TokenData::NewLine, 2, 0),
            tok(TokenData::IndentBlock(vec![ident("b", 2, 3), tok(TokenData::NewLine, 3, 0)]), 3, 1),
            ident("c", 3, 2),
        ]
    );
}

#[test]
fn parentheses_open_a_block() {
    let tokens = lex("(a, b)").unwrap().unwrap();
    assert_eq!(tokens.len(), 1);
    match &tokens[0].data {
        TokenData::ParenBlock(inner) => {
            let kinds: Vec<&TokenData> = inner.iter().map(|t| &t.data).collect();
            assert_eq!(
                kinds,
                vec![
                    &TokenData::Identifier("a".to_string()),
                    &TokenData::Comma,
                    &TokenData::Identifier("b".to_string()),
                ]
            );
        },
        other => panic!("expected a parenthesised block, got {:?}", other),
    }
}

#[test]
fn closing_parenthesis_at_top_level_ends_input() {
    let tokens = lex("a) b").unwrap().unwrap();
    assert_eq!(tokens, vec![ident("a", 1, 1)]);
}

#[test]
fn lone_equals_sign_is_an_error() {
    assert!(lex("a = b").unwrap().is_none());
}

#[test]
fn lone_minus_sign_is_an_error() {
    assert!(lex("a - b").unwrap().is_none());
}

#[test]
fn single_slash_is_an_error() {
    assert!(lex("a / b").unwrap().is_none());
}

#[test]
fn unknown_character_is_an_error() {
    assert!(lex("a # b").unwrap().is_none());
}

#[test]
fn unclosed_parenthesis_is_an_error() {
    assert!(lex("(a").unwrap().is_none());
}

#[test]
fn closing_brace_is_refused() {
    assert!(lex("a }").is_none());
}

#[test]
fn empty_source_has_no_tokens() {
    assert_eq!(lex("").unwrap().unwrap(), vec![]);
}

#[test]
fn lex_agrees_with_try_lex() {
    let source = "p . q -> r";
    let mut lexer = Lexer::new(source);
    let tokens = lexer.lex().unwrap();
    assert_eq!(Some(Some(tokens)), lex(source));
}

#[test]
fn next_reads_one_token_at_a_time() {
    let mut lexer = Lexer::new("p q");
    assert_eq!(lexer.next(), Some(ident("p", 1, 1)));
    assert_eq!(lexer.next(), Some(ident("q", 1, 3)));
    assert_eq!(lexer.next(), None);
}

#[test]
fn try_next_reports_closing_brace() {
    let mut lexer = Lexer::new("a }");
    assert_eq!(lexer.try_next(), Some(Some(ident("a", 1, 1))));
    assert_eq!(lexer.try_next(), None);
}

#[test]
fn try_next_ends_block_and_reports_errors() {
    let mut lexer = Lexer::new("p = q");
    assert_eq!(lexer.try_next(), Some(Some(ident("p", 1, 1))));
    assert_eq!(lexer.try_next(), Some(None));
}

#[test]
fn lex_gives_the_tokens_of_successive_steps() {
    let source = "p -> (q | r)\n  s";
    let mut stepper = Lexer::new(source);
    let mut stepped = vec![];
    while let Some(Some(t)) = stepper.try_next() {
        stepped.push(t);
    }
    assert_eq!(lex(source), Some(Some(stepped)));
}

#[test]
fn cloned_tokens_are_equal() {
    let tokens = lex("(a . b)\n  c").unwrap().unwrap();
    let copy: Vec<Token> = tokens.iter().map(|t| t.clone()).collect();
    assert_eq!(copy, tokens);
}
