use vstd::prelude::*;
use vstd::std_specs::iter::IteratorSpec;

use multipeek::MultiPeek;
use std::vec::IntoIter;

use crate::stream::{char_stream, clone_chars, multipeek_chars, next_char, peek_char, peek_nth_char};

verus! {

/// What a token is.
#[derive(Debug, PartialEq)]
pub enum TokenData {
    ParenBlock(Vec<Token>),
    IndentBlock(Vec<Token>),
    Colon,
    Comma,
    Dot,
    ThinArrow,
    Pipe,
    FatArrow,
    Tilde,
    Identifier(String),
    Prop,
    Proof,
    Infer,
    Top,
    Bot,
    NewLine,
}

/// A place in the source: line (from 1) and column.
#[derive(Debug, Clone, Copy, PartialEq, Eq, Structural)]
pub struct Position {
    pub line: usize,
    pub column: usize,
}

/// A token and where it was read.
#[derive(Debug, PartialEq)]
pub struct Token {
    pub data: TokenData,
    pub pos: Position,
}

/// The value of a token's kind; blocks hold the values of their tokens.
pub enum TokenDataView {
    ParenBlock(Seq<TokenView>),
    IndentBlock(Seq<TokenView>),
    Colon,
    Comma,
    Dot,
    ThinArrow,
    Pipe,
    FatArrow,
    Tilde,
    Identifier(Seq<char>),
    Prop,
    Proof,
    Infer,
    Top,
    Bot,
    NewLine,
}

/// The value of a token.
pub struct TokenView {
    pub data: TokenDataView,
    pub pos: Position,
}

impl TokenData {
    pub open spec fn model(&self) -> TokenDataView
        decreases self,
    {
        match self {
            TokenData::ParenBlock(v) => TokenDataView::ParenBlock(tokens_view(v@)),
            TokenData::IndentBlock(v) => TokenDataView::IndentBlock(tokens_view(v@)),
            TokenData::Colon => TokenDataView::Colon,
            TokenData::Comma => TokenDataView::Comma,
            TokenData::Dot => TokenDataView::Dot,
            TokenData::ThinArrow => TokenDataView::ThinArrow,
            TokenData::Pipe => TokenDataView::Pipe,
            TokenData::FatArrow => TokenDataView::FatArrow,
            TokenData::Tilde => TokenDataView::Tilde,
            TokenData::Identifier(s) => TokenDataView::Identifier(s@),
            TokenData::Prop => TokenDataView::Prop,
            TokenData::Proof => TokenDataView::Proof,
            TokenData::Infer => TokenDataView::Infer,
            TokenData::Top => TokenDataView::Top,
            TokenData::Bot => TokenDataView::Bot,
            TokenData::NewLine => TokenDataView::NewLine,
        }
    }
}

impl Token {
    pub open spec fn model(&self) -> TokenView
        decreases self,
    {
        TokenView { data: self.data.model(), pos: self.pos }
    }
}

/// A copy of `v`, token by token.
fn clone_tokens(v: &Vec<Token>) -> (r: Vec<Token>)
    ensures
        tokens_view(r@) == tokens_view(v@),
    decreases v,
{
    let mut r: Vec<Token> = Vec::new();
    let mut i: usize = 0;
    while i < v.len()
        invariant
            i <= v@.len(),
            tokens_view(r@) == tokens_view(v@.subrange(0, i as int)),
        decreases v@.len() - i,
    {
        let t = v[i].clone();
        proof {
            lemma_tokens_view_push(r@, t);
            lemma_tokens_view_push(v@.subrange(0, i as int), v@[i as int]);
            assert(v@.subrange(0, i + 1) =~= v@.subrange(0, i as int).push(v@[i as int]));
        }
        r.push(t);
        i = i + 1;
    }
    assert(v@.subrange(0, i as int) =~= v@);
    r
}

impl Clone for TokenData {
    /// A copy of the token kind, blocks included.
    fn clone(&self) -> (r: Self)
        ensures
            r.model() == self.model(),
        decreases self,
    {
        match self {
            TokenData::ParenBlock(v) => TokenData::ParenBlock(clone_tokens(v)),
            TokenData::IndentBlock(v) => TokenData::IndentBlock(clone_tokens(v)),
            TokenData::Colon => TokenData::Colon,
            TokenData::Comma => TokenData::Comma,
            TokenData::Dot => TokenData::Dot,
            TokenData::ThinArrow => TokenData::ThinArrow,
            TokenData::Pipe => TokenData::Pipe,
            TokenData::FatArrow => TokenData::FatArrow,
            TokenData::Tilde => TokenData::Tilde,
            TokenData::Identifier(s) => TokenData::Identifier(s.clone()),
            TokenData::Prop => TokenData::Prop,
            TokenData::Proof => TokenData::Proof,
            TokenData::Infer => TokenData::Infer,
            TokenData::Top => TokenData::Top,
            TokenData::Bot => TokenData::Bot,
            TokenData::NewLine => TokenData::NewLine,
        }
    }
}

impl Clone for Token {
    /// A copy of the token.
    fn clone(&self) -> (r: Self)
        ensures
            r.model() == self.model(),
        decreases self,
    {
        Token { data: self.data.clone(), pos: self.pos }
    }
}

/// The values of a sequence of tokens.
pub open spec fn tokens_view(s: Seq<Token>) -> Seq<TokenView>
    decreases s,
{
    if s.len() == 0 {
        Seq::empty()
    } else {
        tokens_view(s.drop_last()).push(s.last().model())
    }
}


/// Whether std's `char::is_alphabetic` holds of `c`.
pub uninterp spec fn alphabetic(c: char) -> bool;

/// Whether std's `char::is_alphanumeric` holds of `c`.
pub uninterp spec fn alphanumeric(c: char) -> bool;

/// `char::is_alphabetic`: whether `c` has the Unicode Alphabetic property. The ASCII letters
/// have it; ASCII digits, blanks, line breaks and the ASCII punctuation that the lexer reads do
/// not.
#[verifier::external_body]
fn is_alphabetic(c: char) -> (r: bool)
    ensures
        r == alphabetic(c),
        ('a' <= c <= 'z' || 'A' <= c <= 'Z') ==> r,
        ('0' <= c <= '9' || c == ' ' || c == '\t' || c == '\n' || c == '_' || c == '$' || c == '('
            || c == ')' || c == '}' || c == ':' || c == ',' || c == '|' || c == '~' || c == '.'
            || c == '=' || c == '-' || c == '>' || c == '/') ==> !r,
{
    c.is_alphabetic()
}

/// `char::is_alphanumeric`: whether `c` is alphabetic or numeric in Unicode's sense. The ASCII
/// letters and digits are; blanks, line breaks and the ASCII punctuation that the lexer reads
/// are not.
#[verifier::external_body]
fn is_alphanumeric(c: char) -> (r: bool)
    ensures
        r == alphanumeric(c),
        ('a' <= c <= 'z' || 'A' <= c <= 'Z' || '0' <= c <= '9') ==> r,
        (c == ' ' || c == '\t' || c == '\n' || c == '_' || c == '$' || c == '(' || c == ')' || c
            == '}' || c == ':' || c == ',' || c == '|' || c == '~' || c == '.' || c == '=' || c
            == '-' || c == '>' || c == '/') ==> !r,
{
    c.is_alphanumeric()
}

/// `FromIterator<&char> for String`: the string made of the characters of `v`, in order.
#[verifier::external_body]
fn string_from_chars(v: &Vec<char>) -> (s: String)
    ensures
        s@ == v@,
{
    v.iter().collect()
}

/// The characters of `s`, in order.
fn chars_of(s: &str) -> (v: Vec<char>)
    ensures
        v@ == s@,
{
    broadcast use vstd::string::axiom_spec_iter;

    let mut it = s.chars();
    let mut v: Vec<char> = Vec::new();
    assert(v@ + it.remaining() =~= s@);
    loop
        invariant
            v@ + it.remaining() == s@,
            it.decrease() is Some,
        ensures
            v@ == s@,
        decreases it.decrease()->0,
    {
        match it.next() {
            Some(c) => {
                v.push(c);
                assert(v@ + it.remaining() =~= s@);
            },
            None => {
                assert(v@ =~= s@);
                break;
            },
        }
    }
    v
}

/// The state of a lexer: the characters left, whether no error was met, the position, the
/// indentation level of the block being read and whether a line has just begun.
pub struct LexState {
    pub chars: Seq<char>,
    pub ok: bool,
    pub current: Position,
    pub indent: usize,
    pub after_newline: bool,
}

pub open spec fn set_chars(s: LexState, c: Seq<char>) -> LexState {
    LexState { chars: c, ok: s.ok, current: s.current, indent: s.indent, after_newline: s.after_newline }
}

pub open spec fn set_ok(s: LexState, b: bool) -> LexState {
    LexState { chars: s.chars, ok: b, current: s.current, indent: s.indent, after_newline: s.after_newline }
}

pub open spec fn set_pos(s: LexState, p: Position) -> LexState {
    LexState { chars: s.chars, ok: s.ok, current: p, indent: s.indent, after_newline: s.after_newline }
}

pub open spec fn set_after_newline(s: LexState, b: bool) -> LexState {
    LexState { chars: s.chars, ok: s.ok, current: s.current, indent: s.indent, after_newline: b }
}

/// The column advances by one.
pub open spec fn bump(s: LexState) -> LexState {
    set_pos(s, Position { line: s.current.line, column: (s.current.column + 1) as usize })
}

/// The first column of the next line.
pub open spec fn next_line(p: Position) -> Position {
    Position { line: (p.line + 1) as usize, column: 0 }
}

/// A lexer for a nested block: it starts on the characters `c`, at `p`, with indentation level
/// `indent`, in the middle of a line.
pub open spec fn sub_state(c: Seq<char>, p: Position, indent: usize) -> LexState {
    LexState { chars: c, ok: true, current: p, indent: indent, after_newline: false }
}

pub open spec fn tok(d: TokenDataView, p: Position) -> TokenView {
    TokenView { data: d, pos: p }
}

/// `c` starts with `w` spaces.
pub open spec fn indented(c: Seq<char>, w: int) -> bool {
    w <= c.len() && forall|i: int| 0 <= i < w ==> c[i] == ' '
}

/// The number of characters at the start of `c` that can continue an identifier.
pub open spec fn ident_len(c: Seq<char>) -> nat
    decreases c.len(),
{
    if c.len() > 0 && (alphanumeric(c[0]) || c[0] == '_') {
        1 + ident_len(c.skip(1))
    } else {
        0
    }
}

pub proof fn lemma_ident_len(c: Seq<char>)
    ensures
        ident_len(c) <= c.len(),
    decreases c.len(),
{
    if c.len() > 0 && (alphanumeric(c[0]) || c[0] == '_') {
        lemma_ident_len(c.skip(1));
    }
}

/// What is left of `c` after a comment: everything after the first line break, or nothing.
pub open spec fn after_comment(c: Seq<char>) -> Seq<char>
    decreases c.len(),
{
    if c.len() == 0 {
        c
    } else if c[0] == '\n' {
        c.skip(1)
    } else {
        after_comment(c.skip(1))
    }
}

pub proof fn lemma_after_comment_len(c: Seq<char>)
    ensures
        after_comment(c).len() <= c.len(),
    decreases c.len(),
{
    if c.len() > 0 && c[0] != '\n' {
        lemma_after_comment_len(c.skip(1));
    }
}

/// The token that a word is read as: a keyword, or an identifier.
pub open spec fn keyword(w: Seq<char>) -> TokenDataView {
    if w == "Prop"@ {
        TokenDataView::Prop
    } else if w == "Proof"@ {
        TokenDataView::Proof
    } else if w == "infer"@ {
        TokenDataView::Infer
    } else if w == "Top"@ {
        TokenDataView::Top
    } else if w == "Bot"@ {
        TokenDataView::Bot
    } else {
        TokenDataView::Identifier(w)
    }
}

/// One step of the lexer from `s0`: the state after it and the token read, if any; `None` where
/// the lexer meets a character that ends a block which it is not reading (`}`, or `)` after an
/// indentation).
pub open spec fn spec_next(s0: LexState) -> Option<(LexState, Option<TokenView>)>
    decreases s0.chars.len(), 1nat,
{
    let s = bump(s0);
    if s.chars.len() > 0 && s.chars[0] == ')' {
        Some((s, None))
    } else if s.after_newline {
        let w = 2 * s.indent;
        if !indented(s.chars, w) {
            Some((s, None))
        } else {
            let s2 = set_chars(s, s.chars.skip(w));
            if s2.chars.len() == 0 {
                Some((s2, None))
            } else if s2.chars[0] == ' ' {
                let s3 = set_chars(s2, s2.chars.skip(1));
                match spec_lex(sub_state(s3.chars, s3.current, (s3.indent + 1) as usize)) {
                    None => None,
                    Some((sub, Some(tokens))) => {
                        let s4 = set_pos(set_chars(s3, sub.chars), sub.current);
                        Some((s4, Some(tok(TokenDataView::IndentBlock(tokens), s4.current))))
                    },
                    Some((_, None)) => Some((set_ok(s3, false), None)),
                }
            } else {
                spec_after_indent(s2)
            }
        }
    } else {
        spec_after_indent(s)
    }
}

/// The rest of a step, once the indentation of a line has been read.
pub open spec fn spec_after_indent(s0: LexState) -> Option<(LexState, Option<TokenView>)>
    decreases s0.chars.len(), 0nat,
{
    let s = set_after_newline(s0, false);
    if s.chars.len() == 0 {
        Some((s, None))
    } else {
        let ch = s.chars[0];
        let s1 = set_chars(s, s.chars.skip(1));
        let rest = s1.chars;
        if ch == '(' {
            match spec_lex(sub_state(rest, s1.current, s1.indent)) {
                None => None,
                Some((sub, Some(tokens))) => {
                    let s2 = set_pos(set_chars(s1, sub.chars), sub.current);
                    if s2.chars.len() > 0 && s2.chars[0] == ')' {
                        let s3 = set_chars(s2, s2.chars.skip(1));
                        Some((s3, Some(tok(TokenDataView::ParenBlock(tokens), s3.current))))
                    } else if s2.chars.len() > 0 {
                        Some((set_ok(set_chars(s2, s2.chars.skip(1)), false), None))
                    } else {
                        Some((set_ok(s2, false), None))
                    }
                },
                Some((_, None)) => Some((set_ok(s1, false), None)),
            }
        } else if ch == ')' || ch == '}' {
            None
        } else if ch == ':' {
            Some((s1, Some(tok(TokenDataView::Colon, s1.current))))
        } else if ch == ',' {
            Some((s1, Some(tok(TokenDataView::Comma, s1.current))))
        } else if ch == '|' {
            Some((s1, Some(tok(TokenDataView::Pipe, s1.current))))
        } else if ch == '~' {
            Some((s1, Some(tok(TokenDataView::Tilde, s1.current))))
        } else if ch == '.' {
            Some((s1, Some(tok(TokenDataView::Dot, s1.current))))
        } else if ch == '=' || ch == '-' {
            if rest.len() > 0 && rest[0] == '>' {
                let s2 = bump(set_chars(s1, rest.skip(1)));
                let d = if ch == '=' {
                    TokenDataView::FatArrow
                } else {
                    TokenDataView::ThinArrow
                };
                Some((s2, Some(tok(d, s2.current))))
            } else {
                Some((set_ok(s1, false), None))
            }
        } else if ch == '/' {
            if rest.len() > 0 && rest[0] == '/' {
                let s2 = bump(set_chars(s1, rest.skip(1)));
                let s3 = set_pos(set_chars(s2, after_comment(s2.chars)), next_line(s2.current));
                proof {
                    lemma_after_comment_len(s2.chars);
                }
                spec_next(s3)
            } else {
                Some((set_ok(s1, false), None))
            }
        } else if ch == '\n' {
            let s2 = set_after_newline(set_pos(s1, next_line(s1.current)), true);
            Some((s2, Some(tok(TokenDataView::NewLine, s2.current))))
        } else if ch == ' ' || ch == '\t' {
            spec_next(s1)
        } else if alphabetic(ch) || ch == '_' {
            let k = ident_len(rest);
            let word = seq![ch] + rest.take(k as int);
            let s2 = set_pos(
                set_chars(s1, rest.skip(k as int)),
                Position { line: s1.current.line, column: (s1.current.column + k) as usize },
            );
            Some((s2, Some(tok(keyword(word), s1.current))))
        } else {
            Some((set_ok(s1, false), None))
        }
    }
}

/// Steps from `s` until a step reads no token, collecting the tokens after `acc`.
pub open spec fn spec_lex_from(s: LexState, acc: Seq<TokenView>) -> Option<(LexState, Seq<TokenView>)>
    decreases s.chars.len(), 2nat,
{
    match spec_next(s) {
        None => None,
        Some((s1, None)) => Some((s1, acc)),
        Some((s1, Some(t))) => if s1.chars.len() < s.chars.len() {
            spec_lex_from(s1, acc.push(t))
        } else {
            Some((s1, acc.push(t)))
        },
    }
}

/// Reads a whole block from `s`: the state after it and its tokens, or no tokens if an error was
/// met; `None` where a step stops on a character that ends no block being read.
pub open spec fn spec_lex(s: LexState) -> Option<(LexState, Option<Seq<TokenView>>)>
    decreases s.chars.len(), 3nat,
{
    match spec_lex_from(s, Seq::empty()) {
        None => None,
        Some((s1, toks)) => Some((
            s1,
            if s1.ok {
                Some(toks)
            } else {
                None
            },
        )),
    }
}

proof fn lemma_next_shrinks(s0: LexState)
    ensures
        spec_next(s0) matches Some((s1, t)) ==> s1.chars.len() <= s0.chars.len() && (t is Some
            ==> s1.chars.len() < s0.chars.len()),
    decreases s0.chars.len(), 1nat,
{
    let s = bump(s0);
    if s.chars.len() > 0 && s.chars[0] == ')' {
    } else if s.after_newline {
        let w = 2 * s.indent;
        if indented(s.chars, w) {
            let s2 = set_chars(s, s.chars.skip(w));
            if s2.chars.len() == 0 {
            } else if s2.chars[0] == ' ' {
                let s3 = set_chars(s2, s2.chars.skip(1));
                lemma_lex_shrinks(sub_state(s3.chars, s3.current, (s3.indent + 1) as usize));
            } else {
                lemma_after_indent_shrinks(s2);
            }
        }
    } else {
        lemma_after_indent_shrinks(s);
    }
}

proof fn lemma_after_indent_shrinks(s0: LexState)
    ensures
        spec_after_indent(s0) matches Some((s1, t)) ==> s1.chars.len() <= s0.chars.len() && (t is Some
            ==> s1.chars.len() < s0.chars.len()),
    decreases s0.chars.len(), 0nat,
{
    let s = set_after_newline(s0, false);
    if s.chars.len() > 0 {
        let ch = s.chars[0];
        let s1 = set_chars(s, s.chars.skip(1));
        let rest = s1.chars;
        if ch == '(' {
            lemma_lex_shrinks(sub_state(rest, s1.current, s1.indent));
        } else if ch == '/' {
            if rest.len() > 0 && rest[0] == '/' {
                let s2 = bump(set_chars(s1, rest.skip(1)));
                let s3 = set_pos(set_chars(s2, after_comment(s2.chars)), next_line(s2.current));
                lemma_after_comment_len(s2.chars);
                lemma_next_shrinks(s3);
            }
        } else if ch == ' ' || ch == '\t' {
            lemma_next_shrinks(s1);
        } else if alphabetic(ch) || ch == '_' {
            lemma_ident_len(rest);
        }
    }
}

proof fn lemma_lex_from_shrinks(s: LexState, acc: Seq<TokenView>)
    ensures
        spec_lex_from(s, acc) matches Some((s1, _)) ==> s1.chars.len() <= s.chars.len(),
    decreases s.chars.len(), 2nat,
{
    lemma_next_shrinks(s);
    match spec_next(s) {
        Some((s1, Some(t))) => {
            if s1.chars.len() < s.chars.len() {
                lemma_lex_from_shrinks(s1, acc.push(t));
            }
        },
        _ => {},
    }
}

proof fn lemma_lex_shrinks(s: LexState)
    ensures
        spec_lex(s) matches Some((s1, _)) ==> s1.chars.len() <= s.chars.len(),
    decreases s.chars.len(), 3nat,
{
    lemma_lex_from_shrinks(s, Seq::empty());
}

/// Lexing a block is stepping until a step reads no token: the tokens of `spec_lex_from` are
/// those that successive steps read, and it fails exactly where a step does.
pub proof fn law_lex_repeats_next(s: LexState, acc: Seq<TokenView>)
    ensures
        spec_lex_from(s, acc) == match spec_next(s) {
            None => None,
            Some((s1, None)) => Some((s1, acc)),
            Some((s1, Some(t))) => spec_lex_from(s1, acc.push(t)),
        },
{
    lemma_next_shrinks(s);
}

/// Blanks separate tokens: in the middle of a line, a step on a space or a tab is the step on
/// what follows it, one column further on.
pub proof fn law_blank_skipped(s: LexState)
    requires
        !s.after_newline,
        s.chars.len() > 0,
        s.chars[0] == ' ' || s.chars[0] == '\t',
    ensures
        spec_next(s) == spec_next(set_chars(bump(s), s.chars.skip(1))),
{
}

/// A tab and a space read alike in the middle of a line: replacing one by the other leaves the
/// step unchanged.
pub proof fn law_tab_is_space(s: LexState)
    requires
        !s.after_newline,
        s.chars.len() > 0,
        s.chars[0] == '\t',
    ensures
        spec_next(s) == spec_next(set_chars(s, seq![' '] + s.chars.skip(1))),
{
    let t = set_chars(s, seq![' '] + s.chars.skip(1));
    assert(t.chars.skip(1) =~= s.chars.skip(1));
    law_blank_skipped(s);
    law_blank_skipped(t);
}

/// The token that a single punctuation character stands for.
pub open spec fn punctuation(c: char) -> Option<TokenDataView> {
    if c == ':' {
        Some(TokenDataView::Colon)
    } else if c == ',' {
        Some(TokenDataView::Comma)
    } else if c == '|' {
        Some(TokenDataView::Pipe)
    } else if c == '~' {
        Some(TokenDataView::Tilde)
    } else if c == '.' {
        Some(TokenDataView::Dot)
    } else {
        None
    }
}

/// In the middle of a line, `:`, `,`, `|`, `~` and `.` each read as their own token, at the
/// column of the character, and consume that character alone.
pub proof fn law_punctuation(s: LexState)
    requires
        !s.after_newline,
        s.chars.len() > 0,
        punctuation(s.chars[0]) is Some,
    ensures
        spec_next(s) == Some((
            set_chars(bump(s), s.chars.skip(1)),
            Some(TokenView { data: punctuation(s.chars[0])->0, pos: bump(s).current }),
        )),
{
}

/// In the middle of a line, `=>` and `->` read as one arrow token each, at the column of the
/// `>`, and consume both characters; `=` or `-` followed by anything else is an error.
pub proof fn law_arrows(s: LexState)
    requires
        !s.after_newline,
        s.chars.len() > 0,
        s.chars[0] == '=' || s.chars[0] == '-',
    ensures
        spec_next(s) == if s.chars.len() > 1 && s.chars[1] == '>' {
            Some((
                bump(set_chars(bump(s), s.chars.skip(2))),
                Some(TokenView {
                    data: if s.chars[0] == '=' {
                        TokenDataView::FatArrow
                    } else {
                        TokenDataView::ThinArrow
                    },
                    pos: bump(bump(s)).current,
                }),
            ))
        } else {
            Some((set_ok(set_chars(bump(s), s.chars.skip(1)), false), None))
        },
{
    if s.chars.len() > 1 {
        assert(s.chars.skip(1).skip(1) =~= s.chars.skip(2));
    }
}

/// In the middle of a line, a line break reads as a `NewLine` token at the start of the next
/// line, after which the lexer is at the start of a line.
pub proof fn law_line_break(s: LexState)
    requires
        !s.after_newline,
        s.chars.len() > 0,
        s.chars[0] == '\n',
        s.current.line < usize::MAX,
    ensures
        spec_next(s) matches Some((s2, Some(t))) && t.data == TokenDataView::NewLine && s2.after_newline
            && s2.chars == s.chars.skip(1) && s2.current.line == s.current.line + 1
            && s2.current.column == 0 && t.pos == s2.current,
{
}

/// The keywords `Prop`, `Proof`, `infer`, `Top` and `Bot`; any other word is an identifier.
pub proof fn law_keywords(w: Seq<char>)
    ensures
        keyword(seq!['P', 'r', 'o', 'p']) == TokenDataView::Prop,
        keyword(seq!['P', 'r', 'o', 'o', 'f']) == TokenDataView::Proof,
        keyword(seq!['i', 'n', 'f', 'e', 'r']) == TokenDataView::Infer,
        keyword(seq!['T', 'o', 'p']) == TokenDataView::Top,
        keyword(seq!['B', 'o', 't']) == TokenDataView::Bot,
        w != seq!['P', 'r', 'o', 'p'] && w != seq!['P', 'r', 'o', 'o', 'f'] && w != seq![
            'i',
            'n',
            'f',
            'e',
            'r',
        ] && w != seq!['T', 'o', 'p'] && w != seq!['B', 'o', 't'] ==> keyword(w)
            == TokenDataView::Identifier(w),
{
    reveal_strlit("Prop");
    reveal_strlit("Proof");
    reveal_strlit("infer");
    reveal_strlit("Top");
    reveal_strlit("Bot");
    assert("Prop"@ =~= seq!['P', 'r', 'o', 'p']);
    assert("Proof"@ =~= seq!['P', 'r', 'o', 'o', 'f']);
    assert("infer"@ =~= seq!['i', 'n', 'f', 'e', 'r']);
    assert("Top"@ =~= seq!['T', 'o', 'p']);
    assert("Bot"@ =~= seq!['B', 'o', 't']);
}

/// An identifier runs as far as the characters can continue one: the first `ident_len(c)`
/// characters of `c` are letters, digits or `_`, and the character after them, if any, is not.
pub proof fn law_identifier_longest(c: Seq<char>)
    ensures
        ident_len(c) <= c.len(),
        forall|i: int| 0 <= i < ident_len(c) ==> alphanumeric(#[trigger] c[i]) || c[i] == '_',
        ident_len(c) < c.len() ==> !(alphanumeric(c[ident_len(c) as int]) || c[ident_len(c) as int] == '_'),
    decreases c.len(),
{
    if c.len() > 0 && (alphanumeric(c[0]) || c[0] == '_') {
        law_identifier_longest(c.skip(1));
        assert forall|i: int| 0 <= i < ident_len(c) implies alphanumeric(#[trigger] c[i]) || c[i] == '_' by {
            if i > 0 {
                assert(c[i] == c.skip(1)[i - 1]);
            }
        }
        if ident_len(c) < c.len() {
            assert(c[ident_len(c) as int] == c.skip(1)[ident_len(c.skip(1)) as int]);
        }
    }
}

/// A comment runs to the end of its line: what follows it is what follows the first line break,
/// or nothing where there is none.
pub proof fn law_comment_to_line_end(c: Seq<char>)
    ensures
        (exists|j: int| 0 <= j < c.len() && c[j] == '\n') ==> {
            let j = choose|j: int| 0 <= j < c.len() && c[j] == '\n' && forall|k: int| 0 <= k < j ==> c[k] != '\n';
            after_comment(c) == c.skip(j + 1)
        },
        (forall|j: int| 0 <= j < c.len() ==> c[j] != '\n') ==> after_comment(c) == Seq::<char>::empty(),
{
    lemma_comment_end(c);
    if exists|j: int| 0 <= j < c.len() && c[j] == '\n' {
        let j0 = choose|j: int| 0 <= j < c.len() && c[j] == '\n';
        lemma_first_newline(c, j0);
    }
}

proof fn lemma_first_newline(c: Seq<char>, j0: int)
    requires
        0 <= j0 < c.len(),
        c[j0] == '\n',
    ensures
        exists|j: int| 0 <= j < c.len() && c[j] == '\n' && forall|k: int| 0 <= k < j ==> c[k] != '\n',
    decreases j0,
{
    if exists|k: int| 0 <= k < j0 && c[k] == '\n' {
        let k = choose|k: int| 0 <= k < j0 && c[k] == '\n';
        lemma_first_newline(c, k);
    } else {
        assert(forall|k: int| 0 <= k < j0 ==> c[k] != '\n');
    }
}

proof fn lemma_comment_end(c: Seq<char>)
    ensures
        forall|j: int| #![trigger c.skip(j + 1)]
            0 <= j < c.len() && c[j] == '\n' && (forall|k: int| 0 <= k < j ==> c[k] != '\n')
                ==> after_comment(c) == c.skip(j + 1),
        (forall|j: int| 0 <= j < c.len() ==> c[j] != '\n') ==> after_comment(c) == Seq::<char>::empty(),
    decreases c.len(),
{
    if c.len() > 0 && c[0] != '\n' {
        lemma_comment_end(c.skip(1));
        assert forall|j: int| #![trigger c.skip(j + 1)]
            0 <= j < c.len() && c[j] == '\n' && (forall|k: int| 0 <= k < j ==> c[k] != '\n')
                implies after_comment(c) == c.skip(j + 1) by {
            assert(j > 0);
            let d = c.skip(1);
            assert(d[j - 1] == '\n');
            assert forall|k: int| 0 <= k < j - 1 implies d[k] != '\n' by {
                assert(d[k] == c[k + 1]);
            }
            assert(d.skip(j) =~= c.skip(j + 1));
        }
        if forall|j: int| 0 <= j < c.len() ==> c[j] != '\n' {
            assert forall|j: int| 0 <= j < c.skip(1).len() implies c.skip(1)[j] != '\n' by {
                assert(c.skip(1)[j] == c[j + 1]);
            }
        }
    }
}

/// A measure that every step that reads a token decreases.
pub open spec fn pot(s: LexState) -> int {
    s.current.column + 3 * s.chars.len()
}

/// Positions and indentation stay `slack` below the largest `usize` while lexing from `s`.
pub open spec fn bounded(s: LexState, slack: int) -> bool {
    &&& pot(s) + slack <= usize::MAX
    &&& s.current.line + s.chars.len() + 2 <= usize::MAX
    &&& 2 * s.indent + 2 * s.chars.len() + 2 <= usize::MAX
}

/// Positions and indentation cannot overflow while lexing from `s`.
pub open spec fn within_bounds(s: LexState) -> bool {
    bounded(s, 4)
}

/// How lexing from `s` to `s2` can change the measures of `bounded`: `pot` grows by at most
/// `extra`, and drops by `gain` when a token was read.
pub open spec fn advances_by(s: LexState, s2: LexState, produced: bool, extra: int, gain: int) -> bool {
    &&& pot(s2) <= pot(s) + extra
    &&& s2.current.line + s2.chars.len() <= s.current.line + s.chars.len()
    &&& s2.chars.len() <= s.chars.len()
    &&& s2.indent == s.indent
    &&& produced ==> s2.chars.len() < s.chars.len() && pot(s2) + gain <= pot(s)
}

/// How a step can change the measures of `within_bounds`.
pub open spec fn advances(s: LexState, s2: LexState, produced: bool) -> bool {
    advances_by(s, s2, produced, 1, 1)
}

/// The state of a lexer at the start of `source`.
pub open spec fn initial_state(source: Seq<char>) -> LexState {
    LexState {
        chars: source,
        ok: true,
        current: Position { line: 1, column: 0 },
        indent: 0,
        after_newline: true,
    }
}

pub open spec fn opt_token_view(t: Option<Token>) -> Option<TokenView> {
    match t {
        Some(t) => Some(t.model()),
        None => None,
    }
}

/// Reads tokens from the characters of a source text.
#[derive(Debug)]
pub struct Lexer {
    chars: MultiPeek<IntoIter<char>>,
    ok: bool,
    current: Position,
    indent_level: usize,
    after_newline: bool,
}


/// The data of the keyword or identifier spelled by `word`.
fn keyword_data(word: String) -> (d: TokenData)
    ensures
        d.model() == keyword(word@),
{
    if crate::ast::is_word(&word, "Prop") {
        TokenData::Prop
    } else if crate::ast::is_word(&word, "Proof") {
        TokenData::Proof
    } else if crate::ast::is_word(&word, "infer") {
        TokenData::Infer
    } else if crate::ast::is_word(&word, "Top") {
        TokenData::Top
    } else if crate::ast::is_word(&word, "Bot") {
        TokenData::Bot
    } else {
        TokenData::Identifier(word)
    }
}

proof fn lemma_tokens_view_push(s: Seq<Token>, t: Token)
    ensures
        tokens_view(s.push(t)) == tokens_view(s).push(t.model()),
{
    assert(s.push(t).drop_last() =~= s);
}

impl Lexer {
    /// The state of the lexer.
    pub closed spec fn state(&self) -> LexState {
        LexState {
            chars: char_stream(self.chars),
            ok: self.ok,
            current: self.current,
            indent: self.indent_level,
            after_newline: self.after_newline,
        }
    }

    fn token(&self, data: TokenData) -> (t: Token)
        ensures
            t.data == data,
            t.pos == self.current,
    {
        Token { data, pos: self.current }
    }

    fn new_line(&mut self)
        requires
            old(self).current.line + 1 <= usize::MAX,
        ensures
            final(self).current == next_line(old(self).current),
            final(self).chars == old(self).chars,
            final(self).ok == old(self).ok,
            final(self).indent_level == old(self).indent_level,
            final(self).after_newline == old(self).after_newline,
    {
        self.current.column = 0;
        self.current.line = self.current.line + 1;
    }

    /// Reads the rest of an identifier or keyword that starts with `start`.
    fn identifier(&mut self, start: char) -> (t: Token)
        requires
            old(self).current.column + char_stream(old(self).chars).len() <= usize::MAX,
        ensures
            ({
                let k = ident_len(char_stream(old(self).chars));
                &&& t.model() == tok(
                    keyword(seq![start] + char_stream(old(self).chars).take(k as int)),
                    old(self).current,
                )
                &&& final(self).state() == set_pos(
                    set_chars(old(self).state(), char_stream(old(self).chars).skip(k as int)),
                    Position {
                        line: old(self).current.line,
                        column: (old(self).current.column + k) as usize,
                    },
                )
            }),
    {
        let ghost orig = char_stream(self.chars);
        let mut content: Vec<char> = Vec::new();
        content.push(start);
        let start_position = self.current;
        let mut taken: usize = 0;
        loop
            invariant
                taken <= orig.len(),
                char_stream(self.chars) == orig.skip(taken as int),
                content@ == seq![start] + orig.take(taken as int),
                ident_len(orig) == taken + ident_len(char_stream(self.chars)),
                self.current.column == start_position.column + taken,
                self.current.line == start_position.line,
                start_position == old(self).current,
                start_position.column + orig.len() <= usize::MAX,
                self.ok == old(self).ok,
                self.indent_level == old(self).indent_level,
                self.after_newline == old(self).after_newline,
                orig == char_stream(old(self).chars),
            ensures
                ident_len(char_stream(self.chars)) == 0,
                char_stream(self.chars) == orig.skip(taken as int),
                content@ == seq![start] + orig.take(taken as int),
                ident_len(orig) == taken,
                self.current.column == start_position.column + taken,
                self.current.line == start_position.line,
                self.ok == old(self).ok,
                self.indent_level == old(self).indent_level,
                self.after_newline == old(self).after_newline,
            decreases orig.len() - taken,
        {
            let p = peek_char(&mut self.chars);
            let more = match p {
                Some(ch) => is_alphanumeric(ch) || ch == '_',
                None => false,
            };
            if !more {
                break;
            }
            self.current.column = self.current.column + 1;
            let c = next_char(&mut self.chars);
            let ch = c.unwrap();
            content.push(ch);
            proof {
                assert(orig.skip(taken as int).skip(1) =~= orig.skip(taken + 1));
                assert(content@ =~= seq![start] + orig.take(taken + 1));
            }
            taken = taken + 1;
        }
        let word = string_from_chars(&content);
        let data = keyword_data(word);
        Token { data, pos: start_position }
    }

    /// Skips the rest of a comment, up to and including the line break that ends it.
    fn skip_comment(&mut self)
        ensures
            final(self).state() == set_chars(old(self).state(), after_comment(char_stream(old(self).chars))),
    {
        let ghost s2 = self.state();
        loop
            invariant_except_break
                after_comment(char_stream(self.chars)) == after_comment(s2.chars),
            invariant
                char_stream(self.chars).len() <= s2.chars.len(),
                self.current == s2.current,
                self.ok == s2.ok,
                self.indent_level == s2.indent,
                self.after_newline == s2.after_newline,
                s2 == old(self).state(),
            ensures
                char_stream(self.chars) == after_comment(s2.chars),
            decreases char_stream(self.chars).len(),
        {
            let ghost before = char_stream(self.chars);
            let c = next_char(&mut self.chars);
            match c {
                Some('\n') => {
                    break;
                },
                None => {
                    break;
                },
                _ => {},
            }
        }
    }

    /// Reads the next token of the block being read: `Some(None)` at its end or on an error,
    /// and `None` where the lexer meets a character that ends a block which it is not reading
    /// (`}`, or `)` after an indentation), a case that it treats as unreachable.
    #[verifier::loop_isolation(false)]
    #[verifier::rlimit(50)]
    pub fn try_next(&mut self) -> (r: Option<Option<Token>>)
        requires
            within_bounds(old(self).state()),
        ensures
            r is None <==> spec_next(old(self).state()) is None,
            r matches Some(t) ==> spec_next(old(self).state()) == Some(
                (final(self).state(), opt_token_view(t)),
            ) && advances(old(self).state(), final(self).state(), t is Some),
        decreases old(self).state().chars.len(), 1nat,
    {
        self.current.column = self.current.column + 1;
        let ghost s = self.state();
        if let Some(')') = peek_char(&mut self.chars) {
            return Some(None);
        }
        if self.after_newline {
            let w = self.indent_level * 2;
            let mut i: usize = 0;
            while i < w
                invariant
                    i <= w,
                    w == 2 * s.indent,
                    self.state() == s,
                    forall|j: int| 0 <= j < i ==> j < s.chars.len() && s.chars[j] == ' ',
                decreases w - i,
            {
                match peek_nth_char(&mut self.chars, i) {
                    None => {
                        return Some(None);
                    },
                    Some(c) => {
                        if c != ' ' {
                            return Some(None);
                        }
                    },
                }
                i = i + 1;
            }
            assert(indented(s.chars, w as int)) by {
                if w > 0 {
                    assert(s.chars[w - 1] == ' ');
                }
            }
            assert(s.chars.skip(0) =~= s.chars);
            let mut i: usize = 0;
            while i < w
                invariant
                    i <= w,
                    w == 2 * s.indent,
                    indented(s.chars, w as int),
                    self.state() == set_chars(s, s.chars.skip(i as int)),
                decreases w - i,
            {
                let _ = next_char(&mut self.chars);
                proof {
                    assert(s.chars.skip(i as int).skip(1) =~= s.chars.skip(i + 1));
                }
                i = i + 1;
            }
            let ghost s2 = self.state();
            match peek_char(&mut self.chars) {
                None => {
                    return Some(None);
                },
                Some(c) => {
                    if c == ' ' {
                        let _ = next_char(&mut self.chars);
                        let ghost s3 = self.state();
                        let mut sub = Lexer {
                            chars: clone_chars(&self.chars),
                            current: self.current,
                            ok: true,
                            indent_level: self.indent_level + 1,
                            after_newline: false,
                        };
                        assert(sub.state() == sub_state(s3.chars, s3.current, (s3.indent + 1) as usize));
                        let res = sub.lex_all();
                        match res {
                            None => {
                                return None;
                            },
                            Some(Some(tokens)) => {
                                self.current = sub.current;
                                self.chars = sub.chars;
                                let t = Token { data: TokenData::IndentBlock(tokens), pos: self.current };
                                return Some(Some(t));
                            },
                            Some(None) => {
                                self.ok = false;
                                return Some(None);
                            },
                        }
                    }
                },
            }
        }
        self.after_indent()
    }

    /// The rest of a step, once the indentation of a line has been read.
    fn after_indent(&mut self) -> (r: Option<Option<Token>>)
        requires
            bounded(old(self).state(), 3),
        ensures
            r is None <==> spec_after_indent(old(self).state()) is None,
            r matches Some(t) ==> spec_after_indent(old(self).state()) == Some(
                (final(self).state(), opt_token_view(t)),
            ) && advances_by(old(self).state(), final(self).state(), t is Some, 0, 2),
        decreases char_stream(old(self).chars).len(), 0nat,
    {
        self.after_newline = false;
        let ch = match next_char(&mut self.chars) {
            None => {
                return Some(None);
            },
            Some(c) => c,
        };
        let ghost s1 = self.state();
        if ch == '(' {
            let mut sub = Lexer {
                chars: clone_chars(&self.chars),
                current: self.current,
                ok: true,
                indent_level: self.indent_level,
                after_newline: false,
            };
            assert(sub.state() == sub_state(s1.chars, s1.current, s1.indent));
            let res = sub.lex_all();
            match res {
                None => None,
                Some(Some(tokens)) => {
                    self.current = sub.current;
                    self.chars = sub.chars;
                    match next_char(&mut self.chars) {
                        Some(')') => Some(Some(self.token(TokenData::ParenBlock(tokens)))),
                        _ => {
                            self.ok = false;
                            Some(None)
                        },
                    }
                },
                Some(None) => {
                    self.ok = false;
                    Some(None)
                },
            }
        } else if ch == ')' || ch == '}' {
            None
        } else if ch == ':' {
            Some(Some(self.token(TokenData::Colon)))
        } else if ch == ',' {
            Some(Some(self.token(TokenData::Comma)))
        } else if ch == '|' {
            Some(Some(self.token(TokenData::Pipe)))
        } else if ch == '~' {
            Some(Some(self.token(TokenData::Tilde)))
        } else if ch == '.' {
            Some(Some(self.token(TokenData::Dot)))
        } else if ch == '=' || ch == '-' {
            match peek_char(&mut self.chars) {
                Some('>') => {
                    self.current.column = self.current.column + 1;
                    let _ = next_char(&mut self.chars);
                    if ch == '=' {
                        Some(Some(self.token(TokenData::FatArrow)))
                    } else {
                        Some(Some(self.token(TokenData::ThinArrow)))
                    }
                },
                _ => {
                    self.ok = false;
                    Some(None)
                },
            }
        } else if ch == '/' {
            match peek_char(&mut self.chars) {
                Some('/') => {
                    self.current.column = self.current.column + 1;
                    let _ = next_char(&mut self.chars);
                    let ghost s2 = self.state();
                    self.skip_comment();
                    proof {
                        lemma_after_comment_len(s2.chars);
                    }
                    self.new_line();
                    self.try_next()
                },
                _ => {
                    self.ok = false;
                    Some(None)
                },
            }
        } else if ch == '\n' {
            self.new_line();
            self.after_newline = true;
            Some(Some(self.token(TokenData::NewLine)))
        } else if ch == ' ' || ch == '\t' {
            self.try_next()
        } else if is_alphabetic(ch) || ch == '_' {
            proof {
                lemma_ident_len(s1.chars);
            }
            Some(Some(self.identifier(ch)))
        } else {
            self.ok = false;
            Some(None)
        }
    }

    /// Steps until a step reads no token. `Some(Some(tokens))` when no error was met,
    /// `Some(None)` otherwise, and `None` where a step stops on a character that ends no block
    /// being read.
    fn lex_all(&mut self) -> (r: Option<Option<Vec<Token>>>)
        requires
            within_bounds(old(self).state()),
        ensures
            r is None <==> spec_lex(old(self).state()) is None,
            r matches Some(toks) ==> spec_lex(old(self).state()) == Some(
                (
                    final(self).state(),
                    match toks {
                        Some(v) => Some(tokens_view(v@)),
                        None => None,
                    },
                ),
            ) && advances(old(self).state(), final(self).state(), false),
        decreases char_stream(old(self).chars).len(), 2nat,
    {
        let ghost s0 = self.state();
        let mut tokens: Vec<Token> = Vec::new();
        loop
            invariant_except_break
                within_bounds(self.state()),
                spec_lex_from(s0, Seq::empty()) == spec_lex_from(self.state(), tokens_view(tokens@)),
                pot(self.state()) <= pot(s0),
                self.state().current.line + self.state().chars.len() <= s0.current.line + s0.chars.len(),
                self.state().chars.len() <= s0.chars.len(),
            invariant
                self.state().indent == s0.indent,
                s0 == old(self).state(),
            ensures
                spec_lex_from(s0, Seq::empty()) == Some((self.state(), tokens_view(tokens@))),
                advances(s0, self.state(), false),
            decreases char_stream(self.chars).len(),
        {
            let ghost before = self.state();
            let step = self.try_next();
            match step {
                None => {
                    return None;
                },
                Some(None) => {
                    break;
                },
                Some(Some(t)) => {
                    proof {
                        lemma_tokens_view_push(tokens@, t);
                    }
                    tokens.push(t);
                },
            }
        }
        if self.ok {
            Some(Some(tokens))
        } else {
            Some(None)
        }
    }

    /// A lexer at the start of `source`.
    pub fn new(source: &str) -> (r: Lexer)
        ensures
            r.state() == initial_state(source@),
    {
        Lexer {
            chars: multipeek_chars(chars_of(source)),
            current: Position { line: 1, column: 0 },
            ok: true,
            indent_level: 0,
            after_newline: true,
        }
    }

    /// Whether `source` is short enough for positions never to overflow while it is read.
    pub fn source_fits(source: &str) -> (r: bool)
        ensures
            r == within_bounds(initial_state(source@)),
    {
        let n = chars_of(source).len();
        n <= (usize::MAX - 4) / 3
    }

    /// Reads all the tokens of the source, nested in blocks. `Some(None)` when the source holds a
    /// character that starts no token or an unclosed parenthesis, and `None` where the lexer
    /// meets a character that ends a block which it is not reading (`}`, or `)` after an
    /// indentation).
    pub fn try_lex(&mut self) -> (r: Option<Option<Vec<Token>>>)
        requires
            within_bounds(old(self).state()),
        ensures
            r is None <==> spec_lex(old(self).state()) is None,
            r matches Some(toks) ==> spec_lex(old(self).state()) matches Some((s, t)) && s
                == final(self).state() && t == match toks {
                Some(v) => Some(tokens_view(v@)),
                None => None,
            },
    {
        self.lex_all()
    }

    /// Reads all the tokens of the source, nested in blocks; `None` when the source holds a
    /// character that starts no token or an unclosed parenthesis.
    pub fn lex(&mut self) -> (r: Option<Vec<Token>>)
        requires
            within_bounds(old(self).state()),
            spec_lex(old(self).state()) is Some,
        ensures
            spec_lex(old(self).state()) matches Some((s, t)) && s == final(self).state() && t
                == match r {
                Some(v) => Some(tokens_view(v@)),
                None => None,
            },
    {
        match self.lex_all() {
            Some(r) => r,
            None => {
                proof {
                    assert(false);
                }
                None
            },
        }
    }

    /// Reads the next token of the block being read; `None` at its end or on an error.
    pub fn next(&mut self) -> (r: Option<Token>)
        requires
            within_bounds(old(self).state()),
            spec_next(old(self).state()) is Some,
        ensures
            spec_next(old(self).state()) == Some((final(self).state(), opt_token_view(r))),
    {
        match self.try_next() {
            Some(t) => t,
            None => {
                proof {
                    assert(false);
                }
                None
            },
        }
    }
}

} // verus!
