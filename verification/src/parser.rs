use vstd::prelude::*;

use multipeek::MultiPeek;
use std::vec::IntoIter;

use crate::ast::{
    Formula, FormulaView, Program, Proof, ProofView, Statement, StatementView, args_view,
    formulas_view, proofs_view,
};
use crate::lexer::{Token, TokenData as TD};
use crate::stream::{multipeek_tokens, next_token, peek_token, token_stream};

verus! {

/// Leading line breaks dropped.
pub open spec fn sp_newlines(ts: Seq<Token>) -> Seq<Token>
    decreases ts.len(),
{
    if ts.len() > 0 && ts[0].data is NewLine {
        sp_newlines(ts.skip(1))
    } else {
        ts
    }
}

/// The number of tokens in `t`, counting those inside its blocks.
pub open spec fn token_size(t: Token) -> nat
    decreases t,
{
    1 + match t.data {
        TD::ParenBlock(v) => tsize(v@),
        TD::IndentBlock(v) => tsize(v@),
        _ => 0,
    }
}

/// The number of tokens in `ts`, counting those inside blocks.
pub open spec fn tsize(ts: Seq<Token>) -> nat
    decreases ts,
{
    if ts.len() == 0 {
        0
    } else {
        token_size(ts[0]) + tsize(ts.skip(1))
    }
}

pub proof fn lemma_tsize_skip(ts: Seq<Token>)
    requires
        ts.len() > 0,
    ensures
        tsize(ts.skip(1)) < tsize(ts),
        match ts[0].data {
            TD::ParenBlock(v) => tsize(v@) < tsize(ts),
            TD::IndentBlock(v) => tsize(v@) < tsize(ts),
            _ => true,
        },
{
    assert(tsize(ts) == token_size(ts[0]) + tsize(ts.skip(1)));
    let t = ts[0];
    assert(token_size(t) == 1 + match t.data {
        TD::ParenBlock(v) => tsize(v@),
        TD::IndentBlock(v) => tsize(v@),
        _ => 0,
    });
}

pub proof fn lemma_newlines(ts: Seq<Token>)
    ensures
        tsize(sp_newlines(ts)) <= tsize(ts),
        sp_newlines(sp_newlines(ts)) == sp_newlines(ts),
        sp_newlines(ts).len() > 0 ==> !(sp_newlines(ts)[0].data is NewLine),
    decreases ts.len(),
{
    if ts.len() > 0 && ts[0].data is NewLine {
        lemma_tsize_skip(ts);
        lemma_newlines(ts.skip(1));
    }
}

pub proof fn lemma_newlines_len(ts: Seq<Token>)
    ensures
        sp_newlines(ts).len() <= ts.len(),
    decreases ts.len(),
{
    if ts.len() > 0 && ts[0].data is NewLine {
        lemma_newlines_len(ts.skip(1));
    }
}

/// Only line breaks are left.
pub open spec fn sp_assert_empty(ts: Seq<Token>) -> bool {
    forall|i: int| 0 <= i < ts.len() ==> (#[trigger] ts[i]).data is NewLine
}

/// An atom: `Top`, `Bot`, a variable, a negation `~` of an atom, or a parenthesized formula.
pub open spec fn sp_primary(ts: Seq<Token>) -> Option<(FormulaView, Seq<Token>)>
    decreases tsize(ts), 0nat,
{
    if ts.len() == 0 {
        None
    } else {
        let rest = ts.skip(1);
        proof {
            lemma_tsize_skip(ts);
        }
        match ts[0].data {
            TD::Top => Some((FormulaView::Top, rest)),
            TD::Bot => Some((FormulaView::Bot, rest)),
            TD::Identifier(n) => Some((FormulaView::Var(n@), rest)),
            TD::Tilde => match sp_primary(rest) {
                Some((f, r)) => Some((FormulaView::Not(Box::new(f)), r)),
                None => None,
            },
            TD::ParenBlock(inner) => match sp_formula(inner@) {
                Some((f, _)) => Some((f, rest)),
                None => None,
            },
            _ => None,
        }
    }
}

/// Implications, grouped to the right.
pub open spec fn sp_implication(ts: Seq<Token>) -> Option<(FormulaView, Seq<Token>)>
    decreases tsize(ts), 1nat,
{
    match sp_primary(ts) {
        None => None,
        Some((left, r1)) => if r1.len() > 0 && r1[0].data is ThinArrow {
            let r2 = r1.skip(1);
            if tsize(r2) < tsize(ts) {
                match sp_implication(r2) {
                    Some((right, r3)) => Some(
                        (FormulaView::Imp(Box::new(left), Box::new(right)), r3),
                    ),
                    None => None,
                }
            } else {
                None
            }
        } else {
            Some((left, r1))
        },
    }
}

/// Conjunctions (`.`), grouped to the right.
pub open spec fn sp_conjunction(ts: Seq<Token>) -> Option<(FormulaView, Seq<Token>)>
    decreases tsize(ts), 2nat,
{
    match sp_implication(ts) {
        None => None,
        Some((left, r1)) => if r1.len() > 0 && r1[0].data is Dot {
            let r2 = r1.skip(1);
            if tsize(r2) < tsize(ts) {
                match sp_conjunction(r2) {
                    Some((right, r3)) => Some(
                        (FormulaView::And(Box::new(left), Box::new(right)), r3),
                    ),
                    None => None,
                }
            } else {
                None
            }
        } else {
            Some((left, r1))
        },
    }
}

/// Disjunctions (`|`), grouped to the right.
pub open spec fn sp_formula(ts: Seq<Token>) -> Option<(FormulaView, Seq<Token>)>
    decreases tsize(ts), 3nat,
{
    match sp_conjunction(ts) {
        None => None,
        Some((left, r1)) => if r1.len() > 0 && r1[0].data is Pipe {
            let r2 = r1.skip(1);
            if tsize(r2) < tsize(ts) {
                match sp_formula(r2) {
                    Some((right, r3)) => Some(
                        (FormulaView::Or(Box::new(left), Box::new(right)), r3),
                    ),
                    None => None,
                }
            } else {
                None
            }
        } else {
            Some((left, r1))
        },
    }
}

/// The formula that a one-token atom stands for: a variable, `Top` or `Bot`.
pub open spec fn atom(t: Token) -> Option<FormulaView> {
    match t.data {
        TD::Identifier(n) => Some(FormulaView::Var(n@)),
        TD::Top => Some(FormulaView::Top),
        TD::Bot => Some(FormulaView::Bot),
        _ => None,
    }
}

/// How tightly a binary connective token binds: `->` tightest, then `.`, then `|`; `0` for any
/// other token.
pub open spec fn binds(t: Token) -> nat {
    match t.data {
        TD::ThinArrow => 3,
        TD::Dot => 2,
        TD::Pipe => 1,
        _ => 0,
    }
}

/// The formula that the connective token `t` makes of `a` and `b`.
pub open spec fn connect(t: Token, a: FormulaView, b: FormulaView) -> FormulaView {
    match t.data {
        TD::ThinArrow => FormulaView::Imp(Box::new(a), Box::new(b)),
        TD::Dot => FormulaView::And(Box::new(a), Box::new(b)),
        _ => FormulaView::Or(Box::new(a), Box::new(b)),
    }
}

proof fn lemma_tsize_flat(ts: Seq<Token>)
    requires
        forall|i: int| 0 <= i < ts.len() ==> !(#[trigger] ts[i].data is ParenBlock) && !(ts[i].data is IndentBlock),
    ensures
        tsize(ts) == ts.len(),
    decreases ts.len(),
{
    if ts.len() > 0 {
        assert forall|i: int| 0 <= i < ts.skip(1).len() implies !(#[trigger] ts.skip(1)[i].data is ParenBlock)
            && !(ts.skip(1)[i].data is IndentBlock) by {
            assert(ts.skip(1)[i] == ts[i + 1]);
        }
        lemma_tsize_flat(ts.skip(1));
        let t = ts[0];
        assert(!(t.data is ParenBlock) && !(t.data is IndentBlock));
        assert(token_size(t) == 1);
    }
}

/// An atom read alone is that atom.
proof fn lemma_atom_alone(x: Token)
    requires
        atom(x) is Some,
    ensures
        sp_primary(seq![x]) == Some((atom(x)->0, Seq::<Token>::empty())),
        sp_implication(seq![x]) == Some((atom(x)->0, Seq::<Token>::empty())),
        sp_conjunction(seq![x]) == Some((atom(x)->0, Seq::<Token>::empty())),
        sp_formula(seq![x]) == Some((atom(x)->0, Seq::<Token>::empty())),
{
    assert(seq![x].skip(1) =~= Seq::<Token>::empty());
    assert(seq![x][0] == x);
}

/// Negation binds tightest: `~A op B`, for atoms `A` and `B` and a binary connective `op`, is
/// read as `(~A) op B`.
pub proof fn law_negation_binds_tightest(n: Token, x: Token, o: Token, y: Token)
    requires
        n.data is Tilde,
        atom(x) is Some,
        atom(y) is Some,
        binds(o) > 0,
    ensures
        sp_formula(seq![n, x, o, y]) == Some((
            connect(o, FormulaView::Not(Box::new(atom(x)->0)), atom(y)->0),
            Seq::<Token>::empty(),
        )),
{
    let ts = seq![n, x, o, y];
    let ny = FormulaView::Not(Box::new(atom(x)->0));
    lemma_tsize_flat(ts);
    lemma_tsize_flat(seq![y]);
    lemma_atom_alone(y);
    assert(ts[0] == n);
    assert(ts.skip(1) =~= seq![x, o, y]);
    assert(seq![x, o, y][0] == x);
    assert(seq![x, o, y].skip(1) =~= seq![o, y]);
    assert(seq![o, y][0] == o);
    assert(seq![o, y].skip(1) =~= seq![y]);
    assert(sp_primary(seq![x, o, y]) == Some((atom(x)->0, seq![o, y])));
    assert(sp_primary(ts) == Some((ny, seq![o, y])));
    let e = Seq::<Token>::empty();
    let yv = atom(y)->0;
    match o.data {
        TD::ThinArrow => {
            assert(sp_implication(ts) == Some((connect(o, ny, yv), e)));
            assert(sp_conjunction(ts) == Some((connect(o, ny, yv), e)));
        },
        TD::Dot => {
            assert(sp_implication(ts) == Some((ny, seq![o, y])));
            assert(sp_conjunction(ts) == Some((connect(o, ny, yv), e)));
        },
        _ => {
            assert(sp_implication(ts) == Some((ny, seq![o, y])));
            assert(sp_conjunction(ts) == Some((ny, seq![o, y])));
        },
    }
}

/// Precedence and grouping: `A op1 B op2 C`, for atoms and binary connectives, groups `A op1 B`
/// first where `op1` binds tighter than `op2`, and `B op2 C` first otherwise (each connective
/// groups to the right).
pub proof fn law_connective_precedence(x: Token, o1: Token, y: Token, o2: Token, z: Token)
    requires
        atom(x) is Some,
        atom(y) is Some,
        atom(z) is Some,
        binds(o1) > 0,
        binds(o2) > 0,
    ensures
        sp_formula(seq![x, o1, y, o2, z]) == Some((
            if binds(o1) > binds(o2) {
                connect(o2, connect(o1, atom(x)->0, atom(y)->0), atom(z)->0)
            } else {
                connect(o1, atom(x)->0, connect(o2, atom(y)->0, atom(z)->0))
            },
            Seq::<Token>::empty(),
        )),
{
    let ts = seq![x, o1, y, o2, z];
    let t1 = seq![o1, y, o2, z];
    let t2 = seq![y, o2, z];
    let t3 = seq![o2, z];
    let e = Seq::<Token>::empty();
    let (xv, yv, zv) = (atom(x)->0, atom(y)->0, atom(z)->0);
    lemma_tsize_flat(ts);
    lemma_tsize_flat(t2);
    lemma_tsize_flat(seq![z]);
    lemma_atom_alone(z);
    assert(ts[0] == x && ts.skip(1) =~= t1);
    assert(t1[0] == o1 && t1.skip(1) =~= t2);
    assert(t2[0] == y && t2.skip(1) =~= t3);
    assert(t3[0] == o2 && t3.skip(1) =~= seq![z]);
    assert(sp_primary(ts) == Some((xv, t1)));
    assert(sp_primary(t2) == Some((yv, t3)));
    match o2.data {
        TD::ThinArrow => {
            assert(sp_implication(t2) == Some((connect(o2, yv, zv), e)));
            assert(sp_conjunction(t2) == Some((connect(o2, yv, zv), e)));
            assert(sp_formula(t2) == Some((connect(o2, yv, zv), e)));
        },
        TD::Dot => {
            assert(sp_implication(t2) == Some((yv, t3)));
            assert(sp_conjunction(t2) == Some((connect(o2, yv, zv), e)));
            assert(sp_formula(t2) == Some((connect(o2, yv, zv), e)));
        },
        _ => {
            assert(sp_implication(t2) == Some((yv, t3)));
            assert(sp_conjunction(t2) == Some((yv, t3)));
            assert(sp_formula(t2) == Some((connect(o2, yv, zv), e)));
        },
    }
    let (fi, ri) = sp_implication(t2)->0;
    let (fc, rc) = sp_conjunction(t2)->0;
    match o1.data {
        TD::ThinArrow => {
            assert(sp_implication(ts) == Some((connect(o1, xv, fi), ri)));
        },
        TD::Dot => {
            assert(sp_implication(ts) == Some((xv, t1)));
            assert(sp_conjunction(ts) == Some((connect(o1, xv, fc), rc)));
        },
        _ => {
            assert(sp_implication(ts) == Some((xv, t1)));
            assert(sp_conjunction(ts) == Some((xv, t1)));
        },
    }
}

/// A statement argument is a name, marked inferred when `infer` comes before it.
pub proof fn law_argument(i: Token, a: Token, rest: Seq<Token>)
    requires
        i.data is Infer,
        a.data is Identifier,
    ensures
        sp_arg(seq![a] + rest) == Some(((a.data->Identifier_0@, false), rest)),
        sp_arg(seq![i, a] + rest) == Some(((a.data->Identifier_0@, true), rest)),
{
    assert((seq![a] + rest)[0] == a);
    assert((seq![a] + rest).skip(1) =~= rest);
    assert((seq![i, a] + rest)[0] == i);
    assert((seq![i, a] + rest)[1] == a);
    assert((seq![i, a] + rest).skip(2) =~= rest);
}

/// A rule name followed by a line break is a proof step with no argument and no premise.
pub proof fn law_leaf_step(n: Token, nl: Token, rest: Seq<Token>)
    requires
        n.data is Identifier,
        nl.data is NewLine,
    ensures
        sp_proof(seq![n, nl] + rest) == Some((
            ProofView { name: n.data->Identifier_0@, args: Seq::empty(), children: Seq::empty() },
            rest,
        )),
{
    let ts = seq![n, nl] + rest;
    assert(ts[0] == n);
    assert(ts.skip(1)[0] == nl);
    assert(ts.skip(1).skip(1) =~= rest);
}

/// The rest of a list of formulas separated by commas, after its first element; with
/// `has_end`, a `=>` ends it.
pub open spec fn sp_flist_rest(ts: Seq<Token>, has_end: bool, acc: Seq<FormulaView>) -> Option<
    (Seq<FormulaView>, Seq<Token>),
>
    decreases tsize(ts),
{
    if ts.len() == 0 {
        Some((acc, ts))
    } else if ts[0].data is Comma {
        let t1 = sp_newlines(sp_newlines(ts.skip(1)));
        proof {
            lemma_tsize_skip(ts);
            lemma_newlines(ts.skip(1));
            lemma_newlines(sp_newlines(ts.skip(1)));
        }
        match sp_formula(t1) {
            None => None,
            Some((f, r)) => {
                let r2 = sp_newlines(r);
                if tsize(r2) < tsize(ts) {
                    sp_flist_rest(r2, has_end, acc.push(f))
                } else {
                    None
                }
            },
        }
    } else if has_end && ts[0].data is FatArrow {
        Some((acc, ts))
    } else {
        None
    }
}

/// A list of formulas separated by commas; with `has_end`, a `=>` ends it.
pub open spec fn sp_flist(ts: Seq<Token>, has_end: bool) -> Option<(Seq<FormulaView>, Seq<Token>)> {
    let t0 = sp_newlines(ts);
    if t0.len() == 0 {
        Some((Seq::empty(), t0))
    } else if t0[0].data is Comma {
        Some((Seq::empty(), sp_newlines(t0.skip(1))))
    } else if has_end && t0[0].data is FatArrow {
        Some((Seq::empty(), t0))
    } else {
        match sp_formula(t0) {
            None => None,
            Some((first, r1)) => sp_flist_rest(sp_newlines(r1), has_end, seq![first]),
        }
    }
}

/// An argument of a statement: a name, preceded by `infer` if it is inferred.
pub open spec fn sp_arg(ts: Seq<Token>) -> Option<((Seq<char>, bool), Seq<Token>)> {
    if ts.len() == 0 {
        None
    } else {
        match ts[0].data {
            TD::Infer => if ts.len() < 2 {
                None
            } else {
                match ts[1].data {
                    TD::Identifier(a) => Some(((a@, true), ts.skip(2))),
                    _ => None,
                }
            },
            TD::Identifier(a) => Some(((a@, false), ts.skip(1))),
            _ => None,
        }
    }
}

/// The rest of a list of arguments separated by commas, after its first element.
pub open spec fn sp_alist_rest(ts: Seq<Token>, acc: Seq<(Seq<char>, bool)>) -> Option<
    (Seq<(Seq<char>, bool)>, Seq<Token>),
>
    decreases ts.len(),
{
    if ts.len() == 0 {
        Some((acc, ts))
    } else if ts[0].data is Comma {
        let t1 = sp_newlines(sp_newlines(ts.skip(1)));
        match sp_arg(t1) {
            None => None,
            Some((a, r)) => {
                let r2 = sp_newlines(r);
                if r2.len() < ts.len() {
                    sp_alist_rest(r2, acc.push(a))
                } else {
                    None
                }
            },
        }
    } else {
        None
    }
}

/// A list of arguments separated by commas.
pub open spec fn sp_alist(ts: Seq<Token>) -> Option<(Seq<(Seq<char>, bool)>, Seq<Token>)> {
    let t0 = sp_newlines(ts);
    if t0.len() == 0 {
        Some((Seq::empty(), t0))
    } else if t0[0].data is Comma {
        Some((Seq::empty(), sp_newlines(t0.skip(1))))
    } else {
        match sp_arg(t0) {
            None => None,
            Some((first, r1)) => sp_alist_rest(sp_newlines(r1), seq![first]),
        }
    }
}

/// A proof tree: a rule name, optionally its arguments in parentheses, and its premises in an
/// indented block.
pub open spec fn sp_proof(ts: Seq<Token>) -> Option<(ProofView, Seq<Token>)>
    decreases tsize(ts), 1nat,
{
    if ts.len() == 0 {
        None
    } else {
        match ts[0].data {
            TD::Identifier(name) => {
                let r1 = ts.skip(1);
                proof {
                    lemma_tsize_skip(ts);
                }
                if r1.len() == 0 {
                    None
                } else {
                    let r2 = r1.skip(1);
                    proof {
                        lemma_tsize_skip(r1);
                    }
                    match r1[0].data {
                        TD::NewLine => Some(
                            (ProofView { name: name@, args: Seq::empty(), children: Seq::empty() }, r2),
                        ),
                        TD::Colon => sp_proof_body(name@, Seq::empty(), r2),
                        TD::ParenBlock(inner) => match sp_flist(inner@, false) {
                            None => None,
                            Some((args, _)) => if r2.len() == 0 || !(r2[0].data is Colon) {
                                None
                            } else {
                                proof {
                                    lemma_tsize_skip(r2);
                                }
                                sp_proof_body(name@, args, r2.skip(1))
                            },
                        },
                        _ => None,
                    }
                }
            },
            _ => None,
        }
    }
}

/// The premises of a proof tree: one token (meant to be a line break) and an indented block of
/// proof trees.
pub open spec fn sp_proof_body(name: Seq<char>, args: Seq<FormulaView>, ts: Seq<Token>) -> Option<
    (ProofView, Seq<Token>),
>
    decreases tsize(ts), 0nat,
{
    if ts.len() < 2 {
        None
    } else {
        let r = ts.skip(1);
        proof {
            lemma_tsize_skip(ts);
            lemma_tsize_skip(r);
        }
        match r[0].data {
            TD::IndentBlock(inner) => match sp_children(inner@, Seq::empty()) {
                None => None,
                Some((children, left)) => if sp_assert_empty(left) {
                    Some((ProofView { name, args, children }, r.skip(1)))
                } else {
                    None
                },
            },
            _ => None,
        }
    }
}

/// Proof trees, one after the other, while the next token is a name.
pub open spec fn sp_children(ts: Seq<Token>, acc: Seq<ProofView>) -> Option<(Seq<ProofView>, Seq<Token>)>
    decreases tsize(ts), 2nat,
{
    if ts.len() > 0 && ts[0].data is Identifier {
        match sp_proof(ts) {
            None => None,
            Some((p, r)) => if tsize(r) < tsize(ts) {
                sp_children(r, acc.push(p))
            } else {
                None
            },
        }
    } else {
        Some((acc, ts))
    }
}

/// A statement: `Prop name(args):`, an indented block `hypotheses => proposition`, then
/// `Proof:` and an indented block holding its proof tree.
pub open spec fn sp_statement(ts: Seq<Token>) -> Option<(StatementView, Seq<Token>)> {
    if ts.len() < 10 {
        None
    } else if !(ts[0].data is Prop) || !(ts[1].data is Identifier) || !(ts[2].data is ParenBlock)
        || !(ts[3].data is Colon) || !(ts[4].data is NewLine) || !(ts[5].data is IndentBlock) || !(
    ts[6].data is Proof) || !(ts[7].data is Colon) || !(ts[8].data is NewLine) || !(
    ts[9].data is IndentBlock) {
        None
    } else {
        let name = ts[1].data->Identifier_0@;
        let inner1 = ts[2].data->ParenBlock_0@;
        let inner2 = ts[5].data->IndentBlock_0@;
        let inner3 = ts[9].data->IndentBlock_0@;
        match sp_alist(sp_newlines(inner1)) {
            None => None,
            Some((args, left1)) => if !sp_assert_empty(left1) {
                None
            } else {
                match sp_flist(sp_newlines(inner2), true) {
                    None => None,
                    Some((context, left2)) => if left2.len() == 0 || !(left2[0].data is FatArrow) {
                        None
                    } else {
                        match sp_formula(left2.skip(1)) {
                            None => None,
                            Some((prop, left3)) => if !sp_assert_empty(left3) {
                                None
                            } else {
                                match sp_proof(inner3) {
                                    None => None,
                                    Some((proof_tree, left4)) => if !sp_assert_empty(left4) {
                                        None
                                    } else {
                                        Some(
                                            (
                                                StatementView {
                                                    name,
                                                    args,
                                                    context,
                                                    prop,
                                                    proof: proof_tree,
                                                },
                                                ts.skip(10),
                                            ),
                                        )
                                    },
                                }
                            },
                        }
                    },
                }
            },
        }
    }
}

/// The values of a sequence of statements.
pub open spec fn statements_view(s: Seq<Statement>) -> Seq<StatementView> {
    s.map_values(|st: Statement| st.model())
}

/// The statements of a program, after those in `acc`.
pub open spec fn sp_parse(ts: Seq<Token>, acc: Seq<StatementView>) -> Option<Seq<StatementView>>
    decreases ts.len(),
{
    let t = sp_newlines(ts);
    if t.len() == 0 {
        Some(acc)
    } else if t[0].data is Prop {
        match sp_statement(t) {
            None => None,
            Some((st, r)) => if r.len() < ts.len() {
                sp_parse(r, acc.push(st))
            } else {
                None
            },
        }
    } else {
        None
    }
}

/// Reads the statements of a program from its tokens.
#[derive(Debug)]
pub struct Parser {
    tokens: MultiPeek<IntoIter<Token>>,
}

impl Parser {
    pub closed spec fn rest(&self) -> Seq<Token> {
        token_stream(self.tokens)
    }

    pub fn new(tokens: Vec<Token>) -> (r: Parser)
        ensures
            r.rest() == tokens@,
    {
        Parser { tokens: multipeek_tokens(tokens) }
    }

    fn newlines(&mut self)
        ensures
            final(self).rest() == sp_newlines(old(self).rest()),
    {
        loop
            invariant
                sp_newlines(self.rest()) == sp_newlines(old(self).rest()),
            ensures
                self.rest() == sp_newlines(old(self).rest()),
            decreases self.rest().len(),
        {
            let is_newline = match peek_token(&mut self.tokens) {
                Some(Token { data: TD::NewLine, .. }) => true,
                _ => false,
            };
            if !is_newline {
                break;
            }
            let _ = next_token(&mut self.tokens);
        }
    }

    /// Reads the tokens that are left; `Some` when they are all line breaks.
    fn assert_empty(self) -> (r: Option<()>)
        ensures
            r is Some <==> sp_assert_empty(self.rest()),
    {
        let mut p = self;
        let ghost ts = p.rest();
        loop
            invariant
                ts == self.rest(),
                sp_assert_empty(ts) <==> sp_assert_empty(p.rest()),
            ensures
                sp_assert_empty(ts),
            decreases p.rest().len(),
        {
            let ghost before = p.rest();
            match next_token(&mut p.tokens) {
                None => {
                    break;
                },
                Some(t) => {
                    proof {
                        assert forall|i: int| 0 <= i < before.len() - 1 implies #[trigger] before.skip(1)[i] == before[i + 1] by {}
                        if sp_assert_empty(p.rest()) && t.data is NewLine {
                            assert forall|i: int| 0 <= i < before.len() implies (#[trigger] before[i]).data is NewLine by {
                                if i > 0 {
                                    assert(before[i] == before.skip(1)[i - 1]);
                                }
                            }
                        }
                    }
                    if !matches!(t.data, TD::NewLine) {
                        proof {
                            assert(!((before[0]).data is NewLine));
                        }
                        return None;
                    }
                },
            }
        }
        Some(())
    }

    /// An atom: `Top`, `Bot`, a variable, a negation `~` of an atom, or a parenthesized formula.
    fn primary(&mut self) -> (r: Option<Formula>)
        ensures
            match sp_primary(old(self).rest()) {
                None => r is None,
                Some((f, rest)) => r matches Some(x) && x@ == f && final(self).rest() == rest,
            },
            r is Some ==> tsize(final(self).rest()) < tsize(old(self).rest()),
        decreases tsize(old(self).rest()), 0nat,
    {
        let ghost ts = self.rest();
        proof {
            if ts.len() > 0 {
                lemma_tsize_skip(ts);
            }
        }
        let t = match next_token(&mut self.tokens) {
            None => {
                return None;
            },
            Some(t) => t,
        };
        match t.data {
            TD::Top => Some(Formula::Top),
            TD::Bot => Some(Formula::Bot),
            TD::Identifier(name) => Some(Formula::Var(name)),
            TD::Tilde => {
                let inner = self.primary()?;
                Some(Formula::Not(Box::new(inner)))
            },
            TD::ParenBlock(inner) => {
                let mut p = Parser::new(inner);
                let result = p.formula()?;
                let _ = p.assert_empty();
                Some(result)
            },
            _ => None,
        }
    }

    /// Implications, grouped to the right.
    fn implication(&mut self) -> (r: Option<Formula>)
        ensures
            match sp_implication(old(self).rest()) {
                None => r is None,
                Some((f, rest)) => r matches Some(x) && x@ == f && final(self).rest() == rest,
            },
            r is Some ==> tsize(final(self).rest()) < tsize(old(self).rest()),
        decreases tsize(old(self).rest()), 1nat,
    {
        let ghost ts = self.rest();
        let left = self.primary()?;
        let is_op = match peek_token(&mut self.tokens) {
            Some(t) => matches!(t.data, TD::ThinArrow),
            None => false,
        };
        if is_op {
            proof {
                lemma_tsize_skip(self.rest());
            }
            let _ = next_token(&mut self.tokens);
            let right = self.implication()?;
            Some(Formula::Imp(Box::new(left), Box::new(right)))
        } else {
            Some(left)
        }
    }

    /// Conjunctions (`.`), grouped to the right.
    fn conjunction(&mut self) -> (r: Option<Formula>)
        ensures
            match sp_conjunction(old(self).rest()) {
                None => r is None,
                Some((f, rest)) => r matches Some(x) && x@ == f && final(self).rest() == rest,
            },
            r is Some ==> tsize(final(self).rest()) < tsize(old(self).rest()),
        decreases tsize(old(self).rest()), 2nat,
    {
        let ghost ts = self.rest();
        let left = self.implication()?;
        let is_op = match peek_token(&mut self.tokens) {
            Some(t) => matches!(t.data, TD::Dot),
            None => false,
        };
        if is_op {
            proof {
                lemma_tsize_skip(self.rest());
            }
            let _ = next_token(&mut self.tokens);
            let right = self.conjunction()?;
            Some(Formula::And(Box::new(left), Box::new(right)))
        } else {
            Some(left)
        }
    }

    /// Disjunctions (`|`), grouped to the right.
    fn formula(&mut self) -> (r: Option<Formula>)
        ensures
            match sp_formula(old(self).rest()) {
                None => r is None,
                Some((f, rest)) => r matches Some(x) && x@ == f && final(self).rest() == rest,
            },
            r is Some ==> tsize(final(self).rest()) < tsize(old(self).rest()),
        decreases tsize(old(self).rest()), 3nat,
    {
        let ghost ts = self.rest();
        let left = self.conjunction()?;
        let is_op = match peek_token(&mut self.tokens) {
            Some(t) => matches!(t.data, TD::Pipe),
            None => false,
        };
        if is_op {
            proof {
                lemma_tsize_skip(self.rest());
            }
            let _ = next_token(&mut self.tokens);
            let right = self.formula()?;
            Some(Formula::Or(Box::new(left), Box::new(right)))
        } else {
            Some(left)
        }
    }

    /// Whether the next token is a comma, and whether it ends a list (a `=>` where `has_end`);
    /// `None` at the end of the tokens.
    fn list_delimiter(&mut self, has_end: bool) -> (r: Option<(bool, bool)>)
        ensures
            final(self).rest() == old(self).rest(),
            old(self).rest().len() == 0 ==> r is None,
            old(self).rest().len() > 0 ==> r == Some(
                (
                    old(self).rest()[0].data is Comma,
                    has_end && old(self).rest()[0].data is FatArrow,
                ),
            ),
    {
        match peek_token(&mut self.tokens) {
            None => None,
            Some(t) => Some((matches!(t.data, TD::Comma), has_end && matches!(t.data, TD::FatArrow))),
        }
    }

    /// A list of formulas separated by commas; with `has_end`, a `=>` ends it.
    fn formula_list(&mut self, has_end: bool) -> (r: Option<Vec<Formula>>)
        ensures
            match sp_flist(old(self).rest(), has_end) {
                None => r is None,
                Some((fs, rest)) => r matches Some(v) && formulas_view(v@) == fs && final(self).rest()
                    == rest,
            },
    {
        let ghost ts = self.rest();
        self.newlines();
        proof {
            lemma_newlines(ts);
        }
        let (is_sep, is_end) = match self.list_delimiter(has_end) {
            None => {
                return Some(Vec::new());
            },
            Some(d) => d,
        };
        if is_sep {
            let _ = next_token(&mut self.tokens);
            self.newlines();
            return Some(Vec::new());
        }
        if is_end {
            return Some(Vec::new());
        }
        let first = self.formula()?;
        let mut args: Vec<Formula> = Vec::new();
        args.push(first);
        let ghost after_first = self.rest();
        self.newlines();
        proof {
            lemma_newlines(after_first);
        }
        proof {
            assert(formulas_view(args@) =~= seq![first@]);
        }
        loop
            invariant
                ts == old(self).rest(),
                sp_flist(ts, has_end) == sp_flist_rest(self.rest(), has_end, formulas_view(args@)),
                sp_newlines(self.rest()) == self.rest(),
            ensures
                sp_flist(ts, has_end) == Some((formulas_view(args@), self.rest())),
            decreases tsize(self.rest()),
        {
            let ghost before = self.rest();
            let (is_sep, is_end) = match self.list_delimiter(has_end) {
                None => {
                    break;
                },
                Some(d) => d,
            };
            if is_sep {
                proof {
                    lemma_tsize_skip(before);
                    lemma_newlines(before.skip(1));
                    lemma_newlines(sp_newlines(before.skip(1)));
                }
                let _ = next_token(&mut self.tokens);
                self.newlines();
            } else if is_end {
                break;
            } else {
                return None;
            }
            self.newlines();
            let f = self.formula()?;
            let ghost before_args = args@;
            args.push(f);
            proof {
                assert(formulas_view(args@) =~= formulas_view(before_args).push(f@));
                lemma_newlines(self.rest());
            }
            self.newlines();
        }
        Some(args)
    }

    /// An argument of a statement: a name, preceded by `infer` if it is inferred.
    fn arg(&mut self) -> (r: Option<(String, bool)>)
        ensures
            match sp_arg(old(self).rest()) {
                None => r is None,
                Some((a, rest)) => r matches Some(x) && (x.0@, x.1) == a && final(self).rest() == rest,
            },
    {
        let t = match next_token(&mut self.tokens) {
            None => {
                return None;
            },
            Some(t) => t,
        };
        match t.data {
            TD::Infer => {
                let t2 = match next_token(&mut self.tokens) {
                    None => {
                        return None;
                    },
                    Some(t2) => t2,
                };
                proof {
                    assert(old(self).rest().skip(1).skip(1) =~= old(self).rest().skip(2));
                }
                if let TD::Identifier(arg) = t2.data {
                    Some((arg, true))
                } else {
                    None
                }
            },
            TD::Identifier(arg) => Some((arg, false)),
            _ => None,
        }
    }

    /// A list of arguments separated by commas.
    fn arg_list(&mut self) -> (r: Option<Vec<(String, bool)>>)
        ensures
            match sp_alist(old(self).rest()) {
                None => r is None,
                Some((a, rest)) => r matches Some(v) && args_view(v@) == a && final(self).rest() == rest,
            },
    {
        let ghost ts = self.rest();
        self.newlines();
        proof {
            lemma_newlines(ts);
        }
        let (is_sep, _) = match self.list_delimiter(false) {
            None => {
                return Some(Vec::new());
            },
            Some(d) => d,
        };
        if is_sep {
            let _ = next_token(&mut self.tokens);
            self.newlines();
            return Some(Vec::new());
        }
        let first = self.arg()?;
        let mut args: Vec<(String, bool)> = Vec::new();
        args.push(first);
        let ghost after_first = self.rest();
        self.newlines();
        proof {
            lemma_newlines(after_first);
        }
        proof {
            assert(args_view(args@) =~= seq![(first.0@, first.1)]);
        }
        loop
            invariant
                ts == old(self).rest(),
                sp_alist(ts) == sp_alist_rest(self.rest(), args_view(args@)),
                sp_newlines(self.rest()) == self.rest(),
            ensures
                sp_alist(ts) == Some((args_view(args@), self.rest())),
            decreases self.rest().len(),
        {
            let ghost before = self.rest();
            let (is_sep, _) = match self.list_delimiter(false) {
                None => {
                    break;
                },
                Some(d) => d,
            };
            if is_sep {
                let _ = next_token(&mut self.tokens);
                self.newlines();
            } else {
                return None;
            }
            self.newlines();
            let ghost mid = self.rest();
            let a = self.arg()?;
            let ghost before_args = args@;
            args.push(a);
            proof {
                assert(args_view(args@) =~= args_view(before_args).push((a.0@, a.1)));
                lemma_newlines(self.rest());
                lemma_newlines_len(before.skip(1));
                lemma_newlines_len(sp_newlines(before.skip(1)));
                lemma_newlines_len(self.rest());
            }
            self.newlines();
        }
        Some(args)
    }

    /// Whether the next token is a name.
    fn at_identifier(&mut self) -> (r: bool)
        ensures
            final(self).rest() == old(self).rest(),
            r == (old(self).rest().len() > 0 && old(self).rest()[0].data is Identifier),
    {
        match peek_token(&mut self.tokens) {
            Some(t) => matches!(t.data, TD::Identifier(_)),
            None => false,
        }
    }

    /// A proof tree: a rule name, optionally its arguments in parentheses, and its premises in an
    /// indented block.
    fn proof_tree(&mut self) -> (r: Option<Proof>)
        ensures
            match sp_proof(old(self).rest()) {
                None => r is None,
                Some((p, rest)) => r matches Some(x) && x.model() == p && final(self).rest() == rest,
            },
            r is Some ==> tsize(final(self).rest()) < tsize(old(self).rest()),
        decreases tsize(old(self).rest()), 1nat,
    {
        let ghost ts = self.rest();
        proof {
            if ts.len() > 0 {
                lemma_tsize_skip(ts);
                if ts.len() > 1 {
                    lemma_tsize_skip(ts.skip(1));
                }
            }
        }
        let t = match next_token(&mut self.tokens) {
            None => {
                return None;
            },
            Some(t) => t,
        };
        let name = match t.data {
            TD::Identifier(name) => name,
            _ => {
                return None;
            },
        };
        let t2 = match next_token(&mut self.tokens) {
            None => {
                return None;
            },
            Some(t2) => t2,
        };
        let args = match t2.data {
            TD::Colon => {
                let v: Vec<Formula> = Vec::new();
                proof {
                    assert(formulas_view(v@) =~= Seq::<FormulaView>::empty());
                }
                v
            },
            TD::ParenBlock(inner) => {
                let mut p = Parser::new(inner);
                let args = p.formula_list(false)?;
                let ghost r2 = self.rest();
                let t3 = match next_token(&mut self.tokens) {
                    None => {
                        return None;
                    },
                    Some(t3) => t3,
                };
                if !matches!(t3.data, TD::Colon) {
                    return None;
                }
                proof {
                    lemma_tsize_skip(r2);
                }
                args
            },
            TD::NewLine => {
                let p = Proof { name, args: Vec::new(), children: Vec::new() };
                proof {
                    assert(formulas_view(p.args@) =~= Seq::<FormulaView>::empty());
                    assert(proofs_view(p.children@) =~= Seq::<ProofView>::empty());
                }
                return Some(p);
            },
            _ => {
                return None;
            },
        };
        self.proof_body(name, args)
    }

    /// The premises of a proof tree: one token (meant to be a line break) and an indented block of
    /// proof trees.
    fn proof_body(&mut self, name: String, args: Vec<Formula>) -> (r: Option<Proof>)
        ensures
            match sp_proof_body(name@, formulas_view(args@), old(self).rest()) {
                None => r is None,
                Some((p, rest)) => r matches Some(x) && x.model() == p && final(self).rest() == rest,
            },
            r is Some ==> tsize(final(self).rest()) < tsize(old(self).rest()),
        decreases tsize(old(self).rest()), 0nat,
    {
        let ghost ts = self.rest();
        proof {
            if ts.len() > 1 {
                lemma_tsize_skip(ts);
                lemma_tsize_skip(ts.skip(1));
            }
        }
        if next_token(&mut self.tokens).is_none() {
            return None;
        }
        let t = match next_token(&mut self.tokens) {
            None => {
                return None;
            },
            Some(t) => t,
        };
        let inner = match t.data {
            TD::IndentBlock(inner) => inner,
            _ => {
                return None;
            },
        };
        let mut p = Parser::new(inner);
        let children = p.children()?;
        if p.assert_empty().is_none() {
            return None;
        }
        Some(Proof { name, args, children })
    }

    /// Proof trees, one after the other, while the next token is a name.
    fn children(&mut self) -> (r: Option<Vec<Proof>>)
        ensures
            match sp_children(old(self).rest(), Seq::empty()) {
                None => r is None,
                Some((ps, rest)) => r matches Some(v) && proofs_view(v@) == ps && final(self).rest()
                    == rest,
            },
        decreases tsize(old(self).rest()), 2nat,
    {
        let mut children: Vec<Proof> = Vec::new();
        let ghost ts = self.rest();
        proof {
            assert(proofs_view(children@) =~= Seq::<ProofView>::empty());
        }
        loop
            invariant
                ts == old(self).rest(),
                tsize(self.rest()) <= tsize(ts),
                sp_children(ts, Seq::empty()) == sp_children(self.rest(), proofs_view(children@)),
            ensures
                sp_children(ts, Seq::empty()) == Some((proofs_view(children@), self.rest())),
            decreases tsize(self.rest()),
        {
            if !self.at_identifier() {
                break;
            }
            let p = self.proof_tree()?;
            proof {
                assert(children@.push(p).drop_last() =~= children@);
            }
            children.push(p);
        }
        Some(children)
    }

    /// Reads the next token.
    fn take(&mut self) -> (r: Option<Token>)
        ensures
            old(self).rest().len() > 0 ==> r == Some(old(self).rest()[0]) && final(self).rest()
                == old(self).rest().skip(1),
            old(self).rest().len() == 0 ==> r is None,
    {
        next_token(&mut self.tokens)
    }

    /// A statement: `Prop name(args):`, an indented block `hypotheses => proposition`, then
    /// `Proof:` and an indented block holding its proof tree.
    fn statement(&mut self) -> (r: Option<Statement>)
        ensures
            match sp_statement(old(self).rest()) {
                None => r is None,
                Some((st, rest)) => r matches Some(x) && x.model() == st && final(self).rest() == rest,
            },
    {
        let ghost ts = self.rest();
        let t = match self.take() { Some(t) => t, None => { return None; } };
        if !matches!(t.data, TD::Prop) {
            return None;
        }
        let t = match self.take() { Some(t) => t, None => { return None; } };
        let name = match t.data {
            TD::Identifier(name) => name,
            _ => {
                return None;
            },
        };
        let t = match self.take() { Some(t) => t, None => { return None; } };
        let inner = match t.data {
            TD::ParenBlock(inner) => inner,
            _ => {
                return None;
            },
        };
        proof {
            assert(ts.skip(1).skip(1).skip(1) =~= ts.skip(3));
            assert(ts.skip(1)[0] == ts[1] && ts.skip(1).skip(1)[0] == ts[2]);
        }
        let mut p = Parser::new(inner);
        p.newlines();
        let args = p.arg_list()?;
        if p.assert_empty().is_none() {
            return None;
        }
        let t = match self.take() { Some(t) => t, None => { return None; } };
        if !matches!(t.data, TD::Colon) {
            return None;
        }
        let t = match self.take() { Some(t) => t, None => { return None; } };
        if !matches!(t.data, TD::NewLine) {
            return None;
        }
        let t = match self.take() { Some(t) => t, None => { return None; } };
        let inner = match t.data {
            TD::IndentBlock(inner) => inner,
            _ => {
                return None;
            },
        };
        proof {
            assert(ts.skip(3)[0] == ts[3] && ts.skip(3).skip(1)[0] == ts[4]);
            assert(ts.skip(3).skip(1).skip(1)[0] == ts[5]);
            assert(ts.skip(3).skip(1).skip(1).skip(1) =~= ts.skip(6));
        }
        let mut p = Parser::new(inner);
        p.newlines();
        let context = p.formula_list(true)?;
        let t = match p.take() { Some(t) => t, None => { return None; } };
        if !matches!(t.data, TD::FatArrow) {
            return None;
        }
        let prop = p.formula()?;
        if p.assert_empty().is_none() {
            return None;
        }
        let t = match self.take() { Some(t) => t, None => { return None; } };
        if !matches!(t.data, TD::Proof) {
            return None;
        }
        let t = match self.take() { Some(t) => t, None => { return None; } };
        if !matches!(t.data, TD::Colon) {
            return None;
        }
        let t = match self.take() { Some(t) => t, None => { return None; } };
        if !matches!(t.data, TD::NewLine) {
            return None;
        }
        let t = match self.take() { Some(t) => t, None => { return None; } };
        let inner = match t.data {
            TD::IndentBlock(inner) => inner,
            _ => {
                return None;
            },
        };
        proof {
            assert(ts.skip(6)[0] == ts[6] && ts.skip(6).skip(1)[0] == ts[7]);
            assert(ts.skip(6).skip(1).skip(1)[0] == ts[8]);
            assert(ts.skip(6).skip(1).skip(1).skip(1)[0] == ts[9]);
            assert(ts.skip(6).skip(1).skip(1).skip(1).skip(1) =~= ts.skip(10));
        }
        let mut p = Parser::new(inner);
        let proof_tree = p.proof_tree()?;
        if p.assert_empty().is_none() {
            return None;
        }
        Some(Statement { name, args, context, prop, proof: proof_tree })
    }

    /// Reads the statements of a program. `None` when the tokens do not form a program.
    pub fn parse(self) -> (r: Option<Program>)
        ensures
            match sp_parse(self.rest(), Seq::empty()) {
                None => r is None,
                Some(sts) => r matches Some(v) && statements_view(v@) == sts,
            },
    {
        let mut p = self;
        let ghost ts = p.rest();
        let mut program: Vec<Statement> = Vec::new();
        proof {
            assert(statements_view(program@) =~= Seq::<StatementView>::empty());
        }
        loop
            invariant
                ts == self.rest(),
                sp_parse(ts, Seq::empty()) == sp_parse(p.rest(), statements_view(program@)),
            ensures
                sp_parse(ts, Seq::empty()) == Some(statements_view(program@)),
            decreases p.rest().len(),
        {
            let ghost before = p.rest();
            p.newlines();
            proof {
                lemma_newlines_len(before);
            }
            let is_prop = match peek_token(&mut p.tokens) {
                None => {
                    break;
                },
                Some(t) => matches!(t.data, TD::Prop),
            };
            if !is_prop {
                return None;
            }
            let stmt = p.statement()?;
            proof {
                assert(statements_view(program@.push(stmt)) =~= statements_view(program@).push(stmt.model()));
            }
            program.push(stmt);
        }
        Some(program)
    }
}

} // verus!
