use vstd::prelude::*;

use crate::ast::{FormulaView, Proof, formulas_view};
use crate::checker::{
    TheoremView, argument_binding, run_premises, run_proof, theorem_premises, used_conclusion,
    used_hypotheses,
};
use crate::unification::{apply, is_matcher, mark_metas};

verus! {

/// Whether `f` is true when the variables in `t`, and no others, are true.
pub open spec fn holds(f: FormulaView, t: Set<Seq<char>>) -> bool
    decreases f,
{
    match f {
        FormulaView::Top => true,
        FormulaView::Bot => false,
        FormulaView::Var(v) => t.contains(v),
        FormulaView::Not(g) => !holds(*g, t),
        FormulaView::And(a, b) => holds(*a, t) && holds(*b, t),
        FormulaView::Or(a, b) => holds(*a, t) || holds(*b, t),
        FormulaView::Imp(a, b) => !holds(*a, t) || holds(*b, t),
    }
}

/// Every formula of `ctx` is true under `t`.
pub open spec fn all_hold(ctx: Seq<FormulaView>, t: Set<Seq<char>>) -> bool {
    forall|i: int| 0 <= i < ctx.len() ==> holds(#[trigger] ctx[i], t)
}

/// A statement whose conclusion is true wherever its hypotheses are.
pub open spec fn valid_theorem(th: TheoremView) -> bool {
    forall|t: Set<Seq<char>>| all_hold(th.hypothesis, t) ==> #[trigger] holds(th.conclusion, t)
}

/// No step of the proof tree is `Admitted`.
pub open spec fn admits_nothing(p: Proof) -> bool
    decreases p,
{
    &&& p.name@ != "Admitted"@
    &&& forall|i: int| 0 <= i < p.children@.len() ==> admits_nothing(#[trigger] p.children@[i])
}

/// The valuation that makes a variable true where `s` maps it to a formula true under `t`, and
/// otherwise where `t` makes it true.
pub open spec fn valuation_after(s: Map<Seq<char>, FormulaView>, t: Set<Seq<char>>) -> Set<Seq<char>> {
    Set::new(|v: Seq<char>| if s.contains_key(v) { holds(s[v], t) } else { t.contains(v) })
}

/// The valuation that makes a variable listed in `kept` true where `u` does, and any other `v`
/// true where `u` makes `$v` true.
pub open spec fn valuation_unmarked(kept: Seq<Seq<char>>, u: Set<Seq<char>>) -> Set<Seq<char>> {
    Set::new(|v: Seq<char>| if kept.contains(v) { u.contains(v) } else { u.contains(seq!['$'] + v) })
}

proof fn lemma_holds_apply(f: FormulaView, s: Map<Seq<char>, FormulaView>, t: Set<Seq<char>>)
    ensures
        holds(apply(f, s), t) == holds(f, valuation_after(s, t)),
    decreases f,
{
    match f {
        FormulaView::Not(g) => lemma_holds_apply(*g, s, t),
        FormulaView::And(a, b) => {
            lemma_holds_apply(*a, s, t);
            lemma_holds_apply(*b, s, t);
        },
        FormulaView::Or(a, b) => {
            lemma_holds_apply(*a, s, t);
            lemma_holds_apply(*b, s, t);
        },
        FormulaView::Imp(a, b) => {
            lemma_holds_apply(*a, s, t);
            lemma_holds_apply(*b, s, t);
        },
        _ => {},
    }
}

proof fn lemma_holds_marked(f: FormulaView, kept: Seq<Seq<char>>, u: Set<Seq<char>>)
    ensures
        holds(mark_metas(f, kept), u) == holds(f, valuation_unmarked(kept, u)),
    decreases f,
{
    match f {
        FormulaView::Not(g) => lemma_holds_marked(*g, kept, u),
        FormulaView::And(a, b) => {
            lemma_holds_marked(*a, kept, u);
            lemma_holds_marked(*b, kept, u);
        },
        FormulaView::Or(a, b) => {
            lemma_holds_marked(*a, kept, u);
            lemma_holds_marked(*b, kept, u);
        },
        FormulaView::Imp(a, b) => {
            lemma_holds_marked(*a, kept, u);
            lemma_holds_marked(*b, kept, u);
        },
        _ => {},
    }
}

proof fn lemma_push_holds(ctx: Seq<FormulaView>, x: FormulaView, t: Set<Seq<char>>)
    requires
        all_hold(ctx, t),
        holds(x, t),
    ensures
        all_hold(ctx.push(x), t),
{
    assert forall|i: int| 0 <= i < ctx.push(x).len() implies holds(#[trigger] ctx.push(x)[i], t) by {
        if i < ctx.len() {
            assert(ctx.push(x)[i] == ctx[i]);
        }
    }
}

/// Soundness of the checker: where every known statement is valid, a proof that admits nothing,
/// once accepted, makes its goal true under every valuation that makes its hypotheses true.
pub proof fn law_soundness(
    thms: Map<Seq<char>, TheoremView>,
    goal: FormulaView,
    ctx: Seq<FormulaView>,
    rule: Proof,
    t: Set<Seq<char>>,
)
    requires
        forall|n: Seq<char>| #[trigger] thms.contains_key(n) ==> valid_theorem(thms[n]),
        admits_nothing(rule),
        run_proof(thms, goal, ctx, rule) == Some(true),
        all_hold(ctx, t),
    ensures
        holds(goal, t),
    decreases rule, 1nat, 0nat,
{
    let n = rule.name@;
    let ch = rule.children@;
    let args = formulas_view(rule.args@);
    if n == "Admitted"@ {
    } else if n == "Ax"@ {
        let i = choose|i: int| 0 <= i < ctx.len() && ctx[i] == goal;
        assert(holds(ctx[i], t));
    } else if n == "TopIntro"@ {
    } else if n == "BottomElim"@ {
        law_soundness(thms, FormulaView::Bot, ctx, ch[0], t);
    } else if n == "NotIntro"@ {
        if let FormulaView::Not(inner) = goal {
            if holds(*inner, t) {
                lemma_push_holds(ctx, *inner, t);
                law_soundness(thms, FormulaView::Bot, ctx.push(*inner), ch[0], t);
            }
        }
    } else if n == "NotElim"@ {
        law_soundness(thms, args[0], ctx, ch[0], t);
        law_soundness(thms, args[1], ctx, ch[1], t);
    } else if n == "AndIntro"@ {
        if let FormulaView::And(left, right) = goal {
            law_soundness(thms, *left, ctx, ch[0], t);
            law_soundness(thms, *right, ctx, ch[1], t);
        }
    } else if n == "AndElimLeft"@ {
        law_soundness(thms, FormulaView::And(Box::new(goal), Box::new(args[0])), ctx, ch[0], t);
    } else if n == "AndElimRight"@ {
        law_soundness(thms, FormulaView::And(Box::new(args[0]), Box::new(goal)), ctx, ch[0], t);
    } else if n == "OrIntroLeft"@ {
        if let FormulaView::Or(left, _) = goal {
            law_soundness(thms, *left, ctx, ch[0], t);
        }
    } else if n == "OrIntroRight"@ {
        if let FormulaView::Or(_, right) = goal {
            law_soundness(thms, *right, ctx, ch[0], t);
        }
    } else if n == "OrElim"@ {
        law_soundness(thms, FormulaView::Or(Box::new(args[0]), Box::new(args[1])), ctx, ch[0], t);
        if holds(args[0], t) {
            lemma_push_holds(ctx, args[0], t);
            law_soundness(thms, goal, ctx.push(args[0]), ch[1], t);
        } else {
            lemma_push_holds(ctx, args[1], t);
            law_soundness(thms, goal, ctx.push(args[1]), ch[2], t);
        }
    } else if n == "ImpIntro"@ {
        if let FormulaView::Imp(left, right) = goal {
            if holds(*left, t) {
                lemma_push_holds(ctx, *left, t);
                law_soundness(thms, *right, ctx.push(*left), ch[0], t);
            }
        }
    } else if n == "ImpElim"@ {
        law_soundness(thms, FormulaView::Imp(Box::new(args[0]), Box::new(goal)), ctx, ch[0], t);
        law_soundness(thms, args[0], ctx, ch[1], t);
    } else if thms.contains_key(n) {
        let th = thms[n];
        let concl = used_conclusion(th, args);
        let s = choose|s: Map<Seq<char>, FormulaView>| is_matcher(s, concl, goal);
        let hyps = used_hypotheses(th, args);
        let premises = theorem_premises(th, goal, args);
        let b = argument_binding(th, args);
        lemma_premises_sound(thms, premises, ctx, rule, 0, t);
        let t1 = valuation_after(b, valuation_after(s, t));
        let t2 = valuation_unmarked(th.parameters, t1);
        assert forall|j: int| 0 <= j < th.hypothesis.len() implies holds(
            #[trigger] th.hypothesis[j],
            t2,
        ) by {
            assert(premises[j] == apply(hyps[j], s));
            assert(holds(premises[j], t));
            lemma_holds_apply(hyps[j], s, t);
            lemma_holds_apply(mark_metas(th.hypothesis[j], th.parameters), b, valuation_after(s, t));
            lemma_holds_marked(th.hypothesis[j], th.parameters, t1);
        }
        assert(holds(th.conclusion, t2));
        lemma_holds_marked(th.conclusion, th.parameters, t1);
        lemma_holds_apply(mark_metas(th.conclusion, th.parameters), b, valuation_after(s, t));
        lemma_holds_apply(concl, s, t);
    }
}

proof fn lemma_premises_sound(
    thms: Map<Seq<char>, TheoremView>,
    hyps: Seq<FormulaView>,
    ctx: Seq<FormulaView>,
    rule: Proof,
    i: nat,
    t: Set<Seq<char>>,
)
    requires
        forall|n: Seq<char>| #[trigger] thms.contains_key(n) ==> valid_theorem(thms[n]),
        admits_nothing(rule),
        run_premises(thms, hyps, ctx, rule, i) == Some(true),
        all_hold(ctx, t),
    ensures
        forall|j: int| i <= j < hyps.len() ==> holds(#[trigger] hyps[j], t),
    decreases rule, 0nat, hyps.len() - i,
{
    if i < hyps.len() {
        law_soundness(thms, hyps[i as int], ctx, rule.children@[i as int], t);
        lemma_premises_sound(thms, hyps, ctx, rule, i + 1, t);
    }
}

} // verus!
