use vstd::prelude::*;
use vstd::string::*;

use crate::ast::{Formula, FormulaView, Proof, Statement, formulas_view, names, vars_of};
use crate::unification::{
    add_substitution_variables, apply, assert_complete_substitution, assoc_map,
    is_matcher, lemma_apply_agree, lemma_apply_result_meta_free, lemma_matchers_agree, mark_metas,
    meta_free, meta_vars, subst_many, unify,
};

verus! {

/// How checking a whole program ended.
#[derive(Debug)]
pub enum ProgramOutcome {
    /// Every statement was accepted.
    Accepted,
    /// A statement was refused with this error; the statements after it were not checked.
    Refused(CheckingError),
    /// A statement got no verdict; the statements after it were not checked.
    NoVerdict,
}

/// Why a statement was rejected.
#[derive(Debug, Clone)]
pub enum CheckingError {
    NoInferAfterInferred(String),
    IncorrectProof,
    UnknownVariable(Formula, String),
    CannotInfer(String),
    UnificationError,
}

/// A statement whose proof was accepted, as it is kept for later use.
struct CheckedStatement {
    hypothesis: Vec<Formula>,
    conclusion: Formula,
    parameters: Vec<String>,
}

/// The value of a proved statement: hypotheses, conclusion, and the names of the arguments that
/// a use of it gives explicitly.
pub struct TheoremView {
    pub hypothesis: Seq<FormulaView>,
    pub conclusion: FormulaView,
    pub parameters: Seq<Seq<char>>,
}

impl CheckedStatement {
    spec fn view(&self) -> TheoremView {
        TheoremView {
            hypothesis: formulas_view(self.hypothesis@),
            conclusion: self.conclusion@,
            parameters: names(self.parameters@),
        }
    }
}

/// The theorems that a list of named statements defines, a later one replacing an earlier one
/// of the same name.
spec fn theorem_map(s: Seq<(String, CheckedStatement)>) -> Map<Seq<char>, TheoremView>
    decreases s.len(),
{
    if s.len() == 0 {
        Map::empty()
    } else {
        theorem_map(s.drop_last()).insert(s.last().0@, s.last().1.view())
    }
}

/// Checks statements one after the other; each accepted statement can be used in the proofs of
/// the later ones.
pub struct Checker {
    theorems: Vec<(String, CheckedStatement)>,
}

impl View for Checker {
    type V = Map<Seq<char>, TheoremView>;

    closed spec fn view(&self) -> Map<Seq<char>, TheoremView> {
        theorem_map(self.theorems@)
    }
}

/// The bindings of the explicit arguments of a use of a theorem: the first `n` parameters, each
/// bound to the argument at its position (a later parameter of the same name wins).
pub open spec fn zip_map(params: Seq<Seq<char>>, args: Seq<FormulaView>, n: nat) -> Map<
    Seq<char>,
    FormulaView,
>
    decreases n,
{
    if n == 0 {
        Map::empty()
    } else {
        zip_map(params, args, (n - 1) as nat).insert(params[n - 1], args[n - 1])
    }
}

pub open spec fn min_len(a: nat, b: nat) -> nat {
    if a <= b {
        a
    } else {
        b
    }
}

/// The bindings that a use of `th` with explicit arguments `args` gives its parameters.
pub open spec fn argument_binding(th: TheoremView, args: Seq<FormulaView>) -> Map<Seq<char>, FormulaView> {
    zip_map(th.parameters, args, min_len(th.parameters.len(), args.len()))
}

/// `f`, a hypothesis or the conclusion of `th`, as a use with `args` states it: every variable
/// that is not a parameter becomes an inference variable, then each parameter is replaced by
/// its argument.
pub open spec fn instantiate(th: TheoremView, args: Seq<FormulaView>, f: FormulaView) -> FormulaView {
    apply(mark_metas(f, th.parameters), argument_binding(th, args))
}

/// The conclusion of `th` as a use with `args` states it.
pub open spec fn used_conclusion(th: TheoremView, args: Seq<FormulaView>) -> FormulaView {
    instantiate(th, args, th.conclusion)
}

/// The hypotheses of `th` as a use with `args` states them.
pub open spec fn used_hypotheses(th: TheoremView, args: Seq<FormulaView>) -> Seq<FormulaView> {
    th.hypothesis.map_values(|h: FormulaView| instantiate(th, args, h))
}

/// Whether the conclusion of `th`, its parameters bound to `args`, can be instantiated into
/// `goal` with every hypothesis then fully instantiated.
pub open spec fn theorem_applies(th: TheoremView, goal: FormulaView, args: Seq<FormulaView>) -> bool {
    let concl = used_conclusion(th, args);
    let hyps = used_hypotheses(th, args);
    &&& exists|s: Map<Seq<char>, FormulaView>| is_matcher(s, concl, goal)
    &&& forall|i: int| 0 <= i < hyps.len() ==> meta_vars(#[trigger] hyps[i]).subset_of(meta_vars(concl))
}

/// The premises that a use of `th` with explicit arguments `args` leaves to prove `goal`.
pub open spec fn theorem_premises(th: TheoremView, goal: FormulaView, args: Seq<FormulaView>) -> Seq<
    FormulaView,
> {
    let s = choose|s: Map<Seq<char>, FormulaView>| is_matcher(s, used_conclusion(th, args), goal);
    used_hypotheses(th, args).map_values(|h: FormulaView| apply(h, s))
}

/// What checking `rule` as a proof of `goal` under `ctx` gives: `Some` of the verdict, or `None`
/// where a rule that the check reaches lacks a premise or an argument, or where a proved
/// statement is used on a goal that holds an inference variable.
pub open spec fn run_proof(
    thms: Map<Seq<char>, TheoremView>,
    goal: FormulaView,
    ctx: Seq<FormulaView>,
    rule: Proof,
) -> Option<bool>
    decreases rule, 1nat, 0nat,
{
    let n = rule.name@;
    let ch = rule.children@;
    let args = formulas_view(rule.args@);
    if n == "Admitted"@ {
        Some(true)
    } else if n == "Ax"@ {
        Some(ctx.contains(goal))
    } else if n == "TopIntro"@ {
        Some(goal == FormulaView::Top)
    } else if n == "BottomElim"@ {
        if ch.len() < 1 {
            None
        } else {
            run_proof(thms, FormulaView::Bot, ctx, ch[0])
        }
    } else if n == "NotIntro"@ {
        match goal {
            FormulaView::Not(inner) => if ch.len() < 1 {
                None
            } else {
                run_proof(thms, FormulaView::Bot, ctx.push(*inner), ch[0])
            },
            _ => Some(false),
        }
    } else if n == "NotElim"@ {
        match goal {
            FormulaView::Bot => if args.len() < 1 || ch.len() < 1 {
                None
            } else {
                match run_proof(thms, args[0], ctx, ch[0]) {
                    Some(true) => if args.len() < 2 || ch.len() < 2 {
                        None
                    } else if args[1] != FormulaView::Not(Box::new(args[0])) {
                        Some(false)
                    } else {
                        run_proof(thms, args[1], ctx, ch[1])
                    },
                    other => other,
                }
            },
            _ => Some(false),
        }
    } else if n == "AndIntro"@ {
        match goal {
            FormulaView::And(left, right) => if ch.len() < 1 {
                None
            } else {
                match run_proof(thms, *left, ctx, ch[0]) {
                    Some(true) => if ch.len() < 2 {
                        None
                    } else {
                        run_proof(thms, *right, ctx, ch[1])
                    },
                    other => other,
                }
            },
            _ => Some(false),
        }
    } else if n == "AndElimLeft"@ {
        if args.len() < 1 || ch.len() < 1 {
            None
        } else {
            run_proof(thms, FormulaView::And(Box::new(goal), Box::new(args[0])), ctx, ch[0])
        }
    } else if n == "AndElimRight"@ {
        if args.len() < 1 || ch.len() < 1 {
            None
        } else {
            run_proof(thms, FormulaView::And(Box::new(args[0]), Box::new(goal)), ctx, ch[0])
        }
    } else if n == "OrIntroLeft"@ {
        match goal {
            FormulaView::Or(left, _) => if ch.len() < 1 {
                None
            } else {
                run_proof(thms, *left, ctx, ch[0])
            },
            _ => Some(false),
        }
    } else if n == "OrIntroRight"@ {
        match goal {
            FormulaView::Or(_, right) => if ch.len() < 1 {
                None
            } else {
                run_proof(thms, *right, ctx, ch[0])
            },
            _ => Some(false),
        }
    } else if n == "OrElim"@ {
        if args.len() < 2 || ch.len() < 1 {
            None
        } else {
            match run_proof(
                thms,
                FormulaView::Or(Box::new(args[0]), Box::new(args[1])),
                ctx,
                ch[0],
            ) {
                Some(true) => if ch.len() < 2 {
                    None
                } else {
                    match run_proof(thms, goal, ctx.push(args[0]), ch[1]) {
                        Some(true) => if ch.len() < 3 {
                            None
                        } else {
                            run_proof(thms, goal, ctx.push(args[1]), ch[2])
                        },
                        other => other,
                    }
                },
                other => other,
            }
        }
    } else if n == "ImpIntro"@ {
        match goal {
            FormulaView::Imp(left, right) => if ch.len() < 1 {
                None
            } else {
                run_proof(thms, *right, ctx.push(*left), ch[0])
            },
            _ => Some(false),
        }
    } else if n == "ImpElim"@ {
        if args.len() < 1 || ch.len() < 1 {
            None
        } else {
            match run_proof(thms, FormulaView::Imp(Box::new(args[0]), Box::new(goal)), ctx, ch[0]) {
                Some(true) => if ch.len() < 2 {
                    None
                } else {
                    run_proof(thms, args[0], ctx, ch[1])
                },
                other => other,
            }
        }
    } else if thms.contains_key(n) {
        if !meta_free(goal) {
            None
        } else if theorem_applies(thms[n], goal, args) {
            run_premises(thms, theorem_premises(thms[n], goal, args), ctx, rule, 0)
        } else {
            Some(false)
        }
    } else {
        Some(false)
    }
}

/// Checks the premises `hyps[i..]` against the children of `rule`, stopping at the first that
/// fails.
pub open spec fn run_premises(
    thms: Map<Seq<char>, TheoremView>,
    hyps: Seq<FormulaView>,
    ctx: Seq<FormulaView>,
    rule: Proof,
    i: nat,
) -> Option<bool>
    decreases rule, 0nat, hyps.len() - i,
{
    if i >= hyps.len() {
        Some(true)
    } else if i >= rule.children@.len() {
        None
    } else {
        match run_proof(thms, hyps[i as int], ctx, rule.children@[i as int]) {
            Some(true) => run_premises(thms, hyps, ctx, rule, i + 1),
            other => other,
        }
    }
}


/// The names of the arguments of a statement, in order.
pub open spec fn declared(args: Seq<(String, bool)>) -> Seq<Seq<char>> {
    args.map_values(|a: (String, bool)| a.0@)
}

/// The names of the arguments that a use of the statement gives explicitly, in order.
pub open spec fn non_inferred(args: Seq<(String, bool)>) -> Seq<Seq<char>>
    decreases args.len(),
{
    if args.len() == 0 {
        Seq::empty()
    } else if args.last().1 {
        non_inferred(args.drop_last())
    } else {
        non_inferred(args.drop_last()).push(args.last().0@)
    }
}

/// `name` is declared as an inferred argument.
pub open spec fn is_inferred(args: Seq<(String, bool)>, name: Seq<char>) -> bool {
    exists|k: int| 0 <= k < args.len() && args[k].1 && #[trigger] args[k].0@ == name
}

/// The argument at `k` is given explicitly although an inferred argument comes before it.
pub open spec fn misplaced(args: Seq<(String, bool)>, k: int) -> bool {
    &&& 0 <= k < args.len()
    &&& !args[k].1
    &&& exists|j: int| 0 <= j < k && #[trigger] args[j].1
}

/// Every variable of `f` is declared.
pub open spec fn covered(f: FormulaView, args: Seq<(String, bool)>) -> bool {
    forall|v: Seq<char>| #[trigger] vars_of(f).contains(v) ==> declared(args).contains(v)
}

/// The statement passes every check that comes before its proof.
pub open spec fn well_declared(stmt: Statement) -> bool {
    let args = stmt.args@;
    &&& forall|k: int| !misplaced(args, k)
    &&& forall|k: int| 0 <= k < stmt.context@.len() ==> covered(#[trigger] stmt.context@[k]@, args)
    &&& covered(stmt.prop@, args)
    &&& forall|v: Seq<char>| is_inferred(args, v) ==> #[trigger] vars_of(stmt.prop@).contains(v)
}

/// What a statement that passes the checks is kept as.
pub open spec fn theorem_of(stmt: Statement) -> TheoremView {
    TheoremView {
        hypothesis: formulas_view(stmt.context@),
        conclusion: stmt.prop@,
        parameters: non_inferred(stmt.args@),
    }
}

/// The error that checking `stmt` may give, given what its proof check gives.
pub open spec fn check_error(
    thms: Map<Seq<char>, TheoremView>,
    stmt: Statement,
    e: CheckingError,
) -> bool {
    let args = stmt.args@;
    let ctx = stmt.context@;
    match e {
        CheckingError::NoInferAfterInferred(n) => exists|k: int|
            misplaced(args, k) && (forall|j: int| 0 <= j < k ==> !misplaced(args, j)) && n@
                == #[trigger] args[k].0@,
        CheckingError::UnknownVariable(f, v) => {
            &&& forall|k: int| !misplaced(args, k)
            &&& ((exists|k: int|
                0 <= k < ctx.len() && !covered(ctx[k]@, args) && (forall|j: int|
                    0 <= j < k ==> covered(#[trigger] ctx[j]@, args)) && f@ == #[trigger] ctx[k]@)
                || ((forall|k: int| 0 <= k < ctx.len() ==> covered(#[trigger] ctx[k]@, args))
                && !covered(stmt.prop@, args) && f@ == stmt.prop@))
            &&& vars_of(f@).contains(v@)
            &&& !declared(args).contains(v@)
        },
        CheckingError::CannotInfer(v) => {
            &&& forall|k: int| !misplaced(args, k)
            &&& forall|k: int| 0 <= k < ctx.len() ==> covered(#[trigger] ctx[k]@, args)
            &&& covered(stmt.prop@, args)
            &&& is_inferred(args, v@)
            &&& !vars_of(stmt.prop@).contains(v@)
        },
        CheckingError::IncorrectProof => well_declared(stmt) && run_proof(
            thms,
            stmt.prop@,
            formulas_view(ctx),
            stmt.proof,
        ) == Some(false),
        CheckingError::UnificationError => false,
    }
}

/// The statements known after accepting the first `n` statements of `prog`, in order.
pub open spec fn known_after(thms: Map<Seq<char>, TheoremView>, prog: Seq<Statement>, n: nat) -> Map<
    Seq<char>,
    TheoremView,
>
    decreases n,
{
    if n == 0 {
        thms
    } else {
        known_after(thms, prog, (n - 1) as nat).insert(
            prog[n - 1].name@,
            theorem_of(prog[n - 1]),
        )
    }
}

/// `stmt` passes its checks and its proof is accepted.
#[verifier::opaque]
pub open spec fn accepted(thms: Map<Seq<char>, TheoremView>, stmt: Statement) -> bool {
    well_declared(stmt) && run_proof(thms, stmt.prop@, formulas_view(stmt.context@), stmt.proof)
        == Some(true)
}

/// `stmt` passes its checks but its proof gets no verdict.
#[verifier::opaque]
pub open spec fn no_verdict(thms: Map<Seq<char>, TheoremView>, stmt: Statement) -> bool {
    well_declared(stmt) && run_proof(thms, stmt.prop@, formulas_view(stmt.context@), stmt.proof) is None
}

/// `stmt` is refused with the error `e`.
#[verifier::opaque]
pub open spec fn refused_with(thms: Map<Seq<char>, TheoremView>, stmt: Statement, e: CheckingError) -> bool {
    check_error(thms, stmt, e)
}

/// Each of the first `n` statements of `prog` is accepted, given those before it.
pub open spec fn accepted_up_to(thms: Map<Seq<char>, TheoremView>, prog: Seq<Statement>, n: nat) -> bool {
    forall|i: int| 0 <= i < n ==> #[trigger] accepted(known_after(thms, prog, i as nat), prog[i])
}

proof fn lemma_theorem_map_last(s: Seq<(String, CheckedStatement)>, j: int, key: Seq<char>)
    requires
        0 <= j < s.len(),
        s[j].0@ == key,
        forall|k: int| j < k < s.len() ==> s[k].0@ != key,
    ensures
        theorem_map(s).contains_key(key),
        theorem_map(s)[key] == s[j].1.view(),
    decreases s.len(),
{
    if j < s.len() - 1 {
        lemma_theorem_map_last(s.drop_last(), j, key);
    }
}

proof fn lemma_theorem_map_absent(s: Seq<(String, CheckedStatement)>, key: Seq<char>)
    requires
        forall|k: int| 0 <= k < s.len() ==> s[k].0@ != key,
    ensures
        !theorem_map(s).contains_key(key),
    decreases s.len(),
{
    if s.len() > 0 {
        lemma_theorem_map_absent(s.drop_last(), key);
    }
}

fn clone_formulas(v: &Vec<Formula>) -> (r: Vec<Formula>)
    ensures
        r@ == v@,
{
    let mut r: Vec<Formula> = Vec::new();
    let mut i: usize = 0;
    while i < v.len()
        invariant
            i <= v@.len(),
            r@ == v@.subrange(0, i as int),
        decreases v@.len() - i,
    {
        r.push(v[i].clone());
        i = i + 1;
        assert(r@ =~= v@.subrange(0, i as int));
    }
    assert(r@ =~= v@);
    r
}

fn clone_strings(v: &Vec<String>) -> (r: Vec<String>)
    ensures
        r@ == v@,
{
    let mut r: Vec<String> = Vec::new();
    let mut i: usize = 0;
    while i < v.len()
        invariant
            i <= v@.len(),
            r@ == v@.subrange(0, i as int),
        decreases v@.len() - i,
    {
        r.push(v[i].clone());
        i = i + 1;
        assert(r@ =~= v@.subrange(0, i as int));
    }
    assert(r@ =~= v@);
    r
}

/// Whether `goal` is one of the formulas of `context`.
fn contains_formula(context: &Vec<Formula>, goal: &Formula) -> (r: bool)
    ensures
        r == formulas_view(context@).contains(goal@),
{
    let ghost ctx = formulas_view(context@);
    let mut i: usize = 0;
    while i < context.len()
        invariant
            i <= context@.len(),
            ctx == formulas_view(context@),
            forall|j: int| 0 <= j < i ==> ctx[j] != goal@,
        decreases context@.len() - i,
    {
        if context[i].same(goal) {
            assert(ctx[i as int] == goal@);
            return true;
        }
        i = i + 1;
    }
    false
}

/// The position of the first name of `sub` that `sup` lacks.
fn first_missing(sub: &Vec<String>, sup: &Vec<String>) -> (r: Option<usize>)
    ensures
        match r {
            None => forall|i: int| 0 <= i < sub@.len() ==> names(sup@).contains(#[trigger] sub@[i]@),
            Some(i) => i < sub@.len() && !names(sup@).contains(sub@[i as int]@),
        },
{
    let mut i: usize = 0;
    while i < sub.len()
        invariant
            i <= sub@.len(),
            forall|j: int| 0 <= j < i ==> names(sup@).contains(#[trigger] sub@[j]@),
        decreases sub@.len() - i,
    {
        if !crate::ast::contains_name(sup, &sub[i]) {
            return Some(i);
        }
        i = i + 1;
    }
    None
}

/// The variables of a formula that are not declared: the first of them, if any.
fn undeclared_var(f: &Formula, declared_names: &Vec<String>) -> (r: Option<String>)
    ensures
        match r {
            None => forall|v: Seq<char>| #[trigger] vars_of(f@).contains(v) ==> names(declared_names@).contains(v),
            Some(v) => vars_of(f@).contains(v@) && !names(declared_names@).contains(v@),
        },
{
    let hv = f.vars();
    match first_missing(&hv, declared_names) {
        None => {
            assert forall|v: Seq<char>| #[trigger] vars_of(f@).contains(v) implies names(declared_names@).contains(v) by {
                assert(names(hv@).to_set().contains(v));
                let i = choose|i: int| 0 <= i < names(hv@).len() && names(hv@)[i] == v;
                assert(names(declared_names@).contains(hv@[i]@));
            }
            None
        },
        Some(i) => {
            assert(names(hv@)[i as int] == hv@[i as int]@);
            assert(names(hv@).to_set().contains(hv@[i as int]@));
            Some(hv[i].clone())
        },
    }
}

impl Checker {
    /// A checker that knows no statement yet.
    pub fn new() -> (r: Checker)
        ensures
            r@ == Map::<Seq<char>, TheoremView>::empty(),
    {
        Checker { theorems: Vec::new() }
    }

    /// The position of the statement named `name` that is in force.
    fn find_theorem(&self, name: &String) -> (r: Option<usize>)
        ensures
            match r {
                Some(j) => j < self.theorems@.len() && self@.contains_key(name@) && self@[name@]
                    == self.theorems@[j as int].1.view(),
                None => !self@.contains_key(name@),
            },
    {
        let mut i = self.theorems.len();
        while i > 0
            invariant
                i <= self.theorems@.len(),
                forall|k: int| i <= k < self.theorems@.len() ==> self.theorems@[k].0@ != name@,
            decreases i,
        {
            if self.theorems[i - 1].0 == *name {
                proof {
                    lemma_theorem_map_last(self.theorems@, i - 1, name@);
                }
                return Some(i - 1);
            }
            i = i - 1;
        }
        proof {
            lemma_theorem_map_absent(self.theorems@, name@);
        }
        None
    }

    /// Checks `rule` as a proof of `goal` from the hypotheses `context`.
    ///
    /// Returns `None` where a rule that the check reaches lacks a premise or an argument (there
    /// is then no verdict), and the verdict otherwise.
    pub fn try_proof(&mut self, goal: &Formula, context: &mut Vec<Formula>, rule: &Proof) -> (r: Option<
        bool,
    >)
        ensures
            r == run_proof(old(self)@, goal@, formulas_view(old(context)@), *rule),
            *final(self) == *old(self),
            final(context)@ == old(context)@,
        decreases rule,
    {
        let ghost ctx = formulas_view(context@);
        let ghost args = formulas_view(rule.args@);
        let name = &rule.name;
        if crate::ast::is_word(name, "Admitted") {
            return Some(true);
        }
        if crate::ast::is_word(name, "Ax") {
            return Some(contains_formula(context, goal));
        }
        if crate::ast::is_word(name, "TopIntro") {
            return Some(goal.same(&Formula::Top));
        }
        if crate::ast::is_word(name, "BottomElim") {
            if rule.children.len() < 1 {
                return None;
            }
            return self.try_proof(&Formula::Bot, context, &rule.children[0]);
        }
        if crate::ast::is_word(name, "NotIntro") {
            return match goal {
                Formula::Not(inner) => {
                    if rule.children.len() < 1 {
                        None
                    } else {
                        context.push((**inner).clone());
                        assert(formulas_view(context@) =~= ctx.push(inner@));
                        let res = self.try_proof(&Formula::Bot, context, &rule.children[0]);
                        context.pop();
                        assert(context@ =~= old(context)@);
                        res
                    }
                },
                _ => Some(false),
            };
        }
        if crate::ast::is_word(name, "NotElim") {
            return match goal {
                Formula::Bot => {
                    if rule.args.len() < 1 || rule.children.len() < 1 {
                        None
                    } else {
                        let first = self.try_proof(&rule.args[0], context, &rule.children[0]);
                        match first {
                            Some(true) => {
                                if rule.args.len() < 2 || rule.children.len() < 2 {
                                    None
                                } else if !rule.args[1].same(&Formula::Not(Box::new(rule.args[0].clone()))) {
                                    Some(false)
                                } else {
                                    self.try_proof(&rule.args[1], context, &rule.children[1])
                                }
                            },
                            other => other,
                        }
                    }
                },
                _ => Some(false),
            };
        }
        if crate::ast::is_word(name, "AndIntro") {
            return match goal {
                Formula::And(left, right) => {
                    if rule.children.len() < 1 {
                        None
                    } else {
                        let first = self.try_proof(left, context, &rule.children[0]);
                        match first {
                            Some(true) => {
                                if rule.children.len() < 2 {
                                    None
                                } else {
                                    self.try_proof(right, context, &rule.children[1])
                                }
                            },
                            other => other,
                        }
                    }
                },
                _ => Some(false),
            };
        }
        if crate::ast::is_word(name, "AndElimLeft") {
            if rule.args.len() < 1 || rule.children.len() < 1 {
                return None;
            }
            let conj = Formula::And(Box::new(goal.clone()), Box::new(rule.args[0].clone()));
            return self.try_proof(&conj, context, &rule.children[0]);
        }
        if crate::ast::is_word(name, "AndElimRight") {
            if rule.args.len() < 1 || rule.children.len() < 1 {
                return None;
            }
            let conj = Formula::And(Box::new(rule.args[0].clone()), Box::new(goal.clone()));
            return self.try_proof(&conj, context, &rule.children[0]);
        }
        if crate::ast::is_word(name, "OrIntroLeft") {
            return match goal {
                Formula::Or(left, _) => {
                    if rule.children.len() < 1 {
                        None
                    } else {
                        self.try_proof(left, context, &rule.children[0])
                    }
                },
                _ => Some(false),
            };
        }
        if crate::ast::is_word(name, "OrIntroRight") {
            return match goal {
                Formula::Or(_, right) => {
                    if rule.children.len() < 1 {
                        None
                    } else {
                        self.try_proof(right, context, &rule.children[0])
                    }
                },
                _ => Some(false),
            };
        }
        if crate::ast::is_word(name, "OrElim") {
            if rule.args.len() < 2 || rule.children.len() < 1 {
                return None;
            }
            let hyp_left = &rule.args[0];
            let hyp_right = &rule.args[1];
            let disj = Formula::Or(Box::new(hyp_left.clone()), Box::new(hyp_right.clone()));
            let res = self.try_proof(&disj, context, &rule.children[0]);
            match res {
                Some(true) => {},
                other => {
                    return other;
                },
            }
            if rule.children.len() < 2 {
                return None;
            }
            context.push(hyp_left.clone());
            assert(formulas_view(context@) =~= ctx.push(args[0]));
            let res = self.try_proof(goal, context, &rule.children[1]);
            context.pop();
            assert(context@ =~= old(context)@);
            match res {
                Some(true) => {},
                other => {
                    return other;
                },
            }
            if rule.children.len() < 3 {
                return None;
            }
            context.push(hyp_right.clone());
            assert(formulas_view(context@) =~= ctx.push(args[1]));
            let res = self.try_proof(goal, context, &rule.children[2]);
            context.pop();
            assert(context@ =~= old(context)@);
            return res;
        }
        if crate::ast::is_word(name, "ImpIntro") {
            return match goal {
                Formula::Imp(left, right) => {
                    if rule.children.len() < 1 {
                        None
                    } else {
                        context.push((**left).clone());
                        assert(formulas_view(context@) =~= ctx.push(left@));
                        let res = self.try_proof(right, context, &rule.children[0]);
                        context.pop();
                        assert(context@ =~= old(context)@);
                        res
                    }
                },
                _ => Some(false),
            };
        }
        if crate::ast::is_word(name, "ImpElim") {
            if rule.args.len() < 1 || rule.children.len() < 1 {
                return None;
            }
            let hyp = &rule.args[0];
            let imp = Formula::Imp(Box::new(hyp.clone()), Box::new(goal.clone()));
            let first = self.try_proof(&imp, context, &rule.children[0]);
            return match first {
                Some(true) => {
                    if rule.children.len() < 2 {
                        None
                    } else {
                        self.try_proof(hyp, context, &rule.children[1])
                    }
                },
                other => other,
            };
        }
        self.use_theorem(goal, context, rule)
    }

    /// Checks a use of the proved statement named `rule.name` as a proof of `goal`: its
    /// parameters are bound to the arguments of `rule`, its other variables are inferred by
    /// matching its conclusion against `goal`, and each of its hypotheses so instantiated is
    /// then proved by the child of `rule` at the same position.
    fn use_theorem(&mut self, goal: &Formula, context: &mut Vec<Formula>, rule: &Proof) -> (r: Option<
        bool,
    >)
        ensures
            r == (if old(self)@.contains_key(rule.name@) {
                if !meta_free(goal@) {
                    None
                } else if theorem_applies(old(self)@[rule.name@], goal@, formulas_view(rule.args@)) {
                    run_premises(
                        old(self)@,
                        theorem_premises(old(self)@[rule.name@], goal@, formulas_view(rule.args@)),
                        formulas_view(old(context)@),
                        *rule,
                        0,
                    )
                } else {
                    Some(false)
                }
            } else {
                Some(false)
            }),
            *final(self) == *old(self),
            final(context)@ == old(context)@,
        decreases rule, 0nat,
    {
        let found = self.find_theorem(&rule.name);
        let j = match found {
            None => {
                return Some(false);
            },
            Some(j) => j,
        };
        if assert_complete_substitution(goal).is_err() {
            return None;
        }
        let ghost th = self@[rule.name@];
        let ghost args = formulas_view(rule.args@);
        let mut hypothesis = clone_formulas(&self.theorems[j].1.hypothesis);
        let mut conclusion = self.theorems[j].1.conclusion.clone();
        let parameters = clone_strings(&self.theorems[j].1.parameters);
        let ghost hyps0 = hypothesis@;
        assert(names(parameters@) == th.parameters);
        let mut map: Vec<(String, Formula)> = Vec::new();
        let mut m: usize = 0;
        while m < parameters.len() && m < rule.args.len()
            invariant
                m <= parameters@.len(),
                m <= rule.args@.len(),
                args == formulas_view(rule.args@),
                assoc_map(map@) == zip_map(names(parameters@), args, m as nat),
            decreases parameters@.len() - m,
        {
            let ghost before = map@;
            map.push((parameters[m].clone(), rule.args[m].clone()));
            assert(map@.drop_last() =~= before);
            assert(names(parameters@)[m as int] == parameters@[m as int]@);
            assert(args[m as int] == rule.args@[m as int]@);
            assert(zip_map(names(parameters@), args, (m + 1) as nat) == zip_map(names(parameters@), args, m as nat).insert(
                names(parameters@)[m as int], args[m as int]));
            m = m + 1;
        }
        let ghost binding = assoc_map(map@);
        assert(binding == argument_binding(th, args));
        let mut k: usize = 0;
        while k < hypothesis.len()
            invariant
                k <= hypothesis@.len(),
                hypothesis@.len() == hyps0.len(),
                binding == assoc_map(map@),
                forall|i: int| 0 <= i < k ==> (#[trigger] hypothesis@[i])@ == apply(
                    mark_metas(hyps0[i]@, names(parameters@)),
                    binding,
                ),
                forall|i: int| k <= i < hypothesis@.len() ==> hypothesis@[i] == hyps0[i],
            decreases hypothesis@.len() - k,
        {
            let mut hyp = hypothesis[k].clone();
            add_substitution_variables(&mut hyp, &parameters);
            subst_many(&mut hyp, &map);
            hypothesis.set(k, hyp);
            k = k + 1;
        }
        add_substitution_variables(&mut conclusion, &parameters);
        subst_many(&mut conclusion, &map);
        let ghost used_concl = conclusion@;
        let ghost used_hyps = hypothesis@;
        proof {
            assert(used_concl == used_conclusion(th, args));
            assert forall|i: int| 0 <= i < used_hyps.len() implies (#[trigger] used_hyps[i])@
                == used_hypotheses(th, args)[i] by {
                assert(th.hypothesis[i] == hyps0[i]@);
            }
        }
        let unified = unify(goal, &mut hypothesis, &mut conclusion);
        if unified.is_err() {
            proof {
                if theorem_applies(th, goal@, args) {
                    assert forall|i: int| 0 <= i < used_hyps.len() implies meta_vars(
                        (#[trigger] used_hyps[i])@,
                    ).subset_of(meta_vars(used_concl)) by {
                        assert(meta_vars(used_hypotheses(th, args)[i]).subset_of(meta_vars(used_concl)));
                    }
                }
            }
            return Some(false);
        }
        let ghost premises = theorem_premises(th, goal@, args);
        proof {
            assert forall|i: int| 0 <= i < used_hypotheses(th, args).len() implies meta_vars(
                #[trigger] used_hypotheses(th, args)[i],
            ).subset_of(meta_vars(used_conclusion(th, args))) by {
                assert(meta_vars(used_hyps[i]@).subset_of(meta_vars(used_concl)));
            }
            assert(theorem_applies(th, goal@, args));
            let s = choose|s: Map<Seq<char>, FormulaView>| is_matcher(s, used_conclusion(th, args), goal@);
            assert(is_matcher(s, used_concl, goal@));
            assert forall|i: int| 0 <= i < hypothesis@.len() implies (#[trigger] hypothesis@[i])@
                == premises[i] by {
                assert(used_hyps[i]@ == used_hypotheses(th, args)[i]);
            }
        }
        let mut i: usize = 0;
        while i < hypothesis.len()
            invariant
                i <= hypothesis@.len(),
                hypothesis@.len() == premises.len(),
                forall|x: int| 0 <= x < hypothesis@.len() ==> (#[trigger] hypothesis@[x])@ == premises[x],
                *self == *old(self),
                context@ == old(context)@,
                old(self)@.contains_key(rule.name@),
                meta_free(goal@),
                theorem_applies(old(self)@[rule.name@], goal@, formulas_view(rule.args@)),
                premises == theorem_premises(old(self)@[rule.name@], goal@, formulas_view(rule.args@)),
                run_premises(old(self)@, premises, formulas_view(old(context)@), *rule, 0)
                    == run_premises(old(self)@, premises, formulas_view(old(context)@), *rule, i as nat),
            decreases hypothesis@.len() - i,
        {
            if i >= rule.children.len() {
                return None;
            }
            let res = self.try_proof(&hypothesis[i], context, &rule.children[i]);
            match res {
                Some(true) => {},
                other => {
                    return other;
                },
            }
            i = i + 1;
        }
        Some(true)
    }

    /// Checks a statement: its arguments, the variables of its hypotheses and of its
    /// proposition, then its proof. An accepted statement is kept under its name for the proofs
    /// of later statements.
    ///
    /// Returns `None` where a proof rule that the check reaches lacks a premise or an argument:
    /// the statement then gets no verdict and nothing is kept.
    #[verifier::loop_isolation(false)]
    pub fn try_check(&mut self, stmt: Statement) -> (r: Option<Result<(), CheckingError>>)
        ensures
            match r {
                None => well_declared(stmt) && run_proof(
                    old(self)@,
                    stmt.prop@,
                    formulas_view(stmt.context@),
                    stmt.proof,
                ) is None && final(self)@ == old(self)@,
                Some(Ok(())) => well_declared(stmt) && run_proof(
                    old(self)@,
                    stmt.prop@,
                    formulas_view(stmt.context@),
                    stmt.proof,
                ) == Some(true) && final(self)@ == old(self)@.insert(stmt.name@, theorem_of(stmt)),
                Some(Err(e)) => check_error(old(self)@, stmt, e) && final(self)@ == old(self)@,
            },
    {
        let ghost st = stmt;
        let Statement { name, args, context, prop, proof: proof_tree } = stmt;
        let mut started_infer = false;
        let mut vars: Vec<String> = Vec::new();
        let mut inferred_vars: Vec<String> = Vec::new();
        let mut parameters: Vec<String> = Vec::new();
        let mut k: usize = 0;
        while k < args.len()
            invariant
                k <= args@.len(),
                args@ == st.args@,
                names(vars@) == declared(args@.take(k as int)),
                started_infer == (exists|j: int| 0 <= j < k && #[trigger] args@[j].1),
                forall|j: int| 0 <= j < k ==> !misplaced(args@, j),
                names(parameters@) == non_inferred(args@.take(k as int)),
                forall|v: Seq<char>|
                    names(inferred_vars@).contains(v) <==> (exists|j: int|
                        0 <= j < k && args@[j].1 && #[trigger] args@[j].0@ == v),
                *self == *old(self),
            decreases args@.len() - k,
        {
            let ghost before_vars = names(vars@);
            let ghost before_inferred = names(inferred_vars@);
            let ghost before_params = names(parameters@);
            let name_k = &args[k].0;
            let infer = args[k].1;
            vars.push(name_k.clone());
            proof {
                assert(args@.take(k + 1).drop_last() =~= args@.take(k as int));
                assert(names(vars@) =~= before_vars.push(name_k@));
                assert(declared(args@.take(k + 1)) =~= declared(args@.take(k as int)).push(name_k@));
            }
            if infer {
                inferred_vars.push(name_k.clone());
                started_infer = infer;
                proof {
                    assert(names(inferred_vars@) =~= before_inferred.push(name_k@));
                    assert(non_inferred(args@.take(k + 1)) == non_inferred(args@.take(k as int)));
                }
            } else {
                parameters.push(name_k.clone());
                proof {
                    assert(names(parameters@) =~= before_params.push(name_k@));
                    assert(non_inferred(args@.take(k + 1)) == non_inferred(args@.take(k as int)).push(name_k@));
                }
            }
            if started_infer && !infer {
                let n = name_k.clone();
                proof {
                    assert(misplaced(args@, k as int));
                    assert(check_error(old(self)@, st, CheckingError::NoInferAfterInferred(n)));
                }
                return Some(Err(CheckingError::NoInferAfterInferred(n)));
            }
            proof {
                assert(!misplaced(args@, k as int));
                assert forall|v: Seq<char>|
                    names(inferred_vars@).contains(v) <==> (exists|j: int|
                        0 <= j < k + 1 && args@[j].1 && #[trigger] args@[j].0@ == v) by {
                    if names(inferred_vars@).contains(v) {
                        let i = choose|i: int| 0 <= i < names(inferred_vars@).len() && names(inferred_vars@)[i] == v;
                        if infer && i == before_inferred.len() {
                            assert(args@[k as int].0@ == v);
                        } else {
                            assert(before_inferred[i] == v);
                            assert(before_inferred.contains(v));
                        }
                    }
                    if exists|j: int| 0 <= j < k + 1 && args@[j].1 && #[trigger] args@[j].0@ == v {
                        let j = choose|j: int| 0 <= j < k + 1 && args@[j].1 && #[trigger] args@[j].0@ == v;
                        if j < k {
                            assert(before_inferred.contains(v));
                            let i = choose|i: int| 0 <= i < before_inferred.len() && before_inferred[i] == v;
                            assert(names(inferred_vars@)[i] == v);
                        } else {
                            assert(infer);
                            assert(names(inferred_vars@)[before_inferred.len() as int] == v);
                        }
                    }
                }
            }
            k = k + 1;
        }
        proof {
            assert(args@.take(k as int) =~= args@);
            assert forall|j: int| !misplaced(args@, j) by {
                if 0 <= j < args@.len() {
                }
            }
        }
        let mut h: usize = 0;
        while h < context.len()
            invariant
                h <= context@.len(),
                context@ == st.context@,
                args@ == st.args@,
                names(vars@) == declared(args@),
                forall|j: int| 0 <= j < h ==> covered(#[trigger] context@[j]@, args@),
                *self == *old(self),
            decreases context@.len() - h,
        {
            match undeclared_var(&context[h], &vars) {
                Some(v) => {
                    let f = context[h].clone();
                    proof {
                        assert(st.context@[h as int]@ == f@);
                        assert(!covered(st.context@[h as int]@, st.args@));
                        assert(check_error(old(self)@, st, CheckingError::UnknownVariable(f, v)));
                    }
                    return Some(Err(CheckingError::UnknownVariable(f, v)));
                },
                None => {},
            }
            h = h + 1;
        }
        match undeclared_var(&prop, &vars) {
            Some(v) => {
                let f = prop.clone();
                proof {
                    assert(check_error(old(self)@, st, CheckingError::UnknownVariable(f, v)));
                }
                return Some(Err(CheckingError::UnknownVariable(f, v)));
            },
            None => {},
        }
        let prop_vars = prop.vars();
        match first_missing(&inferred_vars, &prop_vars) {
            Some(i) => {
                let v = inferred_vars[i].clone();
                proof {
                    assert(names(inferred_vars@)[i as int] == v@);
                    assert(names(inferred_vars@).contains(v@));
                    if vars_of(prop@).contains(v@) {
                        assert(names(prop_vars@).to_set().contains(v@));
                    }
                    assert(check_error(old(self)@, st, CheckingError::CannotInfer(v)));
                }
                return Some(Err(CheckingError::CannotInfer(v)));
            },
            None => {},
        }
        proof {
            assert forall|v: Seq<char>| is_inferred(args@, v) implies #[trigger] vars_of(prop@).contains(v) by {
                let j = choose|j: int| 0 <= j < args@.len() && args@[j].1 && #[trigger] args@[j].0@ == v;
                assert(names(inferred_vars@).contains(v));
                let i = choose|i: int| 0 <= i < names(inferred_vars@).len() && names(inferred_vars@)[i] == v;
                assert(inferred_vars@[i]@ == v);
                assert(names(prop_vars@).contains(inferred_vars@[i]@));
                assert(names(prop_vars@).to_set().contains(v));
            }
            assert(well_declared(st));
        }
        let mut context = context;
        let res = self.try_proof(&prop, &mut context, &proof_tree);
        match res {
            None => None,
            Some(true) => {
                let ghost before = self.theorems@;
                self.theorems.push(
                    (name, CheckedStatement { hypothesis: context, conclusion: prop, parameters }),
                );
                proof {
                    assert(self.theorems@.drop_last() =~= before);
                    assert(names(parameters@) == non_inferred(st.args@));
                }
                Some(Ok(()))
            },
            Some(false) => Some(Err(CheckingError::IncorrectProof)),
        }
    }

    /// `try_check`, its outcome stated through `accepted`, `no_verdict` and `refused_with`.
    fn check_one(&mut self, stmt: Statement) -> (r: Option<Result<(), CheckingError>>)
        ensures
            match r {
                None => no_verdict(old(self)@, stmt) && final(self)@ == old(self)@,
                Some(Ok(())) => accepted(old(self)@, stmt) && final(self)@ == old(self)@.insert(
                    stmt.name@,
                    theorem_of(stmt),
                ),
                Some(Err(e)) => refused_with(old(self)@, stmt, e) && final(self)@ == old(self)@,
            },
    {
        let ghost st = stmt;
        let r = self.try_check(stmt);
        proof {
            reveal(accepted);
            reveal(no_verdict);
            reveal(refused_with);
        }
        r
    }

    /// Checks the statements of `program` in order and stops at the first that is refused or
    /// gets no verdict. Returns the names of the statements accepted before that point, and how
    /// the check ended.
    pub fn check_program(&mut self, program: Vec<Statement>) -> (r: (Vec<String>, ProgramOutcome))
        ensures
            ({
                let (names, outcome) = r;
                let k = names@.len();
                &&& k <= program@.len()
                &&& forall|i: int| 0 <= i < k ==> #[trigger] names@[i]@ == program@[i].name@
                &&& accepted_up_to(old(self)@, program@, k)
                &&& final(self)@ == known_after(old(self)@, program@, k)
                &&& match outcome {
                    ProgramOutcome::Accepted => k == program@.len(),
                    ProgramOutcome::Refused(e) => k < program@.len() && refused_with(
                        known_after(old(self)@, program@, k),
                        program@[k as int],
                        e,
                    ),
                    ProgramOutcome::NoVerdict => k < program@.len() && no_verdict(
                        known_after(old(self)@, program@, k),
                        program@[k as int],
                    ),
                }
            }),
    {
        let ghost prog = program@;
        let n = program.len();
        let mut rest = program;
        let mut names: Vec<String> = Vec::new();
        let mut k: usize = 0;
        while rest.len() > 0
            invariant
                prog == program@,
                n == prog.len(),
                k <= prog.len(),
                rest@ == prog.skip(k as int),
                names@.len() == k,
                forall|i: int| 0 <= i < k ==> #[trigger] names@[i]@ == prog[i].name@,
                accepted_up_to(old(self)@, prog, k as nat),
                self@ == known_after(old(self)@, prog, k as nat),
            decreases prog.len() - k,
        {
            assert(k < prog.len());
            let stmt = rest.remove(0);
            assert(stmt == prog[k as int]);
            let name = stmt.name.clone();
            let ghost before = self@;
            match self.check_one(stmt) {
                None => {
                    return (names, ProgramOutcome::NoVerdict);
                },
                Some(Err(e)) => {
                    return (names, ProgramOutcome::Refused(e));
                },
                Some(Ok(())) => {
                    proof {
                        assert forall|i: int| 0 <= i < k + 1 implies #[trigger] accepted(
                            known_after(old(self)@, prog, i as nat),
                            prog[i],
                        ) by {
                            if i < k {
                                assert(accepted(known_after(old(self)@, prog, i as nat), prog[i]));
                            }
                        }
                    }
                    names.push(name);
                    assert(rest@ =~= prog.skip(k + 1));
                    k = k + 1;
                },
            }
        }
        (names, ProgramOutcome::Accepted)
    }

    /// Checks a statement: its arguments, the variables of its hypotheses and of its
    /// proposition, then its proof. An accepted statement is kept under its name for the proofs
    /// of later statements.
    pub fn check(&mut self, stmt: Statement) -> (r: Result<(), CheckingError>)
        requires
            well_declared(stmt) ==> run_proof(old(self)@, stmt.prop@, formulas_view(stmt.context@), stmt.proof) is Some,
        ensures
            match r {
                Ok(()) => well_declared(stmt) && run_proof(
                    old(self)@,
                    stmt.prop@,
                    formulas_view(stmt.context@),
                    stmt.proof,
                ) == Some(true) && final(self)@ == old(self)@.insert(stmt.name@, theorem_of(stmt)),
                Err(e) => check_error(old(self)@, stmt, e) && final(self)@ == old(self)@,
            },
    {
        match self.try_check(stmt) {
            Some(res) => res,
            None => {
                proof {
                    assert(false);
                }
                Err(CheckingError::IncorrectProof)
            },
        }
    }

    /// Checks `rule` as a proof of `goal` from the hypotheses `context`.
    pub fn check_proof(&mut self, goal: &Formula, context: &mut Vec<Formula>, rule: &Proof) -> (r: bool)
        requires
            run_proof(old(self)@, goal@, formulas_view(old(context)@), *rule) is Some,
        ensures
            Some(r) == run_proof(old(self)@, goal@, formulas_view(old(context)@), *rule),
            *final(self) == *old(self),
            final(context)@ == old(context)@,
    {
        match self.try_proof(goal, context, rule) {
            Some(b) => b,
            None => {
                proof {
                    assert(false);
                }
                false
            },
        }
    }
}

proof fn lemma_push_superset(ctx: Seq<FormulaView>, ctx2: Seq<FormulaView>, x: FormulaView)
    requires
        forall|f: FormulaView| #[trigger] ctx.contains(f) ==> ctx2.contains(f),
    ensures
        forall|f: FormulaView| #[trigger] ctx.push(x).contains(f) ==> ctx2.push(x).contains(f),
{
    assert forall|f: FormulaView| #[trigger] ctx.push(x).contains(f) implies ctx2.push(x).contains(f) by {
        let i = choose|i: int| 0 <= i < ctx.push(x).len() && ctx.push(x)[i] == f;
        if i == ctx.len() {
            assert(ctx2.push(x)[ctx2.len() as int] == f);
        } else {
            assert(ctx[i] == f);
            assert(ctx.contains(f));
            let j = choose|j: int| 0 <= j < ctx2.len() && ctx2[j] == f;
            assert(ctx2.push(x)[j] == f);
        }
    }
}

/// Weakening: a proof that is accepted stays accepted when the context holds more hypotheses
/// and more statements are known, those known before being unchanged.
pub proof fn law_weakening(
    thms: Map<Seq<char>, TheoremView>,
    thms2: Map<Seq<char>, TheoremView>,
    goal: FormulaView,
    ctx: Seq<FormulaView>,
    ctx2: Seq<FormulaView>,
    rule: Proof,
)
    requires
        thms.submap_of(thms2),
        forall|f: FormulaView| #[trigger] ctx.contains(f) ==> ctx2.contains(f),
        run_proof(thms, goal, ctx, rule) == Some(true),
    ensures
        run_proof(thms2, goal, ctx2, rule) == Some(true),
    decreases rule, 1nat, 0nat,
{
    let n = rule.name@;
    let ch = rule.children@;
    let args = formulas_view(rule.args@);
    if n == "Admitted"@ {
    } else if n == "Ax"@ {
    } else if n == "TopIntro"@ {
    } else if n == "BottomElim"@ {
        law_weakening(thms, thms2, FormulaView::Bot, ctx, ctx2, ch[0]);
    } else if n == "NotIntro"@ {
        if let FormulaView::Not(inner) = goal {
            lemma_push_superset(ctx, ctx2, *inner);
            law_weakening(thms, thms2, FormulaView::Bot, ctx.push(*inner), ctx2.push(*inner), ch[0]);
        }
    } else if n == "NotElim"@ {
        law_weakening(thms, thms2, args[0], ctx, ctx2, ch[0]);
        law_weakening(thms, thms2, args[1], ctx, ctx2, ch[1]);
    } else if n == "AndIntro"@ {
        if let FormulaView::And(left, right) = goal {
            law_weakening(thms, thms2, *left, ctx, ctx2, ch[0]);
            law_weakening(thms, thms2, *right, ctx, ctx2, ch[1]);
        }
    } else if n == "AndElimLeft"@ {
        law_weakening(thms, thms2, FormulaView::And(Box::new(goal), Box::new(args[0])), ctx, ctx2, ch[0]);
    } else if n == "AndElimRight"@ {
        law_weakening(thms, thms2, FormulaView::And(Box::new(args[0]), Box::new(goal)), ctx, ctx2, ch[0]);
    } else if n == "OrIntroLeft"@ {
        if let FormulaView::Or(left, _) = goal {
            law_weakening(thms, thms2, *left, ctx, ctx2, ch[0]);
        }
    } else if n == "OrIntroRight"@ {
        if let FormulaView::Or(_, right) = goal {
            law_weakening(thms, thms2, *right, ctx, ctx2, ch[0]);
        }
    } else if n == "OrElim"@ {
        law_weakening(thms, thms2, FormulaView::Or(Box::new(args[0]), Box::new(args[1])), ctx, ctx2, ch[0]);
        lemma_push_superset(ctx, ctx2, args[0]);
        law_weakening(thms, thms2, goal, ctx.push(args[0]), ctx2.push(args[0]), ch[1]);
        lemma_push_superset(ctx, ctx2, args[1]);
        law_weakening(thms, thms2, goal, ctx.push(args[1]), ctx2.push(args[1]), ch[2]);
    } else if n == "ImpIntro"@ {
        if let FormulaView::Imp(left, right) = goal {
            lemma_push_superset(ctx, ctx2, *left);
            law_weakening(thms, thms2, *right, ctx.push(*left), ctx2.push(*left), ch[0]);
        }
    } else if n == "ImpElim"@ {
        law_weakening(thms, thms2, FormulaView::Imp(Box::new(args[0]), Box::new(goal)), ctx, ctx2, ch[0]);
        law_weakening(thms, thms2, args[0], ctx, ctx2, ch[1]);
    } else if thms.contains_key(n) {
        assert(thms2.contains_key(n) && thms2[n] == thms[n]);
        lemma_premises_weakening(thms, thms2, theorem_premises(thms[n], goal, args), ctx, ctx2, rule, 0);
    }
}

proof fn lemma_premises_weakening(
    thms: Map<Seq<char>, TheoremView>,
    thms2: Map<Seq<char>, TheoremView>,
    hyps: Seq<FormulaView>,
    ctx: Seq<FormulaView>,
    ctx2: Seq<FormulaView>,
    rule: Proof,
    i: nat,
)
    requires
        thms.submap_of(thms2),
        forall|f: FormulaView| #[trigger] ctx.contains(f) ==> ctx2.contains(f),
        run_premises(thms, hyps, ctx, rule, i) == Some(true),
    ensures
        run_premises(thms2, hyps, ctx2, rule, i) == Some(true),
    decreases rule, 0nat, hyps.len() - i,
{
    if i < hyps.len() {
        law_weakening(thms, thms2, hyps[i as int], ctx, ctx2, rule.children@[i as int]);
        lemma_premises_weakening(thms, thms2, hyps, ctx, ctx2, rule, i + 1);
    }
}

/// Checking a statement under a name that is not yet taken never turns an accepted proof into
/// a rejected one.
pub proof fn law_new_statement_keeps_proofs(
    thms: Map<Seq<char>, TheoremView>,
    name: Seq<char>,
    th: TheoremView,
    goal: FormulaView,
    ctx: Seq<FormulaView>,
    rule: Proof,
)
    requires
        !thms.contains_key(name),
        run_proof(thms, goal, ctx, rule) == Some(true),
    ensures
        run_proof(thms.insert(name, th), goal, ctx, rule) == Some(true),
{
    law_weakening(thms, thms.insert(name, th), goal, ctx, ctx, rule);
}

/// Hypothesis inference: where a statement used with explicit arguments applies to a goal,
/// every instantiation of its conclusion into the goal gives the same hypotheses, and none of
/// them keeps an inference variable; the hypotheses follow from the conclusion, the arguments
/// and the shape of the statement alone.
pub proof fn law_inferred_hypotheses_unique(
    th: TheoremView,
    args: Seq<FormulaView>,
    goal: FormulaView,
    s1: Map<Seq<char>, FormulaView>,
    s2: Map<Seq<char>, FormulaView>,
)
    requires
        meta_free(goal),
        theorem_applies(th, goal, args),
        is_matcher(s1, used_conclusion(th, args), goal),
        is_matcher(s2, used_conclusion(th, args), goal),
    ensures
        forall|i: int|
            0 <= i < th.hypothesis.len() ==> apply(#[trigger] used_hypotheses(th, args)[i], s1)
                == apply(used_hypotheses(th, args)[i], s2) && meta_free(
                apply(used_hypotheses(th, args)[i], s1),
            ),
{
    let concl = used_conclusion(th, args);
    let hyps = used_hypotheses(th, args);
    lemma_matchers_agree(concl, goal, s1, s2);
    assert forall|i: int| 0 <= i < th.hypothesis.len() implies apply(#[trigger] hyps[i], s1) == apply(
        hyps[i],
        s2,
    ) && meta_free(apply(hyps[i], s1)) by {
        assert(meta_vars(hyps[i]).subset_of(meta_vars(concl)));
        lemma_apply_agree(hyps[i], s1, s2);
        lemma_apply_result_meta_free(concl, s1);
        lemma_apply_result_meta_free(hyps[i], s1);
    }
}

/// The names of the built-in rules, told apart by their length and first two characters.
proof fn lemma_rule_names()
    ensures
        "Admitted"@.len() == 8,
        "Admitted"@[0] == 'A',
        "Admitted"@[1] == 'd',
        "Ax"@.len() == 2,
        "Ax"@[0] == 'A',
        "Ax"@[1] == 'x',
        "TopIntro"@.len() == 8,
        "TopIntro"@[0] == 'T',
        "TopIntro"@[1] == 'o',
        "BottomElim"@.len() == 10,
        "BottomElim"@[0] == 'B',
        "BottomElim"@[1] == 'o',
        "NotIntro"@.len() == 8,
        "NotIntro"@[0] == 'N',
        "NotIntro"@[1] == 'o',
        "NotElim"@.len() == 7,
        "NotElim"@[0] == 'N',
        "NotElim"@[1] == 'o',
        "AndIntro"@.len() == 8,
        "AndIntro"@[0] == 'A',
        "AndIntro"@[1] == 'n',
        "AndElimLeft"@.len() == 11,
        "AndElimLeft"@[0] == 'A',
        "AndElimLeft"@[1] == 'n',
        "AndElimRight"@.len() == 12,
        "AndElimRight"@[0] == 'A',
        "AndElimRight"@[1] == 'n',
        "OrIntroLeft"@.len() == 11,
        "OrIntroLeft"@[0] == 'O',
        "OrIntroLeft"@[1] == 'r',
        "OrIntroRight"@.len() == 12,
        "OrIntroRight"@[0] == 'O',
        "OrIntroRight"@[1] == 'r',
        "OrElim"@.len() == 6,
        "OrElim"@[0] == 'O',
        "OrElim"@[1] == 'r',
        "ImpIntro"@.len() == 8,
        "ImpIntro"@[0] == 'I',
        "ImpIntro"@[1] == 'm',
        "ImpElim"@.len() == 7,
        "ImpElim"@[0] == 'I',
        "ImpElim"@[1] == 'm',
{
    reveal_strlit("Admitted");
    reveal_strlit("Ax");
    reveal_strlit("TopIntro");
    reveal_strlit("BottomElim");
    reveal_strlit("NotIntro");
    reveal_strlit("NotElim");
    reveal_strlit("AndIntro");
    reveal_strlit("AndElimLeft");
    reveal_strlit("AndElimRight");
    reveal_strlit("OrIntroLeft");
    reveal_strlit("OrIntroRight");
    reveal_strlit("OrElim");
    reveal_strlit("ImpIntro");
    reveal_strlit("ImpElim");
}

/// `n` names a built-in rule rather than a proved statement.
pub open spec fn builtin_rule(n: Seq<char>) -> bool {
    n == "Admitted"@ || n == "Ax"@ || n == "TopIntro"@ || n == "BottomElim"@ || n == "NotIntro"@ || n == "NotElim"@ || n == "AndIntro"@ || n == "AndElimLeft"@ || n == "AndElimRight"@ || n == "OrIntroLeft"@ || n == "OrIntroRight"@ || n == "OrElim"@ || n == "ImpIntro"@ || n == "ImpElim"@
}

/// The formula arguments of a rule, by position.
pub open spec fn arg(rule: Proof, i: int) -> FormulaView {
    rule.args@[i]@
}

/// Whether `child` is accepted as a proof of `f` under `ctx`.
pub open spec fn proves(
    thms: Map<Seq<char>, TheoremView>,
    ctx: Seq<FormulaView>,
    child: Proof,
    f: FormulaView,
) -> bool {
    run_proof(thms, f, ctx, child) == Some(true)
}

/// `Admitted` accepts any goal.
pub proof fn law_admitted(thms: Map<Seq<char>, TheoremView>, g: FormulaView, ctx: Seq<FormulaView>, rule: Proof)
    requires
        rule.name@ == "Admitted"@,
    ensures
        run_proof(thms, g, ctx, rule) == Some(true),
{
}

/// `Ax` proves exactly the hypotheses of the context.
pub proof fn law_axiom(thms: Map<Seq<char>, TheoremView>, g: FormulaView, ctx: Seq<FormulaView>, rule: Proof)
    requires
        rule.name@ == "Ax"@,
    ensures
        run_proof(thms, g, ctx, rule) == Some(ctx.contains(g)),
{
    lemma_rule_names();
}

/// `TopIntro` proves exactly `Top`.
pub proof fn law_top_intro(thms: Map<Seq<char>, TheoremView>, g: FormulaView, ctx: Seq<FormulaView>, rule: Proof)
    requires
        rule.name@ == "TopIntro"@,
    ensures
        run_proof(thms, g, ctx, rule) == Some(g == FormulaView::Top),
{
    lemma_rule_names();
}

/// `BottomElim` proves any goal exactly when its child proves `Bot`.
pub proof fn law_bottom_elim(thms: Map<Seq<char>, TheoremView>, g: FormulaView, ctx: Seq<FormulaView>, rule: Proof)
    requires
        rule.name@ == "BottomElim"@,
        rule.children@.len() >= 1,
    ensures
        proves(thms, ctx, rule, g) <==> proves(thms, ctx, rule.children@[0], FormulaView::Bot),
{
    lemma_rule_names();
}

/// `NotIntro` proves `~a` exactly when its child proves `Bot` with `a` added to the context,
/// and proves no formula that is not a negation.
pub proof fn law_not_intro(thms: Map<Seq<char>, TheoremView>, g: FormulaView, ctx: Seq<FormulaView>, rule: Proof)
    requires
        rule.name@ == "NotIntro"@,
        rule.children@.len() >= 1,
    ensures
        proves(thms, ctx, rule, g) <==> (g matches FormulaView::Not(a) && proves(
            thms,
            ctx.push(*a),
            rule.children@[0],
            FormulaView::Bot,
        )),
{
    lemma_rule_names();
}

/// `NotElim(a, b)` proves exactly `Bot`, where `b` is `~a`, its first child proves `a` and its
/// second child proves `b`.
pub proof fn law_not_elim(thms: Map<Seq<char>, TheoremView>, g: FormulaView, ctx: Seq<FormulaView>, rule: Proof)
    requires
        rule.name@ == "NotElim"@,
        rule.args@.len() >= 2,
        rule.children@.len() >= 2,
    ensures
        proves(thms, ctx, rule, g) <==> (g == FormulaView::Bot && arg(rule, 1) == FormulaView::Not(
            Box::new(arg(rule, 0)),
        ) && proves(thms, ctx, rule.children@[0], arg(rule, 0)) && proves(
            thms,
            ctx,
            rule.children@[1],
            arg(rule, 1),
        )),
{
    lemma_rule_names();
    assert(formulas_view(rule.args@)[0] == arg(rule, 0));
    assert(formulas_view(rule.args@)[1] == arg(rule, 1));
}

/// `AndIntro` proves `l . r` exactly when its first child proves `l` and its second proves `r`,
/// and proves nothing else.
pub proof fn law_and_intro(thms: Map<Seq<char>, TheoremView>, g: FormulaView, ctx: Seq<FormulaView>, rule: Proof)
    requires
        rule.name@ == "AndIntro"@,
        rule.children@.len() >= 2,
    ensures
        proves(thms, ctx, rule, g) <==> (g matches FormulaView::And(l, r) && proves(
            thms,
            ctx,
            rule.children@[0],
            *l,
        ) && proves(thms, ctx, rule.children@[1], *r)),
{
    lemma_rule_names();
}

/// `AndElimLeft(b)` proves `g` exactly when its child proves `g . b`.
pub proof fn law_and_elim_left(thms: Map<Seq<char>, TheoremView>, g: FormulaView, ctx: Seq<FormulaView>, rule: Proof)
    requires
        rule.name@ == "AndElimLeft"@,
        rule.args@.len() >= 1,
        rule.children@.len() >= 1,
    ensures
        proves(thms, ctx, rule, g) <==> proves(
            thms,
            ctx,
            rule.children@[0],
            FormulaView::And(Box::new(g), Box::new(arg(rule, 0))),
        ),
{
    lemma_rule_names();
    assert(formulas_view(rule.args@)[0] == arg(rule, 0));
}

/// `AndElimRight(a)` proves `g` exactly when its child proves `a . g`.
pub proof fn law_and_elim_right(thms: Map<Seq<char>, TheoremView>, g: FormulaView, ctx: Seq<FormulaView>, rule: Proof)
    requires
        rule.name@ == "AndElimRight"@,
        rule.args@.len() >= 1,
        rule.children@.len() >= 1,
    ensures
        proves(thms, ctx, rule, g) <==> proves(
            thms,
            ctx,
            rule.children@[0],
            FormulaView::And(Box::new(arg(rule, 0)), Box::new(g)),
        ),
{
    lemma_rule_names();
    assert(formulas_view(rule.args@)[0] == arg(rule, 0));
}

/// `OrIntroLeft` proves `l | r` exactly when its child proves `l`, and proves nothing else.
pub proof fn law_or_intro_left(thms: Map<Seq<char>, TheoremView>, g: FormulaView, ctx: Seq<FormulaView>, rule: Proof)
    requires
        rule.name@ == "OrIntroLeft"@,
        rule.children@.len() >= 1,
    ensures
        proves(thms, ctx, rule, g) <==> (g matches FormulaView::Or(l, _) && proves(
            thms,
            ctx,
            rule.children@[0],
            *l,
        )),
{
    lemma_rule_names();
}

/// `OrIntroRight` proves `l | r` exactly when its child proves `r`, and proves nothing else.
pub proof fn law_or_intro_right(thms: Map<Seq<char>, TheoremView>, g: FormulaView, ctx: Seq<FormulaView>, rule: Proof)
    requires
        rule.name@ == "OrIntroRight"@,
        rule.children@.len() >= 1,
    ensures
        proves(thms, ctx, rule, g) <==> (g matches FormulaView::Or(_, r) && proves(
            thms,
            ctx,
            rule.children@[0],
            *r,
        )),
{
    lemma_rule_names();
}

/// `OrElim(a, b)` proves `g` exactly when its first child proves `a | b`, its second proves `g`
/// with `a` added to the context and its third proves `g` with `b` added.
pub proof fn law_or_elim(thms: Map<Seq<char>, TheoremView>, g: FormulaView, ctx: Seq<FormulaView>, rule: Proof)
    requires
        rule.name@ == "OrElim"@,
        rule.args@.len() >= 2,
        rule.children@.len() >= 3,
    ensures
        proves(thms, ctx, rule, g) <==> (proves(
            thms,
            ctx,
            rule.children@[0],
            FormulaView::Or(Box::new(arg(rule, 0)), Box::new(arg(rule, 1))),
        ) && proves(thms, ctx.push(arg(rule, 0)), rule.children@[1], g) && proves(
            thms,
            ctx.push(arg(rule, 1)),
            rule.children@[2],
            g,
        )),
{
    lemma_rule_names();
    assert(formulas_view(rule.args@)[0] == arg(rule, 0));
    assert(formulas_view(rule.args@)[1] == arg(rule, 1));
}

/// `ImpIntro` proves `a -> b` exactly when its child proves `b` with `a` added to the context,
/// and proves nothing else.
pub proof fn law_imp_intro(thms: Map<Seq<char>, TheoremView>, g: FormulaView, ctx: Seq<FormulaView>, rule: Proof)
    requires
        rule.name@ == "ImpIntro"@,
        rule.children@.len() >= 1,
    ensures
        proves(thms, ctx, rule, g) <==> (g matches FormulaView::Imp(a, b) && proves(
            thms,
            ctx.push(*a),
            rule.children@[0],
            *b,
        )),
{
    lemma_rule_names();
}

/// Modus ponens: `ImpElim(a)` proves `g` exactly when its first child proves `a -> g` and its
/// second child proves `a`.
pub proof fn law_imp_elim(thms: Map<Seq<char>, TheoremView>, g: FormulaView, ctx: Seq<FormulaView>, rule: Proof)
    requires
        rule.name@ == "ImpElim"@,
        rule.args@.len() >= 1,
        rule.children@.len() >= 2,
    ensures
        proves(thms, ctx, rule, g) <==> (proves(
            thms,
            ctx,
            rule.children@[0],
            FormulaView::Imp(Box::new(arg(rule, 0)), Box::new(g)),
        ) && proves(thms, ctx, rule.children@[1], arg(rule, 0))),
{
    lemma_rule_names();
    assert(formulas_view(rule.args@)[0] == arg(rule, 0));
}

proof fn lemma_premises_all(
    thms: Map<Seq<char>, TheoremView>,
    hyps: Seq<FormulaView>,
    ctx: Seq<FormulaView>,
    rule: Proof,
    i: nat,
)
    requires
        rule.children@.len() >= hyps.len(),
    ensures
        run_premises(thms, hyps, ctx, rule, i) == Some(true) <==> forall|j: int|
            i <= j < hyps.len() ==> #[trigger] proves(thms, ctx, rule.children@[j], hyps[j]),
    decreases hyps.len() - i,
{
    if i < hyps.len() {
        lemma_premises_all(thms, hyps, ctx, rule, i + 1);
        if run_premises(thms, hyps, ctx, rule, i) == Some(true) {
            assert forall|j: int| i <= j < hyps.len() implies #[trigger] proves(
                thms,
                ctx,
                rule.children@[j],
                hyps[j],
            ) by {
                if j > i {
                }
            }
        }
        if forall|j: int| i <= j < hyps.len() ==> #[trigger] proves(thms, ctx, rule.children@[j], hyps[j]) {
            assert(proves(thms, ctx, rule.children@[i as int], hyps[i as int]));
            assert forall|j: int| i + 1 <= j < hyps.len() implies #[trigger] proves(
                thms,
                ctx,
                rule.children@[j],
                hyps[j],
            ) by {
            }
        }
    }
}

/// A name that is neither a built-in rule nor a proved statement proves nothing.
pub proof fn law_unknown_rule(thms: Map<Seq<char>, TheoremView>, g: FormulaView, ctx: Seq<FormulaView>, rule: Proof)
    requires
        !builtin_rule(rule.name@),
        !thms.contains_key(rule.name@),
    ensures
        run_proof(thms, g, ctx, rule) == Some(false),
{
}

/// Using a proved statement: where `rule` names a statement that, with the arguments of `rule`,
/// applies to the goal `g`, and `s` instantiates its conclusion into `g`, `rule` proves `g`
/// exactly when, for each position `i`, the child at `i` proves the statement's hypothesis at
/// `i` as `s` instantiates it.
pub proof fn law_statement_use(
    thms: Map<Seq<char>, TheoremView>,
    g: FormulaView,
    ctx: Seq<FormulaView>,
    rule: Proof,
    s: Map<Seq<char>, FormulaView>,
)
    requires
        !builtin_rule(rule.name@),
        thms.contains_key(rule.name@),
        meta_free(g),
        theorem_applies(thms[rule.name@], g, formulas_view(rule.args@)),
        is_matcher(s, used_conclusion(thms[rule.name@], formulas_view(rule.args@)), g),
        rule.children@.len() >= thms[rule.name@].hypothesis.len(),
    ensures
        proves(thms, ctx, rule, g) <==> forall|i: int|
            0 <= i < thms[rule.name@].hypothesis.len() ==> #[trigger] proves(
                thms,
                ctx,
                rule.children@[i],
                apply(used_hypotheses(thms[rule.name@], formulas_view(rule.args@))[i], s),
            ),
{
    let th = thms[rule.name@];
    let args = formulas_view(rule.args@);
    let hyps = used_hypotheses(th, args);
    let s0 = choose|s: Map<Seq<char>, FormulaView>| is_matcher(s, used_conclusion(th, args), g);
    let premises = theorem_premises(th, g, args);
    law_inferred_hypotheses_unique(th, args, g, s0, s);
    lemma_premises_all(thms, premises, ctx, rule, 0);
    assert forall|i: int| 0 <= i < th.hypothesis.len() implies premises[i] == apply(hyps[i], s) by {
        assert(premises[i] == apply(hyps[i], s0));
    }
    if proves(thms, ctx, rule, g) {
        assert forall|i: int| 0 <= i < th.hypothesis.len() implies #[trigger] proves(
            thms,
            ctx,
            rule.children@[i],
            apply(hyps[i], s),
        ) by {
            assert(proves(thms, ctx, rule.children@[i], premises[i]));
        }
    } else {
        if forall|i: int| 0 <= i < th.hypothesis.len() ==> #[trigger] proves(
            thms,
            ctx,
            rule.children@[i],
            apply(hyps[i], s),
        ) {
            assert forall|j: int| 0 <= j < premises.len() implies #[trigger] proves(
                thms,
                ctx,
                rule.children@[j],
                premises[j],
            ) by {
                assert(proves(thms, ctx, rule.children@[j], apply(hyps[j], s)));
            }
        }
    }
}

proof fn lemma_non_inferred_prefix(args: Seq<(String, bool)>, m: int)
    requires
        0 <= m <= args.len(),
        forall|k: int| 0 <= k < m ==> !(#[trigger] args[k]).1,
        forall|k: int| m <= k < args.len() ==> (#[trigger] args[k]).1,
    ensures
        non_inferred(args) == declared(args).take(m),
    decreases args.len(),
{
    if args.len() > 0 {
        let init = args.drop_last();
        if m == args.len() {
            lemma_non_inferred_prefix(init, m - 1);
            assert(declared(args).take(m) =~= declared(init).take(m - 1).push(args.last().0@));
        } else {
            lemma_non_inferred_prefix(init, m);
            assert(declared(args).take(m) =~= declared(init).take(m));
        }
    } else {
        assert(declared(args).take(m) =~= Seq::<Seq<char>>::empty());
    }
}

/// What an accepted statement is kept as: its hypotheses, its proposition, and as parameters
/// the names of its explicit arguments, which come first and in order; the inferred ones are
/// all the arguments after them.
pub proof fn law_kept_statement(stmt: Statement)
    requires
        well_declared(stmt),
    ensures
        theorem_of(stmt).hypothesis == formulas_view(stmt.context@),
        theorem_of(stmt).conclusion == stmt.prop@,
        theorem_of(stmt).parameters.len() <= stmt.args@.len(),
        forall|k: int|
            0 <= k < theorem_of(stmt).parameters.len() ==> !(#[trigger] stmt.args@[k]).1
                && theorem_of(stmt).parameters[k] == stmt.args@[k].0@,
        forall|k: int|
            theorem_of(stmt).parameters.len() <= k < stmt.args@.len() ==> (#[trigger] stmt.args@[k]).1,
{
    let args = stmt.args@;
    let m: int = if exists|k: int| 0 <= k < args.len() && args[k].1 {
        choose|k: int| 0 <= k < args.len() && args[k].1 && forall|j: int| 0 <= j < k ==> !args[j].1
    } else {
        args.len() as int
    };
    if exists|k: int| 0 <= k < args.len() && args[k].1 {
        let k0 = choose|k: int| 0 <= k < args.len() && args[k].1;
        lemma_first_inferred(args, k0);
    }
    assert forall|k: int| m <= k < args.len() implies (#[trigger] args[k]).1 by {
        if !args[k].1 {
            assert(!misplaced(args, k));
            assert(args[m].1);
        }
    }
    lemma_non_inferred_prefix(args, m);
    assert forall|k: int| 0 <= k < m implies #[trigger] theorem_of(stmt).parameters[k] == stmt.args@[k].0@ by {
        assert(declared(args).take(m)[k] == declared(args)[k]);
    }
    assert(theorem_of(stmt).parameters.len() == m);
}

proof fn lemma_first_inferred(args: Seq<(String, bool)>, k0: int)
    requires
        0 <= k0 < args.len(),
        args[k0].1,
    ensures
        exists|k: int| 0 <= k < args.len() && args[k].1 && forall|j: int| 0 <= j < k ==> !args[j].1,
    decreases k0,
{
    if exists|j: int| 0 <= j < k0 && args[j].1 {
        let j = choose|j: int| 0 <= j < k0 && args[j].1;
        lemma_first_inferred(args, j);
    } else {
        assert(forall|j: int| 0 <= j < k0 ==> !args[j].1);
    }
}

} // verus!
