use vstd::prelude::*;
use vstd::string::*;

verus! {

/// A named proposition to prove: its arguments (each marked whether it is inferred), its
/// hypotheses, its conclusion and its proof.
#[derive(Debug)]
pub struct Statement {
    pub name: String,
    pub args: Vec<(String, bool)>,
    pub context: Vec<Formula>,
    pub prop: Formula,
    pub proof: Proof,
}

/// A proof tree: the name of a rule or of a proved statement, its formula arguments and the
/// proofs of its premises.
#[derive(Debug)]
pub struct Proof {
    pub name: String,
    pub args: Vec<Formula>,
    pub children: Vec<Proof>,
}

/// A program: statements to check in order.
pub type Program = Vec<Statement>;

/// A proposition of propositional logic.
#[derive(Debug, PartialEq)]
pub enum Formula {
    Top,
    Bot,
    Var(String),
    Not(Box<Formula>),
    And(Box<Formula>, Box<Formula>),
    Or(Box<Formula>, Box<Formula>),
    Imp(Box<Formula>, Box<Formula>),
}

/// The mathematical value of a `Formula`: variable names are sequences of characters.
pub enum FormulaView {
    Top,
    Bot,
    Var(Seq<char>),
    Not(Box<FormulaView>),
    And(Box<FormulaView>, Box<FormulaView>),
    Or(Box<FormulaView>, Box<FormulaView>),
    Imp(Box<FormulaView>, Box<FormulaView>),
}

impl Formula {
    pub open spec fn model(&self) -> FormulaView
        decreases self,
    {
        match self {
            Formula::Top => FormulaView::Top,
            Formula::Bot => FormulaView::Bot,
            Formula::Var(v) => FormulaView::Var(v@),
            Formula::Not(f) => FormulaView::Not(Box::new(f.model())),
            Formula::And(a, b) => FormulaView::And(Box::new(a.model()), Box::new(b.model())),
            Formula::Or(a, b) => FormulaView::Or(Box::new(a.model()), Box::new(b.model())),
            Formula::Imp(a, b) => FormulaView::Imp(Box::new(a.model()), Box::new(b.model())),
        }
    }
}

impl View for Formula {
    type V = FormulaView;

    open spec fn view(&self) -> FormulaView {
        self.model()
    }
}

/// The values of a list of formulas.
pub open spec fn formulas_view(v: Seq<Formula>) -> Seq<FormulaView> {
    v.map_values(|f: Formula| f@)
}

/// The value of a proof tree.
pub struct ProofView {
    pub name: Seq<char>,
    pub args: Seq<FormulaView>,
    pub children: Seq<ProofView>,
}

/// The value of a statement.
pub struct StatementView {
    pub name: Seq<char>,
    pub args: Seq<(Seq<char>, bool)>,
    pub context: Seq<FormulaView>,
    pub prop: FormulaView,
    pub proof: ProofView,
}

impl Proof {
    pub open spec fn model(&self) -> ProofView
        decreases self,
    {
        ProofView {
            name: self.name@,
            args: formulas_view(self.args@),
            children: proofs_view(self.children@),
        }
    }
}

/// The values of a sequence of proofs.
pub open spec fn proofs_view(s: Seq<Proof>) -> Seq<ProofView>
    decreases s,
{
    if s.len() == 0 {
        Seq::empty()
    } else {
        proofs_view(s.drop_last()).push(s.last().model())
    }
}

/// The values of the arguments of a statement.
pub open spec fn args_view(s: Seq<(String, bool)>) -> Seq<(Seq<char>, bool)> {
    s.map_values(|a: (String, bool)| (a.0@, a.1))
}

impl Statement {
    pub open spec fn model(&self) -> StatementView {
        StatementView {
            name: self.name@,
            args: args_view(self.args@),
            context: formulas_view(self.context@),
            prop: self.prop@,
            proof: self.proof.model(),
        }
    }
}

/// The set of variable names that occur in `f`.
pub open spec fn vars_of(f: FormulaView) -> Set<Seq<char>>
    decreases f,
{
    match f {
        FormulaView::Top => Set::empty(),
        FormulaView::Bot => Set::empty(),
        FormulaView::Var(v) => Set::empty().insert(v),
        FormulaView::Not(g) => vars_of(*g),
        FormulaView::And(a, b) => vars_of(*a) + vars_of(*b),
        FormulaView::Or(a, b) => vars_of(*a) + vars_of(*b),
        FormulaView::Imp(a, b) => vars_of(*a) + vars_of(*b),
    }
}

/// The names held by a sequence of strings.
pub open spec fn names(v: Seq<String>) -> Seq<Seq<char>> {
    v.map_values(|s: String| s@)
}

/// Whether `v` holds a string whose characters are `name`.
pub fn contains_name(v: &Vec<String>, name: &String) -> (r: bool)
    ensures
        r == names(v@).contains(name@),
{
    let mut i: usize = 0;
    while i < v.len()
        invariant
            i <= v.len(),
            forall|j: int| 0 <= j < i ==> v@[j]@ != name@,
        decreases v.len() - i,
    {
        if v[i] == *name {
            assert(names(v@)[i as int] == name@);
            return true;
        }
        i = i + 1;
    }
    proof {
        if names(v@).contains(name@) {
            let k = choose|k: int| 0 <= k < names(v@).len() && names(v@)[k] == name@;
            assert(v@[k]@ == name@);
        }
    }
    false
}

/// Whether `name` is the word `word`.
pub fn is_word(name: &String, word: &str) -> (r: bool)
    ensures
        r == (name@ == word@),
{
    *name == String::from_str(word)
}

impl Clone for Formula {
    fn clone(&self) -> (r: Self)
        ensures
            r == *self,
        decreases self,
    {
        match self {
            Formula::Top => Formula::Top,
            Formula::Bot => Formula::Bot,
            Formula::Var(v) => Formula::Var(v.clone()),
            Formula::Not(f) => Formula::Not(Box::new((**f).clone())),
            Formula::And(a, b) => Formula::And(Box::new((**a).clone()), Box::new((**b).clone())),
            Formula::Or(a, b) => Formula::Or(Box::new((**a).clone()), Box::new((**b).clone())),
            Formula::Imp(a, b) => Formula::Imp(Box::new((**a).clone()), Box::new((**b).clone())),
        }
    }
}

impl Formula {
    /// Structural equality: the same connectives and the same variable names.
    pub fn same(&self, other: &Formula) -> (r: bool)
        ensures
            r == (self@ == other@),
        decreases self,
    {
        match (self, other) {
            (Formula::Top, Formula::Top) => true,
            (Formula::Bot, Formula::Bot) => true,
            (Formula::Var(a), Formula::Var(b)) => *a == *b,
            (Formula::Not(a), Formula::Not(b)) => (**a).same(&**b),
            (Formula::And(a1, b1), Formula::And(a2, b2)) => (**a1).same(&**a2) && (**b1).same(&**b2),
            (Formula::Or(a1, b1), Formula::Or(a2, b2)) => (**a1).same(&**a2) && (**b1).same(&**b2),
            (Formula::Imp(a1, b1), Formula::Imp(a2, b2)) => (**a1).same(&**a2) && (**b1).same(&**b2),
            _ => false,
        }
    }

    pub fn vars_aux(&self, acc: &mut Vec<String>)
        requires
            names(old(acc)@).no_duplicates(),
        ensures
            names(final(acc)@).no_duplicates(),
            names(final(acc)@).to_set() == names(old(acc)@).to_set() + vars_of(self@),
        decreases self,
    {
        match self {
            Formula::Top => {
                assert(names(acc@).to_set() + Set::empty() =~= names(acc@).to_set());
            },
            Formula::Bot => {
                assert(names(acc@).to_set() + Set::empty() =~= names(acc@).to_set());
            },
            Formula::Var(v) => {
                let ghost before = names(acc@);
                if !contains_name(acc, v) {
                    acc.push(v.clone());
                    assert(names(acc@) =~= before.push(v@));
                    assert(names(acc@).to_set() =~= before.to_set() + vars_of(self@)) by {
                        before.lemma_push_to_set_commute(v@);
                    }
                } else {
                    assert(before.to_set() + vars_of(self@) =~= before.to_set());
                }
            },
            Formula::Not(f) => f.vars_aux(acc),
            Formula::And(a, b) => {
                let ghost s0 = names(acc@).to_set();
                a.vars_aux(acc);
                b.vars_aux(acc);
                assert(names(acc@).to_set() =~= s0 + vars_of(self@));
            },
            Formula::Or(a, b) => {
                let ghost s0 = names(acc@).to_set();
                a.vars_aux(acc);
                b.vars_aux(acc);
                assert(names(acc@).to_set() =~= s0 + vars_of(self@));
            },
            Formula::Imp(a, b) => {
                let ghost s0 = names(acc@).to_set();
                a.vars_aux(acc);
                b.vars_aux(acc);
                assert(names(acc@).to_set() =~= s0 + vars_of(self@));
            },
        }
    }

    /// The variables that occur in the formula, each once.
    pub fn vars(&self) -> (r: Vec<String>)
        ensures
            names(r@).no_duplicates(),
            names(r@).to_set() == vars_of(self@),
    {
        let mut acc: Vec<String> = Vec::new();
        assert(names(acc@) =~= Seq::<Seq<char>>::empty());
        self.vars_aux(&mut acc);
        assert(names(Seq::<String>::empty()).to_set() + vars_of(self@) =~= vars_of(self@));
        acc
    }
}


/// How a formula is written: connectives in parentheses; a negation shows only the negated
/// formula.
pub open spec fn show(f: FormulaView) -> Seq<char>
    decreases f,
{
    match f {
        FormulaView::Top => "Top"@,
        FormulaView::Bot => "Bot"@,
        FormulaView::Var(v) => v,
        FormulaView::Not(g) => show(*g),
        FormulaView::And(a, b) => "("@ + show(*a) + " . "@ + show(*b) + ")"@,
        FormulaView::Or(a, b) => "("@ + show(*a) + " | "@ + show(*b) + ")"@,
        FormulaView::Imp(a, b) => "("@ + show(*a) + " -> "@ + show(*b) + ")"@,
    }
}

/// Formulas written one after the other, separated by `, `.
pub open spec fn show_list(fs: Seq<FormulaView>) -> Seq<char>
    decreases fs.len(),
{
    if fs.len() == 0 {
        Seq::empty()
    } else if fs.len() == 1 {
        show(fs[0])
    } else {
        show_list(fs.drop_last()) + ", "@ + show(fs.last())
    }
}

/// `n` spaces.
pub open spec fn spaces(n: nat) -> Seq<char> {
    Seq::new(n, |i: int| ' ')
}

/// How a proof tree is written at indentation `indent`: its name, its arguments in parentheses,
/// and after a colon its premises, each on lines of their own two columns further in.
pub open spec fn show_proof(p: ProofView, indent: nat) -> Seq<char>
    decreases p,
{
    spaces(indent) + p.name + (if p.args.len() != 0 {
        "("@ + show_list(p.args) + ")"@
    } else {
        Seq::empty()
    }) + (if p.children.len() != 0 {
        ":\n"@ + show_children(p.children, indent + 2)
    } else {
        "\n"@
    })
}

/// Proof trees written one after the other.
pub open spec fn show_children(cs: Seq<ProofView>, indent: nat) -> Seq<char>
    decreases cs,
{
    if cs.len() == 0 {
        Seq::empty()
    } else {
        show_children(cs.drop_last(), indent) + show_proof(cs.last(), indent)
    }
}

/// The number of nested levels of a proof tree.
pub open spec fn proof_depth(p: ProofView) -> nat
    decreases p,
{
    1 + children_depth(p.children)
}

/// The largest depth among proof trees.
pub open spec fn children_depth(cs: Seq<ProofView>) -> nat
    decreases cs,
{
    if cs.len() == 0 {
        0
    } else {
        let a = children_depth(cs.drop_last());
        let b = proof_depth(cs.last());
        if a < b {
            b
        } else {
            a
        }
    }
}

impl Formula {
    /// The formula as it is written.
    pub fn to_string(&self) -> (r: String)
        ensures
            r@ == show(self@),
        decreases self,
    {
        match self {
            Formula::Top => String::from_str("Top"),
            Formula::Bot => String::from_str("Bot"),
            Formula::Var(v) => v.clone(),
            Formula::Not(inner) => inner.to_string(),
            Formula::And(left, right) => {
                let mut s = String::from_str("(");
                s.append(left.to_string().as_str());
                s.append(" . ");
                s.append(right.to_string().as_str());
                s.append(")");
                s
            },
            Formula::Or(left, right) => {
                let mut s = String::from_str("(");
                s.append(left.to_string().as_str());
                s.append(" | ");
                s.append(right.to_string().as_str());
                s.append(")");
                s
            },
            Formula::Imp(left, right) => {
                let mut s = String::from_str("(");
                s.append(left.to_string().as_str());
                s.append(" -> ");
                s.append(right.to_string().as_str());
                s.append(")");
                s
            },
        }
    }
}

/// Appends the formulas of `fs`, separated by `, `, to `out`.
fn push_list(fs: &Vec<Formula>, out: &mut String)
    ensures
        final(out)@ == old(out)@ + show_list(formulas_view(fs@)),
{
    let ghost start = out@;
    let mut i: usize = 0;
    while i < fs.len()
        invariant
            i <= fs@.len(),
            out@ == start + show_list(formulas_view(fs@).take(i as int)),
        decreases fs@.len() - i,
    {
        let ghost prev = formulas_view(fs@).take(i as int);
        if i > 0 {
            out.append(", ");
        }
        out.append(fs[i].to_string().as_str());
        proof {
            let next = formulas_view(fs@).take(i + 1);
            assert(next.drop_last() =~= prev);
            assert(next.last() == fs@[i as int]@);
            if i == 0 {
                assert(next =~= seq![fs@[0]@]);
            }
        }
        i = i + 1;
    }
    assert(formulas_view(fs@).take(fs@.len() as int) =~= formulas_view(fs@));
}

/// Appends `n` spaces to `out`.
fn push_spaces(n: usize, out: &mut String)
    ensures
        final(out)@ == old(out)@ + spaces(n as nat),
{
    let ghost start = out@;
    let mut i: usize = 0;
    proof {
        reveal_strlit(" ");
    }
    while i < n
        invariant
            i <= n,
            out@ == start + spaces(i as nat),
            " "@ == seq![' '],
        decreases n - i,
    {
        out.append(" ");
        assert(spaces((i + 1) as nat) =~= spaces(i as nat) + seq![' ']);
        i = i + 1;
    }
}

/// Appends the proof tree `p`, written at indentation `indent`, to `out`.
fn push_proof(p: &Proof, indent: usize, out: &mut String)
    requires
        indent + 2 * proof_depth(p.model()) <= usize::MAX,
    ensures
        final(out)@ == old(out)@ + show_proof(p.model(), indent as nat),
    decreases p,
{
    let ghost start = out@;
    push_spaces(indent, out);
    out.append(p.name.as_str());
    if p.args.len() != 0 {
        out.append("(");
        push_list(&p.args, out);
        out.append(")");
    }
    let ghost mid = out@;
    if p.children.len() != 0 {
        out.append(":\n");
        let ghost after_colon = out@;
        let mut i: usize = 0;
        while i < p.children.len()
            invariant
                i <= p.children@.len(),
                indent + 2 * proof_depth(p.model()) <= usize::MAX,
                out@ == after_colon + show_children(proofs_view(p.children@.take(i as int)), (indent + 2) as nat),
            decreases p.children@.len() - i,
        {
            proof {
                lemma_child_depth(p.children@, i as int);
                assert(p.model().children == proofs_view(p.children@));
            }
            push_proof(&p.children[i], indent + 2, out);
            proof {
                let next = p.children@.take(i + 1);
                assert(next.drop_last() =~= p.children@.take(i as int));
                assert(next.last() == p.children@[i as int]);
                let pv = proofs_view(next);
                assert(pv == proofs_view(p.children@.take(i as int)).push(p.children@[i as int].model()));
                assert(pv.drop_last() =~= proofs_view(p.children@.take(i as int)));
            }
            i = i + 1;
        }
        assert(p.children@.take(p.children@.len() as int) =~= p.children@);
    } else {
        out.append("\n");
    }
}

proof fn lemma_proofs_view(cs: Seq<Proof>)
    ensures
        proofs_view(cs).len() == cs.len(),
        forall|i: int| 0 <= i < cs.len() ==> #[trigger] proofs_view(cs)[i] == cs[i].model(),
    decreases cs.len(),
{
    if cs.len() > 0 {
        lemma_proofs_view(cs.drop_last());
        assert forall|i: int| 0 <= i < cs.len() implies #[trigger] proofs_view(cs)[i] == cs[i].model() by {
            if i < cs.len() - 1 {
                assert(cs.drop_last()[i] == cs[i]);
            }
        }
    }
}

proof fn lemma_children_depth(vs: Seq<ProofView>, i: int)
    requires
        0 <= i < vs.len(),
    ensures
        proof_depth(vs[i]) <= children_depth(vs),
    decreases vs.len(),
{
    if i < vs.len() - 1 {
        lemma_children_depth(vs.drop_last(), i);
        assert(vs.drop_last()[i] == vs[i]);
    }
}

proof fn lemma_child_depth(cs: Seq<Proof>, i: int)
    requires
        0 <= i < cs.len(),
    ensures
        proof_depth(cs[i].model()) <= children_depth(proofs_view(cs)),
{
    lemma_proofs_view(cs);
    lemma_children_depth(proofs_view(cs), i);
}

impl Proof {
    /// The proof tree as it is written: one rule per line, premises two columns further in.
    pub fn to_string(&self) -> (r: String)
        requires
            2 * proof_depth(self.model()) <= usize::MAX,
        ensures
            r@ == show_proof(self.model(), 0),
    {
        let mut out = String::new();
        push_proof(self, 0, &mut out);
        out
    }
}

/// Writes a list of hypotheses.
pub struct ContextPrinter<'a>(pub &'a Vec<Formula>);

impl<'a> ContextPrinter<'a> {
    /// The hypotheses, separated by `, `.
    pub fn to_string(&self) -> (r: String)
        ensures
            r@ == show_list(formulas_view(self.0@)),
    {
        let mut out = String::new();
        push_list(self.0, &mut out);
        out
    }
}

impl Clone for Proof {
    /// A copy of the proof tree.
    fn clone(&self) -> (r: Self)
        ensures
            r.model() == self.model(),
        decreases self,
    {
        let mut args: Vec<Formula> = Vec::new();
        let mut i: usize = 0;
        while i < self.args.len()
            invariant
                i <= self.args@.len(),
                args@ == self.args@.subrange(0, i as int),
            decreases self.args@.len() - i,
        {
            args.push(self.args[i].clone());
            i = i + 1;
            assert(args@ =~= self.args@.subrange(0, i as int));
        }
        assert(args@ =~= self.args@);
        let mut children: Vec<Proof> = Vec::new();
        let mut k: usize = 0;
        while k < self.children.len()
            invariant
                k <= self.children@.len(),
                children@.len() == k,
                forall|j: int| 0 <= j < k ==> (#[trigger] children@[j]).model() == self.children@[j].model(),
            decreases self.children@.len() - k,
        {
            let c = self.children[k].clone();
            children.push(c);
            k = k + 1;
        }
        proof {
            lemma_proofs_view(children@);
            lemma_proofs_view(self.children@);
            assert(proofs_view(children@) =~= proofs_view(self.children@));
        }
        Proof { name: self.name.clone(), args, children }
    }
}

impl Clone for Statement {
    /// A copy of the statement.
    fn clone(&self) -> (r: Self)
        ensures
            r.model() == self.model(),
    {
        let mut args: Vec<(String, bool)> = Vec::new();
        let mut i: usize = 0;
        while i < self.args.len()
            invariant
                i <= self.args@.len(),
                args@.len() == i,
                forall|j: int| 0 <= j < i ==> (#[trigger] args@[j]).0@ == self.args@[j].0@ && args@[j].1
                    == self.args@[j].1,
            decreases self.args@.len() - i,
        {
            args.push((self.args[i].0.clone(), self.args[i].1));
            i = i + 1;
        }
        assert(args_view(args@) =~= args_view(self.args@));
        let mut context: Vec<Formula> = Vec::new();
        let mut k: usize = 0;
        while k < self.context.len()
            invariant
                k <= self.context@.len(),
                context@ == self.context@.subrange(0, k as int),
            decreases self.context@.len() - k,
        {
            context.push(self.context[k].clone());
            k = k + 1;
            assert(context@ =~= self.context@.subrange(0, k as int));
        }
        assert(context@ =~= self.context@);
        Statement {
            name: self.name.clone(),
            args,
            context,
            prop: self.prop.clone(),
            proof: self.proof.clone(),
        }
    }
}

/// A written list of formulas: nothing for no formula, the formula itself for one, and each
/// further formula after `, ` (so `n` formulas are written with `n - 1` separators).
pub proof fn law_show_list(fs: Seq<FormulaView>, f: FormulaView)
    ensures
        show_list(Seq::empty()) == Seq::<char>::empty(),
        show_list(seq![f]) == show(f),
        fs.len() > 0 ==> show_list(fs.push(f)) == show_list(fs) + seq![',', ' '] + show(f),
{
    reveal_strlit(", ");
    assert(seq![f][0] == f);
    assert(fs.push(f).drop_last() =~= fs);
    assert(", "@ =~= seq![',', ' ']);
}

/// How each kind of formula is written: constants by name, variables as they are, a negation as
/// its operand, and a binary connective in parentheses with ` . `, ` | ` or ` -> ` between its
/// operands.
pub proof fn law_show(a: FormulaView, b: FormulaView, v: Seq<char>)
    ensures
        show(FormulaView::Top) == seq!['T', 'o', 'p'],
        show(FormulaView::Bot) == seq!['B', 'o', 't'],
        show(FormulaView::Var(v)) == v,
        show(FormulaView::Not(Box::new(a))) == show(a),
        show(FormulaView::And(Box::new(a), Box::new(b))) == seq!['('] + show(a) + seq![' ', '.', ' ']
            + show(b) + seq![')'],
        show(FormulaView::Or(Box::new(a), Box::new(b))) == seq!['('] + show(a) + seq![' ', '|', ' ']
            + show(b) + seq![')'],
        show(FormulaView::Imp(Box::new(a), Box::new(b))) == seq!['('] + show(a) + seq![
            ' ',
            '-',
            '>',
            ' ',
        ] + show(b) + seq![')'],
{
    reveal_strlit("Top");
    reveal_strlit("Bot");
    reveal_strlit("(");
    reveal_strlit(")");
    reveal_strlit(" . ");
    reveal_strlit(" | ");
    reveal_strlit(" -> ");
    assert("Top"@ =~= seq!['T', 'o', 'p']);
    assert("Bot"@ =~= seq!['B', 'o', 't']);
    assert("("@ =~= seq!['(']);
    assert(")"@ =~= seq![')']);
    assert(" . "@ =~= seq![' ', '.', ' ']);
    assert(" | "@ =~= seq![' ', '|', ' ']);
    assert(" -> "@ =~= seq![' ', '-', '>', ' ']);
}

/// How a proof tree is written at indentation `i`: `i` spaces, the rule's name, its arguments
/// as a written list in parentheses where it has any, then a line break where it has no
/// premise, or `:`, a line break and each premise in order, written two columns further in.
pub proof fn law_show_proof(p: ProofView, i: nat, c: ProofView, cs: Seq<ProofView>)
    ensures
        show_proof(p, i) == Seq::new(i, |k: int| ' ') + p.name + (if p.args.len() != 0 {
            seq!['('] + show_list(p.args) + seq![')']
        } else {
            Seq::empty()
        }) + (if p.children.len() != 0 {
            seq![':', '\n'] + show_children(p.children, i + 2)
        } else {
            seq!['\n']
        }),
        show_children(Seq::empty(), i) == Seq::<char>::empty(),
        show_children(cs.push(c), i) == show_children(cs, i) + show_proof(c, i),
{
    reveal_strlit("(");
    reveal_strlit(")");
    reveal_strlit(":\n");
    reveal_strlit("\n");
    assert("("@ =~= seq!['(']);
    assert(")"@ =~= seq![')']);
    assert(":\n"@ =~= seq![':', '\n']);
    assert("\n"@ =~= seq!['\n']);
    assert(spaces(i) =~= Seq::new(i, |k: int| ' '));
    assert(cs.push(c).drop_last() =~= cs);
}

} // verus!
