use vstd::prelude::*;
use vstd::string::*;

use crate::ast::{Formula, FormulaView, formulas_view, names, vars_of};
use crate::checker::CheckingError;

verus! {

/// Names that start with `$` stand for formulas still to be inferred.
pub open spec fn is_meta(v: Seq<char>) -> bool {
    v.len() > 0 && v[0] == '$'
}

/// The inference variables that occur in `f`.
pub open spec fn meta_vars(f: FormulaView) -> Set<Seq<char>>
    decreases f,
{
    match f {
        FormulaView::Top => Set::empty(),
        FormulaView::Bot => Set::empty(),
        FormulaView::Var(v) => if is_meta(v) {
            Set::empty().insert(v)
        } else {
            Set::empty()
        },
        FormulaView::Not(g) => meta_vars(*g),
        FormulaView::And(a, b) => meta_vars(*a) + meta_vars(*b),
        FormulaView::Or(a, b) => meta_vars(*a) + meta_vars(*b),
        FormulaView::Imp(a, b) => meta_vars(*a) + meta_vars(*b),
    }
}

/// No inference variable occurs in `f`.
pub open spec fn meta_free(f: FormulaView) -> bool
    decreases f,
{
    match f {
        FormulaView::Top => true,
        FormulaView::Bot => true,
        FormulaView::Var(v) => !is_meta(v),
        FormulaView::Not(g) => meta_free(*g),
        FormulaView::And(a, b) => meta_free(*a) && meta_free(*b),
        FormulaView::Or(a, b) => meta_free(*a) && meta_free(*b),
        FormulaView::Imp(a, b) => meta_free(*a) && meta_free(*b),
    }
}

/// The first inference variable of `f`, reading from left to right.
pub open spec fn first_meta(f: FormulaView) -> Option<Seq<char>>
    decreases f,
{
    match f {
        FormulaView::Top => None,
        FormulaView::Bot => None,
        FormulaView::Var(v) => if is_meta(v) {
            Some(v)
        } else {
            None
        },
        FormulaView::Not(g) => first_meta(*g),
        FormulaView::And(a, b) => if first_meta(*a) is Some {
            first_meta(*a)
        } else {
            first_meta(*b)
        },
        FormulaView::Or(a, b) => if first_meta(*a) is Some {
            first_meta(*a)
        } else {
            first_meta(*b)
        },
        FormulaView::Imp(a, b) => if first_meta(*a) is Some {
            first_meta(*a)
        } else {
            first_meta(*b)
        },
    }
}

/// Simultaneous substitution: every variable in the domain of `s` is replaced by its image.
pub open spec fn apply(f: FormulaView, s: Map<Seq<char>, FormulaView>) -> FormulaView
    decreases f,
{
    match f {
        FormulaView::Top => FormulaView::Top,
        FormulaView::Bot => FormulaView::Bot,
        FormulaView::Var(v) => if s.contains_key(v) {
            s[v]
        } else {
            FormulaView::Var(v)
        },
        FormulaView::Not(g) => FormulaView::Not(Box::new(apply(*g, s))),
        FormulaView::And(a, b) => FormulaView::And(Box::new(apply(*a, s)), Box::new(apply(*b, s))),
        FormulaView::Or(a, b) => FormulaView::Or(Box::new(apply(*a, s)), Box::new(apply(*b, s))),
        FormulaView::Imp(a, b) => FormulaView::Imp(Box::new(apply(*a, s)), Box::new(apply(*b, s))),
    }
}

/// The substitution of one variable.
pub open spec fn single(v: Seq<char>, val: FormulaView) -> Map<Seq<char>, FormulaView> {
    Map::empty().insert(v, val)
}

/// Every variable not in `except` is renamed to an inference variable by prefixing it with `$`.
pub open spec fn mark_metas(f: FormulaView, except: Seq<Seq<char>>) -> FormulaView
    decreases f,
{
    match f {
        FormulaView::Top => FormulaView::Top,
        FormulaView::Bot => FormulaView::Bot,
        FormulaView::Var(v) => if except.contains(v) {
            FormulaView::Var(v)
        } else {
            FormulaView::Var(seq!['$'] + v)
        },
        FormulaView::Not(g) => FormulaView::Not(Box::new(mark_metas(*g, except))),
        FormulaView::And(a, b) => FormulaView::And(
            Box::new(mark_metas(*a, except)),
            Box::new(mark_metas(*b, except)),
        ),
        FormulaView::Or(a, b) => FormulaView::Or(
            Box::new(mark_metas(*a, except)),
            Box::new(mark_metas(*b, except)),
        ),
        FormulaView::Imp(a, b) => FormulaView::Imp(
            Box::new(mark_metas(*a, except)),
            Box::new(mark_metas(*b, except)),
        ),
    }
}

/// The map that a list of bindings builds when they are inserted in order: a later binding of a
/// name replaces an earlier one.
pub open spec fn assoc_map(s: Seq<(String, Formula)>) -> Map<Seq<char>, FormulaView>
    decreases s.len(),
{
    if s.len() == 0 {
        Map::empty()
    } else {
        assoc_map(s.drop_last()).insert(s.last().0@, s.last().1@)
    }
}

/// A substitution that only replaces inference variables, by formulas free of them.
pub open spec fn is_meta_subst(s: Map<Seq<char>, FormulaView>) -> bool {
    forall|k: Seq<char>| #[trigger] s.contains_key(k) ==> is_meta(k) && meta_free(s[k])
}

/// `s` instantiates `pattern` into `target`.
pub open spec fn is_matcher(
    s: Map<Seq<char>, FormulaView>,
    pattern: FormulaView,
    target: FormulaView,
) -> bool {
    is_meta_subst(s) && apply(pattern, s) == target
}

pub proof fn lemma_first_meta(f: FormulaView)
    ensures
        first_meta(f) is None <==> meta_free(f),
        first_meta(f) matches Some(v) ==> meta_vars(f).contains(v),
    decreases f,
{
    match f {
        FormulaView::Not(g) => lemma_first_meta(*g),
        FormulaView::And(a, b) => {
            lemma_first_meta(*a);
            lemma_first_meta(*b);
        },
        FormulaView::Or(a, b) => {
            lemma_first_meta(*a);
            lemma_first_meta(*b);
        },
        FormulaView::Imp(a, b) => {
            lemma_first_meta(*a);
            lemma_first_meta(*b);
        },
        _ => {},
    }
}

pub proof fn lemma_meta_free_vars(f: FormulaView)
    ensures
        meta_free(f) <==> (forall|v: Seq<char>| !meta_vars(f).contains(v)),
        forall|v: Seq<char>| meta_vars(f).contains(v) ==> is_meta(v),
    decreases f,
{
    match f {
        FormulaView::Not(g) => {
            assert(meta_vars(f) == meta_vars(*g));
            lemma_meta_free_vars(*g);
        },
        FormulaView::And(a, b) => {
            lemma_meta_free_vars(*a);
            lemma_meta_free_vars(*b);
            assert(meta_vars(f) == meta_vars(*a) + meta_vars(*b));
            if !meta_free(*a) {
                let w = choose|v: Seq<char>| meta_vars(*a).contains(v);
                assert(meta_vars(f).contains(w));
            }
            if !meta_free(*b) {
                let w = choose|v: Seq<char>| meta_vars(*b).contains(v);
                assert(meta_vars(f).contains(w));
            }
        },
        FormulaView::Or(a, b) => {
            lemma_meta_free_vars(*a);
            lemma_meta_free_vars(*b);
            assert(meta_vars(f) == meta_vars(*a) + meta_vars(*b));
            if !meta_free(*a) {
                let w = choose|v: Seq<char>| meta_vars(*a).contains(v);
                assert(meta_vars(f).contains(w));
            }
            if !meta_free(*b) {
                let w = choose|v: Seq<char>| meta_vars(*b).contains(v);
                assert(meta_vars(f).contains(w));
            }
        },
        FormulaView::Imp(a, b) => {
            lemma_meta_free_vars(*a);
            lemma_meta_free_vars(*b);
            assert(meta_vars(f) == meta_vars(*a) + meta_vars(*b));
            if !meta_free(*a) {
                let w = choose|v: Seq<char>| meta_vars(*a).contains(v);
                assert(meta_vars(f).contains(w));
            }
            if !meta_free(*b) {
                let w = choose|v: Seq<char>| meta_vars(*b).contains(v);
                assert(meta_vars(f).contains(w));
            }
        },
        FormulaView::Var(v) => {
            if is_meta(v) {
                assert(meta_vars(f).contains(v));
            }
        },
        _ => {},
    }
}

/// A substitution of inference variables leaves a formula free of them unchanged.
pub proof fn lemma_apply_meta_free(f: FormulaView, s: Map<Seq<char>, FormulaView>)
    requires
        meta_free(f),
        forall|k: Seq<char>| #[trigger] s.contains_key(k) ==> is_meta(k),
    ensures
        apply(f, s) == f,
    decreases f,
{
    match f {
        FormulaView::Not(g) => lemma_apply_meta_free(*g, s),
        FormulaView::And(a, b) => {
            lemma_apply_meta_free(*a, s);
            lemma_apply_meta_free(*b, s);
        },
        FormulaView::Or(a, b) => {
            lemma_apply_meta_free(*a, s);
            lemma_apply_meta_free(*b, s);
        },
        FormulaView::Imp(a, b) => {
            lemma_apply_meta_free(*a, s);
            lemma_apply_meta_free(*b, s);
        },
        _ => {},
    }
}

/// The result of a substitution of inference variables is free of them exactly when the
/// substitution covers every inference variable of the formula.
pub proof fn lemma_apply_result_meta_free(f: FormulaView, s: Map<Seq<char>, FormulaView>)
    requires
        is_meta_subst(s),
    ensures
        meta_free(apply(f, s)) <==> meta_vars(f).subset_of(s.dom()),
    decreases f,
{
    match f {
        FormulaView::Not(g) => lemma_apply_result_meta_free(*g, s),
        FormulaView::And(a, b) => {
            lemma_apply_result_meta_free(*a, s);
            lemma_apply_result_meta_free(*b, s);
        },
        FormulaView::Or(a, b) => {
            lemma_apply_result_meta_free(*a, s);
            lemma_apply_result_meta_free(*b, s);
        },
        FormulaView::Imp(a, b) => {
            lemma_apply_result_meta_free(*a, s);
            lemma_apply_result_meta_free(*b, s);
        },
        FormulaView::Var(v) => {
            if s.contains_key(v) {
                assert(meta_free(s[v]));
            }
        },
        _ => {},
    }
}

/// Two substitutions of inference variables that agree on the inference variables of `f` give
/// the same instance of `f`.
pub proof fn lemma_apply_agree(
    f: FormulaView,
    s1: Map<Seq<char>, FormulaView>,
    s2: Map<Seq<char>, FormulaView>,
)
    requires
        is_meta_subst(s1),
        is_meta_subst(s2),
        forall|v: Seq<char>|
            #[trigger] meta_vars(f).contains(v) ==> s1.contains_key(v) && s2.contains_key(v)
                && s1[v] == s2[v],
    ensures
        apply(f, s1) == apply(f, s2),
    decreases f,
{
    match f {
        FormulaView::Not(g) => {
            assert(meta_vars(f) == meta_vars(*g));
            lemma_apply_agree(*g, s1, s2);
        },
        FormulaView::And(a, b) => {
            lemma_agree_split(*a, *b, meta_vars(f), s1, s2);
            lemma_apply_agree(*a, s1, s2);
            lemma_apply_agree(*b, s1, s2);
        },
        FormulaView::Or(a, b) => {
            lemma_agree_split(*a, *b, meta_vars(f), s1, s2);
            lemma_apply_agree(*a, s1, s2);
            lemma_apply_agree(*b, s1, s2);
        },
        FormulaView::Imp(a, b) => {
            lemma_agree_split(*a, *b, meta_vars(f), s1, s2);
            lemma_apply_agree(*a, s1, s2);
            lemma_apply_agree(*b, s1, s2);
        },
        FormulaView::Var(v) => {
            if is_meta(v) {
                assert(meta_vars(f).contains(v));
            }
        },
        _ => {},
    }
}

proof fn lemma_agree_split(
    a: FormulaView,
    b: FormulaView,
    all: Set<Seq<char>>,
    s1: Map<Seq<char>, FormulaView>,
    s2: Map<Seq<char>, FormulaView>,
)
    requires
        all == meta_vars(a) + meta_vars(b),
        forall|v: Seq<char>|
            #[trigger] all.contains(v) ==> s1.contains_key(v) && s2.contains_key(v) && s1[v]
                == s2[v],
    ensures
        forall|v: Seq<char>|
            #[trigger] meta_vars(a).contains(v) ==> s1.contains_key(v) && s2.contains_key(v)
                && s1[v] == s2[v],
        forall|v: Seq<char>|
            #[trigger] meta_vars(b).contains(v) ==> s1.contains_key(v) && s2.contains_key(v)
                && s1[v] == s2[v],
{
    assert forall|v: Seq<char>| #[trigger] meta_vars(a).contains(v) implies s1.contains_key(v)
        && s2.contains_key(v) && s1[v] == s2[v] by {
        assert(all.contains(v));
    }
    assert forall|v: Seq<char>| #[trigger] meta_vars(b).contains(v) implies s1.contains_key(v)
        && s2.contains_key(v) && s1[v] == s2[v] by {
        assert(all.contains(v));
    }
}

/// Two instantiations of `pattern` into a target free of inference variables agree on every
/// inference variable of the pattern.
pub proof fn lemma_matchers_agree(
    pattern: FormulaView,
    target: FormulaView,
    s1: Map<Seq<char>, FormulaView>,
    s2: Map<Seq<char>, FormulaView>,
)
    requires
        meta_free(target),
        is_matcher(s1, pattern, target),
        is_matcher(s2, pattern, target),
    ensures
        forall|v: Seq<char>|
            #[trigger] meta_vars(pattern).contains(v) ==> s1.contains_key(v) && s2.contains_key(v)
                && s1[v] == s2[v],
    decreases pattern,
{
    match pattern {
        FormulaView::Not(g) => {
            assert(meta_vars(pattern) == meta_vars(*g));
            lemma_matchers_agree(*g, apply(*g, s1), s1, s2);
        },
        FormulaView::And(a, b) => {
            lemma_matchers_agree(*a, apply(*a, s1), s1, s2);
            lemma_matchers_agree(*b, apply(*b, s1), s1, s2);
            assert forall|v: Seq<char>| #[trigger] meta_vars(pattern).contains(v) implies s1.contains_key(v)
                && s2.contains_key(v) && s1[v] == s2[v] by {
                if meta_vars(*a).contains(v) {
                } else {
                    assert(meta_vars(*b).contains(v));
                }
            }
        },
        FormulaView::Or(a, b) => {
            lemma_matchers_agree(*a, apply(*a, s1), s1, s2);
            lemma_matchers_agree(*b, apply(*b, s1), s1, s2);
            assert forall|v: Seq<char>| #[trigger] meta_vars(pattern).contains(v) implies s1.contains_key(v)
                && s2.contains_key(v) && s1[v] == s2[v] by {
                if meta_vars(*a).contains(v) {
                } else {
                    assert(meta_vars(*b).contains(v));
                }
            }
        },
        FormulaView::Imp(a, b) => {
            lemma_matchers_agree(*a, apply(*a, s1), s1, s2);
            lemma_matchers_agree(*b, apply(*b, s1), s1, s2);
            assert forall|v: Seq<char>| #[trigger] meta_vars(pattern).contains(v) implies s1.contains_key(v)
                && s2.contains_key(v) && s1[v] == s2[v] by {
                if meta_vars(*a).contains(v) {
                } else {
                    assert(meta_vars(*b).contains(v));
                }
            }
        },
        _ => {},
    }
}

/// Substituting a fresh inference variable after a substitution is the same as extending the
/// substitution.
pub proof fn lemma_compose(
    f: FormulaView,
    acc: Map<Seq<char>, FormulaView>,
    v: Seq<char>,
    val: FormulaView,
)
    requires
        is_meta_subst(acc),
        is_meta(v),
        meta_free(val),
        !acc.contains_key(v),
    ensures
        apply(f, acc.insert(v, val)) == apply(apply(f, acc), single(v, val)),
    decreases f,
{
    match f {
        FormulaView::Not(g) => lemma_compose(*g, acc, v, val),
        FormulaView::And(a, b) => {
            lemma_compose(*a, acc, v, val);
            lemma_compose(*b, acc, v, val);
        },
        FormulaView::Or(a, b) => {
            lemma_compose(*a, acc, v, val);
            lemma_compose(*b, acc, v, val);
        },
        FormulaView::Imp(a, b) => {
            lemma_compose(*a, acc, v, val);
            lemma_compose(*b, acc, v, val);
        },
        FormulaView::Var(x) => {
            if x != v && acc.contains_key(x) {
                lemma_apply_meta_free(acc[x], single(v, val));
            }
        },
        _ => {},
    }
}

/// Under a substitution that already maps `v` to `val`, substituting `v` by `val` first changes
/// nothing.
pub proof fn lemma_subst_invisible(
    r: FormulaView,
    v: Seq<char>,
    val: FormulaView,
    s: Map<Seq<char>, FormulaView>,
)
    requires
        is_meta_subst(s),
        s.contains_key(v),
        s[v] == val,
        meta_free(val),
    ensures
        apply(apply(r, single(v, val)), s) == apply(r, s),
    decreases r,
{
    match r {
        FormulaView::Not(g) => lemma_subst_invisible(*g, v, val, s),
        FormulaView::And(a, b) => {
            lemma_subst_invisible(*a, v, val, s);
            lemma_subst_invisible(*b, v, val, s);
        },
        FormulaView::Or(a, b) => {
            lemma_subst_invisible(*a, v, val, s);
            lemma_subst_invisible(*b, v, val, s);
        },
        FormulaView::Imp(a, b) => {
            lemma_subst_invisible(*a, v, val, s);
            lemma_subst_invisible(*b, v, val, s);
        },
        FormulaView::Var(x) => {
            if x == v {
                lemma_apply_meta_free(val, s);
            }
        },
        _ => {},
    }
}

/// Substituting a formula free of inference variables for `v` removes `v` and adds no
/// inference variable.
pub proof fn lemma_meta_vars_subst(r: FormulaView, v: Seq<char>, val: FormulaView)
    requires
        meta_free(val),
    ensures
        meta_vars(apply(r, single(v, val))) =~= meta_vars(r).remove(v),
    decreases r,
{
    match r {
        FormulaView::Not(g) => lemma_meta_vars_subst(*g, v, val),
        FormulaView::And(a, b) => {
            lemma_meta_vars_subst(*a, v, val);
            lemma_meta_vars_subst(*b, v, val);
        },
        FormulaView::Or(a, b) => {
            lemma_meta_vars_subst(*a, v, val);
            lemma_meta_vars_subst(*b, v, val);
        },
        FormulaView::Imp(a, b) => {
            lemma_meta_vars_subst(*a, v, val);
            lemma_meta_vars_subst(*b, v, val);
        },
        FormulaView::Var(x) => {
            if x == v {
                lemma_meta_free_vars(val);
            }
        },
        _ => {},
    }
}

/// Whether a variable name denotes an inference variable.
pub fn starts_with_dollar(s: &String) -> (r: bool)
    ensures
        r == is_meta(s@),
{
    let t = s.as_str();
    if t.unicode_len() == 0 {
        false
    } else {
        t.get_char(0) == '$'
    }
}


/// Prefixes every variable of `f` that is not listed in `except` with `$`, turning it into an
/// inference variable.
pub fn add_substitution_variables(f: &mut Formula, except: &Vec<String>)
    ensures
        final(f)@ == mark_metas(old(f)@, names(except@)),
    decreases *old(f),
{
    let rename = match &*f {
        Formula::Var(v) => !crate::ast::contains_name(except, v),
        _ => false,
    };
    if rename {
        if let Formula::Var(v) = &*f {
            proof {
                reveal_strlit("$");
            }
            let mut marked = String::from_str("$");
            assert(marked@ =~= seq!['$']);
            marked.append(v.as_str());
            assert(marked@ =~= seq!['$'] + v@);
            *f = Formula::Var(marked);
        }
        return;
    }
    match f {
        Formula::Var(_) | Formula::Top | Formula::Bot => {},
        Formula::Not(inner) => add_substitution_variables(inner, except),
        Formula::And(left, right) => {
            add_substitution_variables(left, except);
            add_substitution_variables(right, except);
        },
        Formula::Or(left, right) => {
            add_substitution_variables(left, except);
            add_substitution_variables(right, except);
        },
        Formula::Imp(left, right) => {
            add_substitution_variables(left, except);
            add_substitution_variables(right, except);
        },
    }
}

/// Checks that no inference variable is left in `f`; otherwise returns the first one.
pub fn assert_complete_substitution(f: &Formula) -> (r: Result<(), String>)
    ensures
        r is Ok <==> meta_free(f@),
        match r {
            Ok(_) => first_meta(f@) is None,
            Err(v) => first_meta(f@) == Some(v@),
        },
    decreases f,
{
    proof {
        lemma_first_meta(f@);
    }
    match f {
        Formula::Top => Ok(()),
        Formula::Bot => Ok(()),
        Formula::Var(v) => if !starts_with_dollar(v) {
            Ok(())
        } else {
            Err(v.clone())
        },
        Formula::Not(inner) => assert_complete_substitution(inner),
        Formula::And(left, right) => {
            assert_complete_substitution(left)?;
            assert_complete_substitution(right)?;
            Ok(())
        },
        Formula::Or(left, right) => {
            assert_complete_substitution(left)?;
            assert_complete_substitution(right)?;
            Ok(())
        },
        Formula::Imp(left, right) => {
            assert_complete_substitution(left)?;
            assert_complete_substitution(right)?;
            Ok(())
        },
    }
}

/// Replaces every occurrence of the variable `var` in `f` by `value`.
pub fn subst(f: &mut Formula, var: &str, value: &Formula)
    ensures
        final(f)@ == apply(old(f)@, single(var@, value@)),
    decreases *old(f),
{
    let hit = match &*f {
        Formula::Var(v) => *v == var.to_owned(),
        _ => false,
    };
    if hit {
        *f = value.clone();
        return;
    }
    match f {
        Formula::Var(_) | Formula::Top | Formula::Bot => {},
        Formula::Not(inner) => subst(inner, var, value),
        Formula::And(left, right) => {
            subst(left, var, value);
            subst(right, var, value);
        },
        Formula::Or(left, right) => {
            subst(left, var, value);
            subst(right, var, value);
        },
        Formula::Imp(left, right) => {
            subst(left, var, value);
            subst(right, var, value);
        },
    }
}

proof fn lemma_assoc_last(s: Seq<(String, Formula)>, j: int, key: Seq<char>)
    requires
        0 <= j < s.len(),
        s[j].0@ == key,
        forall|k: int| j < k < s.len() ==> s[k].0@ != key,
    ensures
        assoc_map(s).contains_key(key),
        assoc_map(s)[key] == s[j].1@,
    decreases s.len(),
{
    if j < s.len() - 1 {
        lemma_assoc_last(s.drop_last(), j, key);
    }
}

proof fn lemma_assoc_absent(s: Seq<(String, Formula)>, key: Seq<char>)
    requires
        forall|k: int| 0 <= k < s.len() ==> s[k].0@ != key,
    ensures
        !assoc_map(s).contains_key(key),
    decreases s.len(),
{
    if s.len() > 0 {
        lemma_assoc_absent(s.drop_last(), key);
    }
}

/// The position of the last binding of `var` in `map`.
fn lookup_last(map: &Vec<(String, Formula)>, var: &String) -> (r: Option<usize>)
    ensures
        match r {
            Some(j) => j < map@.len() && map@[j as int].0@ == var@ && assoc_map(map@).contains_key(var@)
                && assoc_map(map@)[var@] == map@[j as int].1@,
            None => !assoc_map(map@).contains_key(var@),
        },
{
    let mut i = map.len();
    while i > 0
        invariant
            i <= map@.len(),
            forall|k: int| i <= k < map@.len() ==> map@[k].0@ != var@,
        decreases i,
    {
        if map[i - 1].0 == *var {
            proof {
                lemma_assoc_last(map@, i - 1, var@);
            }
            return Some(i - 1);
        }
        i = i - 1;
    }
    proof {
        lemma_assoc_absent(map@, var@);
    }
    None
}

/// Replaces, at once, every variable bound in `map` by the formula it is bound to; a later
/// binding of a name wins over an earlier one.
pub fn subst_many(f: &mut Formula, map: &Vec<(String, Formula)>)
    ensures
        final(f)@ == apply(old(f)@, assoc_map(map@)),
    decreases *old(f),
{
    let found = match &*f {
        Formula::Var(var) => lookup_last(map, var),
        _ => None,
    };
    if let Some(j) = found {
        *f = map[j].1.clone();
        return;
    }
    match f {
        Formula::Var(_) | Formula::Top | Formula::Bot => {},
        Formula::Not(inner) => subst_many(inner, map),
        Formula::And(left, right) => {
            subst_many(left, map);
            subst_many(right, map);
        },
        Formula::Or(left, right) => {
            subst_many(left, map);
            subst_many(right, map);
        },
        Formula::Imp(left, right) => {
            subst_many(left, map);
            subst_many(right, map);
        },
    }
}


/// The values of a list of constraints.
pub open spec fn pairs_view(c: Seq<(Formula, Formula)>) -> Seq<(FormulaView, FormulaView)> {
    c.map_values(|p: (Formula, Formula)| (p.0@, p.1@))
}

/// The size of a formula: its number of nodes.
pub open spec fn size(f: FormulaView) -> nat
    decreases f,
{
    match f {
        FormulaView::Top => 1,
        FormulaView::Bot => 1,
        FormulaView::Var(_) => 1,
        FormulaView::Not(g) => 1 + size(*g),
        FormulaView::And(a, b) => 1 + size(*a) + size(*b),
        FormulaView::Or(a, b) => 1 + size(*a) + size(*b),
        FormulaView::Imp(a, b) => 1 + size(*a) + size(*b),
    }
}

/// The total size of the left-hand sides of a list of constraints.
pub open spec fn left_size(p: Seq<(FormulaView, FormulaView)>) -> nat
    decreases p.len(),
{
    if p.len() == 0 {
        0
    } else {
        left_size(p.drop_last()) + size(p.last().0)
    }
}

proof fn lemma_left_size_same(p: Seq<(FormulaView, FormulaView)>, q: Seq<(FormulaView, FormulaView)>)
    requires
        p.len() == q.len(),
        forall|k: int| 0 <= k < p.len() ==> p[k].0 == q[k].0,
    ensures
        left_size(p) == left_size(q),
    decreases p.len(),
{
    if p.len() > 0 {
        lemma_left_size_same(p.drop_last(), q.drop_last());
    }
}

/// `s` agrees with `acc` on every variable that `acc` binds.
pub open spec fn agrees(s: Map<Seq<char>, FormulaView>, acc: Map<Seq<char>, FormulaView>) -> bool {
    forall|x: Seq<char>| #[trigger] acc.contains_key(x) ==> s.contains_key(x) && s[x] == acc[x]
}

/// `s` solves every constraint: it turns each right-hand side into its left-hand side.
pub open spec fn solves(s: Map<Seq<char>, FormulaView>, p: Seq<(FormulaView, FormulaView)>) -> bool {
    forall|k: int| 0 <= k < p.len() ==> #[trigger] apply(p[k].1, s) == p[k].0
}

/// Substitutes `value` for the inference variable `v` in every constraint, every hypothesis and
/// the conclusion.
fn substitute_everywhere(
    v: &String,
    value: &Formula,
    constraints: &mut Vec<(Formula, Formula)>,
    hypothesis: &mut Vec<Formula>,
    conclusion: &mut Formula,
)
    ensures
        final(constraints)@.len() == old(constraints)@.len(),
        forall|k: int|
            0 <= k < old(constraints)@.len() ==> (#[trigger] pairs_view(final(constraints)@)[k]).0
                == apply(pairs_view(old(constraints)@)[k].0, single(v@, value@)) && pairs_view(
                final(constraints)@,
            )[k].1 == apply(pairs_view(old(constraints)@)[k].1, single(v@, value@)),
        final(hypothesis)@.len() == old(hypothesis)@.len(),
        forall|i: int|
            0 <= i < old(hypothesis)@.len() ==> (#[trigger] final(hypothesis)@[i])@ == apply(
                old(hypothesis)@[i]@,
                single(v@, value@),
            ),
        final(conclusion)@ == apply(old(conclusion)@, single(v@, value@)),
{
    let mut k: usize = 0;
    while k < constraints.len()
        invariant
            k <= constraints@.len(),
            constraints@.len() == old(constraints)@.len(),
            forall|j: int|
                0 <= j < k ==> (#[trigger] pairs_view(constraints@)[j]).0 == apply(
                    pairs_view(old(constraints)@)[j].0,
                    single(v@, value@),
                ) && pairs_view(constraints@)[j].1 == apply(
                    pairs_view(old(constraints)@)[j].1,
                    single(v@, value@),
                ),
            forall|j: int| k <= j < constraints@.len() ==> constraints@[j] == old(constraints)@[j],
        decreases constraints@.len() - k,
    {
        let mut left = constraints[k].0.clone();
        let mut right = constraints[k].1.clone();
        subst(&mut left, v.as_str(), value);
        subst(&mut right, v.as_str(), value);
        let ghost prev = constraints@;
        constraints.set(k, (left, right));
        assert forall|j: int| 0 <= j < k implies #[trigger] pairs_view(constraints@)[j] == pairs_view(prev)[j] by {
            assert(constraints@[j] == prev[j]);
        }
        assert(pairs_view(constraints@)[k as int] == (constraints@[k as int].0@, constraints@[k as int].1@));
        k = k + 1;
    }
    let mut i: usize = 0;
    while i < hypothesis.len()
        invariant
            i <= hypothesis@.len(),
            hypothesis@.len() == old(hypothesis)@.len(),
            forall|j: int|
                0 <= j < i ==> (#[trigger] hypothesis@[j])@ == apply(
                    old(hypothesis)@[j]@,
                    single(v@, value@),
                ),
            forall|j: int| i <= j < hypothesis@.len() ==> hypothesis@[j] == old(hypothesis)@[j],
        decreases hypothesis@.len() - i,
    {
        let mut hyp = hypothesis[i].clone();
        subst(&mut hyp, v.as_str(), value);
        hypothesis.set(i, hyp);
        i = i + 1;
    }
    subst(conclusion, v.as_str(), value);
}


proof fn lemma_left_size_push(p: Seq<(FormulaView, FormulaView)>, x: (FormulaView, FormulaView))
    ensures
        left_size(p.push(x)) == left_size(p) + size(x.0),
{
    assert(p.push(x).drop_last() =~= p);
}

/// Eliminating the constraint `l = v` (with `v` an inference variable) by substituting `l` for
/// `v` everywhere keeps exactly the same solutions, once `v` is bound to `l`.
proof fn lemma_elim_solutions(
    c0: FormulaView,
    g: FormulaView,
    acc: Map<Seq<char>, FormulaView>,
    p: Seq<(FormulaView, FormulaView)>,
    rest: Seq<(FormulaView, FormulaView)>,
    p2: Seq<(FormulaView, FormulaView)>,
    v: Seq<char>,
    l: FormulaView,
)
    requires
        is_meta_subst(acc),
        is_meta(v),
        meta_free(l),
        !acc.contains_key(v),
        p == rest.push((l, FormulaView::Var(v))),
        p2.len() == rest.len(),
        forall|k: int|
            0 <= k < rest.len() ==> (#[trigger] p2[k]).0 == rest[k].0 && p2[k].1 == apply(
                rest[k].1,
                single(v, l),
            ),
        forall|s: Map<Seq<char>, FormulaView>|
            is_meta_subst(s) ==> (apply(c0, s) == g <==> (agrees(s, acc) && solves(s, p))),
    ensures
        forall|s: Map<Seq<char>, FormulaView>|
            is_meta_subst(s) ==> (apply(c0, s) == g <==> (agrees(s, acc.insert(v, l)) && solves(
                s,
                p2,
            ))),
{
    let acc2 = acc.insert(v, l);
    assert forall|s: Map<Seq<char>, FormulaView>| is_meta_subst(s) implies (apply(c0, s) == g <==> (
    agrees(s, acc2) && solves(s, p2))) by {
        if agrees(s, acc) && solves(s, p) {
            let last = p.len() - 1;
            assert(apply(p[last].1, s) == p[last].0);
            assert(s.contains_key(v) && s[v] == l);
            assert forall|k: int| 0 <= k < p2.len() implies #[trigger] apply(p2[k].1, s)
                == p2[k].0 by {
                assert(p[k] == rest[k]);
                assert(apply(p[k].1, s) == p[k].0);
                lemma_subst_invisible(rest[k].1, v, l, s);
            }
            assert(agrees(s, acc2));
        }
        if agrees(s, acc2) && solves(s, p2) {
            assert(acc2.contains_key(v));
            assert(s.contains_key(v) && s[v] == l);
            assert forall|k: int| 0 <= k < p.len() implies #[trigger] apply(p[k].1, s)
                == p[k].0 by {
                if k < rest.len() {
                    assert(p[k] == rest[k]);
                    assert(apply(p2[k].1, s) == p2[k].0);
                    lemma_subst_invisible(rest[k].1, v, l, s);
                } else {
                    assert(p[k] == (l, FormulaView::Var(v)));
                }
            }
            assert forall|x: Seq<char>| #[trigger] acc.contains_key(x) implies s.contains_key(x)
                && s[x] == acc[x] by {
                assert(acc2.contains_key(x));
            }
        }
    }
}

/// A constraint that every substitution of inference variables solves can be dropped.
proof fn lemma_drop_solved(
    c0: FormulaView,
    g: FormulaView,
    acc: Map<Seq<char>, FormulaView>,
    p: Seq<(FormulaView, FormulaView)>,
    rest: Seq<(FormulaView, FormulaView)>,
    x: (FormulaView, FormulaView),
)
    requires
        p == rest.push(x),
        forall|s: Map<Seq<char>, FormulaView>| is_meta_subst(s) ==> apply(x.1, s) == x.0,
        forall|s: Map<Seq<char>, FormulaView>|
            is_meta_subst(s) ==> (apply(c0, s) == g <==> (agrees(s, acc) && solves(s, p))),
    ensures
        forall|s: Map<Seq<char>, FormulaView>|
            is_meta_subst(s) ==> (apply(c0, s) == g <==> (agrees(s, acc) && solves(s, rest))),
{
    assert forall|s: Map<Seq<char>, FormulaView>| is_meta_subst(s) implies (solves(s, p)
        <==> solves(s, rest)) by {
        lemma_solves_push(s, rest, x);
    }
}

/// A constraint that no substitution of inference variables solves leaves no matcher.
proof fn lemma_no_solution(
    c0: FormulaView,
    g: FormulaView,
    acc: Map<Seq<char>, FormulaView>,
    p: Seq<(FormulaView, FormulaView)>,
)
    requires
        p.len() > 0,
        forall|s: Map<Seq<char>, FormulaView>|
            is_meta_subst(s) ==> apply(p[p.len() - 1].1, s) != p[p.len() - 1].0,
        forall|s: Map<Seq<char>, FormulaView>|
            is_meta_subst(s) ==> (apply(c0, s) == g <==> (agrees(s, acc) && solves(s, p))),
    ensures
        !exists|s: Map<Seq<char>, FormulaView>| is_matcher(s, c0, g),
{
    assert forall|s: Map<Seq<char>, FormulaView>| !is_matcher(s, c0, g) by {
        if is_matcher(s, c0, g) {
            assert(solves(s, p));
            assert(apply(p[p.len() - 1].1, s) == p[p.len() - 1].0);
        }
    }
}

proof fn lemma_solves_push(
    s: Map<Seq<char>, FormulaView>,
    rest: Seq<(FormulaView, FormulaView)>,
    x: (FormulaView, FormulaView),
)
    ensures
        solves(s, rest.push(x)) <==> (solves(s, rest) && apply(x.1, s) == x.0),
{
    let p = rest.push(x);
    if solves(s, p) {
        assert(apply(p[rest.len() as int].1, s) == p[rest.len() as int].0);
        assert forall|k: int| 0 <= k < rest.len() implies #[trigger] apply(rest[k].1, s) == rest[k].0 by {
            assert(p[k] == rest[k]);
            assert(apply(p[k].1, s) == p[k].0);
        }
    }
    if solves(s, rest) && apply(x.1, s) == x.0 {
        assert forall|k: int| 0 <= k < p.len() implies #[trigger] apply(p[k].1, s) == p[k].0 by {
            if k < rest.len() {
                assert(p[k] == rest[k]);
                assert(apply(rest[k].1, s) == rest[k].0);
            } else {
                assert(p[k] == x);
            }
        }
    }
}

proof fn lemma_solves_concat(
    s: Map<Seq<char>, FormulaView>,
    rest: Seq<(FormulaView, FormulaView)>,
    parts: Seq<(FormulaView, FormulaView)>,
)
    ensures
        solves(s, rest + parts) <==> (solves(s, rest) && solves(s, parts)),
{
    let p = rest + parts;
    if solves(s, p) {
        assert forall|k: int| 0 <= k < rest.len() implies #[trigger] apply(rest[k].1, s) == rest[k].0 by {
            assert(p[k] == rest[k]);
            assert(apply(p[k].1, s) == p[k].0);
        }
        assert forall|k: int| 0 <= k < parts.len() implies #[trigger] apply(parts[k].1, s) == parts[k].0 by {
            assert(p[k + rest.len()] == parts[k]);
            assert(apply(p[k + rest.len()].1, s) == p[k + rest.len()].0);
        }
    }
    if solves(s, rest) && solves(s, parts) {
        assert forall|k: int| 0 <= k < p.len() implies #[trigger] apply(p[k].1, s) == p[k].0 by {
            if k < rest.len() {
                assert(p[k] == rest[k]);
                assert(apply(rest[k].1, s) == rest[k].0);
            } else {
                assert(p[k] == parts[k - rest.len()]);
                assert(apply(parts[k - rest.len()].1, s) == parts[k - rest.len()].0);
            }
        }
    }
}

/// Splitting a constraint between two formulas with the same connective into constraints
/// between their parts keeps the same solutions.
proof fn lemma_split_solutions(
    c0: FormulaView,
    g: FormulaView,
    acc: Map<Seq<char>, FormulaView>,
    p: Seq<(FormulaView, FormulaView)>,
    p2: Seq<(FormulaView, FormulaView)>,
    rest: Seq<(FormulaView, FormulaView)>,
    x: (FormulaView, FormulaView),
    parts: Seq<(FormulaView, FormulaView)>,
)
    requires
        p == rest.push(x),
        p2 == rest + parts,
        forall|s: Map<Seq<char>, FormulaView>|
            is_meta_subst(s) ==> (apply(x.1, s) == x.0 <==> solves(s, parts)),
        forall|s: Map<Seq<char>, FormulaView>|
            is_meta_subst(s) ==> (apply(c0, s) == g <==> (agrees(s, acc) && solves(s, p))),
    ensures
        forall|s: Map<Seq<char>, FormulaView>|
            is_meta_subst(s) ==> (apply(c0, s) == g <==> (agrees(s, acc) && solves(s, p2))),
{
    assert forall|s: Map<Seq<char>, FormulaView>| is_meta_subst(s) implies (solves(s, p)
        <==> solves(s, p2)) by {
        lemma_solves_push(s, rest, x);
        lemma_solves_concat(s, rest, parts);
    }
}


/// The loop state of `unify` satisfies its invariant.
pub open spec fn unify_inv(
    c0: FormulaView,
    g: FormulaView,
    acc: Map<Seq<char>, FormulaView>,
    p: Seq<(FormulaView, FormulaView)>,
) -> bool {
    &&& is_meta_subst(acc)
    &&& forall|k: int| 0 <= k < p.len() ==> meta_free(#[trigger] p[k].0)
    &&& forall|k: int, x: Seq<char>|
        0 <= k < p.len() && #[trigger] meta_vars(p[k].1).contains(x) ==> !acc.contains_key(x)
            && meta_vars(c0).contains(x)
    &&& forall|x: Seq<char>| #[trigger] acc.contains_key(x) ==> meta_vars(c0).contains(x)
    &&& forall|s: Map<Seq<char>, FormulaView>|
        is_meta_subst(s) ==> (apply(c0, s) == g <==> (agrees(s, acc) && solves(s, p)))
}

/// Applies `acc.insert(v, l)`'s last binding to what `acc` already produced.
proof fn lemma_extend_instances(
    c0: FormulaView,
    h0: Seq<Formula>,
    acc: Map<Seq<char>, FormulaView>,
    v: Seq<char>,
    l: FormulaView,
)
    requires
        is_meta_subst(acc),
        is_meta(v),
        meta_free(l),
        !acc.contains_key(v),
    ensures
        apply(c0, acc.insert(v, l)) == apply(apply(c0, acc), single(v, l)),
        forall|i: int|
            0 <= i < h0.len() ==> #[trigger] apply(h0[i]@, acc.insert(v, l)) == apply(
                apply(h0[i]@, acc),
                single(v, l),
            ),
        is_meta_subst(acc.insert(v, l)),
{
    lemma_compose(c0, acc, v, l);
    assert forall|i: int| 0 <= i < h0.len() implies #[trigger] apply(h0[i]@, acc.insert(v, l))
        == apply(apply(h0[i]@, acc), single(v, l)) by {
        lemma_compose(h0[i]@, acc, v, l);
    }
}

/// The empty substitution changes nothing.
pub proof fn lemma_apply_empty(f: FormulaView)
    ensures
        apply(f, Map::empty()) == f,
    decreases f,
{
    match f {
        FormulaView::Not(g) => lemma_apply_empty(*g),
        FormulaView::And(a, b) => {
            lemma_apply_empty(*a);
            lemma_apply_empty(*b);
        },
        FormulaView::Or(a, b) => {
            lemma_apply_empty(*a);
            lemma_apply_empty(*b);
        },
        FormulaView::Imp(a, b) => {
            lemma_apply_empty(*a);
            lemma_apply_empty(*b);
        },
        _ => {},
    }
}

proof fn lemma_partial_instance(
    c0: FormulaView,
    h_old: Seq<Formula>,
    acc: Map<Seq<char>, FormulaView>,
    c: FormulaView,
    h_new: Seq<Formula>,
)
    requires
        is_meta_subst(acc),
        c == apply(c0, acc),
        h_new.len() == h_old.len(),
        forall|i: int| 0 <= i < h_old.len() ==> (#[trigger] h_new[i])@ == apply(h_old[i]@, acc),
    ensures
        exists|s: Map<Seq<char>, FormulaView>|
            is_meta_subst(s) && c == apply(c0, s) && forall|i: int|
                0 <= i < h_old.len() ==> (#[trigger] h_new[i])@ == apply(h_old[i]@, s),
{
}

/// The invariant of `unify` survives dropping a constraint that every substitution solves.
proof fn lemma_drop_inv(
    c0: FormulaView,
    g: FormulaView,
    acc: Map<Seq<char>, FormulaView>,
    p: Seq<(FormulaView, FormulaView)>,
    rest: Seq<(FormulaView, FormulaView)>,
    x: (FormulaView, FormulaView),
)
    requires
        unify_inv(c0, g, acc, p),
        p == rest.push(x),
        forall|s: Map<Seq<char>, FormulaView>| is_meta_subst(s) ==> apply(x.1, s) == x.0,
    ensures
        unify_inv(c0, g, acc, rest),
{
    lemma_drop_solved(c0, g, acc, p, rest, x);
    assert forall|k: int| 0 <= k < rest.len() implies meta_free(#[trigger] rest[k].0) by {
        assert(p[k] == rest[k]);
    }
    assert forall|k: int, y: Seq<char>|
        0 <= k < rest.len() && #[trigger] meta_vars(rest[k].1).contains(y) implies !acc.contains_key(y)
            && meta_vars(c0).contains(y) by {
        assert(p[k] == rest[k]);
        assert(meta_vars(p[k].1).contains(y));
    }
}

/// The invariant of `unify` survives splitting a constraint between two formulas with the same
/// binary connective.
proof fn lemma_binary_split(
    c0: FormulaView,
    g: FormulaView,
    acc: Map<Seq<char>, FormulaView>,
    p: Seq<(FormulaView, FormulaView)>,
    rest: Seq<(FormulaView, FormulaView)>,
    x: (FormulaView, FormulaView),
    parts: Seq<(FormulaView, FormulaView)>,
    p2: Seq<(FormulaView, FormulaView)>,
)
    requires
        unify_inv(c0, g, acc, p),
        p == rest.push(x),
        parts.len() == 2,
        p2 == rest.push(parts[0]).push(parts[1]),
        (x.0 == FormulaView::And(Box::new(parts[0].0), Box::new(parts[1].0)) && x.1
            == FormulaView::And(Box::new(parts[0].1), Box::new(parts[1].1))) || (x.0
            == FormulaView::Or(Box::new(parts[0].0), Box::new(parts[1].0)) && x.1 == FormulaView::Or(
            Box::new(parts[0].1),
            Box::new(parts[1].1),
        )) || (x.0 == FormulaView::Imp(Box::new(parts[0].0), Box::new(parts[1].0)) && x.1
            == FormulaView::Imp(Box::new(parts[0].1), Box::new(parts[1].1))),
    ensures
        unify_inv(c0, g, acc, p2),
        left_size(p2) < left_size(p),
{
    assert(p2 =~= rest + parts);
    lemma_left_size_push(rest, x);
    lemma_left_size_push(rest, parts[0]);
    lemma_left_size_push(rest.push(parts[0]), parts[1]);
    assert forall|s: Map<Seq<char>, FormulaView>| is_meta_subst(s) implies (apply(x.1, s) == x.0
        <==> solves(s, parts)) by {
        if solves(s, parts) {
            assert(apply(parts[0].1, s) == parts[0].0);
            assert(apply(parts[1].1, s) == parts[1].0);
        }
        if apply(x.1, s) == x.0 {
            assert forall|k: int| 0 <= k < parts.len() implies #[trigger] apply(parts[k].1, s)
                == parts[k].0 by {
                assert(k == 0 || k == 1);
            }
        }
    }
    assert forall|k: int, y: Seq<char>|
        0 <= k < parts.len() && #[trigger] meta_vars(parts[k].1).contains(y) implies meta_vars(
            x.1,
        ).contains(y) by {
        assert(k == 0 || k == 1);
    }
    if meta_free(x.0) {
        assert forall|k: int| 0 <= k < parts.len() implies meta_free(#[trigger] parts[k].0) by {
            assert(k == 0 || k == 1);
        }
    }
    lemma_split_inv(c0, g, acc, p, rest, x, parts);
}

/// The invariant of `unify` survives the elimination of the constraint `l = v`.
proof fn lemma_elim_inv(
    c0: FormulaView,
    g: FormulaView,
    acc: Map<Seq<char>, FormulaView>,
    p: Seq<(FormulaView, FormulaView)>,
    rest: Seq<(FormulaView, FormulaView)>,
    p2: Seq<(FormulaView, FormulaView)>,
    v: Seq<char>,
    l: FormulaView,
)
    requires
        unify_inv(c0, g, acc, p),
        is_meta(v),
        p == rest.push((l, FormulaView::Var(v))),
        p2.len() == rest.len(),
        forall|k: int|
            0 <= k < rest.len() ==> (#[trigger] p2[k]).0 == apply(rest[k].0, single(v, l))
                && p2[k].1 == apply(rest[k].1, single(v, l)),
    ensures
        unify_inv(c0, g, acc.insert(v, l), p2),
        !acc.contains_key(v),
        meta_free(l),
        left_size(p2) < left_size(p),
        forall|k: int| 0 <= k < rest.len() ==> (#[trigger] p2[k]).0 == rest[k].0,
{
    let last = p.len() - 1;
    assert(p[last] == (l, FormulaView::Var(v)));
    assert(meta_free(p[last].0));
    assert(meta_vars(p[last].1).contains(v));
    let acc2 = acc.insert(v, l);
    assert forall|k: int| 0 <= k < rest.len() implies (#[trigger] p2[k]).0 == rest[k].0 by {
        assert(p[k] == rest[k]);
        assert(meta_free(p[k].0));
        lemma_apply_meta_free(rest[k].0, single(v, l));
    }
    lemma_elim_solutions(c0, g, acc, p, rest, p2, v, l);
    assert forall|k: int, x: Seq<char>|
        0 <= k < p2.len() && #[trigger] meta_vars(p2[k].1).contains(x) implies !acc2.contains_key(x)
            && meta_vars(c0).contains(x) by {
        assert(p[k] == rest[k]);
        lemma_meta_vars_subst(rest[k].1, v, l);
        assert(meta_vars(rest[k].1).contains(x));
        assert(meta_vars(p[k].1).contains(x));
    }
    assert forall|k: int| 0 <= k < p2.len() implies meta_free(#[trigger] p2[k].0) by {
        assert(p[k] == rest[k]);
    }
    assert forall|x: Seq<char>| #[trigger] acc2.contains_key(x) implies meta_vars(c0).contains(x) by {
        if x != v {
            assert(acc.contains_key(x));
        }
    }
    assert(p.drop_last() =~= rest);
    lemma_left_size_same(rest, p2);
    assert(is_meta_subst(acc2));
}

/// The invariant of `unify` survives splitting a constraint into the constraints `parts`.
proof fn lemma_split_inv(
    c0: FormulaView,
    g: FormulaView,
    acc: Map<Seq<char>, FormulaView>,
    p: Seq<(FormulaView, FormulaView)>,
    rest: Seq<(FormulaView, FormulaView)>,
    x: (FormulaView, FormulaView),
    parts: Seq<(FormulaView, FormulaView)>,
)
    requires
        unify_inv(c0, g, acc, p),
        p == rest.push(x),
        forall|s: Map<Seq<char>, FormulaView>|
            is_meta_subst(s) ==> (apply(x.1, s) == x.0 <==> solves(s, parts)),
        meta_free(x.0) ==> forall|k: int| 0 <= k < parts.len() ==> meta_free(#[trigger] parts[k].0),
        forall|k: int, y: Seq<char>|
            0 <= k < parts.len() && #[trigger] meta_vars(parts[k].1).contains(y) ==> meta_vars(
                x.1,
            ).contains(y),
        left_size(rest + parts) < left_size(p),
    ensures
        unify_inv(c0, g, acc, rest + parts),
{
    let p2 = rest + parts;
    let last = p.len() - 1;
    assert(p[last] == x);
    assert(meta_free(p[last].0));
    lemma_split_solutions(c0, g, acc, p, p2, rest, x, parts);
    assert forall|k: int| 0 <= k < p2.len() implies meta_free(#[trigger] p2[k].0) by {
        if k < rest.len() {
            assert(p[k] == rest[k]);
            assert(p2[k] == rest[k]);
        } else {
            assert(p2[k] == parts[k - rest.len()]);
        }
    }
    assert forall|k: int, y: Seq<char>|
        0 <= k < p2.len() && #[trigger] meta_vars(p2[k].1).contains(y) implies !acc.contains_key(y)
            && meta_vars(c0).contains(y) by {
        if k < rest.len() {
            assert(p[k] == rest[k]);
            assert(p2[k] == rest[k]);
            assert(meta_vars(p[k].1).contains(y));
        } else {
            assert(p2[k] == parts[k - rest.len()]);
            assert(meta_vars(parts[k - rest.len()].1).contains(y));
            assert(meta_vars(p[last].1).contains(y));
        }
    }
}

/// Infers the inference variables of `conclusion` from `goal`.
///
/// The constraint `goal = conclusion` is solved by matching: each inference variable met in the
/// conclusion is bound to the part of the goal that stands in its place, and the binding is
/// substituted into the remaining constraints, into every hypothesis and into the conclusion.
/// Unification succeeds when the conclusion can be instantiated into the goal and every
/// hypothesis is left without inference variables.
///
/// The goal holds no inference variable. Binding variables of the goal too, without checking
/// that a variable does not occur in the formula bound to it, runs forever on some goals: the
/// goal `$x . $x` against the conclusion `($x . $x) . ($x . $x)` gives back its own
/// constraints after every binding.
pub fn unify(goal: &Formula, hypothesis: &mut Vec<Formula>, conclusion: &mut Formula) -> (r: Result<
    (),
    CheckingError,
>)
    requires
        meta_free(goal@),
    ensures
        r is Ok <==> ((exists|s: Map<Seq<char>, FormulaView>| is_matcher(s, old(conclusion)@, goal@))
            && forall|i: int|
            0 <= i < old(hypothesis)@.len() ==> meta_vars(#[trigger] old(hypothesis)@[i]@).subset_of(
                meta_vars(old(conclusion)@),
            )),
        r matches Err(e) ==> e is UnificationError,
        final(hypothesis)@.len() == old(hypothesis)@.len(),
        exists|s: Map<Seq<char>, FormulaView>|
            is_meta_subst(s) && final(conclusion)@ == apply(old(conclusion)@, s) && forall|i: int|
                0 <= i < old(hypothesis)@.len() ==> (#[trigger] final(hypothesis)@[i])@ == apply(
                    old(hypothesis)@[i]@,
                    s,
                ),
        r is Ok ==> final(conclusion)@ == goal@,
        r is Ok ==> forall|i: int|
            0 <= i < final(hypothesis)@.len() ==> meta_free(#[trigger] final(hypothesis)@[i]@),
        r is Ok ==> forall|s: Map<Seq<char>, FormulaView>|
            is_matcher(s, old(conclusion)@, goal@) ==> forall|i: int|
                0 <= i < old(hypothesis)@.len() ==> (#[trigger] final(hypothesis)@[i])@ == apply(
                    old(hypothesis)@[i]@,
                    s,
                ),
{
    let ghost c0 = conclusion@;
    let ghost g = goal@;
    let ghost h0 = hypothesis@;
    let mut constraints: Vec<(Formula, Formula)> = Vec::new();
    constraints.push((goal.clone(), conclusion.clone()));
    let ghost mut acc: Map<Seq<char>, FormulaView> = Map::empty();
    proof {
        let p = pairs_view(constraints@);
        assert(p.len() == 1 && p[0] == (g, c0));
        assert forall|s: Map<Seq<char>, FormulaView>| is_meta_subst(s) implies (apply(c0, s) == g
            <==> (agrees(s, acc) && solves(s, p))) by {
            if apply(c0, s) == g {
                assert forall|k: int| 0 <= k < p.len() implies #[trigger] apply(p[k].1, s)
                    == p[k].0 by {
                    assert(k == 0);
                }
            }
            if solves(s, p) {
                assert(apply(p[0].1, s) == p[0].0);
            }
        }
        assert forall|k: int, x: Seq<char>|
            0 <= k < p.len() && #[trigger] meta_vars(p[k].1).contains(x) implies !acc.contains_key(x)
                && meta_vars(c0).contains(x) by {
            assert(k == 0);
        }
        assert forall|i: int| 0 <= i < h0.len() implies apply((#[trigger] h0[i])@, acc) == h0[i]@ by {
            lemma_apply_empty(h0[i]@);
        }
        lemma_apply_empty(c0);
    }
    loop
        invariant
            unify_inv(c0, g, acc, pairs_view(constraints@)),
            meta_free(g),
            g == goal@,
            c0 == old(conclusion)@,
            h0 == old(hypothesis)@,
            conclusion@ == apply(c0, acc),
            hypothesis@.len() == h0.len(),
            forall|i: int| 0 <= i < h0.len() ==> (#[trigger] hypothesis@[i])@ == apply(h0[i]@, acc),
        ensures
            constraints@.len() == 0,
        decreases left_size(pairs_view(constraints@)),
    {
        let ghost p = pairs_view(constraints@);
        let popped = constraints.pop();
        match popped {
            None => {
                break;
            },
            Some(pair) => {
                let ghost rest = pairs_view(constraints@);
                let ghost x = (pair.0@, pair.1@);
                proof {
                    assert(p =~= rest.push(x));
                    lemma_left_size_push(rest, x);
                }
                let (left, right) = pair;
                match (left, right) {
                    (Formula::Top, Formula::Top) => {
                        proof {
                            lemma_drop_inv(c0, g, acc, p, rest, x);
                        }
                    },
                    (Formula::Bot, Formula::Bot) => {
                        proof {
                            lemma_drop_inv(c0, g, acc, p, rest, x);
                        }
                    },
                    (Formula::Var(a), Formula::Var(b)) => {
                        proof {
                            assert(p[p.len() - 1] == x);
                            assert(meta_free(p[p.len() - 1].0));
                        }
                        if a == b {
                            proof {
                                assert forall|s: Map<Seq<char>, FormulaView>|
                                    is_meta_subst(s) implies apply(x.1, s) == x.0 by {
                                    assert(!s.contains_key(b@));
                                }
                                lemma_drop_inv(c0, g, acc, p, rest, x);
                            }
                        } else if starts_with_dollar(&b) {
                            let value = Formula::Var(a);
                            let ghost acc_before = acc;
                            substitute_everywhere(&b, &value, &mut constraints, hypothesis, conclusion);
                            proof {
                                lemma_elim_inv(c0, g, acc, p, rest, pairs_view(constraints@), b@, value@);
                                lemma_extend_instances(c0, h0, acc, b@, value@);
                                acc = acc.insert(b@, value@);
                            }
                        } else {
                            proof {
                                assert forall|s: Map<Seq<char>, FormulaView>|
                                    is_meta_subst(s) implies apply(p[p.len() - 1].1, s) != p[p.len() - 1].0 by {
                                    assert(!s.contains_key(b@));
                                }
                                lemma_no_solution(c0, g, acc, p);
                                lemma_partial_instance(c0, h0, acc, conclusion@, hypothesis@);
                            }
                            return Err(CheckingError::UnificationError);
                        }
                    },
                    (Formula::Var(_), _) => {
                        proof {
                            assert(p[p.len() - 1] == x);
                            assert(meta_free(p[p.len() - 1].0));
                            assert forall|s: Map<Seq<char>, FormulaView>|
                                is_meta_subst(s) implies apply(p[p.len() - 1].1, s) != p[p.len() - 1].0 by {
                            }
                            lemma_no_solution(c0, g, acc, p);
                            lemma_partial_instance(c0, h0, acc, conclusion@, hypothesis@);
                        }
                        return Err(CheckingError::UnificationError);
                    },
                    (value, Formula::Var(b)) => {
                        if starts_with_dollar(&b) {
                            substitute_everywhere(&b, &value, &mut constraints, hypothesis, conclusion);
                            proof {
                                lemma_elim_inv(c0, g, acc, p, rest, pairs_view(constraints@), b@, value@);
                                lemma_extend_instances(c0, h0, acc, b@, value@);
                                acc = acc.insert(b@, value@);
                            }
                        } else {
                            proof {
                                assert forall|s: Map<Seq<char>, FormulaView>|
                                    is_meta_subst(s) implies apply(p[p.len() - 1].1, s) != p[p.len() - 1].0 by {
                                    assert(!s.contains_key(b@));
                                }
                                lemma_no_solution(c0, g, acc, p);
                                lemma_partial_instance(c0, h0, acc, conclusion@, hypothesis@);
                            }
                            return Err(CheckingError::UnificationError);
                        }
                    },
                    (Formula::Not(inner1), Formula::Not(inner2)) => {
                        let ghost parts = seq![(inner1@, inner2@)];
                        constraints.push((*inner1, *inner2));
                        proof {
                            assert(pairs_view(constraints@) =~= rest + parts);
                            lemma_left_size_push(rest, parts[0]);
                            assert(rest.push(parts[0]) =~= rest + parts);
                            assert forall|s: Map<Seq<char>, FormulaView>|
                                is_meta_subst(s) implies (apply(x.1, s) == x.0 <==> solves(s, parts)) by {
                                if solves(s, parts) {
                                    assert(apply(parts[0].1, s) == parts[0].0);
                                }
                                if apply(x.1, s) == x.0 {
                                    assert forall|k: int| 0 <= k < parts.len() implies #[trigger] apply(parts[k].1, s) == parts[k].0 by {
                                        assert(k == 0);
                                    }
                                }
                            }
                            lemma_split_inv(c0, g, acc, p, rest, x, parts);
                        }
                    },
                    (Formula::And(l1, r1), Formula::And(l2, r2)) => {
                        let ghost parts = seq![(l1@, l2@), (r1@, r2@)];
                        constraints.push((*l1, *l2));
                        constraints.push((*r1, *r2));
                        proof {
                            assert(pairs_view(constraints@) =~= rest.push(parts[0]).push(parts[1]));
                            lemma_binary_split(c0, g, acc, p, rest, x, parts, pairs_view(constraints@));
                        }
                    },
                    (Formula::Or(l1, r1), Formula::Or(l2, r2)) => {
                        let ghost parts = seq![(l1@, l2@), (r1@, r2@)];
                        constraints.push((*l1, *l2));
                        constraints.push((*r1, *r2));
                        proof {
                            assert(pairs_view(constraints@) =~= rest.push(parts[0]).push(parts[1]));
                            lemma_binary_split(c0, g, acc, p, rest, x, parts, pairs_view(constraints@));
                        }
                    },
                    (Formula::Imp(l1, r1), Formula::Imp(l2, r2)) => {
                        let ghost parts = seq![(l1@, l2@), (r1@, r2@)];
                        constraints.push((*l1, *l2));
                        constraints.push((*r1, *r2));
                        proof {
                            assert(pairs_view(constraints@) =~= rest.push(parts[0]).push(parts[1]));
                            lemma_binary_split(c0, g, acc, p, rest, x, parts, pairs_view(constraints@));
                        }
                    },
                    _ => {
                        proof {
                            assert(p[p.len() - 1] == x);
                            assert forall|s: Map<Seq<char>, FormulaView>|
                                is_meta_subst(s) implies apply(p[p.len() - 1].1, s) != p[p.len() - 1].0 by {
                            }
                            lemma_no_solution(c0, g, acc, p);
                            lemma_partial_instance(c0, h0, acc, conclusion@, hypothesis@);
                        }
                        return Err(CheckingError::UnificationError);
                    },
                }
            },
        }
    }
    proof {
        let p = pairs_view(constraints@);
        assert(p.len() == 0);
        assert(agrees(acc, acc));
        assert(solves(acc, p));
        assert(apply(c0, acc) == g);
        lemma_apply_result_meta_free(c0, acc);
        assert(meta_vars(c0) =~= acc.dom());
    }
    let mut i: usize = 0;
    while i < hypothesis.len()
        invariant
            i <= hypothesis@.len(),
            hypothesis@.len() == h0.len(),
            is_meta_subst(acc),
            meta_vars(c0) =~= acc.dom(),
            h0 == old(hypothesis)@,
            c0 == old(conclusion)@,
            g == goal@,
            meta_free(g),
            apply(c0, acc) == g,
            conclusion@ == g,
            forall|j: int| 0 <= j < h0.len() ==> (#[trigger] hypothesis@[j])@ == apply(h0[j]@, acc),
            forall|j: int| 0 <= j < i ==> meta_vars((#[trigger] h0[j])@).subset_of(meta_vars(c0)),
        decreases hypothesis@.len() - i,
    {
        let complete = assert_complete_substitution(&hypothesis[i]);
        proof {
            lemma_apply_result_meta_free(h0[i as int]@, acc);
        }
        match complete {
            Ok(()) => {},
            Err(_) => {
                proof {
                    lemma_partial_instance(c0, h0, acc, conclusion@, hypothesis@);
                }
                return Err(CheckingError::UnificationError);
            },
        }
        i = i + 1;
    }
    proof {
        assert(is_matcher(acc, c0, g));
        assert forall|s: Map<Seq<char>, FormulaView>| is_matcher(s, c0, g) implies forall|j: int|
            0 <= j < h0.len() ==> (#[trigger] hypothesis@[j])@ == apply(h0[j]@, s) by {
            lemma_matchers_agree(c0, g, acc, s);
            assert forall|j: int| 0 <= j < h0.len() implies (#[trigger] hypothesis@[j])@ == apply(h0[j]@, s) by {
                assert(meta_vars(h0[j]@).subset_of(meta_vars(c0)));
                lemma_apply_agree(h0[j]@, acc, s);
            }
        }
        assert forall|j: int| 0 <= j < hypothesis@.len() implies meta_free(#[trigger] hypothesis@[j]@) by {
            lemma_apply_result_meta_free(h0[j]@, acc);
        }
        lemma_partial_instance(c0, h0, acc, conclusion@, hypothesis@);
    }
    Ok(())
}

/// Marking every variable outside `except` and then checking that no inference variable is
/// left succeeds exactly when every variable of `f` is listed in `except` and is not itself an
/// inference variable.
pub proof fn law_mark_then_complete(f: FormulaView, except: Seq<Seq<char>>)
    ensures
        meta_free(mark_metas(f, except)) <==> (forall|w: Seq<char>| #[trigger] vars_of(f).contains(w)
            ==> except.contains(w) && !is_meta(w)),
    decreases f,
{
    match f {
        FormulaView::Var(v) => {
            assert(vars_of(f).contains(v));
            if !except.contains(v) {
                assert((seq!['$'] + v)[0] == '$');
            } else if !is_meta(v) {
                assert forall|w: Seq<char>| #[trigger] vars_of(f).contains(w) implies except.contains(w)
                    && !is_meta(w) by {
                    assert(w == v);
                }
            }
        },
        FormulaView::Not(g) => {
            law_mark_then_complete(*g, except);
            assert(vars_of(f) == vars_of(*g));
            assert(mark_metas(f, except) == FormulaView::Not(Box::new(mark_metas(*g, except))));
        },
        FormulaView::And(a, b) => {
            law_mark_then_complete(*a, except);
            law_mark_then_complete(*b, except);
            lemma_vars_split(*a, *b, except);
            assert(vars_of(f) == vars_of(*a) + vars_of(*b));
            assert(mark_metas(f, except) == FormulaView::And(
                Box::new(mark_metas(*a, except)),
                Box::new(mark_metas(*b, except)),
            ));
        },
        FormulaView::Or(a, b) => {
            law_mark_then_complete(*a, except);
            law_mark_then_complete(*b, except);
            lemma_vars_split(*a, *b, except);
            assert(vars_of(f) == vars_of(*a) + vars_of(*b));
            assert(mark_metas(f, except) == FormulaView::Or(
                Box::new(mark_metas(*a, except)),
                Box::new(mark_metas(*b, except)),
            ));
        },
        FormulaView::Imp(a, b) => {
            law_mark_then_complete(*a, except);
            law_mark_then_complete(*b, except);
            lemma_vars_split(*a, *b, except);
            assert(vars_of(f) == vars_of(*a) + vars_of(*b));
            assert(mark_metas(f, except) == FormulaView::Imp(
                Box::new(mark_metas(*a, except)),
                Box::new(mark_metas(*b, except)),
            ));
        },
        _ => {},
    }
}

proof fn lemma_vars_split(a: FormulaView, b: FormulaView, except: Seq<Seq<char>>)
    ensures
        (forall|v: Seq<char>| #[trigger] (vars_of(a) + vars_of(b)).contains(v) ==> except.contains(v)
            && !is_meta(v)) <==> ((forall|v: Seq<char>| #[trigger] vars_of(a).contains(v)
            ==> except.contains(v) && !is_meta(v)) && (forall|v: Seq<char>| #[trigger] vars_of(
            b,
        ).contains(v) ==> except.contains(v) && !is_meta(v))),
{
    if forall|v: Seq<char>| #[trigger] (vars_of(a) + vars_of(b)).contains(v) ==> except.contains(v)
        && !is_meta(v) {
        assert forall|v: Seq<char>| #[trigger] vars_of(a).contains(v) implies except.contains(v)
            && !is_meta(v) by {
            assert((vars_of(a) + vars_of(b)).contains(v));
        }
        assert forall|v: Seq<char>| #[trigger] vars_of(b).contains(v) implies except.contains(v)
            && !is_meta(v) by {
            assert((vars_of(a) + vars_of(b)).contains(v));
        }
    }
}

/// Substituting a list that holds one binding is substituting that one variable.
pub proof fn law_subst_many_single(f: FormulaView, var: String, value: Formula)
    ensures
        apply(f, assoc_map(seq![(var, value)])) == apply(f, single(var@, value@)),
{
    let s = seq![(var, value)];
    assert(s.drop_last() =~= Seq::<(String, Formula)>::empty());
    assert(assoc_map(s.drop_last()) == Map::<Seq<char>, FormulaView>::empty());
    assert(s.last() == (var, value));
    assert(assoc_map(s) =~= single(var@, value@));
}

/// Substituting a variable that does not occur in `f` leaves `f` unchanged.
pub proof fn law_subst_absent(f: FormulaView, var: Seq<char>, value: FormulaView)
    requires
        !vars_of(f).contains(var),
    ensures
        apply(f, single(var, value)) == f,
    decreases f,
{
    match f {
        FormulaView::Not(g) => law_subst_absent(*g, var, value),
        FormulaView::And(a, b) => {
            law_subst_absent(*a, var, value);
            law_subst_absent(*b, var, value);
        },
        FormulaView::Or(a, b) => {
            law_subst_absent(*a, var, value);
            law_subst_absent(*b, var, value);
        },
        FormulaView::Imp(a, b) => {
            law_subst_absent(*a, var, value);
            law_subst_absent(*b, var, value);
        },
        FormulaView::Var(v) => {
            assert(vars_of(f).contains(v));
        },
        _ => {},
    }
}

/// The name that marking gives a variable: itself where it is listed in `except`, and `$`
/// followed by it otherwise.
pub open spec fn marked_name(v: Seq<char>, except: Seq<Seq<char>>) -> Seq<char> {
    if except.contains(v) {
        v
    } else {
        seq!['$'] + v
    }
}

/// After marking, the variables of `f` are those listed in `except` and a `$`-prefixed copy of
/// each of the others.
pub proof fn law_mark_vars(f: FormulaView, except: Seq<Seq<char>>)
    ensures
        vars_of(mark_metas(f, except)) == vars_of(f).map(|v: Seq<char>| marked_name(v, except)),
    decreases f,
{
    let m = |v: Seq<char>| marked_name(v, except);
    match f {
        FormulaView::Var(v) => {
            assert(vars_of(f).map(m) =~= Set::empty().insert(marked_name(v, except))) by {
                assert(vars_of(f).contains(v));
            }
        },
        FormulaView::Not(g) => {
            law_mark_vars(*g, except);
        },
        FormulaView::And(a, b) => {
            law_mark_vars(*a, except);
            law_mark_vars(*b, except);
            lemma_map_union(vars_of(*a), vars_of(*b), except);
        },
        FormulaView::Or(a, b) => {
            law_mark_vars(*a, except);
            law_mark_vars(*b, except);
            lemma_map_union(vars_of(*a), vars_of(*b), except);
        },
        FormulaView::Imp(a, b) => {
            law_mark_vars(*a, except);
            law_mark_vars(*b, except);
            lemma_map_union(vars_of(*a), vars_of(*b), except);
        },
        _ => {
            assert(vars_of(f).map(m) =~= Set::empty());
        },
    }
}

proof fn lemma_map_union(x: Set<Seq<char>>, y: Set<Seq<char>>, except: Seq<Seq<char>>)
    ensures
        (x + y).map(|v: Seq<char>| marked_name(v, except)) == x.map(|v: Seq<char>| marked_name(v, except))
            + y.map(|v: Seq<char>| marked_name(v, except)),
{
    let m = |v: Seq<char>| marked_name(v, except);
    assert forall|w: Seq<char>| #[trigger] (x + y).map(m).contains(w) implies (x.map(m) + y.map(m)).contains(w) by {
        let v = choose|v: Seq<char>| (x + y).contains(v) && w == m(v);
        if x.contains(v) {
            assert(x.map(m).contains(w));
        } else {
            assert(y.map(m).contains(w));
        }
    }
    assert forall|w: Seq<char>| #[trigger] (x.map(m) + y.map(m)).contains(w) implies (x + y).map(m).contains(w) by {
        if x.map(m).contains(w) {
            let v = choose|v: Seq<char>| x.contains(v) && w == m(v);
            assert((x + y).contains(v));
        } else {
            let v = choose|v: Seq<char>| y.contains(v) && w == m(v);
            assert((x + y).contains(v));
        }
    }
    assert((x + y).map(m) =~= x.map(m) + y.map(m));
}

/// After substituting `value` for `var`, the variables of `f` are its old ones without `var`,
/// together with those of `value` where `var` occurred.
pub proof fn law_subst_vars(f: FormulaView, var: Seq<char>, value: FormulaView)
    ensures
        vars_of(apply(f, single(var, value))) == if vars_of(f).contains(var) {
            vars_of(f).remove(var) + vars_of(value)
        } else {
            vars_of(f)
        },
    decreases f,
{
    match f {
        FormulaView::Var(v) => {
            assert(vars_of(f).contains(v));
            if v == var {
                assert(vars_of(f).remove(var) + vars_of(value) =~= vars_of(value));
            } else {
                assert(!vars_of(f).contains(var));
            }
        },
        FormulaView::Not(g) => law_subst_vars(*g, var, value),
        FormulaView::And(a, b) => {
            law_subst_vars(*a, var, value);
            law_subst_vars(*b, var, value);
            lemma_subst_vars_pair(vars_of(*a), vars_of(*b), var, vars_of(value));
        },
        FormulaView::Or(a, b) => {
            law_subst_vars(*a, var, value);
            law_subst_vars(*b, var, value);
            lemma_subst_vars_pair(vars_of(*a), vars_of(*b), var, vars_of(value));
        },
        FormulaView::Imp(a, b) => {
            law_subst_vars(*a, var, value);
            law_subst_vars(*b, var, value);
            lemma_subst_vars_pair(vars_of(*a), vars_of(*b), var, vars_of(value));
        },
        _ => {},
    }
}

proof fn lemma_subst_vars_pair(x: Set<Seq<char>>, y: Set<Seq<char>>, var: Seq<char>, w: Set<Seq<char>>)
    ensures
        (if x.contains(var) { x.remove(var) + w } else { x }) + (if y.contains(var) {
            y.remove(var) + w
        } else {
            y
        }) == if (x + y).contains(var) {
            (x + y).remove(var) + w
        } else {
            x + y
        },
{
    if (x + y).contains(var) {
        assert((if x.contains(var) { x.remove(var) + w } else { x }) + (if y.contains(var) {
            y.remove(var) + w
        } else {
            y
        }) =~= (x + y).remove(var) + w);
    }
}

} // verus!
