//! Applying substitutions, the occurs check, unification and composition.
use vstd::prelude::*;

use crate::ast::{clone_term, term_view, terms_view, SpecTerm, Term};
use crate::subst::{keys_distinct, lemma_map_of, map_of, SpecSubst, Substitutions};

verus! {

/// One application of `s` to `t`: each bound variable is replaced by its binding, once.
pub open spec fn spec_apply(s: SpecSubst, t: SpecTerm) -> SpecTerm
    decreases t,
{
    match t {
        SpecTerm::Atom(_) => t,
        SpecTerm::Var(v) => if s.dom().contains(v) {
            s[v]
        } else {
            t
        },
        SpecTerm::Compound(f, ts) => SpecTerm::Compound(f, spec_apply_all(s, ts)),
    }
}

/// [`spec_apply`] on every term of a list.
pub open spec fn spec_apply_all(s: SpecSubst, ts: Seq<SpecTerm>) -> Seq<SpecTerm>
    decreases ts,
{
    Seq::new(
        ts.len(),
        |i: int|
            if 0 <= i < ts.len() {
                spec_apply(s, ts[i])
            } else {
                SpecTerm::Atom(Seq::empty())
            },
    )
}

/// Whether the variable named `v` occurs in `t`.
pub open spec fn occurs(v: Seq<char>, t: SpecTerm) -> bool
    decreases t,
{
    match t {
        SpecTerm::Atom(_) => false,
        SpecTerm::Var(w) => w == v,
        SpecTerm::Compound(_, ts) => occurs_in(v, ts),
    }
}

/// Whether the variable named `v` occurs in one of the terms of `ts`.
pub open spec fn occurs_in(v: Seq<char>, ts: Seq<SpecTerm>) -> bool
    decreases ts,
{
    exists|i: int| 0 <= i < ts.len() && occurs(v, #[trigger] ts[i])
}

/// Unification of `t1` and `t2` under `s`, as the algorithm proceeds, with at most `fuel`
/// nested steps; `None` when the fuel runs out, `Some(r)` with the algorithm's result `r`
/// otherwise.
///
/// 1. Both terms are the same variable: `s`.
/// 2. One term is a variable `V` (the first term if it is one): apply `s` once to the other
///    side. If `V` is bound in `s`, unify its binding with the updated other side. Otherwise
///    fail when `V` occurs in the updated other side, else bind `V` to it.
/// 3. Two atoms with the same name: `s`.
/// 4. Two compound terms with the same functor and arity: unify the arguments pairwise, left to
///    right, threading the substitution.
/// 5. Otherwise: failure.
pub open spec fn unify_fuel(s: SpecSubst, t1: SpecTerm, t2: SpecTerm, fuel: nat) -> Option<
    Option<SpecSubst>,
>
    decreases fuel, 0nat,
{
    if fuel == 0 {
        None
    } else if t1 is Var && t2 is Var && t1->Var_0 == t2->Var_0 {
        Some(Some(s))
    } else if t1 is Var || t2 is Var {
        let v = if t1 is Var {
            t1
        } else {
            t2
        };
        let other = if t1 is Var {
            t2
        } else {
            t1
        };
        let name = v->Var_0;
        let ou = spec_apply(s, other);
        if s.dom().contains(name) {
            unify_fuel(s, s[name], ou, (fuel - 1) as nat)
        } else if occurs(name, ou) {
            Some(None)
        } else {
            Some(Some(s.insert(name, ou)))
        }
    } else if t1 is Atom && t2 is Atom {
        if t1->Atom_0 == t2->Atom_0 {
            Some(Some(s))
        } else {
            Some(None)
        }
    } else if t1 is Compound && t2 is Compound && t1->Compound_0 == t2->Compound_0
        && t1->Compound_1.len() == t2->Compound_1.len() {
        unify_args_fuel(s, t1->Compound_1, t2->Compound_1, (fuel - 1) as nat)
    } else {
        Some(None)
    }
}

/// Pairwise unification of two argument lists of the same length, left to right.
pub open spec fn unify_args_fuel(
    s: SpecSubst,
    a1: Seq<SpecTerm>,
    a2: Seq<SpecTerm>,
    fuel: nat,
) -> Option<Option<SpecSubst>>
    decreases fuel, a1.len() + 1,
{
    if a1.len() == 0 || a2.len() == 0 {
        Some(Some(s))
    } else {
        match unify_fuel(s, a1[0], a2[0], fuel) {
            None => None,
            Some(None) => Some(None),
            Some(Some(s1)) => unify_args_fuel(s1, a1.drop_first(), a2.drop_first(), fuel),
        }
    }
}

/// The algorithm stops on `s`, `t1`, `t2`.
pub open spec fn unify_terminates(s: SpecSubst, t1: SpecTerm, t2: SpecTerm) -> bool {
    exists|fuel: nat| unify_fuel(s, t1, t2, fuel) is Some
}

/// The result of unifying `t1` and `t2` under `s`, where the algorithm stops.
pub open spec fn spec_unify(s: SpecSubst, t1: SpecTerm, t2: SpecTerm) -> Option<SpecSubst> {
    unify_fuel(s, t1, t2, choose|fuel: nat| unify_fuel(s, t1, t2, fuel) is Some).unwrap()
}

/// The composition: the names bound by `s1`, each bound to its term with `s2` applied.
pub open spec fn spec_compose(s1: SpecSubst, s2: SpecSubst) -> SpecSubst {
    s1.map_values(|t: SpecTerm| spec_apply(s2, t))
}

pub open spec fn opt_subst_view(o: Option<Substitutions>) -> Option<SpecSubst> {
    match o {
        Some(s) => Some(s@),
        None => None,
    }
}

/// More fuel does not change a result that was reached.
pub proof fn lemma_unify_fuel_mono(s: SpecSubst, t1: SpecTerm, t2: SpecTerm, f: nat, g: nat)
    requires
        f <= g,
        unify_fuel(s, t1, t2, f) is Some,
    ensures
        unify_fuel(s, t1, t2, g) == unify_fuel(s, t1, t2, f),
    decreases f, 0nat,
{
    if t1 is Var && t2 is Var && t1->Var_0 == t2->Var_0 {
    } else if t1 is Var || t2 is Var {
        let v = if t1 is Var {
            t1
        } else {
            t2
        };
        let other = if t1 is Var {
            t2
        } else {
            t1
        };
        let name = v->Var_0;
        let ou = spec_apply(s, other);
        if s.dom().contains(name) {
            lemma_unify_fuel_mono(s, s[name], ou, (f - 1) as nat, (g - 1) as nat);
        }
    } else if t1 is Atom && t2 is Atom {
    } else if t1 is Compound && t2 is Compound && t1->Compound_0 == t2->Compound_0
        && t1->Compound_1.len() == t2->Compound_1.len() {
        lemma_unify_args_fuel_mono(
            s,
            t1->Compound_1,
            t2->Compound_1,
            (f - 1) as nat,
            (g - 1) as nat,
        );
    }
}

pub proof fn lemma_unify_args_fuel_mono(
    s: SpecSubst,
    a1: Seq<SpecTerm>,
    a2: Seq<SpecTerm>,
    f: nat,
    g: nat,
)
    requires
        f <= g,
        unify_args_fuel(s, a1, a2, f) is Some,
    ensures
        unify_args_fuel(s, a1, a2, g) == unify_args_fuel(s, a1, a2, f),
    decreases f, a1.len() + 1,
{
    if a1.len() == 0 || a2.len() == 0 {
    } else {
        lemma_unify_fuel_mono(s, a1[0], a2[0], f, g);
        match unify_fuel(s, a1[0], a2[0], f) {
            None => {},
            Some(None) => {},
            Some(Some(s1)) => {
                lemma_unify_args_fuel_mono(s1, a1.drop_first(), a2.drop_first(), f, g);
            },
        }
    }
}

/// Any fuel with which the algorithm stops gives [`spec_unify`].
pub proof fn lemma_spec_unify(s: SpecSubst, t1: SpecTerm, t2: SpecTerm, f: nat)
    requires
        unify_fuel(s, t1, t2, f) is Some,
    ensures
        unify_terminates(s, t1, t2),
        spec_unify(s, t1, t2) == unify_fuel(s, t1, t2, f).unwrap(),
{
    let g = choose|fuel: nat| unify_fuel(s, t1, t2, fuel) is Some;
    if f <= g {
        lemma_unify_fuel_mono(s, t1, t2, f, g);
    } else {
        lemma_unify_fuel_mono(s, t1, t2, g, f);
    }
}

/// Applies `substitutions` once to `term`.
pub fn apply(substitutions: Substitutions, term: &Term) -> (r: Term)
    ensures
        r@ == spec_apply(substitutions@, term@),
{
    apply_ref(&substitutions, term)
}

/// Applies `s` once to `t`.
pub fn apply_ref(s: &Substitutions, t: &Term) -> (r: Term)
    ensures
        r@ == spec_apply(s@, t@),
    decreases t,
{
    match t {
        Term::Atom(a) => Term::Atom(a.clone()),
        Term::Var(v) => match s.get_string(v) {
            Some(b) => clone_term(b),
            None => Term::Var(v.clone()),
        },
        Term::Compound(f, args) => {
            proof {
                assert(decreases_to!(*t => (*t)->Compound_1));
            }
            let out = apply_all(s, args);
            Term::Compound(f.clone(), out)
        },
    }
}

/// Applies `s` once to each term of `ts`.
pub fn apply_all(s: &Substitutions, ts: &Vec<Term>) -> (r: Vec<Term>)
    ensures
        terms_view(r@) == spec_apply_all(s@, terms_view(ts@)),
    decreases ts,
{
    let mut out: Vec<Term> = Vec::new();
    let mut i: usize = 0;
    while i < ts.len()
        invariant
            i <= ts.len(),
            out@.len() == i,
            forall|j: int|
                0 <= j < i ==> term_view(#[trigger] out@[j]) == spec_apply(s@, term_view(ts@[j])),
        decreases ts.len() - i,
    {
        proof {
            assert(decreases_to!(*ts => ts[i as int]));
        }
        let c = apply_ref(s, &ts[i]);
        out.push(c);
        i = i + 1;
    }
    assert(terms_view(out@) =~= spec_apply_all(s@, terms_view(ts@)));
    out
}

/// Whether the variable named `var` occurs in `term`.
pub fn var_occurs(var: &str, term: &Term) -> (r: bool)
    ensures
        r == occurs(var@, term@),
{
    let v = var.to_owned();
    var_occurs_string(&v, term)
}

/// Whether the variable named `var` occurs in `term`.
pub fn var_occurs_string(var: &String, term: &Term) -> (r: bool)
    ensures
        r == occurs(var@, term@),
    decreases term,
{
    match term {
        Term::Atom(_) => false,
        Term::Var(w) => *w == *var,
        Term::Compound(_, args) => {
            let mut i: usize = 0;
            while i < args.len()
                invariant
                    i <= args.len(),
                    *term == Term::Compound((*term)->Compound_0, *args),
                    forall|j: int| 0 <= j < i ==> !occurs(var@, term_view(#[trigger] args@[j])),
                decreases args.len() - i,
            {
                proof {
                    assert(decreases_to!(*term => (*term)->Compound_1));
                    assert(decreases_to!(*args => args[i as int]));
                }
                if var_occurs_string(var, &args[i]) {
                    proof {
                        assert(terms_view(args@)[i as int] == term_view(args@[i as int]));
                    }
                    return true;
                }
                i = i + 1;
            }
            proof {
                assert forall|j: int| 0 <= j < terms_view(args@).len() implies !occurs(
                    var@,
                    #[trigger] terms_view(args@)[j],
                ) by {
                    assert(terms_view(args@)[j] == term_view(args@[j]));
                }
            }
            false
        },
    }
}

/// Unifies `term_1` and `term_2` under `substitutions`.
///
/// The algorithm proceeds by cases:
///
/// 1. If both terms are the same variable, return the current substitution.
/// 2. If one term is a variable V: apply the current substitution once to the other term.
///    - If V is bound, unify its binding with the other term.
///    - Otherwise, check that V does not occur in the other term (occurs check),
///      then extend the substitution with V → other term.
/// 3. If both are atoms with the same name, succeed.
/// 4. If both are compound terms with the same functor and arity, unify arguments pairwise.
/// 5. Otherwise, fail (return None).
///
/// The algorithm does not stop on every input (for instance with `X` bound to `f(X)` and `Y`
/// bound to `f(Y)`, unifying `X` with `Y`); it is called where it stops.
pub fn unify(substitutions: Substitutions, term_1: &Term, term_2: &Term) -> (r: Option<
    Substitutions,
>)
    requires
        unify_terminates(substitutions@, term_1@, term_2@),
    ensures
        opt_subst_view(r) == spec_unify(substitutions@, term_1@, term_2@),
{
    let ghost fuel = choose|fuel: nat| unify_fuel(substitutions@, term_1@, term_2@, fuel) is Some;
    proof {
        lemma_spec_unify(substitutions@, term_1@, term_2@, fuel);
    }
    unify_go(substitutions, term_1, term_2, Ghost(fuel))
}

/// Unification with at most `fuel` nested steps, where that much fuel suffices.
fn unify_go(s: Substitutions, t1: &Term, t2: &Term, Ghost(fuel): Ghost<nat>) -> (r: Option<
    Substitutions,
>)
    requires
        unify_fuel(s@, t1@, t2@, fuel) is Some,
    ensures
        opt_subst_view(r) == unify_fuel(s@, t1@, t2@, fuel).unwrap(),
    decreases fuel, 0nat,
{
    let t1_is_var = matches!(t1, Term::Var(_));
    let t2_is_var = matches!(t2, Term::Var(_));
    if let (Term::Var(a), Term::Var(b)) = (t1, t2) {
        if *a == *b {
            return Some(s);
        }
    }
    if t1_is_var || t2_is_var {
        let (v, other) = if t1_is_var {
            (t1, t2)
        } else {
            (t2, t1)
        };
        let v_name = match v {
            Term::Var(name) => name,
            _ => {
                proof {
                    assert(false);
                }
                return None;
            },
        };
        let other_updated = apply_ref(&s, other);
        match s.get_string(v_name) {
            Some(b) => {
                let binding = clone_term(b);
                unify_go(s, &binding, &other_updated, Ghost((fuel - 1) as nat))
            },
            None => {
                if var_occurs_string(v_name, &other_updated) {
                    None
                } else {
                    let mut s = s;
                    s.insert(v_name.clone(), other_updated);
                    Some(s)
                }
            },
        }
    } else {
        match (t1, t2) {
            (Term::Atom(a), Term::Atom(b)) => {
                if *a == *b {
                    Some(s)
                } else {
                    None
                }
            },
            (Term::Compound(f, xs), Term::Compound(g, ys)) => {
                if *f == *g && xs.len() == ys.len() {
                    proof {
                        assert(terms_view(xs@).len() == xs@.len());
                    }
                    unify_args_go(s, xs, ys, Ghost((fuel - 1) as nat))
                } else {
                    None
                }
            },
            _ => None,
        }
    }
}

/// Pairwise unification of two argument lists of the same length.
fn unify_args_go(s: Substitutions, xs: &Vec<Term>, ys: &Vec<Term>, Ghost(fuel): Ghost<nat>) -> (r:
    Option<Substitutions>)
    requires
        xs.len() == ys.len(),
        unify_args_fuel(s@, terms_view(xs@), terms_view(ys@), fuel) is Some,
    ensures
        opt_subst_view(r) == unify_args_fuel(s@, terms_view(xs@), terms_view(ys@), fuel).unwrap(),
    decreases fuel, xs.len() + 1,
{
    let ghost a1 = terms_view(xs@);
    let ghost a2 = terms_view(ys@);
    let ghost goal = unify_args_fuel(s@, a1, a2, fuel);
    let mut cur = s;
    let mut i: usize = 0;
    assert(a1.skip(0) =~= a1);
    assert(a2.skip(0) =~= a2);
    while i < xs.len()
        invariant
            i <= xs.len(),
            xs.len() == ys.len(),
            a1 == terms_view(xs@),
            a2 == terms_view(ys@),
            unify_args_fuel(cur@, a1.skip(i as int), a2.skip(i as int), fuel) == goal,
            goal is Some,
            goal == unify_args_fuel(s@, terms_view(xs@), terms_view(ys@), fuel),
        decreases xs.len() - i,
    {
        let ghost c = cur@;
        proof {
            assert(a1.skip(i as int)[0] == a1[i as int]);
            assert(a2.skip(i as int)[0] == a2[i as int]);
            assert(a1.skip(i as int).drop_first() =~= a1.skip(i + 1));
            assert(a2.skip(i as int).drop_first() =~= a2.skip(i + 1));
            assert(a1[i as int] == term_view(xs@[i as int]));
            assert(a2[i as int] == term_view(ys@[i as int]));
        }
        match unify_go(cur, &xs[i], &ys[i], Ghost(fuel)) {
            Some(next) => {
                cur = next;
            },
            None => {
                proof {
                    assert(unify_fuel(c, a1[i as int], a2[i as int], fuel) == Some(
                        None::<SpecSubst>,
                    ));
                    assert(a1.skip(i as int).len() > 0);
                    assert(goal == Some(None::<SpecSubst>));
                }
                return None;
            },
        }
        i = i + 1;
    }
    proof {
        assert(a1.skip(i as int).len() == 0);
    }
    Some(cur)
}

/// `Some` of the result view where the fuel sufficed, `None` where it ran out.
pub open spec fn fueled_view(o: Option<Option<Substitutions>>) -> Option<Option<SpecSubst>> {
    match o {
        Some(r) => Some(opt_subst_view(r)),
        None => None,
    }
}

/// Unification with at most `fuel` nested steps: `None` where that is not enough, else
/// `Some` of what [`unify`] gives.
pub fn unify_within(substitutions: Substitutions, term_1: &Term, term_2: &Term, fuel: usize) -> (r:
    Option<Option<Substitutions>>)
    ensures
        fueled_view(r) == unify_fuel(substitutions@, term_1@, term_2@, fuel as nat),
    decreases fuel, 0nat,
{
    let s = substitutions;
    let (t1, t2) = (term_1, term_2);
    if fuel == 0 {
        return None;
    }
    if let (Term::Var(a), Term::Var(b)) = (t1, t2) {
        if *a == *b {
            return Some(Some(s));
        }
    }
    let t1_is_var = matches!(t1, Term::Var(_));
    let t2_is_var = matches!(t2, Term::Var(_));
    if t1_is_var || t2_is_var {
        let (v, other) = if t1_is_var {
            (t1, t2)
        } else {
            (t2, t1)
        };
        let v_name = match v {
            Term::Var(name) => name,
            _ => {
                proof {
                    assert(false);
                }
                return None;
            },
        };
        let other_updated = apply_ref(&s, other);
        match s.get_string(v_name) {
            Some(b) => {
                let binding = clone_term(b);
                unify_within(s, &binding, &other_updated, fuel - 1)
            },
            None => {
                if var_occurs_string(v_name, &other_updated) {
                    Some(None)
                } else {
                    let mut s = s;
                    s.insert(v_name.clone(), other_updated);
                    Some(Some(s))
                }
            },
        }
    } else {
        match (t1, t2) {
            (Term::Atom(a), Term::Atom(b)) => {
                if *a == *b {
                    Some(Some(s))
                } else {
                    Some(None)
                }
            },
            (Term::Compound(f, xs), Term::Compound(g, ys)) => {
                if *f == *g && xs.len() == ys.len() {
                    proof {
                        assert(terms_view(xs@).len() == xs@.len());
                    }
                    unify_args_within(s, xs, ys, fuel - 1)
                } else {
                    Some(None)
                }
            },
            _ => Some(None),
        }
    }
}

/// Pairwise unification of two argument lists of the same length, with at most `fuel` nested
/// steps for each pair.
fn unify_args_within(s: Substitutions, xs: &Vec<Term>, ys: &Vec<Term>, fuel: usize) -> (r: Option<
    Option<Substitutions>,
>)
    requires
        xs.len() == ys.len(),
    ensures
        fueled_view(r) == unify_args_fuel(s@, terms_view(xs@), terms_view(ys@), fuel as nat),
    decreases fuel, xs.len() + 1,
{
    let ghost a1 = terms_view(xs@);
    let ghost a2 = terms_view(ys@);
    let ghost goal = unify_args_fuel(s@, a1, a2, fuel as nat);
    let mut cur = s;
    let mut i: usize = 0;
    assert(a1.skip(0) =~= a1);
    assert(a2.skip(0) =~= a2);
    while i < xs.len()
        invariant
            i <= xs.len(),
            xs.len() == ys.len(),
            a1 == terms_view(xs@),
            a2 == terms_view(ys@),
            unify_args_fuel(cur@, a1.skip(i as int), a2.skip(i as int), fuel as nat) == goal,
            goal == unify_args_fuel(s@, terms_view(xs@), terms_view(ys@), fuel as nat),
        decreases xs.len() - i,
    {
        proof {
            assert(a1.skip(i as int)[0] == a1[i as int]);
            assert(a2.skip(i as int)[0] == a2[i as int]);
            assert(a1.skip(i as int).drop_first() =~= a1.skip(i + 1));
            assert(a2.skip(i as int).drop_first() =~= a2.skip(i + 1));
            assert(a1[i as int] == term_view(xs@[i as int]));
            assert(a2[i as int] == term_view(ys@[i as int]));
            assert(a1.skip(i as int).len() > 0);
        }
        match unify_within(cur, &xs[i], &ys[i], fuel) {
            Some(Some(next)) => {
                cur = next;
            },
            Some(None) => {
                return Some(None);
            },
            None => {
                return None;
            },
        }
        i = i + 1;
    }
    proof {
        assert(a1.skip(i as int).len() == 0);
    }
    Some(Some(cur))
}

/// The names bound by `sub1`, each bound to its term with `sub2` applied once.
pub fn compose(sub1: Substitutions, sub2: Substitutions) -> (r: Substitutions)
    ensures
        r@ == spec_compose(sub1@, sub2@),
{
    let e = sub1.bindings();
    let mut out: Vec<(String, Term)> = Vec::new();
    let mut i: usize = 0;
    while i < e.len()
        invariant
            i <= e@.len(),
            keys_distinct(e@),
            map_of(e@) == sub1@,
            out@.len() == i,
            forall|j: int|
                0 <= j < i ==> (#[trigger] out@[j]).0@ == e@[j].0@ && term_view(out@[j].1)
                    == spec_apply(sub2@, term_view(e@[j].1)),
        decreases e.len() - i,
    {
        let k = e[i].0.clone();
        let t = apply_ref(&sub2, &e[i].1);
        out.push((k, t));
        i = i + 1;
    }
    proof {
        assert(keys_distinct(out@)) by {
            assert forall|a: int, b: int| 0 <= a < b < out@.len() implies out@[a].0@
                != out@[b].0@ by {
                assert(e@[a].0@ != e@[b].0@);
            }
        }
        lemma_map_of(e@);
        lemma_map_of(out@);
        assert forall|k: Seq<char>| #[trigger]
            map_of(out@).dom().contains(k) == spec_compose(sub1@, sub2@).dom().contains(k) by {
            if map_of(out@).dom().contains(k) {
                let j = choose|j: int| 0 <= j < out@.len() && out@[j].0@ == k;
                assert(e@[j].0@ == k);
            }
            if map_of(e@).dom().contains(k) {
                let j = choose|j: int| 0 <= j < e@.len() && e@[j].0@ == k;
                assert(out@[j].0@ == k);
            }
        }
        assert forall|k: Seq<char>| #[trigger]
            map_of(out@).dom().contains(k) implies map_of(out@)[k] == spec_compose(
            sub1@,
            sub2@,
        )[k] by {
            let j = choose|j: int| 0 <= j < out@.len() && out@[j].0@ == k;
            assert(e@[j].0@ == k);
        }
        assert(map_of(out@) =~= spec_compose(sub1@, sub2@));
    }
    Substitutions::from_bindings(out)
}

} // verus!
