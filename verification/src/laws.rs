//! Properties of substitution, unification, renaming and resolution.
use vstd::prelude::*;

use crate::ast::{SpecClause, SpecTerm};
use crate::sld::{
    renamed, sld_answers, sld_branches, sld_depth, sld_fuel, sld_terminates, spec_rename,
    spec_rename_all, spec_rename_clause,
};
use crate::text::{decimal, lemma_decimal_injective};
use crate::subst::{included, SpecSubst};
use crate::unify::{
    lemma_unify_fuel_mono, occurs, spec_apply, spec_apply_all, spec_compose,
    spec_unify, unify_args_fuel, unify_fuel, unify_terminates,
};

verus! {

/// A term without variables.
pub open spec fn is_ground(t: SpecTerm) -> bool
    decreases t,
{
    match t {
        SpecTerm::Atom(_) => true,
        SpecTerm::Var(_) => false,
        SpecTerm::Compound(_, ts) => forall|i: int| 0 <= i < ts.len() ==> is_ground(#[trigger] ts[i]),
    }
}

/// Every binding of `s` is a term without variables.
pub open spec fn ground_valued(s: SpecSubst) -> bool {
    forall|k: Seq<char>| #[trigger] s.dom().contains(k) ==> is_ground(s[k])
}

/// The number of nodes of a term.
pub open spec fn size(t: SpecTerm) -> nat
    decreases t,
{
    match t {
        SpecTerm::Compound(_, ts) => 1 + size_all(ts),
        _ => 1,
    }
}

/// The number of nodes of a list of terms.
pub open spec fn size_all(ts: Seq<SpecTerm>) -> nat
    decreases ts,
{
    if ts.len() == 0 {
        0
    } else {
        size(ts[0]) + size_all(ts.subrange(1, ts.len() as int))
    }
}

/// A ground term has no variable in it.
pub proof fn lemma_ground_no_occurs(t: SpecTerm, v: Seq<char>)
    requires
        is_ground(t),
    ensures
        !occurs(v, t),
    decreases t,
{
    if let SpecTerm::Compound(f, ts) = t {
        assert forall|i: int| 0 <= i < ts.len() implies !occurs(v, #[trigger] ts[i]) by {
            lemma_ground_no_occurs(ts[i], v);
        }
    }
}

/// Applying any substitution leaves a ground term as it is.
pub proof fn lemma_apply_ground(s: SpecSubst, t: SpecTerm)
    requires
        is_ground(t),
    ensures
        spec_apply(s, t) == t,
    decreases t,
{
    if let SpecTerm::Compound(f, ts) = t {
        assert forall|i: int| 0 <= i < ts.len() implies spec_apply(s, #[trigger] ts[i]) == ts[i] by {
            lemma_apply_ground(s, ts[i]);
        }
        assert(spec_apply_all(s, ts) =~= ts);
    }
}

/// Applying the empty substitution leaves every term as it is.
pub proof fn lemma_apply_empty(t: SpecTerm)
    ensures
        spec_apply(SpecSubst::empty(), t) == t,
    decreases t,
{
    if let SpecTerm::Compound(f, ts) = t {
        assert forall|i: int| 0 <= i < ts.len() implies spec_apply(
            SpecSubst::empty(),
            #[trigger] ts[i],
        ) == ts[i] by {
            lemma_apply_empty(ts[i]);
        }
        assert(spec_apply_all(SpecSubst::empty(), ts) =~= ts);
    }
}

/// Composing with the empty substitution gives back the first substitution.
pub proof fn lemma_compose_empty(s: SpecSubst)
    ensures
        spec_compose(s, SpecSubst::empty()) == s,
{
    assert forall|k: Seq<char>| #[trigger] s.dom().contains(k) implies spec_compose(
        s,
        SpecSubst::empty(),
    )[k] == s[k] by {
        lemma_apply_empty(s[k]);
    }
    assert(spec_compose(s, SpecSubst::empty()) =~= s);
}

pub(crate) proof fn lemma_size_all_elem(ts: Seq<SpecTerm>, i: int)
    requires
        0 <= i < ts.len(),
    ensures
        size(ts[i]) <= size_all(ts),
    decreases ts.len(),
{
    if i > 0 {
        let rest = ts.subrange(1, ts.len() as int);
        lemma_size_all_elem(rest, i - 1);
        assert(rest[i - 1] == ts[i]);
    }
}

/// Unifying a term with itself succeeds with the substitution unchanged, given more fuel than
/// the term has nodes.
proof fn lemma_unify_refl_fuel(s: SpecSubst, t: SpecTerm, f: nat)
    requires
        f > size(t),
    ensures
        unify_fuel(s, t, t, f) == Some(Some(s)),
    decreases t,
{
    if let SpecTerm::Compound(g, ts) = t {
        lemma_unify_args_refl_fuel(s, ts, (f - 1) as nat);
    }
}

proof fn lemma_unify_args_refl_fuel(s: SpecSubst, ts: Seq<SpecTerm>, f: nat)
    requires
        f > size_all(ts),
    ensures
        unify_args_fuel(s, ts, ts, f) == Some(Some(s)),
    decreases ts,
{
    if ts.len() > 0 {
        lemma_size_all_elem(ts, 0);
        lemma_unify_refl_fuel(s, ts[0], f);
        lemma_unify_args_refl_fuel(s, ts.subrange(1, ts.len() as int), f);
    }
}

/// Unifying a term with itself stops and succeeds with the substitution unchanged.
pub proof fn lemma_unify_refl(s: SpecSubst, t: SpecTerm)
    ensures
        unify_terminates(s, t, t),
        spec_unify(s, t, t) == Some(s),
{
    lemma_unify_refl_fuel(s, t, size(t) + 1);
    crate::unify::lemma_spec_unify(s, t, t, size(t) + 1);
}

proof fn lemma_unify_ground_fuel(s: SpecSubst, t1: SpecTerm, t2: SpecTerm, f: nat)
    requires
        is_ground(t1),
        is_ground(t2),
        f > size(t1),
    ensures
        unify_fuel(s, t1, t2, f) == Some(
            if t1 == t2 {
                Some(s)
            } else {
                None::<SpecSubst>
            },
        ),
    decreases t1,
{
    if let SpecTerm::Compound(g1, a1) = t1 {
        if let SpecTerm::Compound(g2, a2) = t2 {
            if g1 == g2 && a1.len() == a2.len() {
                lemma_unify_args_ground_fuel(s, a1, a2, (f - 1) as nat);
                if a1 == a2 {
                    assert(t1 == t2);
                } else {
                    assert(t1 != t2);
                }
            }
        }
    }
}

proof fn lemma_unify_args_ground_fuel(s: SpecSubst, a1: Seq<SpecTerm>, a2: Seq<SpecTerm>, f: nat)
    requires
        forall|i: int| 0 <= i < a1.len() ==> is_ground(#[trigger] a1[i]),
        forall|i: int| 0 <= i < a2.len() ==> is_ground(#[trigger] a2[i]),
        a1.len() == a2.len(),
        f > size_all(a1),
    ensures
        unify_args_fuel(s, a1, a2, f) == Some(
            if a1 == a2 {
                Some(s)
            } else {
                None::<SpecSubst>
            },
        ),
    decreases a1,
{
    if a1.len() > 0 {
        lemma_size_all_elem(a1, 0);
        lemma_unify_ground_fuel(s, a1[0], a2[0], f);
        let r1 = a1.subrange(1, a1.len() as int);
        let r2 = a2.subrange(1, a2.len() as int);
        if a1[0] == a2[0] {
            assert forall|i: int| 0 <= i < r1.len() implies is_ground(#[trigger] r1[i]) by {
                assert(r1[i] == a1[i + 1]);
            }
            assert forall|i: int| 0 <= i < r2.len() implies is_ground(#[trigger] r2[i]) by {
                assert(r2[i] == a2[i + 1]);
            }
            lemma_unify_args_ground_fuel(s, r1, r2, f);
            if a1 == a2 {
                assert(r1 =~= r2);
            } else {
                assert(r1 != r2) by {
                    if r1 == r2 {
                        assert(a1 =~= a2) by {
                            assert forall|i: int| 0 <= i < a1.len() implies a1[i] == a2[i] by {
                                if i > 0 {
                                    assert(r1[i - 1] == r2[i - 1]);
                                }
                            }
                        }
                    }
                }
            }
        } else {
            assert(a1 != a2) by {
                if a1 == a2 {
                    assert(a1[0] == a2[0]);
                }
            }
        }
    } else {
        assert(a1 =~= a2);
    }
}

/// On two ground terms, unification stops, and succeeds, with the substitution unchanged,
/// exactly when the terms are equal.
pub proof fn lemma_unify_ground(s: SpecSubst, t1: SpecTerm, t2: SpecTerm)
    requires
        is_ground(t1),
        is_ground(t2),
    ensures
        unify_terminates(s, t1, t2),
        spec_unify(s, t1, t2) == if t1 == t2 {
            Some(s)
        } else {
            None
        },
{
    lemma_unify_ground_fuel(s, t1, t2, size(t1) + 1);
    crate::unify::lemma_spec_unify(s, t1, t2, size(t1) + 1);
}

proof fn lemma_ground_arg(t: SpecTerm, i: int)
    requires
        is_ground(t),
        t is Compound,
        0 <= i < t->Compound_1.len(),
    ensures
        is_ground(t->Compound_1[i]),
{
}

/// Where applying `s1` to `t` gives a ground term, applying any extension of `s1` gives the same.
proof fn lemma_apply_extension(s1: SpecSubst, s2: SpecSubst, t: SpecTerm)
    requires
        included(s1, s2),
        is_ground(spec_apply(s1, t)),
    ensures
        spec_apply(s2, t) == spec_apply(s1, t),
    decreases t,
{
    match t {
        SpecTerm::Var(x) => {
            if s1.dom().contains(x) {
                assert(s2.dom().contains(x));
            }
        },
        SpecTerm::Atom(_) => {},
        SpecTerm::Compound(f, ts) => {
            let at = spec_apply(s1, t);
            assert(at == SpecTerm::Compound(f, spec_apply_all(s1, ts)));
            assert forall|i: int| 0 <= i < ts.len() implies spec_apply(s2, #[trigger] ts[i])
                == spec_apply(s1, ts[i]) by {
                assert(spec_apply_all(s1, ts)[i] == spec_apply(s1, ts[i]));
                lemma_ground_arg(at, i);
                lemma_apply_extension(s1, s2, ts[i]);
            }
            assert(spec_apply_all(s2, ts) =~= spec_apply_all(s1, ts));
        },
    }
}

proof fn lemma_match_fuel(s: SpecSubst, t1: SpecTerm, t2: SpecTerm, f: nat, r: SpecSubst)
    requires
        ground_valued(s),
        is_ground(t2),
        unify_fuel(s, t1, t2, f) == Some(Some(r)),
    ensures
        ground_valued(r),
        included(s, r),
        spec_apply(r, t1) == t2,
    decreases f, 0nat,
{
    lemma_apply_ground(s, t2);
    if t1 is Var {
        let x = t1->Var_0;
        if s.dom().contains(x) {
            let g = s[x];
            assert(is_ground(g));
            assert(!(g is Var));
            lemma_match_fuel(s, g, t2, (f - 1) as nat, r);
            lemma_apply_ground(r, g);
            assert(r[x] == s[x]);
        } else {
            lemma_ground_no_occurs(t2, x);
            assert(r == s.insert(x, t2));
        }
    } else if t1 is Atom && t2 is Atom {
    } else if t1 is Compound && t2 is Compound && t1->Compound_0 == t2->Compound_0
        && t1->Compound_1.len() == t2->Compound_1.len() {
        let a1 = t1->Compound_1;
        let a2 = t2->Compound_1;
        lemma_match_args_fuel(s, a1, a2, (f - 1) as nat, r);
        assert(spec_apply_all(r, a1) =~= a2);
    }
}

proof fn lemma_match_args_fuel(
    s: SpecSubst,
    a1: Seq<SpecTerm>,
    a2: Seq<SpecTerm>,
    f: nat,
    r: SpecSubst,
)
    requires
        ground_valued(s),
        forall|i: int| 0 <= i < a2.len() ==> is_ground(#[trigger] a2[i]),
        a1.len() == a2.len(),
        unify_args_fuel(s, a1, a2, f) == Some(Some(r)),
    ensures
        ground_valued(r),
        included(s, r),
        forall|i: int| 0 <= i < a1.len() ==> spec_apply(r, #[trigger] a1[i]) == a2[i],
    decreases f, a1.len() + 1,
{
    if a1.len() > 0 {
        let s1 = unify_fuel(s, a1[0], a2[0], f).unwrap().unwrap();
        lemma_match_fuel(s, a1[0], a2[0], f, s1);
        let r1 = a1.subrange(1, a1.len() as int);
        let r2 = a2.subrange(1, a2.len() as int);
        assert forall|i: int| 0 <= i < r2.len() implies is_ground(#[trigger] r2[i]) by {
            assert(r2[i] == a2[i + 1]);
        }
        lemma_match_args_fuel(s1, r1, r2, f, r);
        lemma_apply_extension(s1, r, a1[0]);
        assert forall|i: int| 0 <= i < a1.len() implies spec_apply(r, #[trigger] a1[i]) == a2[i] by {
            if i > 0 {
                assert(r1[i - 1] == a1[i]);
                assert(r2[i - 1] == a2[i]);
            }
        }
    }
}

/// Matching: unifying a term with a ground term under a substitution whose bindings are
/// ground, where it succeeds, keeps every binding, binds only to ground terms, and makes the
/// term, with the result applied, equal to the ground term.
pub proof fn lemma_unify_match(s: SpecSubst, t1: SpecTerm, t2: SpecTerm)
    requires
        ground_valued(s),
        is_ground(t2),
        unify_terminates(s, t1, t2),
        spec_unify(s, t1, t2) is Some,
    ensures
        ground_valued(spec_unify(s, t1, t2).unwrap()),
        included(s, spec_unify(s, t1, t2).unwrap()),
        spec_apply(spec_unify(s, t1, t2).unwrap(), t1) == t2,
{
    let f = choose|fuel: nat| unify_fuel(s, t1, t2, fuel) is Some;
    lemma_match_fuel(s, t1, t2, f, spec_unify(s, t1, t2).unwrap());
}

/// Renaming leaves a ground term as it is.
pub proof fn lemma_rename_ground(t: SpecTerm, n: nat)
    requires
        is_ground(t),
    ensures
        spec_rename(t, n) == t,
    decreases t,
{
    if let SpecTerm::Compound(f, ts) = t {
        assert forall|i: int| 0 <= i < ts.len() implies spec_rename(#[trigger] ts[i], n) == ts[i] by {
            lemma_rename_ground(ts[i], n);
        }
        assert(spec_rename_all(ts, n) =~= ts);
    }
}

/// Distinct suffixes give distinct names.
pub proof fn lemma_renamed_injective(x: Seq<char>, n1: nat, n2: nat)
    requires
        renamed(x, n1) == renamed(x, n2),
    ensures
        n1 == n2,
{
    let a = renamed(x, n1);
    let b = renamed(x, n2);
    let k = x.len() + 1;
    assert(a.subrange(k as int, a.len() as int) =~= decimal(n1));
    assert(b.subrange(k as int, b.len() as int) =~= decimal(n2));
    lemma_decimal_injective(n1, n2);
}

/// Renaming a term that has a variable with two distinct suffixes gives two distinct terms.
pub proof fn lemma_rename_distinct(t: SpecTerm, v: Seq<char>, n1: nat, n2: nat)
    requires
        occurs(v, t),
        n1 != n2,
    ensures
        spec_rename(t, n1) != spec_rename(t, n2),
    decreases t,
{
    match t {
        SpecTerm::Var(x) => {
            if spec_rename(t, n1) == spec_rename(t, n2) {
                lemma_renamed_injective(x, n1, n2);
            }
        },
        SpecTerm::Atom(_) => {},
        SpecTerm::Compound(f, ts) => {
            let i = choose|i: int| 0 <= i < ts.len() && occurs(v, #[trigger] ts[i]);
            lemma_rename_distinct(ts[i], v, n1, n2);
            if spec_rename(t, n1) == spec_rename(t, n2) {
                assert(spec_rename_all(ts, n1)[i] == spec_rename_all(ts, n2)[i]);
            }
        },
    }
}

/// More fuel does not change answers that were reached.
pub proof fn lemma_sld_fuel_mono(
    goals: Seq<SpecTerm>,
    prog: Seq<SpecClause>,
    s: SpecSubst,
    suffix: nat,
    f: nat,
    g: nat,
)
    requires
        f <= g,
        sld_fuel(goals, prog, s, suffix, f) is Some,
    ensures
        sld_fuel(goals, prog, s, suffix, g) == sld_fuel(goals, prog, s, suffix, f),
    decreases f, prog.len() + 1,
{
    if goals.len() > 0 {
        lemma_sld_branches_mono(goals, prog, s, suffix, f, g, 0);
    }
}

proof fn lemma_sld_branches_mono(
    goals: Seq<SpecTerm>,
    prog: Seq<SpecClause>,
    s: SpecSubst,
    suffix: nat,
    f: nat,
    g: nat,
    i: int,
)
    requires
        0 < f <= g,
        0 <= i,
        sld_branches(goals, prog, s, suffix, f, i) is Some,
    ensures
        sld_branches(goals, prog, s, suffix, g, i) == sld_branches(goals, prog, s, suffix, f, i),
    decreases f, prog.len() - i,
{
    if i < prog.len() {
        let c = spec_rename_clause(prog[i], suffix);
        lemma_unify_fuel_mono(s, goals[0], c.head, f, g);
        if let Some(Some(mgu)) = unify_fuel(s, goals[0], c.head, f) {
            let ng = c.body + spec_apply_all(mgu, goals.drop_first());
            lemma_sld_fuel_mono(
                ng,
                prog,
                spec_compose(mgu, mgu),
                suffix + 1,
                (f - 1) as nat,
                (g - 1) as nat,
            );
        }
        lemma_sld_branches_mono(goals, prog, s, suffix, f, g, i + 1);
    }
}

/// The answers of resolution do not depend on the depth chosen, among those within which it
/// stops.
pub proof fn lemma_sld_answers(
    goals: Seq<SpecTerm>,
    prog: Seq<SpecClause>,
    s: SpecSubst,
    suffix: nat,
    f: nat,
)
    requires
        sld_fuel(goals, prog, s, suffix, f) is Some,
        suffix + f <= usize::MAX,
    ensures
        sld_terminates(goals, prog, s, suffix),
        sld_answers(goals, prog, s, suffix) == sld_fuel(goals, prog, s, suffix, f).unwrap(),
{
    let d = sld_depth(goals, prog, s, suffix);
    if f <= d {
        lemma_sld_fuel_mono(goals, prog, s, suffix, f, d);
    } else {
        lemma_sld_fuel_mono(goals, prog, s, suffix, d, f);
    }
}

/// With no goal, resolution stops and its one answer is the given substitution.
pub proof fn lemma_resolve_no_goals(prog: Seq<SpecClause>, s: SpecSubst, suffix: nat)
    requires
        suffix <= usize::MAX,
    ensures
        sld_terminates(Seq::empty(), prog, s, suffix),
        sld_answers(Seq::empty(), prog, s, suffix) == seq![s],
{
    lemma_sld_answers(Seq::empty(), prog, s, suffix, 0);
}

/// Against the empty program, a goal has no answer.
pub proof fn lemma_resolve_empty_program(goals: Seq<SpecTerm>, s: SpecSubst, suffix: nat)
    requires
        goals.len() > 0,
        suffix < usize::MAX,
    ensures
        sld_terminates(goals, Seq::empty(), s, suffix),
        sld_answers(goals, Seq::empty(), s, suffix) == Seq::<SpecSubst>::empty(),
{
    lemma_sld_answers(goals, Seq::empty(), s, suffix, 1);
}

/// The answers that the clauses of `prog` from index `i` on give to the first goal in one step
/// of resolution, in program order: for each clause whose head, renamed with `suffix`, unifies
/// with the first goal under `s` with result `m`, the answers of resolving the clause's renamed
/// body followed by the remaining goals with `m` applied, from `m` composed with itself and with
/// the next suffix.
pub open spec fn one_step_answers(
    goals: Seq<SpecTerm>,
    prog: Seq<SpecClause>,
    s: SpecSubst,
    suffix: nat,
    i: int,
) -> Seq<SpecSubst>
    decreases prog.len() - i,
{
    if i < 0 || i >= prog.len() {
        Seq::empty()
    } else {
        let c = spec_rename_clause(prog[i], suffix);
        let here = match spec_unify(s, goals[0], c.head) {
            Some(m) => sld_answers(
                c.body + spec_apply_all(m, goals.drop_first()),
                prog,
                spec_compose(m, m),
                suffix + 1,
            ),
            None => Seq::empty(),
        };
        here + one_step_answers(goals, prog, s, suffix, i + 1)
    }
}

proof fn lemma_branches_one_step(
    goals: Seq<SpecTerm>,
    prog: Seq<SpecClause>,
    s: SpecSubst,
    suffix: nat,
    fuel: nat,
    i: int,
)
    requires
        goals.len() > 0,
        0 <= i,
        fuel > 0,
        suffix + fuel <= usize::MAX,
        sld_branches(goals, prog, s, suffix, fuel, i) is Some,
    ensures
        sld_branches(goals, prog, s, suffix, fuel, i) == Some(
            one_step_answers(goals, prog, s, suffix, i),
        ),
        forall|j: int|
            i <= j < prog.len() ==> unify_terminates(
                s,
                goals[0],
                #[trigger] spec_rename_clause(prog[j], suffix).head,
            ),
        forall|j: int|
            i <= j < prog.len() ==> (spec_unify(
                s,
                goals[0],
                #[trigger] spec_rename_clause(prog[j], suffix).head,
            ) matches Some(m) ==> sld_terminates(
                spec_rename_clause(prog[j], suffix).body + spec_apply_all(m, goals.drop_first()),
                prog,
                spec_compose(m, m),
                suffix + 1,
            )),
    decreases prog.len() - i,
{
    if i < prog.len() {
        let c = spec_rename_clause(prog[i], suffix);
        crate::unify::lemma_spec_unify(s, goals[0], c.head, fuel);
        if let Some(m) = spec_unify(s, goals[0], c.head) {
            lemma_sld_answers(
                c.body + spec_apply_all(m, goals.drop_first()),
                prog,
                spec_compose(m, m),
                suffix + 1,
                (fuel - 1) as nat,
            );
        }
        lemma_branches_one_step(goals, prog, s, suffix, fuel, i + 1);
    }
}

/// One step of resolution: the answers to goals against `prog` are, in program order, those that
/// each clause gives after unifying its renamed head with the first goal (see
/// [`one_step_answers`]); every such unification stops, and so does every resolution that
/// follows one that succeeds.
pub proof fn lemma_resolve_one_step(
    goals: Seq<SpecTerm>,
    prog: Seq<SpecClause>,
    s: SpecSubst,
    suffix: nat,
)
    requires
        goals.len() > 0,
        sld_terminates(goals, prog, s, suffix),
    ensures
        sld_answers(goals, prog, s, suffix) == one_step_answers(goals, prog, s, suffix, 0),
        forall|j: int|
            0 <= j < prog.len() ==> unify_terminates(
                s,
                goals[0],
                #[trigger] spec_rename_clause(prog[j], suffix).head,
            ),
        forall|j: int|
            0 <= j < prog.len() ==> (spec_unify(
                s,
                goals[0],
                #[trigger] spec_rename_clause(prog[j], suffix).head,
            ) matches Some(m) ==> sld_terminates(
                spec_rename_clause(prog[j], suffix).body + spec_apply_all(m, goals.drop_first()),
                prog,
                spec_compose(m, m),
                suffix + 1,
            )),
{
    let d = sld_depth(goals, prog, s, suffix);
    assert(sld_fuel(goals, prog, s, suffix, d) is Some);
    assert(d > 0);
    lemma_branches_one_step(goals, prog, s, suffix, d, 0);
}

proof fn lemma_branches_none_unify(
    goals: Seq<SpecTerm>,
    prog: Seq<SpecClause>,
    s: SpecSubst,
    suffix: nat,
    fuel: nat,
    i: int,
)
    requires
        goals.len() > 0,
        0 <= i,
        sld_branches(goals, prog, s, suffix, fuel, i) is Some,
        forall|j: int|
            0 <= j < prog.len() ==> spec_unify(
                s,
                goals[0],
                #[trigger] spec_rename_clause(prog[j], suffix).head,
            ) is None,
    ensures
        sld_branches(goals, prog, s, suffix, fuel, i) == Some(Seq::<SpecSubst>::empty()),
    decreases prog.len() - i,
{
    if i < prog.len() && fuel > 0 {
        let c = spec_rename_clause(prog[i], suffix);
        assert(unify_fuel(s, goals[0], c.head, fuel) is Some);
        crate::unify::lemma_spec_unify(s, goals[0], c.head, fuel);
        assert(spec_unify(s, goals[0], c.head) is None);
        lemma_branches_none_unify(goals, prog, s, suffix, fuel, i + 1);
        assert(Seq::<SpecSubst>::empty() + Seq::<SpecSubst>::empty() =~= Seq::<SpecSubst>::empty());
    }
}

/// Where no clause head, renamed with `suffix`, unifies with the first goal under `s`,
/// resolution gives no answer.
pub proof fn lemma_resolve_no_unifying_head(
    goals: Seq<SpecTerm>,
    prog: Seq<SpecClause>,
    s: SpecSubst,
    suffix: nat,
)
    requires
        goals.len() > 0,
        sld_terminates(goals, prog, s, suffix),
        forall|j: int|
            0 <= j < prog.len() ==> spec_unify(
                s,
                goals[0],
                #[trigger] spec_rename_clause(prog[j], suffix).head,
            ) is None,
    ensures
        sld_answers(goals, prog, s, suffix) == Seq::<SpecSubst>::empty(),
{
    let d = sld_depth(goals, prog, s, suffix);
    assert(sld_fuel(goals, prog, s, suffix, d) is Some);
    assert(d > 0);
    lemma_branches_none_unify(goals, prog, s, suffix, d, 0);
}

proof fn lemma_branches_reach_fact(
    g: SpecTerm,
    prog: Seq<SpecClause>,
    s: SpecSubst,
    suffix: nat,
    d: nat,
    i: int,
    j: int,
)
    requires
        is_ground(g),
        0 <= j <= i < prog.len(),
        prog[i] == (SpecClause { head: g, body: Seq::empty() }),
        d > 0,
        sld_branches(seq![g], prog, s, suffix, d, j) is Some,
    ensures
        sld_branches(seq![g], prog, s, suffix, d, j).unwrap().contains(spec_compose(s, s)),
    decreases i - j,
{
    let goals = seq![g];
    let c = spec_rename_clause(prog[j], suffix);
    let rest = sld_branches(goals, prog, s, suffix, d, j + 1);
    let here = match unify_fuel(s, goals[0], c.head, d) {
        None => None,
        Some(None) => Some(Seq::<SpecSubst>::empty()),
        Some(Some(mgu)) => sld_fuel(
            c.body + spec_apply_all(mgu, goals.drop_first()),
            prog,
            spec_compose(mgu, mgu),
            suffix + 1,
            (d - 1) as nat,
        ),
    };
    let all = sld_branches(goals, prog, s, suffix, d, j).unwrap();
    assert(all == here.unwrap() + rest.unwrap());
    if j == i {
        lemma_rename_ground(g, suffix);
        assert(spec_rename_all(Seq::<SpecTerm>::empty(), suffix) =~= Seq::<SpecTerm>::empty());
        assert(c == SpecClause { head: g, body: Seq::empty() });
        lemma_unify_refl_fuel(s, g, size(g) + d + 1);
        lemma_unify_fuel_mono(s, g, g, d, size(g) + d + 1);
        assert(unify_fuel(s, g, g, d) == Some(Some(s)));
        assert(goals.drop_first() =~= Seq::<SpecTerm>::empty());
        assert(spec_apply_all(s, Seq::<SpecTerm>::empty()) =~= Seq::<SpecTerm>::empty());
        assert(c.body + spec_apply_all(s, goals.drop_first()) =~= Seq::<SpecTerm>::empty());
        assert(here == Some(seq![spec_compose(s, s)]));
        assert(all[0] == spec_compose(s, s));
    } else {
        lemma_branches_reach_fact(g, prog, s, suffix, d, i, j + 1);
        let k = choose|k: int| 0 <= k < rest.unwrap().len() && rest.unwrap()[k] == spec_compose(s, s);
        assert(all[here.unwrap().len() + k] == spec_compose(s, s));
    }
}

/// A ground goal that the program states as a fact is answered: where resolution of that goal
/// alone stops, one of its answers is the given substitution composed with itself.
pub proof fn lemma_resolve_fact(
    g: SpecTerm,
    prog: Seq<SpecClause>,
    i: int,
    s: SpecSubst,
    suffix: nat,
)
    requires
        is_ground(g),
        0 <= i < prog.len(),
        prog[i] == (SpecClause { head: g, body: Seq::empty() }),
        sld_terminates(seq![g], prog, s, suffix),
    ensures
        sld_answers(seq![g], prog, s, suffix).contains(spec_compose(s, s)),
{
    let d = sld_depth(seq![g], prog, s, suffix);
    lemma_branches_reach_fact(g, prog, s, suffix, d, i, 0);
}

/// Occurs check: a variable that `s` leaves unbound does not unify with a different term in
/// which, once `s` is applied, it occurs.
pub proof fn lemma_unify_occurs_check(s: SpecSubst, x: Seq<char>, t: SpecTerm)
    requires
        !s.dom().contains(x),
        t != SpecTerm::Var(x),
        occurs(x, spec_apply(s, t)),
    ensures
        unify_terminates(s, SpecTerm::Var(x), t),
        spec_unify(s, SpecTerm::Var(x), t) is None,
{
    crate::unify::lemma_spec_unify(s, SpecTerm::Var(x), t, 1);
}

/// Binding: a variable that `s` leaves unbound, unified with a different term in which, once
/// `s` is applied, it does not occur, is bound to that term with `s` applied.
pub proof fn lemma_unify_binds(s: SpecSubst, x: Seq<char>, t: SpecTerm)
    requires
        !s.dom().contains(x),
        t != SpecTerm::Var(x),
        !occurs(x, spec_apply(s, t)),
    ensures
        unify_terminates(s, SpecTerm::Var(x), t),
        spec_unify(s, SpecTerm::Var(x), t) == Some(s.insert(x, spec_apply(s, t))),
{
    crate::unify::lemma_spec_unify(s, SpecTerm::Var(x), t, 1);
}

/// Binding, with the variable on the right: a variable that `s` leaves unbound, unified from the
/// right with a term that is not a variable and in which, once `s` is applied, it does not
/// occur, is bound to that term with `s` applied.
pub proof fn lemma_unify_binds_right(s: SpecSubst, x: Seq<char>, t: SpecTerm)
    requires
        !s.dom().contains(x),
        !(t is Var),
        !occurs(x, spec_apply(s, t)),
    ensures
        unify_terminates(s, t, SpecTerm::Var(x)),
        spec_unify(s, t, SpecTerm::Var(x)) == Some(s.insert(x, spec_apply(s, t))),
{
    crate::unify::lemma_spec_unify(s, t, SpecTerm::Var(x), 1);
}

/// Occurs check, with the variable on the right: a variable that `s` leaves unbound does not
/// unify from the right with a term that is not a variable and in which, once `s` is applied,
/// it occurs.
pub proof fn lemma_unify_occurs_check_right(s: SpecSubst, x: Seq<char>, t: SpecTerm)
    requires
        !s.dom().contains(x),
        !(t is Var),
        occurs(x, spec_apply(s, t)),
    ensures
        unify_terminates(s, t, SpecTerm::Var(x)),
        spec_unify(s, t, SpecTerm::Var(x)) is None,
{
    crate::unify::lemma_spec_unify(s, t, SpecTerm::Var(x), 1);
}

/// A bound variable unifies as its binding: unifying a variable `x` that `s` binds with a term
/// `t` (other than `x` itself, on either side where `t` is not a variable) gives what unifying
/// the binding of `x` with `t`, once `s` is applied to it, gives.
pub proof fn lemma_unify_bound(s: SpecSubst, x: Seq<char>, t: SpecTerm)
    requires
        s.dom().contains(x),
        t != SpecTerm::Var(x),
        unify_terminates(s, s[x], spec_apply(s, t)),
    ensures
        unify_terminates(s, SpecTerm::Var(x), t),
        spec_unify(s, SpecTerm::Var(x), t) == spec_unify(s, s[x], spec_apply(s, t)),
        !(t is Var) ==> unify_terminates(s, t, SpecTerm::Var(x)),
        !(t is Var) ==> spec_unify(s, t, SpecTerm::Var(x)) == spec_unify(s, s[x], spec_apply(s, t)),
{
    let f = choose|fuel: nat| unify_fuel(s, s[x], spec_apply(s, t), fuel) is Some;
    crate::unify::lemma_spec_unify(s, s[x], spec_apply(s, t), f);
    crate::unify::lemma_spec_unify(s, SpecTerm::Var(x), t, f + 1);
    if !(t is Var) {
        crate::unify::lemma_spec_unify(s, t, SpecTerm::Var(x), f + 1);
    }
}

/// Compound terms with the same functor unify argument by argument, left to right: the first
/// pair is unified under `s`, and the rest under its result.
pub proof fn lemma_unify_compound_step(
    s: SpecSubst,
    f: Seq<char>,
    a1: Seq<SpecTerm>,
    a2: Seq<SpecTerm>,
)
    requires
        a1.len() == a2.len(),
        a1.len() > 0,
        unify_terminates(s, SpecTerm::Compound(f, a1), SpecTerm::Compound(f, a2)),
    ensures
        unify_terminates(s, a1[0], a2[0]),
        spec_unify(s, a1[0], a2[0]) is None ==> spec_unify(
            s,
            SpecTerm::Compound(f, a1),
            SpecTerm::Compound(f, a2),
        ) is None,
        spec_unify(s, a1[0], a2[0]) matches Some(s1) ==> unify_terminates(
            s1,
            SpecTerm::Compound(f, a1.drop_first()),
            SpecTerm::Compound(f, a2.drop_first()),
        ) && spec_unify(s, SpecTerm::Compound(f, a1), SpecTerm::Compound(f, a2)) == spec_unify(
            s1,
            SpecTerm::Compound(f, a1.drop_first()),
            SpecTerm::Compound(f, a2.drop_first()),
        ),
{
    let t1 = SpecTerm::Compound(f, a1);
    let t2 = SpecTerm::Compound(f, a2);
    let g = choose|fuel: nat| unify_fuel(s, t1, t2, fuel) is Some;
    crate::unify::lemma_spec_unify(s, t1, t2, g);
    assert(g > 0);
    let h = (g - 1) as nat;
    assert(unify_fuel(s, t1, t2, g) == unify_args_fuel(s, a1, a2, h));
    assert(unify_fuel(s, a1[0], a2[0], h) is Some);
    crate::unify::lemma_spec_unify(s, a1[0], a2[0], h);
    if let Some(s1) = spec_unify(s, a1[0], a2[0]) {
        assert(unify_fuel(s1, SpecTerm::Compound(f, a1.drop_first()), SpecTerm::Compound(
            f,
            a2.drop_first(),
        ), g) == unify_args_fuel(s1, a1.drop_first(), a2.drop_first(), h));
        crate::unify::lemma_spec_unify(
            s1,
            SpecTerm::Compound(f, a1.drop_first()),
            SpecTerm::Compound(f, a2.drop_first()),
            g,
        );
    }
}

/// Terms of different kinds, atoms of different names, and compound terms of different
/// functors or arities do not unify; equal atoms unify without new bindings.
pub proof fn lemma_unify_mismatch(s: SpecSubst, t1: SpecTerm, t2: SpecTerm)
    requires
        !(t1 is Var),
        !(t2 is Var),
    ensures
        unify_terminates(s, t1, t2) || (t1 is Compound && t2 is Compound && t1->Compound_0
            == t2->Compound_0 && t1->Compound_1.len() == t2->Compound_1.len()),
        t1 is Atom && t2 is Atom ==> spec_unify(s, t1, t2) == if t1 == t2 {
            Some(s)
        } else {
            None::<SpecSubst>
        },
        (t1 is Atom) != (t2 is Atom) ==> spec_unify(s, t1, t2) is None,
        t1 is Compound && t2 is Compound && (t1->Compound_0 != t2->Compound_0
            || t1->Compound_1.len() != t2->Compound_1.len()) ==> spec_unify(s, t1, t2) is None,
{
    if !(t1 is Compound && t2 is Compound && t1->Compound_0 == t2->Compound_0
        && t1->Compound_1.len() == t2->Compound_1.len()) {
        crate::unify::lemma_spec_unify(s, t1, t2, 1);
    }
}

proof fn lemma_unify_ground_stops(s: SpecSubst, t1: SpecTerm, t2: SpecTerm, f: nat)
    requires
        is_ground(t1),
        is_ground(t2),
        f > size(t2),
    ensures
        unify_fuel(s, t1, t2, f) is Some,
    decreases t2,
{
    if let SpecTerm::Compound(g1, a1) = t1 {
        if let SpecTerm::Compound(g2, a2) = t2 {
            if g1 == g2 && a1.len() == a2.len() {
                lemma_unify_args_ground_stops(s, a1, a2, (f - 1) as nat);
            }
        }
    }
}

proof fn lemma_unify_args_ground_stops(
    s: SpecSubst,
    a1: Seq<SpecTerm>,
    a2: Seq<SpecTerm>,
    f: nat,
)
    requires
        forall|i: int| 0 <= i < a1.len() ==> is_ground(#[trigger] a1[i]),
        forall|i: int| 0 <= i < a2.len() ==> is_ground(#[trigger] a2[i]),
        a1.len() == a2.len(),
        f > size_all(a2),
    ensures
        unify_args_fuel(s, a1, a2, f) is Some,
    decreases a2,
{
    if a1.len() > 0 {
        lemma_size_all_elem(a2, 0);
        lemma_unify_ground_stops(s, a1[0], a2[0], f);
        if let Some(Some(s1)) = unify_fuel(s, a1[0], a2[0], f) {
            let r1 = a1.subrange(1, a1.len() as int);
            let r2 = a2.subrange(1, a2.len() as int);
            assert forall|i: int| 0 <= i < r1.len() implies is_ground(#[trigger] r1[i]) by {
                assert(r1[i] == a1[i + 1]);
            }
            assert forall|i: int| 0 <= i < r2.len() implies is_ground(#[trigger] r2[i]) by {
                assert(r2[i] == a2[i + 1]);
            }
            lemma_unify_args_ground_stops(s1, r1, r2, f);
        }
    }
}

proof fn lemma_match_stops(s: SpecSubst, t1: SpecTerm, t2: SpecTerm, f: nat)
    requires
        ground_valued(s),
        is_ground(t2),
        f > size(t2) + 1,
    ensures
        unify_fuel(s, t1, t2, f) is Some,
    decreases t2,
{
    lemma_apply_ground(s, t2);
    if t1 is Var {
        let x = t1->Var_0;
        if s.dom().contains(x) {
            lemma_unify_ground_stops(s, s[x], t2, (f - 1) as nat);
        }
    } else if t1 is Compound && t2 is Compound && t1->Compound_0 == t2->Compound_0
        && t1->Compound_1.len() == t2->Compound_1.len() {
        lemma_match_args_stops(s, t1->Compound_1, t2->Compound_1, (f - 1) as nat);
    }
}

proof fn lemma_match_args_stops(s: SpecSubst, a1: Seq<SpecTerm>, a2: Seq<SpecTerm>, f: nat)
    requires
        ground_valued(s),
        forall|i: int| 0 <= i < a2.len() ==> is_ground(#[trigger] a2[i]),
        a1.len() == a2.len(),
        f > size_all(a2) + 1,
    ensures
        unify_args_fuel(s, a1, a2, f) is Some,
    decreases a2,
{
    if a1.len() > 0 {
        lemma_size_all_elem(a2, 0);
        lemma_match_stops(s, a1[0], a2[0], f);
        if let Some(Some(s1)) = unify_fuel(s, a1[0], a2[0], f) {
            lemma_match_fuel(s, a1[0], a2[0], f, s1);
            let r1 = a1.subrange(1, a1.len() as int);
            let r2 = a2.subrange(1, a2.len() as int);
            assert forall|i: int| 0 <= i < r2.len() implies is_ground(#[trigger] r2[i]) by {
                assert(r2[i] == a2[i + 1]);
            }
            lemma_match_args_stops(s1, r1, r2, f);
        }
    }
}

/// Matching stops: unification of any term with a ground term, under a substitution whose
/// bindings are ground, always stops.
pub proof fn lemma_unify_match_stops(s: SpecSubst, t1: SpecTerm, t2: SpecTerm)
    requires
        ground_valued(s),
        is_ground(t2),
    ensures
        unify_terminates(s, t1, t2),
{
    lemma_match_stops(s, t1, t2, size(t2) + 2);
}

proof fn lemma_match_complete_fuel(
    s: SpecSubst,
    t1: SpecTerm,
    t2: SpecTerm,
    m: SpecSubst,
    f: nat,
)
    requires
        ground_valued(s),
        is_ground(t2),
        included(s, m),
        spec_apply(m, t1) == t2,
        unify_fuel(s, t1, t2, f) is Some,
    ensures
        unify_fuel(s, t1, t2, f) matches Some(Some(r)) && included(r, m),
    decreases f, 0nat,
{
    lemma_apply_ground(s, t2);
    if t1 is Var {
        let x = t1->Var_0;
        if s.dom().contains(x) {
            let g = s[x];
            assert(m[x] == g);
            lemma_unify_refl_fuel(s, g, f + size(g) + 1);
            lemma_unify_fuel_mono(s, g, t2, (f - 1) as nat, f + size(g) + 1);
        } else {
            assert(m.dom().contains(x));
            lemma_ground_no_occurs(t2, x);
            let r = s.insert(x, t2);
            assert(included(r, m));
        }
    } else if t1 is Atom {
    } else {
        let a1 = t1->Compound_1;
        let a2 = t2->Compound_1;
        assert(t2 == SpecTerm::Compound(t1->Compound_0, spec_apply_all(m, a1)));
        assert forall|i: int| 0 <= i < a2.len() implies is_ground(#[trigger] a2[i]) by {
            lemma_ground_arg(t2, i);
        }
        lemma_match_args_complete_fuel(s, a1, a2, m, (f - 1) as nat);
    }
}

proof fn lemma_match_args_complete_fuel(
    s: SpecSubst,
    a1: Seq<SpecTerm>,
    a2: Seq<SpecTerm>,
    m: SpecSubst,
    f: nat,
)
    requires
        ground_valued(s),
        forall|i: int| 0 <= i < a2.len() ==> is_ground(#[trigger] a2[i]),
        a1.len() == a2.len(),
        included(s, m),
        forall|i: int| 0 <= i < a1.len() ==> spec_apply(m, #[trigger] a1[i]) == a2[i],
        unify_args_fuel(s, a1, a2, f) is Some,
    ensures
        unify_args_fuel(s, a1, a2, f) matches Some(Some(r)) && included(r, m),
    decreases f, a1.len() + 1,
{
    if a1.len() > 0 {
        lemma_match_complete_fuel(s, a1[0], a2[0], m, f);
        let s1 = unify_fuel(s, a1[0], a2[0], f).unwrap().unwrap();
        lemma_match_fuel(s, a1[0], a2[0], f, s1);
        let r1 = a1.subrange(1, a1.len() as int);
        let r2 = a2.subrange(1, a2.len() as int);
        assert forall|i: int| 0 <= i < r2.len() implies is_ground(#[trigger] r2[i]) by {
            assert(r2[i] == a2[i + 1]);
        }
        assert forall|i: int| 0 <= i < r1.len() implies spec_apply(m, #[trigger] r1[i]) == r2[i] by {
            assert(r1[i] == a1[i + 1]);
            assert(r2[i] == a2[i + 1]);
        }
        lemma_match_args_complete_fuel(s1, r1, r2, m, f);
    }
}

/// Most general matcher: where some extension `m` of `s` turns `t1` into the ground term `t2`,
/// and the bindings of `s` are ground, unification succeeds, and every binding it makes is one
/// of `m`.
pub proof fn lemma_unify_match_complete(s: SpecSubst, t1: SpecTerm, t2: SpecTerm, m: SpecSubst)
    requires
        ground_valued(s),
        is_ground(t2),
        included(s, m),
        spec_apply(m, t1) == t2,
    ensures
        unify_terminates(s, t1, t2),
        spec_unify(s, t1, t2) matches Some(r) && included(r, m),
{
    lemma_unify_match_stops(s, t1, t2);
    let f = choose|fuel: nat| unify_fuel(s, t1, t2, fuel) is Some;
    lemma_match_complete_fuel(s, t1, t2, m, f);
}

/// A program made of facts whose heads are ground.
pub open spec fn ground_facts(prog: Seq<SpecClause>) -> bool {
    forall|i: int|
        0 <= i < prog.len() ==> (#[trigger] prog[i]).body.len() == 0 && is_ground(prog[i].head)
}

/// The largest number of nodes of a clause head of `prog`.
pub open spec fn max_head_size(prog: Seq<SpecClause>) -> nat
    decreases prog.len(),
{
    if prog.len() == 0 {
        0
    } else {
        let rest = max_head_size(prog.drop_last());
        let here = size(prog.last().head);
        if here > rest {
            here
        } else {
            rest
        }
    }
}

proof fn lemma_max_head_size(prog: Seq<SpecClause>, i: int)
    requires
        0 <= i < prog.len(),
    ensures
        size(prog[i].head) <= max_head_size(prog),
    decreases prog.len(),
{
    if i < prog.len() - 1 {
        lemma_max_head_size(prog.drop_last(), i);
        assert(prog.drop_last()[i] == prog[i]);
    }
}

proof fn lemma_facts_sld_fuel(
    goals: Seq<SpecTerm>,
    prog: Seq<SpecClause>,
    s: SpecSubst,
    suffix: nat,
    f: nat,
)
    requires
        ground_facts(prog),
        ground_valued(s),
        f > goals.len() + max_head_size(prog) + 1,
    ensures
        sld_fuel(goals, prog, s, suffix, f) is Some,
    decreases goals.len(), prog.len() + 1,
{
    if goals.len() > 0 {
        lemma_facts_sld_branches(goals, prog, s, suffix, f, 0);
    }
}

proof fn lemma_facts_sld_branches(
    goals: Seq<SpecTerm>,
    prog: Seq<SpecClause>,
    s: SpecSubst,
    suffix: nat,
    f: nat,
    i: int,
)
    requires
        ground_facts(prog),
        ground_valued(s),
        goals.len() > 0,
        0 <= i,
        f > goals.len() + max_head_size(prog) + 1,
    ensures
        sld_branches(goals, prog, s, suffix, f, i) is Some,
    decreases goals.len(), prog.len() - i,
{
    if i < prog.len() {
        let c0 = prog[i];
        assert(c0.body.len() == 0 && is_ground(c0.head));
        lemma_max_head_size(prog, i);
        lemma_rename_ground(c0.head, suffix);
        assert(spec_rename_all(c0.body, suffix) =~= Seq::<SpecTerm>::empty());
        let c = spec_rename_clause(c0, suffix);
        assert(c.head == c0.head);
        lemma_match_stops(s, goals[0], c.head, f);
        if let Some(Some(mgu)) = unify_fuel(s, goals[0], c.head, f) {
            lemma_match_fuel(s, goals[0], c.head, f, mgu);
            let next = spec_compose(mgu, mgu);
            assert forall|k: Seq<char>| #[trigger] next.dom().contains(k) implies is_ground(
                next[k],
            ) by {
                lemma_apply_ground(mgu, mgu[k]);
            }
            let ng = c.body + spec_apply_all(mgu, goals.drop_first());
            assert(ng.len() == goals.len() - 1);
            lemma_facts_sld_fuel(ng, prog, next, suffix + 1, (f - 1) as nat);
        }
        lemma_facts_sld_branches(goals, prog, s, suffix, f, i + 1);
    }
}

/// Resolution against a program of ground facts, from a substitution whose bindings are
/// ground, always stops (within the depth that keeps suffixes within `usize`).
pub proof fn lemma_resolve_facts_stops(
    goals: Seq<SpecTerm>,
    prog: Seq<SpecClause>,
    s: SpecSubst,
    suffix: nat,
)
    requires
        ground_facts(prog),
        ground_valued(s),
        suffix + goals.len() + max_head_size(prog) + 2 <= usize::MAX,
    ensures
        sld_terminates(goals, prog, s, suffix),
{
    let f = goals.len() + max_head_size(prog) + 2;
    lemma_facts_sld_fuel(goals, prog, s, suffix, f);
}

/// A substitution whose bindings are ground, composed with itself, is itself.
proof fn lemma_compose_self_ground(m: SpecSubst)
    requires
        ground_valued(m),
    ensures
        spec_compose(m, m) == m,
{
    assert forall|k: Seq<char>| #[trigger] m.dom().contains(k) implies spec_compose(m, m)[k]
        == m[k] by {
        lemma_apply_ground(m, m[k]);
    }
    assert(spec_compose(m, m) =~= m);
}

/// Applying `m`, whose bindings are ground, and then an extension `r` of it, is applying `r`.
proof fn lemma_apply_after_ground(m: SpecSubst, r: SpecSubst, t: SpecTerm)
    requires
        ground_valued(m),
        included(m, r),
    ensures
        spec_apply(r, spec_apply(m, t)) == spec_apply(r, t),
    decreases t,
{
    match t {
        SpecTerm::Var(x) => {
            if m.dom().contains(x) {
                lemma_apply_ground(r, m[x]);
            }
        },
        SpecTerm::Atom(_) => {},
        SpecTerm::Compound(f, ts) => {
            assert forall|i: int| 0 <= i < ts.len() implies spec_apply(
                r,
                #[trigger] spec_apply_all(m, ts)[i],
            ) == spec_apply(r, ts[i]) by {
                lemma_apply_after_ground(m, r, ts[i]);
            }
            assert(spec_apply_all(r, spec_apply_all(m, ts)) =~= spec_apply_all(r, ts));
        },
    }
}

/// Every answer is ground-valued, extends `s`, and turns each goal into a head of the program.
pub open spec fn answers_facts(
    goals: Seq<SpecTerm>,
    prog: Seq<SpecClause>,
    s: SpecSubst,
    rs: Seq<SpecSubst>,
) -> bool {
    forall|j: int|
        0 <= j < rs.len() ==> {
            &&& ground_valued(#[trigger] rs[j])
            &&& included(s, rs[j])
            &&& forall|k: int|
                0 <= k < goals.len() ==> exists|i: int|
                    0 <= i < prog.len() && spec_apply(rs[j], #[trigger] goals[k]) == prog[i].head
        }
}

proof fn lemma_facts_sound_fuel(
    goals: Seq<SpecTerm>,
    prog: Seq<SpecClause>,
    s: SpecSubst,
    suffix: nat,
    f: nat,
)
    requires
        ground_facts(prog),
        ground_valued(s),
        sld_fuel(goals, prog, s, suffix, f) is Some,
    ensures
        answers_facts(goals, prog, s, sld_fuel(goals, prog, s, suffix, f).unwrap()),
    decreases f, prog.len() + 1,
{
    if goals.len() > 0 {
        lemma_facts_sound_branches(goals, prog, s, suffix, f, 0);
    }
}

proof fn lemma_facts_sound_branches(
    goals: Seq<SpecTerm>,
    prog: Seq<SpecClause>,
    s: SpecSubst,
    suffix: nat,
    f: nat,
    i: int,
)
    requires
        ground_facts(prog),
        ground_valued(s),
        goals.len() > 0,
        f > 0,
        0 <= i,
        sld_branches(goals, prog, s, suffix, f, i) is Some,
    ensures
        answers_facts(goals, prog, s, sld_branches(goals, prog, s, suffix, f, i).unwrap()),
    decreases f, prog.len() - i,
{
    if i < prog.len() {
        let c0 = prog[i];
        assert(c0.body.len() == 0 && is_ground(c0.head));
        lemma_rename_ground(c0.head, suffix);
        assert(spec_rename_all(c0.body, suffix) =~= Seq::<SpecTerm>::empty());
        let c = spec_rename_clause(c0, suffix);
        assert(c.head == c0.head);
        let rest = sld_branches(goals, prog, s, suffix, f, i + 1).unwrap();
        lemma_facts_sound_branches(goals, prog, s, suffix, f, i + 1);
        let all = sld_branches(goals, prog, s, suffix, f, i).unwrap();
        match unify_fuel(s, goals[0], c.head, f) {
            Some(Some(mgu)) => {
                lemma_match_fuel(s, goals[0], c.head, f, mgu);
                lemma_compose_self_ground(mgu);
                let ng = c.body + spec_apply_all(mgu, goals.drop_first());
                let here = sld_fuel(ng, prog, mgu, suffix + 1, (f - 1) as nat).unwrap();
                lemma_facts_sound_fuel(ng, prog, mgu, suffix + 1, (f - 1) as nat);
                assert(all == here + rest);
                assert forall|j: int| 0 <= j < all.len() implies {
                    &&& ground_valued(#[trigger] all[j])
                    &&& included(s, all[j])
                    &&& forall|k: int|
                        0 <= k < goals.len() ==> exists|i2: int|
                            0 <= i2 < prog.len() && spec_apply(all[j], #[trigger] goals[k])
                                == prog[i2].head
                } by {
                    if j < here.len() {
                        let r = here[j];
                        assert(all[j] == r);
                        assert(ground_valued(r) && included(mgu, r));
                        assert forall|k: int| 0 <= k < goals.len() implies exists|i2: int|
                            0 <= i2 < prog.len() && spec_apply(r, #[trigger] goals[k])
                                == prog[i2].head by {
                            if k == 0 {
                                lemma_apply_extension(mgu, r, goals[0]);
                                assert(spec_apply(r, goals[0]) == prog[i].head);
                            } else {
                                assert(ng[k - 1] == spec_apply(mgu, goals[k]));
                                lemma_apply_after_ground(mgu, r, goals[k]);
                                let i2 = choose|i2: int|
                                    0 <= i2 < prog.len() && spec_apply(r, #[trigger] ng[k - 1])
                                        == prog[i2].head;
                                assert(spec_apply(r, goals[k]) == prog[i2].head);
                            }
                        }
                    } else {
                        assert(all[j] == rest[j - here.len()]);
                    }
                }
            },
            _ => {
                assert(all =~= rest);
            },
        }
    }
}

/// Resolution against a program of ground facts is sound: from a substitution whose bindings are
/// ground, every answer has ground bindings, keeps every binding of the given substitution, and
/// turns each goal into one of the facts of the program.
pub proof fn lemma_resolve_facts_sound(
    goals: Seq<SpecTerm>,
    prog: Seq<SpecClause>,
    s: SpecSubst,
    suffix: nat,
)
    requires
        ground_facts(prog),
        ground_valued(s),
        sld_terminates(goals, prog, s, suffix),
    ensures
        answers_facts(goals, prog, s, sld_answers(goals, prog, s, suffix)),
{
    let d = sld_depth(goals, prog, s, suffix);
    lemma_facts_sound_fuel(goals, prog, s, suffix, d);
}

/// `m` turns each goal into one of the facts of the program.
pub open spec fn solves_facts(goals: Seq<SpecTerm>, prog: Seq<SpecClause>, m: SpecSubst) -> bool {
    forall|k: int|
        0 <= k < goals.len() ==> exists|i: int|
            0 <= i < prog.len() && spec_apply(m, #[trigger] goals[k]) == prog[i].head
}

proof fn lemma_facts_complete_fuel(
    goals: Seq<SpecTerm>,
    prog: Seq<SpecClause>,
    s: SpecSubst,
    suffix: nat,
    f: nat,
    m: SpecSubst,
)
    requires
        ground_facts(prog),
        ground_valued(s),
        included(s, m),
        solves_facts(goals, prog, m),
        sld_fuel(goals, prog, s, suffix, f) is Some,
    ensures
        exists|j: int|
            0 <= j < sld_fuel(goals, prog, s, suffix, f).unwrap().len() && included(
                #[trigger] sld_fuel(goals, prog, s, suffix, f).unwrap()[j],
                m,
            ),
    decreases f, prog.len() + 1,
{
    if goals.len() == 0 {
        assert(sld_fuel(goals, prog, s, suffix, f).unwrap()[0] == s);
    } else {
        let i0 = choose|i: int|
            0 <= i < prog.len() && spec_apply(m, #[trigger] goals[0]) == prog[i].head;
        assert(spec_apply(m, goals[0]) == prog[i0].head);
        lemma_facts_complete_branches(goals, prog, s, suffix, f, m, i0, 0);
    }
}

proof fn lemma_facts_complete_branches(
    goals: Seq<SpecTerm>,
    prog: Seq<SpecClause>,
    s: SpecSubst,
    suffix: nat,
    f: nat,
    m: SpecSubst,
    i0: int,
    i: int,
)
    requires
        ground_facts(prog),
        ground_valued(s),
        included(s, m),
        solves_facts(goals, prog, m),
        goals.len() > 0,
        f > 0,
        0 <= i <= i0 < prog.len(),
        spec_apply(m, goals[0]) == prog[i0].head,
        sld_branches(goals, prog, s, suffix, f, i) is Some,
    ensures
        exists|j: int|
            0 <= j < sld_branches(goals, prog, s, suffix, f, i).unwrap().len() && included(
                #[trigger] sld_branches(goals, prog, s, suffix, f, i).unwrap()[j],
                m,
            ),
    decreases f, prog.len() - i,
{
    let c0 = prog[i];
    assert(c0.body.len() == 0 && is_ground(c0.head));
    lemma_rename_ground(c0.head, suffix);
    assert(spec_rename_all(c0.body, suffix) =~= Seq::<SpecTerm>::empty());
    let c = spec_rename_clause(c0, suffix);
    assert(c.head == c0.head);
    let all = sld_branches(goals, prog, s, suffix, f, i).unwrap();
    if i == i0 {
        lemma_match_complete_fuel(s, goals[0], c.head, m, f);
        let mgu = unify_fuel(s, goals[0], c.head, f).unwrap().unwrap();
        lemma_match_fuel(s, goals[0], c.head, f, mgu);
        lemma_compose_self_ground(mgu);
        let ng = c.body + spec_apply_all(mgu, goals.drop_first());
        assert forall|k: int| 0 <= k < ng.len() implies exists|i2: int|
            0 <= i2 < prog.len() && spec_apply(m, #[trigger] ng[k]) == prog[i2].head by {
            assert(ng[k] == spec_apply(mgu, goals[k + 1]));
            lemma_apply_after_ground(mgu, m, goals[k + 1]);
            let i2 = choose|i2: int|
                0 <= i2 < prog.len() && spec_apply(m, #[trigger] goals[k + 1]) == prog[i2].head;
            assert(spec_apply(m, ng[k]) == prog[i2].head);
        }
        lemma_facts_complete_fuel(ng, prog, mgu, suffix + 1, (f - 1) as nat, m);
        let here = sld_fuel(ng, prog, mgu, suffix + 1, (f - 1) as nat).unwrap();
        let j = choose|j: int| 0 <= j < here.len() && included(#[trigger] here[j], m);
        assert(all[j] == here[j]);
    } else {
        lemma_facts_complete_branches(goals, prog, s, suffix, f, m, i0, i + 1);
        let rest = sld_branches(goals, prog, s, suffix, f, i + 1).unwrap();
        let j = choose|j: int| 0 <= j < rest.len() && included(#[trigger] rest[j], m);
        match unify_fuel(s, goals[0], c.head, f) {
            Some(Some(mgu)) => {
                let here = sld_fuel(
                    c.body + spec_apply_all(mgu, goals.drop_first()),
                    prog,
                    spec_compose(mgu, mgu),
                    suffix + 1,
                    (f - 1) as nat,
                ).unwrap();
                assert(all[here.len() + j] == rest[j]);
            },
            _ => {
                assert(all =~= rest);
            },
        }
    }
}

/// Resolution against a program of ground facts is complete: from a substitution whose bindings
/// are ground, where some extension `m` of it turns each goal into a fact of the program, some
/// answer makes only bindings of `m`.
pub proof fn lemma_resolve_facts_complete(
    goals: Seq<SpecTerm>,
    prog: Seq<SpecClause>,
    s: SpecSubst,
    suffix: nat,
    m: SpecSubst,
)
    requires
        ground_facts(prog),
        ground_valued(s),
        included(s, m),
        solves_facts(goals, prog, m),
        sld_terminates(goals, prog, s, suffix),
    ensures
        exists|j: int|
            0 <= j < sld_answers(goals, prog, s, suffix).len() && included(
                #[trigger] sld_answers(goals, prog, s, suffix)[j],
                m,
            ),
{
    let d = sld_depth(goals, prog, s, suffix);
    lemma_facts_complete_fuel(goals, prog, s, suffix, d, m);
    let rs = sld_fuel(goals, prog, s, suffix, d).unwrap();
    assert(rs == sld_answers(goals, prog, s, suffix));
    let j = choose|j: int| 0 <= j < rs.len() && included(#[trigger] rs[j], m);
    assert(included(sld_answers(goals, prog, s, suffix)[j], m));
}

pub(crate) proof fn lemma_unify_keeps_bindings_fuel(s: SpecSubst, t1: SpecTerm, t2: SpecTerm, f: nat)
    requires
        unify_fuel(s, t1, t2, f) is Some,
    ensures
        unify_fuel(s, t1, t2, f) matches Some(Some(r)) ==> included(s, r),
    decreases f, 0nat,
{
    if t1 is Var && t2 is Var && t1->Var_0 == t2->Var_0 {
    } else if t1 is Var || t2 is Var {
        let v = if t1 is Var {
            t1
        } else {
            t2
        };
        let other = if t1 is Var {
            t2
        } else {
            t1
        };
        let name = v->Var_0;
        if s.dom().contains(name) {
            lemma_unify_keeps_bindings_fuel(s, s[name], spec_apply(s, other), (f - 1) as nat);
        }
    } else if t1 is Compound && t2 is Compound && t1->Compound_0 == t2->Compound_0
        && t1->Compound_1.len() == t2->Compound_1.len() {
        lemma_unify_args_keeps_bindings_fuel(s, t1->Compound_1, t2->Compound_1, (f - 1) as nat);
    }
}

pub(crate) proof fn lemma_unify_args_keeps_bindings_fuel(
    s: SpecSubst,
    a1: Seq<SpecTerm>,
    a2: Seq<SpecTerm>,
    f: nat,
)
    requires
        unify_args_fuel(s, a1, a2, f) is Some,
    ensures
        unify_args_fuel(s, a1, a2, f) matches Some(Some(r)) ==> included(s, r),
    decreases f, a1.len() + 1,
{
    if a1.len() > 0 && a2.len() > 0 {
        lemma_unify_keeps_bindings_fuel(s, a1[0], a2[0], f);
        if let Some(Some(s1)) = unify_fuel(s, a1[0], a2[0], f) {
            lemma_unify_args_keeps_bindings_fuel(s1, a1.drop_first(), a2.drop_first(), f);
        }
    }
}

/// Unification within any depth bound keeps the given bindings: where it reaches a result `r`,
/// every binding of `s` is a binding of `r`.
pub proof fn lemma_unify_within_keeps_bindings(s: SpecSubst, t1: SpecTerm, t2: SpecTerm, f: nat)
    ensures
        unify_fuel(s, t1, t2, f) matches Some(Some(r)) ==> included(s, r),
{
    if unify_fuel(s, t1, t2, f) is Some {
        lemma_unify_keeps_bindings_fuel(s, t1, t2, f);
    }
}

/// Unification keeps the given bindings: every binding of `s` is a binding of the result,
/// which only adds bindings for names that `s` leaves unbound.
pub proof fn lemma_unify_keeps_bindings(s: SpecSubst, t1: SpecTerm, t2: SpecTerm)
    requires
        unify_terminates(s, t1, t2),
    ensures
        spec_unify(s, t1, t2) matches Some(r) ==> included(s, r),
{
    let f = choose|fuel: nat| unify_fuel(s, t1, t2, fuel) is Some;
    lemma_unify_keeps_bindings_fuel(s, t1, t2, f);
}

} // verus!
