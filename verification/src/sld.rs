//! Renaming of clause variables and SLD resolution.
use vstd::prelude::*;

use crate::ast::{
    clause_view, clauses_view, clone_terms, term_view, terms_view, Clause, Program, SpecClause,
    SpecTerm, Term,
};
use crate::subst::{SpecSubst, Substitutions};
use crate::text::{decimal, push_decimal};
use crate::laws::lemma_sld_fuel_mono;
use crate::unify::{apply_ref, compose, spec_apply_all, spec_compose, unify_fuel, unify_within};

verus! {

/// The name that renaming with suffix `n` gives to the variable named `x`: `x_n`.
pub open spec fn renamed(x: Seq<char>, n: nat) -> Seq<char> {
    x + seq!['_'] + decimal(n)
}

/// Renames every variable of `t` with suffix `n`.
pub open spec fn spec_rename(t: SpecTerm, n: nat) -> SpecTerm
    decreases t,
{
    match t {
        SpecTerm::Atom(_) => t,
        SpecTerm::Var(x) => SpecTerm::Var(renamed(x, n)),
        SpecTerm::Compound(f, ts) => SpecTerm::Compound(f, spec_rename_all(ts, n)),
    }
}

/// [`spec_rename`] on every term of a list.
pub open spec fn spec_rename_all(ts: Seq<SpecTerm>, n: nat) -> Seq<SpecTerm>
    decreases ts,
{
    Seq::new(
        ts.len(),
        |i: int|
            if 0 <= i < ts.len() {
                spec_rename(ts[i], n)
            } else {
                SpecTerm::Atom(Seq::empty())
            },
    )
}

/// Renames every variable of a clause with suffix `n`.
pub open spec fn spec_rename_clause(c: SpecClause, n: nat) -> SpecClause {
    SpecClause { head: spec_rename(c.head, n), body: spec_rename_all(c.body, n) }
}

/// The answers of SLD resolution of `goals` against `prog` from `s`, with clauses renamed with
/// suffix `suffix` at the first step, `suffix + 1` at the next, and so on; at most `fuel` steps
/// deep, `None` where that is not enough.
///
/// 1. With no goal left, the one answer is `s`.
/// 2. Otherwise, for each clause in program order whose renamed head unifies with the first goal,
///    with most general unifier `mgu`: the remaining goals with `mgu` applied, preceded by the
///    clause's body, are resolved from `mgu` composed with itself.
/// 3. The answers of all the clauses, in program order.
pub open spec fn sld_fuel(
    goals: Seq<SpecTerm>,
    prog: Seq<SpecClause>,
    s: SpecSubst,
    suffix: nat,
    fuel: nat,
) -> Option<Seq<SpecSubst>>
    decreases fuel, prog.len() + 1,
{
    if goals.len() == 0 {
        Some(seq![s])
    } else if fuel == 0 {
        None
    } else {
        sld_branches(goals, prog, s, suffix, fuel, 0)
    }
}

/// The answers contributed by the clauses of `prog` from index `i` on.
pub open spec fn sld_branches(
    goals: Seq<SpecTerm>,
    prog: Seq<SpecClause>,
    s: SpecSubst,
    suffix: nat,
    fuel: nat,
    i: int,
) -> Option<Seq<SpecSubst>>
    decreases fuel, prog.len() - i,
{
    if i < 0 || i >= prog.len() || fuel == 0 {
        Some(seq![])
    } else {
        let c = spec_rename_clause(prog[i], suffix);
        let here = match unify_fuel(s, goals[0], c.head, fuel) {
            None => None,
            Some(None) => Some(seq![]),
            Some(Some(mgu)) => sld_fuel(
                c.body + spec_apply_all(mgu, goals.drop_first()),
                prog,
                spec_compose(mgu, mgu),
                suffix + 1,
                (fuel - 1) as nat,
            ),
        };
        match here {
            None => None,
            Some(r) => match sld_branches(goals, prog, s, suffix, fuel, i + 1) {
                None => None,
                Some(rs) => Some(r + rs),
            },
        }
    }
}

/// Resolution stops, within a depth that keeps every suffix within `usize`.
pub open spec fn sld_terminates(
    goals: Seq<SpecTerm>,
    prog: Seq<SpecClause>,
    s: SpecSubst,
    suffix: nat,
) -> bool {
    exists|fuel: nat| sld_fuel(goals, prog, s, suffix, fuel) is Some && suffix + fuel <= usize::MAX
}

/// A depth within which resolution stops.
pub open spec fn sld_depth(
    goals: Seq<SpecTerm>,
    prog: Seq<SpecClause>,
    s: SpecSubst,
    suffix: nat,
) -> nat {
    choose|fuel: nat| sld_fuel(goals, prog, s, suffix, fuel) is Some && suffix + fuel <= usize::MAX
}

/// The answers of resolution, where it stops.
pub open spec fn sld_answers(
    goals: Seq<SpecTerm>,
    prog: Seq<SpecClause>,
    s: SpecSubst,
    suffix: nat,
) -> Seq<SpecSubst> {
    sld_fuel(goals, prog, s, suffix, sld_depth(goals, prog, s, suffix)).unwrap()
}

pub open spec fn substs_view(rs: Seq<Substitutions>) -> Seq<SpecSubst> {
    rs.map_values(|x: Substitutions| x@)
}

/// Appends the suffix "_n", where `n` is `suffix`, to the name of every variable of `term`.
pub fn rename_vars_in_term(term: &Term, suffix: usize) -> (r: Term)
    ensures
        r@ == spec_rename(term@, suffix as nat),
    decreases term,
{
    match term {
        Term::Var(name) => {
            let mut s = name.clone();
            proof {
                reveal_strlit("_");
            }
            s.append("_");
            push_decimal(&mut s, suffix);
            proof {
                assert(s@ =~= renamed(name@, suffix as nat));
            }
            Term::Var(s)
        },
        Term::Compound(functor, terms) => {
            proof {
                assert(decreases_to!(*term => (*term)->Compound_1));
            }
            let out = rename_all(terms, suffix);
            Term::Compound(functor.clone(), out)
        },
        Term::Atom(a) => Term::Atom(a.clone()),
    }
}

/// [`rename_vars_in_term`] on every term of a list.
pub fn rename_all(ts: &Vec<Term>, suffix: usize) -> (r: Vec<Term>)
    ensures
        terms_view(r@) == spec_rename_all(terms_view(ts@), suffix as nat),
    decreases ts,
{
    let mut out: Vec<Term> = Vec::new();
    let mut i: usize = 0;
    while i < ts.len()
        invariant
            i <= ts.len(),
            out@.len() == i,
            forall|j: int|
                0 <= j < i ==> term_view(#[trigger] out@[j]) == spec_rename(
                    term_view(ts@[j]),
                    suffix as nat,
                ),
        decreases ts.len() - i,
    {
        proof {
            assert(decreases_to!(*ts => ts[i as int]));
        }
        let c = rename_vars_in_term(&ts[i], suffix);
        out.push(c);
        i = i + 1;
    }
    assert(terms_view(out@) =~= spec_rename_all(terms_view(ts@), suffix as nat));
    out
}

/// Renames every variable of `clause` with [`rename_vars_in_term`].
pub fn rename_vars(clause: &Clause, suffix: usize) -> (r: Clause)
    ensures
        r@ == spec_rename_clause(clause@, suffix as nat),
{
    let head = rename_vars_in_term(&clause.head, suffix);
    if clause.body.len() == 0 {
        let r = Clause::fact(head);
        proof {
            assert(spec_rename_all(terms_view(clause.body@), suffix as nat) =~= Seq::empty());
        }
        r
    } else {
        let body = rename_all(&clause.body, suffix);
        Clause::rule(head, body)
    }
}

/// Resolves `goals` against `program` from `substitutions` by SLD resolution, renaming clause
/// variables with suffix 0 at the first step, 1 at the next, and so on.
///
/// Resolution does not stop on every program (for instance on `p :- p.` with goal `p`); it is
/// called where it stops.
pub fn resolve(goals: &[Term], program: Program, substitutions: Substitutions) -> (r: Vec<
    Substitutions,
>)
    requires
        sld_terminates(terms_view(goals@), clauses_view(program@), substitutions@, 0),
    ensures
        substs_view(r@) == sld_answers(
            terms_view(goals@),
            clauses_view(program@),
            substitutions@,
            0,
        ),
{
    resolve_with_suffix(goals, program, substitutions, 0)
}

/// Resolves some goals using SLD Resolution.
///
/// 1. If `goals` is empty yield the current substitutions.
/// 2. Otherwise, take the first goal. For each clause in the program whose head unifies with the
///    goal (after renaming the clause's variables with `suffix`):
///    a. Compute the MGU
///    b. Apply it to the remaining goals
///    c. Prepend the clause's body to the remaining goals.
///    d. Recurse with the new goals, the MGU composed with itself and `suffix + 1`.
/// 3. Collect all successful substitutions into a vector and return it.
pub fn resolve_with_suffix(
    goals: &[Term],
    program: Program,
    substitutions: Substitutions,
    suffix: usize,
) -> (r: Vec<Substitutions>)
    requires
        sld_terminates(terms_view(goals@), clauses_view(program@), substitutions@, suffix as nat),
    ensures
        substs_view(r@) == sld_answers(
            terms_view(goals@),
            clauses_view(program@),
            substitutions@,
            suffix as nat,
        ),
{
    let ghost g = terms_view(goals@);
    let ghost p = clauses_view(program@);
    let ghost d = sld_depth(g, p, substitutions@, suffix as nat);
    let fuel: usize = usize::MAX - suffix;
    proof {
        lemma_sld_fuel_mono(g, p, substitutions@, suffix as nat, d, fuel as nat);
    }
    match resolve_within_go(goals, &program, substitutions, suffix, fuel) {
        Some(r) => r,
        None => {
            proof {
                assert(false);
            }
            Vec::new()
        },
    }
}

/// `Some` of the answers' views where the depth sufficed, `None` where it did not.
pub open spec fn fueled_answers(o: Option<Vec<Substitutions>>) -> Option<Seq<SpecSubst>> {
    match o {
        Some(r) => Some(substs_view(r@)),
        None => None,
    }
}

/// Resolution of `goals` against `program` from `substitutions`, at most `depth` steps deep:
/// `None` where that is not enough, else `Some` of what [`resolve`] gives.
pub fn resolve_within(goals: &[Term], program: Program, substitutions: Substitutions, depth: usize)
    -> (r: Option<Vec<Substitutions>>)
    ensures
        fueled_answers(r) == sld_fuel(
            terms_view(goals@),
            clauses_view(program@),
            substitutions@,
            0,
            depth as nat,
        ),
{
    resolve_within_go(goals, &program, substitutions, 0, depth)
}

/// Resolution at most `fuel` steps deep, renaming with `suffix` at the first step.
fn resolve_within_go(
    goals: &[Term],
    program: &Program,
    s: Substitutions,
    suffix: usize,
    fuel: usize,
) -> (r: Option<Vec<Substitutions>>)
    requires
        suffix + fuel <= usize::MAX,
    ensures
        fueled_answers(r) == sld_fuel(
            terms_view(goals@),
            clauses_view(program@),
            s@,
            suffix as nat,
            fuel as nat,
        ),
    decreases fuel,
{
    let ghost g = terms_view(goals@);
    let ghost p = clauses_view(program@);
    let ghost fl = fuel as nat;
    if goals.len() == 0 {
        let r = vec![s];
        proof {
            assert(substs_view(r@) =~= seq![r@[0]@]);
        }
        return Some(r);
    }
    if fuel == 0 {
        return None;
    }
    let mut results: Vec<Substitutions> = Vec::new();
    let mut i: usize = 0;
    proof {
        assert(substs_view(results@) =~= Seq::empty());
        if let Some(b) = sld_branches(g, p, s@, suffix as nat, fl, 0) {
            assert(Seq::<SpecSubst>::empty() + b =~= b);
        }
    }
    while i < program.len()
        invariant
            i <= program@.len(),
            g == terms_view(goals@),
            p == clauses_view(program@),
            fl == fuel as nat,
            g.len() > 0,
            fuel > 0,
            suffix + fuel <= usize::MAX,
            sld_fuel(g, p, s@, suffix as nat, fl) == sld_branches(g, p, s@, suffix as nat, fl, 0),
            sld_branches(g, p, s@, suffix as nat, fl, 0) == match sld_branches(
                g,
                p,
                s@,
                suffix as nat,
                fl,
                i as int,
            ) {
                Some(rest) => Some(substs_view(results@) + rest),
                None => None::<Seq<SpecSubst>>,
            },
        decreases program.len() - i,
    {
        let ghost rest_i = sld_branches(g, p, s@, suffix as nat, fl, i as int);
        let ghost rest_next = sld_branches(g, p, s@, suffix as nat, fl, i + 1);
        let clause = rename_vars(&program[i], suffix);
        proof {
            assert(p[i as int] == clause_view(program@[i as int]));
            assert(g[0] == term_view(goals@[0]));
        }
        let ghost c = spec_rename_clause(p[i as int], suffix as nat);
        match unify_within(s.clone(), &goals[0], &clause.head, fuel) {
            None => {
                return None;
            },
            Some(None) => {
                proof {
                    if let Some(rn) = rest_next {
                        assert(substs_view(results@) + rn =~= substs_view(results@) + (seq![]
                            + rn));
                    }
                }
            },
            Some(Some(mgu)) => {
                let mut new_goals: Vec<Term> = clone_terms(&clause.body);
                let mut j: usize = 1;
                while j < goals.len()
                    invariant
                        1 <= j <= goals@.len(),
                        terms_view(new_goals@) == c.body + spec_apply_all(
                            mgu@,
                            terms_view(goals@).drop_first(),
                        ).take(j - 1),
                    decreases goals.len() - j,
                {
                    let t = apply_ref(&mgu, &goals[j]);
                    let ghost before = new_goals@;
                    new_goals.push(t);
                    proof {
                        assert(terms_view(goals@).drop_first()[j - 1] == term_view(goals@[j as int]));
                        assert(terms_view(new_goals@) =~= terms_view(before).push(term_view(t)));
                        assert(spec_apply_all(mgu@, terms_view(goals@).drop_first())[j - 1]
                            == crate::unify::spec_apply(mgu@, term_view(goals@[j as int])));
                        assert(terms_view(new_goals@) =~= c.body + spec_apply_all(
                            mgu@,
                            terms_view(goals@).drop_first(),
                        ).take(j as int));
                    }
                    j = j + 1;
                }
                proof {
                    assert(spec_apply_all(mgu@, terms_view(goals@).drop_first()).take(
                        goals@.len() - 1,
                    ) =~= spec_apply_all(mgu@, terms_view(goals@).drop_first()));
                }
                let ghost m = mgu@;
                let composed = compose(mgu.clone(), mgu);
                match resolve_within_go(new_goals.as_slice(), program, composed, suffix + 1, fuel - 1) {
                    None => {
                        return None;
                    },
                    Some(sub) => {
                        let ghost before = results@;
                        let ghost subv = sub@;
                        let mut sub = sub;
                        results.append(&mut sub);
                        proof {
                            assert(substs_view(results@) =~= substs_view(before) + substs_view(
                                subv,
                            ));
                            if let Some(rn) = rest_next {
                                assert(substs_view(results@) + rn =~= substs_view(before) + (
                                substs_view(subv) + rn));
                            }
                        }
                    },
                }
            },
        }
        i = i + 1;
    }
    proof {
        assert(substs_view(results@) + Seq::<SpecSubst>::empty() =~= substs_view(results@));
    }
    Some(results)
}

} // verus!
