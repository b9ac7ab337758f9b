//! Completeness of resolution: every solution of the goals that the program derives is covered
//! by an answer.
use vstd::prelude::*;

use crate::ast::{SpecClause, SpecTerm};
use crate::semantics::{
    derivable, derives, inst, inst_all, lemma_inst_apply, lemma_inst_rename,
    lemma_unify_fails_fuel, lemma_unify_general_fuel, meets_itself_fuel, satisfies,
};
use crate::sld::{
    renamed, sld_answers, sld_branches, sld_depth, sld_fuel, sld_terminates, spec_rename,
    spec_rename_all, spec_rename_clause,
};
use crate::subst::SpecSubst;
use crate::text::{decimal, lemma_decimal_digits, lemma_decimal_injective, spec_is_digit};
use crate::unify::{
    occurs, spec_apply, spec_apply_all, spec_compose, unify_args_fuel, unify_fuel,
};

verus! {

/// Renaming gives each name with each suffix a name of its own.
pub proof fn lemma_renamed_unique(x: Seq<char>, n: nat, y: Seq<char>, k: nat)
    requires
        renamed(x, n) == renamed(y, k),
    ensures
        x == y,
        n == k,
{
    let a = renamed(x, n);
    let p = x + seq!['_'];
    let q = y + seq!['_'];
    lemma_decimal_digits(n);
    lemma_decimal_digits(k);
    assert(a == p + decimal(n));
    assert(a == q + decimal(k));
    if x.len() < y.len() {
        let i = y.len() as int;
        assert(i < a.len());
        assert(a[i] == q[i]);
        assert(q[i] == '_');
        assert(a[i] == decimal(n)[i - p.len()]);
        assert(spec_is_digit(decimal(n)[i - p.len()]));
        assert(false);
    } else if y.len() < x.len() {
        let i = x.len() as int;
        assert(i < a.len());
        assert(a[i] == p[i]);
        assert(p[i] == '_');
        assert(a[i] == decimal(k)[i - q.len()]);
        assert(spec_is_digit(decimal(k)[i - q.len()]));
        assert(false);
    } else {
        assert(a.subrange(0, x.len() as int) =~= x);
        assert(a.subrange(0, y.len() as int) =~= y);
        assert(a.subrange(x.len() as int + 1, a.len() as int) =~= decimal(n));
        assert(a.subrange(y.len() as int + 1, a.len() as int) =~= decimal(k));
        lemma_decimal_injective(n, k);
    }
}

/// A name that renaming with a suffix of at least `n` gives.
pub open spec fn renamed_from(x: Seq<char>, n: nat) -> bool {
    exists|y: Seq<char>, k: nat| k >= n && x == #[trigger] renamed(y, k)
}

/// No variable of `t` is a name that renaming with a suffix of at least `n` gives.
pub open spec fn clean(t: SpecTerm, n: nat) -> bool {
    forall|x: Seq<char>| #[trigger] occurs(x, t) ==> !renamed_from(x, n)
}

/// [`clean`] for every goal of a list.
pub open spec fn clean_all(ts: Seq<SpecTerm>, n: nat) -> bool {
    forall|i: int| 0 <= i < ts.len() ==> clean(#[trigger] ts[i], n)
}

/// [`clean`] for every name that `s` binds and every binding of `s`.
pub open spec fn clean_subst(s: SpecSubst, n: nat) -> bool {
    forall|k: Seq<char>| #[trigger] s.dom().contains(k) ==> !renamed_from(k, n) && clean(s[k], n)
}

/// `v`, except that the name that renaming with suffix `n` gives to `y` reads as `w(y)`.
pub open spec fn with_renamed(
    v: spec_fn(Seq<char>) -> SpecTerm,
    w: spec_fn(Seq<char>) -> SpecTerm,
    n: nat,
) -> spec_fn(Seq<char>) -> SpecTerm {
    |x: Seq<char>|
        if exists|y: Seq<char>| x == #[trigger] renamed(y, n) {
            w(choose|y: Seq<char>| x == #[trigger] renamed(y, n))
        } else {
            v(x)
        }
}

proof fn lemma_with_renamed(
    v: spec_fn(Seq<char>) -> SpecTerm,
    w: spec_fn(Seq<char>) -> SpecTerm,
    n: nat,
    x: Seq<char>,
)
    ensures
        !renamed_from(x, n) ==> with_renamed(v, w, n)(x) == v(x),
        forall|y: Seq<char>| x == #[trigger] renamed(y, n) ==> with_renamed(v, w, n)(x) == w(y),
{
    if exists|y: Seq<char>| x == #[trigger] renamed(y, n) {
        let y0 = choose|y: Seq<char>| x == #[trigger] renamed(y, n);
        assert(renamed_from(x, n));
        assert forall|y: Seq<char>| x == #[trigger] renamed(y, n) implies with_renamed(v, w, n)(x)
            == w(y) by {
            lemma_renamed_unique(y0, n, y, n);
        }
    }
}

/// Valuations that agree on the variables of `t` give `t` the same value.
proof fn lemma_inst_agree(
    v: spec_fn(Seq<char>) -> SpecTerm,
    w: spec_fn(Seq<char>) -> SpecTerm,
    t: SpecTerm,
)
    requires
        forall|x: Seq<char>| #[trigger] occurs(x, t) ==> v(x) == w(x),
    ensures
        inst(v, t) == inst(w, t),
    decreases t,
{
    if let SpecTerm::Var(x) = t {
        assert(occurs(x, t));
    }
    if let SpecTerm::Compound(f, ts) = t {
        assert forall|i: int| 0 <= i < ts.len() implies inst(v, ts[i]) == inst(w, ts[i]) by {
            assert forall|x: Seq<char>| #[trigger] occurs(x, ts[i]) implies v(x) == w(x) by {
                assert(occurs(x, t));
            }
            lemma_inst_agree(v, w, ts[i]);
        }
        assert(inst_all(v, ts) =~= inst_all(w, ts));
    }
}

proof fn lemma_clean_apply(s: SpecSubst, t: SpecTerm, n: nat)
    requires
        clean_subst(s, n),
        clean(t, n),
    ensures
        clean(spec_apply(s, t), n),
    decreases t,
{
    match t {
        SpecTerm::Atom(_) => {},
        SpecTerm::Var(x) => {
            if !s.dom().contains(x) {
                assert forall|y: Seq<char>| #[trigger] occurs(y, spec_apply(s, t)) implies !renamed_from(
                    y,
                    n,
                ) by {
                    assert(occurs(y, t));
                }
            }
        },
        SpecTerm::Compound(f, ts) => {
            let at = spec_apply_all(s, ts);
            assert forall|y: Seq<char>| #[trigger] occurs(y, spec_apply(s, t)) implies !renamed_from(
                y,
                n,
            ) by {
                let i = choose|i: int| 0 <= i < at.len() && occurs(y, #[trigger] at[i]);
                assert forall|z: Seq<char>| #[trigger] occurs(z, ts[i]) implies !renamed_from(z, n) by {
                    assert(occurs(z, t));
                }
                lemma_clean_apply(s, ts[i], n);
            }
        },
    }
}

proof fn lemma_clean_unify_fuel(s: SpecSubst, t1: SpecTerm, t2: SpecTerm, f: nat, n: nat)
    requires
        clean_subst(s, n),
        clean(t1, n),
        clean(t2, n),
        unify_fuel(s, t1, t2, f) matches Some(Some(r)),
    ensures
        unify_fuel(s, t1, t2, f) matches Some(Some(r)) && clean_subst(r, n),
    decreases f, 0nat,
{
    if t1 is Var && t2 is Var && t1->Var_0 == t2->Var_0 {
    } else if t1 is Var || t2 is Var {
        let vt = if t1 is Var {
            t1
        } else {
            t2
        };
        let other = if t1 is Var {
            t2
        } else {
            t1
        };
        let name = vt->Var_0;
        let ou = spec_apply(s, other);
        lemma_clean_apply(s, other, n);
        if s.dom().contains(name) {
            lemma_clean_unify_fuel(s, s[name], ou, (f - 1) as nat, n);
        } else {
            assert(occurs(name, vt));
            let r = s.insert(name, ou);
            assert forall|k: Seq<char>| #[trigger] r.dom().contains(k) implies !renamed_from(k, n)
                && clean(r[k], n) by {
                if k != name {
                    assert(s.dom().contains(k));
                }
            }
        }
    } else if t1 is Atom && t2 is Atom {
    } else {
        let a1 = t1->Compound_1;
        let a2 = t2->Compound_1;
        assert forall|i: int| 0 <= i < a1.len() implies clean(#[trigger] a1[i], n) by {
            assert forall|x: Seq<char>| #[trigger] occurs(x, a1[i]) implies !renamed_from(x, n) by {
                assert(occurs(x, t1));
            }
        }
        assert forall|i: int| 0 <= i < a2.len() implies clean(#[trigger] a2[i], n) by {
            assert forall|x: Seq<char>| #[trigger] occurs(x, a2[i]) implies !renamed_from(x, n) by {
                assert(occurs(x, t2));
            }
        }
        lemma_clean_unify_args_fuel(s, a1, a2, (f - 1) as nat, n);
    }
}

proof fn lemma_clean_unify_args_fuel(
    s: SpecSubst,
    a1: Seq<SpecTerm>,
    a2: Seq<SpecTerm>,
    f: nat,
    n: nat,
)
    requires
        clean_subst(s, n),
        clean_all(a1, n),
        clean_all(a2, n),
        unify_args_fuel(s, a1, a2, f) matches Some(Some(r)),
    ensures
        unify_args_fuel(s, a1, a2, f) matches Some(Some(r)) && clean_subst(r, n),
    decreases f, a1.len() + 1,
{
    if a1.len() > 0 && a2.len() > 0 {
        let s1 = unify_fuel(s, a1[0], a2[0], f).unwrap().unwrap();
        lemma_clean_unify_fuel(s, a1[0], a2[0], f, n);
        assert forall|i: int| 0 <= i < a1.drop_first().len() implies clean(
            #[trigger] a1.drop_first()[i],
            n,
        ) by {
            assert(a1.drop_first()[i] == a1[i + 1]);
        }
        assert forall|i: int| 0 <= i < a2.drop_first().len() implies clean(
            #[trigger] a2.drop_first()[i],
            n,
        ) by {
            assert(a2.drop_first()[i] == a2[i + 1]);
        }
        lemma_clean_unify_args_fuel(s1, a1.drop_first(), a2.drop_first(), f, n);
    }
}

proof fn lemma_clean_rename(t: SpecTerm, n: nat)
    ensures
        clean(spec_rename(t, n), n + 1),
    decreases t,
{
    match t {
        SpecTerm::Atom(_) => {},
        SpecTerm::Var(x) => {
            assert forall|y: Seq<char>| #[trigger] occurs(y, spec_rename(t, n)) implies !renamed_from(
                y,
                n + 1,
            ) by {
                assert(y == renamed(x, n));
                if renamed_from(y, n + 1) {
                    let (z, k) = choose|z: Seq<char>, k: nat| k >= n + 1 && y == #[trigger] renamed(
                        z,
                        k,
                    );
                    lemma_renamed_unique(x, n, z, k);
                }
            }
        },
        SpecTerm::Compound(f, ts) => {
            let rs = spec_rename_all(ts, n);
            assert forall|y: Seq<char>| #[trigger] occurs(y, spec_rename(t, n)) implies !renamed_from(
                y,
                n + 1,
            ) by {
                let i = choose|i: int| 0 <= i < rs.len() && occurs(y, #[trigger] rs[i]);
                lemma_clean_rename(ts[i], n);
            }
        },
    }
}

proof fn lemma_clean_up(t: SpecTerm, n: nat)
    requires
        clean(t, n),
    ensures
        clean(t, n + 1),
{
    assert forall|x: Seq<char>| #[trigger] occurs(x, t) implies !renamed_from(x, n + 1) by {
        if renamed_from(x, n + 1) {
            let (z, k) = choose|z: Seq<char>, k: nat| k >= n + 1 && x == #[trigger] renamed(z, k);
            assert(renamed_from(x, n));
        }
    }
}

proof fn lemma_clean_subst_up(s: SpecSubst, n: nat)
    requires
        clean_subst(s, n),
    ensures
        clean_subst(s, n + 1),
{
    assert forall|k: Seq<char>| #[trigger] s.dom().contains(k) implies !renamed_from(k, n + 1)
        && clean(s[k], n + 1) by {
        lemma_clean_up(s[k], n);
        if renamed_from(k, n + 1) {
            let (z, i) = choose|z: Seq<char>, i: nat| i >= n + 1 && k == #[trigger] renamed(z, i);
            assert(renamed_from(k, n));
        }
    }
}

proof fn lemma_clean_compose(m: SpecSubst, n: nat)
    requires
        clean_subst(m, n),
    ensures
        clean_subst(spec_compose(m, m), n),
{
    assert forall|k: Seq<char>| #[trigger] spec_compose(m, m).dom().contains(k) implies !renamed_from(
        k,
        n,
    ) && clean(spec_compose(m, m)[k], n) by {
        assert(m.dom().contains(k));
        lemma_clean_apply(m, m[k], n);
    }
}

/// A valuation that meets `m` meets `m` composed with itself.
pub proof fn lemma_meets_compose(v: spec_fn(Seq<char>) -> SpecTerm, m: SpecSubst)
    requires
        satisfies(v, m),
    ensures
        satisfies(v, spec_compose(m, m)),
{
    assert forall|k: Seq<char>| #[trigger] spec_compose(m, m).dom().contains(k) implies v(k) == inst(
        v,
        spec_compose(m, m)[k],
    ) by {
        assert(m.dom().contains(k));
        lemma_inst_apply(v, m, m[k]);
    }
}

/// Some unification of the run of resolution within `fuel` steps meets a variable faced with
/// itself.
pub open spec fn sld_meets_itself(
    goals: Seq<SpecTerm>,
    prog: Seq<SpecClause>,
    s: SpecSubst,
    suffix: nat,
    fuel: nat,
) -> bool
    decreases fuel, prog.len() + 1,
{
    if goals.len() == 0 || fuel == 0 {
        false
    } else {
        sld_branches_meet_itself(goals, prog, s, suffix, fuel, 0)
    }
}

/// [`sld_meets_itself`] for the clauses of `prog` from index `i` on.
pub open spec fn sld_branches_meet_itself(
    goals: Seq<SpecTerm>,
    prog: Seq<SpecClause>,
    s: SpecSubst,
    suffix: nat,
    fuel: nat,
    i: int,
) -> bool
    decreases fuel, prog.len() - i,
{
    if i < 0 || i >= prog.len() || fuel == 0 || goals.len() == 0 {
        false
    } else {
        let c = spec_rename_clause(prog[i], suffix);
        ||| meets_itself_fuel(s, goals[0], c.head, fuel)
        ||| (match unify_fuel(s, goals[0], c.head, fuel) {
            Some(Some(m)) => sld_meets_itself(
                c.body + spec_apply_all(m, goals.drop_first()),
                prog,
                spec_compose(m, m),
                suffix + 1,
                (fuel - 1) as nat,
            ),
            _ => false,
        })
        ||| sld_branches_meet_itself(goals, prog, s, suffix, fuel, i + 1)
    }
}

/// [`sld_meets_itself`] on the run that [`sld_answers`] reads.
pub open spec fn resolve_meets_itself(
    goals: Seq<SpecTerm>,
    prog: Seq<SpecClause>,
    s: SpecSubst,
    suffix: nat,
) -> bool {
    sld_meets_itself(goals, prog, s, suffix, sld_depth(goals, prog, s, suffix))
}

/// `v2` and `v` agree on every name that renaming with a suffix of at least `n` does not give.
pub open spec fn agrees_off(
    v2: spec_fn(Seq<char>) -> SpecTerm,
    v: spec_fn(Seq<char>) -> SpecTerm,
    n: nat,
) -> bool {
    forall|x: Seq<char>| !renamed_from(x, n) ==> #[trigger] v2(x) == v(x)
}

/// Some substitution of `rs` is met by a valuation that agrees with `v` on every name that
/// renaming with a suffix of at least `n` does not give.
pub open spec fn covers(rs: Seq<SpecSubst>, v: spec_fn(Seq<char>) -> SpecTerm, n: nat) -> bool {
    exists|j: int, v2: spec_fn(Seq<char>) -> SpecTerm|
        0 <= j < rs.len() && #[trigger] satisfies(v2, rs[j]) && agrees_off(v2, v, n)
}

proof fn lemma_covers_concat(
    a: Seq<SpecSubst>,
    b: Seq<SpecSubst>,
    v: spec_fn(Seq<char>) -> SpecTerm,
    n: nat,
)
    requires
        covers(a, v, n) || covers(b, v, n),
    ensures
        covers(a + b, v, n),
{
    if covers(a, v, n) {
        let (j, v2) = choose|j: int, v2: spec_fn(Seq<char>) -> SpecTerm|
            0 <= j < a.len() && #[trigger] satisfies(v2, a[j]) && agrees_off(v2, v, n);
        assert((a + b)[j] == a[j]);
        assert(satisfies(v2, (a + b)[j]));
    } else {
        let (j, v2) = choose|j: int, v2: spec_fn(Seq<char>) -> SpecTerm|
            0 <= j < b.len() && #[trigger] satisfies(v2, b[j]) && agrees_off(v2, v, n);
        assert((a + b)[a.len() + j] == b[j]);
        assert(satisfies(v2, (a + b)[a.len() + j]));
    }
}

proof fn lemma_sld_complete_fuel(
    goals: Seq<SpecTerm>,
    prog: Seq<SpecClause>,
    s: SpecSubst,
    suffix: nat,
    fuel: nat,
    v: spec_fn(Seq<char>) -> SpecTerm,
)
    requires
        sld_fuel(goals, prog, s, suffix, fuel) is Some,
        !sld_meets_itself(goals, prog, s, suffix, fuel),
        satisfies(v, s),
        clean_subst(s, suffix),
        clean_all(goals, suffix),
        forall|k: int| 0 <= k < goals.len() ==> derivable(prog, inst(v, #[trigger] goals[k])),
    ensures
        covers(sld_fuel(goals, prog, s, suffix, fuel).unwrap(), v, suffix),
    decreases fuel, prog.len() + 1,
{
    let rs = sld_fuel(goals, prog, s, suffix, fuel).unwrap();
    if goals.len() == 0 {
        assert(rs == seq![s]);
        assert(satisfies(v, rs[0]));
        assert(agrees_off(v, v, suffix));
    } else {
        let g0 = inst(v, goals[0]);
        assert(derivable(prog, g0));
        let d = choose|d: nat| derives(prog, g0, d);
        let (ci, w) = choose|i: int, w: spec_fn(Seq<char>) -> SpecTerm|
            #![trigger inst(w, prog[i].head)]
            0 <= i < prog.len() && inst(w, prog[i].head) == g0 && forall|j: int|
                0 <= j < prog[i].body.len() ==> derives(
                    prog,
                    #[trigger] inst(w, prog[i].body[j]),
                    (d - 1) as nat,
                );
        assert forall|j: int| 0 <= j < prog[ci].body.len() implies derivable(
            prog,
            #[trigger] inst(w, prog[ci].body[j]),
        ) by {
            assert(derives(prog, inst(w, prog[ci].body[j]), (d - 1) as nat));
        }
        lemma_branches_complete(goals, prog, s, suffix, fuel, 0, ci, w, v);
    }
}

proof fn lemma_branches_complete(
    goals: Seq<SpecTerm>,
    prog: Seq<SpecClause>,
    s: SpecSubst,
    suffix: nat,
    fuel: nat,
    i: int,
    ci: int,
    w: spec_fn(Seq<char>) -> SpecTerm,
    v: spec_fn(Seq<char>) -> SpecTerm,
)
    requires
        goals.len() > 0,
        fuel > 0,
        0 <= i <= ci < prog.len(),
        inst(w, prog[ci].head) == inst(v, goals[0]),
        forall|j: int|
            0 <= j < prog[ci].body.len() ==> derivable(prog, #[trigger] inst(w, prog[ci].body[j])),
        sld_branches(goals, prog, s, suffix, fuel, i) is Some,
        !sld_branches_meet_itself(goals, prog, s, suffix, fuel, i),
        satisfies(v, s),
        clean_subst(s, suffix),
        clean_all(goals, suffix),
        forall|k: int| 0 <= k < goals.len() ==> derivable(prog, inst(v, #[trigger] goals[k])),
    ensures
        covers(sld_branches(goals, prog, s, suffix, fuel, i).unwrap(), v, suffix),
    decreases fuel, prog.len() - i,
{
    let c = spec_rename_clause(prog[i], suffix);
    let here = match unify_fuel(s, goals[0], c.head, fuel) {
        None => None,
        Some(None) => Some(Seq::<SpecSubst>::empty()),
        Some(Some(mgu)) => sld_fuel(
            c.body + spec_apply_all(mgu, goals.drop_first()),
            prog,
            spec_compose(mgu, mgu),
            suffix + 1,
            (fuel - 1) as nat,
        ),
    };
    let rest = sld_branches(goals, prog, s, suffix, fuel, i + 1);
    assert(sld_branches(goals, prog, s, suffix, fuel, i) == Some(here.unwrap() + rest.unwrap()));
    if i < ci {
        lemma_branches_complete(goals, prog, s, suffix, fuel, i + 1, ci, w, v);
        lemma_covers_concat(here.unwrap(), rest.unwrap(), v, suffix);
    } else {
        let cl = prog[i];
        let v1 = with_renamed(v, w, suffix);
        // The renamed clause's variables read as under `w`; every other name as under `v`.
        assert forall|x: Seq<char>| !renamed_from(x, suffix) implies #[trigger] v1(x) == v(x) by {
            lemma_with_renamed(v, w, suffix, x);
        }
        assert forall|x: Seq<char>| #[trigger] v1(renamed(x, suffix)) == w(x) by {
            lemma_with_renamed(v, w, suffix, renamed(x, suffix));
        }
        let vr = |x: Seq<char>| v1(renamed(x, suffix));
        assert(satisfies(v1, s)) by {
            assert forall|k: Seq<char>| #[trigger] s.dom().contains(k) implies v1(k) == inst(
                v1,
                s[k],
            ) by {
                lemma_inst_agree(v1, v, s[k]);
            }
        }
        lemma_inst_agree(v1, v, goals[0]);
        lemma_inst_rename(v1, cl.head, suffix);
        lemma_inst_agree(vr, w, cl.head);
        assert(inst(v1, goals[0]) == inst(v1, c.head));
        match unify_fuel(s, goals[0], c.head, fuel) {
            Some(Some(m)) => {
                lemma_unify_general_fuel(s, goals[0], c.head, fuel, m, v1);
                let cm = spec_compose(m, m);
                lemma_meets_compose(v1, m);
                let rest_goals = spec_apply_all(m, goals.drop_first());
                let ng = c.body + rest_goals;
                // Nothing of the new state is renamed with a suffix above `suffix`.
                lemma_clean_subst_up(s, suffix);
                lemma_clean_up(goals[0], suffix);
                lemma_clean_rename(cl.head, suffix);
                lemma_clean_unify_fuel(s, goals[0], c.head, fuel, suffix + 1);
                lemma_clean_compose(m, suffix + 1);
                assert forall|k: int| 0 <= k < ng.len() implies clean(#[trigger] ng[k], suffix + 1)
                    by {
                    if k < c.body.len() {
                        assert(ng[k] == spec_rename(cl.body[k], suffix));
                        lemma_clean_rename(cl.body[k], suffix);
                    } else {
                        let g = goals[k - c.body.len() + 1];
                        assert(ng[k] == spec_apply(m, g));
                        lemma_clean_up(g, suffix);
                        lemma_clean_apply(m, g, suffix + 1);
                    }
                }
                assert forall|k: int| 0 <= k < ng.len() implies derivable(
                    prog,
                    inst(v1, #[trigger] ng[k]),
                ) by {
                    if k < c.body.len() {
                        assert(ng[k] == spec_rename(cl.body[k], suffix));
                        lemma_inst_rename(v1, cl.body[k], suffix);
                        lemma_inst_agree(vr, w, cl.body[k]);
                    } else {
                        let g = goals[k - c.body.len() + 1];
                        assert(ng[k] == spec_apply(m, g));
                        lemma_inst_apply(v1, m, g);
                        lemma_inst_agree(v1, v, g);
                    }
                }
                lemma_sld_complete_fuel(ng, prog, cm, suffix + 1, (fuel - 1) as nat, v1);
                let hs = here.unwrap();
                let (j, v2) = choose|j: int, v2: spec_fn(Seq<char>) -> SpecTerm|
                    0 <= j < hs.len() && #[trigger] satisfies(v2, hs[j]) && agrees_off(
                        v2,
                        v1,
                        suffix + 1,
                    );
                assert forall|x: Seq<char>| !renamed_from(x, suffix) implies #[trigger] v2(x) == v(
                    x,
                ) by {
                    if renamed_from(x, suffix + 1) {
                        let (z, k) = choose|z: Seq<char>, k: nat|
                            k >= suffix + 1 && x == #[trigger] renamed(z, k);
                        assert(renamed_from(x, suffix));
                    }
                    assert(v2(x) == v1(x));
                }
                assert(covers(hs, v, suffix));
                lemma_covers_concat(hs, rest.unwrap(), v, suffix);
            },
            Some(None) => {
                lemma_unify_fails_fuel(s, goals[0], c.head, fuel, v1);
            },
            None => {},
        }
    }
}

/// Completeness of resolution: where resolution stops and none of its unifications meets a
/// variable faced with itself, and neither the goals nor the given substitution use a name that
/// renaming gives at this step or later, every valuation that meets `s` and turns each goal into
/// a term derivable from the program is matched, on the goals, by a valuation that meets one of
/// the answers.
pub proof fn lemma_resolve_complete(
    goals: Seq<SpecTerm>,
    prog: Seq<SpecClause>,
    s: SpecSubst,
    suffix: nat,
    v: spec_fn(Seq<char>) -> SpecTerm,
)
    requires
        sld_terminates(goals, prog, s, suffix),
        !resolve_meets_itself(goals, prog, s, suffix),
        clean_subst(s, suffix),
        clean_all(goals, suffix),
        satisfies(v, s),
        forall|k: int| 0 <= k < goals.len() ==> derivable(prog, inst(v, #[trigger] goals[k])),
    ensures
        exists|j: int, v2: spec_fn(Seq<char>) -> SpecTerm|
            0 <= j < sld_answers(goals, prog, s, suffix).len() && #[trigger] satisfies(
                v2,
                sld_answers(goals, prog, s, suffix)[j],
            ) && forall|k: int|
                0 <= k < goals.len() ==> inst(v2, #[trigger] goals[k]) == inst(v, goals[k]),
{
    let d = sld_depth(goals, prog, s, suffix);
    let rs = sld_answers(goals, prog, s, suffix);
    lemma_sld_complete_fuel(goals, prog, s, suffix, d, v);
    let (j, v2) = choose|j: int, v2: spec_fn(Seq<char>) -> SpecTerm|
        0 <= j < rs.len() && #[trigger] satisfies(v2, rs[j]) && agrees_off(v2, v, suffix);
    assert forall|k: int| 0 <= k < goals.len() implies inst(v2, #[trigger] goals[k]) == inst(
        v,
        goals[k],
    ) by {
        lemma_inst_agree(v2, v, goals[k]);
    }
    assert(satisfies(v2, rs[j]));
}

} // verus!
