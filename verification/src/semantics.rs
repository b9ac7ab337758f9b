//! Terms under a valuation, derivability from a program, and what unification and resolution
//! answers mean.
use vstd::prelude::*;

use crate::ast::{SpecClause, SpecTerm};
use crate::laws::{
    lemma_size_all_elem, lemma_unify_args_keeps_bindings_fuel, lemma_unify_keeps_bindings_fuel,
    size,
};
use crate::sld::{
    renamed, sld_answers, sld_branches, sld_depth, sld_fuel, sld_terminates, spec_rename,
    spec_rename_all, spec_rename_clause,
};
use crate::subst::{included, SpecSubst};
use crate::unifier::{
    acyclic, acyclic_within, fully, lemma_acyclic_compose, lemma_acyclic_sub, lemma_fully_var,
    unbound_in, walk, walk_all, walk_depth,
};
use crate::unify::{
    occurs, spec_apply, spec_apply_all, spec_compose, spec_unify, unify_args_fuel, unify_fuel,
    unify_terminates,
};

verus! {

/// `t` with each variable replaced by the term that the valuation `v` gives it.
pub open spec fn inst(v: spec_fn(Seq<char>) -> SpecTerm, t: SpecTerm) -> SpecTerm
    decreases t,
{
    match t {
        SpecTerm::Atom(_) => t,
        SpecTerm::Var(x) => v(x),
        SpecTerm::Compound(f, ts) => SpecTerm::Compound(f, inst_all(v, ts)),
    }
}

/// [`inst`] on every term of a list.
pub open spec fn inst_all(v: spec_fn(Seq<char>) -> SpecTerm, ts: Seq<SpecTerm>) -> Seq<SpecTerm>
    decreases ts,
{
    Seq::new(
        ts.len(),
        |i: int|
            if 0 <= i < ts.len() {
                inst(v, ts[i])
            } else {
                SpecTerm::Atom(Seq::empty())
            },
    )
}

/// The valuation `v` meets every binding of `s`, read as an equation.
pub open spec fn satisfies(v: spec_fn(Seq<char>) -> SpecTerm, s: SpecSubst) -> bool {
    forall|k: Seq<char>| #[trigger] s.dom().contains(k) ==> v(k) == inst(v, s[k])
}

/// Under a valuation that meets `s`, applying `s` once changes nothing.
pub proof fn lemma_inst_apply(v: spec_fn(Seq<char>) -> SpecTerm, s: SpecSubst, t: SpecTerm)
    requires
        satisfies(v, s),
    ensures
        inst(v, spec_apply(s, t)) == inst(v, t),
    decreases t,
{
    match t {
        SpecTerm::Atom(_) => {},
        SpecTerm::Var(x) => {},
        SpecTerm::Compound(f, ts) => {
            let at = spec_apply_all(s, ts);
            assert forall|i: int| 0 <= i < ts.len() implies inst(v, at[i]) == inst(v, ts[i]) by {
                lemma_inst_apply(v, s, ts[i]);
            }
            assert(inst_all(v, at) =~= inst_all(v, ts));
        },
    }
}

proof fn lemma_included_satisfies(v: spec_fn(Seq<char>) -> SpecTerm, s: SpecSubst, r: SpecSubst)
    requires
        included(s, r),
        satisfies(v, r),
    ensures
        satisfies(v, s),
{
    assert forall|k: Seq<char>| #[trigger] s.dom().contains(k) implies v(k) == inst(v, s[k]) by {
        assert(r.dom().contains(k));
    }
}

proof fn lemma_unify_meets_fuel(
    s: SpecSubst,
    t1: SpecTerm,
    t2: SpecTerm,
    f: nat,
    r: SpecSubst,
    v: spec_fn(Seq<char>) -> SpecTerm,
)
    requires
        unify_fuel(s, t1, t2, f) == Some(Some(r)),
        satisfies(v, r),
    ensures
        satisfies(v, s),
        inst(v, t1) == inst(v, t2),
    decreases f, 0nat,
{
    lemma_unify_keeps_bindings_fuel(s, t1, t2, f);
    lemma_included_satisfies(v, s, r);
    if t1 is Var && t2 is Var && t1->Var_0 == t2->Var_0 {
    } else if t1 is Var || t2 is Var {
        let vt = if t1 is Var {
            t1
        } else {
            t2
        };
        let other = if t1 is Var {
            t2
        } else {
            t1
        };
        let name = vt->Var_0;
        let ou = spec_apply(s, other);
        if s.dom().contains(name) {
            lemma_unify_meets_fuel(s, s[name], ou, (f - 1) as nat, r, v);
        } else {
            assert(r == s.insert(name, ou));
            assert(r.dom().contains(name) && r[name] == ou);
        }
        lemma_inst_apply(v, s, other);
    } else if t1 is Atom && t2 is Atom {
    } else {
        let a1 = t1->Compound_1;
        let a2 = t2->Compound_1;
        lemma_unify_args_meets_fuel(s, a1, a2, (f - 1) as nat, r, v);
        assert(inst_all(v, a1) =~= inst_all(v, a2));
    }
}

proof fn lemma_unify_args_meets_fuel(
    s: SpecSubst,
    a1: Seq<SpecTerm>,
    a2: Seq<SpecTerm>,
    f: nat,
    r: SpecSubst,
    v: spec_fn(Seq<char>) -> SpecTerm,
)
    requires
        a1.len() == a2.len(),
        unify_args_fuel(s, a1, a2, f) == Some(Some(r)),
        satisfies(v, r),
    ensures
        forall|i: int| 0 <= i < a1.len() ==> inst(v, #[trigger] a1[i]) == inst(v, a2[i]),
    decreases f, a1.len() + 1,
{
    if a1.len() > 0 {
        let s1 = unify_fuel(s, a1[0], a2[0], f).unwrap().unwrap();
        lemma_unify_args_keeps_bindings_fuel(s1, a1.drop_first(), a2.drop_first(), f);
        lemma_included_satisfies(v, s1, r);
        lemma_unify_meets_fuel(s, a1[0], a2[0], f, s1, v);
        lemma_unify_args_meets_fuel(s1, a1.drop_first(), a2.drop_first(), f, r, v);
        assert forall|i: int| 0 <= i < a1.len() implies inst(v, #[trigger] a1[i]) == inst(
            v,
            a2[i],
        ) by {
            if i > 0 {
                assert(a1[i] == a1.drop_first()[i - 1]);
                assert(a2[i] == a2.drop_first()[i - 1]);
            }
        }
    }
}

pub(crate) proof fn lemma_unify_general_fuel(
    s: SpecSubst,
    t1: SpecTerm,
    t2: SpecTerm,
    f: nat,
    r: SpecSubst,
    v: spec_fn(Seq<char>) -> SpecTerm,
)
    requires
        unify_fuel(s, t1, t2, f) == Some(Some(r)),
        satisfies(v, s),
        inst(v, t1) == inst(v, t2),
    ensures
        satisfies(v, r),
    decreases f, 0nat,
{
    if t1 is Var && t2 is Var && t1->Var_0 == t2->Var_0 {
    } else if t1 is Var || t2 is Var {
        let vt = if t1 is Var {
            t1
        } else {
            t2
        };
        let other = if t1 is Var {
            t2
        } else {
            t1
        };
        let name = vt->Var_0;
        let ou = spec_apply(s, other);
        lemma_inst_apply(v, s, other);
        if s.dom().contains(name) {
            lemma_unify_general_fuel(s, s[name], ou, (f - 1) as nat, r, v);
        } else {
            assert(r == s.insert(name, ou));
            assert forall|k: Seq<char>| #[trigger] r.dom().contains(k) implies v(k) == inst(
                v,
                r[k],
            ) by {
                if k != name {
                    assert(s.dom().contains(k));
                }
            }
        }
    } else if t1 is Atom && t2 is Atom {
    } else {
        let a1 = t1->Compound_1;
        let a2 = t2->Compound_1;
        assert forall|i: int| 0 <= i < a1.len() implies inst(v, #[trigger] a1[i]) == inst(
            v,
            a2[i],
        ) by {
            assert(inst_all(v, a1)[i] == inst_all(v, a2)[i]);
        }
        lemma_unify_args_general_fuel(s, a1, a2, (f - 1) as nat, r, v);
    }
}

proof fn lemma_unify_args_general_fuel(
    s: SpecSubst,
    a1: Seq<SpecTerm>,
    a2: Seq<SpecTerm>,
    f: nat,
    r: SpecSubst,
    v: spec_fn(Seq<char>) -> SpecTerm,
)
    requires
        a1.len() == a2.len(),
        unify_args_fuel(s, a1, a2, f) == Some(Some(r)),
        satisfies(v, s),
        forall|i: int| 0 <= i < a1.len() ==> inst(v, #[trigger] a1[i]) == inst(v, a2[i]),
    ensures
        satisfies(v, r),
    decreases f, a1.len() + 1,
{
    if a1.len() > 0 {
        let s1 = unify_fuel(s, a1[0], a2[0], f).unwrap().unwrap();
        lemma_unify_general_fuel(s, a1[0], a2[0], f, s1, v);
        assert forall|i: int| 0 <= i < a1.drop_first().len() implies inst(
            v,
            #[trigger] a1.drop_first()[i],
        ) == inst(v, a2.drop_first()[i]) by {
            assert(a1.drop_first()[i] == a1[i + 1]);
            assert(a2.drop_first()[i] == a2[i + 1]);
        }
        lemma_unify_args_general_fuel(s1, a1.drop_first(), a2.drop_first(), f, r, v);
    }
}

/// What unification returns is a most general unifier in the sense of equations: a valuation
/// meets the bindings of the result `r` exactly when it meets those of `s` and gives `t1` and
/// `t2` the same value.
pub proof fn lemma_unify_meets(
    s: SpecSubst,
    t1: SpecTerm,
    t2: SpecTerm,
    v: spec_fn(Seq<char>) -> SpecTerm,
)
    requires
        unify_terminates(s, t1, t2),
    ensures
        spec_unify(s, t1, t2) matches Some(r) ==> (satisfies(v, r) <==> satisfies(v, s) && inst(
            v,
            t1,
        ) == inst(v, t2)),
{
    let f = choose|fuel: nat| unify_fuel(s, t1, t2, fuel) is Some;
    crate::unify::lemma_spec_unify(s, t1, t2, f);
    if let Some(r) = spec_unify(s, t1, t2) {
        if satisfies(v, r) {
            lemma_unify_meets_fuel(s, t1, t2, f, r, v);
        }
        if satisfies(v, s) && inst(v, t1) == inst(v, t2) {
            lemma_unify_general_fuel(s, t1, t2, f, r, v);
        }
    }
}

/// The run of unification on `s`, `t1`, `t2` within `fuel` nested steps meets a variable that
/// its substitution leaves unbound, facing a term that is that same variable once the
/// substitution is applied: there the occurs check fails although both sides agree.
pub open spec fn meets_itself_fuel(s: SpecSubst, t1: SpecTerm, t2: SpecTerm, fuel: nat) -> bool
    decreases fuel, 0nat,
{
    if fuel == 0 {
        false
    } else if t1 is Var && t2 is Var && t1->Var_0 == t2->Var_0 {
        false
    } else if t1 is Var || t2 is Var {
        let v = if t1 is Var {
            t1
        } else {
            t2
        };
        let other = if t1 is Var {
            t2
        } else {
            t1
        };
        let name = v->Var_0;
        let ou = spec_apply(s, other);
        if s.dom().contains(name) {
            meets_itself_fuel(s, s[name], ou, (fuel - 1) as nat)
        } else {
            ou == SpecTerm::Var(name)
        }
    } else if t1 is Compound && t2 is Compound && t1->Compound_0 == t2->Compound_0
        && t1->Compound_1.len() == t2->Compound_1.len() {
        meets_itself_args_fuel(s, t1->Compound_1, t2->Compound_1, (fuel - 1) as nat)
    } else {
        false
    }
}

/// [`meets_itself_fuel`] on the pairwise unification of two argument lists.
pub open spec fn meets_itself_args_fuel(
    s: SpecSubst,
    a1: Seq<SpecTerm>,
    a2: Seq<SpecTerm>,
    fuel: nat,
) -> bool
    decreases fuel, a1.len() + 1,
{
    if a1.len() == 0 || a2.len() == 0 {
        false
    } else {
        meets_itself_fuel(s, a1[0], a2[0], fuel) || match unify_fuel(s, a1[0], a2[0], fuel) {
            Some(Some(s1)) => meets_itself_args_fuel(s1, a1.drop_first(), a2.drop_first(), fuel),
            _ => false,
        }
    }
}

/// [`meets_itself_fuel`] on the run that [`spec_unify`] reads.
pub open spec fn unify_meets_itself(s: SpecSubst, t1: SpecTerm, t2: SpecTerm) -> bool {
    meets_itself_fuel(s, t1, t2, choose|fuel: nat| unify_fuel(s, t1, t2, fuel) is Some)
}

proof fn lemma_occurs_size(v: spec_fn(Seq<char>) -> SpecTerm, x: Seq<char>, t: SpecTerm)
    requires
        occurs(x, t),
    ensures
        size(v(x)) <= size(inst(v, t)),
        t != SpecTerm::Var(x) ==> size(v(x)) < size(inst(v, t)),
    decreases t,
{
    if let SpecTerm::Compound(f, ts) = t {
        let i = choose|i: int| 0 <= i < ts.len() && occurs(x, #[trigger] ts[i]);
        lemma_occurs_size(v, x, ts[i]);
        let its = inst_all(v, ts);
        assert(its[i] == inst(v, ts[i]));
        lemma_size_all_elem(its, i);
    }
}

pub(crate) proof fn lemma_unify_fails_fuel(
    s: SpecSubst,
    t1: SpecTerm,
    t2: SpecTerm,
    f: nat,
    v: spec_fn(Seq<char>) -> SpecTerm,
)
    requires
        unify_fuel(s, t1, t2, f) == Some(None::<SpecSubst>),
        !meets_itself_fuel(s, t1, t2, f),
        satisfies(v, s),
    ensures
        inst(v, t1) != inst(v, t2),
    decreases f, 0nat,
{
    if t1 is Var && t2 is Var && t1->Var_0 == t2->Var_0 {
    } else if t1 is Var || t2 is Var {
        let vt = if t1 is Var {
            t1
        } else {
            t2
        };
        let other = if t1 is Var {
            t2
        } else {
            t1
        };
        let name = vt->Var_0;
        let ou = spec_apply(s, other);
        lemma_inst_apply(v, s, other);
        if s.dom().contains(name) {
            lemma_unify_fails_fuel(s, s[name], ou, (f - 1) as nat, v);
        } else {
            assert(occurs(name, ou) && ou != SpecTerm::Var(name));
            lemma_occurs_size(v, name, ou);
            assert(inst(v, vt) == v(name));
            assert(inst(v, vt) != inst(v, ou));
        }
    } else if t1 is Atom && t2 is Atom {
    } else if t1 is Compound && t2 is Compound && t1->Compound_0 == t2->Compound_0
        && t1->Compound_1.len() == t2->Compound_1.len() {
        let a1 = t1->Compound_1;
        let a2 = t2->Compound_1;
        assert(a1.len() > 0 || a2.len() == 0);
        if a1.len() == 0 {
            assert(unify_args_fuel(s, a1, a2, (f - 1) as nat) == Some(Some(s)));
        }
        lemma_unify_args_fails_fuel(s, a1, a2, (f - 1) as nat, v);
        if inst(v, t1) == inst(v, t2) {
            let i = choose|i: int| 0 <= i < a1.len() && inst(v, #[trigger] a1[i]) != inst(v, a2[i]);
            assert(inst_all(v, a1)[i] == inst_all(v, a2)[i]);
        }
    } else if t1 is Compound && t2 is Compound {
        if t1->Compound_0 == t2->Compound_0 {
            assert(inst_all(v, t1->Compound_1).len() != inst_all(v, t2->Compound_1).len());
        }
    }
}

proof fn lemma_unify_args_fails_fuel(
    s: SpecSubst,
    a1: Seq<SpecTerm>,
    a2: Seq<SpecTerm>,
    f: nat,
    v: spec_fn(Seq<char>) -> SpecTerm,
)
    requires
        a1.len() == a2.len(),
        unify_args_fuel(s, a1, a2, f) == Some(None::<SpecSubst>),
        !meets_itself_args_fuel(s, a1, a2, f),
        satisfies(v, s),
    ensures
        exists|i: int| 0 <= i < a1.len() && inst(v, #[trigger] a1[i]) != inst(v, a2[i]),
    decreases f, a1.len() + 1,
{
    match unify_fuel(s, a1[0], a2[0], f) {
        Some(Some(s1)) => {
            if inst(v, a1[0]) == inst(v, a2[0]) {
                lemma_unify_general_fuel(s, a1[0], a2[0], f, s1, v);
                lemma_unify_args_fails_fuel(s1, a1.drop_first(), a2.drop_first(), f, v);
                let i = choose|i: int|
                    0 <= i < a1.drop_first().len() && inst(v, #[trigger] a1.drop_first()[i])
                        != inst(v, a2.drop_first()[i]);
                assert(a1.drop_first()[i] == a1[i + 1]);
                assert(a2.drop_first()[i] == a2[i + 1]);
            }
        },
        _ => {
            lemma_unify_fails_fuel(s, a1[0], a2[0], f, v);
            assert(inst(v, a1[0]) != inst(v, a2[0]));
        },
    }
}

/// Where unification fails without meeting a variable faced with itself, no valuation that
/// meets the bindings of `s` gives `t1` and `t2` the same value.
pub proof fn lemma_unify_fails(
    s: SpecSubst,
    t1: SpecTerm,
    t2: SpecTerm,
    v: spec_fn(Seq<char>) -> SpecTerm,
)
    requires
        unify_terminates(s, t1, t2),
        spec_unify(s, t1, t2) is None,
        !unify_meets_itself(s, t1, t2),
        satisfies(v, s),
    ensures
        inst(v, t1) != inst(v, t2),
{
    let f = choose|fuel: nat| unify_fuel(s, t1, t2, fuel) is Some;
    crate::unify::lemma_spec_unify(s, t1, t2, f);
    lemma_unify_fails_fuel(s, t1, t2, f, v);
}

// Composing a substitution with itself, read as equations.

proof fn lemma_compose_meets_var(
    m: SpecSubst,
    v: spec_fn(Seq<char>) -> SpecTerm,
    t: SpecTerm,
    n: nat,
)
    requires
        satisfies(v, spec_compose(m, m)),
        unbound_in(m, walk(m, t, n)),
    ensures
        inst(v, t) == inst(v, walk(m, t, n)),
    decreases n, t,
{
    match t {
        SpecTerm::Atom(_) => {},
        SpecTerm::Var(k) => {
            if m.dom().contains(k) {
                if n == 0 {
                    assert(occurs(k, walk(m, t, n)));
                } else {
                    assert(spec_compose(m, m).dom().contains(k));
                    assert(spec_compose(m, m)[k] == spec_apply(m, m[k]));
                    lemma_compose_meets_apply(m, v, m[k], (n - 1) as nat);
                }
            }
        },
        SpecTerm::Compound(f, ts) => {
            let w = walk_all(m, ts, n);
            assert forall|i: int| 0 <= i < ts.len() implies inst(v, ts[i]) == inst(v, w[i]) by {
                assert(w[i] == walk(m, ts[i], n));
                assert forall|x: Seq<char>| #[trigger] occurs(x, walk(m, ts[i], n)) implies !m.dom().contains(
                    x,
                ) by {
                    assert(occurs(x, w[i]));
                    assert(occurs(x, walk(m, t, n)));
                }
                lemma_compose_meets_var(m, v, ts[i], n);
            }
            assert(inst_all(v, ts) =~= inst_all(v, w));
        },
    }
}

proof fn lemma_compose_meets_apply(
    m: SpecSubst,
    v: spec_fn(Seq<char>) -> SpecTerm,
    t: SpecTerm,
    n: nat,
)
    requires
        satisfies(v, spec_compose(m, m)),
        unbound_in(m, walk(m, t, n)),
    ensures
        inst(v, spec_apply(m, t)) == inst(v, walk(m, t, n)),
    decreases n, t,
{
    match t {
        SpecTerm::Atom(_) => {},
        SpecTerm::Var(y) => {
            if m.dom().contains(y) {
                if n == 0 {
                    assert(occurs(y, walk(m, t, n)));
                } else {
                    lemma_compose_meets_var(m, v, m[y], (n - 1) as nat);
                }
            }
        },
        SpecTerm::Compound(f, ts) => {
            let w = walk_all(m, ts, n);
            let at = spec_apply_all(m, ts);
            assert forall|i: int| 0 <= i < ts.len() implies inst(v, at[i]) == inst(v, w[i]) by {
                assert(w[i] == walk(m, ts[i], n));
                assert forall|x: Seq<char>| #[trigger] occurs(x, walk(m, ts[i], n)) implies !m.dom().contains(
                    x,
                ) by {
                    assert(occurs(x, w[i]));
                    assert(occurs(x, walk(m, t, n)));
                }
                lemma_compose_meets_apply(m, v, ts[i], n);
            }
            assert(inst_all(v, at) =~= inst_all(v, w));
        },
    }
}

/// For an acyclic `m`, a valuation that meets `m` composed with itself meets `m`.
pub proof fn lemma_compose_meets(m: SpecSubst, v: spec_fn(Seq<char>) -> SpecTerm)
    requires
        acyclic(m),
        satisfies(v, spec_compose(m, m)),
    ensures
        satisfies(v, m),
{
    let n = walk_depth(m);
    assert(acyclic_within(m, n));
    assert forall|k: Seq<char>| #[trigger] m.dom().contains(k) implies v(k) == inst(v, m[k]) by {
        assert(unbound_in(m, walk(m, SpecTerm::Var(k), n)));
        if n == 0 {
            assert(occurs(k, walk(m, SpecTerm::Var(k), n)));
        } else {
            lemma_compose_meets_var(m, v, SpecTerm::Var(k), n);
            lemma_compose_meets_var(m, v, m[k], (n - 1) as nat);
        }
    }
}

/// `t` is derivable from `prog` within `d` steps: under some valuation `w`, `t` is the head of a
/// clause of `prog`, and each goal of that clause's body under `w` is derivable within `d - 1`.
pub open spec fn derives(prog: Seq<SpecClause>, t: SpecTerm, d: nat) -> bool
    decreases d,
{
    if d == 0 {
        false
    } else {
        exists|i: int, w: spec_fn(Seq<char>) -> SpecTerm|
            #![trigger inst(w, prog[i].head)]
            0 <= i < prog.len() && inst(w, prog[i].head) == t && forall|j: int|
                0 <= j < prog[i].body.len() ==> derives(
                    prog,
                    #[trigger] inst(w, prog[i].body[j]),
                    (d - 1) as nat,
                )
    }
}

/// `t` is derivable from `prog`.
pub open spec fn derivable(prog: Seq<SpecClause>, t: SpecTerm) -> bool {
    exists|d: nat| derives(prog, t, d)
}

proof fn lemma_derives_mono(prog: Seq<SpecClause>, t: SpecTerm, d: nat, e: nat)
    requires
        d <= e,
        derives(prog, t, d),
    ensures
        derives(prog, t, e),
    decreases d,
{
    let (i, w) = choose|i: int, w: spec_fn(Seq<char>) -> SpecTerm|
        #![trigger inst(w, prog[i].head)]
        0 <= i < prog.len() && inst(w, prog[i].head) == t && forall|j: int|
            0 <= j < prog[i].body.len() ==> derives(
                prog,
                #[trigger] inst(w, prog[i].body[j]),
                (d - 1) as nat,
            );
    assert forall|j: int| 0 <= j < prog[i].body.len() implies derives(
        prog,
        #[trigger] inst(w, prog[i].body[j]),
        (e - 1) as nat,
    ) by {
        lemma_derives_mono(prog, inst(w, prog[i].body[j]), (d - 1) as nat, (e - 1) as nat);
    }
    assert(inst(w, prog[i].head) == t);
}

/// A renamed term under `v` is the term under the valuation that reads each name renamed.
pub proof fn lemma_inst_rename(v: spec_fn(Seq<char>) -> SpecTerm, t: SpecTerm, n: nat)
    ensures
        inst(v, spec_rename(t, n)) == inst(|x: Seq<char>| v(renamed(x, n)), t),
    decreases t,
{
    let w = |x: Seq<char>| v(renamed(x, n));
    match t {
        SpecTerm::Atom(_) => {},
        SpecTerm::Var(x) => {},
        SpecTerm::Compound(f, ts) => {
            let rs = spec_rename_all(ts, n);
            assert forall|i: int| 0 <= i < ts.len() implies inst(v, rs[i]) == inst(w, ts[i]) by {
                lemma_inst_rename(v, ts[i], n);
            }
            assert(inst_all(v, rs) =~= inst_all(w, ts));
        },
    }
}

proof fn lemma_sld_sound_fuel(
    goals: Seq<SpecTerm>,
    prog: Seq<SpecClause>,
    s: SpecSubst,
    suffix: nat,
    fuel: nat,
    answer: SpecSubst,
    v: spec_fn(Seq<char>) -> SpecTerm,
)
    requires
        sld_fuel(goals, prog, s, suffix, fuel) matches Some(rs) && rs.contains(answer),
        acyclic(answer),
        satisfies(v, answer),
    ensures
        acyclic(s),
        satisfies(v, s),
        forall|k: int| 0 <= k < goals.len() ==> derives(prog, inst(v, #[trigger] goals[k]), fuel),
    decreases fuel, prog.len() + 1,
{
    if goals.len() == 0 {
        let rs = sld_fuel(goals, prog, s, suffix, fuel).unwrap();
        assert(rs == seq![s]);
        assert(answer == s);
    } else {
        lemma_sld_branches_sound(goals, prog, s, suffix, fuel, 0, answer, v);
    }
}

proof fn lemma_sld_branches_sound(
    goals: Seq<SpecTerm>,
    prog: Seq<SpecClause>,
    s: SpecSubst,
    suffix: nat,
    fuel: nat,
    i: int,
    answer: SpecSubst,
    v: spec_fn(Seq<char>) -> SpecTerm,
)
    requires
        goals.len() > 0,
        sld_branches(goals, prog, s, suffix, fuel, i) matches Some(rs) && rs.contains(answer),
        acyclic(answer),
        satisfies(v, answer),
    ensures
        acyclic(s),
        satisfies(v, s),
        forall|k: int| 0 <= k < goals.len() ==> derives(prog, inst(v, #[trigger] goals[k]), fuel),
    decreases fuel, prog.len() - i,
{
    let rs = sld_branches(goals, prog, s, suffix, fuel, i).unwrap();
    if i < 0 || i >= prog.len() || fuel == 0 {
        assert(rs == Seq::<SpecSubst>::empty());
        assert(false);
    } else {
        let c = spec_rename_clause(prog[i], suffix);
        let here = match unify_fuel(s, goals[0], c.head, fuel) {
            None => None,
            Some(None) => Some(Seq::<SpecSubst>::empty()),
            Some(Some(mgu)) => sld_fuel(
                c.body + spec_apply_all(mgu, goals.drop_first()),
                prog,
                spec_compose(mgu, mgu),
                suffix + 1,
                (fuel - 1) as nat,
            ),
        };
        let rest = sld_branches(goals, prog, s, suffix, fuel, i + 1);
        let hr = here.unwrap();
        let rr = rest.unwrap();
        assert(rs == hr + rr);
        let k = choose|k: int| 0 <= k < rs.len() && rs[k] == answer;
        if k >= hr.len() {
            assert(rr[k - hr.len()] == answer);
            assert(rr.contains(answer));
            lemma_sld_branches_sound(goals, prog, s, suffix, fuel, i + 1, answer, v);
        } else {
            assert(hr[k] == answer);
            match unify_fuel(s, goals[0], c.head, fuel) {
                Some(Some(m)) => {
                    let rest_goals = spec_apply_all(m, goals.drop_first());
                    let ng = c.body + rest_goals;
                    let cm = spec_compose(m, m);
                    assert(hr.contains(answer));
                    lemma_sld_sound_fuel(ng, prog, cm, suffix + 1, (fuel - 1) as nat, answer, v);
                    lemma_acyclic_compose(m);
                    lemma_compose_meets(m, v);
                    lemma_unify_meets_fuel(s, goals[0], c.head, fuel, m, v);
                    lemma_unify_keeps_bindings_fuel(s, goals[0], c.head, fuel);
                    lemma_acyclic_sub(s, m);
                    let cl = prog[i];
                    let w = |x: Seq<char>| v(renamed(x, suffix));
                    lemma_inst_rename(v, cl.head, suffix);
                    assert forall|j: int| 0 <= j < cl.body.len() implies derives(
                        prog,
                        #[trigger] inst(w, cl.body[j]),
                        (fuel - 1) as nat,
                    ) by {
                        assert(ng[j] == c.body[j]);
                        assert(c.body[j] == spec_rename(cl.body[j], suffix));
                        lemma_inst_rename(v, cl.body[j], suffix);
                    }
                    assert(inst(w, prog[i].head) == inst(v, goals[0]));
                    assert(derives(prog, inst(v, goals[0]), fuel));
                    assert forall|k: int| 0 <= k < goals.len() implies derives(
                        prog,
                        inst(v, #[trigger] goals[k]),
                        fuel,
                    ) by {
                        if k > 0 {
                            let p = c.body.len() + k - 1;
                            assert(ng[p] == rest_goals[k - 1]);
                            assert(goals.drop_first()[k - 1] == goals[k]);
                            assert(rest_goals[k - 1] == spec_apply(m, goals[k]));
                            lemma_inst_apply(v, m, goals[k]);
                            lemma_derives_mono(prog, inst(v, goals[k]), (fuel - 1) as nat, fuel);
                        }
                    }
                },
                _ => {
                    assert(hr == Seq::<SpecSubst>::empty());
                    assert(false);
                },
            }
        }
    }
}

/// Soundness of resolution: for an answer that has no cycle, every valuation that meets its
/// bindings meets those of the given substitution, and turns each goal into a term derivable
/// from the program.
pub proof fn lemma_resolve_sound(
    goals: Seq<SpecTerm>,
    prog: Seq<SpecClause>,
    s: SpecSubst,
    suffix: nat,
    j: int,
    v: spec_fn(Seq<char>) -> SpecTerm,
)
    requires
        sld_terminates(goals, prog, s, suffix),
        0 <= j < sld_answers(goals, prog, s, suffix).len(),
        acyclic(sld_answers(goals, prog, s, suffix)[j]),
        satisfies(v, sld_answers(goals, prog, s, suffix)[j]),
    ensures
        acyclic(s),
        satisfies(v, s),
        forall|k: int| 0 <= k < goals.len() ==> derivable(prog, inst(v, #[trigger] goals[k])),
{
    let d = sld_depth(goals, prog, s, suffix);
    let rs = sld_answers(goals, prog, s, suffix);
    let answer = rs[j];
    assert(rs.contains(answer));
    lemma_sld_sound_fuel(goals, prog, s, suffix, d, answer, v);
    assert forall|k: int| 0 <= k < goals.len() implies derivable(
        prog,
        inst(v, #[trigger] goals[k]),
    ) by {
        assert(derives(prog, inst(v, goals[k]), d));
    }
}

/// Under the valuation that reads each name as that variable fully applied by an acyclic `s`,
/// a term is that term fully applied by `s`.
proof fn lemma_inst_fully(s: SpecSubst, t: SpecTerm)
    requires
        acyclic(s),
    ensures
        inst(|x: Seq<char>| fully(s, SpecTerm::Var(x)), t) == fully(s, t),
    decreases t,
{
    let v = |x: Seq<char>| fully(s, SpecTerm::Var(x));
    let n = walk_depth(s);
    match t {
        SpecTerm::Atom(_) => {},
        SpecTerm::Var(x) => {},
        SpecTerm::Compound(f, ts) => {
            assert forall|i: int| 0 <= i < ts.len() implies inst(v, ts[i]) == walk(s, ts[i], n) by {
                lemma_inst_fully(s, ts[i]);
            }
            assert(inst_all(v, ts) =~= walk_all(s, ts, n));
        },
    }
}

/// Soundness of resolution, fully applied: for an answer that has no cycle, each goal with the
/// answer's bindings followed to the end is derivable from the program, and the given
/// substitution has no cycle either.
pub proof fn lemma_resolve_sound_fully(
    goals: Seq<SpecTerm>,
    prog: Seq<SpecClause>,
    s: SpecSubst,
    suffix: nat,
    j: int,
)
    requires
        sld_terminates(goals, prog, s, suffix),
        0 <= j < sld_answers(goals, prog, s, suffix).len(),
        acyclic(sld_answers(goals, prog, s, suffix)[j]),
    ensures
        acyclic(s),
        forall|k: int|
            0 <= k < goals.len() ==> derivable(
                prog,
                fully(sld_answers(goals, prog, s, suffix)[j], #[trigger] goals[k]),
            ),
{
    let answer = sld_answers(goals, prog, s, suffix)[j];
    let v = |x: Seq<char>| fully(answer, SpecTerm::Var(x));
    assert forall|k: Seq<char>| #[trigger] answer.dom().contains(k) implies v(k) == inst(
        v,
        answer[k],
    ) by {
        lemma_fully_var(answer, k);
        lemma_inst_fully(answer, answer[k]);
    }
    lemma_resolve_sound(goals, prog, s, suffix, j, v);
    assert forall|k: int| 0 <= k < goals.len() implies derivable(
        prog,
        fully(answer, #[trigger] goals[k]),
    ) by {
        lemma_inst_fully(answer, goals[k]);
    }
}

} // verus!
