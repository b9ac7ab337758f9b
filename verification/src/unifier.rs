//! Following bindings to the end, and what a unifier makes equal.
use vstd::prelude::*;

use crate::ast::SpecTerm;
use crate::laws::{lemma_unify_args_keeps_bindings_fuel, lemma_unify_keeps_bindings_fuel};
use crate::subst::{included, SpecSubst};
use crate::unify::{
    occurs, spec_apply, spec_apply_all, spec_compose, spec_unify, unify_args_fuel, unify_fuel,
    unify_terminates,
};

verus! {

/// `t` with each bound variable replaced by its binding, itself walked the same way, following
/// at most `n` bindings along any path.
pub open spec fn walk(s: SpecSubst, t: SpecTerm, n: nat) -> SpecTerm
    decreases n, t,
{
    match t {
        SpecTerm::Atom(_) => t,
        SpecTerm::Var(x) => if s.dom().contains(x) && n > 0 {
            walk(s, s[x], (n - 1) as nat)
        } else {
            t
        },
        SpecTerm::Compound(f, ts) => SpecTerm::Compound(f, walk_all(s, ts, n)),
    }
}

/// [`walk`] on every term of a list.
pub open spec fn walk_all(s: SpecSubst, ts: Seq<SpecTerm>, n: nat) -> Seq<SpecTerm>
    decreases n, ts,
{
    Seq::new(
        ts.len(),
        |i: int|
            if 0 <= i < ts.len() {
                walk(s, ts[i], n)
            } else {
                SpecTerm::Atom(Seq::empty())
            },
    )
}

/// No variable of `t` is bound by `s`.
pub open spec fn unbound_in(s: SpecSubst, t: SpecTerm) -> bool {
    forall|x: Seq<char>| #[trigger] occurs(x, t) ==> !s.dom().contains(x)
}

/// From every bound variable, following at most `n` bindings leads to a term with no bound
/// variable.
pub open spec fn acyclic_within(s: SpecSubst, n: nat) -> bool {
    forall|k: Seq<char>|
        #[trigger] s.dom().contains(k) ==> unbound_in(s, walk(s, SpecTerm::Var(k), n))
}

/// Following the bindings of `s` always ends: `s` has no cycle.
pub open spec fn acyclic(s: SpecSubst) -> bool {
    exists|n: nat| acyclic_within(s, n)
}

/// A number of steps within which the bindings of an acyclic `s` always end.
pub open spec fn walk_depth(s: SpecSubst) -> nat {
    choose|n: nat| acyclic_within(s, n)
}

/// `t` with the bindings of `s` followed to the end, where `s` has no cycle: no variable of the
/// result is bound.
pub open spec fn fully(s: SpecSubst, t: SpecTerm) -> SpecTerm {
    walk(s, t, walk_depth(s))
}

/// Once a walk has left no bound variable, walking further changes nothing.
pub(crate) proof fn lemma_walk_stable(s: SpecSubst, t: SpecTerm, n: nat, m: nat)
    requires
        n <= m,
        unbound_in(s, walk(s, t, n)),
    ensures
        walk(s, t, m) == walk(s, t, n),
    decreases n, t,
{
    match t {
        SpecTerm::Atom(_) => {},
        SpecTerm::Var(x) => {
            if s.dom().contains(x) {
                if n == 0 {
                    assert(occurs(x, walk(s, t, n)));
                } else {
                    lemma_walk_stable(s, s[x], (n - 1) as nat, (m - 1) as nat);
                }
            }
        },
        SpecTerm::Compound(f, ts) => {
            assert forall|i: int| 0 <= i < ts.len() implies walk(s, ts[i], m) == walk(
                s,
                ts[i],
                n,
            ) by {
                assert(walk_all(s, ts, n)[i] == walk(s, ts[i], n));
                assert forall|x: Seq<char>| #[trigger] occurs(x, walk(s, ts[i], n)) implies !s.dom().contains(
                    x,
                ) by {
                    assert(occurs(x, walk_all(s, ts, n)[i]));
                    assert(occurs(x, walk(s, t, n)));
                }
                lemma_walk_stable(s, ts[i], n, m);
            }
            assert(walk_all(s, ts, m) =~= walk_all(s, ts, n));
        },
    }
}

/// Walking as far as an acyclic substitution needs leaves no bound variable.
pub(crate) proof fn lemma_walk_unbound(s: SpecSubst, t: SpecTerm, n: nat)
    requires
        acyclic_within(s, n),
    ensures
        unbound_in(s, walk(s, t, n)),
    decreases t,
{
    match t {
        SpecTerm::Atom(_) => {},
        SpecTerm::Var(x) => {
            if s.dom().contains(x) {
            }
        },
        SpecTerm::Compound(f, ts) => {
            assert forall|y: Seq<char>| #[trigger] occurs(y, walk(s, t, n)) implies !s.dom().contains(
                y,
            ) by {
                let w = walk_all(s, ts, n);
                let i = choose|i: int| 0 <= i < w.len() && occurs(y, #[trigger] w[i]);
                assert(w[i] == walk(s, ts[i], n));
                lemma_walk_unbound(s, ts[i], n);
            }
        },
    }
}

proof fn lemma_walk_sub(c: SpecSubst, b: SpecSubst, t: SpecTerm, n: nat)
    requires
        included(c, b),
        unbound_in(b, walk(b, t, n)),
    ensures
        unbound_in(c, walk(c, t, n)),
    decreases n, t,
{
    match t {
        SpecTerm::Atom(_) => {},
        SpecTerm::Var(k) => {
            if c.dom().contains(k) {
                assert(b.dom().contains(k) && b[k] == c[k]);
                if n == 0 {
                    assert(occurs(k, walk(b, t, n)));
                } else {
                    lemma_walk_sub(c, b, c[k], (n - 1) as nat);
                }
            } else {
                assert forall|x: Seq<char>| #[trigger] occurs(x, walk(c, t, n)) implies !c.dom().contains(
                    x,
                ) by {
                    assert(x == k);
                }
            }
        },
        SpecTerm::Compound(f, ts) => {
            assert forall|x: Seq<char>| #[trigger] occurs(x, walk(c, t, n)) implies !c.dom().contains(
                x,
            ) by {
                let w = walk_all(c, ts, n);
                let i = choose|i: int| 0 <= i < w.len() && occurs(x, #[trigger] w[i]);
                assert(w[i] == walk(c, ts[i], n));
                assert forall|y: Seq<char>| #[trigger] occurs(y, walk(b, ts[i], n)) implies !b.dom().contains(
                    y,
                ) by {
                    assert(occurs(y, walk_all(b, ts, n)[i]));
                    assert(occurs(y, walk(b, t, n)));
                }
                lemma_walk_sub(c, b, ts[i], n);
            }
        },
    }
}

/// The bindings that an acyclic substitution keeps form an acyclic substitution.
pub proof fn lemma_acyclic_sub(c: SpecSubst, b: SpecSubst)
    requires
        included(c, b),
        acyclic(b),
    ensures
        acyclic(c),
{
    let n = walk_depth(b);
    assert(acyclic_within(b, n));
    assert forall|k: Seq<char>| #[trigger] c.dom().contains(k) implies unbound_in(
        c,
        walk(c, SpecTerm::Var(k), n),
    ) by {
        assert(b.dom().contains(k));
        lemma_walk_sub(c, b, SpecTerm::Var(k), n);
    }
    assert(acyclic_within(c, n));
}

proof fn lemma_walk_compose(m: SpecSubst, t: SpecTerm, n: nat)
    ensures
        walk(spec_compose(m, m), t, n) == walk(m, t, 2 * n),
    decreases 2 * n, t,
{
    let c = spec_compose(m, m);
    match t {
        SpecTerm::Atom(_) => {},
        SpecTerm::Var(k) => {
            if m.dom().contains(k) && n > 0 {
                assert(c.dom().contains(k) && c[k] == spec_apply(m, m[k]));
                lemma_walk_compose_apply(m, m[k], (n - 1) as nat);
            }
        },
        SpecTerm::Compound(f, ts) => {
            assert forall|i: int| 0 <= i < ts.len() implies walk(c, ts[i], n) == walk(
                m,
                ts[i],
                2 * n,
            ) by {
                lemma_walk_compose(m, ts[i], n);
            }
            assert(walk_all(c, ts, n) =~= walk_all(m, ts, 2 * n));
        },
    }
}

proof fn lemma_walk_compose_apply(m: SpecSubst, t: SpecTerm, n: nat)
    ensures
        walk(spec_compose(m, m), spec_apply(m, t), n) == walk(m, t, 2 * n + 1),
    decreases 2 * n + 1, t,
{
    let c = spec_compose(m, m);
    match t {
        SpecTerm::Atom(_) => {},
        SpecTerm::Var(y) => {
            if m.dom().contains(y) {
                lemma_walk_compose(m, m[y], n);
            }
        },
        SpecTerm::Compound(f, ts) => {
            let at = spec_apply_all(m, ts);
            assert forall|i: int| 0 <= i < ts.len() implies walk(c, at[i], n) == walk(
                m,
                ts[i],
                2 * n + 1,
            ) by {
                lemma_walk_compose_apply(m, ts[i], n);
            }
            assert(walk_all(c, at, n) =~= walk_all(m, ts, 2 * n + 1));
        },
    }
}

/// Where `m` composed with itself is acyclic, so is `m`.
pub proof fn lemma_acyclic_compose(m: SpecSubst)
    requires
        acyclic(spec_compose(m, m)),
    ensures
        acyclic(m),
{
    let c = spec_compose(m, m);
    let n = walk_depth(c);
    assert(acyclic_within(c, n));
    assert forall|k: Seq<char>| #[trigger] m.dom().contains(k) implies unbound_in(
        m,
        walk(m, SpecTerm::Var(k), 2 * n),
    ) by {
        assert(c.dom().contains(k));
        lemma_walk_compose(m, SpecTerm::Var(k), n);
        assert forall|x: Seq<char>| #[trigger] occurs(x, walk(m, SpecTerm::Var(k), 2 * n)) implies !m.dom().contains(
            x,
        ) by {
            assert(!c.dom().contains(x));
        }
    }
    assert(acyclic_within(m, 2 * n));
}

/// For an acyclic `s`, a bound variable fully applied is its binding fully applied.
pub proof fn lemma_fully_var(s: SpecSubst, x: Seq<char>)
    requires
        acyclic(s),
        s.dom().contains(x),
    ensures
        fully(s, SpecTerm::Var(x)) == fully(s, s[x]),
{
    let n = walk_depth(s);
    assert(acyclic_within(s, n));
    assert(unbound_in(s, walk(s, SpecTerm::Var(x), n)));
    if n == 0 {
        assert(occurs(x, walk(s, SpecTerm::Var(x), n)));
    } else {
        lemma_walk_stable(s, s[x], (n - 1) as nat, n);
    }
}

/// For an acyclic `r` that keeps the bindings of `s`, applying `s` once first changes nothing
/// in what `r` fully applied gives.
pub proof fn lemma_fully_apply(s: SpecSubst, r: SpecSubst, t: SpecTerm)
    requires
        acyclic(r),
        included(s, r),
    ensures
        fully(r, spec_apply(s, t)) == fully(r, t),
    decreases t,
{
    match t {
        SpecTerm::Atom(_) => {},
        SpecTerm::Var(x) => {
            if s.dom().contains(x) {
                lemma_fully_var(r, x);
            }
        },
        SpecTerm::Compound(f, ts) => {
            let n = walk_depth(r);
            let at = crate::unify::spec_apply_all(s, ts);
            assert forall|i: int| 0 <= i < ts.len() implies walk(r, at[i], n) == walk(
                r,
                ts[i],
                n,
            ) by {
                lemma_fully_apply(s, r, ts[i]);
            }
            assert(walk_all(r, at, n) =~= walk_all(r, ts, n));
        },
    }
}

proof fn lemma_unify_sound_fuel(
    s: SpecSubst,
    t1: SpecTerm,
    t2: SpecTerm,
    f: nat,
    r: SpecSubst,
    big: SpecSubst,
)
    requires
        unify_fuel(s, t1, t2, f) == Some(Some(r)),
        acyclic(big),
        included(r, big),
    ensures
        fully(big, t1) == fully(big, t2),
    decreases f, 0nat,
{
    lemma_unify_keeps_bindings_fuel(s, t1, t2, f);
    if t1 is Var && t2 is Var && t1->Var_0 == t2->Var_0 {
    } else if t1 is Var || t2 is Var {
        let v = if t1 is Var {
            t1
        } else {
            t2
        };
        let other = if t1 is Var {
            t2
        } else {
            t1
        };
        let name = v->Var_0;
        let ou = spec_apply(s, other);
        assert(included(s, big));
        if s.dom().contains(name) {
            lemma_unify_sound_fuel(s, s[name], ou, (f - 1) as nat, r, big);
            lemma_fully_var(big, name);
        } else {
            assert(r == s.insert(name, ou));
            assert(r.dom().contains(name) && r[name] == ou);
            assert(big[name] == ou);
            lemma_fully_var(big, name);
        }
        lemma_fully_apply(s, big, other);
    } else if t1 is Atom && t2 is Atom {
    } else {
        let a1 = t1->Compound_1;
        let a2 = t2->Compound_1;
        lemma_unify_args_sound_fuel(s, a1, a2, (f - 1) as nat, r, big);
        let n = walk_depth(big);
        assert(walk_all(big, a1, n) =~= walk_all(big, a2, n));
    }
}

proof fn lemma_unify_args_sound_fuel(
    s: SpecSubst,
    a1: Seq<SpecTerm>,
    a2: Seq<SpecTerm>,
    f: nat,
    r: SpecSubst,
    big: SpecSubst,
)
    requires
        a1.len() == a2.len(),
        unify_args_fuel(s, a1, a2, f) == Some(Some(r)),
        acyclic(big),
        included(r, big),
    ensures
        forall|i: int| 0 <= i < a1.len() ==> fully(big, #[trigger] a1[i]) == fully(big, a2[i]),
    decreases f, a1.len() + 1,
{
    if a1.len() > 0 {
        let s1 = unify_fuel(s, a1[0], a2[0], f).unwrap().unwrap();
        lemma_unify_args_keeps_bindings_fuel(s1, a1.drop_first(), a2.drop_first(), f);
        lemma_unify_sound_fuel(s, a1[0], a2[0], f, s1, big);
        lemma_unify_args_sound_fuel(s1, a1.drop_first(), a2.drop_first(), f, r, big);
        assert forall|i: int| 0 <= i < a1.len() implies fully(big, #[trigger] a1[i]) == fully(
            big,
            a2[i],
        ) by {
            if i > 0 {
                assert(a1[i] == a1.drop_first()[i - 1]);
                assert(a2[i] == a2.drop_first()[i - 1]);
            }
        }
    }
}

/// What unification returns is a unifier, and keeps the given bindings: where `s`, `t1`, `t2`
/// give a result `r`, every binding of `s` is one of `r`, and every acyclic substitution that
/// keeps the bindings of `r` (`r` itself, where it is acyclic) makes `t1` and `t2` equal once
/// fully applied.
pub proof fn lemma_unify_sound(s: SpecSubst, t1: SpecTerm, t2: SpecTerm)
    requires
        unify_terminates(s, t1, t2),
    ensures
        spec_unify(s, t1, t2) matches Some(r) ==> included(s, r),
        spec_unify(s, t1, t2) matches Some(r) ==> (acyclic(r) ==> fully(r, t1) == fully(r, t2)),
        spec_unify(s, t1, t2) matches Some(r) ==> forall|big: SpecSubst|
            #[trigger] included(r, big) && acyclic(big) ==> fully(big, t1) == fully(big, t2),
{
    let f = choose|fuel: nat| unify_fuel(s, t1, t2, fuel) is Some;
    crate::unify::lemma_spec_unify(s, t1, t2, f);
    lemma_unify_keeps_bindings_fuel(s, t1, t2, f);
    if let Some(r) = spec_unify(s, t1, t2) {
        assert forall|big: SpecSubst| #[trigger] included(r, big) && acyclic(big) implies fully(
            big,
            t1,
        ) == fully(big, t2) by {
            lemma_unify_sound_fuel(s, t1, t2, f, r, big);
        }
        if acyclic(r) {
            assert(included(r, r));
        }
    }
}

} // verus!
