use prolog_sld::ast::{Clause, Term};
use prolog_sld::sld::{resolve, resolve_within};
use prolog_sld::subst::Substitutions;
use prolog_sld::unify::{unify, unify_within};

fn atom(s: &str) -> Term {
    Term::Atom(s.to_string())
}

fn var(s: &str) -> Term {
    Term::Var(s.to_string())
}

fn compound(functor: &str, args: Vec<Term>) -> Term {
    Term::Compound(functor.to_string(), args)
}

fn subst(bindings: Vec<(&str, Term)>) -> Substitutions {
    let mut s = Substitutions::new();
    for (k, v) in bindings {
        s.insert(k.to_string(), v);
    }
    s
}

#[test]
fn unify_repeated_variable_follows_binding() {
    // f(X, X) with f(Y, Y): X is bound to Y, then X's binding Y unifies with Y.
    let t1 = compound("f", vec![var("X"), var("X")]);
    let t2 = compound("f", vec![var("Y"), var("Y")]);
    assert_eq!(unify(Substitutions::new(), &t1, &t2), Some(subst(vec![("X", var("Y"))])));
}

#[test]
fn unify_inconsistent_chain_fails() {
    // X = Y and Y = a force X = a, which contradicts X = b.
    let t1 = compound("f", vec![var("X"), var("Y"), var("X")]);
    let t2 = compound("f", vec![var("Y"), atom("a"), atom("b")]);
    assert_eq!(unify(Substitutions::new(), &t1, &t2), None);
}

#[test]
fn unify_keeps_given_bindings() {
    let s = subst(vec![("X", var("Y")), ("Y", atom("a"))]);
    assert_eq!(unify(s.clone(), &var("X"), &atom("b")), None);
    assert_eq!(unify(s.clone(), &var("X"), &atom("a")), Some(s.clone()));
    let r = unify(s, &var("X"), &var("Z")).unwrap();
    assert_eq!(r.get("X"), Some(&var("Y")));
    assert_eq!(r.get("Y"), Some(&atom("a")));
    assert_eq!(r.get("Z"), Some(&atom("a")));
}

#[test]
fn unify_occurs_check_after_one_application() {
    // The second pair meets V with W already bound to V: the occurs check sees V in V.
    let t1 = compound("f", vec![var("W"), var("V")]);
    let t2 = compound("f", vec![var("V"), var("W")]);
    assert_eq!(unify(Substitutions::new(), &t1, &t2), None);
}

#[test]
fn unify_within_enough_fuel_agrees_with_unify() {
    let t1 = compound("f", vec![var("X"), atom("a")]);
    let t2 = compound("f", vec![atom("b"), var("Y")]);
    let r = unify_within(Substitutions::new(), &t1, &t2, 3);
    assert_eq!(r, Some(unify(Substitutions::new(), &t1, &t2)));
    assert_eq!(r, Some(Some(subst(vec![("X", atom("b")), ("Y", atom("a"))]))));
    let t3 = compound("f", vec![var("X"), var("X")]);
    let t4 = compound("f", vec![atom("a"), atom("b")]);
    assert_eq!(unify_within(Substitutions::new(), &t3, &t4, 5), Some(None));
}

#[test]
fn unify_within_too_little_fuel() {
    let t1 = compound("f", vec![var("X"), atom("a")]);
    let t2 = compound("f", vec![atom("b"), var("Y")]);
    assert_eq!(unify_within(Substitutions::new(), &t1, &t2, 0), None);
    assert_eq!(unify_within(Substitutions::new(), &t1, &t2, 1), None);
    assert_eq!(unify_within(Substitutions::new(), &var("X"), &atom("a"), 1), Some(Some(subst(vec![("X", atom("a"))]))));
}

#[test]
fn unify_within_cycle_runs_out() {
    // X bound to Y and Y bound to X: following bindings never ends.
    let s = subst(vec![("X", var("Y")), ("Y", var("X"))]);
    assert_eq!(unify_within(s, &var("X"), &atom("a"), 50), None);
}

#[test]
fn resolve_no_answer_without_unifier() {
    // Goal f(X, Y_0, X) against the fact f(Y, a, b), renamed f(Y_0, a, b): no unifier.
    let prog = vec![Clause::fact(compound("f", vec![var("Y"), atom("a"), atom("b")]))];
    let goals = vec![compound("f", vec![var("X"), var("Y_0"), var("X")])];
    assert_eq!(resolve(&goals, prog, Substitutions::new()).len(), 0);
}

#[test]
fn resolve_within_agrees_with_resolve() {
    let prog = vec![
        Clause::fact(compound("parent", vec![atom("alice"), atom("bob")])),
        Clause::fact(compound("parent", vec![atom("bob"), atom("charlie")])),
        Clause::rule(
            compound("grandparent", vec![var("X"), var("Z")]),
            vec![
                compound("parent", vec![var("X"), var("Y")]),
                compound("parent", vec![var("Y"), var("Z")]),
            ],
        ),
    ];
    let goals = vec![compound("grandparent", vec![atom("alice"), var("Z")])];
    let full = resolve(&goals, prog.clone(), Substitutions::new());
    assert_eq!(full.len(), 1);
    assert_eq!(resolve_within(&goals, prog.clone(), Substitutions::new(), 10), Some(full));
    assert_eq!(resolve_within(&goals, prog.clone(), Substitutions::new(), 0), None);
    assert_eq!(resolve_within(&[], prog, Substitutions::new(), 0), Some(vec![Substitutions::new()]));
}

#[test]
fn resolve_within_endless_rule_runs_out() {
    // p :- p. never stops.
    let prog = vec![Clause::rule(atom("p"), vec![atom("p")])];
    assert_eq!(resolve_within(&[atom("p")], prog, Substitutions::new(), 20), None);
}

#[test]
fn unify_within_keeps_given_bindings() {
    let s = subst(vec![("X", atom("a"))]);
    let t1 = compound("f", vec![var("X"), var("Y")]);
    let t2 = compound("f", vec![atom("a"), atom("b")]);
    let r = unify_within(s, &t1, &t2, 4).unwrap().unwrap();
    assert_eq!(r.get("X"), Some(&atom("a")));
    assert_eq!(r.get("Y"), Some(&atom("b")));
}

#[test]
fn resolve_no_head_unifies_first_goal() {
    let prog = vec![
        Clause::fact(compound("p", vec![atom("a")])),
        Clause::fact(compound("q", vec![atom("b")])),
        Clause::rule(compound("p", vec![atom("c"), var("X")]), vec![compound("q", vec![var("X")])]),
    ];
    let goals = vec![compound("p", vec![atom("b")]), compound("q", vec![var("Z")])];
    assert!(resolve(&goals, prog, Substitutions::new()).is_empty());
}
