use prolog_sld::ast::{Clause, Term};
use prolog_sld::sld::resolve;
use prolog_sld::subst::Substitutions;
use prolog_sld::unify::{apply, unify};

fn atom(s: &str) -> Term {
    Term::Atom(s.to_string())
}

fn var(s: &str) -> Term {
    Term::Var(s.to_string())
}

fn compound(functor: &str, args: Vec<Term>) -> Term {
    Term::Compound(functor.to_string(), args)
}

/// Applies `s` until nothing changes (the substitutions here have no cycle).
fn fully(s: &Substitutions, t: &Term) -> Term {
    let mut cur = t.clone();
    for _ in 0..50 {
        let next = apply(s.clone(), &cur);
        if next == cur {
            return cur;
        }
        cur = next;
    }
    panic!("substitution has a cycle");
}

#[test]
fn unify_result_makes_terms_equal() {
    let t1 = compound("f", vec![var("X"), compound("g", vec![var("Y")])]);
    let t2 = compound("f", vec![compound("g", vec![var("Z")]), var("X")]);
    let r = unify(Substitutions::new(), &t1, &t2).unwrap();
    assert_eq!(fully(&r, &t1), fully(&r, &t2));
    assert_eq!(fully(&r, &t1), compound("f", vec![compound("g", vec![var("Y")]), compound("g", vec![var("Y")])]));
}

#[test]
fn unify_result_through_chain_makes_terms_equal() {
    let t1 = compound("f", vec![var("X"), atom("a"), var("X")]);
    let t2 = compound("f", vec![var("Y"), var("Y"), atom("a")]);
    let r = unify(Substitutions::new(), &t1, &t2).unwrap();
    assert_eq!(fully(&r, &t1), compound("f", vec![atom("a"), atom("a"), atom("a")]));
    assert_eq!(fully(&r, &t1), fully(&r, &t2));
}

#[test]
fn resolve_answers_give_derivable_goals() {
    let prog = vec![
        Clause::rule(
            compound("ancestor", vec![var("X"), var("Y")]),
            vec![compound("parent", vec![var("X"), var("Y")])],
        ),
        Clause::rule(
            compound("ancestor", vec![var("X"), var("Z")]),
            vec![
                compound("parent", vec![var("X"), var("Y")]),
                compound("ancestor", vec![var("Y"), var("Z")]),
            ],
        ),
        Clause::fact(compound("parent", vec![atom("alice"), atom("bob")])),
        Clause::fact(compound("parent", vec![atom("bob"), atom("charlie")])),
    ];
    let goal = compound("ancestor", vec![atom("alice"), var("W")]);
    let answers = resolve(&[goal.clone()], prog.clone(), Substitutions::new());
    assert_eq!(answers.len(), 2);
    let solved: Vec<Term> = answers.iter().map(|s| fully(s, &goal)).collect();
    assert_eq!(solved[0], compound("ancestor", vec![atom("alice"), atom("bob")]));
    assert_eq!(solved[1], compound("ancestor", vec![atom("alice"), atom("charlie")]));
    for t in solved {
        assert!(!resolve(&[t], prog.clone(), Substitutions::new()).is_empty());
    }
}
