use prolog_sld::ast::{Clause, Program, Term};
use prolog_sld::sld::resolve;
use prolog_sld::subst::Substitutions;

// ============================================================================
// Helper functions
// ============================================================================

fn atom(s: &str) -> Term {
    Term::Atom(s.to_string())
}

fn var(s: &str) -> Term {
    Term::Var(s.to_string())
}

fn compound(functor: &str, args: Vec<Term>) -> Term {
    Term::Compound(functor.to_string(), args)
}

fn clause(head: Term, body: Vec<Term>) -> Clause {
    Clause { head, body }
}

fn fact(head: Term) -> Clause {
    Clause { head, body: vec![] }
}

#[allow(dead_code)]
fn subst(bindings: Vec<(&str, Term)>) -> Substitutions {
    let mut s = Substitutions::new();
    for (k, v) in bindings {
        s.insert(k.to_string(), v);
    }
    s
}

fn program(clauses: Vec<Clause>) -> Program {
    clauses
}

// ============================================================================
// Basic Facts (No Rules, No Variables)
// ============================================================================

#[test]
fn test_fact_matching() {
    // Program: parent(alice, bob).
    let prog = program(vec![fact(compound(
        "parent",
        vec![atom("alice"), atom("bob")],
    ))]);

    let goals = vec![compound("parent", vec![atom("alice"), atom("bob")])];
    let results = resolve(&goals, prog, Substitutions::new());

    assert_eq!(results.len(), 1);
    assert_eq!(results[0], Substitutions::new()); // Empty substitution
}

#[test]
fn test_fact_not_matching() {
    // Program: parent(alice, bob).
    let prog = program(vec![fact(compound(
        "parent",
        vec![atom("alice"), atom("bob")],
    ))]);

    let goals = vec![compound("parent", vec![atom("charlie"), atom("dave")])];
    let results = resolve(&goals, prog, Substitutions::new());

    assert_eq!(results.len(), 0);
}

#[test]
fn test_multiple_facts() {
    // Program:
    //   parent(alice, bob).
    //   parent(bob, charlie).
    //   parent(charlie, dave).
    let prog = program(vec![
        fact(compound("parent", vec![atom("alice"), atom("bob")])),
        fact(compound("parent", vec![atom("bob"), atom("charlie")])),
        fact(compound("parent", vec![atom("charlie"), atom("dave")])),
    ]);

    let goals = vec![compound("parent", vec![atom("bob"), atom("charlie")])];
    let results = resolve(&goals, prog, Substitutions::new());

    assert_eq!(results.len(), 1);
}

// ============================================================================
// Variable Unification
// ============================================================================

#[test]
fn test_unify_single_variable() {
    // Program: parent(alice, bob).
    // Query: parent(alice, X).
    let prog = program(vec![fact(compound(
        "parent",
        vec![atom("alice"), atom("bob")],
    ))]);

    let goals = vec![compound("parent", vec![atom("alice"), var("X")])];
    let results = resolve(&goals, prog, Substitutions::new());

    assert_eq!(results.len(), 1);
    assert_eq!(results[0].get("X"), Some(&atom("bob")));
}

#[test]
fn test_unify_multiple_variables() {
    // Program: parent(alice, bob).
    // Query: parent(X, Y).
    let prog = program(vec![fact(compound(
        "parent",
        vec![atom("alice"), atom("bob")],
    ))]);

    let goals = vec![compound("parent", vec![var("X"), var("Y")])];
    let results = resolve(&goals, prog, Substitutions::new());

    assert_eq!(results.len(), 1);
    assert_eq!(results[0].get("X"), Some(&atom("alice")));
    assert_eq!(results[0].get("Y"), Some(&atom("bob")));
}

#[test]
fn test_unify_multiple_solutions() {
    // Program:
    //   parent(alice, bob).
    //   parent(alice, charlie).
    // Query: parent(alice, X).
    let prog = program(vec![
        fact(compound("parent", vec![atom("alice"), atom("bob")])),
        fact(compound("parent", vec![atom("alice"), atom("charlie")])),
    ]);

    let goals = vec![compound("parent", vec![atom("alice"), var("X")])];
    let results = resolve(&goals, prog, Substitutions::new());

    assert_eq!(results.len(), 2);
    assert!(
        results[0].get("X") == Some(&atom("bob"))
            || results[0].get("X") == Some(&atom("charlie"))
    );
    assert!(
        results[1].get("X") == Some(&atom("bob"))
            || results[1].get("X") == Some(&atom("charlie"))
    );
}

#[test]
fn test_unify_same_variable_twice() {
    // Program: sibling(alice, bob).
    // Query: sibling(X, X) should NOT match.
    let prog = program(vec![fact(compound(
        "sibling",
        vec![atom("alice"), atom("bob")],
    ))]);

    let goals = vec![compound("sibling", vec![var("X"), var("X")])];
    let results = resolve(&goals, prog, Substitutions::new());

    assert_eq!(results.len(), 0);
}

#[test]
fn test_unify_same_variable_twice_matching() {
    // Program: equal(alice, alice).
    // Query: equal(X, X).
    let prog = program(vec![fact(compound(
        "equal",
        vec![atom("alice"), atom("alice")],
    ))]);

    let goals = vec![compound("equal", vec![var("X"), var("X")])];
    let results = resolve(&goals, prog, Substitutions::new());

    assert_eq!(results.len(), 1);
    assert_eq!(results[0].get("X"), Some(&atom("alice")));
}

// ============================================================================
// Simple Rules
// ============================================================================

#[test]
fn test_simple_rule() {
    // Program:
    //   grandparent(X, Z) :- parent(X, Y), parent(Y, Z).
    //   parent(alice, bob).
    //   parent(bob, charlie).
    // Query: grandparent(alice, charlie).
    let prog = program(vec![
        clause(
            compound("grandparent", vec![var("X"), var("Z")]),
            vec![
                compound("parent", vec![var("X"), var("Y")]),
                compound("parent", vec![var("Y"), var("Z")]),
            ],
        ),
        fact(compound("parent", vec![atom("alice"), atom("bob")])),
        fact(compound("parent", vec![atom("bob"), atom("charlie")])),
    ]);

    let goals = vec![compound(
        "grandparent",
        vec![atom("alice"), atom("charlie")],
    )];
    let results = resolve(&goals, prog, Substitutions::new());

    assert_eq!(results.len(), 1);
}

#[test]
fn test_rule_with_variable_goal() {
    // Program:
    //   grandparent(X, Z) :- parent(X, Y), parent(Y, Z).
    //   parent(alice, bob).
    //   parent(bob, charlie).
    // Query: grandparent(alice, Z).
    let prog = program(vec![
        clause(
            compound("grandparent", vec![var("X"), var("Z")]),
            vec![
                compound("parent", vec![var("X"), var("Y")]),
                compound("parent", vec![var("Y"), var("Z")]),
            ],
        ),
        fact(compound("parent", vec![atom("alice"), atom("bob")])),
        fact(compound("parent", vec![atom("bob"), atom("charlie")])),
    ]);

    let goals = vec![compound("grandparent", vec![atom("alice"), var("Z")])];
    let results = resolve(&goals, prog, Substitutions::new());

    assert_eq!(results.len(), 1);
    assert_eq!(results[0].get("Z"), Some(&atom("charlie")));
}

#[test]
fn test_rule_multiple_solutions() {
    // Program:
    //   parent(alice, bob).
    //   parent(alice, charlie).
    //   parent(bob, dave).
    //   parent(charlie, eve).
    //   grandparent(X, Z) :- parent(X, Y), parent(Y, Z).
    // Query: grandparent(alice, Z).
    let prog = program(vec![
        fact(compound("parent", vec![atom("alice"), atom("bob")])),
        fact(compound("parent", vec![atom("alice"), atom("charlie")])),
        fact(compound("parent", vec![atom("bob"), atom("dave")])),
        fact(compound("parent", vec![atom("charlie"), atom("eve")])),
        clause(
            compound("grandparent", vec![var("X"), var("Z")]),
            vec![
                compound("parent", vec![var("X"), var("Y")]),
                compound("parent", vec![var("Y"), var("Z")]),
            ],
        ),
    ]);

    let goals = vec![compound("grandparent", vec![atom("alice"), var("Z")])];
    let results = resolve(&goals, prog, Substitutions::new());

    assert_eq!(results.len(), 2);
}

// ============================================================================
// Compound Terms (Nested Structures)
// ============================================================================

#[test]
fn test_compound_term_unification() {
    // Program: data(point(1, 2)).
    // Query: data(point(X, Y)).
    let prog = program(vec![fact(compound(
        "data",
        vec![compound("point", vec![atom("1"), atom("2")])],
    ))]);

    let goals = vec![compound(
        "data",
        vec![compound("point", vec![var("X"), var("Y")])],
    )];
    let results = resolve(&goals, prog, Substitutions::new());

    assert_eq!(results.len(), 1);
    assert_eq!(results[0].get("X"), Some(&atom("1")));
    assert_eq!(results[0].get("Y"), Some(&atom("2")));
}

#[test]
fn test_nested_compound_terms() {
    // Program: tree(node(node(leaf, leaf), leaf)).
    // Query: tree(X).
    let leaf = atom("leaf");
    let prog = program(vec![fact(compound(
        "tree",
        vec![compound(
            "node",
            vec![compound("node", vec![leaf.clone(), leaf.clone()]), leaf],
        )],
    ))]);

    let goals = vec![compound("tree", vec![var("X")])];
    let results = resolve(&goals, prog, Substitutions::new());

    assert_eq!(results.len(), 1);
}

// ============================================================================
// Empty Goals and Edge Cases
// ============================================================================

#[test]
fn test_empty_goal_list() {
    let prog = program(vec![]);
    let goals = vec![];
    let results = resolve(&goals, prog, Substitutions::new());

    // Empty goals should succeed immediately
    assert_eq!(results.len(), 1);
    assert_eq!(results[0], Substitutions::new());
}

#[test]
fn test_goal_not_in_program() {
    let prog = program(vec![fact(atom("foo"))]);
    let goals = vec![atom("bar")];
    let results = resolve(&goals, prog, Substitutions::new());

    assert_eq!(results.len(), 0);
}

#[test]
fn test_empty_program() {
    let prog = program(vec![]);
    let goals = vec![atom("foo")];
    let results = resolve(&goals, prog, Substitutions::new());

    assert_eq!(results.len(), 0);
}

// ============================================================================
// Multiple Goals in Query
// ============================================================================

#[test]
fn test_multiple_goals_conjunction() {
    // Program:
    //   parent(alice, bob).
    //   parent(bob, charlie).
    // Query: parent(alice, X), parent(X, Y).
    let prog = program(vec![
        fact(compound("parent", vec![atom("alice"), atom("bob")])),
        fact(compound("parent", vec![atom("bob"), atom("charlie")])),
    ]);

    let goals = vec![
        compound("parent", vec![atom("alice"), var("X")]),
        compound("parent", vec![var("X"), var("Y")]),
    ];
    let results = resolve(&goals, prog, Substitutions::new());

    assert_eq!(results.len(), 1);
    assert_eq!(results[0].get("X"), Some(&atom("bob")));
    assert_eq!(results[0].get("Y"), Some(&atom("charlie")));
}

#[test]
fn test_multiple_goals_fails_on_second() {
    // Program:
    //   parent(alice, bob).
    // Query: parent(alice, X), parent(X, Y).
    let prog = program(vec![fact(compound(
        "parent",
        vec![atom("alice"), atom("bob")],
    ))]);

    let goals = vec![
        compound("parent", vec![atom("alice"), var("X")]),
        compound("parent", vec![var("X"), var("Y")]),
    ];
    let results = resolve(&goals, prog, Substitutions::new());

    // X binds to bob, but parent(bob, Y) has no solutions
    assert_eq!(results.len(), 0);
}

#[test]
fn test_multiple_goals_backtrack() {
    // Program:
    //   num(1).
    //   num(2).
    //   num(3).
    // Query: num(X), num(Y), X < Y (conceptually; we'll check bindings).
    let prog = program(vec![
        fact(atom("num(1)")),
        fact(atom("num(2)")),
        fact(atom("num(3)")),
    ]);

    // This is a simplification; real backtracking would involve constraint solving.
    // Here we just check that we get all combinations.
    let goals = vec![atom("num(1)"), atom("num(2)")];
    let results = resolve(&goals, prog, Substitutions::new());

    // Both goals must match facts in the program
    // num(1) matches, then num(2) matches
    assert!(results.len() >= 0); // Depends on implementation
}

// ============================================================================
// Pre-existing Substitutions
// ============================================================================

#[test]
fn test_with_existing_substitution() {
    // Program: parent(alice, bob).
    // Query: parent(alice, Y) with X = alice already bound.
    let prog = program(vec![fact(compound(
        "parent",
        vec![atom("alice"), atom("bob")],
    ))]);
    let mut subs = Substitutions::new();
    subs.insert("X".to_string(), atom("alice"));

    let goals = vec![compound("parent", vec![var("X"), var("Y")])];
    let results = resolve(&goals, prog, subs);

    assert_eq!(results.len(), 1);
    assert_eq!(results[0].get("X"), Some(&atom("alice")));
    assert_eq!(results[0].get("Y"), Some(&atom("bob")));
}

#[test]
fn test_with_conflicting_substitution() {
    // Program: parent(alice, bob).
    // Query: parent(alice, Y) with X = charlie already bound (mismatch).
    let prog = program(vec![fact(compound(
        "parent",
        vec![atom("alice"), atom("bob")],
    ))]);
    let mut subs = Substitutions::new();
    subs.insert("X".to_string(), atom("charlie"));

    let goals = vec![compound("parent", vec![var("X"), var("Y")])];
    let results = resolve(&goals, prog, subs);

    // X is already bound to charlie, but the fact has alice, so no match
    assert_eq!(results.len(), 0);
}

// ============================================================================
// Atoms (Zero-Arity Predicates)
// ============================================================================

#[test]
fn test_simple_atom_fact() {
    let prog = program(vec![fact(atom("true"))]);
    let goals = vec![atom("true")];
    let results = resolve(&goals, prog, Substitutions::new());

    assert_eq!(results.len(), 1);
}

#[test]
fn test_atom_rule() {
    // Program:
    //   success :- true.
    //   true.
    let prog = program(vec![
        clause(atom("success"), vec![atom("true")]),
        fact(atom("true")),
    ]);

    let goals = vec![atom("success")];
    let results = resolve(&goals, prog, Substitutions::new());

    assert_eq!(results.len(), 1);
}

// ============================================================================
// Complex Rule Chains
// ============================================================================

#[test]
fn test_three_level_rule_chain() {
    // Program:
    //   ancestor(X, Y) :- parent(X, Y).
    //   ancestor(X, Z) :- parent(X, Y), ancestor(Y, Z).
    //   parent(alice, bob).
    //   parent(bob, charlie).
    //   parent(charlie, dave).
    // Query: ancestor(alice, dave).
    let prog = program(vec![
        clause(
            compound("ancestor", vec![var("X"), var("Y")]),
            vec![compound("parent", vec![var("X"), var("Y")])],
        ),
        clause(
            compound("ancestor", vec![var("X"), var("Z")]),
            vec![
                compound("parent", vec![var("X"), var("Y")]),
                compound("ancestor", vec![var("Y"), var("Z")]),
            ],
        ),
        fact(compound("parent", vec![atom("alice"), atom("bob")])),
        fact(compound("parent", vec![atom("bob"), atom("charlie")])),
        fact(compound("parent", vec![atom("charlie"), atom("dave")])),
    ]);

    let goals = vec![compound("ancestor", vec![atom("alice"), atom("dave")])];
    let results = resolve(&goals, prog, Substitutions::new());

    assert!(results.len() > 0);
}

// ============================================================================
// Variable Renaming (When Rules Are Used Multiple Times)
// ============================================================================

#[test]
fn test_variable_renaming_in_rules() {
    // Ensures that when a rule is used, its variables are properly renamed
    // to avoid conflicts.
    // Program:
    //   double(X, Y) :- Y = X + X (conceptually).
    //   ...
    // This is harder to test without arithmetic, but the pattern is important.
    let prog = program(vec![clause(
        compound("rel", vec![var("X"), var("X")]),
        vec![],
    )]);

    let goals = vec![compound("rel", vec![atom("a"), atom("a")])];
    let results = resolve(&goals, prog, Substitutions::new());

    assert_eq!(results.len(), 1);
}
