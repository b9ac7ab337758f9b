use prolog_sld::ast::{Clause, Term};
use prolog_sld::parser::{parse, program};
use prolog_sld::sld::{rename_vars_in_term, resolve, resolve_with_suffix};
use prolog_sld::subst::Substitutions;
use prolog_sld::text::is_whitespace;
use prolog_sld::unify::{apply, compose, unify, var_occurs};

fn atom(s: &str) -> Term {
    Term::Atom(s.to_string())
}

fn var(s: &str) -> Term {
    Term::Var(s.to_string())
}

fn compound(functor: &str, args: Vec<Term>) -> Term {
    Term::Compound(functor.to_string(), args)
}

fn subst(bindings: Vec<(&str, Term)>) -> Substitutions {
    let mut s = Substitutions::new();
    for (k, v) in bindings {
        s.insert(k.to_string(), v);
    }
    s
}

// ---------------------------------------------------------------------------
// Substitutions
// ---------------------------------------------------------------------------

#[test]
fn subst_insert_get_len() {
    let mut s = Substitutions::new();
    assert!(s.is_empty());
    assert_eq!(s.insert("X".to_string(), atom("a")), None);
    assert_eq!(s.insert("Y".to_string(), atom("b")), None);
    assert_eq!(s.len(), 2);
    assert_eq!(s.insert("X".to_string(), atom("c")), Some(atom("a")));
    assert_eq!(s.len(), 2);
    assert_eq!(s.get("X"), Some(&atom("c")));
    assert_eq!(s.get("Z"), None);
    assert!(s.contains_key("Y"));
    assert!(!s.contains_key("Z"));
}

#[test]
fn subst_equality_ignores_order() {
    let a = subst(vec![("X", atom("a")), ("Y", atom("b"))]);
    let b = subst(vec![("Y", atom("b")), ("X", atom("a"))]);
    let c = subst(vec![("Y", atom("b")), ("X", atom("c"))]);
    let d = subst(vec![("X", atom("a"))]);
    assert_eq!(a, b);
    assert_ne!(a, c);
    assert_ne!(a, d);
    assert_ne!(d, a);
    assert_eq!(a.clone(), a);
}

#[test]
fn term_equality_and_clone() {
    let t = compound("f", vec![var("X"), compound("g", vec![atom("a")])]);
    assert_eq!(t.clone(), t);
    assert_ne!(t, compound("f", vec![var("X"), compound("g", vec![atom("b")])]));
    assert_ne!(t, compound("f", vec![var("X")]));
    assert_ne!(atom("a"), var("a"));
}

// ---------------------------------------------------------------------------
// apply, var_occurs, compose
// ---------------------------------------------------------------------------

#[test]
fn apply_replaces_bound_variables_once() {
    let s = subst(vec![("X", var("Y")), ("Y", atom("a"))]);
    // one application: X becomes Y, not a
    assert_eq!(apply(s.clone(), &var("X")), var("Y"));
    assert_eq!(apply(s.clone(), &var("Y")), atom("a"));
    assert_eq!(apply(s.clone(), &var("Z")), var("Z"));
    assert_eq!(
        apply(s, &compound("f", vec![var("X"), var("Y"), atom("b")])),
        compound("f", vec![var("Y"), atom("a"), atom("b")])
    );
}

#[test]
fn apply_empty_and_ground_unchanged() {
    let t = compound("f", vec![var("X"), compound("g", vec![var("Y")])]);
    assert_eq!(apply(Substitutions::new(), &t), t);
    let g = compound("f", vec![atom("a"), compound("g", vec![atom("b")])]);
    assert_eq!(apply(subst(vec![("X", atom("c"))]), &g), g);
}

#[test]
fn var_occurs_cases() {
    let t = compound("f", vec![atom("X"), compound("g", vec![var("Y")])]);
    assert!(var_occurs("Y", &t));
    assert!(!var_occurs("X", &t));
    assert!(var_occurs("X", &var("X")));
    assert!(!var_occurs("X", &atom("X")));
}

#[test]
fn compose_keeps_first_names() {
    let s1 = subst(vec![("X", var("Y")), ("Z", compound("f", vec![var("Y")]))]);
    let s2 = subst(vec![("Y", atom("a")), ("W", atom("b"))]);
    let c = compose(s1.clone(), s2);
    assert_eq!(c, subst(vec![("X", atom("a")), ("Z", compound("f", vec![atom("a")]))]));
    assert_eq!(c.get("W"), None);
    assert_eq!(compose(s1.clone(), Substitutions::new()), s1);
}

// ---------------------------------------------------------------------------
// unify
// ---------------------------------------------------------------------------

#[test]
fn unify_term_with_itself_keeps_substitution() {
    let s = subst(vec![("Q", atom("q"))]);
    let t = compound("f", vec![var("X"), compound("g", vec![var("Y"), atom("a")])]);
    assert_eq!(unify(s.clone(), &t, &t), Some(s));
}

#[test]
fn unify_ground_terms_decides_equality() {
    let a = compound("f", vec![atom("a"), atom("b")]);
    let b = compound("f", vec![atom("a"), atom("c")]);
    assert_eq!(unify(Substitutions::new(), &a, &a), Some(Substitutions::new()));
    assert_eq!(unify(Substitutions::new(), &a, &b), None);
    assert_eq!(unify(Substitutions::new(), &atom("a"), &atom("b")), None);
    assert_eq!(unify(Substitutions::new(), &atom("f"), &compound("f", vec![])), None);
    assert_eq!(
        unify(Substitutions::new(), &compound("f", vec![atom("a")]), &compound("g", vec![atom("a")])),
        None
    );
    assert_eq!(
        unify(Substitutions::new(), &compound("f", vec![atom("a")]), &compound("f", vec![atom("a"), atom("a")])),
        None
    );
}

#[test]
fn unify_matching_against_ground_term() {
    let s = subst(vec![("Y", atom("b"))]);
    let t1 = compound("f", vec![var("X"), var("Y"), var("X")]);
    let t2 = compound("f", vec![atom("a"), atom("b"), atom("a")]);
    let r = unify(s, &t1, &t2).unwrap();
    assert_eq!(r, subst(vec![("X", atom("a")), ("Y", atom("b"))]));
    assert_eq!(apply(r, &t1), t2);
    let t3 = compound("f", vec![atom("a"), atom("b"), atom("c")]);
    assert_eq!(unify(subst(vec![("Y", atom("b"))]), &t1, &t3), None);
}

#[test]
fn unify_binds_variable_to_variable() {
    let r = unify(Substitutions::new(), &var("X"), &var("Y")).unwrap();
    assert_eq!(r, subst(vec![("X", var("Y"))]));
    let r = unify(Substitutions::new(), &atom("a"), &var("Y")).unwrap();
    assert_eq!(r, subst(vec![("Y", atom("a"))]));
    assert_eq!(unify(Substitutions::new(), &var("X"), &var("X")), Some(Substitutions::new()));
}

#[test]
fn unify_bound_variable_uses_binding() {
    let s = subst(vec![("X", atom("a"))]);
    assert_eq!(unify(s.clone(), &var("X"), &atom("a")), Some(s.clone()));
    assert_eq!(unify(s.clone(), &var("X"), &atom("b")), None);
    let r = unify(s, &var("X"), &var("Z")).unwrap();
    assert_eq!(r.get("Z"), Some(&atom("a")));
}

// ---------------------------------------------------------------------------
// renaming
// ---------------------------------------------------------------------------

#[test]
fn rename_numbers_in_decimal() {
    let t = compound("f", vec![var("X"), compound("g", vec![var("Y"), atom("a")])]);
    assert_eq!(
        rename_vars_in_term(&t, 10),
        compound("f", vec![var("X_10"), compound("g", vec![var("Y_10"), atom("a")])])
    );
    assert_eq!(rename_vars_in_term(&var("A"), 0), var("A_0"));
    assert_eq!(
        rename_vars_in_term(&var("A"), usize::MAX),
        var(&format!("A_{}", usize::MAX))
    );
    let g = compound("f", vec![atom("a")]);
    assert_eq!(rename_vars_in_term(&g, 7), g);
}

#[test]
fn rename_distinct_suffixes_distinct_terms() {
    let t = compound("f", vec![atom("a"), var("X")]);
    for n in [0usize, 1, 9, 10, 11, 99, 100, 12345] {
        for m in [0usize, 1, 9, 10, 11, 99, 100, 12345] {
            assert_eq!(rename_vars_in_term(&t, n) == rename_vars_in_term(&t, m), n == m);
        }
    }
}

// ---------------------------------------------------------------------------
// resolution
// ---------------------------------------------------------------------------

#[test]
fn resolve_no_goals_answers_given_substitution() {
    let s = subst(vec![("X", atom("a"))]);
    let results = resolve(&[], vec![Clause::fact(atom("p"))], s.clone());
    assert_eq!(results, vec![s]);
}

#[test]
fn resolve_fact_in_program_is_answered() {
    let prog = vec![
        Clause::rule(atom("p"), vec![atom("q")]),
        Clause::fact(compound("r", vec![atom("a")])),
    ];
    let s = subst(vec![("X", atom("b"))]);
    let results = resolve(&[compound("r", vec![atom("a")])], prog, s.clone());
    assert_eq!(results, vec![s]);
}

#[test]
fn resolve_answers_in_program_order() {
    let prog = vec![
        Clause::fact(compound("p", vec![atom("c")])),
        Clause::fact(compound("p", vec![atom("a")])),
        Clause::fact(compound("p", vec![atom("b")])),
    ];
    let results = resolve(&[compound("p", vec![var("X")])], prog, Substitutions::new());
    let xs: Vec<Term> = results.iter().map(|r| r.get("X").unwrap().clone()).collect();
    assert_eq!(xs, vec![atom("c"), atom("a"), atom("b")]);
}

#[test]
fn resolve_with_suffix_renames_with_given_suffix() {
    // p(Y) :- q(Y).  q(a).
    let prog = vec![
        Clause::rule(compound("p", vec![var("Y")]), vec![compound("q", vec![var("Y")])]),
        Clause::fact(compound("q", vec![atom("a")])),
    ];
    let results = resolve_with_suffix(&[compound("p", vec![var("Z")])], prog, Substitutions::new(), 7);
    assert_eq!(results.len(), 1);
    assert_eq!(results[0].get("Z"), Some(&atom("a")));
    assert!(results[0].contains_key("Y_7"));
    assert!(!results[0].contains_key("Y_0"));
}

// ---------------------------------------------------------------------------
// printing and parsing
// ---------------------------------------------------------------------------

#[test]
fn print_terms_and_clauses() {
    assert_eq!(compound("f", vec![atom("a"), var("X")]).to_string(), "f(a, X)");
    assert_eq!(compound("f", vec![]).to_string(), "f()");
    assert_eq!(Clause::fact(atom("p")).to_string(), "p.");
    assert_eq!(
        Clause::rule(atom("h"), vec![atom("a"), compound("b", vec![var("X")])]).to_string(),
        "h :- a, b(X)."
    );
    assert_eq!(Clause::rule(atom("h"), vec![]).to_string(), "h.");
}

#[test]
fn parse_accepts_programs() {
    let p = parse("  parent(john, X).\n\tq :- r(Y,Z),s.  ").unwrap();
    assert_eq!(
        p,
        vec![
            Clause::fact(compound("parent", vec![atom("john"), var("X")])),
            Clause::rule(
                atom("q"),
                vec![compound("r", vec![var("Y"), var("Z")]), atom("s")]
            ),
        ]
    );
    assert_eq!(parse("").unwrap(), vec![]);
    assert_eq!(parse(" \n ").unwrap(), vec![]);
    // a variable head, an empty body, an empty argument list, a trailing comma
    assert_eq!(parse("X.").unwrap(), vec![Clause::fact(var("X"))]);
    assert_eq!(parse("p :- .").unwrap(), vec![Clause::rule(atom("p"), vec![])]);
    assert_eq!(parse("f().").unwrap(), vec![Clause::fact(compound("f", vec![]))]);
    assert_eq!(
        parse("f(a,).").unwrap(),
        vec![Clause::fact(compound("f", vec![atom("a")]))]
    );
    assert_eq!(
        parse("p :- a, b,.").unwrap(),
        vec![Clause::rule(atom("p"), vec![atom("a"), atom("b")])]
    );
    // Unicode white space
    assert_eq!(parse("\u{3000}p.\u{2029}").unwrap(), vec![Clause::fact(atom("p"))]);
    assert_eq!(parse("_x1.").unwrap(), vec![Clause::fact(var("_x1"))]);
}

#[test]
fn parse_rejects_with_one_error() {
    let err = vec!["error".to_string()];
    assert_eq!(parse("foo("), Err(err.clone()));
    assert_eq!(parse("p"), Err(err.clone()));
    assert_eq!(parse("f(a, )."), Err(err.clone()));
    assert_eq!(parse("f( )."), Err(err.clone()));
    assert_eq!(parse("f (a)."), Err(err.clone()));
    assert_eq!(parse("p : - q."), Err(err.clone()));
    assert_eq!(parse("Foo(a)."), Err(err.clone()));
    assert_eq!(parse("1."), Err(err.clone()));
    assert_eq!(parse("p. q"), Err(err.clone()));
    assert_eq!(parse("f(a,,)."), Err(err));
}

#[test]
fn program_parser_parses_like_parse() {
    let text = "a(b). c :- d.";
    assert_eq!(program().parse(text), parse(text));
}

#[test]
fn parse_of_printed_program_gives_it_back() {
    let programs = vec![
        vec![],
        vec![Clause::fact(atom("p"))],
        vec![
            Clause::rule(
                compound("anc", vec![var("X"), var("Z")]),
                vec![
                    compound("par", vec![var("X"), var("Y")]),
                    compound("anc", vec![var("Y"), var("Z")]),
                ],
            ),
            Clause::fact(compound("f", vec![compound("g", vec![]), compound("h", vec![var("_A1"), atom("b2")])])),
        ],
    ];
    for p in programs {
        let text = p.iter().map(|c| c.to_string()).collect::<Vec<_>>().join("\n");
        assert_eq!(parse(&text), Ok(p));
    }
}

#[test]
fn whitespace_matches_std() {
    for n in 0u32..=0x10FFFF {
        if let Some(c) = char::from_u32(n) {
            assert_eq!(is_whitespace(c), c.is_whitespace(), "{:?}", c);
        }
    }
}

#[test]
fn resolve_facts_answers_turn_goals_into_facts() {
    let facts = vec![
        compound("edge", vec![atom("a"), atom("b")]),
        compound("edge", vec![atom("b"), atom("c")]),
        compound("edge", vec![atom("a"), atom("c")]),
    ];
    let prog: Vec<Clause> = facts.iter().map(|f| Clause::fact(f.clone())).collect();
    let goals = vec![
        compound("edge", vec![var("X"), var("Y")]),
        compound("edge", vec![var("Y"), var("Z")]),
    ];
    let results = resolve(&goals, prog, Substitutions::new());
    assert_eq!(results, vec![subst(vec![("X", atom("a")), ("Y", atom("b")), ("Z", atom("c"))])]);
    for r in &results {
        for g in &goals {
            assert!(facts.contains(&apply(r.clone(), g)));
        }
    }
}

#[test]
fn resolve_facts_finds_every_solution() {
    let prog = vec![
        Clause::fact(compound("edge", vec![atom("a"), atom("b")])),
        Clause::fact(compound("edge", vec![atom("b"), atom("c")])),
        Clause::fact(compound("edge", vec![atom("a"), atom("c")])),
    ];
    let results = resolve(&[compound("edge", vec![atom("a"), var("X")])], prog, Substitutions::new());
    assert_eq!(
        results,
        vec![subst(vec![("X", atom("b"))]), subst(vec![("X", atom("c"))])]
    );
}
