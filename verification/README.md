# prolog_sld

A small Prolog-like language: terms and clauses, a printer and a parser for
programs, one-step substitution, unification with occurs check, and SLD
resolution. The library is verified with Verus.

Layout:

- `src/ast.rs` — terms and clauses and their mathematical models.
- `src/subst.rs` — substitutions, modelled as finite maps from names to terms.
- `src/unify.rs` — applying a substitution, the occurs check, unification and
  composition.
- `src/sld.rs` — renaming clause variables and SLD resolution.
- `src/text.rs` — character classes and decimal numerals.
- `src/show.rs` — the printed form of terms and clauses.
- `src/parser.rs` — the grammar of programs and its parser.
- `src/roundtrip.rs` — parsing the printed form of a program gives it back.
- `src/laws.rs` — properties of unification, renaming and resolution.
- `src/unifier.rs` — following bindings to the end, acyclic substitutions, and
  what a unifier makes equal.
- `src/semantics.rs` — terms under a valuation, derivability from a program,
  and the meaning of unification and resolution answers.
- `src/completeness.rs` — every solution that the program derives is covered
  by an answer of resolution.
- `app/main.rs` — reads `examples/family.pl` and prints its clauses.

Unification and resolution do not stop on every input; their contracts are
stated over a depth bound and apply where the computation stops.
`unify_within` and `resolve_within` take the bound as an argument and return
`None` where it is not enough. `laws.rs` shows that matching against ground
terms, and resolution against programs of ground facts, always stop.
