//! The concrete syntax of programs and its parser.
//!
//! ```text
//! program ::= ws clause* ws END
//! clause  ::= ws (term ":-" body "." | term ".") ws
//! body    ::= ws items ws
//! term    ::= ws (VAR | ATOM "(" items ")" | ATOM) ws
//! items   ::= (term ("," term)* ","?)?
//! VAR     ::= [_A-Z][a-zA-Z0-9_]*
//! ATOM    ::= [a-z][a-zA-Z0-9_]*
//! ```
//!
//! Alternatives are tried in order and the first that succeeds is taken; names are read as far
//! as they go; `ws` is any run of white space (`char::is_whitespace`).
use vstd::prelude::*;
use vstd::std_specs::iter::IteratorSpec;

pub use crate::ast::Program;
use crate::ast::{clauses_view, terms_view, Clause, SpecClause, SpecTerm, Term};
use crate::text::{
    is_ident_char, is_lower, is_var_start, is_whitespace, spec_is_ident_char, spec_is_lower,
    spec_is_var_start, spec_is_whitespace,
};

verus! {

broadcast use vstd::string::group_string_axioms;

/// The end of the run of white space that starts at `i`.
pub open spec fn skip_ws(s: Seq<char>, i: int) -> int
    decreases s.len() - i,
{
    if 0 <= i < s.len() && spec_is_whitespace(s[i]) {
        skip_ws(s, i + 1)
    } else {
        i
    }
}

/// The end of the run of `[a-zA-Z0-9_]` that starts at `i`.
pub open spec fn ident_end(s: Seq<char>, i: int) -> int
    decreases s.len() - i,
{
    if 0 <= i < s.len() && spec_is_ident_char(s[i]) {
        ident_end(s, i + 1)
    } else {
        i
    }
}

/// A variable name at `i`, and the position after it.
pub open spec fn p_var(s: Seq<char>, i: int) -> Option<(Seq<char>, int)> {
    if 0 <= i < s.len() && spec_is_var_start(s[i]) {
        Some((s.subrange(i, ident_end(s, i + 1)), ident_end(s, i + 1)))
    } else {
        None
    }
}

/// An atom name at `i`, and the position after it.
pub open spec fn p_atom(s: Seq<char>, i: int) -> Option<(Seq<char>, int)> {
    if 0 <= i < s.len() && spec_is_lower(s[i]) {
        Some((s.subrange(i, ident_end(s, i + 1)), ident_end(s, i + 1)))
    } else {
        None
    }
}

/// A term at `i`, white space around it included, and the position after it.
pub open spec fn p_term(s: Seq<char>, i: int) -> Option<(SpecTerm, int)>
    decreases s.len() - i, 2nat,
{
    if i < 0 || i > s.len() {
        None
    } else {
        let p = skip_ws(s, i);
        proof {
            lemma_skip_ws(s, i);
        }
        match p_inner(s, p) {
            Some((t, q)) => Some((t, skip_ws(s, q))),
            None => None,
        }
    }
}

/// A variable, a compound term or an atom at `p`, in that order of preference.
pub open spec fn p_inner(s: Seq<char>, p: int) -> Option<(SpecTerm, int)>
    decreases s.len() - p, 1nat,
{
    match p_var(s, p) {
        Some((v, q)) => Some((SpecTerm::Var(v), q)),
        None => match p_atom(s, p) {
            None => None,
            Some((name, q)) => {
                let compound = if p < q < s.len() && s[q] == '(' {
                    let (args, r) = p_items(s, q + 1, Seq::empty(), true);
                    if 0 <= r < s.len() && s[r] == ')' {
                        Some((SpecTerm::Compound(name, args), r + 1))
                    } else {
                        None
                    }
                } else {
                    None
                };
                match compound {
                    Some(c) => Some(c),
                    None => Some((SpecTerm::Atom(name), q)),
                }
            },
        },
    }
}

/// Terms separated by commas, with an optional trailing comma, from `i`; the terms read so far
/// are `acc`, and `first` tells whether none has been read yet. Always succeeds.
pub open spec fn p_items(s: Seq<char>, i: int, acc: Seq<SpecTerm>, first: bool) -> (Seq<
    SpecTerm,
>, int)
    decreases s.len() - i, 3nat,
{
    if first {
        match p_term(s, i) {
            None => (acc, i),
            Some((t, k)) => if i < k <= s.len() {
                p_items(s, k, acc.push(t), false)
            } else {
                (acc.push(t), k)
            },
        }
    } else if 0 <= i < s.len() && s[i] == ',' {
        match p_term(s, i + 1) {
            None => (acc, i + 1),
            Some((t, k)) => if i < k <= s.len() {
                p_items(s, k, acc.push(t), false)
            } else {
                (acc.push(t), k)
            },
        }
    } else {
        (acc, i)
    }
}

/// A rule body at `i`: items with white space around them.
pub open spec fn p_body(s: Seq<char>, i: int) -> (Seq<SpecTerm>, int) {
    let (items, r) = p_items(s, skip_ws(s, i), Seq::empty(), true);
    (items, skip_ws(s, r))
}

/// A clause at `i`, white space around it included: a rule if one can be read, else a fact.
pub open spec fn p_clause(s: Seq<char>, i: int) -> Option<(SpecClause, int)> {
    let p = skip_ws(s, i);
    let r = match p_term(s, p) {
        None => None,
        Some((h, q)) => {
            let fact = if 0 <= q < s.len() && s[q] == '.' {
                Some((SpecClause { head: h, body: Seq::empty() }, q + 1))
            } else {
                None
            };
            if 0 <= q && q + 1 < s.len() && s[q] == ':' && s[q + 1] == '-' {
                let (body, r) = p_body(s, q + 2);
                if 0 <= r < s.len() && s[r] == '.' {
                    Some((SpecClause { head: h, body }, r + 1))
                } else {
                    fact
                }
            } else {
                fact
            }
        },
    };
    match r {
        Some((c, e)) => Some((c, skip_ws(s, e))),
        None => None,
    }
}

/// Clauses one after the other from `i`, as many as can be read; `acc` holds those read so far.
pub open spec fn p_clauses(s: Seq<char>, i: int, acc: Seq<SpecClause>) -> (Seq<SpecClause>, int)
    decreases s.len() - i,
{
    match p_clause(s, i) {
        None => (acc, i),
        Some((c, j)) => if i < j <= s.len() {
            p_clauses(s, j, acc.push(c))
        } else {
            (acc.push(c), j)
        },
    }
}

/// The program that `s` spells, if it spells one.
pub open spec fn spec_parse(s: Seq<char>) -> Option<Seq<SpecClause>> {
    let (cs, q) = p_clauses(s, skip_ws(s, 0), Seq::empty());
    if skip_ws(s, q) == s.len() {
        Some(cs)
    } else {
        None
    }
}

pub proof fn lemma_skip_ws(s: Seq<char>, i: int)
    requires
        0 <= i <= s.len(),
    ensures
        i <= skip_ws(s, i) <= s.len(),
        skip_ws(s, i) < s.len() ==> !spec_is_whitespace(s[skip_ws(s, i)]),
        forall|k: int| i <= k < skip_ws(s, i) ==> spec_is_whitespace(#[trigger] s[k]),
    decreases s.len() - i,
{
    if i < s.len() && spec_is_whitespace(s[i]) {
        lemma_skip_ws(s, i + 1);
    }
}

pub proof fn lemma_ident_end(s: Seq<char>, i: int)
    requires
        0 <= i <= s.len(),
    ensures
        i <= ident_end(s, i) <= s.len(),
        ident_end(s, i) < s.len() ==> !spec_is_ident_char(s[ident_end(s, i)]),
        forall|k: int| i <= k < ident_end(s, i) ==> spec_is_ident_char(#[trigger] s[k]),
    decreases s.len() - i,
{
    if i < s.len() && spec_is_ident_char(s[i]) {
        lemma_ident_end(s, i + 1);
    }
}

/// Reading a term moves forward; reading items never moves back.
pub proof fn lemma_p_term_progress(s: Seq<char>, i: int)
    ensures
        p_term(s, i) matches Some((t, j)) ==> i < j <= s.len(),
    decreases s.len() - i, 2nat,
{
    if 0 <= i <= s.len() {
        lemma_skip_ws(s, i);
        let p = skip_ws(s, i);
        lemma_p_inner_progress(s, p);
        if let Some((t, q)) = p_inner(s, p) {
            lemma_skip_ws(s, q);
        }
    }
}

pub proof fn lemma_p_inner_progress(s: Seq<char>, p: int)
    ensures
        p_inner(s, p) matches Some((t, q)) ==> p < q <= s.len(),
    decreases s.len() - p, 1nat,
{
    if 0 <= p < s.len() {
        lemma_ident_end(s, p + 1);
        if let Some((name, q)) = p_atom(s, p) {
            if p < q < s.len() && s[q] == '(' {
                lemma_p_items_progress(s, q + 1, Seq::empty(), true);
            }
        }
    }
}

pub proof fn lemma_p_items_progress(s: Seq<char>, i: int, acc: Seq<SpecTerm>, first: bool)
    ensures
        0 <= i <= s.len() ==> i <= p_items(s, i, acc, first).1 <= s.len(),
    decreases s.len() - i, 3nat,
{
    if first {
        lemma_p_term_progress(s, i);
        if let Some((t, k)) = p_term(s, i) {
            if i < k <= s.len() {
                lemma_p_items_progress(s, k, acc.push(t), false);
            }
        }
    } else if 0 <= i < s.len() && s[i] == ',' {
        lemma_p_term_progress(s, i + 1);
        if let Some((t, k)) = p_term(s, i + 1) {
            if i < k <= s.len() {
                lemma_p_items_progress(s, k, acc.push(t), false);
            }
        }
    }
}

pub proof fn lemma_p_clause_progress(s: Seq<char>, i: int)
    requires
        0 <= i <= s.len(),
    ensures
        p_clause(s, i) matches Some((c, j)) ==> i < j <= s.len(),
{
    lemma_skip_ws(s, i);
    let p = skip_ws(s, i);
    lemma_p_term_progress(s, p);
    if let Some((h, q)) = p_term(s, p) {
        if 0 <= q && q + 1 < s.len() && s[q] == ':' && s[q + 1] == '-' {
            lemma_skip_ws(s, q + 2);
            lemma_p_items_progress(s, skip_ws(s, q + 2), Seq::empty(), true);
            let (items, r) = p_items(s, skip_ws(s, q + 2), Seq::empty(), true);
            lemma_skip_ws(s, r);
            let r2 = skip_ws(s, r);
            if 0 <= r2 < s.len() && s[r2] == '.' {
                lemma_skip_ws(s, r2 + 1);
            }
        }
        if 0 <= q < s.len() && s[q] == '.' {
            lemma_skip_ws(s, q + 1);
        }
    }
}

/// The characters of `input`, in order.
fn to_chars(input: &str) -> (r: Vec<char>)
    ensures
        r@ == input@,
{
    let mut it = input.chars();
    let mut out: Vec<char> = Vec::new();
    loop
        invariant
            out@ + it.remaining() == input@,
            it.obeys_prophetic_iter_laws(),
            it.decrease() is Some,
        decreases it.decrease()->0,
    {
        match it.next() {
            Some(c) => {
                out.push(c);
                proof {
                    assert(out@ + it.remaining() =~= input@);
                }
            },
            None => {
                proof {
                    assert(out@ =~= input@);
                }
                return out;
            },
        }
    }
}

fn skip_ws_exec(s: &Vec<char>, i: usize) -> (r: usize)
    requires
        i <= s.len(),
    ensures
        r == skip_ws(s@, i as int),
{
    let mut j = i;
    while j < s.len() && is_whitespace(s[j])
        invariant
            i <= j <= s.len(),
            skip_ws(s@, j as int) == skip_ws(s@, i as int),
        decreases s.len() - j,
    {
        j = j + 1;
    }
    j
}

fn ident_end_exec(s: &Vec<char>, i: usize) -> (r: usize)
    requires
        i <= s.len(),
    ensures
        r == ident_end(s@, i as int),
{
    let mut j = i;
    while j < s.len() && is_ident_char(s[j])
        invariant
            i <= j <= s.len(),
            ident_end(s@, j as int) == ident_end(s@, i as int),
        decreases s.len() - j,
    {
        j = j + 1;
    }
    j
}

/// The characters of `src` from `from` to `to`, as a string.
fn name_of(src: &str, s: &Vec<char>, from: usize, to: usize) -> (r: String)
    requires
        src@ == s@,
        from <= to <= s.len(),
    ensures
        r@ == s@.subrange(from as int, to as int),
{
    src.substring_char(from, to).to_owned()
}

fn parse_term(src: &str, s: &Vec<char>, i: usize) -> (r: Option<(Term, usize)>)
    requires
        src@ == s@,
        i <= s.len(),
    ensures
        match r {
            Some((t, j)) => p_term(s@, i as int) == Some((t@, j as int)),
            None => p_term(s@, i as int) is None,
        },
    decreases s.len() - i, 2nat,
{
    let p = skip_ws_exec(s, i);
    proof {
        lemma_skip_ws(s@, i as int);
    }
    match parse_inner(src, s, p) {
        Some((t, q)) => {
            proof {
                lemma_p_inner_progress(s@, p as int);
            }
            let j = skip_ws_exec(s, q);
            Some((t, j))
        },
        None => None,
    }
}

fn parse_inner(src: &str, s: &Vec<char>, p: usize) -> (r: Option<(Term, usize)>)
    requires
        src@ == s@,
        p <= s.len(),
    ensures
        match r {
            Some((t, q)) => p_inner(s@, p as int) == Some((t@, q as int)),
            None => p_inner(s@, p as int) is None,
        },
    decreases s.len() - p, 1nat,
{
    if p < s.len() && is_var_start(s[p]) {
        let e = ident_end_exec(s, p + 1);
        proof {
            lemma_ident_end(s@, p + 1);
        }
        return Some((Term::Var(name_of(src, s, p, e)), e));
    }
    if p < s.len() && is_lower(s[p]) {
        let q = ident_end_exec(s, p + 1);
        proof {
            lemma_ident_end(s@, p + 1);
        }
        if q < s.len() && s[q] == '(' {
            let (args, r) = parse_items(src, s, q + 1);
            if r < s.len() && s[r] == ')' {
                let name = name_of(src, s, p, q);
                return Some((Term::Compound(name, args), r + 1));
            }
        }
        return Some((Term::Atom(name_of(src, s, p, q)), q));
    }
    None
}

/// Items from `i`: see [`p_items`].
fn parse_items(src: &str, s: &Vec<char>, i: usize) -> (r: (Vec<Term>, usize))
    requires
        src@ == s@,
        i <= s.len(),
    ensures
        p_items(s@, i as int, Seq::empty(), true) == (terms_view(r.0@), r.1 as int),
        i <= r.1 <= s.len(),
    decreases s.len() - i, 3nat,
{
    let mut acc: Vec<Term> = Vec::new();
    let ghost goal = p_items(s@, i as int, Seq::empty(), true);
    proof {
        assert(terms_view(acc@) =~= Seq::empty());
    }
    let (t, k) = match parse_term(src, s, i) {
        None => {
            return (acc, i);
        },
        Some(x) => x,
    };
    proof {
        lemma_p_term_progress(s@, i as int);
        assert(terms_view(acc@.push(t)) =~= terms_view(acc@).push(t@));
    }
    acc.push(t);
    let mut j = k;
    while j < s.len() && s[j] == ','
        invariant
            src@ == s@,
            i < j <= s.len(),
            goal == p_items(s@, i as int, Seq::empty(), true),
            p_items(s@, j as int, terms_view(acc@), false) == goal,
        decreases s.len() - j,
    {
        match parse_term(src, s, j + 1) {
            None => {
                return (acc, j + 1);
            },
            Some((t, k)) => {
                proof {
                    lemma_p_term_progress(s@, j + 1);
                    assert(terms_view(acc@.push(t)) =~= terms_view(acc@).push(t@));
                }
                acc.push(t);
                j = k;
            },
        }
    }
    (acc, j)
}

/// A clause at `i`: see [`p_clause`].
fn parse_clause(src: &str, s: &Vec<char>, i: usize) -> (r: Option<(Clause, usize)>)
    requires
        src@ == s@,
        i <= s.len(),
    ensures
        match r {
            Some((c, j)) => p_clause(s@, i as int) == Some((c@, j as int)),
            None => p_clause(s@, i as int) is None,
        },
{
    proof {
        lemma_skip_ws(s@, i as int);
    }
    let p = skip_ws_exec(s, i);
    let (head, q) = match parse_term(src, s, p) {
        None => {
            return None;
        },
        Some(x) => x,
    };
    proof {
        lemma_p_term_progress(s@, p as int);
    }
    if q < s.len() && q + 1 < s.len() && s[q] == ':' && s[q + 1] == '-' {
        proof {
            lemma_skip_ws(s@, q + 2);
        }
        let b = skip_ws_exec(s, q + 2);
        let (body, r) = parse_items(src, s, b);
        proof {
            lemma_skip_ws(s@, r as int);
        }
        let r2 = skip_ws_exec(s, r);
        if r2 < s.len() && s[r2] == '.' {
            proof {
                lemma_skip_ws(s@, r2 + 1);
            }
            let e = skip_ws_exec(s, r2 + 1);
            return Some((Clause::rule(head, body), e));
        }
    }
    if q < s.len() && s[q] == '.' {
        proof {
            lemma_skip_ws(s@, q + 1);
        }
        let e = skip_ws_exec(s, q + 1);
        return Some((Clause::fact(head), e));
    }
    None
}

/// A parser of whole programs.
pub struct ProgramParser {}

impl ProgramParser {
    pub fn new() -> (r: Self) {
        ProgramParser {  }
    }

    /// Parses a whole program; on failure the one error message is "error".
    pub fn parse(&self, input: &str) -> (r: Result<Program, Vec<String>>)
        ensures
            match r {
                Ok(p) => spec_parse(input@) == Some(clauses_view(p@)),
                Err(e) => spec_parse(input@) is None && e@.len() == 1 && e@[0]@ == "error"@,
            },
    {
        parse(input)
    }
}

/// The parser of whole programs.
pub fn program() -> (r: ProgramParser) {
    ProgramParser {  }
}

/// Parses a whole program; on failure the one error message is "error".
pub fn parse(input: &str) -> (r: Result<Program, Vec<String>>)
    ensures
        match r {
            Ok(p) => spec_parse(input@) == Some(clauses_view(p@)),
            Err(e) => spec_parse(input@) is None && e@.len() == 1 && e@[0]@ == "error"@,
        },
{
    let s = to_chars(input);
    proof {
        lemma_skip_ws(s@, 0);
    }
    let p = skip_ws_exec(&s, 0);
    let mut cs: Vec<Clause> = Vec::new();
    let mut i = p;
    let ghost goal = p_clauses(s@, p as int, Seq::empty());
    proof {
        assert(clauses_view(cs@) =~= Seq::empty());
    }
    loop
        invariant
            input@ == s@,
            i <= s.len(),
            p_clauses(s@, i as int, clauses_view(cs@)) == goal,
            goal == p_clauses(s@, p as int, Seq::empty()),
        ensures
            i <= s.len(),
            p_clauses(s@, i as int, clauses_view(cs@)) == goal,
            p_clause(s@, i as int) is None,
        decreases s.len() - i,
    {
        match parse_clause(input, &s, i) {
            None => {
                break ;
            },
            Some((c, j)) => {
                proof {
                    lemma_p_clause_progress(s@, i as int);
                    assert(clauses_view(cs@.push(c)) =~= clauses_view(cs@).push(c@));
                }
                cs.push(c);
                i = j;
            },
        }
    }
    let e = skip_ws_exec(&s, i);
    if e == s.len() {
        Ok(cs)
    } else {
        let mut errs: Vec<String> = Vec::new();
        proof {
            reveal_strlit("error");
        }
        errs.push("error".to_owned());
        Err(errs)
    }
}

} // verus!
