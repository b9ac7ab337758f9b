//! Terms and clauses of a Prolog-like language, with their mathematical models.
use vstd::prelude::*;

verus! {

/// The mathematical model of a [`Term`]: every name is a sequence of characters.
pub enum SpecTerm {
    Atom(Seq<char>),
    Var(Seq<char>),
    Compound(Seq<char>, Seq<SpecTerm>),
}

/// The mathematical model of a [`Clause`].
pub struct SpecClause {
    pub head: SpecTerm,
    pub body: Seq<SpecTerm>,
}

/// A term: an atom, a variable, or a functor applied to arguments.
#[derive(Debug, Hash)]
pub enum Term {
    Atom(String),
    Var(String),
    Compound(String, Vec<Term>),
}

/// A clause `head :- body`; a fact has an empty body.
#[derive(Debug, Hash)]
pub struct Clause {
    pub head: Term,
    pub body: Vec<Term>,
}

/// A program is its list of clauses, in order.
pub type Program = Vec<Clause>;

pub open spec fn term_view(t: Term) -> SpecTerm
    decreases t,
{
    match t {
        Term::Atom(a) => SpecTerm::Atom(a@),
        Term::Var(v) => SpecTerm::Var(v@),
        Term::Compound(f, args) => SpecTerm::Compound(f@, terms_view(args@)),
    }
}

pub open spec fn terms_view(ts: Seq<Term>) -> Seq<SpecTerm>
    decreases ts,
{
    Seq::new(
        ts.len(),
        |i: int|
            if 0 <= i < ts.len() {
                term_view(ts[i])
            } else {
                SpecTerm::Atom(Seq::empty())
            },
    )
}

pub open spec fn clause_view(c: Clause) -> SpecClause {
    SpecClause { head: term_view(c.head), body: terms_view(c.body@) }
}

pub open spec fn clauses_view(cs: Seq<Clause>) -> Seq<SpecClause> {
    cs.map_values(|c: Clause| clause_view(c))
}

impl View for Term {
    type V = SpecTerm;

    open spec fn view(&self) -> SpecTerm {
        term_view(*self)
    }
}

impl View for Clause {
    type V = SpecClause;

    open spec fn view(&self) -> SpecClause {
        clause_view(*self)
    }
}

/// Copies a term; the copy has the same model.
pub fn clone_term(t: &Term) -> (r: Term)
    ensures
        r@ == t@,
    decreases t,
{
    match t {
        Term::Atom(a) => Term::Atom(a.clone()),
        Term::Var(v) => Term::Var(v.clone()),
        Term::Compound(f, args) => {
            let out = clone_terms(args);
            proof {
                assert(decreases_to!(*t => (*t)->Compound_1));
            }
            Term::Compound(f.clone(), out)
        },
    }
}

/// Copies a list of terms; the copy has the same model.
pub fn clone_terms(ts: &Vec<Term>) -> (r: Vec<Term>)
    ensures
        terms_view(r@) == terms_view(ts@),
    decreases ts,
{
    let mut out: Vec<Term> = Vec::new();
    let mut i: usize = 0;
    while i < ts.len()
        invariant
            i <= ts.len(),
            out@.len() == i,
            forall|j: int| 0 <= j < i ==> term_view(#[trigger] out@[j]) == term_view(ts@[j]),
        decreases ts.len() - i,
    {
        proof {
            assert(decreases_to!(*ts => ts[i as int]));
        }
        let c = clone_term(&ts[i]);
        out.push(c);
        i = i + 1;
    }
    assert(terms_view(out@) =~= terms_view(ts@));
    out
}

/// Decides whether two terms have the same model.
pub fn term_eq(a: &Term, b: &Term) -> (r: bool)
    ensures
        r == (a@ == b@),
    decreases a,
{
    match (a, b) {
        (Term::Atom(x), Term::Atom(y)) => *x == *y,
        (Term::Var(x), Term::Var(y)) => *x == *y,
        (Term::Compound(f, xs), Term::Compound(g, ys)) => {
            if !(*f == *g) {
                return false;
            }
            proof {
                assert(decreases_to!(*a => (*a)->Compound_1));
            }
            terms_eq(xs, ys)
        },
        _ => false,
    }
}

/// Decides whether two lists of terms have the same model.
pub fn terms_eq(xs: &Vec<Term>, ys: &Vec<Term>) -> (r: bool)
    ensures
        r == (terms_view(xs@) == terms_view(ys@)),
    decreases xs,
{
    if xs.len() != ys.len() {
        proof {
            assert(terms_view(xs@).len() != terms_view(ys@).len());
        }
        return false;
    }
    let mut i: usize = 0;
    while i < xs.len()
        invariant
            i <= xs.len(),
            xs.len() == ys.len(),
            forall|j: int| 0 <= j < i ==> term_view(#[trigger] xs@[j]) == term_view(ys@[j]),
        decreases xs.len() - i,
    {
        proof {
            assert(decreases_to!(*xs => xs[i as int]));
        }
        if !term_eq(&xs[i], &ys[i]) {
            proof {
                assert(terms_view(xs@)[i as int] != terms_view(ys@)[i as int]);
            }
            return false;
        }
        i = i + 1;
    }
    assert(terms_view(xs@) =~= terms_view(ys@));
    true
}

impl Clone for Term {
    fn clone(&self) -> (r: Self)
        ensures
            r@ == self@,
    {
        clone_term(self)
    }
}

impl PartialEq for Term {
    fn eq(&self, other: &Self) -> (r: bool) {
        term_eq(self, other)
    }
}

impl vstd::std_specs::cmp::PartialEqSpecImpl for Term {
    open spec fn obeys_eq_spec() -> bool {
        true
    }

    open spec fn eq_spec(&self, other: &Term) -> bool {
        self@ == other@
    }
}

impl Eq for Term {

}

impl Clone for Clause {
    fn clone(&self) -> (r: Self)
        ensures
            r@ == self@,
    {
        Clause { head: clone_term(&self.head), body: clone_terms(&self.body) }
    }
}

impl PartialEq for Clause {
    fn eq(&self, other: &Self) -> (r: bool) {
        term_eq(&self.head, &other.head) && terms_eq(&self.body, &other.body)
    }
}

impl vstd::std_specs::cmp::PartialEqSpecImpl for Clause {
    open spec fn obeys_eq_spec() -> bool {
        true
    }

    open spec fn eq_spec(&self, other: &Clause) -> bool {
        self@ == other@
    }
}

impl Eq for Clause {

}

impl Clause {
    /// A clause with the given head and no body.
    pub fn fact(head: Term) -> (r: Self)
        ensures
            r@ == (SpecClause { head: head@, body: Seq::empty() }),
    {
        let r = Clause { head, body: Vec::new() };
        assert(terms_view(r.body@) =~= Seq::empty());
        r
    }

    /// A clause with the given head and body.
    pub fn rule(head: Term, body: Vec<Term>) -> (r: Self)
        ensures
            r@ == (SpecClause { head: head@, body: terms_view(body@) }),
    {
        Clause { head, body }
    }
}

} // verus!
