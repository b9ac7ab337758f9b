//! The printed form of terms, clauses and programs.
use vstd::prelude::*;

use crate::ast::{term_view, terms_view, Clause, SpecClause, SpecTerm, Term};

verus! {

/// `a` for an atom, `X` for a variable, `f(t1, t2)` for a compound term.
pub open spec fn show_term(t: SpecTerm) -> Seq<char>
    decreases t,
{
    match t {
        SpecTerm::Atom(a) => a,
        SpecTerm::Var(v) => v,
        SpecTerm::Compound(f, ts) => f + seq!['('] + show_join(ts) + seq![')'],
    }
}

/// The printed terms, separated by `", "`.
pub open spec fn show_join(ts: Seq<SpecTerm>) -> Seq<char>
    decreases ts,
{
    if ts.len() == 0 {
        Seq::empty()
    } else {
        show_term(ts[0]) + show_rest(ts.subrange(1, ts.len() as int))
    }
}

/// Each printed term preceded by `", "`.
pub open spec fn show_rest(ts: Seq<SpecTerm>) -> Seq<char>
    decreases ts,
{
    if ts.len() == 0 {
        Seq::empty()
    } else {
        seq![',', ' '] + show_term(ts[0]) + show_rest(ts.subrange(1, ts.len() as int))
    }
}

/// `h.` for a fact, `h :- b1, b2.` for a rule.
pub open spec fn show_clause(c: SpecClause) -> Seq<char> {
    if c.body.len() == 0 {
        show_term(c.head) + seq!['.']
    } else {
        show_term(c.head) + seq![' ', ':', '-', ' '] + show_join(c.body) + seq!['.']
    }
}

/// The printed clauses, one per line.
pub open spec fn show_program(cs: Seq<SpecClause>) -> Seq<char>
    decreases cs.len(),
{
    if cs.len() == 0 {
        Seq::empty()
    } else if cs.len() == 1 {
        show_clause(cs[0])
    } else {
        show_clause(cs[0]) + seq!['\n'] + show_program(cs.subrange(1, cs.len() as int))
    }
}

proof fn lemma_show_rest_push(ts: Seq<SpecTerm>, t: SpecTerm)
    ensures
        show_rest(ts.push(t)) == show_rest(ts) + seq![',', ' '] + show_term(t),
    decreases ts.len(),
{
    let tt = ts.push(t);
    if ts.len() == 0 {
        assert(tt.subrange(1, tt.len() as int) =~= Seq::<SpecTerm>::empty());
        assert(show_rest(Seq::<SpecTerm>::empty()) == Seq::<char>::empty());
        assert(tt[0] == t);
        assert(show_rest(tt) =~= seq![',', ' '] + show_term(t));
    } else {
        assert(tt.subrange(1, tt.len() as int) =~= ts.subrange(1, ts.len() as int).push(t));
        lemma_show_rest_push(ts.subrange(1, ts.len() as int), t);
        assert(show_rest(tt) =~= show_rest(ts) + seq![',', ' '] + show_term(t));
    }
}

proof fn lemma_show_join_push(ts: Seq<SpecTerm>, t: SpecTerm)
    ensures
        show_join(ts.push(t)) == if ts.len() == 0 {
            show_term(t)
        } else {
            show_join(ts) + seq![',', ' '] + show_term(t)
        },
{
    let tt = ts.push(t);
    if ts.len() == 0 {
        assert(tt.subrange(1, tt.len() as int) =~= Seq::<SpecTerm>::empty());
        assert(show_join(tt) =~= show_term(t));
    } else {
        assert(tt.subrange(1, tt.len() as int) =~= ts.subrange(1, ts.len() as int).push(t));
        lemma_show_rest_push(ts.subrange(1, ts.len() as int), t);
        assert(show_join(tt) =~= show_join(ts) + seq![',', ' '] + show_term(t));
    }
}

/// An atom prints as its name, whatever the name.
pub proof fn lemma_show_atom(a: Seq<char>)
    ensures
        show_term(SpecTerm::Atom(a)) == a,
{
}

/// A variable prints as its name, whatever the name.
pub proof fn lemma_show_var(v: Seq<char>)
    ensures
        show_term(SpecTerm::Var(v)) == v,
{
}

/// A compound term without arguments prints as its functor followed by `()`.
pub proof fn lemma_show_compound_empty(f: Seq<char>)
    ensures
        show_term(SpecTerm::Compound(f, Seq::empty())) == f + seq!['(', ')'],
{
    assert(show_join(Seq::<SpecTerm>::empty()) =~= Seq::<char>::empty());
    assert(f + seq!['('] + Seq::<char>::empty() + seq![')'] =~= f + seq!['(', ')']);
}

/// One more argument of a compound term prints before the closing parenthesis, after `", "`
/// where there were arguments already.
pub proof fn lemma_show_compound_push(f: Seq<char>, ts: Seq<SpecTerm>, t: SpecTerm)
    ensures
        show_term(SpecTerm::Compound(f, ts.push(t))) == show_term(
            SpecTerm::Compound(f, ts),
        ).drop_last() + (if ts.len() == 0 {
            Seq::<char>::empty()
        } else {
            seq![',', ' ']
        }) + show_term(t) + seq![')'],
{
    lemma_show_join_push(ts, t);
    let before = f + seq!['('] + show_join(ts) + seq![')'];
    assert(before.drop_last() =~= f + seq!['('] + show_join(ts));
    if ts.len() == 0 {
        assert(show_join(ts) =~= Seq::<char>::empty());
        assert(show_term(SpecTerm::Compound(f, ts.push(t))) =~= before.drop_last()
            + Seq::<char>::empty() + show_term(t) + seq![')']);
    } else {
        assert(show_term(SpecTerm::Compound(f, ts.push(t))) =~= before.drop_last() + seq![
            ',',
            ' ',
        ] + show_term(t) + seq![')']);
    }
}

/// A fact prints as its head followed by `.`; a rule with one goal as its head, ` :- `, the goal
/// and `.`; one more goal of a rule prints before the final `.`, after `", "`.
pub proof fn lemma_show_clause_shape(h: SpecTerm, b: Seq<SpecTerm>, t: SpecTerm)
    ensures
        show_clause(SpecClause { head: h, body: Seq::empty() }) == show_term(h) + seq!['.'],
        show_clause(SpecClause { head: h, body: seq![t] }) == show_term(h) + seq![' ', ':', '-', ' ']
            + show_term(t) + seq!['.'],
        b.len() > 0 ==> show_clause(SpecClause { head: h, body: b.push(t) }) == show_clause(
            SpecClause { head: h, body: b },
        ).drop_last() + seq![',', ' '] + show_term(t) + seq!['.'],
{
    lemma_show_join_push(Seq::empty(), t);
    assert(Seq::<SpecTerm>::empty().push(t) =~= seq![t]);
    assert(show_clause(SpecClause { head: h, body: seq![t] }) =~= show_term(h) + seq![
        ' ',
        ':',
        '-',
        ' ',
    ] + show_term(t) + seq!['.']);
    if b.len() > 0 {
        lemma_show_join_push(b, t);
        let before = show_term(h) + seq![' ', ':', '-', ' '] + show_join(b) + seq!['.'];
        assert(before.drop_last() =~= show_term(h) + seq![' ', ':', '-', ' '] + show_join(b));
        assert(show_clause(SpecClause { head: h, body: b.push(t) }) =~= before.drop_last()
            + seq![',', ' '] + show_term(t) + seq!['.']);
    }
}

/// Appends the printed form of `t` to `out`.
pub fn write_term(out: &mut String, t: &Term)
    ensures
        final(out)@ == old(out)@ + show_term(t@),
    decreases t,
{
    match t {
        Term::Atom(a) => {
            out.append(a.as_str());
        },
        Term::Var(v) => {
            out.append(v.as_str());
        },
        Term::Compound(f, args) => {
            proof {
                reveal_strlit("(");
                reveal_strlit(")");
                assert(decreases_to!(*t => (*t)->Compound_1));
            }
            out.append(f.as_str());
            out.append("(");
            write_terms(out, args);
            out.append(")");
            proof {
                assert(final(out)@ =~= old(out)@ + show_term(t@));
            }
        },
    }
}

/// Appends the printed terms of `ts`, separated by `", "`, to `out`.
pub fn write_terms(out: &mut String, ts: &Vec<Term>)
    ensures
        final(out)@ == old(out)@ + show_join(terms_view(ts@)),
    decreases ts,
{
    let ghost start = out@;
    let ghost tv = terms_view(ts@);
    let mut i: usize = 0;
    proof {
        assert(tv.take(0) =~= Seq::<SpecTerm>::empty());
        assert(out@ =~= start + show_join(tv.take(0)));
    }
    while i < ts.len()
        invariant
            i <= ts.len(),
            tv == terms_view(ts@),
            out@ == start + show_join(tv.take(i as int)),
        decreases ts.len() - i,
    {
        proof {
            reveal_strlit(", ");
            assert(decreases_to!(*ts => ts[i as int]));
        }
        let ghost before = out@;
        if i > 0 {
            out.append(", ");
        }
        write_term(out, &ts[i]);
        proof {
            assert(tv.take(i + 1) =~= tv.take(i as int).push(tv[i as int]));
            assert(tv[i as int] == term_view(ts@[i as int]));
            lemma_show_join_push(tv.take(i as int), tv[i as int]);
            assert(out@ =~= start + show_join(tv.take(i + 1)));
        }
        i = i + 1;
    }
    proof {
        assert(tv.take(ts.len() as int) =~= tv);
    }
}

impl Term {
    /// The printed form: `a`, `X`, or `f(t1, t2)`.
    pub fn to_string(&self) -> (r: String)
        ensures
            r@ == show_term(self@),
    {
        let mut out = String::new();
        write_term(&mut out, self);
        proof {
            assert(out@ =~= show_term(self@));
        }
        out
    }
}

impl Clause {
    /// The printed form: `h.` for a fact, `h :- b1, b2.` for a rule.
    pub fn to_string(&self) -> (r: String)
        ensures
            r@ == show_clause(self@),
    {
        proof {
            reveal_strlit(".");
            reveal_strlit(" :- ");
        }
        let mut out = String::new();
        write_term(&mut out, &self.head);
        if self.body.len() == 0 {
            out.append(".");
        } else {
            out.append(" :- ");
            write_terms(&mut out, &self.body);
            out.append(".");
        }
        proof {
            assert(out@ =~= show_clause(self@));
        }
        out
    }
}

} // verus!
