//! Reading back what was printed: the parser inverts the printer on well-formed programs.
use vstd::prelude::*;

use crate::ast::{SpecClause, SpecTerm};
use crate::parser::{
    ident_end, p_atom, p_body, p_clause, p_clauses, p_inner,
    p_items, p_term, p_var, skip_ws, spec_parse,
};
use crate::show::{show_clause, show_join, show_program, show_rest, show_term};
use crate::text::{spec_is_ident_char, spec_is_lower, spec_is_var_start, spec_is_whitespace};

verus! {

/// An atom name: `[a-z][a-zA-Z0-9_]*`.
pub open spec fn is_atom_name(x: Seq<char>) -> bool {
    &&& x.len() >= 1
    &&& spec_is_lower(x[0])
    &&& forall|i: int| 1 <= i < x.len() ==> spec_is_ident_char(#[trigger] x[i])
}

/// A variable name: `[_A-Z][a-zA-Z0-9_]*`.
pub open spec fn is_var_name(x: Seq<char>) -> bool {
    &&& x.len() >= 1
    &&& spec_is_var_start(x[0])
    &&& forall|i: int| 1 <= i < x.len() ==> spec_is_ident_char(#[trigger] x[i])
}

/// Every name in the term is one the parser reads back as the same kind of name.
pub open spec fn wf_term(t: SpecTerm) -> bool
    decreases t,
{
    match t {
        SpecTerm::Atom(a) => is_atom_name(a),
        SpecTerm::Var(v) => is_var_name(v),
        SpecTerm::Compound(f, ts) => is_atom_name(f) && wf_terms(ts),
    }
}

pub open spec fn wf_terms(ts: Seq<SpecTerm>) -> bool
    decreases ts,
{
    forall|i: int| 0 <= i < ts.len() ==> wf_term(#[trigger] ts[i])
}

pub open spec fn wf_clause(c: SpecClause) -> bool {
    wf_term(c.head) && wf_terms(c.body)
}

pub open spec fn wf_program(cs: Seq<SpecClause>) -> bool {
    forall|i: int| 0 <= i < cs.len() ==> wf_clause(#[trigger] cs[i])
}

/// The character at `e`, if any, cannot continue a name nor open an argument list.
pub open spec fn ends_term(s: Seq<char>, e: int) -> bool {
    e == s.len() || (0 <= e < s.len() && !spec_is_ident_char(s[e]) && s[e] != '(')
}

/// The character at `e` ends a list of items: not part of a term, not a comma, not white space.
pub open spec fn ends_items(s: Seq<char>, e: int) -> bool {
    0 <= e < s.len() && !spec_is_ident_char(s[e]) && s[e] != '(' && s[e] != ','
        && !spec_is_whitespace(s[e]) && !spec_is_var_start(s[e]) && !spec_is_lower(s[e])
}

/// `s` holds `a` at `i`.
pub open spec fn holds_at(s: Seq<char>, i: int, a: Seq<char>) -> bool {
    0 <= i && i + a.len() <= s.len() && s.subrange(i, i + a.len()) == a
}

proof fn lemma_holds_split(s: Seq<char>, i: int, a: Seq<char>, b: Seq<char>)
    requires
        holds_at(s, i, a + b),
    ensures
        holds_at(s, i, a),
        holds_at(s, i + a.len(), b),
{
    let whole = s.subrange(i, i + a.len() + b.len());
    assert forall|k: int| 0 <= k < a.len() implies s.subrange(i, i + a.len())[k] == a[k] by {
        assert(whole[k] == (a + b)[k]);
    }
    assert(s.subrange(i, i + a.len()) =~= a);
    assert forall|k: int| 0 <= k < b.len() implies s.subrange(
        i + a.len(),
        i + a.len() + b.len(),
    )[k] == b[k] by {
        assert(whole[a.len() + k] == (a + b)[a.len() + k]);
    }
    assert(s.subrange(i + a.len(), i + a.len() + b.len()) =~= b);
}

proof fn lemma_holds_index(s: Seq<char>, i: int, a: Seq<char>, k: int)
    requires
        holds_at(s, i, a),
        0 <= k < a.len(),
    ensures
        s[i + k] == a[k],
{
    assert(s.subrange(i, i + a.len())[k] == s[i + k]);
}

proof fn lemma_ident_end_exact(s: Seq<char>, j: int, e: int)
    requires
        0 <= j <= e <= s.len(),
        forall|k: int| j <= k < e ==> spec_is_ident_char(#[trigger] s[k]),
        e == s.len() || !spec_is_ident_char(s[e]),
    ensures
        ident_end(s, j) == e,
    decreases e - j,
{
    if j < e {
        lemma_ident_end_exact(s, j + 1, e);
    }
}

proof fn lemma_skip_ws_none(s: Seq<char>, i: int)
    requires
        i == s.len() || (0 <= i < s.len() && !spec_is_whitespace(s[i])),
    ensures
        skip_ws(s, i) == i,
{
}

/// A name held at `i` and ended at `i + x.len()` is read as `x`.
proof fn lemma_read_name(s: Seq<char>, i: int, x: Seq<char>)
    requires
        holds_at(s, i, x),
        x.len() >= 1,
        forall|k: int| 1 <= k < x.len() ==> spec_is_ident_char(#[trigger] x[k]),
        i + x.len() == s.len() || !spec_is_ident_char(s[i + x.len()]),
    ensures
        ident_end(s, i + 1) == i + x.len(),
        s.subrange(i, i + x.len()) == x,
        s[i] == x[0],
{
    lemma_holds_index(s, i, x, 0);
    assert forall|k: int| i + 1 <= k < i + x.len() implies spec_is_ident_char(#[trigger] s[k]) by {
        lemma_holds_index(s, i, x, k - i);
    }
    lemma_ident_end_exact(s, i + 1, i + x.len());
}

proof fn lemma_show_term_start(t: SpecTerm)
    requires
        wf_term(t),
    ensures
        show_term(t).len() >= 1,
        spec_is_ident_char(show_term(t)[0]),
        !spec_is_whitespace(show_term(t)[0]),
{
    match t {
        SpecTerm::Atom(a) => {},
        SpecTerm::Var(v) => {},
        SpecTerm::Compound(f, ts) => {
            assert(show_term(t)[0] == f[0]);
        },
    }
}

/// A printed well-formed term, followed by a character that ends it, is read back.
pub proof fn lemma_read_term(s: Seq<char>, i: int, t: SpecTerm)
    requires
        wf_term(t),
        holds_at(s, i, show_term(t)),
        ends_term(s, i + show_term(t).len()),
    ensures
        p_inner(s, i) == Some((t, i + show_term(t).len())),
    decreases t,
{
    match t {
        SpecTerm::Var(v) => {
            lemma_read_name(s, i, v);
        },
        SpecTerm::Atom(a) => {
            lemma_read_name(s, i, a);
            assert(p_var(s, i) is None);
        },
        SpecTerm::Compound(f, ts) => {
            let tail = seq!['('] + show_join(ts) + seq![')'];
            assert(show_term(t) =~= f + tail);
            lemma_holds_split(s, i, f, tail);
            lemma_holds_index(s, i + f.len(), tail, 0);
            lemma_read_name(s, i, f);
            assert(p_var(s, i) is None);
            let q = i + f.len();
            assert(p_atom(s, i) == Some((f, q)));
            let inner = show_join(ts) + seq![')'];
            assert(tail =~= seq!['('] + inner);
            lemma_holds_split(s, q, seq!['('], inner);
            lemma_holds_split(s, q + 1, show_join(ts), seq![')']);
            let r = q + 1 + show_join(ts).len();
            lemma_holds_index(s, r, seq![')'], 0);
            assert(ts =~= Seq::<SpecTerm>::empty() + ts);
            lemma_read_join(s, q + 1, ts, Seq::empty());
        },
    }
}

/// Printed well-formed terms separated by `", "`, followed by a character that ends a list of
/// items, are read back.
pub proof fn lemma_read_join(s: Seq<char>, i: int, ts: Seq<SpecTerm>, acc: Seq<SpecTerm>)
    requires
        wf_terms(ts),
        holds_at(s, i, show_join(ts)),
        ends_items(s, i + show_join(ts).len()),
    ensures
        p_items(s, i, acc, true) == (acc + ts, i + show_join(ts).len()),
    decreases ts,
{
    if ts.len() == 0 {
        lemma_skip_ws_none(s, i);
        assert(p_inner(s, i) is None);
        assert(acc + ts =~= acc);
    } else {
        let t0 = ts[0];
        let rest = ts.subrange(1, ts.len() as int);
        assert(wf_term(t0));
        assert(wf_terms(rest)) by {
            assert forall|k: int| 0 <= k < rest.len() implies wf_term(#[trigger] rest[k]) by {
                assert(rest[k] == ts[k + 1]);
            }
        }
        lemma_holds_split(s, i, show_term(t0), show_rest(rest));
        lemma_show_term_start(t0);
        lemma_holds_index(s, i, show_term(t0), 0);
        let e0 = i + show_term(t0).len();
        if rest.len() == 0 {
            assert(show_rest(rest) =~= Seq::<char>::empty());
        } else {
            let rr = show_term(rest[0]) + show_rest(rest.subrange(1, rest.len() as int));
            assert(show_rest(rest) =~= seq![',', ' '] + rr);
            lemma_holds_split(s, e0, seq![',', ' '], rr);
            lemma_holds_index(s, e0, seq![',', ' '], 0);
        }
        lemma_read_term(s, i, t0);
        lemma_skip_ws_none(s, i);
        lemma_skip_ws_none(s, e0);
        assert(p_term(s, i) == Some((t0, e0)));
        lemma_read_rest(s, e0, rest, acc.push(t0));
        assert(acc.push(t0) + rest =~= acc + ts);
    }
}

/// Printed well-formed terms, each preceded by `", "`, followed by a character that ends a list
/// of items, are read back.
pub proof fn lemma_read_rest(s: Seq<char>, j: int, ts: Seq<SpecTerm>, acc: Seq<SpecTerm>)
    requires
        wf_terms(ts),
        holds_at(s, j, show_rest(ts)),
        ends_items(s, j + show_rest(ts).len()),
    ensures
        p_items(s, j, acc, false) == (acc + ts, j + show_rest(ts).len()),
    decreases ts,
{
    if ts.len() == 0 {
        assert(acc + ts =~= acc);
    } else {
        let t0 = ts[0];
        let rest = ts.subrange(1, ts.len() as int);
        assert(wf_term(t0));
        assert(wf_terms(rest)) by {
            assert forall|k: int| 0 <= k < rest.len() implies wf_term(#[trigger] rest[k]) by {
                assert(rest[k] == ts[k + 1]);
            }
        }
        let body = show_term(t0) + show_rest(rest);
        assert(show_rest(ts) =~= seq![',', ' '] + body);
        lemma_holds_split(s, j, seq![',', ' '], body);
        lemma_holds_index(s, j, seq![',', ' '], 0);
        lemma_holds_index(s, j, seq![',', ' '], 1);
        lemma_holds_split(s, j + 2, show_term(t0), show_rest(rest));
        lemma_show_term_start(t0);
        lemma_holds_index(s, j + 2, show_term(t0), 0);
        let e0 = j + 2 + show_term(t0).len();
        if rest.len() == 0 {
            assert(show_rest(rest) =~= Seq::<char>::empty());
        } else {
            let rr = show_term(rest[0]) + show_rest(rest.subrange(1, rest.len() as int));
            assert(show_rest(rest) =~= seq![',', ' '] + rr);
            lemma_holds_split(s, e0, seq![',', ' '], rr);
            lemma_holds_index(s, e0, seq![',', ' '], 0);
        }
        lemma_read_term(s, j + 2, t0);
        assert(spec_is_whitespace(s[j + 1]));
        lemma_skip_ws_none(s, j + 2);
        assert(skip_ws(s, j + 1) == j + 2);
        lemma_skip_ws_none(s, e0);
        assert(p_term(s, j + 1) == Some((t0, e0)));
        lemma_read_rest(s, e0, rest, acc.push(t0));
        assert(acc.push(t0) + rest =~= acc + ts);
    }
}

/// A printed well-formed clause, followed by white space or the end, is read back.
pub proof fn lemma_read_clause(s: Seq<char>, i: int, c: SpecClause)
    requires
        wf_clause(c),
        holds_at(s, i, show_clause(c)),
        i + show_clause(c).len() == s.len() || spec_is_whitespace(s[i + show_clause(c).len()]),
    ensures
        p_clause(s, i) == Some((c, skip_ws(s, i + show_clause(c).len()))),
{
    let h = c.head;
    lemma_show_term_start(h);
    let e = i + show_clause(c).len();
    if c.body.len() == 0 {
        lemma_holds_split(s, i, show_term(h), seq!['.']);
        lemma_holds_index(s, i, show_term(h), 0);
        let q = i + show_term(h).len();
        lemma_holds_index(s, q, seq!['.'], 0);
        lemma_read_term(s, i, h);
        lemma_skip_ws_none(s, i);
        lemma_skip_ws_none(s, q);
        assert(p_term(s, i) == Some((h, q)));
        assert(c.body =~= Seq::<SpecTerm>::empty());
        assert(c == SpecClause { head: h, body: Seq::empty() });
    } else {
        let mid = seq![' ', ':', '-', ' '];
        let rest = mid + show_join(c.body) + seq!['.'];
        assert(show_clause(c) =~= show_term(h) + rest);
        lemma_holds_split(s, i, show_term(h), rest);
        lemma_holds_index(s, i, show_term(h), 0);
        let q0 = i + show_term(h).len();
        lemma_holds_split(s, q0, mid + show_join(c.body), seq!['.']);
        lemma_holds_split(s, q0, mid, show_join(c.body));
        lemma_holds_index(s, q0, mid, 0);
        lemma_holds_index(s, q0, mid, 1);
        lemma_holds_index(s, q0, mid, 2);
        lemma_holds_index(s, q0, mid, 3);
        let b = q0 + 4;
        let r = b + show_join(c.body).len();
        lemma_holds_index(s, r, seq!['.'], 0);
        lemma_read_term(s, i, h);
        lemma_skip_ws_none(s, i);
        assert(spec_is_whitespace(s[q0]));
        lemma_skip_ws_none(s, q0 + 1);
        assert(skip_ws(s, q0) == q0 + 1);
        assert(p_term(s, i) == Some((h, q0 + 1)));
        let t0 = c.body[0];
        assert(wf_term(t0));
        lemma_show_term_start(t0);
        assert(show_join(c.body) =~= show_term(t0) + show_rest(
            c.body.subrange(1, c.body.len() as int),
        ));
        lemma_holds_split(
            s,
            b,
            show_term(t0),
            show_rest(c.body.subrange(1, c.body.len() as int)),
        );
        lemma_holds_index(s, b, show_term(t0), 0);
        assert(spec_is_whitespace(s[q0 + 3]));
        lemma_skip_ws_none(s, b);
        assert(skip_ws(s, q0 + 3) == b);
        lemma_read_join(s, b, c.body, Seq::empty());
        assert(Seq::<SpecTerm>::empty() + c.body =~= c.body);
        lemma_skip_ws_none(s, r);
        assert(p_body(s, q0 + 3) == (c.body, r));
        assert(c == SpecClause { head: h, body: c.body });
    }
}

/// The printed form of a well-formed program, from `i` to the end of `s`, is read back.
pub proof fn lemma_read_program(s: Seq<char>, i: int, cs: Seq<SpecClause>, acc: Seq<SpecClause>)
    requires
        wf_program(cs),
        0 <= i <= s.len(),
        s.subrange(i, s.len() as int) == show_program(cs),
    ensures
        p_clauses(s, i, acc) == (acc + cs, s.len() as int),
    decreases cs.len(),
{
    if cs.len() == 0 {
        assert(s.len() - i == 0);
        lemma_skip_ws_none(s, i);
        assert(p_inner(s, i) is None);
        assert(p_term(s, i) is None);
        assert(acc + cs =~= acc);
    } else {
        let c0 = cs[0];
        assert(wf_clause(c0));
        assert(holds_at(s, i, show_program(cs)));
        let rest = cs.subrange(1, cs.len() as int);
        assert(wf_program(rest)) by {
            assert forall|k: int| 0 <= k < rest.len() implies wf_clause(#[trigger] rest[k]) by {
                assert(rest[k] == cs[k + 1]);
            }
        }
        let e = i + show_clause(c0).len();
        if cs.len() == 1 {
            lemma_read_clause(s, i, c0);
            lemma_skip_ws_none(s, e);
            assert(e == s.len());
            assert(rest.len() == 0);
            assert(s.subrange(e, s.len() as int) =~= show_program(rest));
            lemma_read_program(s, e, rest, acc.push(c0));
        } else {
            lemma_holds_split(s, i, show_clause(c0) + seq!['\n'], show_program(rest));
            lemma_holds_split(s, i, show_clause(c0), seq!['\n']);
            lemma_holds_index(s, e, seq!['\n'], 0);
            lemma_read_clause(s, i, c0);
            let r0 = rest[0];
            assert(wf_clause(r0));
            lemma_show_term_start(r0.head);
            let first = if r0.body.len() == 0 {
                seq!['.']
            } else {
                seq![' ', ':', '-', ' '] + show_join(r0.body) + seq!['.']
            };
            assert(show_clause(r0) =~= show_term(r0.head) + first);
            if rest.len() == 1 {
                assert(show_program(rest) == show_clause(r0));
                lemma_holds_split(s, e + 1, show_term(r0.head), first);
            } else {
                assert(show_program(rest) =~= show_term(r0.head) + (first + seq!['\n']
                    + show_program(rest.subrange(1, rest.len() as int))));
                lemma_holds_split(
                    s,
                    e + 1,
                    show_term(r0.head),
                    first + seq!['\n'] + show_program(rest.subrange(1, rest.len() as int)),
                );
            }
            lemma_holds_index(s, e + 1, show_term(r0.head), 0);
            lemma_skip_ws_none(s, e + 1);
            assert(skip_ws(s, e) == e + 1);
            assert(s.subrange(e + 1, s.len() as int) =~= show_program(rest));
            lemma_read_program(s, e + 1, rest, acc.push(c0));
        }
        assert(acc.push(c0) + rest =~= acc + cs);
    }
}

/// Parsing the printed form of a well-formed program gives back the program.
pub proof fn lemma_parse_show_program(cs: Seq<SpecClause>)
    requires
        wf_program(cs),
    ensures
        spec_parse(show_program(cs)) == Some(cs),
{
    let s = show_program(cs);
    if cs.len() > 0 {
        let c0 = cs[0];
        assert(wf_clause(c0));
        lemma_show_term_start(c0.head);
        let first = if c0.body.len() == 0 {
            seq!['.']
        } else {
            seq![' ', ':', '-', ' '] + show_join(c0.body) + seq!['.']
        };
        assert(show_clause(c0) =~= show_term(c0.head) + first);
        if cs.len() == 1 {
            assert(s[0] == show_clause(c0)[0]);
        } else {
            assert(s[0] == show_clause(c0)[0]);
        }
        lemma_skip_ws_none(s, 0);
    }
    assert(s.subrange(0, s.len() as int) =~= s);
    lemma_read_program(s, skip_ws(s, 0), cs, Seq::empty());
    assert(Seq::<SpecClause>::empty() + cs =~= cs);
    lemma_skip_ws_none(s, s.len() as int);
}

/// White space that `s` holds at `i`, up to a character that is not white space or the end, is
/// skipped whole.
proof fn lemma_skip_ws_run(s: Seq<char>, i: int, w: Seq<char>)
    requires
        holds_at(s, i, w),
        forall|k: int| 0 <= k < w.len() ==> spec_is_whitespace(#[trigger] w[k]),
        i + w.len() == s.len() || !spec_is_whitespace(s[i + w.len()]),
    ensures
        skip_ws(s, i) == i + w.len(),
    decreases w.len(),
{
    if w.len() == 0 {
        lemma_skip_ws_none(s, i);
    } else {
        let rest = w.drop_first();
        assert(w =~= seq![w[0]] + rest);
        lemma_holds_split(s, i, seq![w[0]], rest);
        lemma_holds_index(s, i, seq![w[0]], 0);
        assert forall|k: int| 0 <= k < rest.len() implies spec_is_whitespace(#[trigger] rest[k]) by {
            assert(rest[k] == w[k + 1]);
        }
        lemma_skip_ws_run(s, i + 1, rest);
    }
}

/// White space is free around `:-`: a well-formed rule written as its head, any white space
/// (none included), `:-`, any white space, its goals separated by `", "` and `.`, parses as that
/// rule.
#[verifier::rlimit(40)]
pub proof fn lemma_parse_rule_spacing(
    h: SpecTerm,
    b: Seq<SpecTerm>,
    w1: Seq<char>,
    w2: Seq<char>,
)
    requires
        wf_term(h),
        wf_terms(b),
        b.len() > 0,
        forall|k: int| 0 <= k < w1.len() ==> spec_is_whitespace(#[trigger] w1[k]),
        forall|k: int| 0 <= k < w2.len() ==> spec_is_whitespace(#[trigger] w2[k]),
    ensures
        spec_parse(show_term(h) + w1 + seq![':', '-'] + w2 + show_join(b) + seq!['.']) == Some(
            seq![SpecClause { head: h, body: b }],
        ),
{
    let ht = show_term(h);
    let cd = seq![':', '-'];
    let j = show_join(b);
    let dot = seq!['.'];
    let s = ht + w1 + cd + w2 + j + dot;
    let e0 = ht.len() as int;
    let q = e0 + w1.len();
    let bp = q + 2 + w2.len();
    let r = bp + j.len();
    assert(s.len() == r + 1);
    assert(holds_at(s, 0, s)) by {
        assert(s.subrange(0, s.len() as int) =~= s);
    }
    lemma_holds_split(s, 0, ht + w1 + cd + w2 + j, dot);
    lemma_holds_split(s, 0, ht + w1 + cd + w2, j);
    lemma_holds_split(s, 0, ht + w1 + cd, w2);
    lemma_holds_split(s, 0, ht + w1, cd);
    lemma_holds_split(s, 0, ht, w1);
    lemma_holds_index(s, r, dot, 0);
    lemma_holds_index(s, q, cd, 0);
    lemma_holds_index(s, q, cd, 1);
    lemma_show_term_start(h);
    lemma_holds_index(s, 0, ht, 0);
    // The head, read up to the white space or the `:` after it.
    if w1.len() > 0 {
        lemma_holds_index(s, e0, w1, 0);
    }
    assert(ends_term(s, e0));
    lemma_read_term(s, 0, h);
    lemma_skip_ws_none(s, 0);
    lemma_skip_ws_run(s, e0, w1);
    assert(p_term(s, 0) == Some((h, q)));
    // The goals, read after the white space that follows `:-`.
    let t0 = b[0];
    assert(wf_term(t0));
    lemma_show_term_start(t0);
    assert(j =~= show_term(t0) + show_rest(b.subrange(1, b.len() as int)));
    lemma_holds_split(s, bp, show_term(t0), show_rest(b.subrange(1, b.len() as int)));
    lemma_holds_index(s, bp, show_term(t0), 0);
    lemma_skip_ws_run(s, q + 2, w2);
    lemma_read_join(s, bp, b, Seq::empty());
    assert(Seq::<SpecTerm>::empty() + b =~= b);
    lemma_skip_ws_none(s, r);
    assert(p_body(s, q + 2) == (b, r));
    let c = SpecClause { head: h, body: b };
    lemma_skip_ws_none(s, r + 1);
    assert(p_clause(s, 0) == Some((c, r + 1)));
    // Nothing follows the clause.
    assert(p_var(s, r + 1) is None);
    assert(p_atom(s, r + 1) is None);
    assert(p_inner(s, r + 1) is None);
    assert(p_term(s, r + 1) is None);
    assert(p_clause(s, r + 1) is None);
    assert(p_clauses(s, r + 1, seq![c]) == (seq![c], r + 1));
    assert(Seq::<SpecClause>::empty().push(c) =~= seq![c]);
    assert(p_clauses(s, 0, Seq::empty()) == (seq![c], r + 1));
}

/// A term written without any white space: `a`, `X`, `f(t1,t2)`.
pub open spec fn compact_term(t: SpecTerm) -> Seq<char>
    decreases t,
{
    match t {
        SpecTerm::Atom(a) => a,
        SpecTerm::Var(v) => v,
        SpecTerm::Compound(f, ts) => f + seq!['('] + compact_join(ts) + seq![')'],
    }
}

/// Terms written without white space, separated by `,`.
pub open spec fn compact_join(ts: Seq<SpecTerm>) -> Seq<char>
    decreases ts,
{
    if ts.len() == 0 {
        Seq::empty()
    } else {
        compact_term(ts[0]) + compact_rest(ts.subrange(1, ts.len() as int))
    }
}

/// Each term written without white space, preceded by `,`.
pub open spec fn compact_rest(ts: Seq<SpecTerm>) -> Seq<char>
    decreases ts,
{
    if ts.len() == 0 {
        Seq::empty()
    } else {
        seq![','] + compact_term(ts[0]) + compact_rest(ts.subrange(1, ts.len() as int))
    }
}

/// A clause written without any white space: `h.` or `h:-b1,b2.`.
pub open spec fn compact_clause(c: SpecClause) -> Seq<char> {
    if c.body.len() == 0 {
        compact_term(c.head) + seq!['.']
    } else {
        compact_term(c.head) + seq![':', '-'] + compact_join(c.body) + seq!['.']
    }
}

proof fn lemma_compact_start(t: SpecTerm)
    requires
        wf_term(t),
    ensures
        compact_term(t).len() >= 1,
        spec_is_ident_char(compact_term(t)[0]),
        !spec_is_whitespace(compact_term(t)[0]),
{
    match t {
        SpecTerm::Atom(a) => {},
        SpecTerm::Var(v) => {},
        SpecTerm::Compound(f, ts) => {
            assert(compact_term(t)[0] == f[0]);
        },
    }
}

proof fn lemma_wf_terms_tail(ts: Seq<SpecTerm>)
    requires
        wf_terms(ts),
        ts.len() > 0,
    ensures
        wf_term(ts[0]),
        wf_terms(ts.subrange(1, ts.len() as int)),
{
    let rest = ts.subrange(1, ts.len() as int);
    assert forall|k: int| 0 <= k < rest.len() implies wf_term(#[trigger] rest[k]) by {
        assert(rest[k] == ts[k + 1]);
    }
}

/// A well-formed term written without white space, followed by a character that ends it, is
/// read back.
proof fn lemma_read_compact(s: Seq<char>, i: int, t: SpecTerm)
    requires
        wf_term(t),
        holds_at(s, i, compact_term(t)),
        ends_term(s, i + compact_term(t).len()),
    ensures
        p_inner(s, i) == Some((t, i + compact_term(t).len())),
    decreases t,
{
    match t {
        SpecTerm::Var(v) => {
            lemma_read_name(s, i, v);
        },
        SpecTerm::Atom(a) => {
            lemma_read_name(s, i, a);
            assert(p_var(s, i) is None);
        },
        SpecTerm::Compound(f, ts) => {
            let tail = seq!['('] + compact_join(ts) + seq![')'];
            assert(compact_term(t) =~= f + tail);
            lemma_holds_split(s, i, f, tail);
            lemma_holds_index(s, i + f.len(), tail, 0);
            lemma_read_name(s, i, f);
            assert(p_var(s, i) is None);
            let q = i + f.len();
            assert(p_atom(s, i) == Some((f, q)));
            let inner = compact_join(ts) + seq![')'];
            assert(tail =~= seq!['('] + inner);
            lemma_holds_split(s, q, seq!['('], inner);
            lemma_holds_split(s, q + 1, compact_join(ts), seq![')']);
            let r = q + 1 + compact_join(ts).len();
            lemma_holds_index(s, r, seq![')'], 0);
            assert(ts =~= Seq::<SpecTerm>::empty() + ts);
            lemma_read_compact_join(s, q + 1, ts, Seq::empty());
        },
    }
}

proof fn lemma_read_compact_join(s: Seq<char>, i: int, ts: Seq<SpecTerm>, acc: Seq<SpecTerm>)
    requires
        wf_terms(ts),
        holds_at(s, i, compact_join(ts)),
        ends_items(s, i + compact_join(ts).len()),
    ensures
        p_items(s, i, acc, true) == (acc + ts, i + compact_join(ts).len()),
    decreases ts,
{
    if ts.len() == 0 {
        lemma_skip_ws_none(s, i);
        assert(p_inner(s, i) is None);
        assert(acc + ts =~= acc);
    } else {
        let t0 = ts[0];
        let rest = ts.subrange(1, ts.len() as int);
        lemma_wf_terms_tail(ts);
        lemma_holds_split(s, i, compact_term(t0), compact_rest(rest));
        lemma_compact_start(t0);
        lemma_holds_index(s, i, compact_term(t0), 0);
        let e0 = i + compact_term(t0).len();
        if rest.len() == 0 {
            assert(compact_rest(rest) =~= Seq::<char>::empty());
        } else {
            let rr = compact_term(rest[0]) + compact_rest(rest.subrange(1, rest.len() as int));
            assert(compact_rest(rest) =~= seq![','] + rr);
            lemma_holds_split(s, e0, seq![','], rr);
            lemma_holds_index(s, e0, seq![','], 0);
        }
        lemma_read_compact(s, i, t0);
        lemma_skip_ws_none(s, i);
        lemma_skip_ws_none(s, e0);
        assert(p_term(s, i) == Some((t0, e0)));
        lemma_read_compact_rest(s, e0, rest, acc.push(t0));
        assert(acc.push(t0) + rest =~= acc + ts);
    }
}

proof fn lemma_read_compact_rest(s: Seq<char>, j: int, ts: Seq<SpecTerm>, acc: Seq<SpecTerm>)
    requires
        wf_terms(ts),
        holds_at(s, j, compact_rest(ts)),
        ends_items(s, j + compact_rest(ts).len()),
    ensures
        p_items(s, j, acc, false) == (acc + ts, j + compact_rest(ts).len()),
    decreases ts,
{
    if ts.len() == 0 {
        assert(acc + ts =~= acc);
    } else {
        let t0 = ts[0];
        let rest = ts.subrange(1, ts.len() as int);
        lemma_wf_terms_tail(ts);
        let body = compact_term(t0) + compact_rest(rest);
        assert(compact_rest(ts) =~= seq![','] + body);
        lemma_holds_split(s, j, seq![','], body);
        lemma_holds_index(s, j, seq![','], 0);
        lemma_holds_split(s, j + 1, compact_term(t0), compact_rest(rest));
        lemma_compact_start(t0);
        lemma_holds_index(s, j + 1, compact_term(t0), 0);
        let e0 = j + 1 + compact_term(t0).len();
        if rest.len() == 0 {
            assert(compact_rest(rest) =~= Seq::<char>::empty());
        } else {
            let rr = compact_term(rest[0]) + compact_rest(rest.subrange(1, rest.len() as int));
            assert(compact_rest(rest) =~= seq![','] + rr);
            lemma_holds_split(s, e0, seq![','], rr);
            lemma_holds_index(s, e0, seq![','], 0);
        }
        lemma_read_compact(s, j + 1, t0);
        lemma_skip_ws_none(s, j + 1);
        lemma_skip_ws_none(s, e0);
        assert(p_term(s, j + 1) == Some((t0, e0)));
        lemma_read_compact_rest(s, e0, rest, acc.push(t0));
        assert(acc.push(t0) + rest =~= acc + ts);
    }
}

/// A well-formed clause written without any white space (`h.`, or `h:-b1,b2.` with arguments
/// separated by bare commas) parses as that clause.
#[verifier::rlimit(40)]
pub proof fn lemma_parse_compact_clause(c: SpecClause)
    requires
        wf_clause(c),
    ensures
        spec_parse(compact_clause(c)) == Some(seq![c]),
{
    let h = c.head;
    let ht = compact_term(h);
    let s = compact_clause(c);
    let e0 = ht.len() as int;
    lemma_compact_start(h);
    assert(holds_at(s, 0, s)) by {
        assert(s.subrange(0, s.len() as int) =~= s);
    }
    let dot = seq!['.'];
    let end: int;
    if c.body.len() == 0 {
        lemma_holds_split(s, 0, ht, dot);
        lemma_holds_index(s, e0, dot, 0);
        lemma_holds_index(s, 0, ht, 0);
        lemma_read_compact(s, 0, h);
        lemma_skip_ws_none(s, 0);
        lemma_skip_ws_none(s, e0);
        assert(p_term(s, 0) == Some((h, e0)));
        assert(c.body =~= Seq::<SpecTerm>::empty());
        lemma_skip_ws_none(s, e0 + 1);
        end = e0 + 1;
        assert(p_clause(s, 0) == Some((c, end)));
    } else {
        let cd = seq![':', '-'];
        let j = compact_join(c.body);
        lemma_holds_split(s, 0, ht + cd + j, dot);
        lemma_holds_split(s, 0, ht + cd, j);
        lemma_holds_split(s, 0, ht, cd);
        let q = e0;
        let bp = q + 2;
        let r = bp + j.len();
        lemma_holds_index(s, r, dot, 0);
        lemma_holds_index(s, q, cd, 0);
        lemma_holds_index(s, q, cd, 1);
        lemma_holds_index(s, 0, ht, 0);
        lemma_read_compact(s, 0, h);
        lemma_skip_ws_none(s, 0);
        lemma_skip_ws_none(s, q);
        assert(p_term(s, 0) == Some((h, q)));
        let t0 = c.body[0];
        lemma_wf_terms_tail(c.body);
        lemma_compact_start(t0);
        assert(j =~= compact_term(t0) + compact_rest(c.body.subrange(1, c.body.len() as int)));
        lemma_holds_split(s, bp, compact_term(t0), compact_rest(c.body.subrange(1, c.body.len() as int)));
        lemma_holds_index(s, bp, compact_term(t0), 0);
        lemma_skip_ws_none(s, bp);
        lemma_read_compact_join(s, bp, c.body, Seq::empty());
        assert(Seq::<SpecTerm>::empty() + c.body =~= c.body);
        lemma_skip_ws_none(s, r);
        assert(p_body(s, q + 2) == (c.body, r));
        lemma_skip_ws_none(s, r + 1);
        end = r + 1;
        assert(c == SpecClause { head: h, body: c.body });
        assert(p_clause(s, 0) == Some((c, end)));
    }
    assert(end == s.len());
    assert(p_var(s, end) is None);
    assert(p_atom(s, end) is None);
    assert(p_inner(s, end) is None);
    assert(p_term(s, end) is None);
    assert(p_clause(s, end) is None);
    assert(p_clauses(s, end, seq![c]) == (seq![c], end));
    assert(Seq::<SpecClause>::empty().push(c) =~= seq![c]);
    assert(p_clauses(s, 0, Seq::empty()) == (seq![c], end));
}

/// White space is free around a fact: any white space, a well-formed head, any white space, `.`
/// and any white space parse as that fact.
#[verifier::rlimit(40)]
pub proof fn lemma_parse_fact_spacing(h: SpecTerm, w0: Seq<char>, w1: Seq<char>, w2: Seq<char>)
    requires
        wf_term(h),
        forall|k: int| 0 <= k < w0.len() ==> spec_is_whitespace(#[trigger] w0[k]),
        forall|k: int| 0 <= k < w1.len() ==> spec_is_whitespace(#[trigger] w1[k]),
        forall|k: int| 0 <= k < w2.len() ==> spec_is_whitespace(#[trigger] w2[k]),
    ensures
        spec_parse(w0 + show_term(h) + w1 + seq!['.'] + w2) == Some(
            seq![SpecClause { head: h, body: Seq::empty() }],
        ),
{
    let ht = show_term(h);
    let dot = seq!['.'];
    let s = w0 + ht + w1 + dot + w2;
    let i = w0.len() as int;
    let e0 = i + ht.len();
    let q = e0 + w1.len();
    let end = q + 1 + w2.len();
    assert(s.len() == end);
    assert(holds_at(s, 0, s)) by {
        assert(s.subrange(0, s.len() as int) =~= s);
    }
    lemma_holds_split(s, 0, w0 + ht + w1 + dot, w2);
    lemma_holds_split(s, 0, w0 + ht + w1, dot);
    lemma_holds_split(s, 0, w0 + ht, w1);
    lemma_holds_split(s, 0, w0, ht);
    lemma_holds_index(s, q, dot, 0);
    lemma_show_term_start(h);
    lemma_holds_index(s, i, ht, 0);
    if w1.len() > 0 {
        lemma_holds_index(s, e0, w1, 0);
    }
    assert(ends_term(s, e0));
    lemma_skip_ws_run(s, 0, w0);
    lemma_read_term(s, i, h);
    lemma_skip_ws_none(s, i);
    lemma_skip_ws_run(s, e0, w1);
    assert(p_term(s, i) == Some((h, q)));
    lemma_skip_ws_run(s, q + 1, w2);
    let c = SpecClause { head: h, body: Seq::empty() };
    assert(p_clause(s, 0) == Some((c, end)));
    lemma_skip_ws_none(s, end);
    assert(p_var(s, end) is None);
    assert(p_atom(s, end) is None);
    assert(p_inner(s, end) is None);
    assert(p_term(s, end) is None);
    assert(p_clause(s, end) is None);
    assert(p_clauses(s, end, seq![c]) == (seq![c], end));
    assert(Seq::<SpecClause>::empty().push(c) =~= seq![c]);
    assert(p_clauses(s, 0, Seq::empty()) == (seq![c], end));
}

} // verus!
