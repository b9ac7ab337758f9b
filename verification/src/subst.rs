//! Substitutions: finite maps from variable names to terms.
use vstd::prelude::*;

use crate::ast::{clone_term, term_eq, term_view, SpecTerm, Term};

verus! {

/// The mathematical model of a substitution.
pub type SpecSubst = Map<Seq<char>, SpecTerm>;

/// No name is bound twice.
pub open spec fn keys_distinct(e: Seq<(String, Term)>) -> bool {
    forall|i: int, j: int| 0 <= i < j < e.len() ==> e[i].0@ != e[j].0@
}

/// The map that a list of bindings stands for.
pub open spec fn map_of(e: Seq<(String, Term)>) -> SpecSubst
    decreases e.len(),
{
    if e.len() == 0 {
        Map::empty()
    } else {
        map_of(e.drop_last()).insert(e.last().0@, term_view(e.last().1))
    }
}

/// Which names a list of bindings binds, and to what.
pub proof fn lemma_map_of(e: Seq<(String, Term)>)
    requires
        keys_distinct(e),
    ensures
        map_of(e).dom().finite(),
        map_of(e).dom().len() == e.len(),
        forall|k: Seq<char>|
            #![trigger map_of(e).dom().contains(k)]
            map_of(e).dom().contains(k) <==> exists|i: int| 0 <= i < e.len() && e[i].0@ == k,
        forall|i: int|
            #![trigger e[i]]
            0 <= i < e.len() ==> map_of(e).dom().contains(e[i].0@) && map_of(e)[e[i].0@]
                == term_view(e[i].1),
    decreases e.len(),
{
    if e.len() > 0 {
        let p = e.drop_last();
        assert(keys_distinct(p));
        lemma_map_of(p);
        let k = e.last().0@;
        assert(!map_of(p).dom().contains(k)) by {
            if map_of(p).dom().contains(k) {
                let i = choose|i: int| 0 <= i < p.len() && p[i].0@ == k;
                assert(e[i].0@ == e[e.len() - 1].0@);
            }
        }
        assert forall|k2: Seq<char>|
            map_of(e).dom().contains(k2) implies exists|i: int|
                0 <= i < e.len() && e[i].0@ == k2 by {
            if k2 != k {
                let i = choose|i: int| 0 <= i < p.len() && p[i].0@ == k2;
                assert(e[i] == p[i]);
            } else {
                assert(e[e.len() - 1].0@ == k2);
            }
        }
        assert forall|k2: Seq<char>|
            (exists|i: int| 0 <= i < e.len() && e[i].0@ == k2) implies map_of(
                e,
            ).dom().contains(k2) by {
            let i = choose|i: int| 0 <= i < e.len() && e[i].0@ == k2;
            if i < e.len() - 1 {
                assert(p[i] == e[i]);
            }
        }
        assert forall|i: int| 0 <= i < e.len() implies map_of(e).dom().contains(e[i].0@)
            && map_of(e)[e[i].0@] == term_view(e[i].1) by {
            if i < e.len() - 1 {
                assert(p[i] == e[i]);
            }
        }
    }
}

/// Rebinding a bound name in place gives the updated map.
proof fn lemma_map_of_update(e: Seq<(String, Term)>, i: int, k: String, v: Term)
    requires
        keys_distinct(e),
        0 <= i < e.len(),
        e[i].0@ == k@,
    ensures
        keys_distinct(e.update(i, (k, v))),
        map_of(e.update(i, (k, v))) == map_of(e).insert(k@, term_view(v)),
{
    let e2 = e.update(i, (k, v));
    assert(keys_distinct(e2)) by {
        assert forall|a: int, b: int| 0 <= a < b < e2.len() implies e2[a].0@ != e2[b].0@ by {
            assert(e[a].0@ != e[b].0@);
        }
    }
    lemma_map_of(e);
    lemma_map_of(e2);
    assert forall|k2: Seq<char>| #[trigger]
        map_of(e2).dom().contains(k2) <==> map_of(e).insert(k@, term_view(v)).dom().contains(
            k2,
        ) by {
        if map_of(e2).dom().contains(k2) {
            let j = choose|j: int| 0 <= j < e2.len() && e2[j].0@ == k2;
            if j != i {
                assert(e[j] == e2[j]);
            }
        }
        if map_of(e).dom().contains(k2) {
            let j = choose|j: int| 0 <= j < e.len() && e[j].0@ == k2;
            if j != i {
                assert(e[j] == e2[j]);
            } else {
                assert(e2[i].0@ == k2);
            }
        }
        if k2 == k@ {
            assert(e2[i].0@ == k2);
        }
    }
    assert forall|k2: Seq<char>| #[trigger]
        map_of(e2).dom().contains(k2) implies map_of(e2)[k2] == map_of(e).insert(
        k@,
        term_view(v),
    )[k2] by {
        let j = choose|j: int| 0 <= j < e2.len() && e2[j].0@ == k2;
        if j != i {
            assert(e[j] == e2[j]);
        }
    }
    assert(map_of(e2) =~= map_of(e).insert(k@, term_view(v)));
}

/// A substitution: each bound variable name is bound to one term.
#[derive(Debug)]
pub struct Substitutions {
    entries: Vec<(String, Term)>,
}

impl Substitutions {
    #[verifier::type_invariant]
    spec fn inv(self) -> bool {
        keys_distinct(self.entries@)
    }

    pub closed spec fn spec_entries(self) -> Seq<(String, Term)> {
        self.entries@
    }
}

impl View for Substitutions {
    type V = SpecSubst;

    closed spec fn view(&self) -> SpecSubst {
        map_of(self.entries@)
    }
}

impl Substitutions {
    /// The substitution that binds nothing.
    pub fn new() -> (r: Self)
        ensures
            r@ == SpecSubst::empty(),
    {
        Substitutions { entries: Vec::new() }
    }

    /// The number of bound names.
    pub fn len(&self) -> (r: usize)
        ensures
            r == self@.dom().len(),
            self@.dom().finite(),
    {
        proof {
            use_type_invariant(self);
            lemma_map_of(self.entries@);
        }
        self.entries.len()
    }

    /// Whether no name is bound.
    pub fn is_empty(&self) -> (r: bool)
        ensures
            r == (self@ == SpecSubst::empty()),
    {
        proof {
            use_type_invariant(self);
            lemma_map_of(self.entries@);
            if self.entries@.len() > 0 {
                assert(self@.dom().contains(self.entries@[0].0@));
            }
            if self.entries@.len() == 0 {
                assert(self@ =~= SpecSubst::empty());
            }
        }
        self.entries.len() == 0
    }

    /// Where `key` is bound, its position in the list of bindings.
    fn find(&self, key: &String) -> (r: Option<usize>)
        ensures
            match r {
                Some(i) => i < self.entries@.len() && self.entries@[i as int].0@ == key@,
                None => !self@.dom().contains(key@),
            },
    {
        proof {
            use_type_invariant(self);
            lemma_map_of(self.entries@);
        }
        let mut i: usize = 0;
        while i < self.entries.len()
            invariant
                i <= self.entries@.len(),
                forall|j: int| 0 <= j < i ==> self.entries@[j].0@ != key@,
            decreases self.entries.len() - i,
        {
            if self.entries[i].0 == *key {
                return Some(i);
            }
            i = i + 1;
        }
        None
    }

    /// The term bound to `key`, where it is bound.
    pub fn get(&self, key: &str) -> (r: Option<&Term>)
        ensures
            match r {
                Some(t) => self@.dom().contains(key@) && t@ == self@[key@],
                None => !self@.dom().contains(key@),
            },
    {
        let k = key.to_owned();
        self.get_string(&k)
    }

    /// The term bound to `key`, where it is bound.
    pub fn get_string(&self, key: &String) -> (r: Option<&Term>)
        ensures
            match r {
                Some(t) => self@.dom().contains(key@) && t@ == self@[key@],
                None => !self@.dom().contains(key@),
            },
    {
        proof {
            use_type_invariant(self);
            lemma_map_of(self.entries@);
        }
        match self.find(key) {
            Some(i) => Some(&self.entries[i].1),
            None => None,
        }
    }

    /// Whether `key` is bound.
    pub fn contains_key(&self, key: &str) -> (r: bool)
        ensures
            r == self@.dom().contains(key@),
    {
        self.get(key).is_some()
    }

    /// Binds `key` to `value`, replacing any earlier binding of `key`, which is returned.
    pub fn insert(&mut self, key: String, value: Term) -> (r: Option<Term>)
        ensures
            final(self)@ == old(self)@.insert(key@, value@),
            match r {
                Some(t) => old(self)@.dom().contains(key@) && t@ == old(self)@[key@],
                None => !old(self)@.dom().contains(key@),
            },
    {
        proof {
            use_type_invariant(&*self);
            lemma_map_of(self.entries@);
        }
        let found = self.find(&key);
        let mut e: Vec<(String, Term)> = Vec::new();
        std::mem::swap(&mut e, &mut self.entries);
        let ghost e0 = e@;
        match found {
            Some(i) => {
                proof {
                    lemma_map_of_update(e0, i as int, key, value);
                }
                let old_value = clone_term(&e[i].1);
                e.set(i, (key, value));
                self.entries = e;
                Some(old_value)
            },
            None => {
                e.push((key, value));
                proof {
                    assert(e@.drop_last() =~= e0);
                    assert forall|a: int, b: int|
                        0 <= a < b < e@.len() implies e@[a].0@ != e@[b].0@ by {
                        if b == e0.len() {
                            assert(e@[a] == e0[a]);
                            assert(map_of(e0).dom().contains(e0[a].0@));
                        } else {
                            assert(e@[a] == e0[a]);
                            assert(e@[b] == e0[b]);
                        }
                    }
                }
                self.entries = e;
                None
            },
        }
    }

    /// The bindings, in the order in which they are kept.
    pub fn bindings(&self) -> (r: &Vec<(String, Term)>)
        ensures
            r@ == self.spec_entries(),
            keys_distinct(r@),
            map_of(r@) == self@,
    {
        proof {
            use_type_invariant(self);
        }
        &self.entries
    }

    /// The substitution made of a list of bindings that binds no name twice.
    pub fn from_bindings(entries: Vec<(String, Term)>) -> (r: Self)
        requires
            keys_distinct(entries@),
        ensures
            r@ == map_of(entries@),
    {
        Substitutions { entries }
    }
}

impl Clone for Substitutions {
    fn clone(&self) -> (r: Self)
        ensures
            r@ == self@,
    {
        proof {
            use_type_invariant(self);
        }
        let mut out: Vec<(String, Term)> = Vec::new();
        let mut i: usize = 0;
        while i < self.entries.len()
            invariant
                i <= self.entries@.len(),
                keys_distinct(self.entries@),
                out@.len() == i,
                forall|j: int|
                    0 <= j < i ==> (#[trigger] out@[j]).0@ == self.entries@[j].0@ && term_view(
                        out@[j].1,
                    ) == term_view(self.entries@[j].1),
            decreases self.entries.len() - i,
        {
            let k = self.entries[i].0.clone();
            let v = clone_term(&self.entries[i].1);
            out.push((k, v));
            i = i + 1;
        }
        proof {
            lemma_map_of_same(out@, self.entries@);
        }
        Substitutions { entries: out }
    }
}

/// Two lists of bindings that agree name for name and model for model stand for the same map.
pub proof fn lemma_map_of_same(a: Seq<(String, Term)>, b: Seq<(String, Term)>)
    requires
        a.len() == b.len(),
        forall|j: int|
            0 <= j < a.len() ==> (#[trigger] a[j]).0@ == b[j].0@ && term_view(a[j].1)
                == term_view(b[j].1),
    ensures
        map_of(a) == map_of(b),
    decreases a.len(),
{
    if a.len() > 0 {
        lemma_map_of_same(a.drop_last(), b.drop_last());
        assert(a.last() == a[a.len() - 1]);
    }
}

impl PartialEq for Substitutions {
    fn eq(&self, other: &Self) -> (r: bool) {
        subst_eq(self, other)
    }
}

impl vstd::std_specs::cmp::PartialEqSpecImpl for Substitutions {
    open spec fn obeys_eq_spec() -> bool {
        true
    }

    open spec fn eq_spec(&self, other: &Substitutions) -> bool {
        self@ == other@
    }
}

/// Every binding of `a` is also a binding of `b`.
pub open spec fn included(a: SpecSubst, b: SpecSubst) -> bool {
    forall|k: Seq<char>| #[trigger] a.dom().contains(k) ==> b.dom().contains(k) && b[k] == a[k]
}

/// Whether every binding of `a` is also a binding of `b`.
fn bindings_included(a: &Substitutions, b: &Substitutions) -> (r: bool)
    ensures
        r == included(a@, b@),
{
    let ea = a.bindings();
    proof {
        lemma_map_of(ea@);
    }
    let mut i: usize = 0;
    while i < ea.len()
        invariant
            i <= ea@.len(),
            keys_distinct(ea@),
            map_of(ea@) == a@,
            forall|j: int|
                0 <= j < i ==> b@.dom().contains(#[trigger] ea@[j].0@) && b@[ea@[j].0@]
                    == term_view(ea@[j].1),
        decreases ea.len() - i,
    {
        match b.get_string(&ea[i].0) {
            Some(t) => {
                if !term_eq(t, &ea[i].1) {
                    proof {
                        lemma_map_of(ea@);
                        assert(a@.dom().contains(ea@[i as int].0@));
                    }
                    return false;
                }
            },
            None => {
                proof {
                    lemma_map_of(ea@);
                    assert(a@.dom().contains(ea@[i as int].0@));
                }
                return false;
            },
        }
        i = i + 1;
    }
    proof {
        lemma_map_of(ea@);
        assert forall|k: Seq<char>| a@.dom().contains(k) implies b@.dom().contains(k) && b@[k]
            == a@[k] by {
            let j = choose|j: int| 0 <= j < ea@.len() && ea@[j].0@ == k;
            assert(ea@[j].0@ == k);
        }
    }
    true
}

/// Decides whether two substitutions bind the same names to terms with the same models.
pub fn subst_eq(a: &Substitutions, b: &Substitutions) -> (r: bool)
    ensures
        r == (a@ == b@),
{
    let ab = bindings_included(a, b);
    let ba = bindings_included(b, a);
    let r = ab && ba;
    proof {
        if r {
            assert(included(a@, b@));
            assert(included(b@, a@));
            assert forall|k: Seq<char>| #[trigger] a@.dom().contains(k) == b@.dom().contains(k) by {
                if a@.dom().contains(k) {
                    assert(b@.dom().contains(k));
                }
                if b@.dom().contains(k) {
                    assert(a@.dom().contains(k));
                }
            }
            assert(a@.dom() =~= b@.dom());
            assert forall|k: Seq<char>| a@.dom().contains(k) implies a@[k] == b@[k] by {}
            assert(a@ =~= b@);
        }
    }
    r
}

impl Eq for Substitutions {

}

} // verus!
