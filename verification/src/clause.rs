//! Clauses, CNF formulas, and their labelled counterparts.

use vstd::prelude::*;

use crate::lit::{neg_lit, lit_lt, Lit, LitSet, Literal};

verus! {

broadcast use vstd::seq_lib::seq_to_set_is_finite;

/// Strict ascending order with respect to `lit_lt`; such a sequence holds no
/// literal twice.
pub open spec fn strictly_sorted(s: Seq<Lit>) -> bool {
    forall|i: int, j: int| 0 <= i < j < s.len() ==> lit_lt(s[i], s[j])
}

/// A strictly sorted sequence holds each literal at most once.
pub proof fn lemma_sorted_no_dup(s: Seq<Lit>)
    requires
        strictly_sorted(s),
    ensures
        forall|i: int, j: int| 0 <= i < j < s.len() ==> s[i] != s[j],
{
    assert forall|i: int, j: int| 0 <= i < j < s.len() implies s[i] != s[j] by {
        assert(lit_lt(s[i], s[j]));
    };
}

/// A disjunction of literals: an ordered, duplicate-free set, kept strictly
/// sorted at all times.
#[derive(Debug)]
pub struct Clause {
    lits: Vec<Lit>,
}

impl View for Clause {
    type V = Seq<Lit>;

    closed spec fn view(&self) -> Seq<Lit> {
        self.lits@
    }
}

impl Clone for Clause {
    fn clone(&self) -> (r: Self)
        ensures
            r@ == self@,
    {
        proof {
            use_type_invariant(self);
        }
        Clause { lits: crate::lit::copy_lits(&self.lits) }
    }
}

impl Clause {
    #[verifier::type_invariant]
    closed spec fn wf(self) -> bool {
        strictly_sorted(self.lits@)
    }

    /// Builds a clause from arbitrary literals: they come out sorted, each at
    /// most once.
    pub fn new(lits: Vec<Lit>) -> (r: Self)
        ensures
            r@.to_set() == lits@.to_set(),
            strictly_sorted(r@),
    {
        let mut r = Clause::empty();
        let mut i: usize = 0;
        while i < lits.len()
            invariant
                0 <= i <= lits.len(),
                r@.to_set() == lits@.subrange(0, i as int).to_set(),
                strictly_sorted(r@),
            decreases lits.len() - i,
        {
            r.push(lits[i]);
            proof {
                crate::seqs::lemma_subrange_push(lits@, i as int);
                crate::seqs::lemma_to_set_push(lits@.subrange(0, i as int), lits@[i as int]);
            }
            i = i + 1;
        }
        proof {
            crate::seqs::lemma_subrange_all(lits@);
        }
        r
    }

    /// The empty clause: a contradiction, satisfied by no assignment.
    pub fn empty() -> (r: Self)
        ensures
            r@ == Seq::<Lit>::empty(),
    {
        Clause { lits: Vec::new() }
    }

    /// An empty clause; the capacity is only a size hint.
    pub fn with_capacity(capa: usize) -> (r: Self)
        ensures
            r@ == Seq::<Lit>::empty(),
    {
        Clause { lits: Vec::with_capacity(capa) }
    }

    /// Checks that the literals are strictly sorted and duplicate-free; this
    /// holds of every clause, so the result is always true.
    pub fn invariant_holds(&self) -> (r: bool)
        ensures
            r,
            strictly_sorted(self@),
    {
        proof {
            use_type_invariant(self);
        }
        let mut i: usize = 1;
        let mut ok = true;
        while i < self.lits.len()
            invariant
                1 <= i,
                strictly_sorted(self.lits@),
                ok,
            decreases self.lits.len() - i,
        {
            if !self.lits[i - 1].lt(&self.lits[i]) {
                ok = false;
                proof {
                    assert(lit_lt(self.lits@[i - 1], self.lits@[i as int]));
                }
            }
            i = i + 1;
        }
        ok
    }

    /// Number of literals.
    pub fn len(&self) -> (r: usize)
        ensures
            r == self@.len(),
    {
        self.lits.len()
    }

    /// The literals, in order.
    pub fn iter(&self) -> (r: &Vec<Lit>)
        ensures
            r@ == self@,
    {
        &self.lits
    }

    /// True when the clause holds no literal.
    pub fn is_empty(&self) -> (r: bool)
        ensures
            r == (self@.len() == 0),
    {
        self.lits.len() == 0
    }

    /// Drops every literal.
    pub fn clear(&mut self)
        ensures
            final(self)@ == Seq::<Lit>::empty(),
    {
        self.lits = Vec::new();
    }

    /// Ordered insertion: the literal takes its sorted place, and inserting a
    /// literal already present changes nothing.
    pub fn push(&mut self, lit: Lit)
        ensures
            final(self)@.to_set() == old(self)@.to_set().insert(lit),
            strictly_sorted(final(self)@),
            old(self)@.to_set().contains(lit) ==> final(self)@ == old(self)@,
            !old(self)@.to_set().contains(lit) ==> final(self)@.len() == old(self)@.len() + 1,
            final(self)@.contains(lit),
            (forall|k: int| 0 <= k < old(self)@.len() ==> lit_lt(#[trigger] old(self)@[k], lit))
                ==> final(self)@ == old(self)@.push(lit),
    {
        proof {
            use_type_invariant(&*self);
        }
        let mut lits: Vec<Lit> = Vec::new();
        core::mem::swap(&mut lits, &mut self.lits);
        let ghost s = lits@;
        let mut i: usize = 0;
        while i < lits.len() && lits[i].lt(&lit)
            invariant
                lits@ == s,
                0 <= i <= s.len(),
                forall|j: int| 0 <= j < i ==> lit_lt(s[j], lit),
            decreases lits.len() - i,
        {
            i = i + 1;
        }
        // `i` is the first position whose literal is not below `lit`.
        if i < lits.len() && lits[i] == lit {
            proof {
                assert(s.to_set().contains(lit));
                assert(s.to_set().insert(lit) =~= s.to_set());
            }
            self.lits = lits;
        } else {
            proof {
                if s.to_set().contains(lit) {
                    let p = choose|p: int| 0 <= p < s.len() && s[p] == lit;
                    // The scan cannot have stopped before or after `p`.
                    assert(strictly_sorted(s));
                    if i < p {
                        assert(lit_lt(s[i as int], s[p]));
                        assert(false);
                    }
                    if i > p {
                        assert(lit_lt(s[p], lit) == false);
                        assert(false);
                    }
                    assert(false);
                }
                s.insert_ensures(i as int, lit);
            }
            lits.insert(i, lit);
            proof {
                let t = s.insert(i as int, lit);
                assert(lits@ == t);
                assert forall|a: int, b: int| 0 <= a < b < t.len() implies lit_lt(t[a], t[b]) by {
                    if b < i {
                        assert(t[a] == s[a] && t[b] == s[b]);
                    } else if a < i && b == i {
                        assert(t[a] == s[a]);
                    } else if a < i && b > i {
                        assert(t[a] == s[a] && t[b] == s[b - 1]);
                        if a < b - 1 {
                        } else {
                            // a == b - 1 > ... a < i <= b - 1 so a <= i - 1 < b - 1
                            // hence a < b - 1 always here except a == i - 1 == b - 1
                            // which contradicts b > i.
                            assert(a == b - 1 && b - 1 >= i);
                            assert(false);
                        }
                    } else if a == i {
                        assert(t[a] == lit && t[b] == s[b - 1]);
                        assert(b - 1 >= i);
                        // lit is below s[i] since the scan stopped without a match.
                        assert(!lit_lt(s[i as int], lit) && s[i as int] != lit);
                        assert(lit_lt(lit, s[i as int]));
                        if b - 1 > i {
                            assert(lit_lt(s[i as int], s[b - 1]));
                        }
                    } else {
                        assert(t[a] == s[a - 1] && t[b] == s[b - 1]);
                    }
                };
                crate::seqs::lemma_insert_to_set(s, i as int, lit);
                assert(t[i as int] == lit);
                assert(t.contains(lit));
                // A literal above every present one lands at the end.
                if forall|k: int| 0 <= k < s.len() ==> lit_lt(#[trigger] s[k], lit) {
                    assert(i == s.len());
                    assert(t =~= s.push(lit));
                }
            }
            self.lits = lits;
        }
    }

    /// True when both clauses hold the same literals in the same order.
    pub fn same_as(&self, other: &Clause) -> (r: bool)
        ensures
            r == (self@ == other@),
    {
        let n = self.lits.len();
        if n != other.lits.len() {
            proof {
                assert(self@ != other@);
            }
            return false;
        }
        let mut i: usize = 0;
        while i < n
            invariant
                n == self@.len() == other@.len(),
                0 <= i <= n,
                forall|k: int| 0 <= k < i ==> self@[k] == other@[k],
            decreases n - i,
        {
            if !(self.lits[i] == other.lits[i]) {
                return false;
            }
            i = i + 1;
        }
        proof {
            assert(self@ =~= other@);
        }
        true
    }

    /// Hands the literals out and leaves the clause empty.
    pub fn drain(&mut self) -> (r: Vec<Lit>)
        ensures
            r@ == old(self)@,
            final(self)@ == Seq::<Lit>::empty(),
    {
        let mut lits: Vec<Lit> = Vec::new();
        core::mem::swap(&mut lits, &mut self.lits);
        lits
    }

    /// Capacity hint only; the literals are untouched.
    pub fn shrink_to_fit(&mut self)
        ensures
            final(self)@ == old(self)@,
    {
    }
}

/// A CNF formula: a conjunction of clauses.
#[derive(Debug)]
pub struct Cnf {
    clauses: Vec<Clause>,
}

impl View for Cnf {
    type V = Seq<Seq<Lit>>;

    closed spec fn view(&self) -> Seq<Seq<Lit>> {
        self.clauses@.map_values(|c: Clause| c@)
    }
}

impl Clone for Cnf {
    fn clone(&self) -> (r: Self)
        ensures
            r@ == self@,
    {
        let mut clauses: Vec<Clause> = Vec::new();
        let mut i: usize = 0;
        while i < self.clauses.len()
            invariant
                0 <= i <= self.clauses@.len(),
                clauses@.len() == i,
                forall|j: int| 0 <= j < i ==> clauses@[j]@ == #[trigger] self.clauses@[j]@,
            decreases self.clauses.len() - i,
        {
            clauses.push(self.clauses[i].clone());
            i = i + 1;
        }
        let r = Cnf { clauses };
        proof {
            assert(r@ =~= self@);
        }
        r
    }
}

impl Cnf {
    /// Constructor from a vector of clauses.
    pub fn new(clauses: Vec<Clause>) -> (r: Self)
        ensures
            r@.len() == clauses@.len(),
            forall|i: int| 0 <= i < clauses@.len() ==> r@[i] == #[trigger] clauses@[i]@,
    {
        Cnf { clauses }
    }

    /// The empty formula, satisfied by anything.
    pub fn empty() -> (r: Self)
        ensures
            r@ == Seq::<Seq<Lit>>::empty(),
    {
        let r = Cnf { clauses: Vec::new() };
        proof {
            assert(r@ =~= Seq::<Seq<Lit>>::empty());
        }
        r
    }

    /// An empty formula; the capacity is only a size hint.
    pub fn with_capacity(capa: usize) -> (r: Self)
        ensures
            r@ == Seq::<Seq<Lit>>::empty(),
    {
        let r = Cnf { clauses: Vec::with_capacity(capa) };
        proof {
            assert(r@ =~= Seq::<Seq<Lit>>::empty());
        }
        r
    }

    /// Number of clauses.
    pub fn len(&self) -> (r: usize)
        ensures
            r == self@.len(),
    {
        self.clauses.len()
    }

    /// True when the formula holds no clause.
    pub fn is_empty(&self) -> (r: bool)
        ensures
            r == (self@.len() == 0),
    {
        self.clauses.len() == 0
    }

    /// The clause at an index; like every clause, it is strictly sorted.
    pub fn get(&self, i: usize) -> (r: &Clause)
        requires
            i < self@.len(),
        ensures
            r@ == self@[i as int],
            strictly_sorted(self@[i as int]),
    {
        let r = &self.clauses[i];
        proof {
            use_type_invariant(r);
        }
        r
    }

    /// Appends a clause.
    pub fn push(&mut self, clause: Clause)
        ensures
            final(self)@ == old(self)@.push(clause@),
    {
        self.clauses.push(clause);
        proof {
            assert(self@ =~= old(self)@.push(clause@));
        }
    }

    /// Turns the formula into a labelled one, every clause with an empty
    /// label set.
    pub fn into_lcnf(self) -> (r: LCnf)
        ensures
            r@.len() == self@.len(),
            forall|i: int|
                0 <= i < self@.len() ==> (#[trigger] r@[i]).clause_view() == self@[i]
                    && r@[i].labels_view() == Set::<Lit>::empty(),
    {
        let ghost v = self@;
        let clauses = self.into_iter();
        let mut out: Vec<LClause> = Vec::new();
        let mut i: usize = 0;
        let n = clauses.len();
        let mut rest = clauses;
        while i < n
            invariant
                n == v.len(),
                rest@.len() == v.len(),
                forall|j: int| 0 <= j < v.len() ==> (#[trigger] rest@[j]@) == v[j],
                0 <= i <= n,
                out@.len() == i,
                forall|j: int|
                    0 <= j < i ==> (#[trigger] out@[j]).clause_view() == v[j]
                        && out@[j].labels_view() == Set::<Lit>::empty(),
            decreases n - i,
        {
            let c = rest[i].clone();
            out.push(LClause::new(c));
            i = i + 1;
        }
        LCnf::new(out)
    }

    /// Consumes the formula into its clauses.
    pub fn into_iter(self) -> (r: Vec<Clause>)
        ensures
            r@.len() == self@.len(),
            forall|i: int| 0 <= i < r@.len() ==> (#[trigger] r@[i]@) == self@[i],
    {
        self.clauses
    }
}

/// A clause together with the set of decision literals its derivation
/// depended on; only the clause-learning solver uses labels.
#[derive(Debug)]
pub struct LClause {
    clause: Clause,
    labels: LitSet,
}

impl Clone for LClause {
    fn clone(&self) -> (r: Self)
        ensures
            r.clause_view() == self.clause_view(),
            r.labels_view() == self.labels_view(),
    {
        LClause { clause: self.clause.clone(), labels: self.labels.clone() }
    }
}

impl LClause {
    /// The literals of the clause part.
    pub closed spec fn clause_view(&self) -> Seq<Lit> {
        self.clause@
    }

    /// The label set.
    pub closed spec fn labels_view(&self) -> Set<Lit> {
        self.labels@
    }

    /// Constructor with no labels.
    pub fn new(clause: Clause) -> (r: Self)
        ensures
            r.clause_view() == clause@,
            r.labels_view() == Set::<Lit>::empty(),
    {
        LClause { clause, labels: LitSet::new() }
    }

    /// Constructor from a clause and some labels.
    pub fn new_with(clause: Clause, labels: LitSet) -> (r: Self)
        ensures
            r.clause_view() == clause@,
            r.labels_view() == labels@,
    {
        LClause { clause, labels }
    }

    /// An empty clause with no labels.
    pub fn empty() -> (r: Self)
        ensures
            r.clause_view() == Seq::<Lit>::empty(),
            r.labels_view() == Set::<Lit>::empty(),
    {
        LClause { clause: Clause::empty(), labels: LitSet::new() }
    }

    /// An empty clause with a set of labels.
    pub fn empty_with(labels: LitSet) -> (r: Self)
        ensures
            r.clause_view() == Seq::<Lit>::empty(),
            r.labels_view() == labels@,
    {
        LClause { clause: Clause::empty(), labels }
    }

    /// Clause accessor; like every clause, it is strictly sorted.
    pub fn clause(&self) -> (r: &Clause)
        ensures
            r@ == self.clause_view(),
            strictly_sorted(self.clause_view()),
    {
        let r = &self.clause;
        proof {
            use_type_invariant(r);
        }
        r
    }

    /// Labels accessor.
    pub fn labels(&self) -> (r: &LitSet)
        ensures
            r@ == self.labels_view(),
    {
        &self.labels
    }

    /// Ordered insertion into the clause part.
    pub fn push(&mut self, lit: Lit)
        ensures
            final(self).clause_view().to_set() == old(self).clause_view().to_set().insert(lit),
            final(self).labels_view() == old(self).labels_view(),
            final(self).clause_view().contains(lit),
    {
        self.clause.push(lit);
    }

    /// Removes a label; returns true when it was there.
    pub fn labels_remove(&mut self, l: &Lit) -> (r: bool)
        ensures
            final(self).labels_view() == old(self).labels_view().remove(*l),
            final(self).clause_view() == old(self).clause_view(),
            r == old(self).labels_view().contains(*l),
    {
        self.labels.remove(l)
    }
}

/// Two labelled clauses with the same literals and the same labels.
pub open spec fn lclause_eqv(a: LClause, b: LClause) -> bool {
    a.clause_view() == b.clause_view() && a.labels_view() == b.labels_view()
}

/// Some element of the collection equals the clause, label set included.
pub open spec fn eqv_in(a: LClause, d: Seq<LClause>) -> bool {
    exists|j: int| 0 <= j < d.len() && #[trigger] lclause_eqv(a, d[j])
}

impl LClause {
    /// True when the other labelled clause holds the same literals and the
    /// same labels.
    pub fn same_as(&self, other: &LClause) -> (r: bool)
        ensures
            r == lclause_eqv(*self, *other),
    {
        self.clause.same_as(&other.clause) && self.labels.set_eq(&other.labels)
    }
}

/// A labelled CNF: the working formula of the clause-learning solver.
#[derive(Debug)]
pub struct LCnf {
    clauses: Vec<LClause>,
}

impl View for LCnf {
    type V = Seq<LClause>;

    closed spec fn view(&self) -> Seq<LClause> {
        self.clauses@
    }
}

impl Clone for LCnf {
    fn clone(&self) -> (r: Self)
        ensures
            r@.len() == self@.len(),
            forall|i: int|
                0 <= i < self@.len() ==> (#[trigger] r@[i]).clause_view() == self@[i].clause_view()
                    && r@[i].labels_view() == self@[i].labels_view(),
    {
        let mut clauses: Vec<LClause> = Vec::new();
        let mut i: usize = 0;
        while i < self.clauses.len()
            invariant
                0 <= i <= self.clauses@.len(),
                clauses@.len() == i,
                forall|j: int|
                    0 <= j < i ==> (#[trigger] clauses@[j]).clause_view()
                        == self.clauses@[j].clause_view() && clauses@[j].labels_view()
                        == self.clauses@[j].labels_view(),
            decreases self.clauses.len() - i,
        {
            clauses.push(self.clauses[i].clone());
            i = i + 1;
        }
        LCnf { clauses }
    }
}

impl LCnf {
    /// Constructor from a vector of labelled clauses.
    pub fn new(clauses: Vec<LClause>) -> (r: Self)
        ensures
            r@ == clauses@,
    {
        LCnf { clauses }
    }

    /// The empty labelled formula.
    pub fn empty() -> (r: Self)
        ensures
            r@ == Seq::<LClause>::empty(),
    {
        LCnf { clauses: Vec::new() }
    }

    /// An empty labelled formula; the capacity is only a size hint.
    pub fn with_capacity(capa: usize) -> (r: Self)
        ensures
            r@ == Seq::<LClause>::empty(),
    {
        LCnf { clauses: Vec::with_capacity(capa) }
    }

    /// Number of clauses.
    pub fn len(&self) -> (r: usize)
        ensures
            r == self@.len(),
    {
        self.clauses.len()
    }

    /// True when no clause is left.
    pub fn is_empty(&self) -> (r: bool)
        ensures
            r == (self@.len() == 0),
    {
        self.clauses.len() == 0
    }

    /// The labelled clause at an index.
    pub fn get(&self, i: usize) -> (r: &LClause)
        requires
            i < self@.len(),
        ensures
            *r == self@[i as int],
    {
        &self.clauses[i]
    }

    /// Appends a labelled clause.
    pub fn push(&mut self, clause: LClause)
        ensures
            final(self)@ == old(self)@.push(clause),
    {
        self.clauses.push(clause);
    }

    /// Appends clones of every clause of `other`.
    pub fn extend(&mut self, other: &LCnf)
        ensures
            final(self)@.len() == old(self)@.len() + other@.len(),
            forall|i: int|
                0 <= i < old(self)@.len() ==> final(self)@[i] == #[trigger] old(self)@[i],
            forall|i: int|
                0 <= i < other@.len() ==> (#[trigger] final(self)@[old(self)@.len() + i]).clause_view()
                    == other@[i].clause_view() && final(self)@[old(self)@.len()
                    + i].labels_view() == other@[i].labels_view(),
    {
        let mut i: usize = 0;
        while i < other.clauses.len()
            invariant
                0 <= i <= other.clauses@.len(),
                self.clauses@.len() == old(self).clauses@.len() + i,
                forall|j: int|
                    0 <= j < old(self).clauses@.len() ==> self.clauses@[j] == #[trigger] old(
                        self,
                    ).clauses@[j],
                forall|j: int|
                    0 <= j < i ==> (#[trigger] self.clauses@[old(self).clauses@.len() + j]).clause_view()
                        == other.clauses@[j].clause_view() && self.clauses@[old(
                        self,
                    ).clauses@.len() + j].labels_view() == other.clauses@[j].labels_view(),
            decreases other.clauses.len() - i,
        {
            self.clauses.push(other.clauses[i].clone());
            i = i + 1;
        }
    }

    /// Appends a labelled clause unless an equal one is already there: the
    /// collection stays a set.
    pub fn insert_unique(&mut self, c: LClause)
        ensures
            forall|i: int|
                #![trigger final(self)@[i]]
                0 <= i < final(self)@.len() ==> (eqv_in(final(self)@[i], old(self)@)
                    || lclause_eqv(final(self)@[i], c)),
            eqv_in(c, final(self)@),
            forall|j: int|
                #![trigger old(self)@[j]]
                0 <= j < old(self)@.len() ==> eqv_in(old(self)@[j], final(self)@),
    {
        let n = self.clauses.len();
        let mut i: usize = 0;
        while i < n
            invariant
                n == self@.len(),
                self@ == old(self)@,
                0 <= i <= n,
            decreases n - i,
        {
            if self.clauses[i].same_as(&c) {
                proof {
                    assert(lclause_eqv(c, self@[i as int]));
                    assert(eqv_in(c, self@));
                    assert forall|q: int| #![trigger self@[q]] 0 <= q < self@.len() implies eqv_in(
                        self@[q],
                        old(self)@,
                    ) by {
                        assert(lclause_eqv(self@[q], old(self)@[q]));
                    };
                    assert forall|j: int| #![trigger old(self)@[j]]
                        0 <= j < old(self)@.len() implies eqv_in(old(self)@[j], self@) by {
                        assert(lclause_eqv(old(self)@[j], self@[j]));
                    };
                }
                return ;
            }
            i = i + 1;
        }
        let ghost pre = self@;
        self.clauses.push(c);
        proof {
            assert(self@ == pre.push(c));
            assert(lclause_eqv(c, self@[pre.len() as int]));
            assert(eqv_in(c, self@));
            assert forall|q: int| #![trigger self@[q]] 0 <= q < self@.len() implies (eqv_in(
                self@[q],
                pre,
            ) || lclause_eqv(self@[q], c)) by {
                if q < pre.len() {
                    assert(lclause_eqv(self@[q], pre[q]));
                }
            };
            assert forall|j: int| #![trigger pre[j]] 0 <= j < pre.len() implies eqv_in(
                pre[j],
                self@,
            ) by {
                assert(lclause_eqv(pre[j], self@[j]));
            };
        }
    }

    /// Clones every clause of `other` in, each unless an equal one is
    /// already there.
    pub fn extend_unique(&mut self, other: &LCnf)
        ensures
            forall|i: int|
                #![trigger final(self)@[i]]
                0 <= i < final(self)@.len() ==> (eqv_in(final(self)@[i], old(self)@) || eqv_in(
                    final(self)@[i],
                    other@,
                )),
    {
        proof {
            assert forall|q: int| #![trigger self@[q]] 0 <= q < self@.len() implies eqv_in(
                self@[q],
                old(self)@,
            ) by {
                assert(lclause_eqv(self@[q], old(self)@[q]));
            };
        }
        let n = other.clauses.len();
        let mut i: usize = 0;
        while i < n
            invariant
                n == other@.len(),
                0 <= i <= n,
                forall|q: int|
                    #![trigger self@[q]]
                    0 <= q < self@.len() ==> (eqv_in(self@[q], old(self)@) || eqv_in(
                        self@[q],
                        other@,
                    )),
            decreases n - i,
        {
            let ghost mid = self@;
            let cloned = other.clauses[i].clone();
            self.insert_unique(cloned);
            proof {
                assert forall|q: int| #![trigger self@[q]] 0 <= q < self@.len() implies (eqv_in(
                    self@[q],
                    old(self)@,
                ) || eqv_in(self@[q], other@)) by {
                    if eqv_in(self@[q], mid) {
                        let j = choose|j: int|
                            0 <= j < mid.len() && #[trigger] lclause_eqv(self@[q], mid[j]);
                        if eqv_in(mid[j], old(self)@) {
                            let k = choose|k: int|
                                0 <= k < old(self)@.len() && #[trigger] lclause_eqv(
                                    mid[j],
                                    old(self)@[k],
                                );
                            assert(lclause_eqv(self@[q], old(self)@[k]));
                        } else {
                            let k = choose|k: int|
                                0 <= k < other@.len() && #[trigger] lclause_eqv(
                                    mid[j],
                                    other@[k],
                                );
                            assert(lclause_eqv(self@[q], other@[k]));
                        }
                    } else {
                        assert(lclause_eqv(self@[q], cloned));
                        assert(lclause_eqv(self@[q], other@[i as int]));
                        assert(eqv_in(self@[q], other@));
                    }
                };
            }
            i = i + 1;
        }
    }

    /// Consumes the formula into its labelled clauses.
    pub fn into_iter(self) -> (r: Vec<LClause>)
        ensures
            r@ == self@,
    {
        self.clauses
    }
}

} // verus!
