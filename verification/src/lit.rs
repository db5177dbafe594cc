//! Literals and sets of literals.

use vstd::prelude::*;

verus! {

broadcast use vstd::seq_lib::seq_to_set_is_finite;

/// Capability that the solvers need from a literal type: an involutive
/// negation, available both by value and by reference.
pub trait Literal: Sized {
    /// What negation means for this type.
    spec fn spec_negate(&self) -> Self;

    /// Negates a literal (owned version).
    fn negate(self) -> (r: Self)
        ensures
            r == self.spec_negate(),
    ;

    /// Negates a literal (reference version).
    fn ref_negate(&self) -> (r: Self)
        ensures
            r == self.spec_negate(),
    ;
}

/// A DIMACS-style literal: a variable index and a polarity.
#[derive(Clone, Copy, Debug, PartialEq, Eq, Hash, Structural)]
pub struct Lit {
    /// Variable index.
    pub idx: usize,
    /// True for the negated polarity.
    pub neg: bool,
}

/// The complement of a literal: same variable, other polarity.
pub open spec fn neg_lit(l: Lit) -> Lit {
    Lit { idx: l.idx, neg: !l.neg }
}

/// Strict total order on literals: by variable index, then positive before
/// negated.
pub open spec fn lit_lt(a: Lit, b: Lit) -> bool {
    a.idx < b.idx || (a.idx == b.idx && !a.neg && b.neg)
}

impl Lit {
    /// Constructor.
    pub fn new(idx: usize, neg: bool) -> (r: Self)
        ensures
            r == (Lit { idx, neg }),
    {
        Lit { idx, neg }
    }

    /// Decides the strict order `lit_lt` on two literals.
    pub fn lt(&self, other: &Lit) -> (r: bool)
        ensures
            r == lit_lt(*self, *other),
    {
        self.idx < other.idx || (self.idx == other.idx && !self.neg && other.neg)
    }
}

impl Literal for Lit {
    open spec fn spec_negate(&self) -> Lit {
        neg_lit(*self)
    }

    fn negate(self) -> (r: Self)
        ensures
            r == self.spec_negate(),
    {
        Lit { idx: self.idx, neg: !self.neg }
    }

    fn ref_negate(&self) -> (r: Self)
        ensures
            r == self.spec_negate(),
    {
        Lit { idx: self.idx, neg: !self.neg }
    }
}

/// A finite set of literals, backed by a duplicate-free vector; the
/// environment type of the plain solver, and the model type of every solver.
#[derive(Debug)]
pub struct LitSet {
    lits: Vec<Lit>,
}

impl View for LitSet {
    type V = Set<Lit>;

    closed spec fn view(&self) -> Set<Lit> {
        self.lits@.to_set()
    }
}

impl Clone for LitSet {
    fn clone(&self) -> (r: Self)
        ensures
            r@ == self@,
    {
        proof {
            use_type_invariant(self);
        }
        LitSet { lits: copy_lits(&self.lits) }
    }
}

/// Copies a vector of literals element by element.
pub(crate) fn copy_lits(v: &Vec<Lit>) -> (r: Vec<Lit>)
    ensures
        r@ == v@,
{
    let mut r: Vec<Lit> = Vec::new();
    let mut i: usize = 0;
    while i < v.len()
        invariant
            0 <= i <= v.len(),
            r@ == v@.subrange(0, i as int),
        decreases v.len() - i,
    {
        r.push(v[i]);
        proof {
            assert(r@ =~= v@.subrange(0, i + 1));
        }
        i = i + 1;
    }
    proof {
        assert(r@ =~= v@);
    }
    r
}

impl LitSet {
    #[verifier::type_invariant]
    closed spec fn wf(self) -> bool {
        forall|i: int, j: int|
            0 <= i < j < self.lits@.len() ==> (#[trigger] self.lits@[i]) != (#[trigger] self.lits@[j])
    }

    /// The empty set.
    pub fn new() -> (r: Self)
        ensures
            r@ == Set::<Lit>::empty(),
    {
        proof {
            assert(Seq::<Lit>::empty().to_set() =~= Set::<Lit>::empty());
        }
        LitSet { lits: Vec::new() }
    }

    /// Membership test.
    pub fn contains(&self, l: &Lit) -> (r: bool)
        ensures
            r == self@.contains(*l),
    {
        let mut i: usize = 0;
        while i < self.lits.len()
            invariant
                0 <= i <= self.lits.len(),
                forall|j: int| 0 <= j < i ==> self.lits@[j] != *l,
            decreases self.lits.len() - i,
        {
            if self.lits[i] == *l {
                return true;
            }
            i = i + 1;
        }
        proof {
            if self@.contains(*l) {
                let j = choose|j: int| 0 <= j < self.lits@.len() && self.lits@[j] == *l;
                assert(self.lits@[j] == *l);
            }
        }
        false
    }

    /// Inserts a literal; returns true when it was not present before.
    pub fn insert(&mut self, l: Lit) -> (r: bool)
        ensures
            final(self)@ == old(self)@.insert(l),
            r == !old(self)@.contains(l),
    {
        if self.contains(&l) {
            proof {
                assert(self@.insert(l) =~= self@);
            }
            false
        } else {
            proof {
                use_type_invariant(&*self);
            }
            let mut lits: Vec<Lit> = Vec::new();
            core::mem::swap(&mut lits, &mut self.lits);
            let ghost pre = lits@;
            lits.push(l);
            proof {
                crate::seqs::lemma_to_set_push(pre, l);
                // The new literal was absent, so no duplicate appears.
                assert forall|i: int, j: int| 0 <= i < j < lits@.len() implies (
                #[trigger] lits@[i]) != (#[trigger] lits@[j]) by {
                    if j == lits@.len() - 1 {
                        assert(pre.to_set().contains(pre[i]));
                    }
                };
            }
            self.lits = lits;
            true
        }
    }

    /// Removes a literal; returns true when it was present.
    pub fn remove(&mut self, l: &Lit) -> (r: bool)
        ensures
            final(self)@ == old(self)@.remove(*l),
            r == old(self)@.contains(*l),
    {
        let mut i: usize = 0;
        while i < self.lits.len()
            invariant
                0 <= i <= self.lits.len(),
                self.lits == old(self).lits,
                forall|j: int| 0 <= j < i ==> self.lits@[j] != *l,
            decreases self.lits.len() - i,
        {
            if self.lits[i] == *l {
                proof {
                    use_type_invariant(&*self);
                }
                let mut lits: Vec<Lit> = Vec::new();
                core::mem::swap(&mut lits, &mut self.lits);
                remove_all_eq(&mut lits, l, i);
                self.lits = lits;
                return true;
            }
            i = i + 1;
        }
        proof {
            if self@.contains(*l) {
                let j = choose|j: int| 0 <= j < self.lits@.len() && self.lits@[j] == *l;
                assert(self.lits@[j] == *l);
            }
            assert(self@.remove(*l) =~= self@);
        }
        false
    }

    /// Adds every literal of `other` to this set.
    pub fn union_with(&mut self, other: &LitSet)
        ensures
            final(self)@ == old(self)@.union(other@),
    {
        let mut i: usize = 0;
        while i < other.lits.len()
            invariant
                0 <= i <= other.lits.len(),
                self@ == old(self)@.union(other.lits@.subrange(0, i as int).to_set()),
            decreases other.lits.len() - i,
        {
            self.insert(other.lits[i]);
            proof {
                crate::seqs::lemma_subrange_push(other.lits@, i as int);
                crate::seqs::lemma_to_set_push(other.lits@.subrange(0, i as int), other.lits@[i as int]);
                assert(self@ =~= old(self)@.union(other.lits@.subrange(0, i + 1).to_set()));
            }
            i = i + 1;
        }
        proof {
            crate::seqs::lemma_subrange_all(other.lits@);
            assert(old(self)@.union(other.lits@.to_set()) =~= old(self)@.union(other@));
        }
    }

    /// Number of literals held: the set never stores a literal twice, so
    /// this is exactly the cardinality.
    pub fn len(&self) -> (r: usize)
        ensures
            self@.finite(),
            r == self@.len(),
    {
        proof {
            use_type_invariant(self);
            self.lits@.lemma_cardinality_of_set();
            assert(self.lits@.no_duplicates()) by {
                assert forall|i: int, j: int|
                    0 <= i < self.lits@.len() && 0 <= j < self.lits@.len() && i != j implies (
                #[trigger] self.lits@[i]) != (#[trigger] self.lits@[j]) by {
                    if i < j {
                    } else {
                        assert(self.lits@[j] != self.lits@[i]);
                    }
                };
            }
            self.lits@.unique_seq_to_set();
        }
        self.lits.len()
    }

    /// True when the set holds nothing.
    pub fn is_empty(&self) -> (r: bool)
        ensures
            r == (self@ == Set::<Lit>::empty()),
    {
        proof {
            if self.lits@.len() > 0 {
                assert(self@.contains(self.lits@[0]));
            }
            if self.lits@.len() == 0 {
                assert(self@ =~= Set::<Lit>::empty());
            }
        }
        self.lits.len() == 0
    }

    /// True when both sets hold exactly the same literals.
    pub fn set_eq(&self, other: &LitSet) -> (r: bool)
        ensures
            r == (self@ == other@),
    {
        if !subset_check(self, other) {
            proof {
                assert(self@ != other@);
            }
            return false;
        }
        if !subset_check(other, self) {
            proof {
                assert(self@ != other@);
            }
            return false;
        }
        proof {
            assert(self@ =~= other@);
        }
        true
    }

    /// The literals as a vector, each exactly once.
    pub fn to_vec(&self) -> (r: Vec<Lit>)
        ensures
            r@.to_set() == self@,
    {
        copy_lits(&self.lits)
    }
}

/// True when every literal of `a` is in `b`.
fn subset_check(a: &LitSet, b: &LitSet) -> (r: bool)
    ensures
        r == a@.subset_of(b@),
{
    let v = a.to_vec();
    let n = v.len();
    let mut i: usize = 0;
    while i < n
        invariant
            n == v@.len(),
            v@.to_set() == a@,
            0 <= i <= n,
            forall|k: int| 0 <= k < i ==> b@.contains(#[trigger] v@[k]),
        decreases n - i,
    {
        if !b.contains(&v[i]) {
            proof {
                assert(a@.contains(v@[i as int]));
            }
            return false;
        }
        i = i + 1;
    }
    proof {
        assert forall|x: Lit| a@.contains(x) implies b@.contains(x) by {
            let k = choose|k: int| 0 <= k < v@.len() && v@[k] == x;
        };
    }
    true
}

/// Removes from `v` the entry at `at` (which holds `l`) and every later
/// occurrence of `l`.
fn remove_all_eq(v: &mut Vec<Lit>, l: &Lit, at: usize)
    requires
        at < old(v)@.len(),
        old(v)@[at as int] == *l,
        forall|j: int| 0 <= j < at ==> old(v)@[j] != *l,
        forall|i: int, j: int|
            0 <= i < j < old(v)@.len() ==> (#[trigger] old(v)@[i]) != (#[trigger] old(v)@[j]),
    ensures
        final(v)@.to_set() == old(v)@.to_set().remove(*l),
        forall|i: int, j: int|
            0 <= i < j < final(v)@.len() ==> (#[trigger] final(v)@[i]) != (#[trigger] final(v)@[j]),
{
    let mut r: Vec<Lit> = Vec::new();
    let mut i: usize = 0;
    while i < v.len()
        invariant
            0 <= i <= v.len(),
            v@ == old(v)@,
            forall|a: int, b: int|
                0 <= a < b < old(v)@.len() ==> (#[trigger] old(v)@[a]) != (#[trigger] old(v)@[b]),
            r@.to_set() == old(v)@.subrange(0, i as int).to_set().remove(*l),
            forall|j: int| 0 <= j < r@.len() ==> r@[j] != *l,
            forall|a: int, b: int|
                0 <= a < b < r@.len() ==> (#[trigger] r@[a]) != (#[trigger] r@[b]),
        decreases v.len() - i,
    {
        let cur = v[i];
        proof {
            crate::seqs::lemma_subrange_push(old(v)@, i as int);
            crate::seqs::lemma_to_set_push(old(v)@.subrange(0, i as int), old(v)@[i as int]);
        }
        if !(cur == *l) {
            let ghost pre = r@;
            r.push(cur);
            proof {
                crate::seqs::lemma_to_set_push(pre, cur);
                // The pushed literal sits at a fresh original index, so it
                // was not collected before.
                assert forall|a: int, b: int| 0 <= a < b < r@.len() implies (#[trigger] r@[a]) != (
                #[trigger] r@[b]) by {
                    if b == r@.len() - 1 {
                        assert(pre.to_set().contains(pre[a]));
                        assert(old(v)@.subrange(0, i as int).to_set().contains(pre[a]));
                        let k = choose|k: int|
                            0 <= k < i && old(v)@.subrange(0, i as int)[k] == pre[a];
                        assert(old(v)@[k] == pre[a]);
                        assert(old(v)@[i as int] == cur);
                    }
                };
            }
        }
        proof {
            assert(r@.to_set() =~= old(v)@.subrange(0, i + 1).to_set().remove(*l));
        }
        i = i + 1;
    }
    proof {
        crate::seqs::lemma_subrange_all(old(v)@);
    }
    *v = r;
}

} // verus!
