//! The dependency-tracking environment: a finite map from assumed literals
//! to the decision literals their assumption depended on.

use vstd::prelude::*;
use vstd::pervasive::VecAdditionalExecFns;

use crate::lit::{Lit, LitSet};

verus! {

/// The map described by a sequence of entries; later entries win, though the
/// type keeps keys distinct so it never matters.
pub closed spec fn map_of(s: Seq<(Lit, LitSet)>) -> Map<Lit, Set<Lit>>
    decreases s.len(),
{
    if s.len() == 0 {
        Map::empty()
    } else {
        map_of(s.drop_last()).insert(s.last().0, s.last().1@)
    }
}

/// A map from literals to their dependency sets, backed by a vector with
/// distinct keys.
#[derive(Debug)]
pub struct DepMap {
    entries: Vec<(Lit, LitSet)>,
}

impl View for DepMap {
    type V = Map<Lit, Set<Lit>>;

    closed spec fn view(&self) -> Map<Lit, Set<Lit>> {
        map_of(self.entries@)
    }
}

/// However its entries look, the map of a finite entry sequence has a finite
/// domain.
proof fn lemma_map_of_dom_finite(s: Seq<(Lit, LitSet)>)
    ensures
        map_of(s).dom().finite(),
    decreases s.len(),
{
    if s.len() > 0 {
        lemma_map_of_dom_finite(s.drop_last());
    }
}

/// Key facts about `map_of` under distinct keys.
proof fn lemma_map_of(s: Seq<(Lit, LitSet)>)
    requires
        forall|i: int, j: int| 0 <= i < j < s.len() ==> (#[trigger] s[i]).0 != (#[trigger] s[j]).0,
    ensures
        forall|l: Lit|
            map_of(s).dom().contains(l) <==> exists|i: int| 0 <= i < s.len() && (#[trigger] s[i]).0 == l,
        forall|i: int| 0 <= i < s.len() ==> map_of(s)[(#[trigger] s[i]).0] == s[i].1@,
        map_of(s).dom().finite(),
        map_of(s).dom().len() == s.len(),
    decreases s.len(),
{
    if s.len() > 0 {
        let t = s.drop_last();
        lemma_map_of(t);
        assert forall|l: Lit| map_of(s).dom().contains(l) implies exists|i: int|
            0 <= i < s.len() && (#[trigger] s[i]).0 == l by {
            if l == s.last().0 {
                assert(s[s.len() - 1].0 == l);
            } else {
                let i = choose|i: int| 0 <= i < t.len() && (#[trigger] t[i]).0 == l;
                assert(s[i].0 == l);
            }
        };
        assert forall|l: Lit| (exists|i: int| 0 <= i < s.len() && (#[trigger] s[i]).0 == l)
            implies map_of(s).dom().contains(l) by {
            let i = choose|i: int| 0 <= i < s.len() && (#[trigger] s[i]).0 == l;
            if i < s.len() - 1 {
                assert(t[i].0 == l);
                assert(map_of(t).dom().contains(l));
            }
        };
        assert forall|i: int| 0 <= i < s.len() implies map_of(s)[(#[trigger] s[i]).0] == s[i].1@ by {
            if i < s.len() - 1 {
                assert(t[i] == s[i]);
                assert(map_of(t)[s[i].0] == s[i].1@);
                assert(s[i].0 != s.last().0);
            }
        };
        // The last key is fresh, so the domain grows by one.
        assert(!map_of(t).dom().contains(s.last().0)) by {
            if map_of(t).dom().contains(s.last().0) {
                let i = choose|i: int| 0 <= i < t.len() && (#[trigger] t[i]).0 == s.last().0;
                assert(s[i].0 == s[s.len() - 1].0);
            }
        }
        assert(map_of(s).dom() =~= map_of(t).dom().insert(s.last().0));
    }
}

impl Clone for DepMap {
    fn clone(&self) -> (r: Self)
        ensures
            r@ == self@,
    {
        proof {
            use_type_invariant(self);
        }
        let mut entries: Vec<(Lit, LitSet)> = Vec::new();
        let mut i: usize = 0;
        while i < self.entries.len()
            invariant
                0 <= i <= self.entries@.len(),
                entries@.len() == i,
                forall|j: int|
                    0 <= j < i ==> (#[trigger] entries@[j]).0 == self.entries@[j].0
                        && entries@[j].1@ == self.entries@[j].1@,
            decreases self.entries.len() - i,
        {
            let l = self.entries[i].0;
            let deps = self.entries[i].1.clone();
            entries.push((l, deps));
            i = i + 1;
        }
        let r = DepMap { entries };
        proof {
            lemma_map_of_congruent(r.entries@, self.entries@);
        }
        r
    }
}

/// Entry sequences equal key-by-key and view-by-view describe the same map.
proof fn lemma_map_of_congruent(a: Seq<(Lit, LitSet)>, b: Seq<(Lit, LitSet)>)
    requires
        a.len() == b.len(),
        forall|j: int|
            0 <= j < a.len() ==> (#[trigger] a[j]).0 == b[j].0 && a[j].1@ == b[j].1@,
    ensures
        map_of(a) == map_of(b),
    decreases a.len(),
{
    if a.len() > 0 {
        assert forall|j: int| 0 <= j < a.len() - 1 implies (#[trigger] a.drop_last()[j]).0
            == b.drop_last()[j].0 && a.drop_last()[j].1@ == b.drop_last()[j].1@ by {
            assert(a[j].0 == b[j].0 && a[j].1@ == b[j].1@);
        };
        lemma_map_of_congruent(a.drop_last(), b.drop_last());
        assert(a.last().0 == b.last().0 && a.last().1@ == b.last().1@);
        assert(map_of(a) =~= map_of(b));
    } else {
        assert(map_of(a) =~= map_of(b));
    }
}

impl DepMap {
    #[verifier::type_invariant]
    closed spec fn wf(self) -> bool {
        forall|i: int, j: int|
            0 <= i < j < self.entries@.len() ==> (#[trigger] self.entries@[i]).0 != (
            #[trigger] self.entries@[j]).0
    }

    /// The empty environment.
    pub fn new() -> (r: Self)
        ensures
            r@ == Map::<Lit, Set<Lit>>::empty(),
    {
        DepMap { entries: Vec::new() }
    }

    /// The domain of the map is always finite.
    pub proof fn lemma_dom_finite(&self)
        ensures
            self@.dom().finite(),
    {
        lemma_map_of_dom_finite(self.entries@);
    }

    /// True when the literal is assumed.
    pub fn contains_key(&self, l: &Lit) -> (r: bool)
        ensures
            r == self@.dom().contains(*l),
    {
        proof {
            use_type_invariant(self);
            lemma_map_of(self.entries@);
        }
        let mut i: usize = 0;
        while i < self.entries.len()
            invariant
                0 <= i <= self.entries@.len(),
                forall|j: int| 0 <= j < i ==> (#[trigger] self.entries@[j]).0 != *l,
            decreases self.entries.len() - i,
        {
            if self.entries[i].0 == *l {
                proof {
                    use_type_invariant(self);
                    lemma_map_of(self.entries@);
                    assert(self.entries@[i as int].0 == *l);
                }
                return true;
            }
            i = i + 1;
        }
        proof {
            use_type_invariant(self);
            lemma_map_of(self.entries@);
            if self@.dom().contains(*l) {
                let j = choose|j: int|
                    0 <= j < self.entries@.len() && (#[trigger] self.entries@[j]).0 == *l;
            }
        }
        false
    }

    /// The dependency set of an assumed literal.
    pub fn get(&self, l: &Lit) -> (r: Option<&LitSet>)
        ensures
            r matches Some(deps) ==> self@.dom().contains(*l) && deps@ == self@[*l],
            r is None ==> !self@.dom().contains(*l),
    {
        proof {
            use_type_invariant(self);
            lemma_map_of(self.entries@);
        }
        let mut i: usize = 0;
        while i < self.entries.len()
            invariant
                0 <= i <= self.entries@.len(),
                forall|j: int| 0 <= j < i ==> (#[trigger] self.entries@[j]).0 != *l,
            decreases self.entries.len() - i,
        {
            if self.entries[i].0 == *l {
                proof {
                    use_type_invariant(self);
                    lemma_map_of(self.entries@);
                    assert(self.entries@[i as int].0 == *l);
                }
                return Some(&self.entries[i].1);
            }
            i = i + 1;
        }
        proof {
            use_type_invariant(self);
            lemma_map_of(self.entries@);
            if self@.dom().contains(*l) {
                let j = choose|j: int|
                    0 <= j < self.entries@.len() && (#[trigger] self.entries@[j]).0 == *l;
            }
        }
        None
    }

    /// Records a new assumption with its cause.
    pub fn insert(&mut self, l: Lit, deps: LitSet)
        requires
            !old(self)@.dom().contains(l),
        ensures
            final(self)@ == old(self)@.insert(l, deps@),
    {
        proof {
            use_type_invariant(&*self);
            lemma_map_of(self.entries@);
        }
        let mut entries: Vec<(Lit, LitSet)> = Vec::new();
        core::mem::swap(&mut entries, &mut self.entries);
        let ghost pre = entries@;
        entries.push((l, deps));
        proof {
            assert(entries@.drop_last() =~= pre);
            assert forall|i: int, j: int|
                0 <= i < j < entries@.len() implies (#[trigger] entries@[i]).0 != (
            #[trigger] entries@[j]).0 by {
                if j == entries@.len() - 1 {
                    assert(pre[i].0 == entries@[i].0);
                    assert(pre[i].0 != l) by {
                        if pre[i].0 == l {
                            assert(old(self)@.dom().contains(l));
                        }
                    }
                }
            };
        }
        self.entries = entries;
    }

    /// Merges a further cause into the dependency set of a literal already
    /// assumed.
    pub fn extend_entry(&mut self, l: &Lit, cause: &LitSet)
        requires
            old(self)@.dom().contains(*l),
        ensures
            final(self)@ == old(self)@.insert(*l, old(self)@[*l].union(cause@)),
    {
        proof {
            use_type_invariant(&*self);
            lemma_map_of(self.entries@);
        }
        let mut entries: Vec<(Lit, LitSet)> = Vec::new();
        core::mem::swap(&mut entries, &mut self.entries);
        let ghost pre = entries@;
        let n = entries.len();
        let mut i: usize = 0;
        while i < n
            invariant
                n == entries@.len(),
                0 <= i <= entries@.len(),
                entries@ == pre,
                old(self)@ == map_of(pre),
                old(self)@.dom().contains(*l),
                forall|a: int, b: int| 0 <= a < b < pre.len() ==> (#[trigger] pre[a]).0 != (#[trigger] pre[b]).0,
                forall|j: int| 0 <= j < i ==> (#[trigger] entries@[j]).0 != *l,
            decreases entries@.len() - i,
        {
            if entries[i].0 == *l {
                proof {
                    lemma_map_of(pre);
                }
                let mut taken = (Lit { idx: 0, neg: false }, LitSet::new());
                entries.set_and_swap(i, &mut taken);
                let (key, mut deps) = taken;
                deps.union_with(cause);
                entries.set(i, (key, deps));
                proof {
                    assert(pre[i as int].0 == *l);
                    assert(key == *l);
                    assert forall|a: int, b: int|
                        0 <= a < b < entries@.len() implies (#[trigger] entries@[a]).0 != (
                    #[trigger] entries@[b]).0 by {
                        assert(entries@[a].0 == pre[a].0);
                        assert(entries@[b].0 == pre[b].0);
                    };
                    lemma_map_of(entries@);
                    let target = old(self)@.insert(*l, old(self)@[*l].union(cause@));
                    assert forall|k: Lit|
                        #[trigger] map_of(entries@).dom().contains(k)
                            <==> target.dom().contains(k) by {
                        if map_of(entries@).dom().contains(k) {
                            let j = choose|j: int|
                                0 <= j < entries@.len() && (#[trigger] entries@[j]).0 == k;
                            assert(pre[j].0 == k);
                        }
                        if target.dom().contains(k) {
                            let j = choose|j: int| 0 <= j < pre.len() && (#[trigger] pre[j]).0 == k;
                            assert(entries@[j].0 == k);
                        }
                    };
                    assert forall|k: Lit|
                        #[trigger] map_of(entries@).dom().contains(k) implies map_of(entries@)[k]
                        == target[k] by {
                        let j = choose|j: int|
                            0 <= j < entries@.len() && (#[trigger] entries@[j]).0 == k;
                        if j == i {
                            assert(k == *l);
                            assert(map_of(entries@)[k] == entries@[j].1@);
                            assert(entries@[j].1@ == pre[i as int].1@.union(cause@));
                            assert(old(self)@[*l] == pre[i as int].1@);
                        } else {
                            assert(entries@[j] == pre[j]);
                            assert(map_of(entries@)[k] == pre[j].1@);
                            assert(old(self)@[k] == pre[j].1@);
                            assert(k != *l) by {
                                if k == *l {
                                    assert(pre[j].0 == pre[i as int].0);
                                }
                            }
                        }
                    };
                    assert(map_of(entries@) =~= target);
                }
                self.entries = entries;
                return ;
            }
            i = i + 1;
        }
        proof {
            lemma_map_of(pre);
            let j = choose|j: int| 0 <= j < pre.len() && (#[trigger] pre[j]).0 == *l;
            assert(false);
        }
        self.entries = entries;
    }

    /// The assumed literals, as a set.
    pub fn keys(&self) -> (r: LitSet)
        ensures
            r@ == self@.dom(),
    {
        proof {
            use_type_invariant(self);
            lemma_map_of(self.entries@);
        }
        let mut r = LitSet::new();
        let mut i: usize = 0;
        while i < self.entries.len()
            invariant
                0 <= i <= self.entries@.len(),
                forall|k: Lit|
                    r@.contains(k) <==> exists|j: int|
                        0 <= j < i && (#[trigger] self.entries@[j]).0 == k,
            decreases self.entries.len() - i,
        {
            let l = self.entries[i].0;
            r.insert(l);
            proof {
                assert(self.entries@[i as int].0 == l);
                assert forall|k: Lit| r@.contains(k) implies exists|j: int|
                    0 <= j < i + 1 && (#[trigger] self.entries@[j]).0 == k by {
                    if k != l {
                        let j = choose|j: int|
                            0 <= j < i && (#[trigger] self.entries@[j]).0 == k;
                        assert(0 <= j < i + 1 && self.entries@[j].0 == k);
                    }
                };
            }
            i = i + 1;
        }
        proof {
            use_type_invariant(self);
            lemma_map_of(self.entries@);
            assert(r@ =~= self@.dom());
        }
        r
    }

    /// Number of assumed literals: the keys are distinct, so this is
    /// exactly the cardinality of the domain.
    pub fn len(&self) -> (r: usize)
        ensures
            self@.dom().finite(),
            r == self@.dom().len(),
    {
        proof {
            use_type_invariant(self);
            lemma_map_of(self.entries@);
        }
        self.entries.len()
    }

    /// True when nothing is assumed.
    pub fn is_empty(&self) -> (r: bool)
        ensures
            r == (self@.dom() == Set::<Lit>::empty()),
    {
        proof {
            use_type_invariant(self);
            lemma_map_of(self.entries@);
            if self.entries@.len() > 0 {
                assert(self@.dom().contains(self.entries@[0].0));
            }
            if self.entries@.len() == 0 {
                assert(self@.dom() =~= Set::<Lit>::empty());
            }
        }
        self.entries.len() == 0
    }
}

} // verus!
