//! Small facts about sequences viewed as sets, shared by the whole crate.

use vstd::prelude::*;

verus! {

/// Appending one element and then taking the set is inserting into the set.
pub proof fn lemma_to_set_push<A>(s: Seq<A>, x: A)
    ensures
        s.push(x).to_set() =~= s.to_set().insert(x),
{
    assert forall|y: A| #[trigger] s.push(x).to_set().contains(y) implies s.to_set().insert(
        x,
    ).contains(y) by {
        let i = choose|i: int| 0 <= i < s.push(x).len() && s.push(x)[i] == y;
        if i < s.len() {
            assert(s[i] == y);
            assert(s.to_set().contains(y));
        }
    };
    assert forall|y: A| s.to_set().insert(x).contains(y) implies #[trigger] s.push(
        x,
    ).to_set().contains(y) by {
        if y == x {
            assert(s.push(x)[s.len() as int] == y);
        } else {
            let i = choose|i: int| 0 <= i < s.len() && s[i] == y;
            assert(s.push(x)[i] == y);
        }
    };
}

/// A prefix one longer is the shorter prefix with the next element appended.
pub proof fn lemma_subrange_push<A>(s: Seq<A>, i: int)
    requires
        0 <= i < s.len(),
    ensures
        s.subrange(0, i + 1) =~= s.subrange(0, i).push(s[i]),
{
}

/// Filtering after appending one element: the element stays exactly when it
/// satisfies the predicate.
pub proof fn lemma_filter_push<A>(s: Seq<A>, x: A, p: spec_fn(A) -> bool)
    ensures
        p(x) ==> s.push(x).filter(p) == s.filter(p).push(x),
        !p(x) ==> s.push(x).filter(p) == s.filter(p),
{
    reveal(Seq::filter);
    assert(s.push(x).drop_last() =~= s);
    assert(s.push(x).last() == x);
}

/// Every element of a filtered sequence satisfies the predicate and comes
/// from the original sequence.
pub proof fn lemma_filter_elem<A>(s: Seq<A>, p: spec_fn(A) -> bool, i: int)
    requires
        0 <= i < s.filter(p).len(),
    ensures
        p(s.filter(p)[i]),
        exists|k: int| 0 <= k < s.len() && s[k] == s.filter(p)[i],
    decreases s.len(),
{
    reveal(Seq::filter);
    if s.len() > 0 {
        let dl = s.drop_last();
        if p(s.last()) {
            if i < dl.filter(p).len() {
                lemma_filter_elem(dl, p, i);
                let k = choose|k: int| 0 <= k < dl.len() && dl[k] == dl.filter(p)[i];
                assert(s[k] == s.filter(p)[i]);
            } else {
                assert(s.filter(p)[i] == s.last());
                assert(s[s.len() - 1] == s.filter(p)[i]);
            }
        } else {
            lemma_filter_elem(dl, p, i);
            let k = choose|k: int| 0 <= k < dl.len() && dl[k] == dl.filter(p)[i];
            assert(s[k] == s.filter(p)[i]);
        }
    }
}

/// Filtering by a stronger predicate after a weaker one is filtering by the
/// stronger one alone.
pub proof fn lemma_filter_compose<A>(s: Seq<A>, p: spec_fn(A) -> bool, q: spec_fn(A) -> bool)
    requires
        forall|x: A| #[trigger] q(x) ==> p(x),
    ensures
        s.filter(p).filter(q) == s.filter(q),
    decreases s.len(),
{
    reveal(Seq::filter);
    if s.len() > 0 {
        let dl = s.drop_last();
        lemma_filter_compose(dl, p, q);
        if p(s.last()) {
            assert(s.filter(p) == dl.filter(p).push(s.last()));
            lemma_filter_push(dl.filter(p), s.last(), q);
        } else {
            assert(!q(s.last()));
        }
    }
}

/// A member of the set of a mapped sequence comes from some index.
pub proof fn lemma_map_to_set_elim<A, B>(s: Seq<A>, f: spec_fn(A) -> B, v: B)
    requires
        s.map_values(f).to_set().contains(v),
    ensures
        exists|j: int| 0 <= j < s.len() && f(s[j]) == v,
{
    let mapped = s.map_values(f);
    let k = choose|k: int| 0 <= k < mapped.len() && mapped[k] == v;
    assert(f(s[k]) == v);
}

/// Each index of a sequence puts its image into the mapped set.
pub proof fn lemma_map_to_set_intro<A, B>(s: Seq<A>, f: spec_fn(A) -> B, j: int)
    requires
        0 <= j < s.len(),
    ensures
        s.map_values(f).to_set().contains(f(s[j])),
{
    let mapped = s.map_values(f);
    assert(mapped[j] == f(s[j]));
    assert(mapped.to_set().contains(mapped[j]));
}

/// Inserting an element somewhere in a sequence inserts it into its set.
pub proof fn lemma_insert_to_set<A>(s: Seq<A>, i: int, x: A)
    requires
        0 <= i <= s.len(),
    ensures
        s.insert(i, x).to_set() =~= s.to_set().insert(x),
{
    let t = s.insert(i, x);
    s.insert_ensures(i, x);
    assert forall|y: A| #[trigger] t.to_set().contains(y) implies s.to_set().insert(x).contains(
        y,
    ) by {
        let j = choose|j: int| 0 <= j < t.len() && t[j] == y;
        if j < i {
            assert(s[j] == y);
        } else if j == i {
        } else {
            assert(s[j - 1] == y);
        }
    };
    assert forall|y: A| s.to_set().insert(x).contains(y) implies #[trigger] t.to_set().contains(
        y,
    ) by {
        if y == x {
            assert(t[i] == y);
        } else {
            let j = choose|j: int| 0 <= j < s.len() && s[j] == y;
            if j < i {
                assert(t[j] == y);
            } else {
                assert(t[j + 1] == y);
            }
        }
    };
}

/// A subrange one longer is the shorter subrange with the next element
/// appended.
pub proof fn lemma_subrange_push_gen<A>(s: Seq<A>, a: int, i: int)
    requires
        0 <= a <= i < s.len(),
    ensures
        s.subrange(a, i + 1) =~= s.subrange(a, i).push(s[i]),
{
}

/// The full-length prefix is the sequence itself.
pub proof fn lemma_subrange_all<A>(s: Seq<A>)
    ensures
        s.subrange(0, s.len() as int) =~= s,
{
}

} // verus!
