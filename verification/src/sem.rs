//! The meaning of formulas: assignments, satisfaction, consistency, and the
//! variable-counting measure that bounds every search.

use vstd::prelude::*;

use crate::lit::{neg_lit, Lit};

verus! {

/// An assignment holds no literal together with its complement.
pub open spec fn consistent(m: Set<Lit>) -> bool {
    forall|l: Lit| m.contains(l) ==> !m.contains(neg_lit(l))
}

/// A clause is satisfied when one of its literals is assigned.
pub open spec fn clause_sat(m: Set<Lit>, c: Seq<Lit>) -> bool {
    exists|i: int| 0 <= i < c.len() && m.contains(c[i])
}

/// A formula is satisfied when every clause is.
pub open spec fn cnf_sat(m: Set<Lit>, d: Seq<Seq<Lit>>) -> bool {
    forall|i: int| 0 <= i < d.len() ==> clause_sat(m, d[i])
}

/// `m` is a model of the formula `d` that extends the environment `g`.
pub open spec fn models(m: Set<Lit>, g: Set<Lit>, d: Seq<Seq<Lit>>) -> bool {
    consistent(m) && g.subset_of(m) && cnf_sat(m, d)
}

/// Some consistent assignment satisfies `d`.
pub open spec fn satisfiable(d: Seq<Seq<Lit>>) -> bool {
    exists|m: Set<Lit>| models(m, Set::empty(), d)
}

/// Two environment-and-formula pairs admit exactly the same models.
pub open spec fn models_iff(g1: Set<Lit>, d1: Seq<Seq<Lit>>, g2: Set<Lit>, d2: Seq<Seq<Lit>>) -> bool {
    forall|m: Set<Lit>| #[trigger] models(m, g1, d1) <==> #[trigger] models(m, g2, d2)
}

/// What a scanned clause means once its satisfied case is excluded: every
/// model of the root formula holding the accumulated dependencies must make
/// one of the clause's kept literals true.
pub proof fn lemma_scan_entailed(
    phi: Seq<Seq<Lit>>,
    g: Map<Lit, Set<Lit>>,
    c: Seq<Lit>,
    lbl: Set<Lit>,
    acc: Set<Lit>,
    kept: Set<Lit>,
)
    requires
        env_sound(phi, g),
        clause_entailed(phi, lbl, c),
        lbl.subset_of(acc),
        forall|k: int|
            0 <= k < c.len() ==> (kept.contains(#[trigger] c[k]) || (g.dom().contains(
                neg_lit(c[k]),
            ) && (g[neg_lit(c[k])]).subset_of(acc))),
    ensures
        forall|m: Set<Lit>|
            #[trigger] phi_model(phi, m) && acc.subset_of(m) ==> exists|x: Lit|
                kept.contains(x) && m.contains(x),
{
    assert forall|m: Set<Lit>| #[trigger] phi_model(phi, m) && acc.subset_of(m) implies exists|
        x: Lit,
    |
        kept.contains(x) && m.contains(x) by {
        assert(lbl.subset_of(m));
        assert(clause_sat(m, c));
        let k = choose|k: int| 0 <= k < c.len() && m.contains(c[k]);
        if kept.contains(c[k]) {
            assert(kept.contains(c[k]) && m.contains(c[k]));
        } else {
            assert(g.dom().contains(neg_lit(c[k])));
            assert(lit_entailed(phi, g[neg_lit(c[k])], neg_lit(c[k])));
            assert(m.contains(neg_lit(c[k])));
            assert(!m.contains(neg_lit(c[k])));
        }
    };
}

/// From a model of the full formula to a model of the state the loop has
/// reached after `i` clauses.
pub proof fn lemma_prefix_models(m: Set<Lit>, g: Set<Lit>, d: Seq<Seq<Lit>>, i: int)
    requires
        0 <= i <= d.len(),
        models(m, g, d),
    ensures
        models(m, g, d.subrange(0, i)),
{
    let p = d.subrange(0, i);
    assert forall|k: int| 0 <= k < p.len() implies clause_sat(m, p[k]) by {
        assert(p[k] == d[k]);
        assert(clause_sat(m, d[k]));
    };
}

/// Loop step, satisfied case: a clause already true in the environment
/// changes nothing.
pub proof fn lemma_models_iff_step_satisfied(
    g0: Set<Lit>,
    d0: Seq<Seq<Lit>>,
    i: int,
    ge: Set<Lit>,
    de: Seq<Seq<Lit>>,
)
    requires
        0 <= i < d0.len(),
        models_iff(g0, d0.subrange(0, i), ge, de),
        clause_sat(ge, d0[i]),
    ensures
        models_iff(g0, d0.subrange(0, i + 1), ge, de),
{
    assert forall|m: Set<Lit>| #[trigger] models(m, g0, d0.subrange(0, i + 1)) <==> #[trigger] models(
        m,
        ge,
        de,
    ) by {
        lemma_cnf_sat_prefix(m, d0, i);
        if models(m, g0, d0.subrange(0, i + 1)) {
            assert(models(m, g0, d0.subrange(0, i)));
        }
        if models(m, ge, de) {
            assert(models(m, g0, d0.subrange(0, i)));
            let k = choose|k: int| 0 <= k < d0[i].len() && ge.contains(d0[i][k]);
            assert(m.contains(d0[i][k]));
            assert(clause_sat(m, d0[i]));
        }
    };
}

/// Loop step, unit case: under the current environment the clause means
/// exactly its one undecided literal.
pub proof fn lemma_models_iff_step_unit(
    g0: Set<Lit>,
    d0: Seq<Seq<Lit>>,
    i: int,
    ge: Set<Lit>,
    de: Seq<Seq<Lit>>,
    kept: Set<Lit>,
    l: Lit,
)
    requires
        0 <= i < d0.len(),
        models_iff(g0, d0.subrange(0, i), ge, de),
        kept == Set::<Lit>::empty().insert(l),
        forall|k: int|
            0 <= k < d0[i].len() ==> (kept.contains(#[trigger] d0[i][k]) || ge.contains(
                neg_lit(d0[i][k]),
            )),
        exists|k: int| 0 <= k < d0[i].len() && d0[i][k] == l,
    ensures
        models_iff(g0, d0.subrange(0, i + 1), ge.insert(l), de),
{
    assert forall|m: Set<Lit>| #[trigger] models(m, g0, d0.subrange(0, i + 1)) <==> #[trigger] models(
        m,
        ge.insert(l),
        de,
    ) by {
        lemma_cnf_sat_prefix(m, d0, i);
        if models(m, g0, d0.subrange(0, i + 1)) {
            assert(models(m, g0, d0.subrange(0, i)));
            assert(models(m, ge, de));
            // The satisfying literal of clause i can only be `l`.
            assert(clause_sat(m, d0[i]));
            let k = choose|k: int| 0 <= k < d0[i].len() && m.contains(d0[i][k]);
            if kept.contains(d0[i][k]) {
                assert(d0[i][k] == l);
                assert(m.contains(l));
            } else {
                assert(ge.contains(neg_lit(d0[i][k])));
                assert(m.contains(neg_lit(d0[i][k])));
                assert(false);
            }
            assert(ge.insert(l).subset_of(m));
        }
        if models(m, ge.insert(l), de) {
            assert(ge.subset_of(ge.insert(l)));
            assert(models(m, ge, de));
            assert(models(m, g0, d0.subrange(0, i)));
            let k = choose|k: int| 0 <= k < d0[i].len() && d0[i][k] == l;
            assert(m.contains(l));
            assert(clause_sat(m, d0[i]));
        }
    };
}

/// Loop step, kept case: under the current environment the clause means
/// exactly its shrunk version.
pub proof fn lemma_models_iff_step_kept(
    g0: Set<Lit>,
    d0: Seq<Seq<Lit>>,
    i: int,
    ge: Set<Lit>,
    de: Seq<Seq<Lit>>,
    kept: Seq<Lit>,
)
    requires
        0 <= i < d0.len(),
        models_iff(g0, d0.subrange(0, i), ge, de),
        forall|k: int|
            0 <= k < d0[i].len() ==> (kept.to_set().contains(#[trigger] d0[i][k]) || ge.contains(
                neg_lit(d0[i][k]),
            )),
        forall|x: Lit|
            kept.to_set().contains(x) ==> exists|k: int| 0 <= k < d0[i].len() && d0[i][k] == x,
    ensures
        models_iff(g0, d0.subrange(0, i + 1), ge, de.push(kept)),
{
    assert forall|m: Set<Lit>| #[trigger] models(m, g0, d0.subrange(0, i + 1)) <==> #[trigger] models(
        m,
        ge,
        de.push(kept),
    ) by {
        lemma_cnf_sat_prefix(m, d0, i);
        if models(m, g0, d0.subrange(0, i + 1)) {
            assert(models(m, g0, d0.subrange(0, i)));
            assert(models(m, ge, de));
            assert(clause_sat(m, d0[i]));
            let k = choose|k: int| 0 <= k < d0[i].len() && m.contains(d0[i][k]);
            if kept.to_set().contains(d0[i][k]) {
                let k2 = choose|k2: int| 0 <= k2 < kept.len() && kept[k2] == d0[i][k];
                assert(clause_sat(m, kept));
            } else {
                assert(m.contains(neg_lit(d0[i][k])));
                assert(false);
            }
            assert forall|q: int| 0 <= q < de.push(kept).len() implies clause_sat(
                m,
                de.push(kept)[q],
            ) by {
                if q < de.len() {
                    assert(de.push(kept)[q] == de[q]);
                    assert(clause_sat(m, de[q]));
                } else {
                    assert(de.push(kept)[q] == kept);
                }
            };
        }
        if models(m, ge, de.push(kept)) {
            assert forall|q: int| 0 <= q < de.len() implies clause_sat(m, de[q]) by {
                assert(de.push(kept)[q] == de[q]);
                assert(clause_sat(m, de.push(kept)[q]));
            };
            assert(models(m, ge, de));
            assert(models(m, g0, d0.subrange(0, i)));
            assert(clause_sat(m, de.push(kept)[de.len() as int]));
            assert(clause_sat(m, kept));
            let k = choose|k: int| 0 <= k < kept.len() && m.contains(kept[k]);
            assert(kept.to_set().contains(kept[k]));
            let k2 = choose|k2: int| 0 <= k2 < d0[i].len() && d0[i][k2] == kept[k];
            assert(clause_sat(m, d0[i]));
        }
    };
}

/// No model extends the environment `g` while satisfying `d`.
pub open spec fn refuted(g: Set<Lit>, d: Seq<Seq<Lit>>) -> bool {
    forall|m: Set<Lit>| !(#[trigger] models(m, g, d))
}

/// One clause more in the prefix is one more clause to satisfy.
pub proof fn lemma_cnf_sat_prefix(m: Set<Lit>, d: Seq<Seq<Lit>>, i: int)
    requires
        0 <= i < d.len(),
    ensures
        cnf_sat(m, d.subrange(0, i + 1)) <==> (cnf_sat(m, d.subrange(0, i)) && clause_sat(
            m,
            d[i],
        )),
{
    let p = d.subrange(0, i);
    let q = d.subrange(0, i + 1);
    assert(q[i] == d[i]);
    assert forall|k: int| 0 <= k < p.len() implies p[k] == q[k] by {}
    if cnf_sat(m, q) {
        assert forall|k: int| 0 <= k < p.len() implies clause_sat(m, p[k]) by {
            assert(clause_sat(m, q[k]));
        };
    }
    if cnf_sat(m, p) && clause_sat(m, d[i]) {
        assert forall|k: int| 0 <= k < q.len() implies clause_sat(m, q[k]) by {
            if k < i {
                assert(clause_sat(m, p[k]));
            }
        };
    }
}

/// The variables of a formula extended by one clause.
pub proof fn lemma_cnf_vars_push(d: Seq<Seq<Lit>>, c: Seq<Lit>)
    ensures
        cnf_vars(d.push(c)) == cnf_vars(d).union(clause_vars(c)),
{
    assert(d.push(c).drop_last() =~= d);
    assert(d.push(c).last() == c);
}

/// Clause satisfaction only depends on the set of literals of the clause.
pub proof fn lemma_clause_sat_set(m: Set<Lit>, c: Seq<Lit>)
    ensures
        clause_sat(m, c) <==> exists|l: Lit| c.to_set().contains(l) && m.contains(l),
{
    if clause_sat(m, c) {
        let i = choose|i: int| 0 <= i < c.len() && m.contains(c[i]);
        assert(c.to_set().contains(c[i]));
    }
    if exists|l: Lit| c.to_set().contains(l) && m.contains(l) {
        let l = choose|l: Lit| c.to_set().contains(l) && m.contains(l);
        let i = choose|i: int| 0 <= i < c.len() && c[i] == l;
        assert(m.contains(c[i]));
    }
}

/// Satisfaction only grows with the assignment.
pub proof fn lemma_sat_monotone(m1: Set<Lit>, m2: Set<Lit>, d: Seq<Seq<Lit>>)
    requires
        m1.subset_of(m2),
        cnf_sat(m1, d),
    ensures
        cnf_sat(m2, d),
{
    assert forall|i: int| 0 <= i < d.len() implies clause_sat(m2, d[i]) by {
        assert(clause_sat(m1, d[i]));
        let j = choose|j: int| 0 <= j < d[i].len() && m1.contains(d[i][j]);
        assert(m2.contains(d[i][j]));
    };
}

/// A consistent assignment stays consistent when a literal whose complement
/// it does not hold is added.
pub proof fn lemma_extend_consistent(m: Set<Lit>, l: Lit)
    requires
        consistent(m),
        !m.contains(neg_lit(l)),
    ensures
        consistent(m.insert(l)),
{
    assert forall|k: Lit| m.insert(l).contains(k) implies !m.insert(l).contains(neg_lit(k)) by {
        if k == l {
            assert(neg_lit(k) != l);
        } else {
            assert(m.contains(k));
            if neg_lit(k) == l {
                assert(neg_lit(l) == k);
            }
        }
    };
}

/// The two literals of a variable are the literal and its complement.
pub proof fn lemma_same_var(k: Lit, l: Lit)
    requires
        k.idx == l.idx,
    ensures
        k == l || k == neg_lit(l),
{
    if k.neg == l.neg {
        assert(k == l);
    } else {
        assert(k == neg_lit(l));
    }
}

/// The environment is silent on the literal: neither it nor its complement
/// is assumed.
pub open spec fn unknown_in(g: Set<Lit>, l: Lit) -> bool {
    !g.contains(l) && !g.contains(neg_lit(l))
}

/// What is left of a clause under an environment: its undecided literals, in
/// order.
pub open spec fn reduce_clause(g: Set<Lit>, c: Seq<Lit>) -> Seq<Lit> {
    c.filter(|l: Lit| unknown_in(g, l))
}

/// What propagation leaves of a formula under an environment: the clauses it
/// does not satisfy, each shrunk to its undecided literals, in their original
/// order.
pub open spec fn reduced_cnf(g: Set<Lit>, d: Seq<Seq<Lit>>) -> Seq<Seq<Lit>> {
    d.filter(|c: Seq<Lit>| !clause_sat(g, c)).map_values(|c: Seq<Lit>| reduce_clause(g, c))
}

/// The reduction of the empty formula is empty.
pub proof fn lemma_reduced_cnf_empty(g: Set<Lit>)
    ensures
        reduced_cnf(g, Seq::empty()) == Seq::<Seq<Lit>>::empty(),
{
    reveal(Seq::filter);
    assert(reduced_cnf(g, Seq::empty()) =~= Seq::<Seq<Lit>>::empty());
}

/// How the reduction grows with one more clause: a satisfied clause is
/// dropped, any other is kept shrunk.
pub proof fn lemma_reduced_cnf_push(g: Set<Lit>, d: Seq<Seq<Lit>>, c: Seq<Lit>)
    ensures
        clause_sat(g, c) ==> reduced_cnf(g, d.push(c)) == reduced_cnf(g, d),
        !clause_sat(g, c) ==> reduced_cnf(g, d.push(c)) == reduced_cnf(g, d).push(
            reduce_clause(g, c),
        ),
{
    let keep = |cc: Seq<Lit>| !clause_sat(g, cc);
    crate::seqs::lemma_filter_push(d, c, keep);
    if !clause_sat(g, c) {
        assert(d.push(c).filter(keep).map_values(|cc: Seq<Lit>| reduce_clause(g, cc)) =~= d.filter(
            keep,
        ).map_values(|cc: Seq<Lit>| reduce_clause(g, cc)).push(reduce_clause(g, c)));
    }
}

/// Reducing a reduction under a larger consistent environment is reducing
/// once under the larger environment.
pub proof fn lemma_reduced_cnf_compose(g1: Set<Lit>, g2: Set<Lit>, d: Seq<Seq<Lit>>)
    requires
        g1.subset_of(g2),
        consistent(g2),
    ensures
        reduced_cnf(g2, reduced_cnf(g1, d)) == reduced_cnf(g2, d),
    decreases d.len(),
{
    if d.len() == 0 {
        assert(d =~= Seq::<Seq<Lit>>::empty());
        lemma_reduced_cnf_empty(g1);
        lemma_reduced_cnf_empty(g2);
    } else {
        let dl = d.drop_last();
        let c = d.last();
        lemma_reduced_cnf_compose(g1, g2, dl);
        assert(dl.push(c) =~= d);
        lemma_reduced_cnf_push(g1, dl, c);
        lemma_reduced_cnf_push(g2, dl, c);
        if clause_sat(g1, c) {
            let k = choose|k: int| 0 <= k < c.len() && g1.contains(c[k]);
            assert(g2.contains(c[k]));
            assert(clause_sat(g2, c));
        } else {
            let c1 = reduce_clause(g1, c);
            lemma_reduced_cnf_push(g2, reduced_cnf(g1, dl), c1);
            let p1 = |l: Lit| unknown_in(g1, l);
            // The larger environment satisfies the clause exactly when it
            // satisfies its reduction.
            if clause_sat(g2, c) {
                let k = choose|k: int| 0 <= k < c.len() && g2.contains(c[k]);
                assert(!g1.contains(c[k])) by {
                    if g1.contains(c[k]) {
                        assert(clause_sat(g1, c));
                    }
                }
                assert(!g1.contains(neg_lit(c[k]))) by {
                    if g1.contains(neg_lit(c[k])) {
                        assert(g2.contains(neg_lit(c[k])));
                        assert(!g2.contains(neg_lit(c[k])));
                    }
                }
                c.lemma_filter_contains(p1, k);
                assert(c1.contains(c[k]));
                let k2 = choose|k2: int| 0 <= k2 < c1.len() && c1[k2] == c[k];
                assert(clause_sat(g2, c1));
            }
            if clause_sat(g2, c1) {
                let k = choose|k: int| 0 <= k < c1.len() && g2.contains(c1[k]);
                crate::seqs::lemma_filter_elem(c, p1, k);
                let k2 = choose|k2: int| 0 <= k2 < c.len() && c[k2] == c1[k];
                assert(clause_sat(g2, c));
            }
            if !clause_sat(g2, c) {
                let p2 = |l: Lit| unknown_in(g2, l);
                assert forall|x: Lit| #[trigger] p2(x) implies p1(x) by {
                    if g1.contains(x) {
                        assert(g2.contains(x));
                    }
                    if g1.contains(neg_lit(x)) {
                        assert(g2.contains(neg_lit(x)));
                    }
                };
                crate::seqs::lemma_filter_compose(c, p1, p2);
                assert(reduce_clause(g2, c1) == reduce_clause(g2, c));
            }
        }
    }
}

/// A consistent assignment that satisfies the root formula.
pub open spec fn phi_model(phi: Seq<Seq<Lit>>, m: Set<Lit>) -> bool {
    consistent(m) && cnf_sat(m, phi)
}

/// Under the root formula, the causes force the literal: every model of the
/// formula holding all of `cause` holds `l`.
pub open spec fn lit_entailed(phi: Seq<Seq<Lit>>, cause: Set<Lit>, l: Lit) -> bool {
    forall|m: Set<Lit>| #[trigger] phi_model(phi, m) && cause.subset_of(m) ==> m.contains(l)
}

/// Under the root formula and the labels, the clause must hold.
pub open spec fn clause_entailed(phi: Seq<Seq<Lit>>, labels: Set<Lit>, c: Seq<Lit>) -> bool {
    forall|m: Set<Lit>| #[trigger] phi_model(phi, m) && labels.subset_of(m) ==> clause_sat(m, c)
}

/// No model of the root formula holds all of `deps`: the assumptions in
/// `deps` are jointly untenable.
pub open spec fn refuted_under(phi: Seq<Seq<Lit>>, deps: Set<Lit>) -> bool {
    forall|m: Set<Lit>| #[trigger] phi_model(phi, m) ==> !deps.subset_of(m)
}

/// The self-justified entries of an environment: the decision literals,
/// assumed as their own cause.
pub open spec fn self_justified(g: Map<Lit, Set<Lit>>) -> Set<Lit> {
    Set::new(|l: Lit| g.dom().contains(l) && g[l].contains(l))
}

/// Every dependency set of the environment points back at decisions.
pub open spec fn dep_closed(g: Map<Lit, Set<Lit>>) -> bool {
    forall|l: Lit| #[trigger] g.dom().contains(l) ==> g[l].subset_of(self_justified(g))
}

/// Every environment entry is forced by the root formula and its cause.
pub open spec fn env_sound(phi: Seq<Seq<Lit>>, g: Map<Lit, Set<Lit>>) -> bool {
    forall|l: Lit| #[trigger] g.dom().contains(l) ==> lit_entailed(phi, g[l], l)
}

/// The clause holds a literal on which the environment is silent.
pub open spec fn has_unknown(gd: Set<Lit>, c: Seq<Lit>) -> bool {
    exists|k: int| 0 <= k < c.len() && !gd.contains(#[trigger] c[k]) && !gd.contains(neg_lit(c[k]))
}

/// How a fresh entry changes the self-justified set: a decision adds itself,
/// a forced literal adds nothing.
pub proof fn lemma_self_justified_insert(g: Map<Lit, Set<Lit>>, l: Lit, d: Set<Lit>)
    requires
        !g.dom().contains(l),
    ensures
        d.contains(l) ==> self_justified(g.insert(l, d)) == self_justified(g).insert(l),
        !d.contains(l) ==> self_justified(g.insert(l, d)) == self_justified(g),
{
    let g2 = g.insert(l, d);
    assert forall|k: Lit| #[trigger] self_justified(g).contains(k) implies self_justified(
        g2,
    ).contains(k) by {
        assert(k != l);
        assert(g2[k] == g[k]);
    };
    if d.contains(l) {
        assert(self_justified(g2) =~= self_justified(g).insert(l));
    } else {
        assert forall|k: Lit| #[trigger] self_justified(g2).contains(k) implies self_justified(
            g,
        ).contains(k) by {
            if k == l {
                assert(g2[l] == d);
                assert(false);
            } else {
                assert(g2[k] == g[k]);
            }
        };
        assert(self_justified(g2) =~= self_justified(g));
    }
}

/// Merging a further cause into an existing entry can only grow the
/// self-justified set, and only by that entry's own literal.
pub proof fn lemma_self_justified_merge(g: Map<Lit, Set<Lit>>, l: Lit, d: Set<Lit>)
    requires
        g.dom().contains(l),
    ensures
        self_justified(g).subset_of(self_justified(g.insert(l, g[l].union(d)))),
        self_justified(g.insert(l, g[l].union(d))).subset_of(self_justified(g).insert(l)),
{
    let g2 = g.insert(l, g[l].union(d));
    assert forall|k: Lit| #[trigger] self_justified(g).contains(k) implies self_justified(
        g2,
    ).contains(k) by {
        if k == l {
            assert(g2[l] == g[l].union(d));
        } else {
            assert(g2[k] == g[k]);
        }
    };
    assert forall|k: Lit| #[trigger] self_justified(g2).contains(k) implies self_justified(
        g,
    ).insert(l).contains(k) by {
        if k != l {
            assert(g2[k] == g[k]);
        }
    };
}

/// A refutation that used the decision `l` forces its complement once the
/// decision is undone.
pub proof fn lemma_flip_decision(phi: Seq<Seq<Lit>>, deps: Set<Lit>, l: Lit)
    requires
        refuted_under(phi, deps.insert(l)),
    ensures
        lit_entailed(phi, deps, neg_lit(l)),
{
    assert forall|m: Set<Lit>| #[trigger] phi_model(phi, m) && deps.subset_of(m) implies m.contains(
        neg_lit(l),
    ) by {
        if !m.contains(neg_lit(l)) {
            let m2 = m.insert(l);
            lemma_extend_consistent(m, l);
            lemma_sat_monotone(m, m2, phi);
            assert(phi_model(phi, m2));
            assert(deps.insert(l).subset_of(m2));
        }
    };
}

/// The variables of a clause.
pub open spec fn clause_vars(c: Seq<Lit>) -> Set<int> {
    c.map_values(|l: Lit| l.idx as int).to_set()
}

/// The variables of a formula.
pub open spec fn cnf_vars(d: Seq<Seq<Lit>>) -> Set<int>
    decreases d.len(),
{
    if d.len() == 0 {
        Set::empty()
    } else {
        cnf_vars(d.drop_last()).union(clause_vars(d.last()))
    }
}

/// A formula has finitely many variables.
pub proof fn lemma_cnf_vars_finite(d: Seq<Seq<Lit>>)
    ensures
        cnf_vars(d).finite(),
    decreases d.len(),
{
    broadcast use vstd::seq_lib::seq_to_set_is_finite;

    if d.len() > 0 {
        lemma_cnf_vars_finite(d.drop_last());
    }
}

/// What it means for a variable to be in `cnf_vars`.
pub proof fn lemma_cnf_vars_iff(d: Seq<Seq<Lit>>)
    ensures
        forall|v: int|
            cnf_vars(d).contains(v) <==> exists|i: int, j: int|
                0 <= i < d.len() && 0 <= j < d[i].len() && d[i][j].idx == v,
    decreases d.len(),
{
    if d.len() == 0 {
    } else {
        lemma_cnf_vars_iff(d.drop_last());
        assert forall|v: int| cnf_vars(d).contains(v) implies exists|i: int, j: int|
            0 <= i < d.len() && 0 <= j < d[i].len() && d[i][j].idx == v by {
            if cnf_vars(d.drop_last()).contains(v) {
                let (i, j) = choose|i: int, j: int|
                    0 <= i < d.drop_last().len() && 0 <= j < d.drop_last()[i].len()
                        && d.drop_last()[i][j].idx == v;
                assert(d[i] == d.drop_last()[i]);
                assert(0 <= i < d.len() && 0 <= j < d[i].len() && d[i][j].idx == v);
            } else {
                assert(clause_vars(d.last()).contains(v));
                let c = d.last();
                crate::seqs::lemma_map_to_set_elim(c, |l: Lit| l.idx as int, v);
                let k = choose|k: int| 0 <= k < c.len() && (|l: Lit| l.idx as int)(c[k]) == v;
                let i = d.len() - 1;
                assert(d[i] == c);
                assert(0 <= i < d.len() && 0 <= k < d[i].len() && d[i][k].idx == v);
            }
        };
        assert forall|v: int|
            (exists|i: int, j: int| 0 <= i < d.len() && 0 <= j < d[i].len() && d[i][j].idx == v)
            implies cnf_vars(d).contains(v) by {
            let (i, j) = choose|i: int, j: int|
                0 <= i < d.len() && 0 <= j < d[i].len() && d[i][j].idx == v;
            if i < d.len() - 1 {
                assert(d.drop_last()[i] == d[i]);
                assert(cnf_vars(d.drop_last()).contains(v));
            } else {
                let c = d.last();
                crate::seqs::lemma_map_to_set_intro(c, |l: Lit| l.idx as int, j);
                assert(clause_vars(c).contains(v));
            }
        };
    }
}

/// A variable of one clause is a variable of any formula holding the clause.
pub proof fn lemma_clause_var_in_cnf(d: Seq<Seq<Lit>>, i: int, j: int)
    requires
        0 <= i < d.len(),
        0 <= j < d[i].len(),
    ensures
        cnf_vars(d).contains(d[i][j].idx as int),
{
    lemma_cnf_vars_iff(d);
}

/// The environment assigns the variable.
pub open spec fn assigned(g: Set<Lit>, v: int) -> bool {
    exists|l: Lit| g.contains(l) && l.idx == v
}

/// The variables of `vs` that `g` leaves unassigned.
pub open spec fn unknown_vars(g: Set<Lit>, vs: Set<int>) -> Set<int> {
    vs.filter(|v: int| !assigned(g, v))
}

/// How many variables of `vs` are unassigned: the quantity every search rule
/// shrinks.
pub open spec fn measure_of(g: Set<Lit>, vs: Set<int>) -> nat
    recommends
        vs.finite(),
{
    unknown_vars(g, vs).len()
}

/// A smaller universe and a larger environment leave no more unknowns.
pub proof fn lemma_measure_le(g1: Set<Lit>, g2: Set<Lit>, vs1: Set<int>, vs2: Set<int>)
    requires
        vs1.finite(),
        g1.subset_of(g2),
        vs2.subset_of(vs1),
    ensures
        unknown_vars(g2, vs2).subset_of(unknown_vars(g1, vs1)),
        measure_of(g2, vs2) <= measure_of(g1, vs1),
        unknown_vars(g1, vs1).finite(),
        unknown_vars(g2, vs2).finite(),
{
    assert forall|v: int| unknown_vars(g2, vs2).contains(v) implies unknown_vars(g1, vs1).contains(
        v,
    ) by {
        assert(vs1.contains(v));
        if assigned(g1, v) {
            let l = choose|l: Lit| g1.contains(l) && l.idx == v;
            assert(g2.contains(l));
        }
    };
    vs1.lemma_len_filter(|v: int| !assigned(g1, v));
    vstd::set_lib::lemma_len_subset(unknown_vars(g2, vs2), unknown_vars(g1, vs1));
}

/// Strictly fewer unknowns: as `lemma_measure_le`, with one variable that was
/// unknown now out of reach.
pub proof fn lemma_measure_lt(g1: Set<Lit>, g2: Set<Lit>, vs1: Set<int>, vs2: Set<int>, v: int)
    requires
        vs1.finite(),
        g1.subset_of(g2),
        vs2.subset_of(vs1),
        unknown_vars(g1, vs1).contains(v),
        !unknown_vars(g2, vs2).contains(v),
    ensures
        measure_of(g2, vs2) < measure_of(g1, vs1),
{
    lemma_measure_le(g1, g2, vs1, vs2);
    assert(unknown_vars(g2, vs2).subset_of(unknown_vars(g1, vs1).remove(v)));
    vstd::set_lib::lemma_len_subset(unknown_vars(g2, vs2), unknown_vars(g1, vs1).remove(v));
    assert(unknown_vars(g1, vs1).remove(v).len() == unknown_vars(g1, vs1).len() - 1);
}

/// A literal both of whose polarities are absent from `g` sits on an
/// unassigned variable.
pub proof fn lemma_unassigned(g: Set<Lit>, l: Lit)
    requires
        !g.contains(l),
        !g.contains(neg_lit(l)),
    ensures
        !assigned(g, l.idx as int),
{
    if assigned(g, l.idx as int) {
        let k = choose|k: Lit| g.contains(k) && k.idx == l.idx;
        lemma_same_var(k, l);
    }
}

} // verus!
