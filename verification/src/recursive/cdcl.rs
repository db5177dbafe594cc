//! Backjumping with conflict-driven clause learning: working clauses carry
//! label sets naming the decisions their derivation used, refutations hand
//! back learned clauses, and the `shift` step turns a dependency on an undone
//! decision into an explicit literal.

use vstd::prelude::*;

use crate::clause::{eqv_in, lclause_eqv, strictly_sorted, Clause, Cnf, LClause, LCnf};
use crate::env::DepMap;
use crate::lit::{neg_lit, Lit, LitSet, Literal};
use crate::outcome::Outcome;
use crate::sem::{
    clause_entailed, clause_sat, clause_vars, cnf_sat, cnf_vars, consistent, dep_closed,
    env_sound, lemma_clause_sat_set, lemma_clause_var_in_cnf,
    lemma_cnf_vars_finite, lemma_cnf_vars_push, lemma_extend_consistent, lemma_flip_decision,
    lemma_measure_le, lemma_measure_lt, lemma_models_iff_step_kept,
    lemma_models_iff_step_satisfied, lemma_models_iff_step_unit, lemma_sat_monotone,
    lemma_self_justified_insert, lemma_self_justified_merge, lemma_unassigned, lit_entailed,
    measure_of, models, models_iff, phi_model, reduce_clause, refuted_under, satisfiable,
    self_justified, unknown_in,
};

verus! {

/// The clause parts of a labelled formula, as plain sequences.
pub open spec fn clauses_of(d: Seq<LClause>) -> Seq<Seq<Lit>> {
    d.map_values(|lc: LClause| lc.clause_view())
}

/// Every working clause follows from the root formula and its own labels.
pub open spec fn ldelta_entailed(phi: Seq<Seq<Lit>>, d: Seq<LClause>) -> bool {
    forall|i: int|
        0 <= i < d.len() ==> clause_entailed(
            phi,
            (#[trigger] d[i]).labels_view(),
            d[i].clause_view(),
        )
}

/// Every label set of the working formula points at decisions.
pub open spec fn labels_closed(g: Map<Lit, Set<Lit>>, d: Seq<LClause>) -> bool {
    forall|i: int| 0 <= i < d.len() ==> (#[trigger] d[i]).labels_view().subset_of(self_justified(g))
}

/// Every literal of the working formula is undecided either way.
pub open spec fn ldelta_unknown(gd: Set<Lit>, d: Seq<LClause>) -> bool {
    forall|i: int, j: int|
        0 <= i < d.len() && 0 <= j < d[i].clause_view().len() ==> !gd.contains(
            #[trigger] d[i].clause_view()[j],
        ) && !gd.contains(neg_lit(d[i].clause_view()[j]))
}

/// Two labelled formulas equal clause by clause, label set by label set.
pub open spec fn ldelta_equiv(a: Seq<LClause>, b: Seq<LClause>) -> bool {
    a.len() == b.len() && forall|i: int|
        0 <= i < a.len() ==> (#[trigger] a[i]).clause_view() == b[i].clause_view()
            && a[i].labels_view() == b[i].labels_view()
}

/// Every working clause holds at least `n` literals.
pub open spec fn lmin_len(d: Seq<LClause>, n: int) -> bool {
    forall|i: int| 0 <= i < d.len() ==> (#[trigger] d[i]).clause_view().len() >= n
}

/// The dependency sets recorded for the falsified literals of a clause,
/// united.
pub open spec fn false_deps(g: Map<Lit, Set<Lit>>, c: Seq<Lit>) -> Set<Lit>
    decreases c.len(),
{
    if c.len() == 0 {
        Set::empty()
    } else {
        false_deps(g, c.drop_last()).union(
            if g.dom().contains(neg_lit(c.last())) {
                g[neg_lit(c.last())]
            } else {
                Set::empty()
            },
        )
    }
}

/// What propagation makes of one input clause it could not satisfy or
/// consume: the clause shrunk to its undecided literals, relabelled with the
/// input labels united with the dependency sets of its falsified literals.
pub open spec fn reduction_of(g: Map<Lit, Set<Lit>>, out: LClause, orig: LClause) -> bool {
    &&& out.clause_view() == reduce_clause(g.dom(), orig.clause_view())
    &&& out.labels_view() == orig.labels_view().union(false_deps(g, orig.clause_view()))
    &&& !clause_sat(g.dom(), orig.clause_view())
}

/// Every surviving working clause is such a reduction of some input clause.
pub open spec fn all_reductions(
    g: Map<Lit, Set<Lit>>,
    d_out: Seq<LClause>,
    d_in: Seq<LClause>,
) -> bool {
    forall|i: int|
        #![trigger d_out[i]]
        0 <= i < d_out.len() ==> reduced_from(g, d_out[i], d_in)
}

/// The clause is a reduction of some clause of `d_in`.
pub open spec fn reduced_from(g: Map<Lit, Set<Lit>>, out: LClause, d_in: Seq<LClause>) -> bool {
    exists|j: int| 0 <= j < d_in.len() && #[trigger] reduction_of(g, out, d_in[j])
}

/// How the united dependency sets grow literal by literal.
proof fn lemma_false_deps_push(g: Map<Lit, Set<Lit>>, pre: Seq<Lit>, x: Lit)
    ensures
        g.dom().contains(neg_lit(x)) ==> false_deps(g, pre.push(x)) == false_deps(g, pre).union(
            g[neg_lit(x)],
        ),
        !g.dom().contains(neg_lit(x)) ==> false_deps(g, pre.push(x)) == false_deps(g, pre),
{
    assert(pre.push(x).drop_last() =~= pre);
    assert(pre.push(x).last() == x);
    if !g.dom().contains(neg_lit(x)) {
        assert(false_deps(g, pre).union(Set::empty()) =~= false_deps(g, pre));
    }
}

/// Membership in the united dependency sets of the falsified literals.
proof fn lemma_false_deps_mem(g: Map<Lit, Set<Lit>>, c: Seq<Lit>)
    ensures
        forall|y: Lit|
            false_deps(g, c).contains(y) <==> exists|k: int|
                0 <= k < c.len() && g.dom().contains(neg_lit(#[trigger] c[k])) && (g[neg_lit(
                    c[k],
                )]).contains(y),
    decreases c.len(),
{
    if c.len() > 0 {
        let dl = c.drop_last();
        lemma_false_deps_mem(g, dl);
        assert forall|y: Lit| false_deps(g, c).contains(y) implies exists|k: int|
            0 <= k < c.len() && g.dom().contains(neg_lit(#[trigger] c[k])) && (g[neg_lit(
                c[k],
            )]).contains(y) by {
            if false_deps(g, dl).contains(y) {
                let k = choose|k: int|
                    0 <= k < dl.len() && g.dom().contains(neg_lit(#[trigger] dl[k])) && (g[neg_lit(
                        dl[k],
                    )]).contains(y);
                assert(c[k] == dl[k]);
            } else {
                assert(c[c.len() - 1] == c.last());
            }
        };
        assert forall|y: Lit|
            (exists|k: int|
                0 <= k < c.len() && g.dom().contains(neg_lit(#[trigger] c[k])) && (g[neg_lit(
                    c[k],
                )]).contains(y)) implies false_deps(g, c).contains(y) by {
            let k = choose|k: int|
                0 <= k < c.len() && g.dom().contains(neg_lit(#[trigger] c[k])) && (g[neg_lit(
                    c[k],
                )]).contains(y);
            if k < c.len() - 1 {
                assert(dl[k] == c[k]);
                assert(false_deps(g, dl).contains(y));
            }
        };
    }
}

/// One reduction after another, under a grown environment that kept every
/// old entry, is one reduction under the grown environment.
proof fn lemma_reduction_compose(
    g1: Map<Lit, Set<Lit>>,
    g2: Map<Lit, Set<Lit>>,
    out: LClause,
    mid: LClause,
    orig: LClause,
)
    requires
        reduction_of(g2, out, mid),
        reduction_of(g1, mid, orig),
        g1.dom().subset_of(g2.dom()),
        consistent(g2.dom()),
        forall|k: Lit| #[trigger] g1.dom().contains(k) ==> g2.dom().contains(k) && g2[k] == g1[k],
    ensures
        reduction_of(g2, out, orig),
{
    let c = orig.clause_view();
    let c1 = mid.clause_view();
    let p1 = |l: Lit| unknown_in(g1.dom(), l);
    let p2 = |l: Lit| unknown_in(g2.dom(), l);
    // The twice-shrunk clause is the once-shrunk clause.
    assert forall|x: Lit| #[trigger] p2(x) implies p1(x) by {
        if g1.dom().contains(x) {
            assert(g2.dom().contains(x));
        }
        if g1.dom().contains(neg_lit(x)) {
            assert(g2.dom().contains(neg_lit(x)));
        }
    };
    crate::seqs::lemma_filter_compose(c, p1, p2);
    // The original stays unsatisfied under the grown environment.
    assert(!clause_sat(g2.dom(), c)) by {
        if clause_sat(g2.dom(), c) {
            let k = choose|k: int| 0 <= k < c.len() && g2.dom().contains(c[k]);
            assert(!g1.dom().contains(c[k]));
            assert(!g1.dom().contains(neg_lit(c[k]))) by {
                if g1.dom().contains(neg_lit(c[k])) {
                    assert(g2.dom().contains(neg_lit(c[k])));
                    assert(!g2.dom().contains(neg_lit(c[k])));
                }
            }
            c.lemma_filter_contains(p1, k);
            assert(c1.contains(c[k]));
            let k2 = choose|k2: int| 0 <= k2 < c1.len() && c1[k2] == c[k];
            assert(clause_sat(g2.dom(), c1));
        }
    }
    // The labels compose: old falsified literals keep their recorded sets,
    // and newly falsified ones survived the first shrink.
    lemma_false_deps_mem(g1, c);
    lemma_false_deps_mem(g2, c);
    lemma_false_deps_mem(g2, c1);
    assert forall|y: Lit|
        #[trigger] out.labels_view().contains(y) implies orig.labels_view().union(
        false_deps(g2, c),
    ).contains(y) by {
        if mid.labels_view().contains(y) {
            if false_deps(g1, c).contains(y) {
                let k = choose|k: int|
                    0 <= k < c.len() && g1.dom().contains(neg_lit(#[trigger] c[k])) && (g1[neg_lit(
                        c[k],
                    )]).contains(y);
                assert(g2[neg_lit(c[k])] == g1[neg_lit(c[k])]);
            }
        } else {
            assert(false_deps(g2, c1).contains(y));
            let k = choose|k: int|
                0 <= k < c1.len() && g2.dom().contains(neg_lit(#[trigger] c1[k])) && (g2[neg_lit(
                    c1[k],
                )]).contains(y);
            crate::seqs::lemma_filter_elem(c, p1, k);
            let k2 = choose|k2: int| 0 <= k2 < c.len() && c[k2] == c1[k];
        }
    };
    assert forall|y: Lit| orig.labels_view().union(false_deps(g2, c)).contains(y)
        implies #[trigger] out.labels_view().contains(y) by {
        if orig.labels_view().contains(y) {
            assert(mid.labels_view().contains(y));
        } else {
            let k = choose|k: int|
                0 <= k < c.len() && g2.dom().contains(neg_lit(#[trigger] c[k])) && (g2[neg_lit(
                    c[k],
                )]).contains(y);
            if g1.dom().contains(neg_lit(c[k])) {
                assert(g1[neg_lit(c[k])] == g2[neg_lit(c[k])]);
                assert(false_deps(g1, c).contains(y));
                assert(mid.labels_view().contains(y));
            } else {
                assert(!g1.dom().contains(c[k])) by {
                    if g1.dom().contains(c[k]) {
                        assert(clause_sat(g1.dom(), c));
                    }
                }
                c.lemma_filter_contains(p1, k);
                let k2 = choose|k2: int| 0 <= k2 < c1.len() && c1[k2] == c[k];
                assert(false_deps(g2, c1).contains(y));
            }
        }
    };
    assert(out.labels_view() =~= orig.labels_view().union(false_deps(g2, c)));
}

/// Composing `all_reductions` across a propagation pass.
proof fn lemma_all_reductions_compose(
    g1: Map<Lit, Set<Lit>>,
    g2: Map<Lit, Set<Lit>>,
    d_out: Seq<LClause>,
    d_mid: Seq<LClause>,
    d_in: Seq<LClause>,
)
    requires
        all_reductions(g2, d_out, d_mid),
        all_reductions(g1, d_mid, d_in),
        g1.dom().subset_of(g2.dom()),
        consistent(g2.dom()),
        forall|k: Lit| #[trigger] g1.dom().contains(k) ==> g2.dom().contains(k) && g2[k] == g1[k],
    ensures
        all_reductions(g2, d_out, d_in),
{
    assert forall|i: int| #![trigger d_out[i]] 0 <= i < d_out.len() implies reduced_from(
        g2,
        d_out[i],
        d_in,
    ) by {
        assert(reduced_from(g2, d_out[i], d_mid));
        let jm = choose|jm: int|
            0 <= jm < d_mid.len() && #[trigger] reduction_of(g2, d_out[i], d_mid[jm]);
        assert(reduced_from(g1, d_mid[jm], d_in));
        let j = choose|j: int|
            0 <= j < d_in.len() && #[trigger] reduction_of(g1, d_mid[jm], d_in[j]);
        lemma_reduction_compose(g1, g2, d_out[i], d_mid[jm], d_in[j]);
        assert(reduction_of(g2, d_out[i], d_in[j]));
    };
}

/// `reduction_of` reads only the views, so view-equal inputs interchange.
proof fn lemma_all_reductions_equiv(
    g: Map<Lit, Set<Lit>>,
    d_out: Seq<LClause>,
    a: Seq<LClause>,
    b: Seq<LClause>,
)
    requires
        all_reductions(g, d_out, a),
        ldelta_equiv(a, b),
    ensures
        all_reductions(g, d_out, b),
{
    assert forall|i: int| #![trigger d_out[i]] 0 <= i < d_out.len() implies reduced_from(
        g,
        d_out[i],
        b,
    ) by {
        assert(reduced_from(g, d_out[i], a));
        let j = choose|j: int|
            0 <= j < a.len() && #[trigger] reduction_of(g, d_out[i], a[j]);
        assert(a[j].clause_view() == b[j].clause_view() && a[j].labels_view() == b[j].labels_view());
        assert(reduction_of(g, d_out[i], b[j]));
    };
}

/// Reductions of a prefix are reductions of any extension of it.
proof fn lemma_all_reductions_grow(
    g: Map<Lit, Set<Lit>>,
    d_out: Seq<LClause>,
    d_in: Seq<LClause>,
    d_in2: Seq<LClause>,
)
    requires
        all_reductions(g, d_out, d_in),
        d_in.len() <= d_in2.len(),
        forall|j: int| 0 <= j < d_in.len() ==> #[trigger] d_in2[j] == d_in[j],
    ensures
        all_reductions(g, d_out, d_in2),
{
    assert forall|i: int| #![trigger d_out[i]] 0 <= i < d_out.len() implies reduced_from(
        g,
        d_out[i],
        d_in2,
    ) by {
        assert(reduced_from(g, d_out[i], d_in));
        let j = choose|j: int| 0 <= j < d_in.len() && #[trigger] reduction_of(g, d_out[i], d_in[j]);
        assert(d_in2[j] == d_in[j]);
        assert(reduction_of(g, d_out[i], d_in2[j]));
    };
}

/// What a single learned clause guarantees, relative to a self-justified
/// set, an assigned set, and a variable universe.
pub open spec fn conflict_clause_wf(
    phi: Seq<Seq<Lit>>,
    sjs: Set<Lit>,
    gd: Set<Lit>,
    dvars: Set<int>,
    lc: LClause,
) -> bool {
    &&& clause_entailed(phi, lc.labels_view(), lc.clause_view())
    &&& lc.labels_view().subset_of(sjs)
    &&& (forall|j: int|
        0 <= j < lc.clause_view().len() ==> !gd.contains(#[trigger] lc.clause_view()[j]))
    &&& clause_vars(lc.clause_view()).subset_of(dvars)
}

/// What a whole set of learned clauses guarantees.
pub open spec fn conflict_wf(
    phi: Seq<Seq<Lit>>,
    sjs: Set<Lit>,
    gd: Set<Lit>,
    dvars: Set<int>,
    conf: Seq<LClause>,
) -> bool {
    forall|i: int| 0 <= i < conf.len() ==> conflict_clause_wf(phi, sjs, gd, dvars, #[trigger] conf[i])
}

/// Learned-clause guarantees survive a larger self-justified set, a smaller
/// assigned set, and a larger variable universe.
proof fn lemma_conflict_wf_weaken(
    phi: Seq<Seq<Lit>>,
    sjs1: Set<Lit>,
    gd1: Set<Lit>,
    dv1: Set<int>,
    sjs2: Set<Lit>,
    gd2: Set<Lit>,
    dv2: Set<int>,
    conf: Seq<LClause>,
)
    requires
        conflict_wf(phi, sjs1, gd1, dv1, conf),
        sjs1.subset_of(sjs2),
        gd2.subset_of(gd1),
        dv1.subset_of(dv2),
    ensures
        conflict_wf(phi, sjs2, gd2, dv2, conf),
{
    assert forall|i: int| 0 <= i < conf.len() implies conflict_clause_wf(
        phi,
        sjs2,
        gd2,
        dv2,
        #[trigger] conf[i],
    ) by {
        assert(conflict_clause_wf(phi, sjs1, gd1, dv1, conf[i]));
    };
}

/// The conflict-learning solver: a dependency-tracking environment, a
/// labelled working formula, and, as a ghost, the root formula.
pub struct Cdcl {
    /// Environment: assumed literals, each with the decisions that caused it.
    pub env: DepMap,
    /// The labelled CNF being worked on.
    pub delta: LCnf,
    /// The root formula this search started from.
    pub phi: Ghost<Seq<Seq<Lit>>>,
}

impl Clone for Cdcl {
    fn clone(&self) -> (r: Self)
        ensures
            r.env@ == self.env@,
            r.delta@.len() == self.delta@.len(),
            forall|i: int|
                0 <= i < self.delta@.len() ==> (#[trigger] r.delta@[i]).clause_view()
                    == self.delta@[i].clause_view() && r.delta@[i].labels_view()
                    == self.delta@[i].labels_view(),
            r.phi == self.phi,
    {
        Cdcl { env: self.env.clone(), delta: self.delta.clone(), phi: self.phi }
    }
}

impl Cdcl {
    /// The invariants every rule preserves.
    pub open spec fn wf_core(&self) -> bool {
        &&& consistent(self.env@.dom())
        &&& dep_closed(self.env@)
        &&& env_sound(self.phi@, self.env@)
        &&& ldelta_entailed(self.phi@, self.delta@)
        &&& labels_closed(self.env@, self.delta@)
    }

    /// Construct a solver from a formula, with an empty environment and no
    /// labels.
    pub fn new(f: Cnf) -> (r: Self)
        ensures
            r.env@.dom() == Set::<Lit>::empty(),
            clauses_of(r.delta@) == f@,
            r.phi@ == f@,
            r.wf_core(),
            self_justified(r.env@) == Set::<Lit>::empty(),
    {
        let ghost phi = f@;
        let ldelta = f.into_lcnf();
        let r = Cdcl { env: DepMap::new(), delta: ldelta, phi: Ghost(phi) };
        proof {
            assert(r.env@.dom() =~= Set::<Lit>::empty());
            assert(self_justified(r.env@) =~= Set::<Lit>::empty());
            assert(clauses_of(r.delta@) =~= phi);
            assert forall|i: int| 0 <= i < r.delta@.len() implies clause_entailed(
                phi,
                (#[trigger] r.delta@[i]).labels_view(),
                r.delta@[i].clause_view(),
            ) by {
                assert forall|m: Set<Lit>|
                    #[trigger] phi_model(phi, m) && r.delta@[i].labels_view().subset_of(m)
                    implies clause_sat(m, r.delta@[i].clause_view()) by {
                    assert(cnf_sat(m, phi));
                    assert(clause_sat(m, phi[i]));
                };
            };
        }
        r
    }

    /// The environment.
    pub fn env(&self) -> (r: &DepMap)
        ensures
            r@ == self.env@,
    {
        &self.env
    }

    /// Walks the environment and reports whether it is consistent, that is,
    /// whether it never holds a literal together with its complement.  The
    /// rules keep this true, so a false answer cannot come back.
    pub fn invariant_holds(&self) -> (r: bool)
        ensures
            r == consistent(self.env@.dom()),
    {
        let keys = self.env.keys();
        let kv = keys.to_vec();
        let n = kv.len();
        let mut i: usize = 0;
        while i < n
            invariant
                n == kv@.len(),
                kv@.to_set() == self.env@.dom(),
                0 <= i <= n,
                forall|j: int|
                    0 <= j < i ==> !self.env@.dom().contains(neg_lit(#[trigger] kv@[j])),
            decreases n - i,
        {
            let l = kv[i];
            if self.env.contains_key(&l.ref_negate()) {
                proof {
                    assert(kv@.to_set().contains(kv@[i as int]));
                    assert(self.env@.dom().contains(kv@[i as int]));
                    assert(self.env@.dom().contains(neg_lit(kv@[i as int])));
                }
                return false;
            }
            i = i + 1;
        }
        proof {
            assert forall|l: Lit| self.env@.dom().contains(l) implies !self.env@.dom().contains(
                neg_lit(l),
            ) by {
                assert(kv@.to_set().contains(l));
                let j = choose|j: int| 0 <= j < kv@.len() && kv@[j] == l;
            };
        }
        true
    }

    /// Rewrites a set of learned clauses for undoing the decision `lit`:
    /// where a clause's labels name `lit`, the label goes and the complement
    /// of `lit` enters the clause itself.
    pub fn shift(lit: &Lit, lclauses: &LCnf) -> (r: LCnf)
        ensures
            r@.len() == lclauses@.len(),
            forall|i: int|
                0 <= i < lclauses@.len() ==> if (#[trigger] lclauses@[i]).labels_view().contains(
                    *lit,
                ) {
                    (#[trigger] r@[i]).clause_view().to_set() == lclauses@[i].clause_view().to_set().insert(
                        neg_lit(*lit),
                    ) && r@[i].labels_view() == lclauses@[i].labels_view().remove(*lit)
                } else {
                    r@[i].clause_view() == lclauses@[i].clause_view() && r@[i].labels_view()
                        == lclauses@[i].labels_view()
                },
    {
        let mut res = LCnf::with_capacity(lclauses.len());
        let n = lclauses.len();
        let mut i: usize = 0;
        while i < n
            invariant
                n == lclauses@.len(),
                0 <= i <= n,
                res@.len() == i,
                forall|j: int|
                    0 <= j < i ==> if (#[trigger] lclauses@[j]).labels_view().contains(*lit) {
                        (#[trigger] res@[j]).clause_view().to_set()
                            == lclauses@[j].clause_view().to_set().insert(neg_lit(*lit))
                            && res@[j].labels_view() == lclauses@[j].labels_view().remove(*lit)
                    } else {
                        res@[j].clause_view() == lclauses@[j].clause_view() && res@[j].labels_view()
                            == lclauses@[j].labels_view()
                    },
            decreases n - i,
        {
            let mut new_lclause = lclauses.get(i).clone();
            if new_lclause.labels().contains(lit) {
                new_lclause.push(lit.ref_negate());
                new_lclause.labels_remove(lit);
            }
            res.push(new_lclause);
            i = i + 1;
        }
        res
    }

    /// *Assume* rule (named `assign` here): a literal already assumed only
    /// merges the new cause into its recorded one; a fresh literal is
    /// recorded and propagated.
    pub fn assign(&self, lit: Lit, cause: LitSet) -> (r: Result<Cdcl, Outcome<(LitSet, LCnf)>>)
        requires
            self.wf_core(),
            self.env@.dom().contains(lit) || !self.env@.dom().contains(neg_lit(lit)),
            cause@.subset_of(self_justified(self.env@).insert(lit)),
            lit_entailed(self.phi@, cause@, lit),
        ensures
            r matches Ok(n) ==> n.wf_core() && n.phi == self.phi && self.env@.dom().insert(
                lit,
            ).subset_of(n.env@.dom()) && cnf_vars(clauses_of(n.delta@)).subset_of(
                cnf_vars(clauses_of(self.delta@)),
            ) && self_justified(self.env@).subset_of(self_justified(n.env@)) && self_justified(
                n.env@,
            ).subset_of(self_justified(self.env@).insert(lit)) && (!cause@.contains(lit)
                ==> self_justified(n.env@).subset_of(self_justified(self.env@))) && models_iff(
                self.env@.dom().insert(lit),
                clauses_of(self.delta@),
                n.env@.dom(),
                clauses_of(n.delta@),
            ),
            self.env@.dom().contains(lit) ==> r is Ok,
            r matches Ok(n) ==> (self.env@.dom().contains(lit) ==> n.env@ == self.env@.insert(
                lit,
                self.env@[lit].union(cause@),
            ) && ldelta_equiv(n.delta@, self.delta@)),
            r matches Ok(n) ==> (!self.env@.dom().contains(lit) ==> ldelta_unknown(
                n.env@.dom(),
                n.delta@,
            ) && lmin_len(n.delta@, 2) && measure_of(n.env@.dom(), cnf_vars(clauses_of(n.delta@)))
                < measure_of(
                self.env@.dom(),
                cnf_vars(clauses_of(self.delta@)).insert(lit.idx as int),
            ) && n.env@[lit] == cause@ && (forall|k: Lit|
                #[trigger] self.env@.dom().contains(k) ==> n.env@.dom().contains(k) && n.env@[k]
                    == self.env@[k]) && all_reductions(n.env@, n.delta@, self.delta@)),
            r matches Err(o) ==> (o matches Outcome::Unsat(u) && u.0@.subset_of(
                self_justified(self.env@).insert(lit),
            ) && (!cause@.contains(lit) ==> u.0@.subset_of(self_justified(self.env@)))
                && refuted_under(self.phi@, u.0@) && u.1@.len() == 0),
        decreases measure_of(
            self.env@.dom(),
            cnf_vars(clauses_of(self.delta@)).insert(lit.idx as int),
        ), 0int,
    {
        let ghost g0 = self.env@;
        let mut new: Cdcl = self.clone();
        if self.env.contains_key(&lit) {
            // Already assumed: merge the causes (idempotent labelling).
            new.env.extend_entry(&lit, &cause);
            proof {
                lemma_self_justified_merge(g0, lit, cause@);
                assert(new.env@ == g0.insert(lit, g0[lit].union(cause@)));
                assert(new.env@.dom() =~= g0.dom());
                assert(self_justified(new.env@).subset_of(self_justified(g0).insert(lit)));
                assert(self.env@.dom().insert(lit) =~= self.env@.dom());
                // Dependency sets still point at decisions.
                assert forall|k: Lit| #[trigger] new.env@.dom().contains(k) implies (
                new.env@[k]).subset_of(self_justified(new.env@)) by {
                    if k == lit {
                        assert(g0[lit].subset_of(self_justified(g0)));
                        assert forall|x: Lit| new.env@[lit].contains(x) implies self_justified(
                            new.env@,
                        ).contains(x) by {
                            if g0[lit].contains(x) {
                                assert(self_justified(g0).contains(x));
                            } else {
                                assert(cause@.contains(x));
                                assert(self_justified(g0).insert(lit).contains(x));
                                if x == lit {
                                    assert(new.env@[lit].contains(lit));
                                    assert(self_justified(new.env@).contains(lit));
                                }
                            }
                        };
                    } else {
                        assert(new.env@[k] == g0[k]);
                        assert(g0.dom().contains(k));
                        assert(g0[k].subset_of(self_justified(g0)));
                    }
                };
                // Every entry is still forced by the root formula.
                assert forall|k: Lit| #[trigger] new.env@.dom().contains(k) implies lit_entailed(
                    self.phi@,
                    new.env@[k],
                    k,
                ) by {
                    if k == lit {
                        assert(g0.dom().contains(lit));
                        assert(lit_entailed(self.phi@, g0[lit], lit));
                        assert forall|m: Set<Lit>|
                            #[trigger] phi_model(self.phi@, m) && new.env@[lit].subset_of(m)
                            implies m.contains(lit) by {
                            assert(g0[lit].subset_of(new.env@[lit]));
                        };
                    } else {
                        assert(new.env@[k] == g0[k]);
                        assert(g0.dom().contains(k));
                    }
                };
                // Labels still point at decisions, which only grew.
                assert forall|i: int| 0 <= i < new.delta@.len() implies (
                #[trigger] new.delta@[i]).labels_view().subset_of(self_justified(new.env@)) by {
                    assert(self.delta@[i].labels_view().subset_of(self_justified(g0)));
                };
                assert(cnf_vars(clauses_of(new.delta@)).subset_of(
                    cnf_vars(clauses_of(self.delta@)),
                )) by {
                    assert(clauses_of(new.delta@) =~= clauses_of(self.delta@));
                }
                assert forall|m: Set<Lit>|
                    #[trigger] models(m, self.env@.dom().insert(lit), clauses_of(self.delta@))
                        <==> #[trigger] models(m, new.env@.dom(), clauses_of(new.delta@)) by {
                    assert(clauses_of(new.delta@) =~= clauses_of(self.delta@));
                    assert(self.env@.dom().insert(lit) =~= new.env@.dom());
                };
                assert forall|i: int| 0 <= i < new.delta@.len() implies clause_entailed(
                    self.phi@,
                    (#[trigger] new.delta@[i]).labels_view(),
                    new.delta@[i].clause_view(),
                ) by {
                    assert(clause_entailed(
                        self.phi@,
                        self.delta@[i].labels_view(),
                        self.delta@[i].clause_view(),
                    ));
                    assert(new.delta@[i].labels_view() == self.delta@[i].labels_view());
                    assert(new.delta@[i].clause_view() == self.delta@[i].clause_view());
                };
                assert(ldelta_equiv(new.delta@, self.delta@));
            }
            Ok(new)
        } else {
            proof {
                self.env.lemma_dom_finite();
                lemma_cnf_vars_finite(clauses_of(self.delta@));
                lemma_self_justified_insert(g0, lit, cause@);
            }
            new.env.insert(lit, cause);
            proof {
                assert(new.env@ == g0.insert(lit, cause@));
                assert(new.env@.dom() =~= g0.dom().insert(lit));
                lemma_extend_consistent(g0.dom(), lit);
                assert forall|k: Lit| #[trigger] new.env@.dom().contains(k) implies (
                new.env@[k]).subset_of(self_justified(new.env@)) by {
                    if k == lit {
                        if cause@.contains(lit) {
                            assert(self_justified(new.env@) == self_justified(g0).insert(lit));
                        } else {
                            assert(self_justified(new.env@) == self_justified(g0));
                            assert forall|x: Lit| cause@.contains(x) implies self_justified(
                                new.env@,
                            ).contains(x) by {
                                assert(self_justified(g0).insert(lit).contains(x));
                            };
                        }
                    } else {
                        assert(new.env@[k] == g0[k]);
                        assert(g0[k].subset_of(self_justified(g0)));
                        if cause@.contains(lit) {
                            assert(self_justified(new.env@) == self_justified(g0).insert(lit));
                        }
                    }
                };
                assert forall|k: Lit| #[trigger] new.env@.dom().contains(k) implies lit_entailed(
                    self.phi@,
                    new.env@[k],
                    k,
                ) by {
                    if k != lit {
                        assert(new.env@[k] == g0[k]);
                        assert(g0.dom().contains(k));
                    }
                };
                assert forall|i: int| 0 <= i < new.delta@.len() implies (
                #[trigger] new.delta@[i]).labels_view().subset_of(self_justified(new.env@)) by {
                    assert(self.delta@[i].labels_view().subset_of(self_justified(g0)));
                    assert(self_justified(g0).subset_of(self_justified(new.env@)));
                };
                assert forall|i: int| 0 <= i < new.delta@.len() implies clause_entailed(
                    self.phi@,
                    (#[trigger] new.delta@[i]).labels_view(),
                    new.delta@[i].clause_view(),
                ) by {
                    assert(clause_entailed(
                        self.phi@,
                        self.delta@[i].labels_view(),
                        self.delta@[i].clause_view(),
                    ));
                    assert(new.delta@[i].labels_view() == self.delta@[i].labels_view());
                    assert(new.delta@[i].clause_view() == self.delta@[i].clause_view());
                };
                lemma_unassigned(g0.dom(), lit);
                lemma_measure_lt(
                    g0.dom(),
                    new.env@.dom(),
                    cnf_vars(clauses_of(self.delta@)).insert(lit.idx as int),
                    cnf_vars(clauses_of(self.delta@)),
                    lit.idx as int,
                );
                assert(clauses_of(new.delta@) =~= clauses_of(self.delta@));
            }
            let r = new.bcp();
            proof {
                if r is Ok {
                    let n = r->Ok_0;
                    assert(ldelta_equiv(new.delta@, self.delta@));
                    lemma_all_reductions_equiv(n.env@, n.delta@, new.delta@, self.delta@);
                }
            }
            r
        }
    }

    /// *BCP* rule: drop satisfied clauses; shrink the rest to their
    /// undecided literals while folding the dependency sets of the dropped
    /// false literals, and the clause's own labels, into a new label set.
    #[verifier::rlimit(60)]
    #[verifier::spinoff_prover]
    pub fn bcp(&self) -> (r: Result<Cdcl, Outcome<(LitSet, LCnf)>>)
        requires
            self.wf_core(),
        ensures
            r matches Ok(n) ==> n.wf_core() && n.phi == self.phi && self.env@.dom().subset_of(
                n.env@.dom(),
            ) && cnf_vars(clauses_of(n.delta@)).subset_of(cnf_vars(clauses_of(self.delta@)))
                && self_justified(self.env@).subset_of(self_justified(n.env@)) && self_justified(
                n.env@,
            ).subset_of(self_justified(self.env@)) && ldelta_unknown(n.env@.dom(), n.delta@)
                && lmin_len(n.delta@, 2) && models_iff(
                self.env@.dom(),
                clauses_of(self.delta@),
                n.env@.dom(),
                clauses_of(n.delta@),
            ) && measure_of(n.env@.dom(), cnf_vars(clauses_of(n.delta@))) <= measure_of(
                self.env@.dom(),
                cnf_vars(clauses_of(self.delta@)),
            ) && (forall|k: Lit|
                #[trigger] self.env@.dom().contains(k) ==> n.env@.dom().contains(k) && n.env@[k]
                    == self.env@[k]) && all_reductions(n.env@, n.delta@, self.delta@),
            self.delta@.len() == 0 ==> (r matches Ok(n) && n.env@ == self.env@ && n.delta@.len()
                == 0),
            r matches Err(o) ==> (o matches Outcome::Unsat(u) && u.0@.subset_of(
                self_justified(self.env@),
            ) && refuted_under(self.phi@, u.0@) && u.1@.len() == 0),
        decreases measure_of(self.env@.dom(), cnf_vars(clauses_of(self.delta@))), 1int,
    {
        let ghost phi = self.phi@;
        let ghost g0 = self.env@;
        let ghost gd0 = g0.dom();
        let ghost d0 = self.delta@;
        let mut new = Cdcl {
            env: self.env.clone(),
            delta: LCnf::with_capacity(self.delta.len()),
            phi: self.phi,
        };
        proof {
            self.env.lemma_dom_finite();
            lemma_cnf_vars_finite(clauses_of(d0));
            assert(clauses_of(new.delta@) =~= Seq::<Seq<Lit>>::empty());
            assert(cnf_vars(clauses_of(new.delta@)) =~= Set::<int>::empty());
            assert(clauses_of(d0).subrange(0, 0) =~= Seq::<Seq<Lit>>::empty());
            lemma_measure_le(gd0, gd0, cnf_vars(clauses_of(d0)), Set::<int>::empty());
        }
        let n_clauses = self.delta.len();
        let mut i: usize = 0;
        while i < n_clauses
            invariant
                n_clauses == d0.len(),
                0 <= i <= d0.len(),
                self.env@ == g0,
                self.delta@ == d0,
                self.phi@ == phi,
                new.phi@ == phi,
                gd0 == g0.dom(),
                consistent(new.env@.dom()),
                dep_closed(new.env@),
                env_sound(phi, new.env@),
                ldelta_entailed(phi, new.delta@),
                ldelta_entailed(phi, d0),
                labels_closed(new.env@, new.delta@),
                labels_closed(g0, d0),
                gd0.subset_of(new.env@.dom()),
                cnf_vars(clauses_of(new.delta@)).subset_of(cnf_vars(clauses_of(d0))),
                cnf_vars(clauses_of(d0)).finite(),
                self_justified(g0).subset_of(self_justified(new.env@)),
                self_justified(new.env@).subset_of(self_justified(g0)),
                ldelta_unknown(new.env@.dom(), new.delta@),
                lmin_len(new.delta@, 2),
                models_iff(
                    gd0,
                    clauses_of(d0).subrange(0, i as int),
                    new.env@.dom(),
                    clauses_of(new.delta@),
                ),
                measure_of(new.env@.dom(), cnf_vars(clauses_of(new.delta@))) <= measure_of(
                    gd0,
                    cnf_vars(clauses_of(d0)),
                ),
                forall|k: Lit|
                    #[trigger] g0.dom().contains(k) ==> new.env@.dom().contains(k) && new.env@[k]
                        == g0[k],
                d0.len() == 0 ==> (new.env@ == g0 && new.delta@.len() == 0),
                all_reductions(new.env@, new.delta@, d0.subrange(0, i as int)),
            decreases d0.len() - i,
        {
            let lclause = self.delta.get(i);
            let lits = lclause.clause().iter();
            let mut acc = lclause.labels().clone();
            let mut new_clause = Clause::with_capacity(5);
            let ghost c = d0[i as int].clause_view();
            let ghost lbl = d0[i as int].labels_view();
            proof {
                assert(clauses_of(d0)[i as int] == c);
                assert(lbl.subset_of(self_justified(g0)));
                assert(c.subrange(0, 0) =~= Seq::<Lit>::empty());
                assert(reduce_clause(new.env@.dom(), c.subrange(0, 0)) =~= Seq::<Lit>::empty())
                    by {
                    reveal(Seq::filter);
                }
                assert(acc@ =~= lbl.union(false_deps(new.env@, c.subrange(0, 0))));
            }
            let n_lits = lits.len();
            let mut j: usize = 0;
            let mut satisfied = false;
            while j < n_lits && !satisfied
                invariant
                    n_lits == c.len(),
                    0 <= j <= c.len(),
                    lits@ == c,
                    consistent(new.env@.dom()),
                    dep_closed(new.env@),
                    env_sound(phi, new.env@),
                    lbl.subset_of(acc@),
                    acc@.subset_of(self_justified(new.env@)),
                    satisfied ==> clause_sat(new.env@.dom(), c),
                    !satisfied ==> forall|k: int| 0 <= k < j ==> !new.env@.dom().contains(
                        #[trigger] c[k],
                    ),
                    !satisfied ==> forall|k: int|
                        0 <= k < j ==> (new_clause@.to_set().contains(#[trigger] c[k]) || (
                        new.env@.dom().contains(neg_lit(c[k])) && (new.env@[neg_lit(c[k])]).subset_of(
                            acc@,
                        ))),
                    forall|x: Lit|
                        new_clause@.to_set().contains(x) ==> exists|k: int|
                            0 <= k < c.len() && c[k] == x,
                    forall|x: Lit|
                        new_clause@.to_set().contains(x) ==> !new.env@.dom().contains(x)
                            && !new.env@.dom().contains(neg_lit(x)),
                    strictly_sorted(c),
                    !satisfied ==> new_clause@ == reduce_clause(
                        new.env@.dom(),
                        c.subrange(0, j as int),
                    ),
                    !satisfied ==> acc@ == lbl.union(false_deps(new.env@, c.subrange(0, j as int))),
                decreases c.len() - j,
            {
                let lit = lits[j];
                if new.env.contains_key(&lit) {
                    satisfied = true;
                    proof {
                        assert(new.env@.dom().contains(c[j as int]));
                    }
                } else {
                    match new.env.get(&lit.ref_negate()) {
                        Some(deps) => {
                            acc.union_with(deps);
                            proof {
                                assert(new.env@.dom().contains(neg_lit(c[j as int])));
                                assert((new.env@[neg_lit(c[j as int])]).subset_of(
                                    self_justified(new.env@),
                                ));
                                crate::seqs::lemma_subrange_push(c, j as int);
                                crate::seqs::lemma_filter_push(
                                    c.subrange(0, j as int),
                                    c[j as int],
                                    |l: Lit| unknown_in(new.env@.dom(), l),
                                );
                                assert(!unknown_in(new.env@.dom(), c[j as int]));
                                assert(new_clause@ == reduce_clause(
                                    new.env@.dom(),
                                    c.subrange(0, j + 1),
                                ));
                                lemma_false_deps_push(
                                    new.env@,
                                    c.subrange(0, j as int),
                                    c[j as int],
                                );
                                assert(acc@ =~= lbl.union(
                                    false_deps(new.env@, c.subrange(0, j + 1)),
                                ));
                            }
                        },
                        None => {
                            proof {
                                assert(c[j as int] == lit);
                                assert(unknown_in(new.env@.dom(), lit));
                                assert forall|k2: int|
                                    0 <= k2 < new_clause@.len() implies crate::lit::lit_lt(
                                    #[trigger] new_clause@[k2],
                                    lit,
                                ) by {
                                    crate::seqs::lemma_filter_elem(
                                        c.subrange(0, j as int),
                                        |l: Lit| unknown_in(new.env@.dom(), l),
                                        k2,
                                    );
                                    let k = choose|k: int|
                                        0 <= k < c.subrange(0, j as int).len() && c.subrange(
                                            0,
                                            j as int,
                                        )[k] == new_clause@[k2];
                                    assert(c[k] == new_clause@[k2]);
                                    assert(crate::lit::lit_lt(c[k], c[j as int]));
                                };
                            }
                            let ghost pre_clause = new_clause@;
                            new_clause.push(lit);
                            proof {
                                assert(new_clause@ == pre_clause.push(lit));
                                crate::seqs::lemma_subrange_push(c, j as int);
                                crate::seqs::lemma_filter_push(
                                    c.subrange(0, j as int),
                                    c[j as int],
                                    |l: Lit| unknown_in(new.env@.dom(), l),
                                );
                                assert(new_clause@ == reduce_clause(
                                    new.env@.dom(),
                                    c.subrange(0, j + 1),
                                ));
                                lemma_false_deps_push(
                                    new.env@,
                                    c.subrange(0, j as int),
                                    c[j as int],
                                );
                                assert(!new.env@.dom().contains(neg_lit(c[j as int])));
                                assert(acc@ == lbl.union(
                                    false_deps(new.env@, c.subrange(0, j + 1)),
                                ));
                            }
                        },
                    }
                }
                j = j + 1;
            }
            if satisfied {
                proof {
                    lemma_models_iff_step_satisfied(
                        gd0,
                        clauses_of(d0),
                        i as int,
                        new.env@.dom(),
                        clauses_of(new.delta@),
                    );
                    assert forall|q: int| 0 <= q < i + 1 implies #[trigger] d0.subrange(
                        0,
                        i + 1,
                    )[q] == d0.subrange(0, i as int).push(d0[i as int])[q] by {}
                    lemma_all_reductions_grow(
                        new.env@,
                        new.delta@,
                        d0.subrange(0, i as int),
                        d0.subrange(0, i + 1),
                    );
                }
            } else if new_clause.is_empty() {
                // Conflict: the clause is all false; the refutation rests on
                // its labels and the dependencies of its literals.
                proof {
                    assert(new_clause@.to_set() =~= Set::<Lit>::empty());
                    crate::sem::lemma_scan_entailed(
                        phi,
                        new.env@,
                        c,
                        lbl,
                        acc@,
                        Set::<Lit>::empty(),
                    );
                    assert forall|m: Set<Lit>| #[trigger] phi_model(phi, m) implies !acc@.subset_of(
                        m,
                    ) by {
                        if acc@.subset_of(m) {
                            let x = choose|x: Lit|
                                Set::<Lit>::empty().contains(x) && m.contains(x);
                        }
                    };
                }
                return Err(Outcome::new_unsat((acc, LCnf::empty())));
            } else if new_clause.len() == 1 {
                // Unit: the lone undecided literal is forced, caused by the
                // labels and the dependencies of the false literals.
                let forced = new_clause.drain();
                let u = forced[0];
                proof {
                    assert(forced@.to_set().contains(forced@[0]));
                    assert forall|x: Lit| forced@.to_set().contains(x) implies x == u by {
                        let kk = choose|kk: int| 0 <= kk < forced@.len() && forced@[kk] == x;
                        assert(kk == 0);
                    };
                    assert(forced@.to_set() =~= Set::<Lit>::empty().insert(u));
                    crate::sem::lemma_scan_entailed(phi, new.env@, c, lbl, acc@, forced@.to_set());
                    assert forall|m: Set<Lit>| #[trigger] phi_model(phi, m) && acc@.subset_of(m)
                        implies m.contains(u) by {
                        let x = choose|x: Lit| forced@.to_set().contains(x) && m.contains(x);
                    };
                    let k = choose|k: int| 0 <= k < c.len() && c[k] == u;
                    lemma_clause_var_in_cnf(clauses_of(d0), i as int, k);
                    lemma_measure_le(
                        new.env@.dom(),
                        new.env@.dom(),
                        cnf_vars(clauses_of(d0)),
                        cnf_vars(clauses_of(new.delta@)).insert(u.idx as int),
                    );
                    lemma_measure_le(
                        gd0,
                        new.env@.dom(),
                        cnf_vars(clauses_of(d0)),
                        cnf_vars(clauses_of(d0)),
                    );
                    assert(!acc@.contains(u)) by {
                        if acc@.contains(u) {
                            assert(self_justified(new.env@).contains(u));
                        }
                    }
                }
                let ghost pre = new;
                match new.assign(u, acc) {
                    Ok(n2) => {
                        proof {
                            lemma_models_iff_step_unit(
                                gd0,
                                clauses_of(d0),
                                i as int,
                                pre.env@.dom(),
                                clauses_of(pre.delta@),
                                forced@.to_set(),
                                u,
                            );
                            assert forall|m: Set<Lit>|
                                #[trigger] models(m, gd0, clauses_of(d0).subrange(0, i + 1))
                                    <==> #[trigger] models(
                                    m,
                                    n2.env@.dom(),
                                    clauses_of(n2.delta@),
                                ) by {
                                assert(models(m, gd0, clauses_of(d0).subrange(0, i + 1)) <==> models(
                                    m,
                                    pre.env@.dom().insert(u),
                                    clauses_of(pre.delta@),
                                ));
                            };
                            lemma_measure_le(
                                gd0,
                                n2.env@.dom(),
                                cnf_vars(clauses_of(d0)),
                                cnf_vars(clauses_of(n2.delta@)),
                            );
                            lemma_all_reductions_compose(
                                pre.env@,
                                n2.env@,
                                n2.delta@,
                                pre.delta@,
                                d0.subrange(0, i as int),
                            );
                            lemma_all_reductions_grow(
                                n2.env@,
                                n2.delta@,
                                d0.subrange(0, i as int),
                                d0.subrange(0, i + 1),
                            );
                        }
                        new = n2;
                    },
                    Err(o) => {
                        return Err(o);
                    },
                }
            } else {
                // Several undecided literals: keep the shrunk clause,
                // relabelled with the accumulated dependencies.
                let kept = LClause::new_with(new_clause, acc);
                let ghost pre_delta = new.delta@;
                new.delta.push(kept);
                let ghost kc = kept.clause_view();
                proof {
                    assert(clauses_of(new.delta@) =~= clauses_of(pre_delta).push(kc));
                    lemma_cnf_vars_push(clauses_of(pre_delta), kc);
                    assert forall|v: int| clause_vars(kc).contains(v) implies cnf_vars(
                        clauses_of(d0),
                    ).contains(v) by {
                        crate::seqs::lemma_map_to_set_elim(kc, |l: Lit| l.idx as int, v);
                        let k = choose|k: int| 0 <= k < kc.len() && ((kc[k].idx) as int) == v;
                        assert(kc.to_set().contains(kc[k]));
                        let k2 = choose|k2: int| 0 <= k2 < c.len() && c[k2] == kc[k];
                        lemma_clause_var_in_cnf(clauses_of(d0), i as int, k2);
                    };
                    lemma_measure_le(
                        gd0,
                        new.env@.dom(),
                        cnf_vars(clauses_of(d0)),
                        cnf_vars(clauses_of(new.delta@)),
                    );
                    // The kept clause is entailed under its new labels.
                    crate::sem::lemma_scan_entailed(phi, new.env@, c, lbl, acc@, kc.to_set());
                    assert forall|m: Set<Lit>| #[trigger] phi_model(phi, m) && acc@.subset_of(m)
                        implies clause_sat(m, kc) by {
                        let x = choose|x: Lit| kc.to_set().contains(x) && m.contains(x);
                        lemma_clause_sat_set(m, kc);
                    };
                    assert forall|q: int| 0 <= q < new.delta@.len() implies clause_entailed(
                        phi,
                        (#[trigger] new.delta@[q]).labels_view(),
                        new.delta@[q].clause_view(),
                    ) by {
                        if q < pre_delta.len() {
                            assert(new.delta@[q] == pre_delta[q]);
                        } else {
                            assert(new.delta@[q] == kept);
                        }
                    };
                    assert forall|q: int| 0 <= q < new.delta@.len() implies (
                    #[trigger] new.delta@[q]).labels_view().subset_of(self_justified(new.env@)) by {
                        if q < pre_delta.len() {
                            assert(new.delta@[q] == pre_delta[q]);
                        }
                    };
                    assert forall|q: int, jj: int|
                        0 <= q < new.delta@.len() && 0 <= jj < new.delta@[q].clause_view().len()
                        implies !new.env@.dom().contains(
                            #[trigger] new.delta@[q].clause_view()[jj],
                        ) && !new.env@.dom().contains(neg_lit(new.delta@[q].clause_view()[jj])) by {
                        if q < pre_delta.len() {
                            assert(new.delta@[q] == pre_delta[q]);
                            assert(!new.env@.dom().contains(pre_delta[q].clause_view()[jj])
                                && !new.env@.dom().contains(neg_lit(pre_delta[q].clause_view()[jj])));
                        } else {
                            assert(new.delta@[q] == kept);
                            assert(kc.to_set().contains(kc[jj]));
                        }
                    };
                    lemma_models_iff_step_kept(
                        gd0,
                        clauses_of(d0),
                        i as int,
                        new.env@.dom(),
                        clauses_of(pre_delta),
                        kc,
                    );
                    assert(models_iff(
                        gd0,
                        clauses_of(d0).subrange(0, i + 1),
                        new.env@.dom(),
                        clauses_of(new.delta@),
                    ));
                    // The pushed clause is exactly this clause's reduction,
                    // under exactly the accumulated labels.
                    assert(c.subrange(0, c.len() as int) =~= c);
                    assert(kept.clause_view() == reduce_clause(new.env@.dom(), c));
                    assert(kept.labels_view() == lbl.union(false_deps(new.env@, c)));
                    assert(!clause_sat(new.env@.dom(), c)) by {
                        if clause_sat(new.env@.dom(), c) {
                            let k = choose|k: int|
                                0 <= k < c.len() && new.env@.dom().contains(c[k]);
                        }
                    }
                    assert(reduction_of(new.env@, kept, d0[i as int]));
                    lemma_all_reductions_grow(
                        new.env@,
                        pre_delta,
                        d0.subrange(0, i as int),
                        d0.subrange(0, i + 1),
                    );
                    assert(d0.subrange(0, i + 1)[i as int] == d0[i as int]);
                    assert forall|q: int| #![trigger new.delta@[q]]
                        0 <= q < new.delta@.len() implies reduced_from(
                        new.env@,
                        new.delta@[q],
                        d0.subrange(0, i + 1),
                    ) by {
                        if q < pre_delta.len() {
                            assert(new.delta@[q] == pre_delta[q]);
                            assert(reduced_from(new.env@, pre_delta[q], d0.subrange(0, i + 1)));
                        } else {
                            assert(new.delta@[q] == kept);
                            assert(reduction_of(new.env@, kept, d0.subrange(0, i + 1)[i as int]));
                        }
                    };
                }
            }
            i = i + 1;
        }
        proof {
            crate::seqs::lemma_subrange_all(clauses_of(d0));
            crate::seqs::lemma_subrange_all(d0);
        }
        Ok(new)
    }

    /// *Unsat* rule: with no clause left the assumed literals are a model.
    /// Otherwise decide the first literal of the first clause; on refutation,
    /// `shift` the learned clauses past the decision, and if the refutation
    /// never used the decision, pass it on unchanged.  Otherwise retry the
    /// complement over the working formula extended with the learned
    /// clauses, and learn the unit clause of the complement.
    #[verifier::rlimit(80)]
    #[verifier::spinoff_prover]
    pub fn unsat(&self) -> (r: Outcome<(LitSet, LCnf)>)
        requires
            self.wf_core(),
            ldelta_unknown(self.env@.dom(), self.delta@),
            lmin_len(self.delta@, 1),
        ensures
            r matches Outcome::Sat(m) ==> models(m@, self.env@.dom(), clauses_of(self.delta@)),
            r matches Outcome::Unsat(u) ==> u.0@.subset_of(self_justified(self.env@))
                && refuted_under(self.phi@, u.0@) && conflict_wf(
                self.phi@,
                self_justified(self.env@),
                self.env@.dom(),
                cnf_vars(clauses_of(self.delta@)),
                u.1@,
            ),
            self.delta@.len() == 0 ==> (r matches Outcome::Sat(m) && m@ == self.env@.dom()),
        decreases measure_of(self.env@.dom(), cnf_vars(clauses_of(self.delta@))), 3int,
    {
        proof {
            self.env.lemma_dom_finite();
            lemma_cnf_vars_finite(clauses_of(self.delta@));
        }
        if self.delta.is_empty() {
            let model = self.env.keys();
            proof {
                assert(models(model@, self.env@.dom(), clauses_of(self.delta@)));
            }
            return Outcome::new_sat(model);
        }
        let lclause = self.delta.get(0);
        let lits = lclause.clause().iter();
        let lit = lits[0];
        let ghost c = self.delta@[0].clause_view();
        proof {
            assert(c[0] == lit);
            assert(clauses_of(self.delta@)[0] == c);
            assert(!self.env@.dom().contains(lit) && !self.env@.dom().contains(neg_lit(lit)));
            assert forall|x: Lit| self_justified(self.env@).contains(x)
                implies self.env@.dom().contains(x) by {};
            lemma_clause_var_in_cnf(clauses_of(self.delta@), 0, 0);
            assert(cnf_vars(clauses_of(self.delta@)).insert(lit.idx as int) =~= cnf_vars(
                clauses_of(self.delta@),
            ));
        }
        let mut cause = LitSet::new();
        cause.insert(lit);
        proof {
            assert(cause@ =~= Set::<Lit>::empty().insert(lit));
            assert forall|m: Set<Lit>| #[trigger] phi_model(self.phi@, m) && cause@.subset_of(m)
                implies m.contains(lit) by {
                assert(cause@.contains(lit));
            };
        }
        let first = match self.assign(lit, cause) {
            Ok(n) => {
                let res = n.unsat();
                proof {
                    if res is Sat {
                        let m = res->Sat_0;
                        assert(models(m@, n.env@.dom(), clauses_of(n.delta@)));
                        assert(models(
                            m@,
                            self.env@.dom().insert(lit),
                            clauses_of(self.delta@),
                        ));
                    }
                    if res is Unsat {
                        let u = res->Unsat_0;
                        assert(u.0@.subset_of(self_justified(n.env@)));
                        assert(self_justified(n.env@).subset_of(
                            self_justified(self.env@).insert(lit),
                        ));
                        lemma_conflict_wf_weaken(
                            self.phi@,
                            self_justified(n.env@),
                            n.env@.dom(),
                            cnf_vars(clauses_of(n.delta@)),
                            self_justified(self.env@).insert(lit),
                            self.env@.dom().insert(lit),
                            cnf_vars(clauses_of(self.delta@)),
                            u.1@,
                        );
                    }
                }
                res
            },
            Err(o) => o,
        };
        proof {
            assert(first matches Outcome::Sat(m) ==> models(
                m@,
                self.env@.dom().insert(lit),
                clauses_of(self.delta@),
            ));
            assert(first matches Outcome::Unsat(u) ==> u.0@.subset_of(
                self_justified(self.env@).insert(lit),
            ) && refuted_under(self.phi@, u.0@) && conflict_wf(
                self.phi@,
                self_justified(self.env@).insert(lit),
                self.env@.dom().insert(lit),
                cnf_vars(clauses_of(self.delta@)),
                u.1@,
            ));
        }
        if first.is_sat() {
            proof {
                let m = first->Sat_0;
                assert(models(m@, self.env@.dom().insert(lit), clauses_of(self.delta@)));
                assert(models(m@, self.env@.dom(), clauses_of(self.delta@)));
            }
            return first;
        }
        let (mut deps, conf1) = match first {
            Outcome::Unsat(u) => u,
            Outcome::Sat(m) => {
                proof {
                    assert(false);
                }
                (m, LCnf::empty())
            },
        };
        let mut conflict = Cdcl::shift(&lit, &conf1);
        proof {
            lemma_shifted_conflict_wf(
                self.phi@,
                self_justified(self.env@),
                self.env@.dom(),
                cnf_vars(clauses_of(self.delta@)),
                lit,
                conf1@,
                conflict@,
            );
        }
        let ghost deps0 = deps@;
        let was_there = deps.remove(&lit);
        if !was_there {
            // The refutation never used this decision: hand it up unchanged.
            proof {
                assert(deps@ =~= deps0);
                assert(deps@.subset_of(self_justified(self.env@)));
            }
            return Outcome::new_unsat((deps, conflict));
        }
        // The refutation used the decision: extend the working formula with
        // the learned clauses and retry the complement.
        proof {
            assert(deps0 =~= deps@.insert(lit));
            lemma_flip_decision(self.phi@, deps@, lit);
            assert(deps@.subset_of(self_justified(self.env@)));
        }
        self.retry(lit, deps, conflict)
    }

    /// Clones the state and appends the learned clauses to its working
    /// formula; every invariant survives, and a model of the extended formula
    /// satisfies the original.
    #[verifier::spinoff_prover]
    fn extend_with(&self, conflict: &LCnf) -> (r: Cdcl)
        requires
            self.wf_core(),
            conflict_wf(
                self.phi@,
                self_justified(self.env@),
                self.env@.dom(),
                cnf_vars(clauses_of(self.delta@)),
                conflict@,
            ),
        ensures
            r.wf_core(),
            r.phi == self.phi,
            r.env@ == self.env@,
            cnf_vars(clauses_of(r.delta@)).subset_of(cnf_vars(clauses_of(self.delta@))),
            forall|m: Set<Lit>|
                #[trigger] cnf_sat(m, clauses_of(r.delta@)) ==> cnf_sat(
                    m,
                    clauses_of(self.delta@),
                ),
    {
        let mut extended = self.clone();
        let ghost exd0 = extended.delta@;
        extended.delta.extend(conflict);
        let ghost exd = extended.delta@;
        proof {
            assert(exd0.len() == self.delta@.len());
            assert forall|q: int| 0 <= q < self.delta@.len() implies (#[trigger] exd[q]).clause_view()
                == self.delta@[q].clause_view() && exd[q].labels_view()
                == self.delta@[q].labels_view() by {
                assert(exd[q] == exd0[q]);
                assert(exd0[q].clause_view() == self.delta@[q].clause_view()
                    && exd0[q].labels_view() == self.delta@[q].labels_view());
            };
            assert forall|q: int| self.delta@.len() <= q < exd.len() implies (
            #[trigger] exd[q]).clause_view() == conflict@[q - self.delta@.len()].clause_view()
                && exd[q].labels_view() == conflict@[q - self.delta@.len()].labels_view() by {
                assert(exd[exd0.len() + (q - exd0.len())].clause_view() == conflict@[q
                    - exd0.len()].clause_view() && exd[exd0.len() + (q - exd0.len())].labels_view()
                    == conflict@[q - exd0.len()].labels_view());
            };
            lemma_extend_state(
                self.phi@,
                self_justified(self.env@),
                self.env@.dom(),
                self.delta@,
                conflict@,
                exd,
            );
            assert(extended.wf_core());
        }
        extended
    }

    /// Second half of the *Unsat* rule, reached when the refutation of the
    /// positive branch used the decision: extend the working formula with
    /// the learned clauses, assume the complement caused by the remaining
    /// dependencies, and learn the complement as a unit clause.
    #[verifier::rlimit(80)]
    #[verifier::spinoff_prover]
    fn retry(&self, lit: Lit, deps: LitSet, conflict: LCnf) -> (r: Outcome<(LitSet, LCnf)>)
        requires
            self.wf_core(),
            !self.env@.dom().contains(lit),
            !self.env@.dom().contains(neg_lit(lit)),
            cnf_vars(clauses_of(self.delta@)).contains(lit.idx as int),
            cnf_vars(clauses_of(self.delta@)).finite(),
            deps@.subset_of(self_justified(self.env@)),
            lit_entailed(self.phi@, deps@, neg_lit(lit)),
            conflict_wf(
                self.phi@,
                self_justified(self.env@),
                self.env@.dom(),
                cnf_vars(clauses_of(self.delta@)),
                conflict@,
            ),
        ensures
            r matches Outcome::Sat(m) ==> models(m@, self.env@.dom(), clauses_of(self.delta@)),
            r matches Outcome::Unsat(u) ==> u.0@.subset_of(self_justified(self.env@))
                && refuted_under(self.phi@, u.0@) && conflict_wf(
                self.phi@,
                self_justified(self.env@),
                self.env@.dom(),
                cnf_vars(clauses_of(self.delta@)),
                u.1@,
            ),
        decreases measure_of(self.env@.dom(), cnf_vars(clauses_of(self.delta@))), 2int,
    {
        let mut conflict = conflict;
        let nlit = lit.ref_negate();
        proof {
            self.env.lemma_dom_finite();
            assert(neg_lit(nlit) == lit);
            assert forall|x: Lit| self_justified(self.env@).contains(x)
                implies self.env@.dom().contains(x) by {};
            assert(!self.env@.dom().contains(nlit));
            assert(!deps@.contains(nlit)) by {
                if deps@.contains(nlit) {
                    assert(self_justified(self.env@).contains(nlit));
                }
            }
        }
        let cause2 = deps.clone();
        let extended = self.extend_with(&conflict);
        let ghost exd = extended.delta@;
        proof {
            lemma_measure_le(
                self.env@.dom(),
                self.env@.dom(),
                cnf_vars(clauses_of(self.delta@)),
                cnf_vars(clauses_of(exd)).insert(nlit.idx as int),
            );
        }
        let second = match extended.assign(nlit, cause2) {
            Ok(n) => {
                proof {
                    lemma_measure_le(
                        self.env@.dom(),
                        n.env@.dom(),
                        cnf_vars(clauses_of(self.delta@)),
                        cnf_vars(clauses_of(n.delta@)),
                    );
                }
                let res = n.unsat();
                proof {
                    if res is Sat {
                        let m = res->Sat_0;
                        assert(models(m@, n.env@.dom(), clauses_of(n.delta@)));
                        assert(models(m@, extended.env@.dom().insert(nlit), clauses_of(exd)));
                    }
                    if res is Unsat {
                        let u = res->Unsat_0;
                        assert(u.0@.subset_of(self_justified(n.env@)));
                        assert(self_justified(n.env@).subset_of(self_justified(self.env@)));
                        lemma_conflict_wf_weaken(
                            self.phi@,
                            self_justified(n.env@),
                            n.env@.dom(),
                            cnf_vars(clauses_of(n.delta@)),
                            self_justified(self.env@),
                            self.env@.dom(),
                            cnf_vars(clauses_of(self.delta@)),
                            u.1@,
                        );
                    }
                }
                res
            },
            Err(o) => o,
        };
        proof {
            assert(second matches Outcome::Sat(m) ==> models(
                m@,
                self.env@.dom().insert(nlit),
                clauses_of(exd),
            ));
            assert(second matches Outcome::Unsat(u) ==> u.0@.subset_of(
                self_justified(self.env@),
            ) && refuted_under(self.phi@, u.0@) && conflict_wf(
                self.phi@,
                self_justified(self.env@),
                self.env@.dom(),
                cnf_vars(clauses_of(self.delta@)),
                u.1@,
            ));
        }
        if second.is_sat() {
            proof {
                let m = second->Sat_0;
                assert(models(m@, self.env@.dom().insert(nlit), clauses_of(exd)));
                // A model of the extended formula satisfies the original.
                assert(cnf_sat(m@, clauses_of(exd)));
                assert(cnf_sat(m@, clauses_of(self.delta@)));
                assert(models(m@, self.env@.dom(), clauses_of(self.delta@)));
            }
            return second;
        }
        let (d2, conf2) = match second {
            Outcome::Unsat(u) => u,
            Outcome::Sat(m) => {
                proof {
                    assert(false);
                }
                (m, LCnf::empty())
            },
        };
        self.learn(lit, deps, conflict, d2, conf2)
    }

    /// Last step of a used decision's refutation: keep everything learned on
    /// both branches, plus the unit clause of the decision's complement,
    /// labelled by the remaining dependencies.
    #[verifier::spinoff_prover]
    fn learn(&self, lit: Lit, deps: LitSet, conflict: LCnf, d2: LitSet, conf2: LCnf) -> (r:
        Outcome<(LitSet, LCnf)>)
        requires
            !self.env@.dom().contains(neg_lit(lit)),
            cnf_vars(clauses_of(self.delta@)).contains(lit.idx as int),
            deps@.subset_of(self_justified(self.env@)),
            lit_entailed(self.phi@, deps@, neg_lit(lit)),
            d2@.subset_of(self_justified(self.env@)),
            refuted_under(self.phi@, d2@),
            conflict_wf(
                self.phi@,
                self_justified(self.env@),
                self.env@.dom(),
                cnf_vars(clauses_of(self.delta@)),
                conflict@,
            ),
            conflict_wf(
                self.phi@,
                self_justified(self.env@),
                self.env@.dom(),
                cnf_vars(clauses_of(self.delta@)),
                conf2@,
            ),
        ensures
            r matches Outcome::Unsat(u) && u.0@ == d2@ && conflict_wf(
                self.phi@,
                self_justified(self.env@),
                self.env@.dom(),
                cnf_vars(clauses_of(self.delta@)),
                u.1@,
            ),
    {
        let mut conflict = conflict;
        let nlit = lit.ref_negate();
        // Keep everything learned, plus the unit clause of the undone
        // decision's complement; the collection stays a set.
        let ghost conf_a = conflict@;
        conflict.extend_unique(&conf2);
        proof {
            assert forall|q: int| 0 <= q < conflict@.len() implies conflict_clause_wf(
                self.phi@,
                self_justified(self.env@),
                self.env@.dom(),
                cnf_vars(clauses_of(self.delta@)),
                #[trigger] conflict@[q],
            ) by {
                if eqv_in(conflict@[q], conf_a) {
                    let j = choose|j: int|
                        0 <= j < conf_a.len() && #[trigger] lclause_eqv(conflict@[q], conf_a[j]);
                    assert(conflict_clause_wf(
                        self.phi@,
                        self_justified(self.env@),
                        self.env@.dom(),
                        cnf_vars(clauses_of(self.delta@)),
                        conf_a[j],
                    ));
                } else {
                    let j = choose|j: int|
                        0 <= j < conf2@.len() && #[trigger] lclause_eqv(conflict@[q], conf2@[j]);
                    assert(conflict_clause_wf(
                        self.phi@,
                        self_justified(self.env@),
                        self.env@.dom(),
                        cnf_vars(clauses_of(self.delta@)),
                        conf2@[j],
                    ));
                }
            };
        }
        let ghost conf_b = conflict@;
        let mut unit_lits: Vec<Lit> = Vec::new();
        unit_lits.push(nlit);
        let learned = LClause::new_with(Clause::new(unit_lits), deps);
        proof {
            assert(unit_lits@ =~= Seq::<Lit>::empty().push(nlit));
            crate::seqs::lemma_to_set_push(Seq::<Lit>::empty(), nlit);
            assert(Seq::<Lit>::empty().to_set() =~= Set::<Lit>::empty());
            assert(learned.clause_view().to_set() =~= Set::<Lit>::empty().insert(nlit));
            lemma_unit_conflict_wf(
                self.phi@,
                self_justified(self.env@),
                self.env@.dom(),
                cnf_vars(clauses_of(self.delta@)),
                lit,
                deps@,
                learned,
            );
        }
        conflict.insert_unique(learned);
        proof {
            assert forall|q: int| 0 <= q < conflict@.len() implies conflict_clause_wf(
                self.phi@,
                self_justified(self.env@),
                self.env@.dom(),
                cnf_vars(clauses_of(self.delta@)),
                #[trigger] conflict@[q],
            ) by {
                if eqv_in(conflict@[q], conf_b) {
                    let j = choose|j: int|
                        0 <= j < conf_b.len() && #[trigger] lclause_eqv(conflict@[q], conf_b[j]);
                    assert(conflict_clause_wf(
                        self.phi@,
                        self_justified(self.env@),
                        self.env@.dom(),
                        cnf_vars(clauses_of(self.delta@)),
                        conf_b[j],
                    ));
                } else {
                    assert(lclause_eqv(conflict@[q], learned));
                }
            };
        }
        Outcome::new_unsat((d2, conflict))
    }

    /// Entry point: propagate once, then search, erasing the conflict-clause
    /// detail.  The verdict is exact with respect to the formula the solver
    /// was built from.
    pub fn solve(&self) -> (r: Outcome<()>)
        requires
            self.wf_core(),
            self.env@.dom() == Set::<Lit>::empty(),
            clauses_of(self.delta@) == self.phi@,
        ensures
            r matches Outcome::Sat(m) ==> models(m@, Set::empty(), clauses_of(self.delta@)),
            (r is Sat) <==> satisfiable(clauses_of(self.delta@)),
            self.delta@.len() == 0 ==> (r matches Outcome::Sat(m) && m@ == Set::<Lit>::empty()),
    {
        let r = match self.bcp() {
            Ok(n) => {
                let res = n.unsat();
                proof {
                    if res is Sat {
                        let m = res->Sat_0;
                        assert(models(m@, n.env@.dom(), clauses_of(n.delta@)));
                        assert(models(m@, self.env@.dom(), clauses_of(self.delta@)));
                    }
                    if res is Unsat {
                        let u = res->Unsat_0;
                        assert(u.0@.subset_of(self_justified(n.env@)));
                        assert(self_justified(n.env@).subset_of(self_justified(self.env@)));
                    }
                }
                res
            },
            Err(o) => o,
        };
        proof {
            assert(self_justified(self.env@) =~= Set::<Lit>::empty());
            if r is Unsat {
                let u = r->Unsat_0;
                assert(u.0@.subset_of(Set::<Lit>::empty()));
                assert(u.0@ =~= Set::<Lit>::empty());
                assert(refuted_under(self.phi@, u.0@));
                assert forall|m: Set<Lit>|
                    !(#[trigger] models(m, Set::<Lit>::empty(), clauses_of(self.delta@))) by {
                    if models(m, Set::<Lit>::empty(), clauses_of(self.delta@)) {
                        assert(phi_model(self.phi@, m));
                        assert(Set::<Lit>::empty().subset_of(m));
                    }
                };
                assert(!satisfiable(clauses_of(self.delta@)));
            }
            if r is Sat {
                let m = r->Sat_0;
                assert(models(m@, Set::empty(), clauses_of(self.delta@)));
                assert(satisfiable(clauses_of(self.delta@)));
            }
        }
        r.into_unit_unsat()
    }
}


/// Extending the working formula with learned clauses keeps every invariant
/// of the state, and a model of the extended formula satisfies the original.
proof fn lemma_extend_state(
    phi: Seq<Seq<Lit>>,
    sjs: Set<Lit>,
    gd: Set<Lit>,
    d: Seq<LClause>,
    conf: Seq<LClause>,
    exd: Seq<LClause>,
)
    requires
        ldelta_entailed(phi, d),
        forall|q: int| 0 <= q < d.len() ==> (#[trigger] d[q]).labels_view().subset_of(sjs),
        conflict_wf(phi, sjs, gd, cnf_vars(clauses_of(d)), conf),
        exd.len() == d.len() + conf.len(),
        forall|q: int|
            0 <= q < d.len() ==> (#[trigger] exd[q]).clause_view() == d[q].clause_view()
                && exd[q].labels_view() == d[q].labels_view(),
        forall|q: int|
            d.len() <= q < exd.len() ==> (#[trigger] exd[q]).clause_view() == conf[q
                - d.len()].clause_view() && exd[q].labels_view() == conf[q - d.len()].labels_view(),
    ensures
        ldelta_entailed(phi, exd),
        forall|q: int| 0 <= q < exd.len() ==> (#[trigger] exd[q]).labels_view().subset_of(sjs),
        cnf_vars(clauses_of(exd)).subset_of(cnf_vars(clauses_of(d))),
        forall|m: Set<Lit>| #[trigger] cnf_sat(m, clauses_of(exd)) ==> cnf_sat(m, clauses_of(d)),
{
    assert forall|q: int| 0 <= q < exd.len() implies clause_entailed(
        phi,
        (#[trigger] exd[q]).labels_view(),
        exd[q].clause_view(),
    ) && exd[q].labels_view().subset_of(sjs) by {
        if q < d.len() {
            assert(clause_entailed(phi, d[q].labels_view(), d[q].clause_view()));
            assert(d[q].labels_view().subset_of(sjs));
        } else {
            assert(conflict_clause_wf(phi, sjs, gd, cnf_vars(clauses_of(d)), conf[q - d.len()]));
        }
    };
    assert forall|v: int| cnf_vars(clauses_of(exd)).contains(v) implies cnf_vars(
        clauses_of(d),
    ).contains(v) by {
        crate::sem::lemma_cnf_vars_iff(clauses_of(exd));
        let (q, jj) = choose|q: int, jj: int|
            0 <= q < clauses_of(exd).len() && 0 <= jj < clauses_of(exd)[q].len() && (
            clauses_of(exd)[q][jj].idx as int) == v;
        if q < d.len() {
            assert(clauses_of(exd)[q] == clauses_of(d)[q]);
            lemma_clause_var_in_cnf(clauses_of(d), q, jj);
        } else {
            let lc = conf[q - d.len()];
            assert(conflict_clause_wf(phi, sjs, gd, cnf_vars(clauses_of(d)), lc));
            assert(clauses_of(exd)[q] == lc.clause_view());
            crate::seqs::lemma_map_to_set_intro(lc.clause_view(), |l: Lit| l.idx as int, jj);
            assert(clause_vars(lc.clause_view()).contains(v));
        }
    };
    assert forall|m: Set<Lit>| #[trigger] cnf_sat(m, clauses_of(exd)) implies cnf_sat(
        m,
        clauses_of(d),
    ) by {
        assert forall|q: int| 0 <= q < clauses_of(d).len() implies clause_sat(
            m,
            #[trigger] clauses_of(d)[q],
        ) by {
            assert(clauses_of(exd)[q] == clauses_of(d)[q]);
            assert(clause_sat(m, clauses_of(exd)[q]));
        };
    };
}

/// The learned unit clause of an undone decision's complement meets every
/// learned-clause guarantee.
proof fn lemma_unit_conflict_wf(
    phi: Seq<Seq<Lit>>,
    sjs: Set<Lit>,
    gd: Set<Lit>,
    dvars: Set<int>,
    l: Lit,
    dps: Set<Lit>,
    lc: LClause,
)
    requires
        lc.clause_view().to_set() == Set::<Lit>::empty().insert(neg_lit(l)),
        lc.labels_view() == dps,
        lit_entailed(phi, dps, neg_lit(l)),
        dps.subset_of(sjs),
        !gd.contains(neg_lit(l)),
        dvars.contains(l.idx as int),
    ensures
        conflict_clause_wf(phi, sjs, gd, dvars, lc),
{
    assert forall|m: Set<Lit>| #[trigger] phi_model(phi, m) && lc.labels_view().subset_of(m)
        implies clause_sat(m, lc.clause_view()) by {
        assert(m.contains(neg_lit(l)));
        lemma_clause_sat_set(m, lc.clause_view());
        assert(lc.clause_view().to_set().contains(neg_lit(l)));
    };
    assert forall|j: int| 0 <= j < lc.clause_view().len() implies !gd.contains(
        #[trigger] lc.clause_view()[j],
    ) by {
        assert(lc.clause_view().to_set().contains(lc.clause_view()[j]));
    };
    assert forall|v: int| clause_vars(lc.clause_view()).contains(v) implies dvars.contains(v) by {
        crate::seqs::lemma_map_to_set_elim(lc.clause_view(), |x: Lit| x.idx as int, v);
        let k = choose|k: int|
            0 <= k < lc.clause_view().len() && ((lc.clause_view()[k].idx) as int) == v;
        assert(lc.clause_view().to_set().contains(lc.clause_view()[k]));
        assert(lc.clause_view()[k] == neg_lit(l));
    };
}

/// Shifting preserves every learned-clause guarantee, read in the state
/// before the decision on `lit` rather than in the branch that made it.
proof fn lemma_shifted_conflict_wf(
    phi: Seq<Seq<Lit>>,
    sjs: Set<Lit>,
    gd: Set<Lit>,
    dvars: Set<int>,
    lit: Lit,
    conf: Seq<LClause>,
    shifted: Seq<LClause>,
)
    requires
        conflict_wf(phi, sjs.insert(lit), gd.insert(lit), dvars, conf),
        !gd.contains(lit),
        !gd.contains(neg_lit(lit)),
        sjs.subset_of(gd),
        dvars.contains(lit.idx as int),
        shifted.len() == conf.len(),
        forall|i: int|
            0 <= i < conf.len() ==> if (#[trigger] conf[i]).labels_view().contains(lit) {
                (#[trigger] shifted[i]).clause_view().to_set()
                    == conf[i].clause_view().to_set().insert(neg_lit(lit)) && shifted[i].labels_view()
                    == conf[i].labels_view().remove(lit)
            } else {
                shifted[i].clause_view() == conf[i].clause_view() && shifted[i].labels_view()
                    == conf[i].labels_view()
            },
    ensures
        conflict_wf(phi, sjs, gd, dvars, shifted),
{
    assert forall|i: int| 0 <= i < shifted.len() implies conflict_clause_wf(
        phi,
        sjs,
        gd,
        dvars,
        #[trigger] shifted[i],
    ) by {
        let old_lc = conf[i];
        let new_lc = shifted[i];
        assert(conflict_clause_wf(phi, sjs.insert(lit), gd.insert(lit), dvars, old_lc));
        if old_lc.labels_view().contains(lit) {
            // Labels lose the decision and stay decisions of the outer state.
            assert forall|x: Lit| new_lc.labels_view().contains(x) implies sjs.contains(x) by {
                assert(old_lc.labels_view().contains(x));
                assert(sjs.insert(lit).contains(x));
            };
            // The decision itself is not in the old clause.
            assert forall|j: int| 0 <= j < old_lc.clause_view().len()
                implies old_lc.clause_view()[j] != lit by {
                assert(!gd.insert(lit).contains(old_lc.clause_view()[j]));
            };
            // Entailment of the shifted clause.
            assert forall|m: Set<Lit>|
                #[trigger] phi_model(phi, m) && new_lc.labels_view().subset_of(m)
                implies clause_sat(m, new_lc.clause_view()) by {
                lemma_clause_sat_set(m, new_lc.clause_view());
                lemma_clause_sat_set(m, old_lc.clause_view());
                if m.contains(lit) {
                    assert(old_lc.labels_view().subset_of(m));
                    assert(clause_sat(m, old_lc.clause_view()));
                    let x = choose|x: Lit|
                        old_lc.clause_view().to_set().contains(x) && m.contains(x);
                    assert(new_lc.clause_view().to_set().contains(x));
                } else if m.contains(neg_lit(lit)) {
                    assert(new_lc.clause_view().to_set().contains(neg_lit(lit)));
                } else {
                    let m2 = m.insert(lit);
                    lemma_extend_consistent(m, lit);
                    lemma_sat_monotone(m, m2, phi);
                    assert(phi_model(phi, m2));
                    assert(old_lc.labels_view().subset_of(m2));
                    assert(clause_sat(m2, old_lc.clause_view()));
                    let x = choose|x: Lit|
                        old_lc.clause_view().to_set().contains(x) && m2.contains(x);
                    let j = choose|j: int|
                        0 <= j < old_lc.clause_view().len() && old_lc.clause_view()[j] == x;
                    assert(x != lit);
                    assert(m.contains(x));
                    assert(new_lc.clause_view().to_set().contains(x));
                }
            };
            // Clause literals stay unassigned in the outer state.
            assert forall|j: int| 0 <= j < new_lc.clause_view().len() implies !gd.contains(
                #[trigger] new_lc.clause_view()[j],
            ) by {
                let x = new_lc.clause_view()[j];
                assert(new_lc.clause_view().to_set().contains(x));
                if x == neg_lit(lit) {
                } else {
                    assert(old_lc.clause_view().to_set().contains(x));
                    let k = choose|k: int|
                        0 <= k < old_lc.clause_view().len() && old_lc.clause_view()[k] == x;
                    assert(!gd.insert(lit).contains(x));
                }
            };
            // Variables stay inside the universe.
            assert forall|v: int| clause_vars(new_lc.clause_view()).contains(v)
                implies dvars.contains(v) by {
                crate::seqs::lemma_map_to_set_elim(
                    new_lc.clause_view(),
                    |l: Lit| l.idx as int,
                    v,
                );
                let k = choose|k: int|
                    0 <= k < new_lc.clause_view().len() && ((new_lc.clause_view()[k].idx) as int)
                        == v;
                let x = new_lc.clause_view()[k];
                assert(new_lc.clause_view().to_set().contains(x));
                if x == neg_lit(lit) {
                } else {
                    assert(old_lc.clause_view().to_set().contains(x));
                    let k2 = choose|k2: int|
                        0 <= k2 < old_lc.clause_view().len() && old_lc.clause_view()[k2] == x;
                    crate::seqs::lemma_map_to_set_intro(
                        old_lc.clause_view(),
                        |l: Lit| l.idx as int,
                        k2,
                    );
                    assert(clause_vars(old_lc.clause_view()).contains(v));
                }
            };
        } else {
            assert forall|x: Lit| new_lc.labels_view().contains(x) implies sjs.contains(x) by {
                assert(old_lc.labels_view().contains(x));
                assert(sjs.insert(lit).contains(x));
                assert(x != lit);
            };
            assert forall|j: int| 0 <= j < new_lc.clause_view().len() implies !gd.contains(
                #[trigger] new_lc.clause_view()[j],
            ) by {
                assert(!gd.insert(lit).contains(old_lc.clause_view()[j]));
            };
        }
    };
}

} // verus!
