//! DPLL with backjumping: the environment records, for every assumed
//! literal, the decision literals that forced it; a refutation then says
//! which decisions it really used, and decisions it did not use are not
//! retried.

use vstd::prelude::*;

use crate::clause::Cnf;
use crate::env::DepMap;
use crate::lit::{neg_lit, Lit, LitSet, Literal};
use crate::outcome::Outcome;
use crate::sem::{
    clause_entailed, clause_sat, clause_vars, cnf_sat, cnf_vars, consistent, dep_closed,
    env_sound, has_unknown, lemma_clause_var_in_cnf, lemma_cnf_vars_finite,
    lemma_cnf_vars_push, lemma_extend_consistent, lemma_flip_decision, lemma_measure_le,
    lemma_measure_lt, lemma_models_iff_step_kept, lemma_models_iff_step_satisfied,
    lemma_models_iff_step_unit, lemma_self_justified_insert, lemma_unassigned, lit_entailed,
    measure_of, models, models_iff, phi_model, refuted_under, satisfiable, self_justified,
};

verus! {

/// Every clause of the working formula follows from the root formula alone.
pub open spec fn delta_entailed(phi: Seq<Seq<Lit>>, d: Seq<Seq<Lit>>) -> bool {
    forall|i: int| 0 <= i < d.len() ==> clause_entailed(phi, Set::empty(), #[trigger] d[i])
}

/// Every clause still holds an undecided literal.
pub open spec fn all_have_unknown(gd: Set<Lit>, d: Seq<Seq<Lit>>) -> bool {
    forall|i: int| 0 <= i < d.len() ==> has_unknown(gd, #[trigger] d[i])
}

/// The backjumping solver: a dependency-tracking environment, the working
/// formula, and, as a ghost, the root formula every deduction is measured
/// against.
pub struct Backjump {
    /// Environment: assumed literals, each with the decisions that caused it.
    pub env: DepMap,
    /// The CNF being worked on.
    pub delta: Cnf,
    /// The root formula this search started from.
    pub phi: Ghost<Seq<Seq<Lit>>>,
}

impl Clone for Backjump {
    fn clone(&self) -> (r: Self)
        ensures
            r.env@ == self.env@,
            r.delta@ == self.delta@,
            r.phi == self.phi,
    {
        Backjump { env: self.env.clone(), delta: self.delta.clone(), phi: self.phi }
    }
}

impl Backjump {
    /// The environment invariants every rule preserves: consistency,
    /// dependency sets pointing at decisions, every entry and every working
    /// clause entailed by the root formula.
    pub open spec fn wf_core(&self) -> bool {
        &&& consistent(self.env@.dom())
        &&& dep_closed(self.env@)
        &&& env_sound(self.phi@, self.env@)
        &&& delta_entailed(self.phi@, self.delta@)
    }

    /// Construct a solver from a formula, with an empty environment.
    pub fn new(f: Cnf) -> (r: Self)
        ensures
            r.env@.dom() == Set::<Lit>::empty(),
            r.delta@ == f@,
            r.phi@ == f@,
            r.wf_core(),
            self_justified(r.env@) == Set::<Lit>::empty(),
    {
        let ghost phi = f@;
        let r = Backjump { env: DepMap::new(), delta: f, phi: Ghost(phi) };
        proof {
            assert(r.env@.dom() =~= Set::<Lit>::empty());
            assert(self_justified(r.env@) =~= Set::<Lit>::empty());
            assert forall|i: int| 0 <= i < r.delta@.len() implies clause_entailed(
                phi,
                Set::empty(),
                #[trigger] r.delta@[i],
            ) by {
                assert forall|m: Set<Lit>|
                    #[trigger] phi_model(phi, m) && Set::<Lit>::empty().subset_of(m)
                    implies clause_sat(m, r.delta@[i]) by {
                    assert(cnf_sat(m, phi));
                };
            };
        }
        r
    }

    /// The environment.
    pub fn env(&self) -> (r: &DepMap)
        ensures
            r@ == self.env@,
    {
        &self.env
    }

    /// *Assume* rule (named `assign` here): record a so far undecided literal
    /// with its cause, then propagate.
    pub fn assign(&self, lit: Lit, cause: LitSet) -> (r: Result<Backjump, Outcome<LitSet>>)
        requires
            self.wf_core(),
            !self.env@.dom().contains(lit),
            !self.env@.dom().contains(neg_lit(lit)),
            cause@.subset_of(self_justified(self.env@).insert(lit)),
            lit_entailed(self.phi@, cause@, lit),
        ensures
            r matches Ok(n) ==> n.wf_core() && n.phi == self.phi && self.env@.dom().insert(
                lit,
            ).subset_of(n.env@.dom()) && cnf_vars(n.delta@).subset_of(cnf_vars(self.delta@))
                && self_justified(n.env@).subset_of(self_justified(self.env@).insert(lit)) && (
            !cause@.contains(lit) ==> self_justified(n.env@).subset_of(
                self_justified(self.env@),
            )) && all_have_unknown(n.env@.dom(), n.delta@) && models_iff(
                self.env@.dom().insert(lit),
                self.delta@,
                n.env@.dom(),
                n.delta@,
            ) && measure_of(n.env@.dom(), cnf_vars(n.delta@)) < measure_of(
                self.env@.dom(),
                cnf_vars(self.delta@).insert(lit.idx as int),
            ) && n.env@[lit] == cause@ && (forall|k: Lit|
                #[trigger] self.env@.dom().contains(k) ==> n.env@.dom().contains(k) && n.env@[k]
                    == self.env@[k]),
            r matches Err(o) ==> (o matches Outcome::Unsat(deps) && deps@.subset_of(
                self_justified(self.env@).insert(lit),
            ) && (!cause@.contains(lit) ==> deps@.subset_of(self_justified(self.env@)))
                && refuted_under(self.phi@, deps@)),
        decreases measure_of(self.env@.dom(), cnf_vars(self.delta@).insert(lit.idx as int)), 0int,
    {
        let ghost g0 = self.env@;
        let mut new: Backjump = self.clone();
        proof {
            self.env.lemma_dom_finite();
            lemma_cnf_vars_finite(self.delta@);
            lemma_self_justified_insert(g0, lit, cause@);
        }
        new.env.insert(lit, cause);
        proof {
            assert(new.env@ == g0.insert(lit, cause@));
            assert(new.env@.dom() =~= g0.dom().insert(lit));
            lemma_extend_consistent(g0.dom(), lit);
            // The fresh entry keeps dependency sets pointing at decisions.
            assert forall|k: Lit| #[trigger] new.env@.dom().contains(k) implies (new.env@[k]).subset_of(
                self_justified(new.env@),
            ) by {
                if k == lit {
                    if cause@.contains(lit) {
                        assert(self_justified(new.env@) == self_justified(g0).insert(lit));
                    } else {
                        assert(self_justified(new.env@) == self_justified(g0));
                        assert forall|x: Lit| cause@.contains(x) implies self_justified(
                            new.env@,
                        ).contains(x) by {
                            assert(self_justified(g0).insert(lit).contains(x));
                        };
                    }
                } else {
                    assert(new.env@[k] == g0[k]);
                    assert(g0[k].subset_of(self_justified(g0)));
                    if cause@.contains(lit) {
                        assert(self_justified(new.env@) == self_justified(g0).insert(lit));
                    }
                }
            };
            // Every entry is still forced by the root formula.
            assert forall|k: Lit| #[trigger] new.env@.dom().contains(k) implies lit_entailed(
                self.phi@,
                new.env@[k],
                k,
            ) by {
                if k != lit {
                    assert(new.env@[k] == g0[k]);
                    assert(g0.dom().contains(k));
                }
            };
            // The measure strictly shrinks: one more variable is decided.
            lemma_unassigned(g0.dom(), lit);
            lemma_measure_lt(
                g0.dom(),
                new.env@.dom(),
                cnf_vars(self.delta@).insert(lit.idx as int),
                cnf_vars(self.delta@),
                lit.idx as int,
            );
        }
        new.bcp()
    }

    /// *BCP* rule: drop satisfied clauses; in each other clause, union the
    /// dependency sets of its false literals; with no undecided literal left
    /// that union refutes the branch, with one the literal is forced.
    pub fn bcp(&self) -> (r: Result<Backjump, Outcome<LitSet>>)
        requires
            self.wf_core(),
        ensures
            r matches Ok(n) ==> n.wf_core() && n.phi == self.phi && self.env@.dom().subset_of(
                n.env@.dom(),
            ) && cnf_vars(n.delta@).subset_of(cnf_vars(self.delta@)) && self_justified(
                n.env@,
            ).subset_of(self_justified(self.env@)) && all_have_unknown(n.env@.dom(), n.delta@)
                && models_iff(self.env@.dom(), self.delta@, n.env@.dom(), n.delta@)
                && measure_of(n.env@.dom(), cnf_vars(n.delta@)) <= measure_of(
                self.env@.dom(),
                cnf_vars(self.delta@),
            ) && (forall|k: Lit|
                #[trigger] self.env@.dom().contains(k) ==> n.env@.dom().contains(k) && n.env@[k]
                    == self.env@[k]),
            self.delta@.len() == 0 ==> (r matches Ok(n) && n.env@ == self.env@ && n.delta@.len()
                == 0),
            r matches Err(o) ==> (o matches Outcome::Unsat(deps) && deps@.subset_of(
                self_justified(self.env@),
            ) && refuted_under(self.phi@, deps@)),
        decreases measure_of(self.env@.dom(), cnf_vars(self.delta@)), 1int,
    {
        let ghost phi = self.phi@;
        let ghost g0 = self.env@;
        let ghost gd0 = g0.dom();
        let ghost d0 = self.delta@;
        let mut new = Backjump {
            env: self.env.clone(),
            delta: Cnf::with_capacity(self.delta.len()),
            phi: self.phi,
        };
        proof {
            self.env.lemma_dom_finite();
            lemma_cnf_vars_finite(d0);
            assert(cnf_vars(new.delta@) =~= Set::<int>::empty());
            assert(d0.subrange(0, 0) =~= Seq::<Seq<Lit>>::empty());
            lemma_measure_le(gd0, gd0, cnf_vars(d0), Set::<int>::empty());
        }
        let n_clauses = self.delta.len();
        let mut i: usize = 0;
        while i < n_clauses
            invariant
                n_clauses == d0.len(),
                0 <= i <= d0.len(),
                self.env@ == g0,
                self.delta@ == d0,
                self.phi@ == phi,
                new.phi@ == phi,
                gd0 == g0.dom(),
                consistent(new.env@.dom()),
                dep_closed(new.env@),
                env_sound(phi, new.env@),
                delta_entailed(phi, new.delta@),
                delta_entailed(phi, d0),
                gd0.subset_of(new.env@.dom()),
                cnf_vars(new.delta@).subset_of(cnf_vars(d0)),
                cnf_vars(d0).finite(),
                self_justified(new.env@).subset_of(self_justified(g0)),
                all_have_unknown(new.env@.dom(), new.delta@),
                models_iff(gd0, d0.subrange(0, i as int), new.env@.dom(), new.delta@),
                measure_of(new.env@.dom(), cnf_vars(new.delta@)) <= measure_of(gd0, cnf_vars(d0)),
                forall|k: Lit|
                    #[trigger] g0.dom().contains(k) ==> new.env@.dom().contains(k) && new.env@[k]
                        == g0[k],
                d0.len() == 0 ==> (new.env@ == g0 && new.delta@.len() == 0),
            decreases d0.len() - i,
        {
            let clause = self.delta.get(i);
            let lits = clause.iter();
            let ghost c = d0[i as int];
            let n_lits = lits.len();
            let mut acc = LitSet::new();
            let mut unknown_count: usize = 0;
            let mut unknown_lit = Lit::new(0, false);
            let mut j: usize = 0;
            let mut satisfied = false;
            while j < n_lits && !satisfied
                invariant
                    n_lits == c.len(),
                    0 <= j <= c.len(),
                    lits@ == c,
                    unknown_count <= j,
                    consistent(new.env@.dom()),
                    dep_closed(new.env@),
                    env_sound(phi, new.env@),
                    acc@.subset_of(self_justified(new.env@)),
                    satisfied ==> clause_sat(new.env@.dom(), c),
                    !satisfied ==> forall|k: int| 0 <= k < j ==> !new.env@.dom().contains(
                        #[trigger] c[k],
                    ),
                    !satisfied ==> forall|k: int|
                        0 <= k < j ==> (new.env@.dom().contains(neg_lit(#[trigger] c[k]))
                            ==> new.env@[neg_lit(c[k])].subset_of(acc@)),
                    !satisfied && unknown_count == 0 ==> forall|k: int|
                        0 <= k < j ==> new.env@.dom().contains(neg_lit(#[trigger] c[k])),
                    !satisfied && unknown_count >= 1 ==> !new.env@.dom().contains(unknown_lit)
                        && !new.env@.dom().contains(neg_lit(unknown_lit)) && (exists|k: int|
                        0 <= k < j && c[k] == unknown_lit),
                    !satisfied && unknown_count == 1 ==> forall|k: int|
                        0 <= k < j ==> (#[trigger] c[k] == unknown_lit || new.env@.dom().contains(
                            neg_lit(c[k]),
                        )),
                decreases c.len() - j,
            {
                let lit = lits[j];
                if new.env.contains_key(&lit) {
                    satisfied = true;
                    proof {
                        assert(new.env@.dom().contains(c[j as int]));
                    }
                } else {
                    match new.env.get(&lit.ref_negate()) {
                        Some(deps) => {
                            acc.union_with(deps);
                            proof {
                                assert(new.env@.dom().contains(neg_lit(c[j as int])));
                                assert(new.env@[neg_lit(c[j as int])].subset_of(
                                    self_justified(new.env@),
                                ));
                            }
                        },
                        None => {
                            unknown_lit = lit;
                            unknown_count = unknown_count + 1;
                            proof {
                                assert(c[j as int] == lit);
                            }
                        },
                    }
                }
                j = j + 1;
            }
            if satisfied {
                // The clause holds already under the environment.
                proof {
                    lemma_models_iff_step_satisfied(gd0, d0, i as int, new.env@.dom(), new.delta@);
                }
            } else if unknown_count == 0 {
                // Conflict: the clause is all false; its refutation rests on
                // the dependencies of its literals.
                proof {
                    assert(clause_entailed(phi, Set::empty(), c));
                    assert forall|m: Set<Lit>| #[trigger] phi_model(phi, m) implies !acc@.subset_of(
                        m,
                    ) by {
                        if acc@.subset_of(m) {
                            assert(Set::<Lit>::empty().subset_of(m));
                            assert(clause_sat(m, c));
                            let k = choose|k: int| 0 <= k < c.len() && m.contains(c[k]);
                            assert(new.env@.dom().contains(neg_lit(c[k])));
                            assert(new.env@[neg_lit(c[k])].subset_of(acc@));
                            assert(lit_entailed(phi, new.env@[neg_lit(c[k])], neg_lit(c[k])));
                            assert(m.contains(neg_lit(c[k])));
                            assert(!m.contains(neg_lit(c[k])));
                        }
                    };
                }
                return Err(Outcome::new_unsat(acc));
            } else if unknown_count == 1 {
                // Unit: the lone undecided literal is forced, caused by the
                // dependencies of the false ones.
                let u = unknown_lit;
                proof {
                    // The forced literal is entailed by the root formula and
                    // the accumulated causes.
                    assert(clause_entailed(phi, Set::empty(), c));
                    assert forall|m: Set<Lit>| #[trigger] phi_model(phi, m) && acc@.subset_of(m)
                        implies m.contains(u) by {
                        assert(Set::<Lit>::empty().subset_of(m));
                        assert(clause_sat(m, c));
                        let k = choose|k: int| 0 <= k < c.len() && m.contains(c[k]);
                        if c[k] != u {
                            assert(new.env@.dom().contains(neg_lit(c[k])));
                            assert(new.env@[neg_lit(c[k])].subset_of(acc@));
                            assert(lit_entailed(phi, new.env@[neg_lit(c[k])], neg_lit(c[k])));
                            assert(m.contains(neg_lit(c[k])));
                            assert(!m.contains(neg_lit(c[k])));
                        }
                    };
                    let k = choose|k: int| 0 <= k < c.len() && c[k] == u;
                    lemma_clause_var_in_cnf(d0, i as int, k);
                    lemma_measure_le(
                        new.env@.dom(),
                        new.env@.dom(),
                        cnf_vars(d0),
                        cnf_vars(new.delta@).insert(u.idx as int),
                    );
                    lemma_measure_le(gd0, new.env@.dom(), cnf_vars(d0), cnf_vars(d0));
                    // The cause holds no undecided literal, `u` included.
                    assert(!acc@.contains(u)) by {
                        if acc@.contains(u) {
                            assert(self_justified(new.env@).contains(u));
                        }
                    }
                }
                let ghost pre = new;
                match new.assign(u, acc) {
                    Ok(n2) => {
                        proof {
                            lemma_models_iff_step_unit(
                                gd0,
                                d0,
                                i as int,
                                pre.env@.dom(),
                                pre.delta@,
                                Set::<Lit>::empty().insert(u),
                                u,
                            );
                            assert forall|m: Set<Lit>|
                                #[trigger] models(m, gd0, d0.subrange(0, i + 1)) <==> #[trigger] models(
                                m,
                                n2.env@.dom(),
                                n2.delta@,
                            ) by {
                                assert(models(m, gd0, d0.subrange(0, i + 1)) <==> models(
                                    m,
                                    pre.env@.dom().insert(u),
                                    pre.delta@,
                                ));
                            };
                            lemma_measure_le(gd0, n2.env@.dom(), cnf_vars(d0), cnf_vars(n2.delta@));
                        }
                        new = n2;
                    },
                    Err(o) => {
                        return Err(o);
                    },
                }
            } else {
                // Two or more undecided literals: keep the clause as it is.
                let kept = clause.clone();
                let ghost pre_delta = new.delta@;
                new.delta.push(kept);
                proof {
                    lemma_cnf_vars_push(pre_delta, c);
                    assert forall|v: int| clause_vars(c).contains(v) implies cnf_vars(d0).contains(
                        v,
                    ) by {
                        crate::seqs::lemma_map_to_set_elim(c, |l: Lit| l.idx as int, v);
                        let k = choose|k: int| 0 <= k < c.len() && ((c[k].idx) as int) == v;
                        lemma_clause_var_in_cnf(d0, i as int, k);
                    };
                    lemma_measure_le(gd0, new.env@.dom(), cnf_vars(d0), cnf_vars(new.delta@));
                    // The working formula stays entailed and undecided
                    // clause by clause.
                    assert forall|q: int| 0 <= q < new.delta@.len() implies clause_entailed(
                        phi,
                        Set::empty(),
                        #[trigger] new.delta@[q],
                    ) by {
                        if q < pre_delta.len() {
                            assert(new.delta@[q] == pre_delta[q]);
                        } else {
                            assert(new.delta@[q] == c);
                        }
                    };
                    assert forall|q: int| 0 <= q < new.delta@.len() implies has_unknown(
                        new.env@.dom(),
                        #[trigger] new.delta@[q],
                    ) by {
                        if q < pre_delta.len() {
                            assert(new.delta@[q] == pre_delta[q]);
                        } else {
                            assert(new.delta@[q] == c);
                            let k = choose|k: int| 0 <= k < c.len() && c[k] == unknown_lit;
                        }
                    };
                    assert forall|k: int| 0 <= k < c.len() implies c.to_set().contains(
                        #[trigger] c[k],
                    ) by {}
                    lemma_models_iff_step_kept(gd0, d0, i as int, new.env@.dom(), pre_delta, c);
                    assert(new.delta@ =~= pre_delta.push(c));
                }
            }
            i = i + 1;
        }
        proof {
            crate::seqs::lemma_subrange_all(d0);
        }
        Ok(new)
    }

    /// *Unsat* rule: with no clause left the assumed literals are a model;
    /// otherwise decide the first undecided literal of the first clause,
    /// caused by itself.  If the positive branch's refutation does not name
    /// the decision, it stands unchanged: the negation is never tried.
    pub fn unsat(&self) -> (r: Outcome<LitSet>)
        requires
            self.wf_core(),
            all_have_unknown(self.env@.dom(), self.delta@),
        ensures
            r matches Outcome::Sat(m) ==> models(m@, self.env@.dom(), self.delta@),
            r matches Outcome::Unsat(deps) ==> deps@.subset_of(self_justified(self.env@))
                && refuted_under(self.phi@, deps@),
            self.delta@.len() == 0 ==> (r matches Outcome::Sat(m) && m@ == self.env@.dom()),
        decreases measure_of(self.env@.dom(), cnf_vars(self.delta@)), 2int,
    {
        proof {
            self.env.lemma_dom_finite();
            lemma_cnf_vars_finite(self.delta@);
        }
        if self.delta.is_empty() {
            let model = self.env.keys();
            proof {
                assert(models(model@, self.env@.dom(), self.delta@));
            }
            Outcome::new_sat(model)
        } else {
            let clause = self.delta.get(0);
            let lits = clause.iter();
            let ghost c = self.delta@[0];
            let n_lits = lits.len();
            let mut j: usize = 0;
            let mut found = false;
            let mut lit = Lit::new(0, false);
            while j < n_lits && !found
                invariant
                    n_lits == c.len(),
                    lits@ == c,
                    0 <= j <= c.len(),
                    self.delta@.len() > 0,
                    has_unknown(self.env@.dom(), c),
                    !found ==> forall|k: int|
                        0 <= k < j ==> (self.env@.dom().contains(#[trigger] c[k])
                            || self.env@.dom().contains(neg_lit(c[k]))),
                    found ==> !self.env@.dom().contains(lit) && !self.env@.dom().contains(
                        neg_lit(lit),
                    ) && (exists|k: int| 0 <= k < c.len() && c[k] == lit),
                decreases c.len() - j,
            {
                let cand = lits[j];
                if !self.env.contains_key(&cand) && !self.env.contains_key(&cand.ref_negate()) {
                    found = true;
                    lit = cand;
                    proof {
                        assert(c[j as int] == cand);
                    }
                }
                j = j + 1;
            }
            proof {
                if !found {
                    let k = choose|k: int|
                        0 <= k < c.len() && !self.env@.dom().contains(#[trigger] c[k])
                            && !self.env@.dom().contains(neg_lit(c[k]));
                    assert(false);
                }
                let k = choose|k: int| 0 <= k < c.len() && c[k] == lit;
                lemma_clause_var_in_cnf(self.delta@, 0, k);
                assert(cnf_vars(self.delta@).insert(lit.idx as int) =~= cnf_vars(self.delta@));
            }
            let mut cause = LitSet::new();
            cause.insert(lit);
            proof {
                assert(cause@ =~= Set::<Lit>::empty().insert(lit));
                assert(cause@.subset_of(self_justified(self.env@).insert(lit)));
                assert forall|m: Set<Lit>| #[trigger] phi_model(self.phi@, m) && cause@.subset_of(
                    m,
                ) implies m.contains(lit) by {
                    assert(cause@.contains(lit));
                };
            }
            let first = match self.assign(lit, cause) {
                Ok(n) => {
                    let res = n.unsat();
                    proof {
                        if res is Sat {
                            let m = res->Sat_0;
                            assert(models(m@, n.env@.dom(), n.delta@));
                            assert(models(m@, self.env@.dom().insert(lit), self.delta@));
                        }
                        if res is Unsat {
                            let deps = res->Unsat_0;
                            assert(deps@.subset_of(self_justified(n.env@)));
                            assert(self_justified(n.env@).subset_of(
                                self_justified(self.env@).insert(lit),
                            ));
                        }
                    }
                    res
                },
                Err(o) => o,
            };
            proof {
                assert(first matches Outcome::Sat(m) ==> models(
                    m@,
                    self.env@.dom().insert(lit),
                    self.delta@,
                ));
                assert(first matches Outcome::Unsat(deps) ==> deps@.subset_of(
                    self_justified(self.env@).insert(lit),
                ) && refuted_under(self.phi@, deps@));
            }
            if first.is_sat() {
                proof {
                    let m = first->Sat_0;
                    assert(models(m@, self.env@.dom().insert(lit), self.delta@));
                    assert(models(m@, self.env@.dom(), self.delta@));
                }
                return first;
            }
            let mut deps = match first {
                Outcome::Unsat(d) => d,
                Outcome::Sat(m) => {
                    proof {
                        assert(false);
                    }
                    m
                },
            };
            let ghost deps0 = deps@;
            let was_there = deps.remove(&lit);
            if !was_there {
                // The conflict does not involve this decision: jump past it.
                proof {
                    assert(deps@ =~= deps0);
                    assert(deps@.subset_of(self_justified(self.env@)));
                }
                return Outcome::new_unsat(deps);
            }
            // The conflict used the decision: retry with its complement,
            // caused by the remaining dependencies.
            let nlit = lit.ref_negate();
            proof {
                assert(neg_lit(nlit) == lit);
                assert(deps0 =~= deps@.insert(lit));
                lemma_flip_decision(self.phi@, deps@, lit);
                assert(deps@.subset_of(self_justified(self.env@)));
                assert(!self.env@.dom().contains(nlit));
                assert(!deps@.contains(nlit)) by {
                    if deps@.contains(nlit) {
                        assert(self_justified(self.env@).contains(nlit));
                    }
                }
                assert(cnf_vars(self.delta@).insert(nlit.idx as int) =~= cnf_vars(self.delta@));
            }
            let second = match self.assign(nlit, deps) {
                Ok(n) => {
                    let res = n.unsat();
                    proof {
                        if res is Sat {
                            let m = res->Sat_0;
                            assert(models(m@, n.env@.dom(), n.delta@));
                            assert(models(m@, self.env@.dom().insert(nlit), self.delta@));
                        }
                        if res is Unsat {
                            let d2 = res->Unsat_0;
                            assert(d2@.subset_of(self_justified(n.env@)));
                            assert(self_justified(n.env@).subset_of(self_justified(self.env@)));
                        }
                    }
                    res
                },
                Err(o) => o,
            };
            proof {
                assert(second matches Outcome::Sat(m) ==> models(
                    m@,
                    self.env@.dom().insert(nlit),
                    self.delta@,
                ));
                assert(second matches Outcome::Unsat(d2) ==> d2@.subset_of(
                    self_justified(self.env@),
                ) && refuted_under(self.phi@, d2@));
            }
            if second.is_sat() {
                proof {
                    let m = second->Sat_0;
                    assert(models(m@, self.env@.dom().insert(nlit), self.delta@));
                    assert(models(m@, self.env@.dom(), self.delta@));
                }
            }
            second
        }
    }

    /// Entry point: propagate once, then search.  The verdict is exact with
    /// respect to the root formula this solver was built from.
    pub fn solve(&self) -> (r: Outcome<()>)
        requires
            self.wf_core(),
            self.env@.dom() == Set::<Lit>::empty(),
            self.delta@ == self.phi@,
        ensures
            r matches Outcome::Sat(m) ==> models(m@, Set::empty(), self.delta@),
            (r is Sat) <==> satisfiable(self.delta@),
            self.delta@.len() == 0 ==> (r matches Outcome::Sat(m) && m@ == Set::<Lit>::empty()),
    {
        let r = match self.bcp() {
            Ok(n) => {
                let res = n.unsat();
                proof {
                    if res is Sat {
                        let m = res->Sat_0;
                        assert(models(m@, n.env@.dom(), n.delta@));
                        assert(models(m@, self.env@.dom(), self.delta@));
                    }
                    if res is Unsat {
                        let deps = res->Unsat_0;
                        assert(deps@.subset_of(self_justified(n.env@)));
                        assert(self_justified(n.env@).subset_of(self_justified(self.env@)));
                    }
                }
                res
            },
            Err(o) => o,
        };
        proof {
            assert(self_justified(self.env@) =~= Set::<Lit>::empty());
            assert(r matches Outcome::Sat(m) ==> models(m@, Set::empty(), self.delta@));
            if r is Unsat {
                let deps = r->Unsat_0;
                assert(deps@.subset_of(Set::<Lit>::empty()));
                assert(deps@ =~= Set::<Lit>::empty());
                assert(refuted_under(self.phi@, deps@));
                assert forall|m: Set<Lit>| !(#[trigger] models(m, Set::<Lit>::empty(), self.delta@))
                by {
                    if models(m, Set::<Lit>::empty(), self.delta@) {
                        assert(phi_model(self.phi@, m));
                        assert(Set::<Lit>::empty().subset_of(m));
                    }
                };
                assert(!satisfiable(self.delta@));
            }
            if r is Sat {
                let m = r->Sat_0;
                assert(models(m@, Set::empty(), self.delta@));
                assert(satisfiable(self.delta@));
            }
        }
        r.into_unit_unsat()
    }
}

} // verus!
