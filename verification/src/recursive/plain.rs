//! Plain DPLL, with no optimization: decide a literal, propagate, and on
//! refutation try the other polarity.

use vstd::prelude::*;

use crate::clause::{Clause, Cnf};
use crate::lit::{neg_lit, Lit, LitSet, Literal};
use crate::outcome::Outcome;
use crate::clause::strictly_sorted;
use crate::lit::lit_lt;
use crate::sem::{
    assigned, clause_sat, clause_vars, cnf_vars, consistent, lemma_clause_var_in_cnf,
    lemma_cnf_vars_finite, lemma_cnf_vars_push, lemma_extend_consistent,
    lemma_measure_le, lemma_measure_lt, lemma_models_iff_step_kept,
    lemma_models_iff_step_satisfied, lemma_models_iff_step_unit, lemma_prefix_models,
    lemma_reduced_cnf_compose, lemma_reduced_cnf_empty, lemma_reduced_cnf_push, lemma_sat_monotone,
    lemma_unassigned, measure_of, models, models_iff, reduce_clause, reduced_cnf, refuted,
    unknown_in, unknown_vars,
};

verus! {

/// Every literal of the working formula is unknown: neither it nor its
/// complement is in the environment.
pub open spec fn delta_unknown(g: Set<Lit>, d: Seq<Seq<Lit>>) -> bool {
    forall|i: int, j: int|
        0 <= i < d.len() && 0 <= j < d[i].len() ==> !g.contains(#[trigger] d[i][j]) && !g.contains(
            neg_lit(d[i][j]),
        )
}

/// Every clause holds at least `n` literals.
pub open spec fn min_len(d: Seq<Seq<Lit>>, n: int) -> bool {
    forall|i: int| 0 <= i < d.len() ==> (#[trigger] d[i]).len() >= n
}

/// The state the propagation rules leave behind: consistent environment, a
/// formula whose literals are all undecided, and no clause below two
/// literals.
pub open spec fn propagated(g: Set<Lit>, d: Seq<Seq<Lit>>) -> bool {
    consistent(g) && delta_unknown(g, d) && min_len(d, 2)
}

/// What one branch of the search establishes about the state it explored.
pub open spec fn branch_result(r: Outcome<()>, g: Set<Lit>, d: Seq<Seq<Lit>>) -> bool {
    &&& (r matches Outcome::Sat(m) ==> models(m@, g, d))
    &&& ((r is Unsat) ==> refuted(g, d))
}

/// The plain solver: an environment of assumed literals and the working
/// formula.
pub struct Plain {
    /// Environment: the set of literals assumed true.
    pub env: LitSet,
    /// The CNF being worked on.
    pub delta: Cnf,
}

impl Clone for Plain {
    fn clone(&self) -> (r: Self)
        ensures
            r.env@ == self.env@,
            r.delta@ == self.delta@,
    {
        Plain { env: self.env.clone(), delta: self.delta.clone() }
    }
}

impl Plain {
    /// Construct a solver from a formula, with an empty environment.
    pub fn new(f: Cnf) -> (r: Self)
        ensures
            r.env@ == Set::<Lit>::empty(),
            r.delta@ == f@,
    {
        Plain { env: LitSet::new(), delta: f }
    }

    /// The environment.
    pub fn env(&self) -> (r: &LitSet)
        ensures
            r@ == self.env@,
    {
        &self.env
    }

    /// *Assume* rule (named `assign` here): extend the environment with a so far undecided literal,
    /// then propagate.  The new state admits exactly the models of the old
    /// state that hold `lit`.
    pub fn assign(&self, lit: Lit) -> (r: Result<Plain, Outcome<()>>)
        requires
            consistent(self.env@),
            !self.env@.contains(lit),
            !self.env@.contains(neg_lit(lit)),
        ensures
            r matches Ok(n) ==> propagated(n.env@, n.delta@) && self.env@.insert(lit).subset_of(
                n.env@,
            ) && cnf_vars(n.delta@).subset_of(cnf_vars(self.delta@)) && models_iff(
                self.env@.insert(lit),
                self.delta@,
                n.env@,
                n.delta@,
            ) && measure_of(n.env@, cnf_vars(n.delta@)) < measure_of(
                self.env@,
                cnf_vars(self.delta@).insert(lit.idx as int),
            ) && n.delta@ == reduced_cnf(n.env@, self.delta@),
            r matches Err(o) ==> (o is Unsat) && refuted(self.env@.insert(lit), self.delta@),
        decreases measure_of(self.env@, cnf_vars(self.delta@).insert(lit.idx as int)), 0int,
    {
        let mut new: Plain = self.clone();
        let is_new = new.env.insert(lit);
        proof {
            lemma_extend_consistent(self.env@, lit);
            lemma_cnf_vars_finite(self.delta@);
            lemma_unassigned(self.env@, lit);
            let vs1 = cnf_vars(self.delta@).insert(lit.idx as int);
            assert(vs1.finite());
            assert(unknown_vars(self.env@, vs1).contains(lit.idx as int));
            assert(new.env@.contains(lit));
            assert(assigned(new.env@, lit.idx as int));
            assert(!unknown_vars(new.env@, cnf_vars(self.delta@)).contains(lit.idx as int));
            lemma_measure_lt(
                self.env@,
                new.env@,
                cnf_vars(self.delta@).insert(lit.idx as int),
                cnf_vars(self.delta@),
                lit.idx as int,
            );
        }
        if is_new {
            new.bcp()
        } else {
            // Unreachable: the literal was required to be new.
            proof {
                assert(false);
            }
            Err(Outcome::new_unsat(()))
        }
    }

    /// *BCP* rule: drop satisfied clauses, shrink the others to their
    /// undecided literals, and recursively assume every forced literal.  The
    /// result admits exactly the models of the input state.
    pub fn bcp(&self) -> (r: Result<Plain, Outcome<()>>)
        requires
            consistent(self.env@),
        ensures
            r matches Ok(n) ==> propagated(n.env@, n.delta@) && self.env@.subset_of(n.env@)
                && cnf_vars(n.delta@).subset_of(cnf_vars(self.delta@)) && models_iff(
                self.env@,
                self.delta@,
                n.env@,
                n.delta@,
            ) && measure_of(n.env@, cnf_vars(n.delta@)) <= measure_of(
                self.env@,
                cnf_vars(self.delta@),
            ) && n.delta@ == reduced_cnf(n.env@, self.delta@),
            self.delta@.len() == 0 ==> (r matches Ok(n) && n.env@ == self.env@ && n.delta@.len()
                == 0),
            r matches Err(o) ==> (o is Unsat) && refuted(self.env@, self.delta@),
        decreases measure_of(self.env@, cnf_vars(self.delta@)), 1int,
    {
        let ghost g0 = self.env@;
        let ghost d0 = self.delta@;
        let mut new = Plain { env: self.env.clone(), delta: Cnf::with_capacity(self.delta.len()) };
        let mut new_clause = Clause::with_capacity(5);
        proof {
            lemma_cnf_vars_finite(d0);
            assert(cnf_vars(new.delta@) =~= Set::<int>::empty());
            assert(d0.subrange(0, 0) =~= Seq::<Seq<Lit>>::empty());
            lemma_measure_le(g0, g0, cnf_vars(d0), Set::<int>::empty());
            lemma_reduced_cnf_empty(new.env@);
        }
        let n_clauses = self.delta.len();
        let mut i: usize = 0;
        while i < n_clauses
            invariant
                n_clauses == d0.len(),
                0 <= i <= d0.len(),
                self.env@ == g0,
                self.delta@ == d0,
                consistent(g0),
                consistent(new.env@),
                g0.subset_of(new.env@),
                cnf_vars(new.delta@).subset_of(cnf_vars(d0)),
                cnf_vars(d0).finite(),
                delta_unknown(new.env@, new.delta@),
                min_len(new.delta@, 2),
                models_iff(g0, d0.subrange(0, i as int), new.env@, new.delta@),
                measure_of(new.env@, cnf_vars(new.delta@)) <= measure_of(g0, cnf_vars(d0)),
                d0.len() == 0 ==> (new.env@ == g0 && new.delta@.len() == 0),
                new.delta@ == reduced_cnf(new.env@, d0.subrange(0, i as int)),
            decreases d0.len() - i,
        {
            let clause = self.delta.get(i);
            new_clause.clear();
            let lits = clause.iter();
            let ghost c = d0[i as int];
            proof {
                assert(c.subrange(0, 0) =~= Seq::<Lit>::empty());
                assert(reduce_clause(new.env@, c.subrange(0, 0)) =~= Seq::<Lit>::empty()) by {
                    reveal(Seq::filter);
                }
            }
            let n_lits = lits.len();
            let mut j: usize = 0;
            let mut satisfied = false;
            while j < n_lits && !satisfied
                invariant
                    n_lits == c.len(),
                    0 <= j <= c.len(),
                    lits@ == c,
                    consistent(new.env@),
                    satisfied ==> clause_sat(new.env@, c),
                    !satisfied ==> forall|k: int|
                        0 <= k < j ==> (new_clause@.to_set().contains(#[trigger] c[k])
                            || new.env@.contains(neg_lit(c[k]))),
                    forall|x: Lit|
                        new_clause@.to_set().contains(x) ==> exists|k: int|
                            0 <= k < c.len() && c[k] == x,
                    forall|x: Lit|
                        new_clause@.to_set().contains(x) ==> !new.env@.contains(x)
                            && !new.env@.contains(neg_lit(x)),
                    strictly_sorted(c),
                    !satisfied ==> new_clause@ == reduce_clause(
                        new.env@,
                        c.subrange(0, j as int),
                    ),
                decreases c.len() - j,
            {
                let lit = lits[j];
                if new.env.contains(&lit) {
                    satisfied = true;
                    proof {
                        assert(new.env@.contains(c[j as int]));
                    }
                } else if new.env.contains(&lit.ref_negate()) {
                    // The literal is false here: drop it.
                    proof {
                        crate::seqs::lemma_subrange_push(c, j as int);
                        crate::seqs::lemma_filter_push(
                            c.subrange(0, j as int),
                            c[j as int],
                            |l: Lit| unknown_in(new.env@, l),
                        );
                        assert(!unknown_in(new.env@, c[j as int]));
                        assert(new_clause@ == reduce_clause(new.env@, c.subrange(0, j + 1)));
                    }
                } else {
                    proof {
                        assert(c[j as int] == lit);
                        assert(unknown_in(new.env@, lit));
                        // Every literal kept so far sits below this one, so
                        // the ordered insertion appends it.
                        assert forall|k2: int| 0 <= k2 < new_clause@.len() implies lit_lt(
                            #[trigger] new_clause@[k2],
                            lit,
                        ) by {
                            crate::seqs::lemma_filter_elem(
                                c.subrange(0, j as int),
                                |l: Lit| unknown_in(new.env@, l),
                                k2,
                            );
                            let k = choose|k: int|
                                0 <= k < c.subrange(0, j as int).len() && c.subrange(
                                    0,
                                    j as int,
                                )[k] == new_clause@[k2];
                            assert(c[k] == new_clause@[k2]);
                            assert(lit_lt(c[k], c[j as int]));
                        };
                    }
                    let ghost pre_clause = new_clause@;
                    new_clause.push(lit);
                    proof {
                        assert(new_clause@ == pre_clause.push(lit));
                        crate::seqs::lemma_subrange_push(c, j as int);
                        crate::seqs::lemma_filter_push(
                            c.subrange(0, j as int),
                            c[j as int],
                            |l: Lit| unknown_in(new.env@, l),
                        );
                        assert(new_clause@ == reduce_clause(new.env@, c.subrange(0, j + 1)));
                    }
                }
                j = j + 1;
            }
            if satisfied {
                // The clause holds already; it contributes nothing further.
                proof {
                    lemma_models_iff_step_satisfied(g0, d0, i as int, new.env@, new.delta@);
                    crate::seqs::lemma_subrange_push(d0, i as int);
                    lemma_reduced_cnf_push(new.env@, d0.subrange(0, i as int), c);
                    let k = choose|k: int| 0 <= k < c.len() && new.env@.contains(c[k]);
                    assert(clause_sat(new.env@, c));
                    assert(new.delta@ == reduced_cnf(new.env@, d0.subrange(0, i + 1)));
                }
            } else {
                proof {
                    assert(j == c.len());
                }
                if new_clause.is_empty() {
                    // Conflict: every literal of the clause is false.
                    proof {
                        assert forall|m: Set<Lit>| !(#[trigger] models(m, g0, d0)) by {
                            if models(m, g0, d0) {
                                lemma_prefix_models(m, g0, d0, i as int);
                                assert(models(m, new.env@, new.delta@));
                                assert(clause_sat(m, c));
                                let k = choose|k: int| 0 <= k < c.len() && m.contains(c[k]);
                                assert(new_clause@.to_set().contains(c[k]) || new.env@.contains(
                                    neg_lit(c[k]),
                                ));
                                assert(new_clause@.to_set() =~= Set::<Lit>::empty());
                                assert(m.contains(neg_lit(c[k])));
                                assert(!m.contains(neg_lit(c[k])));
                            }
                        };
                    }
                    return Err(Outcome::new_unsat(()));
                } else if new_clause.len() == 1 {
                    // Unit clause: the literal is forced.
                    let forced = new_clause.drain();
                    let l = forced[0];
                    proof {
                        assert(forced@.to_set().contains(forced@[0]));
                        assert forall|x: Lit| forced@.to_set().contains(x) implies x == l by {
                            let k = choose|k: int| 0 <= k < forced@.len() && forced@[k] == x;
                            assert(k == 0);
                        };
                        assert(forced@.to_set() =~= Set::<Lit>::empty().insert(l));
                        let k = choose|k: int| 0 <= k < c.len() && c[k] == l;
                        lemma_clause_var_in_cnf(d0, i as int, k);
                        lemma_measure_le(
                            new.env@,
                            new.env@,
                            cnf_vars(d0),
                            cnf_vars(new.delta@).insert(l.idx as int),
                        );
                        lemma_measure_le(g0, new.env@, cnf_vars(d0), cnf_vars(d0));
                    }
                    let ghost pre = new;
                    match new.assign(l) {
                        Ok(n2) => {
                            proof {
                                lemma_models_iff_step_unit(
                                    g0,
                                    d0,
                                    i as int,
                                    pre.env@,
                                    pre.delta@,
                                    forced@.to_set(),
                                    l,
                                );
                                assert(models_iff(pre.env@.insert(l), pre.delta@, n2.env@, n2.delta@));
                                assert forall|m: Set<Lit>|
                                    #[trigger] models(m, g0, d0.subrange(0, i + 1))
                                        <==> #[trigger] models(m, n2.env@, n2.delta@) by {
                                    assert(models(m, g0, d0.subrange(0, i + 1)) <==> models(
                                        m,
                                        pre.env@.insert(l),
                                        pre.delta@,
                                    ));
                                };
                                lemma_measure_le(
                                    g0,
                                    n2.env@,
                                    cnf_vars(d0),
                                    cnf_vars(n2.delta@),
                                );
                                // The forced literal satisfies this clause,
                                // and the recursive pass re-reduced the rest.
                                assert(pre.env@.subset_of(n2.env@));
                                lemma_reduced_cnf_compose(
                                    pre.env@,
                                    n2.env@,
                                    d0.subrange(0, i as int),
                                );
                                crate::seqs::lemma_subrange_push(d0, i as int);
                                lemma_reduced_cnf_push(n2.env@, d0.subrange(0, i as int), c);
                                let k = choose|k: int| 0 <= k < c.len() && c[k] == l;
                                assert(n2.env@.contains(l));
                                assert(clause_sat(n2.env@, c));
                                assert(n2.delta@ == reduced_cnf(n2.env@, d0.subrange(0, i + 1)));
                            }
                            new = n2;
                        },
                        Err(o) => {
                            proof {
                                lemma_models_iff_step_unit(
                                    g0,
                                    d0,
                                    i as int,
                                    pre.env@,
                                    pre.delta@,
                                    forced@.to_set(),
                                    l,
                                );
                                assert(refuted(pre.env@.insert(l), pre.delta@));
                                assert forall|m: Set<Lit>| !(#[trigger] models(m, g0, d0)) by {
                                    if models(m, g0, d0) {
                                        lemma_prefix_models(m, g0, d0, i as int);
                                        assert(models(m, g0, d0.subrange(0, i + 1)));
                                        assert(models(m, pre.env@.insert(l), pre.delta@));
                                    }
                                };
                            }
                            return Err(o);
                        },
                    }
                } else {
                    // Several undecided literals: keep the shrunk clause.
                    new_clause.shrink_to_fit();
                    let kept = new_clause.clone();
                    let ghost pre_delta = new.delta@;
                    new.delta.push(kept);
                    proof {
                        lemma_cnf_vars_push(pre_delta, new_clause@);
                        assert forall|v: int| clause_vars(new_clause@).contains(v)
                            implies cnf_vars(d0).contains(v) by {
                            crate::seqs::lemma_map_to_set_elim(
                                new_clause@,
                                |l: Lit| l.idx as int,
                                v,
                            );
                            let k = choose|k: int|
                                0 <= k < new_clause@.len() && (new_clause@[k].idx as int) == v;
                            assert(new_clause@.to_set().contains(new_clause@[k]));
                            let k2 = choose|k2: int| 0 <= k2 < c.len() && c[k2] == new_clause@[k];
                            lemma_clause_var_in_cnf(d0, i as int, k2);
                        };
                        lemma_measure_le(g0, new.env@, cnf_vars(d0), cnf_vars(new.delta@));
                        lemma_models_iff_step_kept(
                            g0,
                            d0,
                            i as int,
                            new.env@,
                            pre_delta,
                            new_clause@,
                        );
                        assert forall|ii: int, jj: int|
                            0 <= ii < new.delta@.len() && 0 <= jj < new.delta@[ii].len()
                            implies !new.env@.contains(#[trigger] new.delta@[ii][jj])
                                && !new.env@.contains(neg_lit(new.delta@[ii][jj])) by {
                            if ii < pre_delta.len() {
                                assert(new.delta@[ii] == pre_delta[ii]);
                                assert(!new.env@.contains(pre_delta[ii][jj]) && !new.env@.contains(
                                    neg_lit(pre_delta[ii][jj]),
                                ));
                            } else {
                                assert(new.delta@[ii] == new_clause@);
                                assert(new_clause@.to_set().contains(new_clause@[jj]));
                            }
                        };
                        // The kept clause is exactly this clause's reduction.
                        assert(c.subrange(0, c.len() as int) =~= c);
                        assert(new_clause@ == reduce_clause(new.env@, c));
                        assert(!clause_sat(new.env@, c)) by {
                            if clause_sat(new.env@, c) {
                                let k = choose|k: int|
                                    0 <= k < c.len() && new.env@.contains(c[k]);
                            }
                        }
                        crate::seqs::lemma_subrange_push(d0, i as int);
                        lemma_reduced_cnf_push(new.env@, d0.subrange(0, i as int), c);
                        assert(new.delta@ == reduced_cnf(new.env@, d0.subrange(0, i + 1)));
                    }
                }
            }
            i = i + 1;
        }
        proof {
            crate::seqs::lemma_subrange_all(d0);
        }
        Ok(new)
    }

    /// *Unsat* rule: with no clause left the environment is a model;
    /// otherwise decide the first literal of the first clause and explore
    /// both polarities.  `Sat` outcomes carry a model of the current state;
    /// `Unsat` means no model extends it.
    pub fn unsat(&self) -> (r: Outcome<()>)
        requires
            consistent(self.env@),
            delta_unknown(self.env@, self.delta@),
            min_len(self.delta@, 1),
        ensures
            r matches Outcome::Sat(m) ==> models(m@, self.env@, self.delta@),
            r is Unsat ==> refuted(self.env@, self.delta@),
            self.delta@.len() == 0 ==> (r matches Outcome::Sat(m) && m@ == self.env@),
        decreases measure_of(self.env@, cnf_vars(self.delta@)), 2int,
    {
        proof {
            lemma_cnf_vars_finite(self.delta@);
        }
        if self.delta.is_empty() {
            let model = self.env.clone();
            proof {
                assert(models(model@, self.env@, self.delta@));
            }
            Outcome::new_sat(model)
        } else {
            let clause = self.delta.get(0);
            let lits = clause.iter();
            let lit = lits[0];
            proof {
                assert(self.delta@[0][0] == lit);
                lemma_clause_var_in_cnf(self.delta@, 0, 0);
                assert(cnf_vars(self.delta@).insert(lit.idx as int) =~= cnf_vars(self.delta@));
            }
            let first = match self.assign(lit) {
                Ok(n) => {
                    let res = n.unsat();
                    proof {
                        if res is Sat {
                            let m = res->Sat_0;
                            assert(models(m@, n.env@, n.delta@));
                            assert(models(m@, self.env@.insert(lit), self.delta@));
                        }
                        if res is Unsat {
                            assert forall|mm: Set<Lit>|
                                !(#[trigger] models(mm, self.env@.insert(lit), self.delta@)) by {
                                if models(mm, self.env@.insert(lit), self.delta@) {
                                    assert(models(mm, n.env@, n.delta@));
                                }
                            };
                        }
                        assert(branch_result(res, self.env@.insert(lit), self.delta@));
                    }
                    res
                },
                Err(o) => {
                    proof {
                        assert(branch_result(o, self.env@.insert(lit), self.delta@));
                    }
                    o
                },
            };
            // Whatever came back refers to the positive branch.
            proof {
                assert(branch_result(first, self.env@.insert(lit), self.delta@));
            }
            if first.is_sat() {
                proof {
                    let m = first->Sat_0;
                    assert(models(m@, self.env@.insert(lit), self.delta@));
                    assert(self.env@.subset_of(m@));
                    assert(models(m@, self.env@, self.delta@));
                }
                return first;
            }
            proof {
                assert(refuted(self.env@.insert(lit), self.delta@));
            }
            let nlit = lit.ref_negate();
            proof {
                assert(neg_lit(nlit) == lit);
                assert(cnf_vars(self.delta@).insert(nlit.idx as int) =~= cnf_vars(self.delta@));
            }
            let second = match self.assign(nlit) {
                Ok(n) => {
                    let res = n.unsat();
                    proof {
                        if res is Sat {
                            let m = res->Sat_0;
                            assert(models(m@, n.env@, n.delta@));
                            assert(models(m@, self.env@.insert(nlit), self.delta@));
                        }
                        if res is Unsat {
                            assert forall|mm: Set<Lit>|
                                !(#[trigger] models(mm, self.env@.insert(nlit), self.delta@)) by {
                                if models(mm, self.env@.insert(nlit), self.delta@) {
                                    assert(models(mm, n.env@, n.delta@));
                                }
                            };
                        }
                        assert(branch_result(res, self.env@.insert(nlit), self.delta@));
                    }
                    res
                },
                Err(o) => {
                    proof {
                        assert(branch_result(o, self.env@.insert(nlit), self.delta@));
                    }
                    o
                },
            };
            proof {
                assert(branch_result(second, self.env@.insert(nlit), self.delta@));
            }
            if second.is_sat() {
                proof {
                    let m = second->Sat_0;
                    assert(models(m@, self.env@.insert(nlit), self.delta@));
                    assert(models(m@, self.env@, self.delta@));
                }
                return second;
            }
            // Both polarities refuted: the whole state is refuted.
            proof {
                assert(refuted(self.env@.insert(nlit), self.delta@));
                assert forall|m: Set<Lit>| !(#[trigger] models(m, self.env@, self.delta@)) by {
                    if models(m, self.env@, self.delta@) {
                        if m.contains(lit) {
                            assert(models(m, self.env@.insert(lit), self.delta@));
                        } else {
                            let m2 = m.insert(nlit);
                            lemma_extend_consistent(m, nlit);
                            lemma_sat_monotone(m, m2, self.delta@);
                            assert(models(m2, self.env@.insert(nlit), self.delta@));
                        }
                    }
                };
            }
            second
        }
    }

    /// Entry point: propagate once, then search.  The verdict is exact: a
    /// model of the current state comes back exactly when one exists.
    pub fn solve(&self) -> (r: Outcome<()>)
        requires
            consistent(self.env@),
        ensures
            r matches Outcome::Sat(m) ==> models(m@, self.env@, self.delta@),
            (r is Sat) <==> exists|m: Set<Lit>| models(m, self.env@, self.delta@),
            self.delta@.len() == 0 ==> (r matches Outcome::Sat(m) && m@ == self.env@),
    {
        match self.bcp() {
            Ok(n) => {
                let r = n.unsat();
                proof {
                    assert(r matches Outcome::Sat(m) ==> models(m@, self.env@, self.delta@));
                    if r is Unsat {
                        assert forall|m: Set<Lit>| !(#[trigger] models(m, self.env@, self.delta@))
                        by {
                            if models(m, self.env@, self.delta@) {
                                assert(models(m, n.env@, n.delta@));
                            }
                        };
                    }
                }
                r
            },
            Err(o) => {
                proof {
                    assert(refuted(self.env@, self.delta@));
                }
                o
            },
        }
    }
}

} // verus!
