//! End-to-end checks of the three solver variants.

use sat_micro::clause::{Clause, Cnf, LClause, LCnf};
use sat_micro::lit::{Lit, LitSet, Literal};
use sat_micro::outcome::Outcome;
use sat_micro::recursive::backjump::Backjump;
use sat_micro::recursive::cdcl::Cdcl;
use sat_micro::recursive::plain::Plain;
use sat_micro::solve;
use sat_micro::{Dpll, DpllImpl};

fn lit(idx: usize, neg: bool) -> Lit {
    Lit::new(idx, neg)
}

fn clause(lits: Vec<(usize, bool)>) -> Clause {
    let mut v: Vec<Lit> = Vec::new();
    for (i, n) in lits {
        v.push(lit(i, n));
    }
    Clause::new(v)
}

fn cnf(clauses: Vec<Vec<(usize, bool)>>) -> Cnf {
    let mut v: Vec<Clause> = Vec::new();
    for c in clauses {
        v.push(clause(c));
    }
    Cnf::new(v)
}

/// Checks that a model satisfies every clause and holds no complementary
/// pair.
fn check_model(model: &LitSet, clauses: &Vec<Vec<(usize, bool)>>) {
    for c in clauses {
        let mut found = false;
        for (i, n) in c {
            if model.contains(&lit(*i, *n)) {
                found = true;
            }
        }
        assert!(found, "a clause is not satisfied by the reported model");
    }
    for c in clauses {
        for (i, n) in c {
            let l = lit(*i, *n);
            if model.contains(&l) {
                assert!(!model.contains(&l.ref_negate()), "inconsistent model");
            }
        }
    }
}

fn run_all_variants(formula: Vec<Vec<(usize, bool)>>) -> Vec<bool> {
    let mut verdicts = Vec::new();
    for variant in [Dpll::Plain, Dpll::Backjump, Dpll::Cdcl] {
        let out = solve(cnf(formula.clone()), DpllImpl::Recursive(variant)).unwrap();
        match out {
            Outcome::Sat(m) => {
                check_model(&m, &formula);
                verdicts.push(true);
            }
            Outcome::Unsat(()) => verdicts.push(false),
        }
    }
    verdicts
}

#[test]
fn sat_two_clauses() {
    // 1 2 / -1 -2: satisfiable.
    let verdicts = run_all_variants(vec![vec![(1, false), (2, false)], vec![(1, true), (2, true)]]);
    assert_eq!(verdicts, vec![true, true, true]);
}

#[test]
fn unsat_one_variable() {
    // 1 / -1: unsatisfiable on all three variants.
    let verdicts = run_all_variants(vec![vec![(1, false)], vec![(1, true)]]);
    assert_eq!(verdicts, vec![false, false, false]);
}

#[test]
fn sat_no_clauses() {
    let verdicts = run_all_variants(vec![]);
    assert_eq!(verdicts, vec![true, true, true]);
}

#[test]
fn unsat_empty_clause() {
    // An empty clause refutes the formula immediately.
    let verdicts = run_all_variants(vec![vec![]]);
    assert_eq!(verdicts, vec![false, false, false]);
}

#[test]
fn unsat_all_polarities() {
    // (1 2)(1 -2)(-1 2)(-1 -2): unsatisfiable, and refuting it takes real
    // backtracking.
    let verdicts = run_all_variants(vec![
        vec![(1, false), (2, false)],
        vec![(1, false), (2, true)],
        vec![(1, true), (2, false)],
        vec![(1, true), (2, true)],
    ]);
    assert_eq!(verdicts, vec![false, false, false]);
}

#[test]
fn sat_three_variables() {
    let verdicts = run_all_variants(vec![
        vec![(1, false), (2, false), (3, false)],
        vec![(1, true), (2, true)],
        vec![(2, false), (3, true)],
        vec![(1, true), (3, false)],
    ]);
    assert_eq!(verdicts, vec![true, true, true]);
}

#[test]
fn propagation_precedes_branching() {
    // A forced unit makes the solver assume it before any decision: the model
    // holds the forced literal.
    let formula = vec![vec![(1, false)], vec![(1, true), (2, false)]];
    for variant in [Dpll::Plain, Dpll::Backjump, Dpll::Cdcl] {
        let out = solve(cnf(formula.clone()), DpllImpl::Recursive(variant)).unwrap();
        match out {
            Outcome::Sat(m) => {
                assert!(m.contains(&lit(1, false)));
                assert!(m.contains(&lit(2, false)));
            }
            Outcome::Unsat(()) => panic!("expected sat"),
        }
    }
}

#[test]
fn plain_solver_direct() {
    let solver = Plain::new(cnf(vec![vec![(1, false)], vec![(2, true)]]));
    let out = solver.solve();
    assert!(out.is_sat());
    assert!(!out.is_unsat());
}

#[test]
fn backjump_solver_direct() {
    let solver = Backjump::new(cnf(vec![vec![(1, false)], vec![(1, true)]]));
    let out = solver.solve();
    assert!(out.is_unsat());
}

#[test]
fn cdcl_solver_direct() {
    let solver = Cdcl::new(cnf(vec![vec![(1, false), (2, false)], vec![(2, true)]]));
    assert!(solver.invariant_holds());
    let out = solver.solve();
    assert!(out.is_sat());
}

#[test]
fn cdcl_idempotent_labelling() {
    // Assuming the same literal twice with different causes merges the causes
    // and never duplicates the literal.
    let solver = Cdcl::new(Cnf::empty());
    let l = lit(1, false);
    let mut cause1 = LitSet::new();
    cause1.insert(l);
    let s1 = match solver.assign(l, cause1) {
        Ok(s) => s,
        Err(_) => panic!("assuming a decision cannot fail on an empty formula"),
    };
    let mut cause2 = LitSet::new();
    cause2.insert(lit(7, true));
    let s2 = match s1.assign(l, cause2) {
        Ok(s) => s,
        Err(_) => panic!("re-assuming must merge, not fail"),
    };
    assert_eq!(s2.env().len(), 1);
    let deps = s2.env().get(&l).expect("the literal stays recorded");
    assert!(deps.contains(&l));
    assert!(deps.contains(&lit(7, true)));
    assert!(s2.invariant_holds());
}

#[test]
fn cdcl_shift_rewrites_labelled_clauses() {
    let l = lit(3, false);
    let mut labels = LitSet::new();
    labels.insert(l);
    labels.insert(lit(4, false));
    let lc = LClause::new_with(clause(vec![(5, false)]), labels);
    let mut set = LCnf::empty();
    set.push(lc);
    let shifted = Cdcl::shift(&l, &set);
    assert_eq!(shifted.len(), 1);
    let out = shifted.get(0);
    // The label on `l` became the literal `-3` in the clause.
    assert!(!out.labels().contains(&l));
    assert!(out.labels().contains(&lit(4, false)));
    let lits = out.clause().iter();
    assert_eq!(lits.len(), 2);
    assert!(lits.contains(&lit(3, true)));
    assert!(lits.contains(&lit(5, false)));
}

#[test]
fn variants_agree_on_a_batch() {
    let formulas = vec![
        vec![vec![(1, false), (2, false)], vec![(1, true)], vec![(2, true)]],
        vec![vec![(1, false)], vec![(2, false)], vec![(3, true)]],
        vec![
            vec![(1, false), (2, false), (3, false)],
            vec![(1, true), (2, true)],
            vec![(1, true), (3, true)],
            vec![(2, true), (3, true)],
            vec![(1, false)],
        ],
    ];
    for formula in formulas {
        let verdicts = run_all_variants(formula);
        assert_eq!(verdicts[0], verdicts[1]);
        assert_eq!(verdicts[1], verdicts[2]);
    }
}

#[test]
fn outcome_helpers() {
    let sat: Outcome<()> = Outcome::new_sat(LitSet::new());
    let unsat: Outcome<()> = Outcome::new_unsat(());
    assert!(sat.is_sat() && !sat.is_unsat());
    assert!(unsat.is_unsat() && !unsat.is_sat());
    let n = sat.map(|m| m.len(), |_| 7);
    assert_eq!(n, 0);
    let k = unsat.map_ref(|_| 1, |_| 2);
    assert_eq!(k, 2);
    let erased: Outcome<()> = Outcome::<u32>::new_unsat(5).into_unit_unsat();
    assert!(erased.is_unsat());
}

#[test]
fn names_resolve() {
    assert_eq!(Dpll::from_name("plain"), Some(Dpll::Plain));
    assert_eq!(Dpll::from_name("backjump"), Some(Dpll::Backjump));
    assert_eq!(Dpll::from_name("cdcl"), Some(Dpll::Cdcl));
    assert_eq!(Dpll::from_name("other"), None);
    assert_eq!(
        DpllImpl::from_name("recursive", None),
        Some(DpllImpl::Recursive(Dpll::Cdcl))
    );
    assert_eq!(
        DpllImpl::from_name("recursive", Some("plain")),
        Some(DpllImpl::Recursive(Dpll::Plain))
    );
    assert_eq!(DpllImpl::from_name("recursive", Some("nope")), None);
    assert_eq!(DpllImpl::from_name("iterative", None), None);
    assert_eq!(Dpll::default(), Dpll::Cdcl);
    assert_eq!(DpllImpl::default(), DpllImpl::Recursive(Dpll::Cdcl));
}

#[test]
fn literal_negation_involutive() {
    let l = lit(12, false);
    assert_eq!(l.negate().negate(), l);
    assert_eq!(l.ref_negate().ref_negate(), l);
    assert_ne!(l.ref_negate(), l);
}

#[test]
fn empty_formula_gives_the_empty_model() {
    for variant in [Dpll::Plain, Dpll::Backjump, Dpll::Cdcl] {
        match solve(Cnf::empty(), DpllImpl::Recursive(variant)).unwrap() {
            Outcome::Sat(m) => assert_eq!(m.len(), 0),
            Outcome::Unsat(()) => panic!("the empty formula is satisfiable"),
        }
    }
}

#[test]
fn bcp_propagates_units_before_any_decision() {
    // A forced unit is moved into the environment and the clause it
    // subsumes is dropped: propagation precedes branching.
    let solver = Plain::new(cnf(vec![vec![(1, false)], vec![(1, false), (2, false)]]));
    match solver.bcp() {
        Ok(new) => {
            assert!(new.env.contains(&lit(1, false)));
            assert_eq!(new.env.len(), 1);
            assert_eq!(new.delta.len(), 0);
        }
        Err(_) => panic!("the formula propagates without conflict"),
    }
}

#[test]
fn bcp_keeps_surviving_clauses_in_order() {
    // Two reduced clauses survive, in their original relative order.
    let solver = Plain::new(cnf(vec![
        vec![(1, false)],
        vec![(1, true), (2, false), (3, false)],
        vec![(1, true), (4, false), (5, false)],
    ]));
    match solver.bcp() {
        Ok(new) => {
            assert!(new.env.contains(&lit(1, false)));
            assert_eq!(new.delta.len(), 2);
            let first = new.delta.get(0).iter().clone();
            let second = new.delta.get(1).iter().clone();
            assert_eq!(first, vec![lit(2, false), lit(3, false)]);
            assert_eq!(second, vec![lit(4, false), lit(5, false)]);
        }
        Err(_) => panic!("the formula propagates without conflict"),
    }
}

#[test]
fn bcp_conflicts_on_contradictory_units() {
    let solver = Plain::new(cnf(vec![vec![(1, false)], vec![(1, true)]]));
    assert!(solver.bcp().is_err());
}

#[test]
fn cdcl_bcp_accumulates_labels_of_falsified_literals() {
    // Deciding -2 falsifies the `2` in the last clause: the surviving
    // reduction carries that decision as a label.
    let solver = Cdcl::new(cnf(vec![vec![(2, true)], vec![(1, false), (2, false), (3, false)]]));
    let d = lit(2, true);
    let mut cause = LitSet::new();
    cause.insert(d);
    match solver.assign(d, cause) {
        Ok(new) => {
            assert_eq!(new.delta.len(), 1);
            let kept = new.delta.get(0);
            let lits = kept.clause().iter().clone();
            assert_eq!(lits, vec![lit(1, false), lit(3, false)]);
            assert!(kept.labels().contains(&d));
        }
        Err(_) => panic!("one decision cannot refute this formula"),
    }
}
