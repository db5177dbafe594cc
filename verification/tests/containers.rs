//! Checks of the data model: clauses, formulas, literal sets, dependency
//! maps, and the batch-run bookkeeping.

use sat_micro::bench::{RunRes, Split, Stats};
use sat_micro::clause::{Clause, Cnf, LClause, LCnf};
use sat_micro::env::DepMap;
use sat_micro::lit::{Lit, LitSet};

fn lit(idx: usize, neg: bool) -> Lit {
    Lit::new(idx, neg)
}

#[test]
fn push_sorts_and_deduplicates() {
    let mut c = Clause::empty();
    c.push(lit(3, false));
    c.push(lit(1, false));
    c.push(lit(2, true));
    c.push(lit(2, false));
    c.push(lit(1, false));
    c.push(lit(2, true));
    assert!(c.invariant_holds());
    let lits = c.iter();
    assert_eq!(lits.len(), 4);
    assert_eq!(lits[0], lit(1, false));
    assert_eq!(lits[1], lit(2, false));
    assert_eq!(lits[2], lit(2, true));
    assert_eq!(lits[3], lit(3, false));
}

#[test]
fn new_sorts_arbitrary_input() {
    let c = Clause::new(vec![lit(9, true), lit(9, false), lit(4, false), lit(9, true)]);
    assert!(c.invariant_holds());
    let lits = c.iter();
    assert_eq!(lits.len(), 3);
    assert_eq!(lits[0], lit(4, false));
    assert_eq!(lits[1], lit(9, false));
    assert_eq!(lits[2], lit(9, true));
}

#[test]
fn clause_basics() {
    let mut c = Clause::with_capacity(4);
    assert!(c.is_empty());
    c.push(lit(1, false));
    assert_eq!(c.len(), 1);
    assert!(!c.is_empty());
    let drained = c.drain();
    assert_eq!(drained, vec![lit(1, false)]);
    assert!(c.is_empty());
    c.push(lit(2, false));
    c.shrink_to_fit();
    assert_eq!(c.len(), 1);
    c.clear();
    assert!(c.is_empty());
}

#[test]
fn cnf_basics() {
    let mut f = Cnf::with_capacity(2);
    assert!(f.is_empty());
    f.push(Clause::new(vec![lit(1, false)]));
    f.push(Clause::new(vec![lit(2, true)]));
    assert_eq!(f.len(), 2);
    assert_eq!(f.get(1).iter()[0], lit(2, true));
    let clauses = f.into_iter();
    assert_eq!(clauses.len(), 2);
    let f2 = Cnf::new(clauses);
    assert_eq!(f2.len(), 2);
    let lf = f2.into_lcnf();
    assert_eq!(lf.len(), 2);
    assert_eq!(lf.get(0).labels().len(), 0);
}

#[test]
fn lclause_and_lcnf() {
    let mut labels = LitSet::new();
    labels.insert(lit(5, false));
    let mut lc = LClause::new_with(Clause::empty(), labels);
    assert_eq!(lc.clause().len(), 0);
    lc.push(lit(1, false));
    assert_eq!(lc.clause().len(), 1);
    assert!(lc.labels().contains(&lit(5, false)));
    assert!(lc.labels_remove(&lit(5, false)));
    assert!(!lc.labels_remove(&lit(5, false)));

    let plain = LClause::new(Clause::empty());
    assert_eq!(plain.labels().len(), 0);
    let with = LClause::empty_with(LitSet::new());
    assert_eq!(with.clause().len(), 0);
    let e = LClause::empty();
    assert_eq!(e.clause().len(), 0);

    let mut lf = LCnf::with_capacity(1);
    lf.push(lc);
    let mut other = LCnf::empty();
    other.push(LClause::empty());
    lf.extend(&other);
    assert_eq!(lf.len(), 2);
    let all = lf.into_iter();
    assert_eq!(all.len(), 2);
    let lf2 = LCnf::new(all);
    assert_eq!(lf2.len(), 2);
}

#[test]
fn lit_set_behaves_like_a_set() {
    let mut s = LitSet::new();
    assert!(s.is_empty());
    assert!(s.insert(lit(1, false)));
    assert!(!s.insert(lit(1, false)));
    assert!(s.insert(lit(1, true)));
    assert!(s.contains(&lit(1, false)));
    assert!(!s.contains(&lit(2, false)));
    assert_eq!(s.len(), 2);
    assert!(s.remove(&lit(1, false)));
    assert!(!s.remove(&lit(1, false)));
    assert!(!s.contains(&lit(1, false)));
    let mut other = LitSet::new();
    other.insert(lit(9, false));
    s.union_with(&other);
    assert!(s.contains(&lit(9, false)));
    let v = s.to_vec();
    assert_eq!(v.len(), 2);
    let cloned = s.clone();
    assert!(cloned.contains(&lit(9, false)));
}

#[test]
fn dep_map_tracks_causes() {
    let mut m = DepMap::new();
    assert!(m.is_empty());
    assert!(!m.contains_key(&lit(1, false)));
    let mut cause = LitSet::new();
    cause.insert(lit(2, false));
    m.insert(lit(1, false), cause);
    assert!(m.contains_key(&lit(1, false)));
    assert_eq!(m.len(), 1);
    let deps = m.get(&lit(1, false)).unwrap();
    assert!(deps.contains(&lit(2, false)));
    assert!(m.get(&lit(3, false)).is_none());

    let mut more = LitSet::new();
    more.insert(lit(4, true));
    m.extend_entry(&lit(1, false), &more);
    let deps = m.get(&lit(1, false)).unwrap();
    assert!(deps.contains(&lit(2, false)));
    assert!(deps.contains(&lit(4, true)));

    let keys = m.keys();
    assert!(keys.contains(&lit(1, false)));
    assert_eq!(keys.len(), 1);
    let copy = m.clone();
    assert!(copy.contains_key(&lit(1, false)));
}

#[test]
fn lcnf_unique_insertion_keeps_a_set() {
    let mk = |idx: usize| {
        let mut labels = LitSet::new();
        labels.insert(Lit::new(7, false));
        LClause::new_with(Clause::new(vec![Lit::new(idx, false)]), labels)
    };
    let mut set = LCnf::empty();
    set.insert_unique(mk(1));
    set.insert_unique(mk(1));
    assert_eq!(set.len(), 1);
    set.insert_unique(mk(2));
    assert_eq!(set.len(), 2);

    let mut other = LCnf::empty();
    other.insert_unique(mk(2));
    other.insert_unique(mk(3));
    set.extend_unique(&other);
    assert_eq!(set.len(), 3);
}

#[test]
fn stats_count_runs() {
    let mut stats = Stats::new();
    assert_eq!(stats.all(), 0);
    stats.add(RunRes::Sat);
    stats.add(RunRes::Sat);
    stats.add(RunRes::Unsat);
    stats.add(RunRes::Unknown);
    assert_eq!(stats.sat, 2);
    assert_eq!(stats.unsat, 1);
    assert_eq!(stats.unknown, 1);
    assert_eq!(stats.all(), 4);
}

#[test]
fn verdict_words_classify() {
    assert_eq!(RunRes::from_verdict("SATISFIABLE"), Some(RunRes::Sat));
    assert_eq!(RunRes::from_verdict("UNSATISFIABLE"), Some(RunRes::Unsat));
    assert_eq!(RunRes::from_verdict("UNKNOWN"), Some(RunRes::Unknown));
    assert_eq!(RunRes::from_verdict("MAYBE"), None);
    assert_eq!(RunRes::from_verdict(""), None);
}

#[test]
fn split_helpers() {
    let split = Split {
        move_files: false,
        src: String::from("benchs"),
        sat_tgt: String::from("benchs/sat"),
        unsat_tgt: String::from("benchs/unsat"),
        unknown_tgt: String::from("benchs/unknown"),
        solver: (
            String::from("lingeling"),
            vec![String::from("-T"), String::from("3")],
        ),
    };
    assert_eq!(split.pretty_solver_cmd(), "lingeling -T 3");
    assert_eq!(split.tgt_for(RunRes::Sat), "benchs/sat");
    assert_eq!(split.tgt_for(RunRes::Unsat), "benchs/unsat");
    assert_eq!(split.tgt_for(RunRes::Unknown), "benchs/unknown");
}
