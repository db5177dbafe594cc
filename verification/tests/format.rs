//! Checks of the textual CNF reader, and of reading followed by solving.

use sat_micro::clause::Cnf;
use sat_micro::lit::Lit;
use sat_micro::outcome::Outcome;
use sat_micro::parse::Parser;
use sat_micro::solve;
use sat_micro::{Dpll, DpllImpl};

fn parse_text(text: &str) -> Result<Cnf, String> {
    let parser = Parser::new(text.as_bytes().to_vec())?;
    parser.parse()
}

fn verdicts(text: &str) -> Vec<bool> {
    let mut out = Vec::new();
    for variant in [Dpll::Plain, Dpll::Backjump, Dpll::Cdcl] {
        let f = parse_text(text).expect("the formula reads fine");
        let res = solve(f, DpllImpl::Recursive(variant)).unwrap();
        out.push(res.is_sat());
    }
    out
}

#[test]
fn scenario_sat_two_clauses() {
    let text = "p cnf 2 2\n1 2 0\n-1 -2 0\n";
    assert_eq!(verdicts(text), vec![true, true, true]);
    // The model satisfies both clauses and holds no complementary pair.
    let f = parse_text(text).unwrap();
    match solve(f, DpllImpl::default()).unwrap() {
        Outcome::Sat(m) => {
            let one = m.contains(&Lit::new(1, false));
            let two = m.contains(&Lit::new(2, false));
            let not_one = m.contains(&Lit::new(1, true));
            let not_two = m.contains(&Lit::new(2, true));
            assert!(one || two);
            assert!(not_one || not_two);
            assert!(!(one && not_one));
            assert!(!(two && not_two));
        }
        Outcome::Unsat(()) => panic!("expected sat"),
    }
}

#[test]
fn scenario_unsat_one_variable() {
    assert_eq!(verdicts("p cnf 1 2\n1 0\n-1 0\n"), vec![false, false, false]);
}

#[test]
fn scenario_sat_no_clauses() {
    let text = "p cnf 3 0\n";
    assert_eq!(verdicts(text), vec![true, true, true]);
    // The model may well be empty: nothing constrains it.
    let f = parse_text(text).unwrap();
    match solve(f, DpllImpl::default()).unwrap() {
        Outcome::Sat(m) => assert_eq!(m.len(), 0),
        Outcome::Unsat(()) => panic!("expected sat"),
    }
}

#[test]
fn scenario_unsat_empty_clause() {
    assert_eq!(verdicts("p cnf 1 1\n0\n"), vec![false, false, false]);
}

#[test]
fn comments_are_skipped() {
    let text = "c a comment\n% another\np cnf 2 1\nc inside\n1 -2 0\n";
    let f = parse_text(text).unwrap();
    assert_eq!(f.len(), 1);
    assert_eq!(f.get(0).len(), 2);
}

#[test]
fn lone_zero_past_the_count_ends_input() {
    let text = "p cnf 2 1\n1 0\n0\n2 0\n";
    let f = parse_text(text).unwrap();
    assert_eq!(f.len(), 1);
}

#[test]
fn lone_zero_below_the_count_is_an_empty_clause() {
    let text = "p cnf 2 2\n1 0\n0\n";
    let f = parse_text(text).unwrap();
    assert_eq!(f.len(), 2);
    assert_eq!(f.get(1).len(), 0);
}

#[test]
fn clause_lines_parse_into_sorted_clauses() {
    let text = "p cnf 3 1\n3 -1 2 0\n";
    let f = parse_text(text).unwrap();
    let c = f.get(0);
    assert!(c.invariant_holds());
    let lits = c.iter();
    assert_eq!(lits.len(), 3);
    assert_eq!(lits[0], Lit::new(1, true));
    assert_eq!(lits[1], Lit::new(2, false));
    assert_eq!(lits[2], Lit::new(3, false));
}

#[test]
fn bad_header_is_an_error() {
    assert!(parse_text("q cnf 1 1\n1 0\n").is_err());
    assert!(parse_text("p dnf 1 1\n1 0\n").is_err());
    assert!(parse_text("p cnf\n1 0\n").is_err());
    assert!(parse_text("").is_err());
}

#[test]
fn bad_literals_are_errors() {
    assert!(parse_text("p cnf 1 1\nx 0\n").is_err());
    assert!(parse_text("p cnf 1 1\n- 0\n").is_err());
    // A negated zero is not a legal end-of-line marker.
    assert!(parse_text("p cnf 1 1\n1 -0\n").is_err());
    // A line must end with its `0` marker.
    assert!(parse_text("p cnf 2 1\n1 2\n").is_err());
}

#[test]
fn oversized_numbers_are_errors() {
    let text = "p cnf 2 1\n123456789012345678901234567890 0\n";
    assert!(parse_text(text).is_err());
}

#[test]
fn error_messages_name_the_line_and_its_text() {
    let text = "p cnf 1 2\n1 0\nbroken 0\n";
    let err = parse_text(text).unwrap_err();
    assert!(err.contains("error line 3"), "unexpected message: {err}");
    assert!(err.contains("`broken 0`"), "unexpected message: {err}");
}
