//! Three verified DPLL-style SAT solvers over CNF formulas: a plain
//! backtracking search, a backjumping search, and a backjumping search with
//! conflict-driven clause learning.

pub mod bench;
pub mod clause;
pub mod env;
pub mod lit;
pub mod outcome;
pub mod parse;
pub mod recursive;
pub mod sem;
pub mod seqs;

use vstd::prelude::*;
use vstd::string::StringExecFns;

use crate::clause::Cnf;
use crate::outcome::Outcome;
use crate::sem::{models, satisfiable};

verus! {

/// Enumerates DPLL variations.
#[derive(Debug, Clone, Copy, PartialEq, Eq, Structural)]
pub enum Dpll {
    /// Plain DPLL.
    Plain,
    /// DPLL with backjump.
    Backjump,
    /// DPLL with backjump and CDCL.
    Cdcl,
}

impl Default for Dpll {
    fn default() -> (r: Self)
        ensures
            r == Dpll::Cdcl,
    {
        Dpll::Cdcl
    }
}

impl Dpll {
    /// Looks a variant up by its name.
    pub fn from_name(name: &str) -> (r: Option<Dpll>)
        ensures
            name@ == "plain"@ ==> r == Some(Dpll::Plain),
            name@ == "backjump"@ ==> r == Some(Dpll::Backjump),
            name@ == "cdcl"@ ==> r == Some(Dpll::Cdcl),
            name@ != "plain"@ && name@ != "backjump"@ && name@ != "cdcl"@ ==> r is None,
    {
        proof {
            // Revealing the literals, with their lengths, tells the three
            // names apart.
            reveal_strlit("plain");
            reveal_strlit("backjump");
            reveal_strlit("cdcl");
            assert("plain"@.len() == 5);
            assert("backjump"@.len() == 8);
            assert("cdcl"@.len() == 4);
        }
        let n = name.to_owned();
        if n == String::from_str("plain") {
            Some(Dpll::Plain)
        } else if n == String::from_str("backjump") {
            Some(Dpll::Backjump)
        } else if n == String::from_str("cdcl") {
            Some(Dpll::Cdcl)
        } else {
            None
        }
    }
}

/// Enumerates DPLL implementation variations.
#[derive(Debug, Clone, Copy, PartialEq, Eq, Structural)]
pub enum DpllImpl {
    /// Recursive implementation.
    Recursive(Dpll),
}

impl Default for DpllImpl {
    fn default() -> (r: Self)
        ensures
            r == DpllImpl::Recursive(Dpll::Cdcl),
    {
        DpllImpl::Recursive(Dpll::Cdcl)
    }
}

impl DpllImpl {
    /// Looks an implementation up by its name, with an optional variant name
    /// under it; with no variant name the default variant is used.
    pub fn from_name(name: &str, sub_name: Option<&str>) -> (r: Option<DpllImpl>)
        ensures
            name@ != "recursive"@ ==> r is None,
            name@ == "recursive"@ && sub_name is None ==> r == Some(
                DpllImpl::Recursive(Dpll::Cdcl),
            ),
            name@ == "recursive"@ ==> (sub_name matches Some(s) ==> r == match Dpll::spec_from_name(
                s@,
            ) {
                Some(d) => Some(DpllImpl::Recursive(d)),
                None => None::<DpllImpl>,
            }),
    {
        let n = name.to_owned();
        if n == String::from_str("recursive") {
            match sub_name {
                None => Some(DpllImpl::Recursive(Dpll::Cdcl)),
                Some(sub) => {
                    match Dpll::from_name(sub) {
                        Some(d) => {
                            proof {
                                reveal_strlit("plain");
                                reveal_strlit("backjump");
                                reveal_strlit("cdcl");
                            }
                            Some(DpllImpl::Recursive(d))
                        },
                        None => None,
                    }
                },
            }
        } else {
            None
        }
    }
}

impl Dpll {
    /// What `from_name` answers, as a function of the name.
    pub open spec fn spec_from_name(name: Seq<char>) -> Option<Dpll> {
        if name == "plain"@ {
            Some(Dpll::Plain)
        } else if name == "backjump"@ {
            Some(Dpll::Backjump)
        } else if name == "cdcl"@ {
            Some(Dpll::Cdcl)
        } else {
            None
        }
    }
}

/// Abstracts over the notion of formula.
pub trait Formula: Sized {
    /// The formula seen as a conjunction of clauses.
    spec fn cnf_view(&self) -> Seq<Seq<crate::lit::Lit>>;

    /// Transforms the formula into CNF.
    fn into_cnf(self) -> (r: Cnf)
        ensures
            r@ == self.cnf_view(),
    ;
}

impl Formula for Cnf {
    open spec fn cnf_view(&self) -> Seq<Seq<crate::lit::Lit>> {
        self@
    }

    fn into_cnf(self) -> (r: Cnf)
        ensures
            r@ == self.cnf_view(),
    {
        self
    }
}

/// Decides satisfiability of `f` with the selected solver variant.  All
/// variants agree: `Sat` comes back exactly when some consistent assignment
/// satisfies every clause of `f`, and the model carried by a `Sat` outcome is
/// such an assignment.
pub fn solve(f: Cnf, dpll: DpllImpl) -> (r: Result<Outcome<()>, String>)
    ensures
        r matches Ok(o) ==> ((o is Sat) <==> satisfiable(f@)),
        r matches Ok(o) ==> (o matches Outcome::Sat(m) ==> models(m@, Set::empty(), f@)),
        f@.len() == 0 ==> (r matches Ok(o) && o matches Outcome::Sat(m) && m@ == Set::<
            crate::lit::Lit,
        >::empty()),
        r is Ok,
{
    match dpll {
        DpllImpl::Recursive(variant) => recursive::solve(f, variant),
    }
}

/// Agreement: any two outcomes whose verdicts are exact for the same formula
/// — as every solver variant's `solve` guarantees — agree on satisfiability,
/// whatever their models or unsatisfiability witnesses look like.
pub proof fn lemma_variants_agree<U1, U2>(
    phi: Seq<Seq<crate::lit::Lit>>,
    a: Outcome<U1>,
    b: Outcome<U2>,
)
    requires
        (a is Sat) <==> satisfiable(phi),
        (b is Sat) <==> satisfiable(phi),
    ensures
        (a is Sat) <==> (b is Sat),
        (a is Unsat) <==> (b is Unsat),
{
}

} // verus!
