//! Recursive implementations of the three solver variants.

pub mod backjump;
pub mod cdcl;
pub mod plain;

use vstd::prelude::*;

use crate::clause::Cnf;
use crate::outcome::Outcome;
use crate::sem::{models, satisfiable};
use crate::Dpll;

verus! {

/// Runs the selected variant on a formula and erases the variant-specific
/// unsatisfiability detail.  The verdict is exact: `Sat` comes back if and
/// only if some consistent assignment satisfies every clause, and the model
/// returned with it is such an assignment.
pub fn solve(f: Cnf, dpll: Dpll) -> (r: Result<Outcome<()>, String>)
    ensures
        r matches Ok(o) ==> ((o is Sat) <==> satisfiable(f@)),
        r matches Ok(o) ==> (o matches Outcome::Sat(m) ==> models(m@, Set::empty(), f@)),
        f@.len() == 0 ==> (r matches Ok(o) && o matches Outcome::Sat(m) && m@ == Set::<
            crate::lit::Lit,
        >::empty()),
        r is Ok,
{
    match dpll {
        Dpll::Plain => Ok(plain::Plain::new(f).solve()),
        Dpll::Backjump => Ok(backjump::Backjump::new(f).solve()),
        Dpll::Cdcl => Ok(cdcl::Cdcl::new(f).solve()),
    }
}

} // verus!
