//! The result of a satisfiability check.

use vstd::prelude::*;

use crate::lit::LitSet;

verus! {

/// Outcome of a satisfiability check: a model, or an unsatisfiability
/// witness whose shape depends on the solver.
#[derive(Debug)]
pub enum Outcome<UnsatRes> {
    /// The formula is satisfiable, with a model.
    Sat(LitSet),
    /// The formula is unsatisfiable.
    Unsat(UnsatRes),
}

impl<UnsatRes> Outcome<UnsatRes> {
    /// Sat constructor.
    pub fn new_sat(model: LitSet) -> (r: Self)
        ensures
            r == Outcome::<UnsatRes>::Sat(model),
    {
        Outcome::Sat(model)
    }

    /// Unsat constructor.
    pub fn new_unsat(res: UnsatRes) -> (r: Self)
        ensures
            r == Outcome::<UnsatRes>::Unsat(res),
    {
        Outcome::Unsat(res)
    }

    /// True if the outcome is sat.
    pub fn is_sat(&self) -> (r: bool)
        ensures
            r == (self is Sat),
    {
        match self {
            Outcome::Sat(_) => true,
            Outcome::Unsat(_) => false,
        }
    }

    /// True if the outcome is unsat.
    pub fn is_unsat(&self) -> (r: bool)
        ensures
            r == (self is Unsat),
    {
        match self {
            Outcome::Unsat(_) => true,
            Outcome::Sat(_) => false,
        }
    }

    /// Consumes either branch through the matching action.
    pub fn map<T, FS: FnOnce(LitSet) -> T, FU: FnOnce(UnsatRes) -> T>(
        self,
        sat_action: FS,
        unsat_action: FU,
    ) -> (r: T)
        requires
            self matches Outcome::Sat(m) ==> call_requires(sat_action, (m,)),
            self matches Outcome::Unsat(u) ==> call_requires(unsat_action, (u,)),
        ensures
            self matches Outcome::Sat(m) ==> call_ensures(sat_action, (m,), r),
            self matches Outcome::Unsat(u) ==> call_ensures(unsat_action, (u,), r),
    {
        match self {
            Outcome::Sat(m) => sat_action(m),
            Outcome::Unsat(u) => unsat_action(u),
        }
    }

    /// As `map`, but by reference.
    pub fn map_ref<T, FS: FnOnce(&LitSet) -> T, FU: FnOnce(&UnsatRes) -> T>(
        &self,
        sat_action: FS,
        unsat_action: FU,
    ) -> (r: T)
        requires
            self matches Outcome::Sat(m) ==> call_requires(sat_action, (&m,)),
            self matches Outcome::Unsat(u) ==> call_requires(unsat_action, (&u,)),
        ensures
            self matches Outcome::Sat(m) ==> call_ensures(sat_action, (&m,), r),
            self matches Outcome::Unsat(u) ==> call_ensures(unsat_action, (&u,), r),
    {
        match self {
            Outcome::Sat(m) => sat_action(m),
            Outcome::Unsat(u) => unsat_action(u),
        }
    }

    /// Erases the unsatisfiability witness.
    pub fn into_unit_unsat(self) -> (r: Outcome<()>)
        ensures
            self matches Outcome::Sat(m) ==> r == Outcome::<()>::Sat(m),
            self is Unsat ==> r == Outcome::<()>::Unsat(()),
    {
        match self {
            Outcome::Sat(m) => Outcome::Sat(m),
            Outcome::Unsat(_) => Outcome::Unsat(()),
        }
    }
}

} // verus!
