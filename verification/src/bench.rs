//! Bookkeeping for batch runs over benchmark files: per-verdict counters and
//! the pure parts of the benchmark-splitting configuration.

use vstd::prelude::*;
use vstd::string::StringExecFns;

verus! {

/// Verdict of one solver run on one benchmark.
#[derive(Debug, Clone, Copy, PartialEq, Eq, Structural)]
pub enum RunRes {
    /// The solver printed `s SATISFIABLE`.
    Sat,
    /// The solver printed `s UNSATISFIABLE`.
    Unsat,
    /// The solver printed `s UNKNOWN`, or nothing conclusive.
    Unknown,
}

impl RunRes {
    /// What a verdict word of a SAT-comp result line (`s <verdict>`) means.
    pub open spec fn spec_of_verdict(word: Seq<char>) -> Option<RunRes> {
        if word == "SATISFIABLE"@ {
            Some(RunRes::Sat)
        } else if word == "UNSATISFIABLE"@ {
            Some(RunRes::Unsat)
        } else if word == "UNKNOWN"@ {
            Some(RunRes::Unknown)
        } else {
            None
        }
    }

    /// Classifies the verdict word of a solver's `s <verdict>` output line.
    pub fn from_verdict(word: &str) -> (r: Option<RunRes>)
        ensures
            r == RunRes::spec_of_verdict(word@),
    {
        proof {
            // Revealing the literals, with their lengths, tells them apart.
            reveal_strlit("SATISFIABLE");
            reveal_strlit("UNSATISFIABLE");
            reveal_strlit("UNKNOWN");
            assert("SATISFIABLE"@.len() == 11);
            assert("UNSATISFIABLE"@.len() == 13);
            assert("UNKNOWN"@.len() == 7);
        }
        let w = word.to_owned();
        if w == String::from_str("SATISFIABLE") {
            Some(RunRes::Sat)
        } else if w == String::from_str("UNSATISFIABLE") {
            Some(RunRes::Unsat)
        } else if w == String::from_str("UNKNOWN") {
            Some(RunRes::Unknown)
        } else {
            None
        }
    }
}

/// How many benchmarks went each way.
#[derive(Debug, Clone, Copy, PartialEq, Eq, Structural)]
pub struct Stats {
    /// Number of `sat` benchmarks.
    pub sat: usize,
    /// Number of `unsat` benchmarks.
    pub unsat: usize,
    /// Number of `unknown` benchmarks.
    pub unknown: usize,
}

impl Stats {
    /// Empty counters.
    pub fn new() -> (r: Self)
        ensures
            r.sat == 0 && r.unsat == 0 && r.unknown == 0,
    {
        Stats { sat: 0, unsat: 0, unknown: 0 }
    }

    /// Total number of benchmarks counted.
    pub fn all(&self) -> (r: usize)
        requires
            self.sat + self.unsat + self.unknown <= usize::MAX,
        ensures
            r == self.sat + self.unsat + self.unknown,
    {
        self.sat + self.unsat + self.unknown
    }

    /// Counts one more result of the given kind.
    pub fn add(&mut self, res: RunRes)
        requires
            old(self).sat + old(self).unsat + old(self).unknown < usize::MAX,
        ensures
            res == RunRes::Sat ==> *final(self) == (Stats {
                sat: (old(self).sat + 1) as usize,
                ..*old(self)
            }),
            res == RunRes::Unsat ==> *final(self) == (Stats {
                unsat: (old(self).unsat + 1) as usize,
                ..*old(self)
            }),
            res == RunRes::Unknown ==> *final(self) == (Stats {
                unknown: (old(self).unknown + 1) as usize,
                ..*old(self)
            }),
    {
        match res {
            RunRes::Sat => {
                self.sat = self.sat + 1;
            },
            RunRes::Unsat => {
                self.unsat = self.unsat + 1;
            },
            RunRes::Unknown => {
                self.unknown = self.unknown + 1;
            },
        }
    }
}

/// What joining the command and its arguments with single blanks gives.
pub open spec fn joined(cmd: Seq<char>, args: Seq<Seq<char>>) -> Seq<char>
    decreases args.len(),
{
    if args.len() == 0 {
        cmd
    } else {
        joined(cmd, args.drop_last()) + " "@ + args.last()
    }
}

/// Benchmark-splitting configuration: where the benchmarks are, where each
/// verdict's files go, and the solver command that decides them.
#[derive(Debug)]
pub struct Split {
    /// If true, move files instead of copying them.
    pub move_files: bool,
    /// Source folder, holding the benchmarks.
    pub src: String,
    /// Where `sat` benchmarks go.
    pub sat_tgt: String,
    /// Where `unsat` benchmarks go.
    pub unsat_tgt: String,
    /// Where `unknown` benchmarks go.
    pub unknown_tgt: String,
    /// Solver command and arguments.
    pub solver: (String, Vec<String>),
}

impl Split {
    /// The solver command as one line: the command word, then each argument
    /// after a single blank.
    pub fn pretty_solver_cmd(&self) -> (r: String)
        ensures
            r@ == joined(self.solver.0@, self.solver.1@.map_values(|a: String| a@)),
    {
        let mut res = self.solver.0.clone();
        let args = &self.solver.1;
        let ghost views = args@.map_values(|a: String| a@);
        let n = args.len();
        let mut i: usize = 0;
        proof {
            assert(views.subrange(0, 0) =~= Seq::<Seq<char>>::empty());
        }
        while i < n
            invariant
                n == args@.len(),
                views == args@.map_values(|a: String| a@),
                0 <= i <= n,
                res@ == joined(self.solver.0@, views.subrange(0, i as int)),
            decreases n - i,
        {
            res.append(" ");
            res.append(args[i].as_str());
            proof {
                crate::seqs::lemma_subrange_push(views, i as int);
                assert(views.subrange(0, i + 1).drop_last() =~= views.subrange(0, i as int));
                assert(views[i as int] == args@[i as int]@);
            }
            i = i + 1;
        }
        proof {
            crate::seqs::lemma_subrange_all(views);
        }
        res
    }

    /// The target directory for a verdict.
    pub fn tgt_for(&self, res: RunRes) -> (r: &String)
        ensures
            res == RunRes::Sat ==> r == &self.sat_tgt,
            res == RunRes::Unsat ==> r == &self.unsat_tgt,
            res == RunRes::Unknown ==> r == &self.unknown_tgt,
    {
        match res {
            RunRes::Sat => &self.sat_tgt,
            RunRes::Unsat => &self.unsat_tgt,
            RunRes::Unknown => &self.unknown_tgt,
        }
    }
}

} // verus!
