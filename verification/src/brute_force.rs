//! Plain enumeration: every way to split `n` into amounts that options
//! take, with nothing remembered. Exponential, and meant as the reference
//! that the faster solvers are held against on small quantities.

use vstd::prelude::*;
use crate::lemmas::{lemma_exhausted_empty, lemma_exhausted_value, lemma_totals_single};
use crate::model::{
    best_within, candidate, exhausted, spent, total_value, usable, OptModel, Pick,
};
use crate::opt::{option_models, Opt, OptCombination};
use crate::order::canonical;
use crate::scan::{
    lemma_scan_amount, lemma_scan_begin, lemma_scan_option, lemma_scan_raise, scanned,
};
use crate::solution_set::{
    complete, covered, holds, lemma_candidate_covers, lemma_covered_amount, lemma_covered_begin,
    lemma_covered_grown, lemma_covered_option, lemma_covered_skip, lemma_extended,
    lemma_extended_holds, lemma_inserted, lemma_inserted_holds, lemma_set_answer,
    lemma_set_complete, lemma_top_attained, member_ok, members_ok, met_at, names_identify,
    set_for, top_value, SolutionSet,
};

verus! {

/// Where nothing can be placed in `n - a`, option `j` with amount `a` alone
/// is a member for `n`, and it is worth what the candidate leads to.
pub proof fn lemma_single_member(opts: Seq<OptModel>, n: nat, j: int, a: nat)
    requires
        candidate(opts, n, j, a),
        exhausted(opts, (n - a) as nat),
    ensures
        member_ok(opts, n, seq![Pick { opt: opts[j], amount: a }]),
        total_value(seq![Pick { opt: opts[j], amount: a }]) == opts[j].gain_for(a),
{
    let p = Pick { opt: opts[j], amount: a };
    lemma_totals_single(p);
    assert(usable(opts, p));
}

/// The solver by plain enumeration.
pub struct BruteForce<'a> {
    opts: &'a Vec<Opt>,
}

impl<'a> BruteForce<'a> {
    /// The options that the solver was made with.
    pub closed spec fn options(&self) -> Seq<OptModel> {
        option_models(self.opts@)
    }

    /// A solver for `opts`.
    pub fn with_opts(opts: &'a Vec<Opt>) -> (solver: Self)
        ensures
            solver.options() == option_models(opts@),
    {
        BruteForce { opts }
    }

    /// A combination for `n`, in canonical order, which leaves nothing that
    /// could be placed: the most valuable of all that the enumeration finds,
    /// and the empty one where it finds none. Where a name stands for one
    /// option, it is a best combination.
    pub fn solve(&self, n: u32) -> (best: OptCombination<'a>)
        ensures
            spent(self.options(), n as nat, best@),
            canonical(best@),
            names_identify(self.options()) ==> best_within(self.options(), n as nat, best@),
            n == 0 ==> best@.len() == 0,
    {
        let solutions = self.recurse(n);
        let best = match solutions.into_best() {
            Some(c) => c,
            None => OptCombination::new(),
        };
        proof {
            lemma_set_answer(self.options(), n as nat, solutions@, best@);
            if n == 0 {
                lemma_exhausted_empty(self.options(), 0, best@);
            }
        }
        best
    }

    /// The set of all combinations for `n`: every canonical, non-empty
    /// combination that spends `n` as far as it can be spent, each once.
    fn recurse(&self, n: u32) -> (solutions: SolutionSet<'a>)
        ensures
            set_for(self.options(), n as nat, solutions@),
            complete(self.options(), n as nat, solutions@),
        decreases n,
    {
        let ghost opts = self.options();
        let mut solutions = SolutionSet::new();
        proof {
            lemma_scan_begin(opts, n as nat, -1);
            lemma_covered_begin(opts, n as nat, solutions@);
        }
        let mut i: u64 = 1;
        while i <= n as u64
            invariant
                1 <= i <= n + 1,
                opts == self.options(),
                members_ok(opts, n as nat, solutions@),
                covered(opts, n as nat, i as nat, 0, solutions@),
                solutions@.len() == 0 ==> scanned(opts, n as nat, i as nat, 0, -1),
                names_identify(opts) ==> scanned(
                    opts,
                    n as nat,
                    i as nat,
                    0,
                    top_value(solutions@),
                ),
            decreases n + 1 - i,
        {
            let a: u32 = i as u32;
            let mut oi: usize = 0;
            while oi < self.opts.len()
                invariant
                    1 <= a <= n,
                    oi <= self.opts@.len(),
                    opts == self.options(),
                    members_ok(opts, n as nat, solutions@),
                    covered(opts, n as nat, a as nat, oi as int, solutions@),
                    solutions@.len() == 0 ==> scanned(opts, n as nat, a as nat, oi as int, -1),
                    names_identify(opts) ==> scanned(
                        opts,
                        n as nat,
                        a as nat,
                        oi as int,
                        top_value(solutions@),
                    ),
                decreases self.opts@.len() - oi,
            {
                let opt = &self.opts[oi];
                let ghost before = solutions@;
                if opt.accepts(a) {
                    let rem = n - a;
                    let solutions_rem = self.recurse(rem);
                    let ghost sub = solutions_rem@;
                    assert(candidate(opts, n as nat, oi as int, a as nat));
                    if solutions_rem.len() == 0 {
                        let single = OptCombination::new_with_opt(opt, a);
                        proof {
                            lemma_single_member(opts, n as nat, oi as int, a as nat);
                            lemma_inserted(opts, n as nat, before, single@);
                            lemma_inserted_holds(before, single@);
                            lemma_exhausted_value(opts, rem as nat);
                        }
                        solutions.insert(single);
                    } else {
                        proof {
                            lemma_extended(
                                opts,
                                n as nat,
                                oi as int,
                                a as nat,
                                before,
                                solutions_rem@,
                            );
                            lemma_extended_holds(
                                before,
                                solutions_rem@,
                                Pick { opt: opts[oi as int], amount: a as nat },
                            );
                            if names_identify(opts) {
                                lemma_top_attained(solutions_rem@);
                            }
                        }
                        solutions.extend_with(solutions_rem, opt, a);
                    }
                    proof {
                        if names_identify(opts) {
                            lemma_scan_raise(
                                opts,
                                n as nat,
                                a as nat,
                                oi as int,
                                top_value(before),
                                top_value(solutions@),
                            );
                        }
                        assert forall|c: Seq<Pick>, k: int|
                            member_ok(opts, n as nat, c) && #[trigger] met_at(
                                opts,
                                c,
                                k,
                                oi as int,
                            ) && c[k].amount == a implies holds(solutions@, c) by {
                            lemma_candidate_covers(
                                opts,
                                n as nat,
                                oi as int,
                                a as nat,
                                sub,
                                solutions@,
                                c,
                                k,
                            );
                        }
                        lemma_covered_grown(
                            opts,
                            n as nat,
                            a as nat,
                            oi as int,
                            before,
                            solutions@,
                        );
                        lemma_covered_option(opts, n as nat, a as nat, oi as int, solutions@);
                    }
                } else {
                    proof {
                        lemma_covered_skip(opts, n as nat, a as nat, oi as int, solutions@);
                    }
                }
                proof {
                    if solutions@.len() == 0 {
                        lemma_scan_option(opts, n as nat, a as nat, oi as int, -1);
                    }
                    if names_identify(opts) {
                        lemma_scan_option(
                            opts,
                            n as nat,
                            a as nat,
                            oi as int,
                            top_value(solutions@),
                        );
                    }
                }
                oi += 1;
            }
            proof {
                lemma_covered_amount(opts, n as nat, a as nat, solutions@);
                if solutions@.len() == 0 {
                    lemma_scan_amount(opts, n as nat, a as nat, oi as int, -1);
                }
                if names_identify(opts) {
                    lemma_scan_amount(opts, n as nat, a as nat, oi as int, top_value(solutions@));
                }
            }
            i += 1;
        }
        proof {
            lemma_set_complete(opts, n as nat, i as nat, solutions@);
        }
        solutions
    }
}

} // verus!
