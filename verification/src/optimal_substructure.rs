//! Plain recursion that keeps one best combination per quantity: a best
//! combination for `n` is a best combination for some `n - a` with one more
//! entry. Nothing is remembered between calls, so the same quantities are
//! solved over and over.

use vstd::prelude::*;
use crate::lemmas::{lemma_best_iff_value, lemma_exhausted_empty, lemma_spent_insert};
use crate::model::{best_within, candidate, spent, total_value, OptModel, Pick};
use crate::opt::{option_models, Opt, OptCombination};
use crate::order::{canonical, insertion_index, lemma_insertion_index};
use crate::scan::{
    lemma_scan_amount, lemma_scan_begin, lemma_scan_best, lemma_scan_nothing, lemma_scan_option,
    lemma_scan_raise, scanned,
};

verus! {

/// The solver by plain recursion on best combinations.
pub struct OptimalSubstructure<'a> {
    opts: &'a Vec<Opt>,
}

impl<'a> OptimalSubstructure<'a> {
    /// The options that the solver was made with.
    pub closed spec fn options(&self) -> Seq<OptModel> {
        option_models(self.opts@)
    }

    /// A solver for `opts`.
    pub fn with_opts(opts: &'a Vec<Opt>) -> (solver: Self)
        ensures
            solver.options() == option_models(opts@),
    {
        OptimalSubstructure { opts }
    }

    /// A best combination for `n`, in canonical order, which leaves nothing
    /// that could be placed.
    pub fn solve(&self, n: u32) -> (best: OptCombination<'a>)
        ensures
            best_within(self.options(), n as nat, best@),
            spent(self.options(), n as nat, best@),
            canonical(best@),
            n == 0 ==> best@.len() == 0,
    {
        let best = self.recurse(n);
        proof {
            if n == 0 {
                lemma_exhausted_empty(self.options(), 0, best@);
            }
        }
        best
    }

    /// A best combination for `n`: the most valuable of the best combinations
    /// for each `n - a` with one more entry of amount `a`.
    fn recurse(&self, n: u32) -> (best: OptCombination<'a>)
        ensures
            best_within(self.options(), n as nat, best@),
            spent(self.options(), n as nat, best@),
            canonical(best@),
        decreases n,
    {
        let ghost opts = self.options();
        let mut best = OptCombination::new();
        let mut found = false;
        proof {
            lemma_scan_begin(opts, n as nat, -1);
        }
        let mut i: u64 = 1;
        while i <= n as u64
            invariant
                1 <= i <= n + 1,
                opts == self.options(),
                scanned(opts, n as nat, i as nat, 0, if found { total_value(best@) as int } else { -1 }),
                found ==> spent(opts, n as nat, best@),
                !found ==> best@.len() == 0,
                canonical(best@),
            decreases n + 1 - i,
        {
            let a: u32 = i as u32;
            let mut oi: usize = 0;
            while oi < self.opts.len()
                invariant
                    1 <= a <= n,
                    oi <= self.opts@.len(),
                    opts == self.options(),
                    scanned(
                        opts,
                        n as nat,
                        a as nat,
                        oi as int,
                        if found { total_value(best@) as int } else { -1 },
                    ),
                    found ==> spent(opts, n as nat, best@),
                    !found ==> best@.len() == 0,
                    canonical(best@),
                decreases self.opts@.len() - oi,
            {
                let opt = &self.opts[oi];
                let ghost lead = if found { total_value(best@) as int } else { -1 };
                if opt.accepts(a) {
                    let rem = n - a;
                    let mut combo = self.recurse(rem);
                    proof {
                        assert(candidate(opts, n as nat, oi as int, a as nat));
                        let p = Pick { opt: opts[oi as int], amount: a as nat };
                        lemma_insertion_index(combo@, p);
                        lemma_spent_insert(
                            opts,
                            n as nat,
                            oi as int,
                            a as nat,
                            combo@,
                            insertion_index(combo@, p),
                        );
                        lemma_best_iff_value(opts, rem as nat, combo@);
                    }
                    combo.add(opt, a);
                    if !found || combo.value() >= best.value() {
                        best = combo;
                        found = true;
                    }
                    proof {
                        lemma_scan_raise(
                            opts,
                            n as nat,
                            a as nat,
                            oi as int,
                            lead,
                            total_value(best@) as int,
                        );
                    }
                }
                proof {
                    lemma_scan_option(
                        opts,
                        n as nat,
                        a as nat,
                        oi as int,
                        if found { total_value(best@) as int } else { -1 },
                    );
                }
                oi += 1;
            }
            proof {
                lemma_scan_amount(
                    opts,
                    n as nat,
                    a as nat,
                    oi as int,
                    if found { total_value(best@) as int } else { -1 },
                );
            }
            i += 1;
        }
        proof {
            if found {
                lemma_scan_best(opts, n as nat, i as nat, best@);
            } else {
                lemma_scan_nothing(opts, n as nat, i as nat, -1);
                lemma_best_iff_value(opts, n as nat, best@);
            }
        }
        best
    }
}

} // verus!
