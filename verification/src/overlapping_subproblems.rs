//! The enumeration of the brute-force solver with a memo: the set of the
//! combinations for a quantity is built once and then reused by every
//! larger quantity that needs it.

use vstd::prelude::*;
use crate::brute_force::lemma_single_member;
use crate::lemmas::{lemma_exhausted_empty, lemma_exhausted_value};
use crate::model::{best_within, candidate, spent, total_value, OptModel, Pick};
use crate::opt::{option_models, Opt, OptCombination};
use crate::order::canonical;
use crate::scan::{
    lemma_scan_amount, lemma_scan_begin, lemma_scan_option, lemma_scan_raise, scanned,
};
use crate::solution_set::{
    complete, covered, holds, lemma_candidate_covers, lemma_covered_amount, lemma_covered_begin,
    lemma_covered_grown, lemma_covered_option, lemma_covered_skip, lemma_extended,
    lemma_extended_holds, lemma_inserted, lemma_inserted_holds, lemma_set_answer,
    lemma_set_complete, lemma_top_attained, member_ok, members_ok, met_at, names_identify,
    set_for, top_value, SolutionSet,
};

verus! {

/// Every filled slot `k` of the memo holds the set for `k`.
spec fn sets_ok(opts: Seq<OptModel>, memo: Seq<Option<SolutionSet>>) -> bool {
    forall|k: int|
        0 <= k < memo.len() ==> (#[trigger] memo[k] matches Some(set) ==> set_for(
            opts,
            k as nat,
            set@,
        ))
}

/// What was filled in `before` is still there in `after`.
spec fn sets_kept(before: Seq<Option<SolutionSet>>, after: Seq<Option<SolutionSet>>) -> bool {
    &&& after.len() == before.len()
    &&& forall|k: int|
        0 <= k < before.len() && (#[trigger] before[k]) is Some ==> after[k] == before[k]
}

/// A memo of sets as the contracts see it: for each slot, the members of the
/// set that it holds, if it holds one.
pub open spec fn sets_view(memo: Seq<Option<SolutionSet>>) -> Seq<Option<Seq<Seq<Pick>>>> {
    Seq::new(
        memo.len(),
        |k: int|
            match memo[k] {
                Some(set) => Some(set@),
                None => None,
            },
    )
}

/// Every filled slot `k` holds the set for `k`.
pub open spec fn holds_sets(opts: Seq<OptModel>, memo: Seq<Option<Seq<Seq<Pick>>>>) -> bool {
    forall|k: int|
        0 <= k < memo.len() ==> (#[trigger] memo[k] matches Some(set) ==> set_for(
            opts,
            k as nat,
            set,
        ))
}

/// `best` is the most valuable member of `set`, or empty where `set` is.
pub open spec fn best_of(set: Seq<Seq<Pick>>, best: Seq<Pick>) -> bool {
    &&& set.len() == 0 ==> best.len() == 0
    &&& set.len() > 0 ==> total_value(best) == top_value(set) && exists|k: int|
        0 <= k < set.len() && set[k] == best
}

/// The enumerating solver with a memo of sets.
pub struct OverlappingSubproblems<'a> {
    opts: &'a Vec<Opt>,
    cache: Vec<Option<SolutionSet<'a>>>,
}

impl<'a> OverlappingSubproblems<'a> {
    /// The options that the solver was made with.
    pub closed spec fn options(&self) -> Seq<OptModel> {
        option_models(self.opts@)
    }

    /// The memo: slot `k` is for quantity `k`.
    pub closed spec fn memo(&self) -> Seq<Option<Seq<Seq<Pick>>>> {
        sets_view(self.cache@)
    }

    /// A solver for `opts`, with an empty memo.
    pub fn with_opts(opts: &'a Vec<Opt>) -> (solver: Self)
        ensures
            solver.options() == option_models(opts@),
            solver.memo().len() == 0,
    {
        OverlappingSubproblems { opts, cache: Vec::new() }
    }

    /// A combination for `n`, in canonical order, which leaves nothing that
    /// could be placed: the most valuable of all that the enumeration finds,
    /// and the empty one where it finds none. Where a name stands for one
    /// option, it is a best combination.
    ///
    /// The memo is made anew with `n + 1` slots. Afterwards slot `n` holds
    /// the set that the answer was taken from, and every slot that the
    /// recursion reached holds the set for its quantity.
    pub fn solve(&mut self, n: u32) -> (best: OptCombination<'a>)
        requires
            n < usize::MAX,
        ensures
            final(self).options() == old(self).options(),
            spent(old(self).options(), n as nat, best@),
            canonical(best@),
            names_identify(old(self).options()) ==> best_within(
                old(self).options(),
                n as nat,
                best@,
            ),
            n == 0 ==> best@.len() == 0,
            final(self).memo().len() == n + 1,
            final(self).memo()[n as int] matches Some(set) && best_of(set, best@),
            holds_sets(old(self).options(), final(self).memo()),
    {
        self.cache.clear();
        let size: usize = n as usize + 1;
        while self.cache.len() < size
            invariant
                self.cache@.len() <= size,
                self.opts == old(self).opts,
                forall|k: int| 0 <= k < self.cache@.len() ==> (#[trigger] self.cache@[k]) is None,
            decreases size - self.cache@.len(),
        {
            self.cache.push(None);
        }
        let solutions = self.recurse(n);
        let best = match solutions.into_best() {
            Some(c) => c,
            None => OptCombination::new(),
        };
        proof {
            lemma_set_answer(self.options(), n as nat, solutions@, best@);
            if n == 0 {
                lemma_exhausted_empty(self.options(), 0, best@);
            }
            assert(self.memo()[n as int] == Some(solutions@));
            assert forall|k: int| 0 <= k < self.memo().len() implies (
            #[trigger] self.memo()[k] matches Some(set) ==> set_for(
                self.options(),
                k as nat,
                set,
            )) by {
                if self.cache@[k] is Some {
                    assert(self.memo()[k] == Some(self.cache@[k]->0@));
                }
            }
        }
        best
    }

    /// The set of all combinations for `n`. A filled slot `n` is answered
    /// from the memo, which then stays as it is. Otherwise the set is built
    /// and put into slot `n`, and the slots below it that it needs are
    /// filled.
    fn recurse(&mut self, n: u32) -> (solutions: SolutionSet<'a>)
        requires
            n < old(self).cache@.len(),
            sets_ok(old(self).options(), old(self).cache@),
        ensures
            final(self).opts == old(self).opts,
            sets_ok(old(self).options(), final(self).cache@),
            sets_kept(old(self).cache@, final(self).cache@),
            set_for(old(self).options(), n as nat, solutions@),
            complete(old(self).options(), n as nat, solutions@),
            final(self).cache@[n as int] matches Some(set) && set@ == solutions@,
            old(self).cache@[n as int] is Some ==> final(self).cache@ == old(self).cache@,
        decreases n,
    {
        if let Some(h) = &self.cache[n as usize] {
            return h.clone();
        }
        let ghost opts = self.options();
        let options: &'a Vec<Opt> = self.opts;
        let mut solutions = SolutionSet::new();
        proof {
            lemma_scan_begin(opts, n as nat, -1);
            lemma_covered_begin(opts, n as nat, solutions@);
        }
        let mut i: u64 = 1;
        while i <= n as u64
            invariant
                1 <= i <= n + 1,
                self.opts == old(self).opts,
                options == self.opts,
                opts == self.options(),
                n < self.cache@.len(),
                sets_ok(opts, self.cache@),
                sets_kept(old(self).cache@, self.cache@),
                members_ok(opts, n as nat, solutions@),
                covered(opts, n as nat, i as nat, 0, solutions@),
                solutions@.len() == 0 ==> scanned(opts, n as nat, i as nat, 0, -1),
                names_identify(opts) ==> scanned(
                    opts,
                    n as nat,
                    i as nat,
                    0,
                    top_value(solutions@),
                ),
            decreases n + 1 - i,
        {
            let a: u32 = i as u32;
            let mut oi: usize = 0;
            while oi < options.len()
                invariant
                    1 <= a <= n,
                    oi <= options@.len(),
                    self.opts == old(self).opts,
                    options == self.opts,
                    opts == self.options(),
                    n < self.cache@.len(),
                    sets_ok(opts, self.cache@),
                    sets_kept(old(self).cache@, self.cache@),
                    members_ok(opts, n as nat, solutions@),
                    covered(opts, n as nat, a as nat, oi as int, solutions@),
                    solutions@.len() == 0 ==> scanned(opts, n as nat, a as nat, oi as int, -1),
                    names_identify(opts) ==> scanned(
                        opts,
                        n as nat,
                        a as nat,
                        oi as int,
                        top_value(solutions@),
                    ),
                decreases options@.len() - oi,
            {
                let opt = &options[oi];
                let ghost before = solutions@;
                if opt.accepts(a) {
                    let rem = n - a;
                    let ghost memo = self.cache@;
                    let solutions_rem = self.recurse(rem);
                    let ghost sub = solutions_rem@;
                    proof {
                        assert(sets_kept(old(self).cache@, self.cache@)) by {
                            assert forall|k: int|
                                0 <= k < old(self).cache@.len() && (#[trigger] old(
                                    self,
                                ).cache@[k]) is Some implies self.cache@[k] == old(
                                self,
                            ).cache@[k] by {
                                assert(memo[k] is Some);
                            }
                        }
                        assert(candidate(opts, n as nat, oi as int, a as nat));
                    }
                    if solutions_rem.len() == 0 {
                        let single = OptCombination::new_with_opt(opt, a);
                        proof {
                            lemma_single_member(opts, n as nat, oi as int, a as nat);
                            lemma_inserted(opts, n as nat, before, single@);
                            lemma_inserted_holds(before, single@);
                            lemma_exhausted_value(opts, rem as nat);
                        }
                        solutions.insert(single);
                    } else {
                        proof {
                            lemma_extended(
                                opts,
                                n as nat,
                                oi as int,
                                a as nat,
                                before,
                                solutions_rem@,
                            );
                            lemma_extended_holds(
                                before,
                                solutions_rem@,
                                Pick { opt: opts[oi as int], amount: a as nat },
                            );
                            if names_identify(opts) {
                                lemma_top_attained(solutions_rem@);
                            }
                        }
                        solutions.extend_with(solutions_rem, opt, a);
                    }
                    proof {
                        if names_identify(opts) {
                            lemma_scan_raise(
                                opts,
                                n as nat,
                                a as nat,
                                oi as int,
                                top_value(before),
                                top_value(solutions@),
                            );
                        }
                        assert forall|c: Seq<Pick>, k: int|
                            member_ok(opts, n as nat, c) && #[trigger] met_at(
                                opts,
                                c,
                                k,
                                oi as int,
                            ) && c[k].amount == a implies holds(solutions@, c) by {
                            lemma_candidate_covers(
                                opts,
                                n as nat,
                                oi as int,
                                a as nat,
                                sub,
                                solutions@,
                                c,
                                k,
                            );
                        }
                        lemma_covered_grown(
                            opts,
                            n as nat,
                            a as nat,
                            oi as int,
                            before,
                            solutions@,
                        );
                        lemma_covered_option(opts, n as nat, a as nat, oi as int, solutions@);
                    }
                } else {
                    proof {
                        lemma_covered_skip(opts, n as nat, a as nat, oi as int, solutions@);
                    }
                }
                proof {
                    if solutions@.len() == 0 {
                        lemma_scan_option(opts, n as nat, a as nat, oi as int, -1);
                    }
                    if names_identify(opts) {
                        lemma_scan_option(
                            opts,
                            n as nat,
                            a as nat,
                            oi as int,
                            top_value(solutions@),
                        );
                    }
                }
                oi += 1;
            }
            proof {
                lemma_covered_amount(opts, n as nat, a as nat, solutions@);
                if solutions@.len() == 0 {
                    lemma_scan_amount(opts, n as nat, a as nat, oi as int, -1);
                }
                if names_identify(opts) {
                    lemma_scan_amount(opts, n as nat, a as nat, oi as int, top_value(solutions@));
                }
            }
            i += 1;
        }
        proof {
            lemma_set_complete(opts, n as nat, i as nat, solutions@);
        }
        self.cache[n as usize] = Some(solutions.clone());
        solutions
    }
}

} // verus!
