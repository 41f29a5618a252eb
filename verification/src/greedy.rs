//! The greedy heuristic: at each step, put quantity where the profit per
//! unit looks highest. Quick, and not always optimal.

use vstd::prelude::*;
use crate::lemmas::{lemma_feasible_insert, lemma_totals_insert, lemma_totals_update};
use crate::model::{feasible, total_amount, usable, within, OptModel, Pick};
use crate::opt::{option_models, Opt, OptCombination};
use crate::order::{insertion_index, lemma_insertion_index};

verus! {

/// Slopes are ranked in steps of one ten-thousandth. With money in
/// millionths, that is a division by 100.
pub const RANK_DIVISOR: u32 = 100;

/// An entry can take more when it is below its option's `end`.
pub open spec fn can_raise(p: Pick) -> bool {
    p.amount < p.opt.end
}

/// The rank of an entry that can take more: its option's interest.
pub open spec fn raise_rank(p: Pick) -> nat {
    p.opt.interest / (RANK_DIVISOR as nat)
}

/// An option can be started when what is left covers its `start`.
pub open spec fn can_start(o: OptModel, rest: nat) -> bool {
    o.start <= rest
}

/// The rank of an option that can be started: its gain per unit at `start`.
pub open spec fn start_rank(o: OptModel) -> nat {
    o.gain_for(o.start) / (RANK_DIVISOR as nat * o.start)
}

/// Entry `k` is the one to raise: of the entries that can take more, the
/// last of those with the highest rank.
pub open spec fn is_raise_choice(picks: Seq<Pick>, k: int) -> bool {
    &&& 0 <= k < picks.len()
    &&& can_raise(picks[k])
    &&& forall|i: int|
        0 <= i < picks.len() && can_raise(#[trigger] picks[i]) ==> raise_rank(picks[i])
            <= raise_rank(picks[k])
    &&& forall|i: int|
        k < i < picks.len() && can_raise(#[trigger] picks[i]) ==> raise_rank(picks[i])
            < raise_rank(picks[k])
}

/// Option `j` is the one to start: of the options that can be started, the
/// last of those with the highest rank.
pub open spec fn is_start_choice(opts: Seq<OptModel>, rest: nat, j: int) -> bool {
    &&& 0 <= j < opts.len()
    &&& can_start(opts[j], rest)
    &&& forall|i: int|
        0 <= i < opts.len() && can_start(#[trigger] opts[i], rest) ==> start_rank(opts[i])
            <= start_rank(opts[j])
    &&& forall|i: int|
        j < i < opts.len() && can_start(#[trigger] opts[i], rest) ==> start_rank(opts[i])
            < start_rank(opts[j])
}

/// The entry to raise, if any entry can take more.
pub open spec fn raise_choice(picks: Seq<Pick>) -> Option<int> {
    if exists|k: int| is_raise_choice(picks, k) {
        Some(choose|k: int| is_raise_choice(picks, k))
    } else {
        None
    }
}

/// The option to start, if any can be started.
pub open spec fn start_choice(opts: Seq<OptModel>, rest: nat) -> Option<int> {
    if exists|j: int| is_start_choice(opts, rest, j) {
        Some(choose|j: int| is_start_choice(opts, rest, j))
    } else {
        None
    }
}

/// One step of the heuristic on `picks` with `rest` still to place: the next
/// combination and what is then left, or `None` where the heuristic stops.
///
/// The slope of raising is the chosen entry's interest; the slope of
/// starting is the chosen option's gain at `start` divided by `start`. The
/// two are compared exactly, and raising wins only with the strictly higher
/// slope. The heuristic stops when nothing is left or both slopes are zero.
pub open spec fn greedy_step(opts: Seq<OptModel>, picks: Seq<Pick>, rest: nat) -> Option<
    (Seq<Pick>, nat),
> {
    let raise = raise_choice(picks);
    let start = start_choice(opts, rest);
    let raise_slope: nat = match raise {
        Some(k) => picks[k].opt.interest,
        None => 0,
    };
    let start_gain: nat = match start {
        Some(j) => opts[j].gain_for(opts[j].start),
        None => 0,
    };
    let start_amount: nat = match start {
        Some(j) => opts[j].start,
        None => 1,
    };
    if rest == 0 || (raise_slope == 0 && start_gain == 0) {
        None
    } else if raise_slope * start_amount > start_gain {
        let k = raise->0;
        let room = (picks[k].opt.end - picks[k].amount) as nat;
        let more = if room <= rest { room } else { rest };
        Some(
            (
                picks.update(k, Pick { opt: picks[k].opt, amount: picks[k].amount + more }),
                (rest - more) as nat,
            ),
        )
    } else {
        let j = start->0;
        let p = Pick { opt: opts[j], amount: opts[j].start };
        Some((picks.insert(insertion_index(picks, p), p), (rest - opts[j].start) as nat))
    }
}

/// The combination that the heuristic ends with, from `picks` with `rest`
/// still to place.
pub open spec fn greedy_run(opts: Seq<OptModel>, picks: Seq<Pick>, rest: nat) -> Seq<Pick>
    decreases rest,
{
    match greedy_step(opts, picks, rest) {
        Some((next, left)) => if left < rest {
            greedy_run(opts, next, left)
        } else {
            picks
        },
        None => picks,
    }
}

/// Every option starts at 1 or above.
pub open spec fn starts_positive(opts: Seq<OptModel>) -> bool {
    forall|j: int| 0 <= j < opts.len() ==> (#[trigger] opts[j]).start >= 1
}

/// Every option's range is in order: `start <= end`.
pub open spec fn ranges_ordered(opts: Seq<OptModel>) -> bool {
    forall|j: int| 0 <= j < opts.len() ==> (#[trigger] opts[j]).start <= opts[j].end
}

/// Whether every option starts at 1 or above: what `Greedy::solve` asks of
/// its options.
pub fn has_positive_starts(opts: &Vec<Opt>) -> (yes: bool)
    ensures
        yes == starts_positive(option_models(opts@)),
{
    let mut j: usize = 0;
    while j < opts.len()
        invariant
            j <= opts@.len(),
            forall|i: int| 0 <= i < j ==> (#[trigger] option_models(opts@)[i]).start >= 1,
        decreases opts@.len() - j,
    {
        if opts[j].start == 0 {
            assert(option_models(opts@)[j as int].start == 0);
            return false;
        }
        j += 1;
    }
    true
}

/// There is at most one entry to raise.
pub proof fn lemma_raise_choice(picks: Seq<Pick>, k: int)
    requires
        is_raise_choice(picks, k),
    ensures
        raise_choice(picks) == Some(k),
{
    let c = choose|c: int| is_raise_choice(picks, c);
    if c < k {
        assert(can_raise(picks[k]));
        assert(can_raise(picks[c]));
    } else if k < c {
        assert(can_raise(picks[k]));
        assert(can_raise(picks[c]));
    }
}

/// There is at most one option to start.
pub proof fn lemma_start_choice(opts: Seq<OptModel>, rest: nat, j: int)
    requires
        is_start_choice(opts, rest, j),
    ensures
        start_choice(opts, rest) == Some(j),
{
    let c = choose|c: int| is_start_choice(opts, rest, c);
    if c < j {
        assert(can_start(opts[j], rest));
        assert(can_start(opts[c], rest));
    } else if j < c {
        assert(can_start(opts[j], rest));
        assert(can_start(opts[c], rest));
    }
}

/// A step keeps a feasible combination feasible, and moves what it places
/// from `rest` into the combination.
pub proof fn lemma_greedy_step(opts: Seq<OptModel>, picks: Seq<Pick>, rest: nat)
    requires
        starts_positive(opts),
        ranges_ordered(opts),
        feasible(opts, picks),
    ensures
        match greedy_step(opts, picks, rest) {
            Some((next, left)) => {
                &&& feasible(opts, next)
                &&& left < rest
                &&& total_amount(next) + left == total_amount(picks) + rest
            },
            None => true,
        },
{
    if greedy_step(opts, picks, rest) is Some {
        let raise = raise_choice(picks);
        let start = start_choice(opts, rest);
        let raise_slope: nat = match raise {
            Some(k) => picks[k].opt.interest,
            None => 0,
        };
        let start_gain: nat = match start {
            Some(j) => opts[j].gain_for(opts[j].start),
            None => 0,
        };
        let start_amount: nat = match start {
            Some(j) => opts[j].start,
            None => 1,
        };
        if raise_slope * start_amount > start_gain {
            assert(raise is Some) by (nonlinear_arith)
                requires
                    raise_slope * start_amount > start_gain,
                    raise is None ==> raise_slope == 0,
            ;
            let k = raise->0;
            assert(is_raise_choice(picks, k));
            let room = (picks[k].opt.end - picks[k].amount) as nat;
            let more = if room <= rest { room } else { rest };
            let raised = Pick { opt: picks[k].opt, amount: picks[k].amount + more };
            assert(usable(opts, picks[k]));
            assert(usable(opts, raised));
            lemma_totals_update(picks, k, raised);
        } else {
            assert(start is Some) by (nonlinear_arith)
                requires
                    !(raise_slope * start_amount > start_gain),
                    !(raise_slope == 0 && start_gain == 0),
                    start is None ==> start_gain == 0 && start_amount == 1,
            ;
            let j = start->0;
            assert(is_start_choice(opts, rest, j));
            let started = Pick { opt: opts[j], amount: opts[j].start };
            assert(usable(opts, started));
            lemma_insertion_index(picks, started);
            lemma_feasible_insert(opts, picks, insertion_index(picks, started), started);
            lemma_totals_insert(picks, insertion_index(picks, started), started);
        }
    }
}

/// The heuristic ends with a feasible combination that spends no more than
/// it was given.
pub proof fn lemma_greedy_within(opts: Seq<OptModel>, picks: Seq<Pick>, rest: nat)
    requires
        starts_positive(opts),
        ranges_ordered(opts),
        feasible(opts, picks),
    ensures
        within(opts, total_amount(picks) + rest, greedy_run(opts, picks, rest)),
    decreases rest,
{
    match greedy_step(opts, picks, rest) {
        Some((next, left)) => {
            lemma_greedy_step(opts, picks, rest);
            lemma_greedy_within(opts, next, left);
        },
        None => {},
    }
}

/// `is_raise_choice` on the first `upto` entries.
spec fn raise_leader(picks: Seq<Pick>, upto: int, k: int) -> bool {
    &&& 0 <= k < upto
    &&& can_raise(picks[k])
    &&& forall|i: int|
        0 <= i < upto && can_raise(#[trigger] picks[i]) ==> raise_rank(picks[i]) <= raise_rank(
            picks[k],
        )
    &&& forall|i: int|
        k < i < upto && can_raise(#[trigger] picks[i]) ==> raise_rank(picks[i]) < raise_rank(
            picks[k],
        )
}

/// `is_start_choice` on the first `upto` options.
spec fn start_leader(opts: Seq<OptModel>, rest: nat, upto: int, j: int) -> bool {
    &&& 0 <= j < upto
    &&& can_start(opts[j], rest)
    &&& forall|i: int|
        0 <= i < upto && can_start(#[trigger] opts[i], rest) ==> start_rank(opts[i])
            <= start_rank(opts[j])
    &&& forall|i: int|
        j < i < upto && can_start(#[trigger] opts[i], rest) ==> start_rank(opts[i]) < start_rank(
            opts[j],
        )
}

/// The greedy solver.
pub struct Greedy<'a> {
    opts: &'a Vec<Opt>,
}

impl<'a> Greedy<'a> {
    /// The options that the solver was made with.
    pub closed spec fn options(&self) -> Seq<OptModel> {
        option_models(self.opts@)
    }

    /// A solver for `opts`.
    pub fn with_opts(opts: &'a Vec<Opt>) -> (solver: Self)
        ensures
            solver.options() == option_models(opts@),
    {
        Greedy { opts }
    }

    /// The entry of `combo` to raise, and its interest.
    fn best_raise(combo: &OptCombination<'a>) -> (found: Option<(usize, u32)>)
        ensures
            match found {
                Some((k, slope)) => raise_choice(combo@) == Some(k as int) && k < combo@.len()
                    && slope == combo@[k as int].opt.interest,
                None => raise_choice(combo@) is None,
            },
    {
        let mut found: Option<(usize, u32)> = None;
        let mut rank: u32 = 0;
        let mut k: usize = 0;
        while k < combo.len()
            invariant
                k <= combo@.len(),
                match found {
                    Some((b, slope)) => raise_leader(combo@, k as int, b as int) && rank
                        == raise_rank(combo@[b as int]) && slope == combo@[b as int].opt.interest,
                    None => forall|i: int| 0 <= i < k ==> !can_raise(#[trigger] combo@[i]),
                },
            decreases combo@.len() - k,
        {
            let pair = combo.get(k);
            if pair.1 < pair.0.end {
                let r = pair.0.interest / RANK_DIVISOR;
                if found.is_none() || r >= rank {
                    found = Some((k, pair.0.interest));
                    rank = r;
                }
            }
            k += 1;
        }
        proof {
            match found {
                Some((b, slope)) => {
                    assert(is_raise_choice(combo@, b as int));
                    lemma_raise_choice(combo@, b as int);
                },
                None => {
                    assert forall|c: int| !is_raise_choice(combo@, c) by {
                        if 0 <= c < combo@.len() {
                            assert(!can_raise(combo@[c]));
                        }
                    }
                },
            }
        }
        found
    }

    /// The option to start with `rest` left, with its gain at `start`.
    fn best_start(&self, rest: u32) -> (found: Option<(usize, u64)>)
        requires
            starts_positive(self.options()),
        ensures
            match found {
                Some((j, gain)) => start_choice(self.options(), rest as nat) == Some(j as int) && j
                    < self.options().len() && gain == self.options()[j as int].gain_for(
                    self.options()[j as int].start,
                ),
                None => start_choice(self.options(), rest as nat) is None,
            },
    {
        let ghost opts = self.options();
        let mut found: Option<(usize, u64)> = None;
        let mut rank: u64 = 0;
        let mut j: usize = 0;
        while j < self.opts.len()
            invariant
                j <= self.opts@.len(),
                opts == option_models(self.opts@),
                starts_positive(opts),
                match found {
                    Some((b, gain)) => start_leader(opts, rest as nat, j as int, b as int) && rank
                        == start_rank(opts[b as int]) && gain == opts[b as int].gain_for(
                        opts[b as int].start,
                    ),
                    None => forall|i: int| 0 <= i < j ==> !can_start(#[trigger] opts[i], rest as nat),
                },
            decreases self.opts@.len() - j,
        {
            let opt = &self.opts[j];
            assert(opt@ == opts[j as int]);
            if rest >= opt.start {
                let gain = opt.gain_for(opt.start);
                assert(RANK_DIVISOR * opt.start <= u64::MAX) by (nonlinear_arith)
                    requires
                        opt.start <= u32::MAX,
                        RANK_DIVISOR == 100,
                ;
                let r = gain / (RANK_DIVISOR as u64 * opt.start as u64);
                if found.is_none() || r >= rank {
                    found = Some((j, gain));
                    rank = r;
                }
            }
            j += 1;
        }
        proof {
            match found {
                Some((b, gain)) => {
                    assert(is_start_choice(opts, rest as nat, b as int));
                    lemma_start_choice(opts, rest as nat, b as int);
                },
                None => {
                    assert forall|c: int| !is_start_choice(opts, rest as nat, c) by {
                        if 0 <= c < opts.len() {
                            assert(!can_start(opts[c], rest as nat));
                        }
                    }
                },
            }
        }
        found
    }

    /// `solve` for any options: `None` where `n` is positive and some option
    /// starts at 0, so that the heuristic would never end.
    pub fn try_solve(&self, n: u32) -> (combo: Option<OptCombination<'a>>)
        ensures
            combo is Some <==> n == 0 || starts_positive(self.options()),
            combo matches Some(c) ==> {
                &&& c@ == greedy_run(self.options(), Seq::empty(), n as nat)
                &&& total_amount(c@) <= n
                &&& ranges_ordered(self.options()) ==> feasible(self.options(), c@)
            },
    {
        if n == 0 || has_positive_starts(self.opts) {
            Some(self.solve(n))
        } else {
            None
        }
    }

    /// The combination that the heuristic ends with for `n`: what
    /// `greedy_run` describes, step by step.
    pub fn solve(&self, n: u32) -> (combo: OptCombination<'a>)
        requires
            n == 0 || starts_positive(self.options()),
        ensures
            combo@ == greedy_run(self.options(), Seq::empty(), n as nat),
            total_amount(combo@) <= n,
            ranges_ordered(self.options()) ==> feasible(self.options(), combo@),
            n == 0 ==> combo@.len() == 0,
    {
        let ghost opts = self.options();
        let mut combo = OptCombination::new();
        let mut rem = n;
        while rem > 0
            invariant
                opts == self.options(),
                n == 0 || starts_positive(opts),
                greedy_run(opts, combo@, rem as nat) == greedy_run(opts, Seq::empty(), n as nat),
                total_amount(combo@) + rem == n,
                ranges_ordered(opts) ==> feasible(opts, combo@),
            ensures
                combo@ == greedy_run(opts, Seq::empty(), n as nat),
                total_amount(combo@) <= n,
                ranges_ordered(opts) ==> feasible(opts, combo@),
            decreases rem,
        {
            let raise = Self::best_raise(&combo);
            let start = self.best_start(rem);
            let raise_slope: u32 = match raise {
                Some((_, slope)) => slope,
                None => 0,
            };
            let start_gain: u64 = match start {
                Some((_, gain)) => gain,
                None => 0,
            };
            let start_amount: u32 = match start {
                Some((j, _)) => self.opts[j].start,
                None => 1,
            };
            if raise_slope == 0 && start_gain == 0 {
                break ;
            }
            assert(raise_slope * start_amount <= u64::MAX) by (nonlinear_arith)
                requires
                    raise_slope <= u32::MAX,
                    start_amount <= u32::MAX,
            ;
            let ghost before = combo@;
            let ghost rest = rem as nat;
            if raise_slope as u64 * start_amount as u64 > start_gain {
                // Raising has the strictly higher slope: the entry gets all
                // that it can take.
                assert(raise is Some) by {
                    if raise is None {
                        assert(raise_slope * start_amount == 0) by (nonlinear_arith)
                            requires
                                raise_slope == 0,
                        ;
                    }
                }
                let k = raise.unwrap().0;
                let pair = combo.get(k);
                assert(is_raise_choice(before, k as int));
                let room = pair.0.end - pair.1;
                let more = if room <= rem {
                    room
                } else {
                    rem
                };
                let pairs = combo.iter_mut();
                pairs[k] = (pair.0, pair.1 + more);
                rem -= more;
                proof {
                    let raised = Pick {
                        opt: before[k as int].opt,
                        amount: before[k as int].amount + more as nat,
                    };
                    assert(combo@ =~= before.update(k as int, raised));
                    assert(greedy_step(opts, before, rest) == Some((combo@, rem as nat)));
                    lemma_totals_update(before, k as int, raised);
                    if ranges_ordered(opts) {
                        assert(usable(opts, before[k as int]));
                        assert(usable(opts, raised));
                    }
                }
            } else {
                assert(start is Some) by {
                    if start is None {
                        assert(raise_slope * start_amount == raise_slope) by (nonlinear_arith)
                            requires
                                start_amount == 1,
                        ;
                    }
                }
                let j = start.unwrap().0;
                let opt = &self.opts[j];
                assert(opt@ == opts[j as int]);
                assert(is_start_choice(opts, rest, j as int));
                combo.add(opt, opt.start);
                rem -= opt.start;
                proof {
                    let started = Pick { opt: opts[j as int], amount: opts[j as int].start };
                    let at = insertion_index(before, started);
                    lemma_insertion_index(before, started);
                    assert(greedy_step(opts, before, rest) == Some((combo@, rem as nat)));
                    if ranges_ordered(opts) {
                        assert(usable(opts, started));
                        lemma_feasible_insert(opts, before, at, started);
                    }
                }
            }
        }
        combo
    }
}

} // verus!
