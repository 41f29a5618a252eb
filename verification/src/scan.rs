//! The scan that every exact solver makes for a quantity `n`: each amount
//! `a` from 1 to `n`, and for each amount the options in their order. What
//! the scan has seen so far is summed up in one number, the best value that
//! a seen candidate leads to.

use vstd::prelude::*;
use crate::lemmas::{
    lemma_best_iff_value, lemma_best_value_is_max, lemma_exhausted_value, lemma_step_upper,
};
use crate::model::{
    best_value, best_within, candidate, exhausted, spent, total_value, OptModel, Pick,
};

verus! {

/// Every candidate that the scan meets before amount `i` and option `oi`
/// leads to at most `best`. With a negative `best`, it meets none.
pub open spec fn scanned(opts: Seq<OptModel>, n: nat, i: nat, oi: int, best: int) -> bool {
    forall|a: nat, j: int|
        #[trigger] candidate(opts, n, j, a) && (a < i || (a == i && j < oi)) ==> best_value(
            opts,
            (n - a) as nat,
        ) + opts[j].gain_for(a) <= best
}

/// Before amount 1 the scan has met nothing.
pub proof fn lemma_scan_begin(opts: Seq<OptModel>, n: nat, best: int)
    ensures
        scanned(opts, n, 1, 0, best),
{
}

/// The scan moves from one option to the next: either the option does not
/// take amount `i`, or what it leads to is at most `best`.
pub proof fn lemma_scan_option(opts: Seq<OptModel>, n: nat, i: nat, oi: int, best: int)
    requires
        scanned(opts, n, i, oi, best),
        candidate(opts, n, oi, i) ==> best_value(opts, (n - i) as nat) + opts[oi].gain_for(i)
            <= best,
    ensures
        scanned(opts, n, i, oi + 1, best),
{
}

/// A higher `best` covers what a lower one did.
pub proof fn lemma_scan_raise(opts: Seq<OptModel>, n: nat, i: nat, oi: int, low: int, high: int)
    requires
        scanned(opts, n, i, oi, low),
        low <= high,
    ensures
        scanned(opts, n, i, oi, high),
{
}

/// The scan moves from one amount to the next once no option from `stop` on
/// takes amount `i`.
pub proof fn lemma_scan_amount(opts: Seq<OptModel>, n: nat, i: nat, stop: int, best: int)
    requires
        scanned(opts, n, i, stop, best),
        forall|j: int| stop <= j < opts.len() ==> !(#[trigger] opts[j]).accepts(i),
    ensures
        scanned(opts, n, i + 1, 0, best),
{
}

/// After the last amount, a scan that met no candidate shows that nothing
/// can be placed.
pub proof fn lemma_scan_nothing(opts: Seq<OptModel>, n: nat, i: nat, best: int)
    requires
        scanned(opts, n, i, 0, best),
        i > n,
        best < 0,
    ensures
        exhausted(opts, n),
        best_value(opts, n) == 0,
{
    assert forall|j: int, a: nat| 0 <= j < opts.len() && 1 <= a <= n implies !(
    #[trigger] opts[j].accepts(a)) by {
        if opts[j].accepts(a) {
            assert(candidate(opts, n, j, a));
        }
    }
    lemma_exhausted_value(opts, n);
}

/// After the last amount, `best` is at least the optimum for `n`.
pub proof fn lemma_scan_end(opts: Seq<OptModel>, n: nat, i: nat, best: int)
    requires
        scanned(opts, n, i, 0, best),
        i > n,
        best >= 0,
    ensures
        best_value(opts, n) <= best,
{
    let w = lemma_step_upper(opts, n);
    if best_value(opts, n) != 0 {
        assert(candidate(opts, n, w.0, w.1));
    }
}

/// After the last amount, a combination within `n` that is worth `best` is
/// a best one.
pub proof fn lemma_scan_best(opts: Seq<OptModel>, n: nat, i: nat, picks: Seq<Pick>)
    requires
        scanned(opts, n, i, 0, total_value(picks) as int),
        i > n,
        spent(opts, n, picks),
    ensures
        best_within(opts, n, picks),
        total_value(picks) == best_value(opts, n),
{
    lemma_scan_end(opts, n, i, total_value(picks) as int);
    lemma_best_value_is_max(opts, n, picks);
    lemma_best_iff_value(opts, n, picks);
}

} // verus!
