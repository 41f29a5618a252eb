//! Facts about the model: sums, feasibility, and the optimum.

use vstd::prelude::*;
use crate::model::{
    best_value, best_within, candidate, exhausted, feasible, spent, total_amount,
    total_value, usable, within, OptModel, Pick,
};

verus! {

/// One more entry at the end adds its amount and its gain to the totals.
pub proof fn lemma_totals_push(picks: Seq<Pick>, p: Pick)
    ensures
        total_amount(picks.push(p)) == total_amount(picks) + p.amount,
        total_value(picks.push(p)) == total_value(picks) + p.gain(),
{
    assert(picks.push(p).drop_last() =~= picks);
}

/// The totals of one entry are its amount and its gain.
pub proof fn lemma_totals_single(p: Pick)
    ensures
        total_amount(seq![p]) == p.amount,
        total_value(seq![p]) == p.gain(),
{
    lemma_totals_push(Seq::empty(), p);
    assert(seq![p] =~= Seq::<Pick>::empty().push(p));
}

/// One more entry, wherever it is put, adds its amount and its gain to the
/// totals.
pub proof fn lemma_totals_insert(picks: Seq<Pick>, pos: int, p: Pick)
    requires
        0 <= pos <= picks.len(),
    ensures
        total_amount(picks.insert(pos, p)) == total_amount(picks) + p.amount,
        total_value(picks.insert(pos, p)) == total_value(picks) + p.gain(),
    decreases picks.len(),
{
    if pos == picks.len() {
        assert(picks.insert(pos, p) =~= picks.push(p));
        lemma_totals_push(picks, p);
    } else {
        assert(picks.insert(pos, p).drop_last() =~= picks.drop_last().insert(pos, p));
        assert(picks.insert(pos, p).last() == picks.last());
        lemma_totals_insert(picks.drop_last(), pos, p);
    }
}

/// Replacing an entry exchanges its amount and its gain in the totals.
pub proof fn lemma_totals_update(picks: Seq<Pick>, k: int, p: Pick)
    requires
        0 <= k < picks.len(),
    ensures
        total_amount(picks.update(k, p)) + picks[k].amount == total_amount(picks) + p.amount,
        total_value(picks.update(k, p)) + picks[k].gain() == total_value(picks) + p.gain(),
    decreases picks.len(),
{
    if k == picks.len() - 1 {
        assert(picks.update(k, p).drop_last() =~= picks.drop_last());
    } else {
        assert(picks.update(k, p).drop_last() =~= picks.drop_last().update(k, p));
        lemma_totals_update(picks.drop_last(), k, p);
    }
}

/// An entry's amount is part of the total.
pub proof fn lemma_amount_in_total(picks: Seq<Pick>, k: int)
    requires
        0 <= k < picks.len(),
    ensures
        picks[k].amount <= total_amount(picks),
    decreases picks.len(),
{
    if k < picks.len() - 1 {
        lemma_amount_in_total(picks.drop_last(), k);
    }
}

/// One more usable entry at the end keeps a combination feasible.
pub proof fn lemma_feasible_push(opts: Seq<OptModel>, picks: Seq<Pick>, p: Pick)
    requires
        feasible(opts, picks),
        usable(opts, p),
    ensures
        feasible(opts, picks.push(p)),
{
}

/// One more usable entry, wherever it is put, keeps a combination feasible.
pub proof fn lemma_feasible_insert(opts: Seq<OptModel>, picks: Seq<Pick>, pos: int, p: Pick)
    requires
        feasible(opts, picks),
        usable(opts, p),
        0 <= pos <= picks.len(),
    ensures
        feasible(opts, picks.insert(pos, p)),
{
}

/// One more entry, anywhere in a combination that spends `n - a` as far as
/// it can be spent, gives one that spends `n` as far as it can be spent.
pub proof fn lemma_spent_insert(
    opts: Seq<OptModel>,
    n: nat,
    j: int,
    a: nat,
    rest: Seq<Pick>,
    pos: int,
)
    requires
        candidate(opts, n, j, a),
        spent(opts, (n - a) as nat, rest),
        0 <= pos <= rest.len(),
    ensures
        spent(opts, n, rest.insert(pos, Pick { opt: opts[j], amount: a })),
        total_value(rest.insert(pos, Pick { opt: opts[j], amount: a })) == total_value(rest)
            + opts[j].gain_for(a),
{
    let p = Pick { opt: opts[j], amount: a };
    assert(usable(opts, p));
    lemma_feasible_insert(opts, rest, pos, p);
    lemma_totals_insert(rest, pos, p);
}

/// The sum of `interest + bonus` over `opts`: no option pays more than this
/// for one unit.
pub open spec fn rate_cap(opts: Seq<OptModel>) -> nat
    decreases opts.len(),
{
    if opts.len() == 0 {
        0
    } else {
        rate_cap(opts.drop_last()) + opts.last().interest + opts.last().bonus
    }
}

/// No option of `opts` pays more than `cap` for one unit.
pub open spec fn rates_below(opts: Seq<OptModel>, cap: nat) -> bool {
    forall|j: int| 0 <= j < opts.len() ==> (#[trigger] opts[j]).interest + opts[j].bonus <= cap
}

/// Each option's rate is part of the sum of the rates.
proof fn lemma_rate_cap(opts: Seq<OptModel>, j: int)
    requires
        0 <= j < opts.len(),
    ensures
        opts[j].interest + opts[j].bonus <= rate_cap(opts),
    decreases opts.len(),
{
    if j < opts.len() - 1 {
        lemma_rate_cap(opts.drop_last(), j);
    }
}

/// A usable entry gains at most its amount times the highest rate.
proof fn lemma_gain_cap(opts: Seq<OptModel>, p: Pick, cap: nat)
    requires
        usable(opts, p),
        rates_below(opts, cap),
    ensures
        p.gain() <= p.amount * cap,
{
    let j = choose|j: int| 0 <= j < opts.len() && opts[j] == p.opt;
    assert(opts[j].interest + opts[j].bonus <= cap);
    let a = p.amount as int;
    let i = p.opt.interest as int;
    let b = p.opt.bonus as int;
    let c = cap as int;
    assert(a * i + b <= a * c) by (nonlinear_arith)
        requires
            a >= 1,
            i >= 0,
            b >= 0,
            i + b <= c,
    ;
}

/// A feasible combination is worth at most its amount times the highest
/// rate.
pub proof fn lemma_value_cap(opts: Seq<OptModel>, picks: Seq<Pick>, cap: nat)
    requires
        feasible(opts, picks),
        rates_below(opts, cap),
    ensures
        total_value(picks) <= total_amount(picks) * cap,
    decreases picks.len(),
{
    if picks.len() > 0 {
        lemma_value_cap(opts, picks.drop_last(), cap);
        lemma_gain_cap(opts, picks.last(), cap);
        let t = total_amount(picks.drop_last()) as int;
        let a = picks.last().amount as int;
        let c = cap as int;
        assert((t + a) * c == t * c + a * c) by (nonlinear_arith);
    }
}

/// A combination within `n` is worth at most `n` times the highest rate.
pub proof fn lemma_value_cap_within(opts: Seq<OptModel>, n: nat, picks: Seq<Pick>, cap: nat)
    requires
        within(opts, n, picks),
        rates_below(opts, cap),
    ensures
        total_value(picks) <= n * cap,
{
    lemma_value_cap(opts, picks, cap);
    let t = total_amount(picks) as int;
    let c = cap as int;
    assert(t * c <= n * c) by (nonlinear_arith)
        requires
            0 <= t <= n,
            c >= 0,
    ;
}

/// From any combination within `n`, a walk to ever more valuable ones ends
/// at a best one, since the values are bounded.
proof fn lemma_climb(opts: Seq<OptModel>, n: nat, p: Seq<Pick>, bound: nat)
    requires
        within(opts, n, p),
        forall|q: Seq<Pick>| #[trigger] within(opts, n, q) ==> total_value(q) <= bound,
    ensures
        exists|b: Seq<Pick>| best_within(opts, n, b),
    decreases bound - total_value(p),
{
    if !best_within(opts, n, p) {
        let q = choose|q: Seq<Pick>| #[trigger]
            within(opts, n, q) && total_value(q) > total_value(p);
        lemma_climb(opts, n, q, bound);
    }
}

/// Some combination within `n` is worth at least as much as every other.
pub proof fn lemma_best_exists(opts: Seq<OptModel>, n: nat)
    ensures
        exists|b: Seq<Pick>| best_within(opts, n, b),
{
    assert forall|j: int| 0 <= j < opts.len() implies (#[trigger] opts[j]).interest
        + opts[j].bonus <= rate_cap(opts) by {
        lemma_rate_cap(opts, j);
    }
    assert forall|q: Seq<Pick>| #[trigger] within(opts, n, q) implies total_value(q) <= n
        * rate_cap(opts) by {
        lemma_value_cap_within(opts, n, q, rate_cap(opts));
    }
    assert(within(opts, n, Seq::<Pick>::empty()));
    lemma_climb(opts, n, Seq::<Pick>::empty(), n * rate_cap(opts));
}

/// No combination within `n` is worth more than `best_value(opts, n)`.
pub proof fn lemma_best_value_is_max(opts: Seq<OptModel>, n: nat, picks: Seq<Pick>)
    requires
        within(opts, n, picks),
    ensures
        total_value(picks) <= best_value(opts, n),
{
    lemma_best_exists(opts, n);
}

/// A combination within `n` is a best one exactly when it reaches
/// `best_value(opts, n)`.
pub proof fn lemma_best_iff_value(opts: Seq<OptModel>, n: nat, picks: Seq<Pick>)
    requires
        within(opts, n, picks),
    ensures
        best_within(opts, n, picks) <==> total_value(picks) == best_value(opts, n),
{
    lemma_best_exists(opts, n);
    let b = choose|b: Seq<Pick>| best_within(opts, n, b);
    if total_value(picks) == best_value(opts, n) {
        assert forall|other: Seq<Pick>| #[trigger] within(opts, n, other) implies total_value(
            other,
        ) <= total_value(picks) by {}
    }
}

/// The optimum for `n` is at most `n` times the highest rate.
pub proof fn lemma_best_value_cap(opts: Seq<OptModel>, n: nat, cap: nat)
    requires
        rates_below(opts, cap),
    ensures
        best_value(opts, n) <= n * cap,
{
    lemma_best_exists(opts, n);
    let b = choose|b: Seq<Pick>| best_within(opts, n, b);
    lemma_value_cap_within(opts, n, b, cap);
}

/// Where nothing can be placed, only the empty combination is within `n`.
pub proof fn lemma_exhausted_empty(opts: Seq<OptModel>, n: nat, picks: Seq<Pick>)
    requires
        exhausted(opts, n),
        within(opts, n, picks),
    ensures
        picks.len() == 0,
{
    if picks.len() > 0 {
        let p = picks[0];
        assert(usable(opts, p));
        lemma_amount_in_total(picks, 0);
        let j = choose|j: int| 0 <= j < opts.len() && opts[j] == p.opt;
        assert(opts[j].accepts(p.amount));
    }
}

/// Where nothing can be placed, the optimum is 0.
pub proof fn lemma_exhausted_value(opts: Seq<OptModel>, n: nat)
    requires
        exhausted(opts, n),
    ensures
        best_value(opts, n) == 0,
{
    lemma_best_exists(opts, n);
    let b = choose|b: Seq<Pick>| best_within(opts, n, b);
    lemma_exhausted_empty(opts, n, b);
}

/// One step of the recurrence, from below: a best combination for `n - a`
/// with one more entry is within `n`.
pub proof fn lemma_step_lower(opts: Seq<OptModel>, n: nat, j: int, a: nat)
    requires
        candidate(opts, n, j, a),
    ensures
        best_value(opts, (n - a) as nat) + opts[j].gain_for(a) <= best_value(opts, n),
{
    let m = (n - a) as nat;
    lemma_best_exists(opts, m);
    let b = choose|b: Seq<Pick>| best_within(opts, m, b);
    let p = Pick { opt: opts[j], amount: a };
    lemma_totals_push(b, p);
    assert(usable(opts, p));
    lemma_feasible_push(opts, b, p);
    lemma_best_value_is_max(opts, n, b.push(p));
}

/// One step of the recurrence, from above: the optimum for `n` is 0, or is
/// reached by some option `j` taking some amount `a` on top of the optimum
/// for `n - a`.
pub proof fn lemma_step_upper(opts: Seq<OptModel>, n: nat) -> (w: (int, nat))
    ensures
        best_value(opts, n) == 0 || (candidate(opts, n, w.0, w.1) && best_value(opts, n)
            == best_value(opts, (n - w.1) as nat) + opts[w.0].gain_for(w.1)),
{
    lemma_best_exists(opts, n);
    let b = choose|b: Seq<Pick>| best_within(opts, n, b);
    if b.len() == 0 {
        (0, 0)
    } else {
        let p = b.last();
        let rest = b.drop_last();
        assert(usable(opts, p));
        let j = choose|j: int| 0 <= j < opts.len() && opts[j] == p.opt;
        let a = p.amount;
        lemma_amount_in_total(b, b.len() - 1);
        assert(candidate(opts, n, j, a));
        assert(feasible(opts, rest)) by {
            assert forall|k: int| 0 <= k < rest.len() implies usable(opts, #[trigger] rest[k]) by {
                assert(rest[k] == b[k]);
            }
        }
        lemma_best_value_is_max(opts, (n - a) as nat, rest);
        lemma_step_lower(opts, n, j, a);
        (j, a)
    }
}

/// The two lists hold the same options, in whatever order and number.
pub open spec fn same_members(a: Seq<OptModel>, b: Seq<OptModel>) -> bool {
    forall|o: OptModel|
        #![trigger a.contains(o)]
        #![trigger b.contains(o)]
        a.contains(o) <==> b.contains(o)
}

/// Lists of the same options make the same combinations feasible.
pub proof fn lemma_members_feasible(a: Seq<OptModel>, b: Seq<OptModel>, picks: Seq<Pick>)
    requires
        same_members(a, b),
    ensures
        feasible(a, picks) <==> feasible(b, picks),
{
    if feasible(a, picks) {
        assert forall|k: int| 0 <= k < picks.len() implies usable(b, #[trigger] picks[k]) by {
            assert(usable(a, picks[k]));
        }
    }
    if feasible(b, picks) {
        assert forall|k: int| 0 <= k < picks.len() implies usable(a, #[trigger] picks[k]) by {
            assert(usable(b, picks[k]));
        }
    }
}

/// What is exhausted for one list is exhausted for a list of the same
/// options.
proof fn lemma_members_exhausted_one_way(a: Seq<OptModel>, b: Seq<OptModel>, rest: nat)
    requires
        same_members(a, b),
        exhausted(a, rest),
    ensures
        exhausted(b, rest),
{
    assert forall|j: int, x: nat| 0 <= j < b.len() && 1 <= x <= rest implies !(
    #[trigger] b[j].accepts(x)) by {
        assert(b.contains(b[j]));
        let i = choose|i: int| 0 <= i < a.len() && a[i] == b[j];
        assert(!a[i].accepts(x));
    }
}

/// Lists of the same options are exhausted by the same quantities.
pub proof fn lemma_members_exhausted(a: Seq<OptModel>, b: Seq<OptModel>, rest: nat)
    requires
        same_members(a, b),
    ensures
        exhausted(a, rest) <==> exhausted(b, rest),
{
    if exhausted(a, rest) {
        lemma_members_exhausted_one_way(a, b, rest);
    }
    if exhausted(b, rest) {
        lemma_members_exhausted_one_way(b, a, rest);
    }
}

/// Lists of the same options have the same best combinations.
pub proof fn lemma_members_best(a: Seq<OptModel>, b: Seq<OptModel>, n: nat, picks: Seq<Pick>)
    requires
        same_members(a, b),
    ensures
        best_within(a, n, picks) <==> best_within(b, n, picks),
{
    lemma_members_feasible(a, b, picks);
    assert forall|other: Seq<Pick>| within(a, n, other) <==> within(b, n, other) by {
        lemma_members_feasible(a, b, other);
    }
}

} // verus!
