//! What holds of the solvers as a whole, stated over the predicates that
//! their contracts use.

use vstd::prelude::*;
use crate::greedy::{greedy_run, lemma_greedy_within, ranges_ordered, starts_positive};
use crate::lemmas::{
    lemma_best_exists, lemma_best_value_is_max, lemma_exhausted_empty, lemma_exhausted_value,
    lemma_feasible_push, lemma_totals_insert, lemma_totals_push,
};
use crate::model::{
    best_value, best_within, exhausted, feasible, spent, total_amount, total_value, usable,
    within, OptModel, Pick,
};
use crate::solution_set::{
    complete, grown, holds, lemma_holds_same, member_ok, members_ok, set_for,
};
use crate::order::{
    canonical, key_of, keys, lemma_insert_keeps_canonical, lemma_pick_irreflexive,
    lemma_pick_total, lemma_with_pick_keys, pick_precedes, same_entries, with_pick,
};

verus! {

/// Two best combinations for the same options and the same quantity are
/// worth the same, whichever solvers they come from: the exact solvers agree
/// in value.
pub proof fn law_best_values_agree(
    opts: Seq<OptModel>,
    n: nat,
    first: Seq<Pick>,
    second: Seq<Pick>,
)
    requires
        best_within(opts, n, first),
        best_within(opts, n, second),
    ensures
        total_value(first) == total_value(second),
        total_value(first) == best_value(opts, n),
{
    lemma_best_value_is_max(opts, n, first);
    lemma_best_exists(opts, n);
}

/// A best combination for `n` without one of its entries is a best
/// combination for `n` less that entry's amount: a best combination is made
/// of best combinations for smaller quantities.
pub proof fn law_optimal_substructure(opts: Seq<OptModel>, n: nat, picks: Seq<Pick>, k: int)
    requires
        best_within(opts, n, picks),
        0 <= k < picks.len(),
    ensures
        picks[k].amount <= n,
        best_within(opts, (n - picks[k].amount) as nat, picks.remove(k)),
        total_value(picks) == total_value(picks.remove(k)) + picks[k].gain(),
{
    let p = picks[k];
    let rest = picks.remove(k);
    let m = (n - p.amount) as nat;
    assert(usable(opts, p));
    assert(rest.insert(k, p) =~= picks);
    lemma_totals_insert(rest, k, p);
    assert forall|i: int| 0 <= i < rest.len() implies usable(opts, #[trigger] rest[i]) by {
        if i < k {
            assert(rest[i] == picks[i]);
        } else {
            assert(rest[i] == picks[i + 1]);
        }
    }
    assert forall|other: Seq<Pick>| #[trigger] within(opts, m, other) implies total_value(other)
        <= total_value(rest) by {
        lemma_totals_push(other, p);
        lemma_feasible_push(opts, other, p);
        assert(within(opts, n, other.push(p)));
    }
}

/// A solver asked twice for the same quantity answers with combinations of
/// the same value: what the first call left behind does not change what the
/// second one finds.
pub proof fn law_repeat_agrees(opts: Seq<OptModel>, n: nat, first: Seq<Pick>, second: Seq<Pick>)
    requires
        best_within(opts, n, first),
        best_within(opts, n, second),
    ensures
        total_value(first) == total_value(second),
{
    law_best_values_agree(opts, n, first, second);
}

/// Every entry of a combination that a solver returns names an option of the
/// list with an amount that the option accepts, and the amounts add up to at
/// most `n`. Where some option takes the amount 1, they add up to `n`.
pub proof fn law_spent_in_full(opts: Seq<OptModel>, n: nat, picks: Seq<Pick>)
    requires
        spent(opts, n, picks),
    ensures
        forall|k: int|
            0 <= k < picks.len() ==> opts.contains((#[trigger] picks[k]).opt) && picks[k].opt.accepts(
                picks[k].amount,
            ),
        total_amount(picks) <= n,
        (exists|j: int| 0 <= j < opts.len() && (#[trigger] opts[j]).accepts(1)) ==> total_amount(
            picks,
        ) == n,
{
    assert forall|k: int| 0 <= k < picks.len() implies opts.contains((#[trigger] picks[k]).opt)
        && picks[k].opt.accepts(picks[k].amount) by {
        assert(usable(opts, picks[k]));
    }
    if exists|j: int| 0 <= j < opts.len() && (#[trigger] opts[j]).accepts(1) {
        let j = choose|j: int| 0 <= j < opts.len() && (#[trigger] opts[j]).accepts(1);
        if total_amount(picks) < n {
            assert(opts[j].accepts(1nat));
        }
    }
}

/// For the quantity 0 there is only the empty combination, and it is worth
/// 0.
pub proof fn law_nothing_for_zero(opts: Seq<OptModel>, picks: Seq<Pick>)
    requires
        within(opts, 0, picks),
    ensures
        picks.len() == 0,
        total_value(picks) == 0,
        best_value(opts, 0) == 0,
{
    assert(exhausted(opts, 0));
    lemma_exhausted_empty(opts, 0, picks);
    lemma_exhausted_value(opts, 0);
}

/// `high` is `low` with some interests or bonuses raised: the same options in
/// the same places, none paying less.
pub open spec fn raised(low: Seq<OptModel>, high: Seq<OptModel>) -> bool {
    &&& low.len() == high.len()
    &&& forall|j: int|
        0 <= j < low.len() ==> {
            &&& (#[trigger] low[j]).name == high[j].name
            &&& low[j].start == high[j].start
            &&& low[j].end == high[j].end
            &&& low[j].interest <= high[j].interest
            &&& low[j].bonus <= high[j].bonus
        }
}

/// The place in the list of the option that entry `p` names.
pub open spec fn place_of(opts: Seq<OptModel>, p: Pick) -> int {
    choose|j: int| 0 <= j < opts.len() && opts[j] == p.opt
}

/// `picks` with each option of `low` replaced by the option of `high` in the
/// same place.
pub open spec fn lifted(low: Seq<OptModel>, high: Seq<OptModel>, picks: Seq<Pick>) -> Seq<Pick> {
    Seq::new(
        picks.len(),
        |k: int| Pick { opt: high[place_of(low, picks[k])], amount: picks[k].amount },
    )
}

/// A feasible combination lifted to the raised options is feasible there,
/// spends the same, and is worth at least as much.
proof fn lemma_lifted(low: Seq<OptModel>, high: Seq<OptModel>, picks: Seq<Pick>)
    requires
        raised(low, high),
        feasible(low, picks),
    ensures
        feasible(high, lifted(low, high, picks)),
        total_amount(lifted(low, high, picks)) == total_amount(picks),
        total_value(lifted(low, high, picks)) >= total_value(picks),
    decreases picks.len(),
{
    let up = lifted(low, high, picks);
    assert forall|k: int| 0 <= k < up.len() implies usable(high, #[trigger] up[k]) by {
        assert(usable(low, picks[k]));
        let j = place_of(low, picks[k]);
        assert(low[j] == picks[k].opt);
        assert(high[j] == up[k].opt);
    }
    if picks.len() > 0 {
        let rest = picks.drop_last();
        assert forall|k: int| 0 <= k < rest.len() implies usable(low, #[trigger] rest[k]) by {
            assert(rest[k] == picks[k]);
        }
        lemma_lifted(low, high, rest);
        assert(up.drop_last() =~= lifted(low, high, rest));
        let p = picks.last();
        assert(usable(low, p));
        let j = place_of(low, p);
        assert(low[j] == p.opt);
        assert(up.last().opt == high[j]);
        assert(p.amount * low[j].interest <= p.amount * high[j].interest) by (nonlinear_arith)
            requires
                low[j].interest <= high[j].interest,
        ;
    }
}

/// Raising an option's interest or bonus never lowers the optimum.
pub proof fn law_raise_never_hurts(low: Seq<OptModel>, high: Seq<OptModel>, n: nat)
    requires
        raised(low, high),
    ensures
        best_value(low, n) <= best_value(high, n),
{
    lemma_best_exists(low, n);
    let b = choose|b: Seq<Pick>| best_within(low, n, b);
    lemma_lifted(low, high, b);
    lemma_best_value_is_max(high, n, lifted(low, high, b));
}

/// What a set of acceptable members holds, a complete set holds.
proof fn lemma_held_by_complete(
    opts: Seq<OptModel>,
    n: nat,
    a: Seq<Seq<Pick>>,
    b: Seq<Seq<Pick>>,
    c: Seq<Pick>,
)
    requires
        members_ok(opts, n, a),
        complete(opts, n, b),
        holds(a, c),
    ensures
        holds(b, c),
{
    let k = choose|k: int| 0 <= k < a.len() && same_entries(#[trigger] a[k], c);
    assert(member_ok(opts, n, a[k]));
    assert(holds(b, a[k]));
    lemma_holds_same(b, a[k], c);
}

/// Two sets for the same options and the same quantity hold the same
/// combinations: the memo does not change what the enumeration finds.
pub proof fn law_same_sets(opts: Seq<OptModel>, n: nat, a: Seq<Seq<Pick>>, b: Seq<Seq<Pick>>)
    requires
        set_for(opts, n, a),
        set_for(opts, n, b),
    ensures
        grown(a, b),
        grown(b, a),
{
    assert forall|c: Seq<Pick>| #[trigger] holds(a, c) implies holds(b, c) by {
        lemma_held_by_complete(opts, n, a, b, c);
    }
    assert forall|c: Seq<Pick>| #[trigger] holds(b, c) implies holds(a, c) by {
        lemma_held_by_complete(opts, n, b, a, c);
    }
}

/// The greedy heuristic never beats the optimum.
pub proof fn law_greedy_bound(opts: Seq<OptModel>, n: nat)
    requires
        starts_positive(opts),
        ranges_ordered(opts),
    ensures
        total_value(greedy_run(opts, Seq::empty(), n)) <= best_value(opts, n),
{
    lemma_greedy_within(opts, Seq::empty(), n);
    lemma_best_value_is_max(opts, n, greedy_run(opts, Seq::empty(), n));
}

/// The first entry of a canonical combination is matched by no later entry
/// of another with the same names and amounts.
proof fn lemma_first_not_after(a: Seq<Pick>, b: Seq<Pick>)
    requires
        canonical(b),
        a.len() > 0,
        b.len() > 0,
        keys(a).to_multiset() == keys(b).to_multiset(),
    ensures
        !pick_precedes(a[0], b[0]),
{
    broadcast use vstd::seq_lib::group_to_multiset_ensures;

    let ka = keys(a);
    let kb = keys(b);
    assert(ka[0] == key_of(a[0]));
    assert(ka.contains(ka[0]));
    assert(kb.to_multiset().count(ka[0]) > 0);
    assert(kb.contains(ka[0]));
    let j = choose|j: int| 0 <= j < kb.len() && kb[j] == ka[0];
    assert(key_of(b[j]) == key_of(a[0]));
    if j > 0 {
        assert(!pick_precedes(b[j], b[0]));
    } else {
        lemma_pick_irreflexive(b[0]);
    }
}

/// Two canonical combinations of the same names and amounts, each as often
/// in the one as in the other, hold them in the same places: the order in
/// which a combination was built leaves no trace.
pub proof fn law_canonical_form(a: Seq<Pick>, b: Seq<Pick>)
    requires
        canonical(a),
        canonical(b),
        keys(a).to_multiset() == keys(b).to_multiset(),
    ensures
        same_entries(a, b),
    decreases a.len(),
{
    broadcast use vstd::seq_lib::group_to_multiset_ensures;

    let ka = keys(a);
    let kb = keys(b);
    assert(ka.len() == ka.to_multiset().len());
    assert(kb.len() == kb.to_multiset().len());
    if a.len() > 0 {
        lemma_first_not_after(a, b);
        lemma_first_not_after(b, a);
        lemma_pick_total(a[0], b[0]);
        let ta = a.drop_first();
        let tb = b.drop_first();
        assert(keys(ta) =~= ka.remove(0));
        assert(keys(tb) =~= kb.remove(0));
        assert(ka[0] == kb[0]);
        vstd::seq_lib::to_multiset_remove(ka, 0);
        vstd::seq_lib::to_multiset_remove(kb, 0);
        assert forall|i: int, j: int| 0 <= i < j < ta.len() implies !pick_precedes(
            #[trigger] ta[j],
            #[trigger] ta[i],
        ) by {
            assert(ta[j] == a[j + 1]);
            assert(ta[i] == a[i + 1]);
        }
        assert forall|i: int, j: int| 0 <= i < j < tb.len() implies !pick_precedes(
            #[trigger] tb[j],
            #[trigger] tb[i],
        ) by {
            assert(tb[j] == b[j + 1]);
            assert(tb[i] == b[i + 1]);
        }
        law_canonical_form(ta, tb);
        assert forall|k: int| 0 <= k < a.len() implies (#[trigger] a[k]).opt.name == (
        #[trigger] b[k]).opt.name && a[k].amount == b[k].amount by {
            if k > 0 {
                assert(ta[k - 1] == a[k]);
                assert(tb[k - 1] == b[k]);
            }
        }
    }
}

/// Two pairs added to a canonical combination in either order give the same
/// entries in the same places.
pub proof fn law_add_order_is_free(picks: Seq<Pick>, p: Pick, q: Pick)
    requires
        canonical(picks),
    ensures
        same_entries(with_pick(with_pick(picks, p), q), with_pick(with_pick(picks, q), p)),
{
    let pq = with_pick(with_pick(picks, p), q);
    let qp = with_pick(with_pick(picks, q), p);
    lemma_insert_keeps_canonical(picks, p);
    lemma_insert_keeps_canonical(with_pick(picks, p), q);
    lemma_insert_keeps_canonical(picks, q);
    lemma_insert_keeps_canonical(with_pick(picks, q), p);
    lemma_with_pick_keys(picks, p);
    lemma_with_pick_keys(with_pick(picks, p), q);
    lemma_with_pick_keys(picks, q);
    lemma_with_pick_keys(with_pick(picks, q), p);
    assert(keys(pq).to_multiset() =~= keys(qp).to_multiset());
    law_canonical_form(pq, qp);
}

} // verus!
