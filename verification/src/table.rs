//! What the optimised solver keeps: the options in ascending order of
//! `start`, and a table with one row per quantity. Both are fixed by the
//! options and the quantity alone, and are written down here as functions
//! of them.

use vstd::prelude::*;
use crate::lemmas::{
    lemma_exhausted_value, lemma_feasible_push, lemma_totals_push, same_members,
};
use crate::model::{
    best_value, candidate, exhausted, spent, total_value, usable, OptModel, Pick,
};

verus! {

/// The options come in ascending order of `start`.
pub open spec fn sorted_by_start(opts: Seq<OptModel>) -> bool {
    forall|i: int, j: int|
        0 <= i < j < opts.len() ==> (#[trigger] opts[i]).start <= (#[trigger] opts[j]).start
}

/// The first index of `sorted` whose option starts above `o`, or the length
/// of `sorted` where there is none.
pub open spec fn start_index(sorted: Seq<OptModel>, o: OptModel) -> int
    decreases sorted.len(),
{
    if sorted.len() == 0 {
        0
    } else if sorted.first().start > o.start {
        0
    } else {
        1 + start_index(sorted.drop_first(), o)
    }
}

/// The options in ascending order of `start`; options with the same `start`
/// keep the order in which they were given.
pub open spec fn in_start_order(opts: Seq<OptModel>) -> Seq<OptModel>
    decreases opts.len(),
{
    if opts.len() == 0 {
        Seq::empty()
    } else {
        let done = in_start_order(opts.drop_last());
        done.insert(start_index(done, opts.last()), opts.last())
    }
}

/// Where the start index lies, and what it separates.
pub proof fn lemma_start_index(sorted: Seq<OptModel>, o: OptModel)
    ensures
        0 <= start_index(sorted, o) <= sorted.len(),
        forall|k: int| 0 <= k < start_index(sorted, o) ==> (#[trigger] sorted[k]).start <= o.start,
        start_index(sorted, o) < sorted.len() ==> sorted[start_index(sorted, o)].start > o.start,
    decreases sorted.len(),
{
    if sorted.len() > 0 && sorted.first().start <= o.start {
        let rest = sorted.drop_first();
        lemma_start_index(rest, o);
        assert forall|k: int| 0 <= k < start_index(sorted, o) implies (#[trigger] sorted[k]).start
            <= o.start by {
            if k > 0 {
                assert(sorted[k] == rest[k - 1]);
            }
        }
    }
}

/// An index with the two properties above is the start index.
pub proof fn lemma_start_index_unique(sorted: Seq<OptModel>, o: OptModel, pos: int)
    requires
        0 <= pos <= sorted.len(),
        forall|k: int| 0 <= k < pos ==> (#[trigger] sorted[k]).start <= o.start,
        pos < sorted.len() ==> sorted[pos].start > o.start,
    ensures
        pos == start_index(sorted, o),
    decreases sorted.len(),
{
    if sorted.len() > 0 && pos > 0 {
        let rest = sorted.drop_first();
        assert(sorted[0].start <= o.start);
        assert forall|k: int| 0 <= k < pos - 1 implies (#[trigger] rest[k]).start <= o.start by {
            assert(rest[k] == sorted[k + 1]);
        }
        lemma_start_index_unique(rest, o, pos - 1);
    }
}

/// The options in start order are in ascending order of `start`, and they
/// are the given options, each as often as it was given.
pub proof fn lemma_in_start_order(opts: Seq<OptModel>)
    ensures
        sorted_by_start(in_start_order(opts)),
        in_start_order(opts).len() == opts.len(),
        in_start_order(opts).to_multiset() == opts.to_multiset(),
        same_members(in_start_order(opts), opts),
    decreases opts.len(),
{
    broadcast use vstd::seq_lib::group_to_multiset_ensures;

    if opts.len() == 0 {
        assert(in_start_order(opts) =~= opts);
    } else {
        let front = opts.drop_last();
        let o = opts.last();
        let done = in_start_order(front);
        lemma_in_start_order(front);
        lemma_start_index(done, o);
        let at = start_index(done, o);
        let out = done.insert(at, o);
        assert forall|i: int, j: int| 0 <= i < j < out.len() implies (#[trigger] out[i]).start <= (
        #[trigger] out[j]).start by {
            let oi = if i < at { i } else { i - 1 };
            let oj = if j < at { j } else { j - 1 };
            if i != at {
                assert(out[i] == done[oi]);
            }
            if j != at {
                assert(out[j] == done[oj]);
            }
            if i == at && oj > at {
                assert(done[at].start <= done[oj].start);
            }
        }
        assert(out.remove(at) =~= done);
        vstd::seq_lib::to_multiset_remove(out, at);
        assert(out[at] == o);
        assert(out.to_multiset() =~= done.to_multiset().insert(o));
        assert(front.push(o) =~= opts);
        assert(opts.to_multiset() =~= front.to_multiset().insert(o));
    }
    let a = in_start_order(opts);
    assert forall|x: OptModel|
        #![trigger a.contains(x)]
        #![trigger opts.contains(x)]
        a.contains(x) <==> opts.contains(x) by {
        assert(a.contains(x) <==> a.to_multiset().count(x) > 0);
        assert(opts.contains(x) <==> opts.to_multiset().count(x) > 0);
    }
}

/// In the order of the scan, amount `a` with option `j` comes before amount
/// `b` with option `k`.
pub open spec fn scanned_before(a: nat, j: int, b: nat, k: int) -> bool {
    a < b || (a == b && j < k)
}

/// What candidate `(a, j)` leads to: the optimum for `n - a` and the gain of
/// `a` in option `j`.
pub open spec fn lead_of(opts: Seq<OptModel>, n: nat, a: nat, j: int) -> nat {
    best_value(opts, (n - a) as nat) + opts[j].gain_for(a)
}

/// Candidate `(a, j)` is the first, in the order of the scan, that leads to
/// the optimum for `n`.
pub open spec fn is_first_best(opts: Seq<OptModel>, n: nat, a: nat, j: int) -> bool {
    &&& candidate(opts, n, j, a)
    &&& lead_of(opts, n, a, j) == best_value(opts, n)
    &&& forall|b: nat, k: int|
        #[trigger] candidate(opts, n, k, b) && scanned_before(b, k, a, j) ==> lead_of(opts, n, b, k)
            < best_value(opts, n)
}

/// The candidate that the row for `n` is built on, if there is any
/// candidate.
pub open spec fn first_best(opts: Seq<OptModel>, n: nat) -> Option<(nat, int)> {
    if exists|a: nat, j: int| is_first_best(opts, n, a, j) {
        Some(choose|a: nat, j: int| is_first_best(opts, n, a, j))
    } else {
        None
    }
}

/// The combination in row `n` of the table: the combination of row `n - a`
/// with the pair of the first best candidate `(a, j)` appended, and the
/// empty combination where there is no candidate.
pub open spec fn table_row(opts: Seq<OptModel>, n: nat) -> Seq<Pick>
    decreases n,
{
    match first_best(opts, n) {
        Some((a, j)) => if 1 <= a <= n {
            table_row(opts, (n - a) as nat).push(Pick { opt: opts[j], amount: a })
        } else {
            Seq::empty()
        },
        None => Seq::empty(),
    }
}

/// What row `k` of the table holds: the combination `table_row(opts, k)`,
/// which spends `k` as far as it can be spent, and its value, which is the
/// optimum for `k`.
pub open spec fn entry_ok(opts: Seq<OptModel>, k: nat, picks: Seq<Pick>, value: nat) -> bool {
    &&& picks == table_row(opts, k)
    &&& spent(opts, k, picks)
    &&& total_value(picks) == value
    &&& value == best_value(opts, k)
}

/// There is at most one first best candidate.
pub proof fn lemma_first_best(opts: Seq<OptModel>, n: nat, a: nat, j: int)
    requires
        is_first_best(opts, n, a, j),
    ensures
        first_best(opts, n) == Some((a, j)),
{
    let (b, k) = choose|b: nat, k: int| is_first_best(opts, n, b, k);
    if scanned_before(b, k, a, j) {
        assert(candidate(opts, n, k, b));
    } else if scanned_before(a, j, b, k) {
        assert(candidate(opts, n, j, a));
    }
}

/// Where nothing can be placed, there is no first best candidate.
pub proof fn lemma_no_first_best(opts: Seq<OptModel>, n: nat)
    requires
        exhausted(opts, n),
    ensures
        first_best(opts, n) is None,
{
    assert forall|a: nat, j: int| !is_first_best(opts, n, a, j) by {
        if candidate(opts, n, j, a) {
            assert(opts[j].accepts(a));
        }
    }
}

/// The row for `n` from the row for `n - a`, where `(a, j)` is the first best
/// candidate.
pub proof fn lemma_row_extend(
    opts: Seq<OptModel>,
    n: nat,
    a: nat,
    j: int,
    rest: Seq<Pick>,
    value: nat,
)
    requires
        is_first_best(opts, n, a, j),
        entry_ok(opts, (n - a) as nat, rest, value),
    ensures
        entry_ok(
            opts,
            n,
            rest.push(Pick { opt: opts[j], amount: a }),
            value + opts[j].gain_for(a),
        ),
{
    let p = Pick { opt: opts[j], amount: a };
    lemma_first_best(opts, n, a, j);
    assert(usable(opts, p));
    lemma_feasible_push(opts, rest, p);
    lemma_totals_push(rest, p);
}

/// The empty row, where nothing can be placed.
pub proof fn lemma_row_empty(opts: Seq<OptModel>, n: nat)
    requires
        exhausted(opts, n),
    ensures
        entry_ok(opts, n, Seq::empty(), 0),
{
    lemma_no_first_best(opts, n);
    lemma_exhausted_value(opts, n);
}

} // verus!
