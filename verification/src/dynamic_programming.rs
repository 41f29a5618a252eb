//! Dynamic programming: the best combination for every quantity up to `n`,
//! each computed once from the best combinations for smaller quantities.

use vstd::prelude::*;
use crate::lemmas::{
    lemma_best_iff_value, lemma_best_value_cap, lemma_exhausted_empty, lemma_members_best,
    lemma_members_exhausted, lemma_members_feasible, lemma_spent_insert, lemma_step_lower,
    rates_below, same_members,
};
use crate::model::{
    best_value, best_within, candidate, exhausted, spent, total_amount, total_value, OptModel,
    Pick,
};
use crate::opt::{option_models, ref_models, Opt, OptCombination};
use crate::order::{canonical, insertion_index, lemma_insertion_index};
use crate::scan::{
    lemma_scan_amount, lemma_scan_begin, lemma_scan_best, lemma_scan_end, lemma_scan_nothing,
    lemma_scan_option, lemma_scan_raise, scanned,
};
use crate::table::{
    entry_ok, first_best, in_start_order, is_first_best, lead_of, lemma_first_best,
    lemma_in_start_order, lemma_no_first_best, lemma_row_empty, lemma_row_extend,
    lemma_start_index_unique, scanned_before, sorted_by_start, table_row,
};

verus! {

/// Every filled slot `k` of the memo holds a best combination for `k`, in
/// canonical order, which leaves nothing that could be placed.
spec fn memo_ok(opts: Seq<OptModel>, memo: Seq<Option<OptCombination>>) -> bool {
    forall|k: int|
        0 <= k < memo.len() ==> (#[trigger] memo[k] matches Some(c) ==> {
            &&& best_within(opts, k as nat, c@)
            &&& spent(opts, k as nat, c@)
            &&& canonical(c@)
        })
}

/// What was filled in `before` is still there in `after`.
spec fn memo_kept(
    before: Seq<Option<OptCombination>>,
    after: Seq<Option<OptCombination>>,
) -> bool {
    &&& after.len() == before.len()
    &&& forall|k: int|
        0 <= k < before.len() && (#[trigger] before[k]) is Some ==> after[k] == before[k]
}

/// A memo as the contracts see it: for each slot, the combination that it
/// holds, if it holds one.
pub open spec fn memo_view(memo: Seq<Option<OptCombination>>) -> Seq<Option<Seq<Pick>>> {
    Seq::new(
        memo.len(),
        |k: int|
            match memo[k] {
                Some(c) => Some(c@),
                None => None,
            },
    )
}

/// Every filled slot `k` holds a best combination for `k`, in canonical
/// order, which leaves nothing that could be placed.
pub open spec fn holds_best(opts: Seq<OptModel>, memo: Seq<Option<Seq<Pick>>>) -> bool {
    forall|k: int|
        0 <= k < memo.len() ==> (#[trigger] memo[k] matches Some(c) ==> {
            &&& best_within(opts, k as nat, c)
            &&& spent(opts, k as nat, c)
            &&& canonical(c)
        })
}

/// The solver that remembers one best combination per quantity.
pub struct DynamicProgramming<'a> {
    opts: &'a Vec<Opt>,
    cache: Vec<Option<OptCombination<'a>>>,
}

impl<'a> DynamicProgramming<'a> {
    /// The options that the solver was made with.
    pub closed spec fn options(&self) -> Seq<OptModel> {
        option_models(self.opts@)
    }

    /// The memo: slot `k` is for quantity `k`.
    pub closed spec fn memo(&self) -> Seq<Option<Seq<Pick>>> {
        memo_view(self.cache@)
    }

    /// A solver for `opts`, with an empty memo.
    pub fn with_opts(opts: &'a Vec<Opt>) -> (solver: Self)
        ensures
            solver.options() == option_models(opts@),
            solver.memo().len() == 0,
    {
        DynamicProgramming { opts, cache: Vec::new() }
    }

    /// A best combination for `n`, in canonical order, which leaves nothing
    /// that could be placed.
    ///
    /// The memo is made anew with `n + 1` slots. Afterwards slot `n` holds
    /// the answer, and every slot that the recursion reached holds a best
    /// combination for its quantity.
    pub fn solve_recursively(&mut self, n: u32) -> (best: OptCombination<'a>)
        requires
            n < usize::MAX,
        ensures
            final(self).options() == old(self).options(),
            best_within(old(self).options(), n as nat, best@),
            spent(old(self).options(), n as nat, best@),
            canonical(best@),
            n == 0 ==> best@.len() == 0,
            final(self).memo().len() == n + 1,
            final(self).memo()[n as int] == Some(best@),
            holds_best(old(self).options(), final(self).memo()),
    {
        self.cache.clear();
        let size: usize = n as usize + 1;
        while self.cache.len() < size
            invariant
                self.cache@.len() <= size,
                self.opts == old(self).opts,
                forall|k: int| 0 <= k < self.cache@.len() ==> (#[trigger] self.cache@[k]) is None,
            decreases size - self.cache@.len(),
        {
            self.cache.push(None);
        }
        let best = self.recurse(n);
        proof {
            if n == 0 {
                lemma_exhausted_empty(self.options(), 0, best@);
            }
            assert(self.memo()[n as int] == Some(best@));
            assert forall|k: int| 0 <= k < self.memo().len() implies (
            #[trigger] self.memo()[k] matches Some(c) ==> {
                &&& best_within(self.options(), k as nat, c)
                &&& spent(self.options(), k as nat, c)
                &&& canonical(c)
            }) by {
                if self.cache@[k] is Some {
                    assert(self.memo()[k] == Some(self.cache@[k]->0@));
                }
            }
        }
        best
    }

    /// A best combination for `n`. A filled slot `n` is answered from the
    /// memo, which then stays as it is. Otherwise the answer is computed and
    /// put into slot `n`, and the slots below it that it needs are filled.
    fn recurse(&mut self, n: u32) -> (best: OptCombination<'a>)
        requires
            n < old(self).cache@.len(),
            memo_ok(old(self).options(), old(self).cache@),
        ensures
            final(self).opts == old(self).opts,
            memo_ok(old(self).options(), final(self).cache@),
            memo_kept(old(self).cache@, final(self).cache@),
            best_within(old(self).options(), n as nat, best@),
            spent(old(self).options(), n as nat, best@),
            canonical(best@),
            final(self).cache@[n as int] matches Some(c) && c@ == best@,
            old(self).cache@[n as int] is Some ==> final(self).cache@ == old(self).cache@,
        decreases n,
    {
        if let Some(h) = &self.cache[n as usize] {
            return h.clone();
        }
        let ghost opts = self.options();
        let options: &'a Vec<Opt> = self.opts;
        let mut best = OptCombination::new();
        let mut found = false;
        proof {
            lemma_scan_begin(opts, n as nat, -1);
        }
        let mut i: u64 = 1;
        while i <= n as u64
            invariant
                1 <= i <= n + 1,
                self.opts == old(self).opts,
                options == self.opts,
                opts == self.options(),
                n < self.cache@.len(),
                memo_ok(opts, self.cache@),
                memo_kept(old(self).cache@, self.cache@),
                scanned(opts, n as nat, i as nat, 0, if found { total_value(best@) as int } else { -1 }),
                found ==> spent(opts, n as nat, best@),
                !found ==> best@.len() == 0,
                canonical(best@),
            decreases n + 1 - i,
        {
            let a: u32 = i as u32;
            let mut oi: usize = 0;
            while oi < options.len()
                invariant
                    1 <= a <= n,
                    oi <= options@.len(),
                    self.opts == old(self).opts,
                    options == self.opts,
                    opts == self.options(),
                    n < self.cache@.len(),
                    memo_ok(opts, self.cache@),
                    memo_kept(old(self).cache@, self.cache@),
                    scanned(
                        opts,
                        n as nat,
                        a as nat,
                        oi as int,
                        if found { total_value(best@) as int } else { -1 },
                    ),
                    found ==> spent(opts, n as nat, best@),
                    !found ==> best@.len() == 0,
                    canonical(best@),
                decreases options@.len() - oi,
            {
                let opt = &options[oi];
                let ghost lead = if found { total_value(best@) as int } else { -1 };
                if opt.accepts(a) {
                    let rem = n - a;
                    let ghost before = self.cache@;
                    let mut combo = self.recurse(rem);
                    proof {
                        assert(memo_kept(old(self).cache@, self.cache@)) by {
                            assert forall|k: int|
                                0 <= k < old(self).cache@.len() && (#[trigger] old(
                                    self,
                                ).cache@[k]) is Some implies self.cache@[k] == old(
                                self,
                            ).cache@[k] by {
                                assert(before[k] is Some);
                            }
                        }
                        assert(candidate(opts, n as nat, oi as int, a as nat));
                        let p = Pick { opt: opts[oi as int], amount: a as nat };
                        lemma_insertion_index(combo@, p);
                        lemma_spent_insert(
                            opts,
                            n as nat,
                            oi as int,
                            a as nat,
                            combo@,
                            insertion_index(combo@, p),
                        );
                        lemma_best_iff_value(opts, rem as nat, combo@);
                    }
                    combo.add(opt, a);
                    if !found || combo.value() >= best.value() {
                        best = combo;
                        found = true;
                    }
                    proof {
                        lemma_scan_raise(
                            opts,
                            n as nat,
                            a as nat,
                            oi as int,
                            lead,
                            total_value(best@) as int,
                        );
                    }
                }
                proof {
                    lemma_scan_option(
                        opts,
                        n as nat,
                        a as nat,
                        oi as int,
                        if found { total_value(best@) as int } else { -1 },
                    );
                }
                oi += 1;
            }
            proof {
                lemma_scan_amount(
                    opts,
                    n as nat,
                    a as nat,
                    oi as int,
                    if found { total_value(best@) as int } else { -1 },
                );
            }
            i += 1;
        }
        proof {
            if found {
                lemma_scan_best(opts, n as nat, i as nat, best@);
            } else {
                lemma_scan_nothing(opts, n as nat, i as nat, -1);
                lemma_best_iff_value(opts, n as nat, best@);
            }
        }
        self.cache[n as usize] = Some(best.clone());
        best
    }
}

/// No option can pay more than this for one unit: twice the largest `u32`.
spec fn rate_limit() -> nat {
    2 * 0xffff_ffff
}

/// No option of a real list pays more than the rate limit for one unit.
proof fn lemma_rate_limit(opts: Seq<&Opt>)
    ensures
        rates_below(ref_models(opts), rate_limit()),
{
}

/// The borrowed options in ascending order of `start`; options with the same
/// `start` keep their order.
fn sorted_refs<'a>(opts: &'a Vec<Opt>) -> (sorted: Vec<&'a Opt>)
    ensures
        ref_models(sorted@) == in_start_order(option_models(opts@)),
{
    let mut sorted: Vec<&'a Opt> = Vec::new();
    let mut k: usize = 0;
    assert(option_models(opts@).take(0) =~= Seq::<OptModel>::empty());
    assert(ref_models(sorted@) =~= Seq::<OptModel>::empty());
    while k < opts.len()
        invariant
            k <= opts.len(),
            ref_models(sorted@) == in_start_order(option_models(opts@).take(k as int)),
        decreases opts.len() - k,
    {
        let opt = &opts[k];
        let mut pos: usize = 0;
        while pos < sorted.len() && sorted[pos].start <= opt.start
            invariant
                pos <= sorted.len(),
                forall|i: int| 0 <= i < pos ==> (#[trigger] sorted@[i]).start <= opt.start,
            decreases sorted.len() - pos,
        {
            pos += 1;
        }
        let ghost before = sorted@;
        sorted.insert(pos, opt);
        proof {
            let s0 = ref_models(before);
            let s1 = ref_models(sorted@);
            let g0 = option_models(opts@).take(k as int);
            let g1 = option_models(opts@).take(k + 1);
            assert(s1 =~= s0.insert(pos as int, opt@));
            assert(g1.drop_last() =~= g0);
            assert(g1.last() == opt@);
            assert forall|i: int| 0 <= i < pos implies (#[trigger] s0[i]).start <= opt@.start by {
                assert(before[i].start <= opt.start);
            }
            lemma_start_index_unique(s0, opt@, pos as int);
        }
        k += 1;
    }
    assert(option_models(opts@).take(k as int) =~= option_models(opts@));
    sorted
}

/// What the scan knows of its leader: the first of the candidates met so far
/// that leads to the most.
spec fn leader(opts: Seq<OptModel>, n: nat, best: nat, info: Option<(u32, usize)>) -> bool {
    match info {
        Some((a, j)) => {
            &&& candidate(opts, n, j as int, a as nat)
            &&& best == lead_of(opts, n, a as nat, j as int)
            &&& forall|b: nat, k: int|
                #[trigger] candidate(opts, n, k, b) && scanned_before(b, k, a as nat, j as int)
                    ==> lead_of(opts, n, b, k) < best
        },
        None => best == 0,
    }
}

/// What the scan has met so far leads to at most this: the leader's value,
/// and -1 while there is no leader.
spec fn reach(best: nat, info: Option<(u32, usize)>) -> int {
    if info is Some {
        best as int
    } else {
        -1
    }
}

/// No amount below the smallest `start` is a candidate.
proof fn lemma_scan_start(opts: Seq<OptModel>, n: nat, first: nat)
    requires
        sorted_by_start(opts),
        opts.len() > 0,
        first == if opts[0].start == 0 { 1 } else { opts[0].start },
    ensures
        scanned(opts, n, first, 0, -1),
{
    assert forall|a: nat, j: int| #[trigger]
        candidate(opts, n, j, a) && (a < first || (a == first && j < 0)) implies best_value(
        opts,
        (n - a) as nat,
    ) + opts[j].gain_for(a) <= -1 by {
        if j > 0 {
            assert(opts[0].start <= opts[j].start);
        }
    }
}

/// Once an option starts above `i`, so do all that follow: the scan of
/// amount `i` is complete.
proof fn lemma_scan_cut(opts: Seq<OptModel>, n: nat, i: nat, stop: int, best: int)
    requires
        sorted_by_start(opts),
        scanned(opts, n, i, stop, best),
        0 <= stop <= opts.len(),
        stop < opts.len() ==> opts[stop].start > i,
    ensures
        scanned(opts, n, i + 1, 0, best),
{
    assert forall|j: int| stop <= j < opts.len() implies !(#[trigger] opts[j]).accepts(i) by {
        if j > stop {
            assert(opts[stop].start <= opts[j].start);
        }
    }
    lemma_scan_amount(opts, n, i, stop, best);
}

/// The scan takes candidate `(a, j)`: it becomes the leader where there is
/// none or where it leads to more, and else the leader stays.
proof fn lemma_scan_take(
    opts: Seq<OptModel>,
    n: nat,
    a: nat,
    j: int,
    best: nat,
    info: Option<(u32, usize)>,
)
    requires
        candidate(opts, n, j, a),
        a <= u32::MAX,
        j <= usize::MAX,
        scanned(opts, n, a, j, reach(best, info)),
        leader(opts, n, best, info),
    ensures
        info is None || lead_of(opts, n, a, j) > best ==> {
            &&& leader(opts, n, lead_of(opts, n, a, j), Some((a as u32, j as usize)))
            &&& scanned(opts, n, a, j + 1, lead_of(opts, n, a, j) as int)
        },
        !(info is None || lead_of(opts, n, a, j) > best) ==> scanned(
            opts,
            n,
            a,
            j + 1,
            reach(best, info),
        ),
{
    let lead = lead_of(opts, n, a, j);
    if info is None || lead > best {
        lemma_scan_raise(opts, n, a, j, reach(best, info), lead as int);
        lemma_scan_option(opts, n, a, j, lead as int);
    } else {
        lemma_scan_option(opts, n, a, j, reach(best, info));
    }
}

/// With the whole row scanned, the leader is the first best candidate and
/// its value is the optimum for `n`; with no leader, nothing can be placed.
proof fn lemma_scan_done(
    opts: Seq<OptModel>,
    n: nat,
    i: nat,
    best: nat,
    info: Option<(u32, usize)>,
)
    requires
        scanned(opts, n, i, 0, reach(best, info)),
        i > n,
        leader(opts, n, best, info),
    ensures
        best == best_value(opts, n),
        match info {
            Some((a, j)) => is_first_best(opts, n, a as nat, j as int),
            None => exhausted(opts, n),
        },
{
    match info {
        Some((a, j)) => {
            lemma_scan_end(opts, n, i, best as int);
            lemma_step_lower(opts, n, j as int, a as nat);
        },
        None => {
            lemma_scan_nothing(opts, n, i, -1);
        },
    }
}

/// The table as the contracts see it: for each row, the combination and the
/// value that it holds, if it is filled.
pub open spec fn table_view(table: Seq<Option<(OptCombination, u128)>>) -> Seq<
    Option<(Seq<Pick>, nat)>,
> {
    Seq::new(
        table.len(),
        |k: int|
            match table[k] {
                Some(e) => Some((e.0@, e.1 as nat)),
                None => None,
            },
    )
}

/// Every filled row `k` holds `table_row(opts, k)` and the optimum for `k`.
pub open spec fn holds_rows(opts: Seq<OptModel>, table: Seq<Option<(Seq<Pick>, nat)>>) -> bool {
    forall|k: int|
        0 <= k < table.len() ==> (#[trigger] table[k] matches Some(e) ==> entry_ok(
            opts,
            k as nat,
            e.0,
            e.1,
        ))
}

/// Every filled row `k` of the table holds an entry for `k`.
spec fn table_ok(opts: Seq<OptModel>, table: Seq<Option<(OptCombination, u128)>>) -> bool {
    forall|k: int|
        0 <= k < table.len() ==> (#[trigger] table[k] matches Some(e) ==> entry_ok(
            opts,
            k as nat,
            e.0@,
            e.1 as nat,
        ))
}

/// What was filled in `before` is still there in `after`.
spec fn table_kept(
    before: Seq<Option<(OptCombination, u128)>>,
    after: Seq<Option<(OptCombination, u128)>>,
) -> bool {
    &&& after.len() == before.len()
    &&& forall|k: int|
        0 <= k < before.len() && (#[trigger] before[k]) is Some ==> after[k] == before[k]
}

/// A checked table is a table of rows.
proof fn lemma_table_view(opts: Seq<OptModel>, table: Seq<Option<(OptCombination, u128)>>)
    requires
        table_ok(opts, table),
    ensures
        holds_rows(opts, table_view(table)),
{
    assert forall|k: int| 0 <= k < table_view(table).len() implies (#[trigger] table_view(
        table,
    )[k] matches Some(e) ==> entry_ok(opts, k as nat, e.0, e.1)) by {
        if let Some(e) = table[k] {
            assert(table_view(table)[k] == Some((e.0@, e.1 as nat)));
        }
    }
}

/// An entry for `n` over the kept list of options is a best combination over
/// the given list, and leaves nothing that could be placed.
proof fn lemma_entry_answers(
    kept: Seq<OptModel>,
    given: Seq<OptModel>,
    n: nat,
    picks: Seq<Pick>,
    value: nat,
)
    requires
        same_members(kept, given),
        entry_ok(kept, n, picks, value),
    ensures
        best_within(given, n, picks),
        spent(given, n, picks),
        n == 0 ==> picks.len() == 0,
{
    lemma_best_iff_value(kept, n, picks);
    lemma_members_best(kept, given, n, picks);
    lemma_members_feasible(kept, given, picks);
    lemma_members_exhausted(kept, given, (n - total_amount(picks)) as nat);
    if n == 0 {
        lemma_exhausted_empty(kept, 0, picks);
    }
}

/// The optimised solver: options sorted by `start`, a table of
/// `(best combination, best value)`, and the combination built once per
/// quantity.
pub struct DynamicProgrammingOptimized<'a> {
    opts: Vec<&'a Opt>,
    cache: Vec<Option<(OptCombination<'a>, u128)>>,
    given: Ghost<Seq<OptModel>>,
}

impl<'a> DynamicProgrammingOptimized<'a> {
    /// The kept list is the given options in start order.
    #[verifier::type_invariant]
    spec fn well_formed(self) -> bool {
        ref_models(self.opts@) == in_start_order(self.given@)
    }

    /// The options that the solver was made with, as they were given.
    pub closed spec fn options(&self) -> Seq<OptModel> {
        self.given@
    }

    /// The options as the solver keeps and scans them.
    pub closed spec fn kept(&self) -> Seq<OptModel> {
        ref_models(self.opts@)
    }

    /// The table: row `k` is for quantity `k`.
    pub closed spec fn table(&self) -> Seq<Option<(Seq<Pick>, nat)>> {
        table_view(self.cache@)
    }

    /// A solver for `opts`. It keeps them in start order: ascending in
    /// `start`, each option once, options with the same `start` as they were
    /// given. The table is empty.
    pub fn with_opts(opts: &'a Vec<Opt>) -> (solver: Self)
        ensures
            solver.options() == option_models(opts@),
            solver.kept() == in_start_order(option_models(opts@)),
            sorted_by_start(solver.kept()),
            solver.kept().to_multiset() == solver.options().to_multiset(),
            solver.table().len() == 0,
    {
        let sorted = sorted_refs(opts);
        proof {
            lemma_in_start_order(option_models(opts@));
        }
        DynamicProgrammingOptimized {
            opts: sorted,
            cache: Vec::new(),
            given: Ghost(option_models(opts@)),
        }
    }

    /// The best combination for `n` that the table is built to hold:
    /// `table_row` of the kept options. It leaves nothing that could be
    /// placed. An option whose range begins at 0 is offered amounts from 1
    /// on.
    ///
    /// The table is made anew with `n + 1` rows and filled from the top
    /// down: afterwards row `n` holds the answer and its value, and every
    /// row that the recursion reached holds the row for its quantity.
    pub fn solve_recursively(&mut self, n: u32) -> (best: OptCombination<'a>)
        requires
            n < usize::MAX,
        ensures
            final(self).options() == old(self).options(),
            final(self).kept() == old(self).kept(),
            best@ == table_row(old(self).kept(), n as nat),
            best_within(old(self).options(), n as nat, best@),
            spent(old(self).options(), n as nat, best@),
            n == 0 ==> best@.len() == 0,
            final(self).table().len() == n + 1,
            final(self).table()[n as int] == Some((best@, total_value(best@))),
            holds_rows(old(self).kept(), final(self).table()),
    {
        proof {
            use_type_invariant(&*self);
            lemma_in_start_order(self.given@);
        }
        self.cache = Vec::new();
        let mut table: Vec<Option<(OptCombination<'a>, u128)>> = Vec::new();
        let size: usize = n as usize + 1;
        while table.len() < size
            invariant
                table@.len() <= size,
                forall|k: int| 0 <= k < table@.len() ==> (#[trigger] table@[k]) is None,
            decreases size - table@.len(),
        {
            table.push(None);
        }
        Self::recurse(&self.opts, &mut table, n);
        let best = table[n as usize].as_ref().unwrap().0.clone();
        proof {
            let entry = table@[n as int]->0;
            lemma_entry_answers(
                ref_models(self.opts@),
                self.given@,
                n as nat,
                entry.0@,
                entry.1 as nat,
            );
            lemma_table_view(ref_models(self.opts@), table@);
            assert(table_view(table@)[n as int] == Some((entry.0@, entry.1 as nat)));
        }
        self.cache = table;
        best
    }

    /// The best value for `n`. A filled row `n` is answered from the table,
    /// which then stays as it is. Otherwise the row is computed and put into
    /// the table, and the rows below it that it needs are filled.
    fn recurse(
        opts: &Vec<&'a Opt>,
        cache: &mut Vec<Option<(OptCombination<'a>, u128)>>,
        n: u32,
    ) -> (value: u128)
        requires
            sorted_by_start(ref_models(opts@)),
            n < old(cache)@.len(),
            table_ok(ref_models(opts@), old(cache)@),
        ensures
            table_ok(ref_models(opts@), final(cache)@),
            table_kept(old(cache)@, final(cache)@),
            final(cache)@[n as int] matches Some(e) && e.1 == value,
            value == best_value(ref_models(opts@), n as nat),
            old(cache)@[n as int] is Some ==> final(cache)@ == old(cache)@,
        decreases n,
    {
        if let Some(h) = &cache[n as usize] {
            return h.1;
        }
        let ghost s = ref_models(opts@);
        let mut best_value: u128 = 0;
        let mut best_info: Option<(u32, usize)> = None;
        if opts.len() == 0 {
            proof {
                lemma_scan_done(s, n as nat, (n + 1) as nat, 0, None);
                lemma_row_empty(s, n as nat);
            }
            cache[n as usize] = Some((OptCombination::new(), 0));
            return 0;
        }
        let first: u32 = if opts[0].start == 0 {
            1
        } else {
            opts[0].start
        };
        proof {
            lemma_scan_start(s, n as nat, first as nat);
            lemma_rate_limit(opts@);
        }
        let mut i: u64 = first as u64;
        while i <= n as u64
            invariant
                1 <= i <= u32::MAX + 1,
                s == ref_models(opts@),
                sorted_by_start(s),
                rates_below(s, rate_limit()),
                n < cache@.len(),
                table_ok(s, cache@),
                table_kept(old(cache)@, cache@),
                scanned(s, n as nat, i as nat, 0, reach(best_value as nat, best_info)),
                leader(s, n as nat, best_value as nat, best_info),
                best_info matches Some((a, j)) ==> cache@[n - a] is Some && j < opts@.len(),
                best_value <= n * rate_limit() + u64::MAX,
            decreases n + 1 - i,
        {
            let a: u32 = i as u32;
            let mut oi: usize = 0;
            while oi < opts.len() && opts[oi].start <= a
                invariant
                    1 <= a <= n,
                    oi <= opts.len(),
                    s == ref_models(opts@),
                    sorted_by_start(s),
                    rates_below(s, rate_limit()),
                    n < cache@.len(),
                    table_ok(s, cache@),
                    table_kept(old(cache)@, cache@),
                    scanned(s, n as nat, a as nat, oi as int, reach(best_value as nat, best_info)),
                    leader(s, n as nat, best_value as nat, best_info),
                    best_info matches Some((a, j)) ==> cache@[n - a] is Some && j < opts@.len(),
                    best_value <= n * rate_limit() + u64::MAX,
                decreases opts.len() - oi,
            {
                let opt = opts[oi];
                if opt.accepts(a) {
                    let rem = n - a;
                    let ghost before = cache@;
                    let value_rem = Self::recurse(opts, cache, rem);
                    proof {
                        assert(table_kept(old(cache)@, cache@)) by {
                            assert forall|k: int|
                                0 <= k < old(cache)@.len() && (#[trigger] old(cache)@[k])
                                    is Some implies cache@[k] == old(cache)@[k] by {
                                assert(before[k] is Some);
                            }
                        }
                        if let Some((pa, pj)) = best_info {
                            assert(before[n - pa] is Some);
                        }
                        assert(cache@[rem as int] is Some);
                        assert(candidate(s, n as nat, oi as int, a as nat));
                        lemma_best_value_cap(s, rem as nat, rate_limit());
                        assert(rem * rate_limit() <= n * rate_limit()) by (nonlinear_arith)
                            requires
                                rem <= n,
                        ;
                        assert(n * rate_limit() + u64::MAX <= u128::MAX) by (nonlinear_arith)
                            requires
                                n <= u32::MAX,
                                rate_limit() == 2 * 0xffff_ffff,
                        ;
                        lemma_scan_take(
                            s,
                            n as nat,
                            a as nat,
                            oi as int,
                            best_value as nat,
                            best_info,
                        );
                    }
                    let value = value_rem + opt.gain_for(a) as u128;
                    if best_info.is_none() || value > best_value {
                        best_info = Some((a, oi));
                        best_value = value;
                    }
                } else {
                    proof {
                        lemma_scan_option(
                            s,
                            n as nat,
                            a as nat,
                            oi as int,
                            reach(best_value as nat, best_info),
                        );
                    }
                }
                oi += 1;
            }
            proof {
                lemma_scan_cut(
                    s,
                    n as nat,
                    a as nat,
                    oi as int,
                    reach(best_value as nat, best_info),
                );
            }
            i += 1;
        }
        proof {
            lemma_scan_done(s, n as nat, i as nat, best_value as nat, best_info);
        }
        let best_combo = match best_info {
            Some((a, oi)) => {
                let entry = cache[(n - a) as usize].as_ref().unwrap();
                let mut b = entry.0.clone();
                // The plain append will do: nothing here compares combinations.
                b.add_unordered(opts[oi], a);
                proof {
                    lemma_row_extend(s, n as nat, a as nat, oi as int, entry.0@, entry.1 as nat);
                }
                b
            },
            None => {
                proof {
                    lemma_row_empty(s, n as nat);
                }
                OptCombination::new()
            },
        };
        cache[n as usize] = Some((best_combo, best_value));
        best_value
    }

    /// The best combination for `n` that the table is built to hold:
    /// `table_row` of the kept options, as `solve_recursively` answers.
    ///
    /// The table is made anew with `n + 1` rows and filled from quantity 0
    /// up: afterwards every row holds the row for its quantity, and row `n`
    /// the answer and its value.
    pub fn solve_iter(&mut self, n: u32) -> (best: OptCombination<'a>)
        requires
            n < usize::MAX,
        ensures
            final(self).options() == old(self).options(),
            final(self).kept() == old(self).kept(),
            best@ == table_row(old(self).kept(), n as nat),
            best_within(old(self).options(), n as nat, best@),
            spent(old(self).options(), n as nat, best@),
            n == 0 ==> best@.len() == 0,
            final(self).table().len() == n + 1,
            final(self).table()[n as int] == Some((best@, total_value(best@))),
            holds_rows(old(self).kept(), final(self).table()),
            forall|k: int| 0 <= k <= n ==> (#[trigger] final(self).table()[k]) is Some,
    {
        proof {
            use_type_invariant(&*self);
            lemma_in_start_order(self.given@);
        }
        self.cache = Vec::new();
        let mut table: Vec<Option<(OptCombination<'a>, u128)>> = Vec::new();
        let size: usize = n as usize + 1;
        while table.len() < size
            invariant
                table@.len() <= size,
            decreases size - table@.len(),
        {
            table.push(Some((OptCombination::new(), 0)));
        }
        let ghost s = ref_models(self.opts@);
        let mut q: u64 = 0;
        while q <= n as u64
            invariant
                q <= n + 1,
                table@.len() == n + 1,
                s == ref_models(self.opts@),
                sorted_by_start(s),
                forall|k: int|
                    0 <= k < q ==> (#[trigger] table@[k] matches Some(e) && entry_ok(
                        s,
                        k as nat,
                        e.0@,
                        e.1 as nat,
                    )),
            decreases n + 1 - q,
        {
            let entry = Self::iter(&self.opts, &table, q as u32);
            table[q as usize] = Some(entry);
            q += 1;
        }
        let best = table[n as usize].as_ref().unwrap().0.clone();
        proof {
            let entry = table@[n as int]->0;
            lemma_entry_answers(s, self.given@, n as nat, entry.0@, entry.1 as nat);
            lemma_table_view(s, table@);
            assert(table_view(table@)[n as int] == Some((entry.0@, entry.1 as nat)));
            assert forall|k: int| 0 <= k <= n implies (#[trigger] table_view(table@)[k]) is Some by {
                assert(table@[k] is Some);
            }
        }
        self.cache = table;
        best
    }

    /// Row `n` of the table, from the rows below it: the combination of row
    /// `n - a` with the pair of the first best candidate `(a, j)` appended,
    /// and its value; the empty combination and 0 where there is no
    /// candidate.
    fn iter(
        opts: &Vec<&'a Opt>,
        cache: &Vec<Option<(OptCombination<'a>, u128)>>,
        n: u32,
    ) -> (entry: (OptCombination<'a>, u128))
        requires
            sorted_by_start(ref_models(opts@)),
            n < cache@.len(),
            forall|k: int|
                0 <= k < n ==> (#[trigger] cache@[k] matches Some(e) && entry_ok(
                    ref_models(opts@),
                    k as nat,
                    e.0@,
                    e.1 as nat,
                )),
        ensures
            entry_ok(ref_models(opts@), n as nat, entry.0@, entry.1 as nat),
            match first_best(ref_models(opts@), n as nat) {
                Some((a, j)) => 1 <= a <= n && (cache@[n - a] matches Some(e) && entry.0@
                    == e.0@.push(Pick { opt: ref_models(opts@)[j], amount: a })),
                None => entry.0@.len() == 0 && entry.1 == 0,
            },
    {
        let ghost s = ref_models(opts@);
        let mut best_value: u128 = 0;
        let mut best_info: Option<(u32, usize)> = None;
        if opts.len() == 0 {
            proof {
                lemma_scan_done(s, n as nat, (n + 1) as nat, 0, None);
                lemma_row_empty(s, n as nat);
                lemma_no_first_best(s, n as nat);
            }
            return (OptCombination::new(), 0);
        }
        let first: u32 = if opts[0].start == 0 {
            1
        } else {
            opts[0].start
        };
        proof {
            lemma_scan_start(s, n as nat, first as nat);
            lemma_rate_limit(opts@);
        }
        let mut i: u64 = first as u64;
        while i <= n as u64
            invariant
                1 <= i <= u32::MAX + 1,
                s == ref_models(opts@),
                sorted_by_start(s),
                rates_below(s, rate_limit()),
                n < cache@.len(),
                forall|k: int|
                    0 <= k < n ==> (#[trigger] cache@[k] matches Some(e) && entry_ok(
                        s,
                        k as nat,
                        e.0@,
                        e.1 as nat,
                    )),
                scanned(s, n as nat, i as nat, 0, reach(best_value as nat, best_info)),
                leader(s, n as nat, best_value as nat, best_info),
                best_value <= n * rate_limit() + u64::MAX,
            decreases n + 1 - i,
        {
            let a: u32 = i as u32;
            let mut oi: usize = 0;
            while oi < opts.len() && opts[oi].start <= a
                invariant
                    1 <= a <= n,
                    oi <= opts.len(),
                    s == ref_models(opts@),
                    rates_below(s, rate_limit()),
                    n < cache@.len(),
                    forall|k: int|
                        0 <= k < n ==> (#[trigger] cache@[k] matches Some(e) && entry_ok(
                            s,
                            k as nat,
                            e.0@,
                            e.1 as nat,
                        )),
                    scanned(s, n as nat, a as nat, oi as int, reach(best_value as nat, best_info)),
                    leader(s, n as nat, best_value as nat, best_info),
                    best_value <= n * rate_limit() + u64::MAX,
                decreases opts.len() - oi,
            {
                let opt = opts[oi];
                if opt.accepts(a) {
                    let rem = n - a;
                    let value_rem = cache[rem as usize].as_ref().unwrap().1;
                    proof {
                        assert(candidate(s, n as nat, oi as int, a as nat));
                        lemma_best_value_cap(s, rem as nat, rate_limit());
                        assert(rem * rate_limit() <= n * rate_limit()) by (nonlinear_arith)
                            requires
                                rem <= n,
                        ;
                        assert(n * rate_limit() + u64::MAX <= u128::MAX) by (nonlinear_arith)
                            requires
                                n <= u32::MAX,
                                rate_limit() == 2 * 0xffff_ffff,
                        ;
                        lemma_scan_take(
                            s,
                            n as nat,
                            a as nat,
                            oi as int,
                            best_value as nat,
                            best_info,
                        );
                    }
                    let value = value_rem + opt.gain_for(a) as u128;
                    if best_info.is_none() || value > best_value {
                        best_info = Some((a, oi));
                        best_value = value;
                    }
                } else {
                    proof {
                        lemma_scan_option(
                            s,
                            n as nat,
                            a as nat,
                            oi as int,
                            reach(best_value as nat, best_info),
                        );
                    }
                }
                oi += 1;
            }
            proof {
                lemma_scan_cut(
                    s,
                    n as nat,
                    a as nat,
                    oi as int,
                    reach(best_value as nat, best_info),
                );
            }
            i += 1;
        }
        proof {
            lemma_scan_done(s, n as nat, i as nat, best_value as nat, best_info);
        }
        let best_combo = match best_info {
            Some((a, oi)) => {
                let entry = cache[(n - a) as usize].as_ref().unwrap();
                let mut b = entry.0.clone();
                // The plain append will do: nothing here compares combinations.
                b.add_unordered(opts[oi], a);
                proof {
                    lemma_row_extend(s, n as nat, a as nat, oi as int, entry.0@, entry.1 as nat);
                    lemma_first_best(s, n as nat, a as nat, oi as int);
                }
                b
            },
            None => {
                proof {
                    lemma_row_empty(s, n as nat);
                    lemma_no_first_best(s, n as nat);
                }
                OptCombination::new()
            },
        };
        (best_combo, best_value)
    }
}

} // verus!
