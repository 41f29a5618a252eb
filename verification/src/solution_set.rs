//! A set of combinations, in which two combinations are the same when they
//! hold, place by place, the same amounts under the same names.

use vstd::prelude::*;
use crate::laws::law_canonical_form;
use crate::lemmas::{
    lemma_amount_in_total, lemma_best_iff_value, lemma_best_value_is_max, lemma_exhausted_empty,
    lemma_exhausted_value, lemma_spent_insert, lemma_totals_insert,
};
use crate::model::{
    best_value, best_within, candidate, exhausted, feasible, spent, total_value, usable,
    OptModel, Pick,
};
use crate::opt::{Opt, OptCombination};
use crate::order::{
    canonical, insertion_index, lemma_insert_keeps_canonical, lemma_insert_keys,
    lemma_insertion_index, lemma_remove_keeps_canonical, lemma_same_entries_keys,
    lemma_with_pick_keys, same_entries, with_pick,
};
use crate::scan::{lemma_scan_end, lemma_scan_nothing, scanned};

verus! {

/// Some member has the same entries as `c`.
pub open spec fn holds(members: Seq<Seq<Pick>>, c: Seq<Pick>) -> bool {
    exists|k: int| 0 <= k < members.len() && same_entries(#[trigger] members[k], c)
}

/// No two members have the same entries.
pub open spec fn no_repeats(members: Seq<Seq<Pick>>) -> bool {
    forall|i: int, j: int|
        0 <= i < j < members.len() ==> !same_entries(#[trigger] members[i], #[trigger] members[j])
}

/// The highest value of a member, or -1 where there is none.
pub open spec fn top_value(members: Seq<Seq<Pick>>) -> int
    decreases members.len(),
{
    if members.len() == 0 {
        -1
    } else {
        let rest = top_value(members.drop_last());
        let last = total_value(members.last()) as int;
        if rest <= last {
            last
        } else {
            rest
        }
    }
}

/// A name stands for one option: two options of the list with one name are
/// the same option.
pub open spec fn names_identify(opts: Seq<OptModel>) -> bool {
    forall|i: int, j: int|
        0 <= i < opts.len() && 0 <= j < opts.len() && (#[trigger] opts[i]).name == (
        #[trigger] opts[j]).name ==> opts[i] == opts[j]
}

/// One more member raises the top value to its own value, or leaves it.
pub proof fn lemma_top_push(members: Seq<Seq<Pick>>, c: Seq<Pick>)
    ensures
        top_value(members.push(c)) == if top_value(members) <= total_value(c) {
            total_value(c) as int
        } else {
            top_value(members)
        },
{
    assert(members.push(c).drop_last() =~= members);
}

/// No member is worth more than the top value.
pub proof fn lemma_top_bounds(members: Seq<Seq<Pick>>, k: int)
    requires
        0 <= k < members.len(),
    ensures
        total_value(members[k]) <= top_value(members),
    decreases members.len(),
{
    if k < members.len() - 1 {
        lemma_top_bounds(members.drop_last(), k);
    }
}

/// Some member is worth the top value.
pub proof fn lemma_top_attained(members: Seq<Seq<Pick>>) -> (k: int)
    requires
        members.len() > 0,
    ensures
        0 <= k < members.len(),
        total_value(members[k]) == top_value(members),
    decreases members.len(),
{
    let rest = members.drop_last();
    if rest.len() > 0 && top_value(rest) > total_value(members.last()) {
        let k = lemma_top_attained(rest);
        assert(rest[k] == members[k]);
        k
    } else {
        if rest.len() == 0 {
            assert(top_value(rest) == -1);
        }
        members.len() - 1
    }
}

/// Where a name stands for one option, two feasible combinations with the
/// same entries are the same combination.
pub proof fn lemma_same_entries_equal(opts: Seq<OptModel>, x: Seq<Pick>, y: Seq<Pick>)
    requires
        names_identify(opts),
        feasible(opts, x),
        feasible(opts, y),
        same_entries(x, y),
    ensures
        x == y,
{
    assert forall|k: int| 0 <= k < x.len() implies x[k] == y[k] by {
        assert(usable(opts, x[k]));
        assert(usable(opts, y[k]));
        let i = choose|i: int| 0 <= i < opts.len() && opts[i] == x[k].opt;
        let j = choose|j: int| 0 <= j < opts.len() && opts[j] == y[k].opt;
        assert(opts[i].name == opts[j].name);
    }
    assert(x =~= y);
}

/// The members after `c` was offered to the set.
pub open spec fn inserted(members: Seq<Seq<Pick>>, c: Seq<Pick>) -> Seq<Seq<Pick>> {
    if holds(members, c) {
        members
    } else {
        members.push(c)
    }
}

/// The members after each member of `from`, the last one first, was given
/// `p` and offered to the set.
pub open spec fn extended(members: Seq<Seq<Pick>>, from: Seq<Seq<Pick>>, p: Pick) -> Seq<
    Seq<Pick>,
>
    decreases from.len(),
{
    if from.len() == 0 {
        members
    } else {
        extended(inserted(members, with_pick(from.last(), p)), from.drop_last(), p)
    }
}

/// What a solver asks of a member of the set for `n`: it spends `n` as far
/// as it can be spent, holds something, and is in canonical order.
pub open spec fn member_ok(opts: Seq<OptModel>, n: nat, c: Seq<Pick>) -> bool {
    &&& spent(opts, n, c)
    &&& c.len() > 0
    &&& canonical(c)
}

/// Every member is as `member_ok` asks, and no two have the same entries.
pub open spec fn members_ok(opts: Seq<OptModel>, n: nat, members: Seq<Seq<Pick>>) -> bool {
    &&& forall|m: int| 0 <= m < members.len() ==> member_ok(opts, n, #[trigger] members[m])
    &&& no_repeats(members)
}

/// The set holds every combination that could be a member for `n`.
pub open spec fn complete(opts: Seq<OptModel>, n: nat, members: Seq<Seq<Pick>>) -> bool {
    forall|c: Seq<Pick>| #[trigger] member_ok(opts, n, c) ==> holds(members, c)
}

/// The set that the enumerating solvers build for `n`: every canonical,
/// non-empty combination that spends `n` as far as it can be spent, each
/// once. It is empty exactly where nothing can be placed; otherwise, where a
/// name stands for one option, its top value is the optimum.
pub open spec fn set_for(opts: Seq<OptModel>, n: nat, members: Seq<Seq<Pick>>) -> bool {
    &&& members_ok(opts, n, members)
    &&& complete(opts, n, members)
    &&& members.len() == 0 <==> exhausted(opts, n)
    &&& names_identify(opts) && members.len() > 0 ==> top_value(members) == best_value(opts, n)
}

/// Whatever `before` holds, `after` holds too.
pub open spec fn grown(before: Seq<Seq<Pick>>, after: Seq<Seq<Pick>>) -> bool {
    forall|x: Seq<Pick>| #[trigger] holds(before, x) ==> holds(after, x)
}

/// Entry `k` of `c` names option `j`.
pub open spec fn met_at(opts: Seq<OptModel>, c: Seq<Pick>, k: int, j: int) -> bool {
    &&& 0 <= k < c.len()
    &&& 0 <= j < opts.len()
    &&& opts[j] == c[k].opt
}

/// The set holds every possible member for `n` that has an entry which the
/// scan has met before amount `i` and option `oi`.
pub open spec fn covered(
    opts: Seq<OptModel>,
    n: nat,
    i: nat,
    oi: int,
    members: Seq<Seq<Pick>>,
) -> bool {
    forall|c: Seq<Pick>, k: int, j: int|
        member_ok(opts, n, c) && #[trigger] met_at(opts, c, k, j) && (c[k].amount < i || (
        c[k].amount == i && j < oi)) ==> holds(members, c)
}

/// What is held is held under any combination with the same entries.
pub proof fn lemma_holds_same(members: Seq<Seq<Pick>>, x: Seq<Pick>, c: Seq<Pick>)
    requires
        holds(members, x),
        same_entries(x, c),
    ensures
        holds(members, c),
{
    let k = choose|k: int| 0 <= k < members.len() && same_entries(#[trigger] members[k], x);
    assert(same_entries(members[k], c)) by {
        assert forall|i: int| 0 <= i < members[k].len() implies (#[trigger] members[k][i]).opt.name
            == (#[trigger] c[i]).opt.name && members[k][i].amount == c[i].amount by {
            assert(members[k][i].opt.name == x[i].opt.name);
            assert(x[i].opt.name == c[i].opt.name);
        }
    }
}

/// After `c` was offered, the set holds it, and all that it held.
pub proof fn lemma_inserted_holds(members: Seq<Seq<Pick>>, c: Seq<Pick>)
    ensures
        holds(inserted(members, c), c),
        grown(members, inserted(members, c)),
{
    let next = inserted(members, c);
    if !holds(members, c) {
        assert(next[members.len() as int] == c);
        assert(same_entries(next[members.len() as int], c));
    }
    assert forall|x: Seq<Pick>| #[trigger] holds(members, x) implies holds(next, x) by {
        let k = choose|k: int| 0 <= k < members.len() && same_entries(#[trigger] members[k], x);
        assert(next[k] == members[k]);
    }
}

/// After the extension, the set holds each member of `from` with `p`, and
/// all that it held.
pub proof fn lemma_extended_holds(members: Seq<Seq<Pick>>, from: Seq<Seq<Pick>>, p: Pick)
    ensures
        grown(members, extended(members, from, p)),
        forall|t: int|
            0 <= t < from.len() ==> holds(extended(members, from, p), with_pick(#[trigger] from[t], p)),
    decreases from.len(),
{
    if from.len() > 0 {
        let c = with_pick(from.last(), p);
        let mid = inserted(members, c);
        let rest = from.drop_last();
        lemma_inserted_holds(members, c);
        lemma_extended_holds(mid, rest, p);
        let out = extended(members, from, p);
        assert(out == extended(mid, rest, p));
        assert forall|x: Seq<Pick>| #[trigger] holds(members, x) implies holds(out, x) by {
            assert(holds(mid, x));
        }
        assert forall|t: int| 0 <= t < from.len() implies holds(
            out,
            with_pick(#[trigger] from[t], p),
        ) by {
            if t < rest.len() {
                assert(rest[t] == from[t]);
            } else {
                assert(holds(mid, c));
            }
        }
    }
}

/// Before the first amount the scan has met nothing.
pub proof fn lemma_covered_begin(opts: Seq<OptModel>, n: nat, members: Seq<Seq<Pick>>)
    ensures
        covered(opts, n, 1, 0, members),
{
    assert forall|c: Seq<Pick>, k: int, j: int|
        member_ok(opts, n, c) && #[trigger] met_at(opts, c, k, j) && (c[k].amount < 1 || (
        c[k].amount == 1 && j < 0)) implies holds(members, c) by {
        assert(usable(opts, c[k]));
    }
}

/// What a set covers, a grown set covers.
pub proof fn lemma_covered_grown(
    opts: Seq<OptModel>,
    n: nat,
    i: nat,
    oi: int,
    before: Seq<Seq<Pick>>,
    after: Seq<Seq<Pick>>,
)
    requires
        covered(opts, n, i, oi, before),
        grown(before, after),
    ensures
        covered(opts, n, i, oi, after),
{
    assert forall|c: Seq<Pick>, k: int, j: int|
        member_ok(opts, n, c) && #[trigger] met_at(opts, c, k, j) && (c[k].amount < i || (
        c[k].amount == i && j < oi)) implies holds(after, c) by {
        assert(holds(before, c));
    }
}

/// The scan moves past an option that does not take amount `i`: no member
/// has such an entry.
pub proof fn lemma_covered_skip(
    opts: Seq<OptModel>,
    n: nat,
    i: nat,
    oi: int,
    members: Seq<Seq<Pick>>,
)
    requires
        covered(opts, n, i, oi, members),
        0 <= oi < opts.len(),
        !opts[oi].accepts(i),
    ensures
        covered(opts, n, i, oi + 1, members),
{
    assert forall|c: Seq<Pick>, k: int, j: int|
        member_ok(opts, n, c) && #[trigger] met_at(opts, c, k, j) && (c[k].amount < i || (
        c[k].amount == i && j < oi + 1)) implies holds(members, c) by {
        assert(usable(opts, c[k]));
    }
}

/// The scan moves past an option once the set holds every member with an
/// entry of that option and amount `i`.
pub proof fn lemma_covered_option(
    opts: Seq<OptModel>,
    n: nat,
    i: nat,
    oi: int,
    members: Seq<Seq<Pick>>,
)
    requires
        covered(opts, n, i, oi, members),
        forall|c: Seq<Pick>, k: int|
            member_ok(opts, n, c) && #[trigger] met_at(opts, c, k, oi) && c[k].amount == i
                ==> holds(members, c),
    ensures
        covered(opts, n, i, oi + 1, members),
{
}

/// The scan moves from one amount to the next.
pub proof fn lemma_covered_amount(
    opts: Seq<OptModel>,
    n: nat,
    i: nat,
    members: Seq<Seq<Pick>>,
)
    requires
        covered(opts, n, i, opts.len() as int, members),
    ensures
        covered(opts, n, i + 1, 0, members),
{
}

/// After the last amount, the set is complete.
pub proof fn lemma_covered_end(opts: Seq<OptModel>, n: nat, i: nat, members: Seq<Seq<Pick>>)
    requires
        covered(opts, n, i, 0, members),
        i > n,
    ensures
        complete(opts, n, members),
{
    assert forall|c: Seq<Pick>| #[trigger] member_ok(opts, n, c) implies holds(members, c) by {
        assert(usable(opts, c[0]));
        let j = choose|j: int| 0 <= j < opts.len() && opts[j] == c[0].opt;
        lemma_amount_in_total(c, 0);
        assert(met_at(opts, c, 0, j));
    }
}

/// A possible member for `n` with an entry of option `j` and amount `a` is
/// held once the candidate `(a, j)` was worked through: alone where nothing
/// can be placed in `n - a`, and else as a member of the set for `n - a`
/// with that entry.
pub proof fn lemma_candidate_covers(
    opts: Seq<OptModel>,
    n: nat,
    j: int,
    a: nat,
    from: Seq<Seq<Pick>>,
    next: Seq<Seq<Pick>>,
    c: Seq<Pick>,
    k: int,
)
    requires
        candidate(opts, n, j, a),
        set_for(opts, (n - a) as nat, from),
        from.len() == 0 ==> holds(next, seq![Pick { opt: opts[j], amount: a }]),
        forall|t: int|
            0 <= t < from.len() ==> holds(
                next,
                with_pick(#[trigger] from[t], Pick { opt: opts[j], amount: a }),
            ),
        member_ok(opts, n, c),
        met_at(opts, c, k, j),
        c[k].amount == a,
    ensures
        holds(next, c),
{
    let p = Pick { opt: opts[j], amount: a };
    let m = (n - a) as nat;
    let rest = c.remove(k);
    assert(c[k] == p);
    assert(rest.insert(k, p) =~= c);
    lemma_totals_insert(rest, k, p);
    assert forall|i: int| 0 <= i < rest.len() implies usable(opts, #[trigger] rest[i]) by {
        if i < k {
            assert(rest[i] == c[i]);
        } else {
            assert(rest[i] == c[i + 1]);
        }
    }
    assert(spent(opts, m, rest));
    lemma_remove_keeps_canonical(c, k);
    if rest.len() == 0 {
        assert(c =~= seq![p]);
        assert(exhausted(opts, m));
    } else {
        assert(member_ok(opts, m, rest));
        assert(holds(from, rest));
        let t = choose|t: int| 0 <= t < from.len() && same_entries(#[trigger] from[t], rest);
        assert(member_ok(opts, m, from[t]));
        let built = with_pick(from[t], p);
        lemma_insert_keeps_canonical(from[t], p);
        lemma_with_pick_keys(from[t], p);
        lemma_same_entries_keys(from[t], rest);
        lemma_insert_keys(rest, k, p);
        law_canonical_form(built, c);
        lemma_holds_same(next, built, c);
    }
}

/// What offering one acceptable combination does to a set.
pub proof fn lemma_inserted(opts: Seq<OptModel>, n: nat, members: Seq<Seq<Pick>>, c: Seq<Pick>)
    requires
        members_ok(opts, n, members),
        member_ok(opts, n, c),
    ensures
        members_ok(opts, n, inserted(members, c)),
        inserted(members, c).len() > 0,
        top_value(members) <= top_value(inserted(members, c)),
        names_identify(opts) ==> total_value(c) <= top_value(inserted(members, c)),
{
    if holds(members, c) {
        let k = choose|k: int| 0 <= k < members.len() && same_entries(#[trigger] members[k], c);
        assert(member_ok(opts, n, members[k]));
        lemma_top_bounds(members, k);
        if names_identify(opts) {
            lemma_same_entries_equal(opts, members[k], c);
        }
    } else {
        let next = members.push(c);
        lemma_top_push(members, c);
        assert forall|m: int| 0 <= m < next.len() implies member_ok(opts, n, #[trigger] next[m]) by {
            if m < members.len() {
                assert(next[m] == members[m]);
            }
        }
        assert forall|i: int, j: int| 0 <= i < j < next.len() implies !same_entries(
            #[trigger] next[i],
            #[trigger] next[j],
        ) by {
            assert(next[i] == members[i]);
            if j < members.len() {
                assert(next[j] == members[j]);
            }
        }
    }
}

/// What extending a set for `n` by the set for `n - a`, with one more entry
/// for option `j`, does to it.
pub proof fn lemma_extended(
    opts: Seq<OptModel>,
    n: nat,
    j: int,
    a: nat,
    members: Seq<Seq<Pick>>,
    from: Seq<Seq<Pick>>,
)
    requires
        candidate(opts, n, j, a),
        members_ok(opts, n, members),
        forall|m: int| 0 <= m < from.len() ==> member_ok(opts, (n - a) as nat, #[trigger] from[m]),
    ensures
        members_ok(opts, n, extended(members, from, Pick { opt: opts[j], amount: a })),
        top_value(members) <= top_value(extended(members, from, Pick { opt: opts[j], amount: a })),
        from.len() > 0 ==> extended(members, from, Pick { opt: opts[j], amount: a }).len() > 0,
        names_identify(opts) ==> forall|m: int|
            0 <= m < from.len() ==> total_value(#[trigger] from[m]) + opts[j].gain_for(a)
                <= top_value(extended(members, from, Pick { opt: opts[j], amount: a })),
    decreases from.len(),
{
    let p = Pick { opt: opts[j], amount: a };
    if from.len() > 0 {
        let c = with_pick(from.last(), p);
        assert(member_ok(opts, (n - a) as nat, from.last()));
        lemma_insertion_index(from.last(), p);
        lemma_spent_insert(opts, n, j, a, from.last(), insertion_index(from.last(), p));
        lemma_insert_keeps_canonical(from.last(), p);
        let mid = inserted(members, c);
        lemma_inserted(opts, n, members, c);
        let rest = from.drop_last();
        assert forall|m: int| 0 <= m < rest.len() implies member_ok(
            opts,
            (n - a) as nat,
            #[trigger] rest[m],
        ) by {
            assert(rest[m] == from[m]);
        }
        lemma_extended(opts, n, j, a, mid, rest);
        let out = extended(members, from, p);
        assert(out == extended(mid, rest, p));
        if rest.len() == 0 {
            assert(out == mid);
        }
        if names_identify(opts) {
            assert forall|m: int| 0 <= m < from.len() implies total_value(#[trigger] from[m])
                + opts[j].gain_for(a) <= top_value(out) by {
                if m < rest.len() {
                    assert(rest[m] == from[m]);
                }
            }
        }
    }
}

/// A set whose members are in order, and which has met every candidate, is
/// the set for `n`.
pub proof fn lemma_set_complete(opts: Seq<OptModel>, n: nat, i: nat, members: Seq<Seq<Pick>>)
    requires
        members_ok(opts, n, members),
        i > n,
        covered(opts, n, i, 0, members),
        members.len() == 0 ==> scanned(opts, n, i, 0, -1),
        names_identify(opts) ==> scanned(opts, n, i, 0, top_value(members)),
    ensures
        set_for(opts, n, members),
{
    lemma_covered_end(opts, n, i, members);
    if members.len() == 0 {
        lemma_scan_nothing(opts, n, i, -1);
    } else {
        assert(member_ok(opts, n, members[0]));
        if exhausted(opts, n) {
            lemma_exhausted_empty(opts, n, members[0]);
        }
        if names_identify(opts) {
            let k = lemma_top_attained(members);
            assert(member_ok(opts, n, members[k]));
            lemma_scan_end(opts, n, i, top_value(members));
            lemma_best_value_is_max(opts, n, members[k]);
        }
    }
}

/// The best member of the set for `n`, or the empty combination where the
/// set is empty, spends `n` as far as it can be spent; where a name stands
/// for one option, it is a best combination.
pub proof fn lemma_set_answer(opts: Seq<OptModel>, n: nat, members: Seq<Seq<Pick>>, c: Seq<Pick>)
    requires
        set_for(opts, n, members),
        members.len() == 0 ==> c.len() == 0,
        members.len() > 0 ==> total_value(c) == top_value(members) && exists|k: int|
            0 <= k < members.len() && members[k] == c,
    ensures
        spent(opts, n, c),
        canonical(c),
        names_identify(opts) ==> best_within(opts, n, c),
{
    if members.len() == 0 {
        lemma_exhausted_value(opts, n);
        assert(c =~= Seq::<Pick>::empty());
    } else {
        let k = choose|k: int| 0 <= k < members.len() && members[k] == c;
        assert(member_ok(opts, n, members[k]));
    }
    lemma_best_iff_value(opts, n, c);
}

/// A set of combinations. It stands where a hash set would: `insert` keeps
/// out what the set already holds.
pub struct SolutionSet<'a> {
    members: Vec<OptCombination<'a>>,
}

impl<'a> View for SolutionSet<'a> {
    type V = Seq<Seq<Pick>>;

    closed spec fn view(&self) -> Seq<Seq<Pick>> {
        Seq::new(self.members@.len(), |k: int| self.members@[k]@)
    }
}

impl<'a> SolutionSet<'a> {
    /// The empty set.
    pub fn new() -> (set: Self)
        ensures
            set@ == Seq::<Seq<Pick>>::empty(),
    {
        let set = SolutionSet { members: Vec::new() };
        assert(set@ =~= Seq::<Seq<Pick>>::empty());
        set
    }

    /// The number of members.
    pub fn len(&self) -> (n: usize)
        ensures
            n == self@.len(),
    {
        self.members.len()
    }

    /// The member at `index`.
    pub fn get(&self, index: usize) -> (member: &OptCombination<'a>)
        requires
            index < self@.len(),
        ensures
            member@ == self@[index as int],
    {
        &self.members[index]
    }

    /// Adds `c` unless the set holds a combination with the same entries.
    /// Says whether it was added.
    pub fn insert(&mut self, c: OptCombination<'a>) -> (added: bool)
        ensures
            added == !holds(old(self)@, c@),
            final(self)@ == if added { old(self)@.push(c@) } else { old(self)@ },
            no_repeats(old(self)@) ==> no_repeats(final(self)@),
    {
        let mut k: usize = 0;
        while k < self.members.len()
            invariant
                k <= self.members@.len(),
                *self == *old(self),
                forall|i: int| 0 <= i < k ==> !same_entries(#[trigger] self@[i], c@),
            decreases self.members@.len() - k,
        {
            if self.members[k].same_as(&c) {
                assert(same_entries(self@[k as int], c@));
                return false;
            }
            k += 1;
        }
        self.members.push(c);
        assert(self@ =~= old(self)@.push(c@));
        proof {
            if no_repeats(old(self)@) {
                assert forall|i: int, j: int| 0 <= i < j < self@.len() implies !same_entries(
                    #[trigger] self@[i],
                    #[trigger] self@[j],
                ) by {
                    assert(self@[i] == old(self)@[i]);
                    if j < old(self)@.len() {
                        assert(self@[j] == old(self)@[j]);
                    }
                }
            }
        }
        true
    }

    /// Takes the last member out.
    pub fn pop(&mut self) -> (member: Option<OptCombination<'a>>)
        ensures
            old(self)@.len() == 0 ==> member is None && final(self)@ == old(self)@,
            old(self)@.len() > 0 ==> (member matches Some(c) && c@ == old(self)@.last()),
            old(self)@.len() > 0 ==> final(self)@ == old(self)@.drop_last(),
    {
        let member = self.members.pop();
        proof {
            if old(self)@.len() > 0 {
                assert(self@ =~= old(self)@.drop_last());
            } else {
                assert(self@ =~= old(self)@);
            }
        }
        member
    }

    /// Gives each member of `from` the pair `(opt, amount)`, and adds it
    /// unless the set holds a combination with the same entries.
    pub fn extend_with(&mut self, from: SolutionSet<'a>, opt: &'a Opt, amount: u32)
        ensures
            final(self)@ == extended(
                old(self)@,
                from@,
                Pick { opt: opt@, amount: amount as nat },
            ),
    {
        let ghost p = Pick { opt: opt@, amount: amount as nat };
        let mut from = from;
        let ghost whole = from@;
        while from.len() > 0
            invariant
                p == (Pick { opt: opt@, amount: amount as nat }),
                extended(self@, from@, p) == extended(old(self)@, whole, p),
            decreases from@.len(),
        {
            let mut c = from.pop().unwrap();
            c.add(opt, amount);
            self.insert(c);
        }
    }

    /// The member of the highest value: the last of them where several share
    /// it. `None` for the empty set.
    pub fn into_best(self) -> (best: Option<OptCombination<'a>>)
        ensures
            self@.len() == 0 ==> best is None,
            self@.len() > 0 ==> (best matches Some(c) && total_value(c@) == top_value(self@)
                && exists|k: int| 0 <= k < self@.len() && self@[k] == c@),
    {
        let mut members = self.members;
        if members.len() == 0 {
            return None;
        }
        let mut at: usize = 0;
        let mut top: u128 = members[0].value();
        let mut k: usize = 1;
        proof {
            assert(self@.take(1) =~= Seq::<Seq<Pick>>::empty().push(self@[0]));
            lemma_top_push(Seq::<Seq<Pick>>::empty(), self@[0]);
        }
        while k < members.len()
            invariant
                1 <= k <= members@.len(),
                members@ == self.members@,
                at < k,
                top == total_value(self@[at as int]),
                top == top_value(self@.take(k as int)),
            decreases members@.len() - k,
        {
            let value = members[k].value();
            proof {
                assert(self@.take(k + 1) =~= self@.take(k as int).push(self@[k as int]));
                lemma_top_push(self@.take(k as int), self@[k as int]);
            }
            if value >= top {
                at = k;
                top = value;
            }
            k += 1;
        }
        assert(self@.take(k as int) =~= self@);
        let best = members.swap_remove(at);
        assert(best@ == self@[at as int]);
        Some(best)
    }
}

impl<'a> Clone for SolutionSet<'a> {
    fn clone(&self) -> (copy: Self)
        ensures
            copy@ == self@,
    {
        let mut members: Vec<OptCombination<'a>> = Vec::new();
        let mut k: usize = 0;
        while k < self.members.len()
            invariant
                k <= self.members@.len(),
                members@.len() == k,
                forall|i: int| 0 <= i < k ==> (#[trigger] members@[i])@ == self.members@[i]@,
            decreases self.members@.len() - k,
        {
            members.push(self.members[k].clone());
            k += 1;
        }
        let copy = SolutionSet { members };
        assert(copy@ =~= self@);
        copy
    }
}

} // verus!
