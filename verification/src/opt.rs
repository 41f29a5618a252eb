//! Options and combinations of them.

use vstd::prelude::*;
use vstd::utf8::encode_utf8;
use crate::lemmas::{lemma_totals_insert, lemma_totals_push};
use crate::model::{total_amount, total_value, OptModel, Pick};
use crate::order::{
    canonical, insertion_index, lemma_bytes_common_prefix, lemma_insert_keeps_canonical,
    lemma_insertion_index_unique, name_precedes, pick_precedes, same_entries,
};

verus! {

/// One allocation choice: it takes an amount in `start..=end` and pays
/// `amount * interest + bonus` for it.
///
/// `interest` and `bonus` are whole millionths: an interest of 1.1 % per unit
/// is `11_000`.
#[derive(Debug)]
pub struct Opt {
    pub name: String,
    pub start: u32,
    pub end: u32,
    pub interest: u32,
    pub bonus: u32,
}

impl View for Opt {
    type V = OptModel;

    open spec fn view(&self) -> OptModel {
        OptModel {
            name: self.name@,
            start: self.start as nat,
            end: self.end as nat,
            interest: self.interest as nat,
            bonus: self.bonus as nat,
        }
    }
}

impl Clone for Opt {
    fn clone(&self) -> (copy: Self)
        ensures
            copy == *self,
    {
        Opt {
            name: self.name.clone(),
            start: self.start,
            end: self.end,
            interest: self.interest,
            bonus: self.bonus,
        }
    }
}

/// Two options are the same option when they have the same name.
impl PartialEq for Opt {
    fn eq(&self, other: &Opt) -> (same: bool) {
        self.name == other.name
    }
}

impl Eq for Opt {

}

/// An option hashes as its name does, so that options that are equal hash
/// alike.
impl core::hash::Hash for Opt {
    /// Hands the name, and nothing else, to `String`'s `hash`. No contract
    /// says what the hasher then holds.
    #[verifier::external_body]
    fn hash<H: core::hash::Hasher>(&self, state: &mut H) {
        self.name.hash(state);
    }
}

impl vstd::std_specs::cmp::PartialEqSpecImpl for Opt {
    open spec fn obeys_eq_spec() -> bool {
        true
    }

    open spec fn eq_spec(&self, other: &Opt) -> bool {
        self.name@ == other.name@
    }
}

impl Opt {
    /// The profit of putting `amount` into this option, in millionths.
    pub fn gain_for(&self, amount: u32) -> (gain: u64)
        ensures
            gain == self@.gain_for(amount as nat),
    {
        assert(amount * self.interest + self.bonus <= u64::MAX) by (nonlinear_arith)
            requires
                amount <= u32::MAX,
                self.interest <= u32::MAX,
                self.bonus <= u32::MAX,
        ;
        amount as u64 * self.interest as u64 + self.bonus as u64
    }

    /// Whether this option takes `amount`.
    pub fn accepts(&self, amount: u32) -> (yes: bool)
        ensures
            yes == self@.accepts(amount as nat),
    {
        amount >= self.start && amount <= self.end
    }
}

/// The models of a list of options.
pub open spec fn option_models(opts: Seq<Opt>) -> Seq<OptModel> {
    Seq::new(opts.len(), |j: int| opts[j]@)
}

/// The models of a list of borrowed options.
pub open spec fn ref_models(opts: Seq<&Opt>) -> Seq<OptModel> {
    Seq::new(opts.len(), |j: int| opts[j]@)
}

/// Whether name `a` comes strictly before name `b`, as strings compare:
/// byte by byte.
fn name_lt(a: &str, b: &str) -> (before: bool)
    ensures
        before == name_precedes(a@, b@),
{
    let x = a.as_bytes();
    let y = b.as_bytes();
    let mut k: usize = 0;
    while k < x.len() && k < y.len()
        invariant
            x@ == encode_utf8(a@),
            y@ == encode_utf8(b@),
            k <= x@.len(),
            k <= y@.len(),
            forall|i: int| 0 <= i < k ==> x@[i] == y@[i],
        decreases x@.len() - k,
    {
        if x[k] != y[k] {
            proof {
                lemma_bytes_common_prefix(x@, y@, k as int);
                assert(x@.skip(k as int)[0] == x@[k as int]);
                assert(y@.skip(k as int)[0] == y@[k as int]);
            }
            return x[k] < y[k];
        }
        k += 1;
    }
    proof {
        lemma_bytes_common_prefix(x@, y@, k as int);
    }
    x.len() < y.len()
}

/// The entry that a stored pair stands for.
pub open spec fn pick_of(pair: (&Opt, u32)) -> Pick {
    Pick { opt: pair.0@, amount: pair.1 as nat }
}

/// The entries that a sequence of stored pairs stands for.
pub open spec fn picks_of(pairs: Seq<(&Opt, u32)>) -> Seq<Pick> {
    Seq::new(pairs.len(), |k: int| pick_of(pairs[k]))
}

/// A list of `(option, amount)` pairs: one candidate way to spend a quantity.
///
/// The options are borrowed from the caller's list. A combination hashes as
/// the list of its pairs does, each option by its name: combinations that
/// are equal hash alike.
#[derive(Debug, Hash)]
pub struct OptCombination<'a>(Vec<(&'a Opt, u32)>);

impl<'a> View for OptCombination<'a> {
    type V = Seq<Pick>;

    closed spec fn view(&self) -> Seq<Pick> {
        picks_of(self.0@)
    }
}

impl<'a> OptCombination<'a> {
    /// The empty combination.
    pub fn new() -> (c: Self)
        ensures
            c@ == Seq::<Pick>::empty(),
    {
        let c = OptCombination(Vec::new());
        assert(c@ =~= Seq::<Pick>::empty());
        c
    }

    /// The combination of one pair.
    pub fn new_with_opt(opt: &'a Opt, amount: u32) -> (c: Self)
        ensures
            c@ == seq![Pick { opt: opt@, amount: amount as nat }],
    {
        let mut pairs = Vec::new();
        pairs.push((opt, amount));
        let c = OptCombination(pairs);
        assert(c@ =~= seq![Pick { opt: opt@, amount: amount as nat }]);
        c
    }

    /// Puts a pair where the order by name and amount wants it, so that two
    /// combinations of the same pairs come out the same whatever the order
    /// in which they were built.
    pub fn add(&mut self, opt: &'a Opt, amount: u32)
        ensures
            final(self)@ == old(self)@.insert(
                insertion_index(old(self)@, Pick { opt: opt@, amount: amount as nat }),
                Pick { opt: opt@, amount: amount as nat },
            ),
            canonical(old(self)@) ==> canonical(final(self)@),
            total_amount(final(self)@) == total_amount(old(self)@) + amount,
            total_value(final(self)@) == total_value(old(self)@) + opt@.gain_for(amount as nat),
    {
        let ghost pick = Pick { opt: opt@, amount: amount as nat };
        let mut pos: usize = 0;
        while pos < self.0.len()
            invariant_except_break
                pos <= self.0.len(),
            invariant
                *self == *old(self),
                pick == (Pick { opt: opt@, amount: amount as nat }),
                forall|k: int| 0 <= k < pos ==> !pick_precedes(pick, #[trigger] self@[k]),
            ensures
                pos <= self.0.len(),
                pos < self.0.len() ==> pick_precedes(pick, self@[pos as int]),
            decreases self.0.len() - pos,
        {
            let other = self.0[pos].0;
            let other_amount = self.0[pos].1;
            if name_lt(opt.name.as_str(), other.name.as_str()) || (opt.name == other.name && amount
                < other_amount) {
                break ;
            }
            pos += 1;
        }
        proof {
            lemma_insertion_index_unique(self@, pick, pos as int);
            if canonical(self@) {
                lemma_insert_keeps_canonical(self@, pick);
            }
            lemma_totals_insert(self@, pos as int, pick);
        }
        self.0.insert(pos, (opt, amount));
        assert(self@ =~= old(self)@.insert(pos as int, pick));
    }

    /// Puts a pair at the end. This is cheaper than `add`, and gives up the
    /// canonical order.
    pub fn add_unordered(&mut self, opt: &'a Opt, amount: u32)
        ensures
            final(self)@ == old(self)@.push(Pick { opt: opt@, amount: amount as nat }),
    {
        self.0.push((opt, amount));
        assert(self@ =~= old(self)@.push(Pick { opt: opt@, amount: amount as nat }));
    }

    /// The sum of the gains of the pairs, in millionths.
    pub fn value(&self) -> (sum: u128)
        ensures
            sum == total_value(self@),
    {
        let mut sum: u128 = 0;
        let mut k: usize = 0;
        while k < self.0.len()
            invariant
                k <= self.0.len(),
                sum == total_value(self@.take(k as int)),
                sum <= k * u64::MAX,
            decreases self.0.len() - k,
        {
            let gain = self.0[k].0.gain_for(self.0[k].1);
            proof {
                assert(self@.take(k + 1) =~= self@.take(k as int).push(self@[k as int]));
                lemma_totals_push(self@.take(k as int), self@[k as int]);
                assert((k + 1) * u64::MAX == k * u64::MAX + u64::MAX) by (nonlinear_arith);
                assert((k + 1) * u64::MAX <= u128::MAX) by (nonlinear_arith)
                    requires
                        k + 1 <= u64::MAX,
                ;
            }
            sum = sum + gain as u128;
            k += 1;
        }
        assert(self@.take(k as int) =~= self@);
        sum
    }

    /// The number of pairs.
    pub fn len(&self) -> (n: usize)
        ensures
            n == self@.len(),
    {
        self.0.len()
    }

    /// The pair at `index`.
    pub fn get(&self, index: usize) -> (pair: (&'a Opt, u32))
        requires
            index < self@.len(),
        ensures
            pick_of(pair) == self@[index as int],
    {
        (self.0[index].0, self.0[index].1)
    }

    /// The pairs, in the order in which the combination keeps them.
    pub fn iter(&self) -> (pairs: core::slice::Iter<'_, (&'a Opt, u32)>)
        ensures
            picks_of(vstd::std_specs::slice::into_iter_elts(pairs)) == self@,
    {
        self.0.iter()
    }

    /// Whether the two combinations hold, place by place, the same amounts
    /// under the same names.
    pub fn same_as(&self, other: &OptCombination<'_>) -> (same: bool)
        ensures
            same == same_entries(self@, other@),
    {
        if self.0.len() != other.0.len() {
            return false;
        }
        let mut k: usize = 0;
        while k < self.0.len()
            invariant
                k <= self.0.len(),
                self.0.len() == other.0.len(),
                forall|i: int|
                    0 <= i < k ==> (#[trigger] self@[i]).opt.name == (#[trigger] other@[i]).opt.name
                        && self@[i].amount == other@[i].amount,
            decreases self.0.len() - k,
        {
            if self.0[k].1 != other.0[k].1 || self.0[k].0.name != other.0[k].0.name {
                assert(self@[k as int].amount != other@[k as int].amount || self@[k as int].opt.name
                    != other@[k as int].opt.name);
                return false;
            }
            k += 1;
        }
        true
    }

    /// The pairs, for changing them in place. A changed amount may leave
    /// the pairs out of canonical order.
    pub fn iter_mut(&mut self) -> (pairs: &mut [(&'a Opt, u32)])
        ensures
            picks_of(pairs@) == old(self)@,
            final(self)@ == picks_of(final(pairs)@),
    {
        self.0.as_mut_slice()
    }
}

/// Two combinations are the same when they hold, place by place, the same
/// amounts under the same names.
impl<'a> PartialEq for OptCombination<'a> {
    fn eq(&self, other: &OptCombination<'a>) -> (same: bool) {
        self.same_as(other)
    }
}

impl<'a> Eq for OptCombination<'a> {

}

impl<'a> vstd::std_specs::cmp::PartialEqSpecImpl for OptCombination<'a> {
    open spec fn obeys_eq_spec() -> bool {
        true
    }

    open spec fn eq_spec(&self, other: &OptCombination<'a>) -> bool {
        same_entries(self@, other@)
    }
}

impl<'a> Clone for OptCombination<'a> {
    fn clone(&self) -> (copy: Self)
        ensures
            copy@ == self@,
    {
        let mut pairs: Vec<(&'a Opt, u32)> = Vec::new();
        let mut k: usize = 0;
        while k < self.0.len()
            invariant
                k <= self.0.len(),
                pairs@ == self.0@.take(k as int),
            decreases self.0.len() - k,
        {
            pairs.push((self.0[k].0, self.0[k].1));
            assert(self.0@.take(k + 1) =~= self.0@.take(k as int).push(self.0@[k as int]));
            k += 1;
        }
        assert(self.0@.take(k as int) =~= self.0@);
        OptCombination(pairs)
    }
}

} // verus!
