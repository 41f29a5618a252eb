//! The mathematical model that every contract in this crate is stated over.

use vstd::prelude::*;

verus! {

/// An option as the contracts see it: its name as a sequence of characters,
/// and its numbers as natural numbers.
pub struct OptModel {
    pub name: Seq<char>,
    pub start: nat,
    pub end: nat,
    pub interest: nat,
    pub bonus: nat,
}

impl OptModel {
    /// The option takes `amount` when it lies in `start..=end`.
    pub open spec fn accepts(self, amount: nat) -> bool {
        self.start <= amount <= self.end
    }

    /// The profit of putting `amount` into the option.
    pub open spec fn gain_for(self, amount: nat) -> nat {
        amount * self.interest + self.bonus
    }
}

/// One entry of a combination: an option and the amount put into it.
pub struct Pick {
    pub opt: OptModel,
    pub amount: nat,
}

impl Pick {
    /// The profit of the entry.
    pub open spec fn gain(self) -> nat {
        self.opt.gain_for(self.amount)
    }
}

/// The sum of the amounts of `picks`.
pub open spec fn total_amount(picks: Seq<Pick>) -> nat
    decreases picks.len(),
{
    if picks.len() == 0 {
        0
    } else {
        total_amount(picks.drop_last()) + picks.last().amount
    }
}

/// The sum of the gains of `picks`.
pub open spec fn total_value(picks: Seq<Pick>) -> nat
    decreases picks.len(),
{
    if picks.len() == 0 {
        0
    } else {
        total_value(picks.drop_last()) + picks.last().gain()
    }
}

/// `p` names one of `opts` and gives it a positive amount that it accepts.
pub open spec fn usable(opts: Seq<OptModel>, p: Pick) -> bool {
    &&& opts.contains(p.opt)
    &&& p.amount >= 1
    &&& p.opt.accepts(p.amount)
}

/// Every entry of `picks` is usable.
pub open spec fn feasible(opts: Seq<OptModel>, picks: Seq<Pick>) -> bool {
    forall|k: int| 0 <= k < picks.len() ==> usable(opts, #[trigger] picks[k])
}

/// `picks` is feasible and spends at most `n`.
pub open spec fn within(opts: Seq<OptModel>, n: nat, picks: Seq<Pick>) -> bool {
    feasible(opts, picks) && total_amount(picks) <= n
}

/// No option takes any positive amount up to `rest`: nothing more can be
/// placed.
pub open spec fn exhausted(opts: Seq<OptModel>, rest: nat) -> bool {
    forall|j: int, a: nat|
        0 <= j < opts.len() && 1 <= a <= rest ==> !(#[trigger] opts[j].accepts(a))
}

/// `picks` spends at most `n`, and what it leaves over cannot be placed.
pub open spec fn spent(opts: Seq<OptModel>, n: nat, picks: Seq<Pick>) -> bool {
    &&& within(opts, n, picks)
    &&& exhausted(opts, (n - total_amount(picks)) as nat)
}

/// `picks` is worth at least as much as any combination within `n`.
pub open spec fn best_within(opts: Seq<OptModel>, n: nat, picks: Seq<Pick>) -> bool {
    &&& within(opts, n, picks)
    &&& forall|other: Seq<Pick>| #[trigger]
        within(opts, n, other) ==> total_value(other) <= total_value(picks)
}

/// Option `j` can take `a` as one part of `n`.
pub open spec fn candidate(opts: Seq<OptModel>, n: nat, j: int, a: nat) -> bool {
    &&& 0 <= j < opts.len()
    &&& 1 <= a <= n
    &&& opts[j].accepts(a)
}

/// The greatest value that a combination within `n` can have.
pub open spec fn best_value(opts: Seq<OptModel>, n: nat) -> nat {
    total_value(choose|picks: Seq<Pick>| best_within(opts, n, picks))
}

} // verus!
