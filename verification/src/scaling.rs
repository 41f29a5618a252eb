//! Solving at a coarser grain: options and quantity divided by a scale before
//! solving, and the amounts of the answer multiplied back afterwards. The
//! scaled problem is another problem, so what comes back is an
//! approximation of the answer to the problem as it was given.

use vstd::prelude::*;
use vstd::arithmetic::div_mod::lemma_fundamental_div_mod;
use vstd::arithmetic::div_mod::lemma_fundamental_div_mod_converse;
use crate::model::{OptModel, Pick};
use crate::opt::{option_models, Opt, OptCombination};
use crate::order::with_pick;

verus! {

/// `x / d`, rounded up.
pub open spec fn div_up(x: nat, d: nat) -> nat {
    ((x + d - 1) / d as int) as nat
}

/// The option at the coarser grain: `start` divided and rounded up, `end`
/// and `bonus` divided and rounded down, the rest as it was.
pub open spec fn scaled_model(o: OptModel, scale: nat) -> OptModel {
    OptModel {
        name: o.name,
        start: div_up(o.start, scale),
        end: o.end / scale,
        interest: o.interest,
        bonus: o.bonus / scale,
    }
}

/// `x / d` and one more where the division leaves a remainder.
proof fn lemma_div_up(x: int, d: int)
    requires
        x >= 0,
        d >= 1,
    ensures
        (x + d - 1) / d == x / d + if x > 0 && x / d == (x - 1) / d { 1int } else { 0int },
        x > 0 && x / d == (x - 1) / d ==> x / d < x,
{
    let q = x / d;
    let r = x % d;
    lemma_fundamental_div_mod(x, d);
    assert(d * q == q * d) by (nonlinear_arith);
    assert(q >= 0) by (nonlinear_arith)
        requires
            x == q * d + r,
            0 <= r < d,
            x >= 0,
    ;
    if r >= 1 {
        lemma_fundamental_div_mod_converse(x - 1, d, q, r - 1);
        assert((q + 1) * d == q * d + d) by (nonlinear_arith);
        lemma_fundamental_div_mod_converse(x + d - 1, d, q + 1, r - 1);
        assert(q < x) by (nonlinear_arith)
            requires
                x == q * d + r,
                r >= 1,
                d >= 1,
                q >= 0,
        ;
    } else {
        lemma_fundamental_div_mod_converse(x + d - 1, d, q, d - 1);
        if x > 0 {
            assert((q - 1) * d == q * d - d) by (nonlinear_arith);
            lemma_fundamental_div_mod_converse(x - 1, d, q - 1, d - 1);
        }
    }
}

/// The option at the coarser grain.
pub fn scale_opt(opt: &Opt, scale: u32) -> (scaled: Opt)
    requires
        scale >= 1,
    ensures
        scaled@ == scaled_model(opt@, scale as nat),
{
    proof {
        lemma_div_up(opt.start as int, scale as int);
    }
    let round_up: u32 = if opt.start > 0 && opt.start / scale == (opt.start - 1) / scale {
        1
    } else {
        0
    };
    Opt {
        name: opt.name.clone(),
        start: opt.start / scale + round_up,
        end: opt.end / scale,
        interest: opt.interest,
        bonus: opt.bonus / scale,
    }
}

/// The options at the coarser grain, in their order.
pub fn scale_opts(opts: &Vec<Opt>, scale: u32) -> (scaled: Vec<Opt>)
    requires
        scale >= 1,
    ensures
        scaled@.len() == opts@.len(),
        forall|j: int|
            0 <= j < opts@.len() ==> (#[trigger] scaled@[j])@ == scaled_model(
                opts@[j]@,
                scale as nat,
            ),
{
    let mut scaled: Vec<Opt> = Vec::new();
    let mut j: usize = 0;
    while j < opts.len()
        invariant
            scale >= 1,
            j <= opts@.len(),
            scaled@.len() == j,
            forall|i: int|
                0 <= i < j ==> (#[trigger] scaled@[i])@ == scaled_model(opts@[i]@, scale as nat),
        decreases opts@.len() - j,
    {
        scaled.push(scale_opt(&opts[j], scale));
        j += 1;
    }
    scaled
}

/// Option `j` is the first of the list with the given name.
pub open spec fn is_first_named(opts: Seq<OptModel>, name: Seq<char>, j: int) -> bool {
    &&& 0 <= j < opts.len()
    &&& opts[j].name == name
    &&& forall|i: int| 0 <= i < j ==> (#[trigger] opts[i]).name != name
}

/// No option of the list has the given name.
pub open spec fn none_named(opts: Seq<OptModel>, name: Seq<char>) -> bool {
    forall|i: int| 0 <= i < opts.len() ==> (#[trigger] opts[i]).name != name
}

/// The first option of the list with the given name.
pub fn find_named<'a>(opts: &'a Vec<Opt>, name: &String) -> (found: Option<&'a Opt>)
    ensures
        match found {
            Some(opt) => exists|j: int|
                is_first_named(option_models(opts@), name@, j) && option_models(opts@)[j] == opt@,
            None => none_named(option_models(opts@), name@),
        },
{
    let mut j: usize = 0;
    while j < opts.len()
        invariant
            j <= opts@.len(),
            forall|i: int| 0 <= i < j ==> (#[trigger] option_models(opts@)[i]).name != name@,
        decreases opts@.len() - j,
    {
        if opts[j].name == *name {
            assert(is_first_named(option_models(opts@), name@, j as int));
            return Some(&opts[j]);
        }
        j += 1;
    }
    None
}

/// Entry `p` of a scaled answer, at the fine grain: the first option of
/// `fine` with its name, and `scale` times its amount. `None` where no
/// option has the name or the amount does not fit.
pub open spec fn unscaled_pick(p: Pick, fine: Seq<OptModel>, scale: nat) -> Option<Pick> {
    if scale * p.amount <= u32::MAX && exists|j: int| is_first_named(fine, p.opt.name, j) {
        let j = choose|j: int| is_first_named(fine, p.opt.name, j);
        Some(Pick { opt: fine[j], amount: scale * p.amount })
    } else {
        None
    }
}

/// The scaled answer at the fine grain: each entry in turn, put where
/// the canonical order wants it. `None` where an entry has none.
pub open spec fn unscaled(picks: Seq<Pick>, fine: Seq<OptModel>, scale: nat) -> Option<
    Seq<Pick>,
>
    decreases picks.len(),
{
    if picks.len() == 0 {
        Some(Seq::empty())
    } else {
        match (
            unscaled(picks.drop_last(), fine, scale),
            unscaled_pick(picks.last(), fine, scale),
        ) {
            (Some(done), Some(p)) => Some(with_pick(done, p)),
            _ => None,
        }
    }
}

/// Only one option is the first of its name.
proof fn lemma_first_named_unique(opts: Seq<OptModel>, name: Seq<char>, i: int, j: int)
    requires
        is_first_named(opts, name, i),
        is_first_named(opts, name, j),
    ensures
        i == j,
{
}

/// The answer of a scaled problem at the fine grain.
pub fn unscale<'a>(solution: &OptCombination<'_>, fine: &'a Vec<Opt>, scale: u32) -> (out:
    Option<OptCombination<'a>>)
    ensures
        match out {
            Some(c) => unscaled(solution@, option_models(fine@), scale as nat) == Some(c@),
            None => unscaled(solution@, option_models(fine@), scale as nat) is None,
        },
{
    let ghost models = option_models(fine@);
    let mut out = OptCombination::new();
    let mut k: usize = 0;
    while k < solution.len()
        invariant
            k <= solution@.len(),
            models == option_models(fine@),
            unscaled(solution@.take(k as int), models, scale as nat) == Some(out@),
        decreases solution@.len() - k,
    {
        let pair = solution.get(k);
        let ghost p = solution@[k as int];
        proof {
            assert(solution@.take(k + 1).drop_last() =~= solution@.take(k as int));
            assert(solution@.take(k + 1).last() == p);
        }
        let found = find_named(fine, &pair.0.name);
        let amount = scale.checked_mul(pair.1);
        match (found, amount) {
            (Some(opt), Some(amount)) => {
                proof {
                    let j = choose|j: int|
                        is_first_named(models, p.opt.name, j) && models[j] == opt@;
                    let c = choose|c: int| is_first_named(models, p.opt.name, c);
                    lemma_first_named_unique(models, p.opt.name, j, c);
                }
                out.add(opt, amount);
            },
            _ => {
                proof {
                    if found is None {
                        assert forall|j: int| !is_first_named(models, p.opt.name, j) by {
                            if 0 <= j < models.len() {
                                assert(models[j].name != p.opt.name);
                            }
                        }
                    }
                    assert(unscaled_pick(p, models, scale as nat) is None);
                    lemma_unscaled_fails(solution@, models, scale as nat, k as int);
                }
                return None;
            },
        }
        k += 1;
    }
    assert(solution@.take(k as int) =~= solution@);
    Some(out)
}

/// Where one entry has no counterpart, neither has the whole.
proof fn lemma_unscaled_fails(picks: Seq<Pick>, fine: Seq<OptModel>, scale: nat, k: int)
    requires
        0 <= k < picks.len(),
        unscaled_pick(picks[k], fine, scale) is None,
    ensures
        unscaled(picks, fine, scale) is None,
    decreases picks.len(),
{
    if k < picks.len() - 1 {
        lemma_unscaled_fails(picks.drop_last(), fine, scale, k);
    }
}

} // verus!
