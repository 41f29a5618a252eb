use optalloc::brute_force::BruteForce;
use optalloc::dynamic_programming::{DynamicProgramming, DynamicProgrammingOptimized};
use optalloc::greedy::Greedy;
use optalloc::opt::{Opt, OptCombination};
use optalloc::optimal_substructure::OptimalSubstructure;
use optalloc::overlapping_subproblems::OverlappingSubproblems;

fn opt(name: &str, start: u32, end: u32, interest: u32, bonus: u32) -> Opt {
    Opt { name: name.to_string(), start, end, interest, bonus }
}

fn canonical_options() -> Vec<Opt> {
    vec![
        opt("o1", 1, 2, 11_000, 10_000),
        opt("o2", 3, 4, 16_000, 22_000),
        opt("o3", 5, 9, 18_000, 25_000),
        opt("o4", 10, 19, 20_000, 40_000),
    ]
}

fn entries(combo: &OptCombination) -> Vec<(String, u32)> {
    let mut pairs: Vec<_> = combo.iter().map(|pair| (pair.0.name.clone(), pair.1)).collect();
    pairs.sort();
    pairs
}

fn in_order(combo: &OptCombination) -> Vec<(String, u32)> {
    combo.iter().map(|pair| (pair.0.name.clone(), pair.1)).collect()
}

fn named(pairs: &[(&str, u32)]) -> Vec<(String, u32)> {
    pairs.iter().map(|pair| (pair.0.to_string(), pair.1)).collect()
}

fn amount_of(combo: &OptCombination) -> u64 {
    combo.iter().map(|pair| pair.1 as u64).sum()
}

/// The answers of the six exact solvers: the two that enumerate, the two
/// that keep one best combination, and the optimised one called both ways.
fn exact_answers<'a>(opts: &'a Vec<Opt>, n: u32) -> Vec<OptCombination<'a>> {
    vec![
        BruteForce::with_opts(opts).solve(n),
        OverlappingSubproblems::with_opts(opts).solve(n),
        OptimalSubstructure::with_opts(opts).solve(n),
        DynamicProgramming::with_opts(opts).solve_recursively(n),
        DynamicProgrammingOptimized::with_opts(opts).solve_recursively(n),
        DynamicProgrammingOptimized::with_opts(opts).solve_iter(n),
    ]
}

fn assert_feasible(opts: &Vec<Opt>, combo: &OptCombination, n: u32) {
    for pair in combo.iter() {
        assert!(opts.iter().any(|o| std::ptr::eq(o, pair.0)));
        assert!(pair.1 >= 1);
        assert!(pair.0.accepts(pair.1));
    }
    assert!(amount_of(combo) <= n as u64);
}

#[test]
fn exact_solvers_agree_on_every_small_quantity() {
    let opts = canonical_options();
    let expected: [u128; 15] = [
        0, 21_000, 42_000, 70_000, 91_000, 115_000, 140_000, 161_000, 185_000, 210_000, 240_000,
        261_000, 282_000, 310_000, 331_000,
    ];
    for n in 0..15u32 {
        for answer in exact_answers(&opts, n) {
            assert_eq!(answer.value(), expected[n as usize]);
        }
    }
}

#[test]
fn exact_solvers_spend_all_where_an_option_takes_one() {
    let opts = canonical_options();
    for n in 0..13u32 {
        for answer in exact_answers(&opts, n) {
            assert_feasible(&opts, &answer, n);
            assert_eq!(amount_of(&answer), n as u64);
        }
    }
}

#[test]
fn exact_solvers_leave_what_cannot_be_placed() {
    let opts = vec![opt("x", 3, 4, 10_000, 5_000)];
    let expected: [(u128, u64); 9] = [
        (0, 0),
        (0, 0),
        (0, 0),
        (35_000, 3),
        (45_000, 4),
        (45_000, 4),
        (70_000, 6),
        (80_000, 7),
        (90_000, 8),
    ];
    for n in 0..9u32 {
        for answer in exact_answers(&opts, n) {
            assert_feasible(&opts, &answer, n);
            assert_eq!((answer.value(), amount_of(&answer)), expected[n as usize]);
        }
    }
}

#[test]
fn every_solver_answers_zero_with_the_empty_combination() {
    let opts = canonical_options();
    for answer in exact_answers(&opts, 0) {
        assert_eq!(answer.len(), 0);
        assert_eq!(answer.value(), 0);
    }
    let greedy = Greedy::with_opts(&opts).solve(0);
    assert_eq!(greedy.len(), 0);
    assert_eq!(greedy.value(), 0);
}

#[test]
fn every_solver_answers_an_empty_list_with_the_empty_combination() {
    let opts: Vec<Opt> = Vec::new();
    for n in [0u32, 1, 7] {
        for answer in exact_answers(&opts, n) {
            assert_eq!(answer.len(), 0);
        }
        assert_eq!(Greedy::with_opts(&opts).solve(n).len(), 0);
    }
}

#[test]
fn every_solver_answers_with_the_empty_combination_where_nothing_fits() {
    let opts = vec![opt("far", 10, 19, 20_000, 40_000), opt("never", 5, 4, 1, 1)];
    for answer in exact_answers(&opts, 9) {
        assert_eq!(answer.len(), 0);
        assert_eq!(answer.value(), 0);
    }
    let far = vec![opt("far", 10, 19, 20_000, 40_000)];
    assert_eq!(Greedy::with_opts(&far).solve(9).len(), 0);
}

#[test]
fn raising_an_interest_or_a_bonus_never_lowers_the_optimum() {
    let low = canonical_options();
    let mut more_interest = canonical_options();
    more_interest[2].interest = 30_000;
    let mut more_bonus = canonical_options();
    more_bonus[0].bonus = 10_001;
    for n in 0..13u32 {
        let base = DynamicProgrammingOptimized::with_opts(&low).solve_iter(n).value();
        let first = DynamicProgrammingOptimized::with_opts(&more_interest).solve_iter(n).value();
        let second = DynamicProgrammingOptimized::with_opts(&more_bonus).solve_iter(n).value();
        assert!(first >= base);
        assert!(second >= base);
    }
    let at_five = DynamicProgrammingOptimized::with_opts(&more_interest).solve_iter(5).value();
    assert_eq!(at_five, 175_000);
    let at_two = DynamicProgrammingOptimized::with_opts(&more_bonus).solve_iter(2).value();
    assert_eq!(at_two, 42_002);
}

#[test]
fn greedy_never_beats_the_exact_solvers() {
    let opts = canonical_options();
    let expected: [u128; 18] = [
        0, 21_000, 42_000, 70_000, 91_000, 112_000, 140_000, 161_000, 182_000, 210_000, 240_000,
        261_000, 282_000, 310_000, 331_000, 352_000, 380_000, 401_000,
    ];
    for n in 0..18u32 {
        let greedy = Greedy::with_opts(&opts).solve(n);
        let exact = DynamicProgrammingOptimized::with_opts(&opts).solve_iter(n);
        assert_feasible(&opts, &greedy, n);
        assert_eq!(greedy.value(), expected[n as usize]);
        assert!(greedy.value() <= exact.value());
    }
}

#[test]
fn greedy_can_fall_short_of_the_optimum() {
    let opts = vec![opt("a", 2, 2, 150_000, 0), opt("c", 3, 3, 0, 400_000)];
    let greedy = Greedy::with_opts(&opts).solve(3);
    assert_eq!(entries(&greedy), named(&[("a", 2)]));
    assert_eq!(greedy.value(), 300_000);
    for answer in exact_answers(&opts, 3) {
        assert_eq!(entries(&answer), named(&[("c", 3)]));
        assert_eq!(answer.value(), 400_000);
    }
}

#[test]
fn solving_twice_gives_the_same_value() {
    let opts = canonical_options();
    let mut overlapping = OverlappingSubproblems::with_opts(&opts);
    let mut plain = DynamicProgramming::with_opts(&opts);
    let mut recursive = DynamicProgrammingOptimized::with_opts(&opts);
    let mut iterative = DynamicProgrammingOptimized::with_opts(&opts);
    for _ in 0..2 {
        assert_eq!(overlapping.solve(12).value(), 282_000);
        assert_eq!(plain.solve_recursively(12).value(), 282_000);
        assert_eq!(recursive.solve_recursively(12).value(), 282_000);
        assert_eq!(iterative.solve_iter(12).value(), 282_000);
    }
}

#[test]
fn a_solver_can_be_asked_for_one_quantity_after_another() {
    let opts = canonical_options();
    let mut overlapping = OverlappingSubproblems::with_opts(&opts);
    let mut plain = DynamicProgramming::with_opts(&opts);
    let mut both = DynamicProgrammingOptimized::with_opts(&opts);
    assert_eq!(overlapping.solve(12).value(), 282_000);
    assert_eq!(overlapping.solve(5).value(), 115_000);
    assert_eq!(overlapping.solve(13).value(), 310_000);
    assert_eq!(plain.solve_recursively(12).value(), 282_000);
    assert_eq!(plain.solve_recursively(5).value(), 115_000);
    assert_eq!(plain.solve_recursively(13).value(), 310_000);
    assert_eq!(both.solve_iter(12).value(), 282_000);
    assert_eq!(both.solve_recursively(5).value(), 115_000);
    assert_eq!(both.solve_iter(13).value(), 310_000);
    assert_eq!(both.solve_recursively(0).value(), 0);
}

#[test]
fn the_order_of_the_options_does_not_change_the_optimum() {
    let mut opts = canonical_options();
    opts.reverse();
    for answer in exact_answers(&opts, 12) {
        assert_eq!(answer.value(), 282_000);
        assert_eq!(entries(&answer), named(&[("o1", 1), ("o1", 1), ("o4", 10)]));
    }
    opts.swap(0, 2);
    for answer in exact_answers(&opts, 9) {
        assert_eq!(answer.value(), 210_000);
        assert_eq!(entries(&answer), named(&[("o2", 3), ("o2", 3), ("o2", 3)]));
    }
}

#[test]
fn an_option_that_starts_at_zero_is_used_from_one() {
    let opts = vec![opt("z", 0, 3, 1_000, 500), opt("y", 2, 5, 2_000, 0)];
    let expected: [u128; 8] = [0, 1_500, 4_000, 6_000, 8_000, 10_000, 12_000, 14_000];
    for n in 0..8u32 {
        for answer in exact_answers(&opts, n) {
            assert_feasible(&opts, &answer, n);
            assert_eq!(answer.value(), expected[n as usize]);
        }
    }
}

#[test]
fn options_that_pay_nothing_are_placed_all_the_same() {
    let opts = vec![opt("free", 1, 3, 0, 0)];
    for answer in exact_answers(&opts, 2) {
        assert_feasible(&opts, &answer, 2);
        assert_eq!(answer.value(), 0);
        assert_eq!(amount_of(&answer), 2);
    }
    let table = DynamicProgrammingOptimized::with_opts(&opts).solve_iter(2);
    assert_eq!(in_order(&table), named(&[("free", 1), ("free", 1)]));
}

#[test]
fn the_table_builds_on_the_first_best_candidate() {
    let opts = canonical_options();
    let expected = named(&[("o4", 10), ("o2", 3), ("o2", 3), ("o1", 1)]);
    let mut solver = DynamicProgrammingOptimized::with_opts(&opts);
    assert_eq!(in_order(&solver.solve_iter(17)), expected);
    assert_eq!(in_order(&solver.solve_recursively(17)), expected);
    assert_eq!(in_order(&solver.solve_iter(12)), named(&[("o4", 10), ("o1", 1), ("o1", 1)]));
    assert_eq!(in_order(&solver.solve_recursively(5)), named(&[("o3", 5)]));
    assert_eq!(in_order(&solver.solve_iter(17)), expected);
}

#[test]
fn the_table_scans_options_in_start_order() {
    // Both lead to 30 with amount 3; `q` starts lower and is met first.
    let opts = vec![opt("p", 3, 3, 0, 30), opt("q", 2, 3, 10, 0)];
    let mut solver = DynamicProgrammingOptimized::with_opts(&opts);
    assert_eq!(in_order(&solver.solve_iter(3)), named(&[("q", 3)]));
    assert_eq!(in_order(&solver.solve_recursively(3)), named(&[("q", 3)]));
    // With the same start, the one given first is met first.
    let first = vec![opt("b", 1, 1, 5, 0), opt("a", 1, 1, 5, 0)];
    let answer = DynamicProgrammingOptimized::with_opts(&first).solve_iter(2);
    assert_eq!(in_order(&answer), named(&[("b", 1), ("b", 1)]));
    let second = vec![opt("a", 1, 1, 5, 0), opt("b", 1, 1, 5, 0)];
    let answer = DynamicProgrammingOptimized::with_opts(&second).solve_recursively(2);
    assert_eq!(in_order(&answer), named(&[("a", 1), ("a", 1)]));
}

#[test]
fn plain_solvers_answer_in_canonical_order() {
    let mut opts = canonical_options();
    opts[2].bonus = 200_000;
    opts.reverse();
    let expected = named(&[("o1", 1), ("o1", 1), ("o3", 5), ("o3", 5)]);
    for answer in &exact_answers(&opts, 12)[0..4] {
        let pairs: Vec<_> = answer.iter().map(|pair| (pair.0.name.clone(), pair.1)).collect();
        assert_eq!(pairs, expected);
        assert_eq!(answer.value(), 622_000);
    }
}

#[test]
fn enumerating_solvers_stay_feasible_with_a_name_used_twice() {
    let opts = vec![opt("twin", 1, 1, 1_000, 0), opt("twin", 1, 1, 5_000, 0)];
    for n in 0..4u32 {
        let brute = BruteForce::with_opts(&opts).solve(n);
        let overlapping = OverlappingSubproblems::with_opts(&opts).solve(n);
        assert_feasible(&opts, &brute, n);
        assert_feasible(&opts, &overlapping, n);
        assert_eq!(amount_of(&brute), n as u64);
        assert_eq!(amount_of(&overlapping), n as u64);
        // The set keeps the first of two combinations with the same entries.
        assert_eq!(brute.value(), 1_000 * n as u128);
        assert_eq!(overlapping.value(), 1_000 * n as u128);
        let best = DynamicProgramming::with_opts(&opts).solve_recursively(n);
        assert_eq!(best.value(), 5_000 * n as u128);
    }
}

#[test]
fn a_best_combination_is_made_of_best_combinations() {
    let opts = canonical_options();
    let whole = DynamicProgramming::with_opts(&opts).solve_recursively(17);
    assert_eq!(whole.value(), 401_000);
    for pair in whole.iter() {
        let rest = whole.value() - pair.0.gain_for(pair.1) as u128;
        for answer in exact_answers(&opts, 17 - pair.1) {
            assert_eq!(answer.value(), rest);
        }
    }
    let at_seven = OptimalSubstructure::with_opts(&opts).solve(7).value();
    assert_eq!(at_seven, 161_000);
}

#[test]
fn the_tables_reach_larger_quantities() {
    let opts = canonical_options();
    let mut plain = DynamicProgramming::with_opts(&opts);
    let mut optimised = DynamicProgrammingOptimized::with_opts(&opts);
    assert_eq!(plain.solve_recursively(100).value(), 2_400_000);
    assert_eq!(optimised.solve_recursively(100).value(), 2_400_000);
    let far = optimised.solve_iter(1_000);
    assert_eq!(far.value(), 24_000_000);
    assert_eq!(amount_of(&far), 1_000);
    assert_feasible(&opts, &far, 1_000);
    let overlapping = OverlappingSubproblems::with_opts(&opts).solve(20);
    assert_eq!(overlapping.value(), 480_000);
}
