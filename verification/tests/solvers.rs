use optalloc::brute_force::BruteForce;
use optalloc::dynamic_programming::{DynamicProgramming, DynamicProgrammingOptimized};
use optalloc::greedy::Greedy;
use optalloc::opt::{Opt, OptCombination};
use optalloc::optimal_substructure::OptimalSubstructure;
use optalloc::overlapping_subproblems::OverlappingSubproblems;

/// Millionths from a decimal number.
fn millionths(x: f64) -> u32 {
    (x * 1_000_000.0).round() as u32
}

/// One option from a line of the form "name start end interest bonus".
fn parse_opt(line: &str) -> Opt {
    let elems: Vec<&str> = line.split(' ').collect();
    Opt {
        name: elems[0].to_string(),
        start: elems[1].parse::<u32>().unwrap(),
        end: elems[2].parse::<u32>().unwrap(),
        interest: millionths(elems[3].parse::<f64>().unwrap()),
        bonus: millionths(elems[4].parse::<f64>().unwrap()),
    }
}

fn parse_opts(text: &str) -> Vec<Opt> {
    text.lines()
        .map(|s| s.trim().to_string())
        .filter(|s| s.len() > 0 && !s.starts_with('#'))
        .map(|s| parse_opt(&s))
        .collect()
}

fn test_options() -> Vec<Opt> {
    parse_opts(
        "o1 1 2 0.011 0.01
         o2 3 4 0.016 0.022
         o3 5 9 0.018 0.025
         o4 10 19 0.02 0.04",
    )
}

fn value_of(solution: &OptCombination) -> f64 {
    solution.value() as f64 / 1_000_000.0
}

fn assert_float_eq(e1: f64, e2: f64) {
    assert!((e1 - e2).abs() < std::f64::EPSILON);
}

fn assert_solution_eq(solution: &OptCombination, expected: &[(&str, u32)]) {
    let mut s1: Vec<_> = solution.iter().map(|x| (x.0.name.clone(), x.1)).collect();
    s1.sort_by(|a, b| a.0.cmp(&b.0).then(a.1.cmp(&b.1)));
    let mut s2: Vec<_> = expected.iter().map(|x| (x.0.to_string(), x.1)).collect();
    s2.sort_by(|a, b| a.0.cmp(&b.0).then(a.1.cmp(&b.1)));

    assert_eq!(s1, s2);
}

#[test]
fn test_brute_force() {
    let opts = test_options();

    let solution = BruteForce::with_opts(&opts).solve(17);
    assert_float_eq(value_of(&solution), 0.401);
    assert_solution_eq(&solution, &[("o1", 1), ("o2", 3), ("o2", 3), ("o4", 10)]);
}

#[test]
fn test_overlapping_subproblems() {
    let opts = test_options();

    let solution = OverlappingSubproblems::with_opts(&opts).solve(17);
    assert_float_eq(value_of(&solution), 0.401);
    assert_solution_eq(&solution, &[("o1", 1), ("o2", 3), ("o2", 3), ("o4", 10)]);
}

#[test]
fn test_optimal_substructure() {
    let opts = test_options();

    let solution = OptimalSubstructure::with_opts(&opts).solve(17);
    assert_float_eq(value_of(&solution), 0.401);
    assert_solution_eq(&solution, &[("o1", 1), ("o2", 3), ("o2", 3), ("o4", 10)]);
}

#[test]
fn test_dp_recursive() {
    let opts = test_options();

    let solution = DynamicProgrammingOptimized::with_opts(&opts).solve_recursively(17);
    assert_float_eq(value_of(&solution), 0.401);
    assert_solution_eq(&solution, &[("o1", 1), ("o2", 3), ("o2", 3), ("o4", 10)]);
}

#[test]
fn test_dp_recursive_optimized() {
    let opts = test_options();

    let solution = DynamicProgrammingOptimized::with_opts(&opts).solve_recursively(17);
    assert_float_eq(value_of(&solution), 0.401);
    assert_solution_eq(&solution, &[("o1", 1), ("o2", 3), ("o2", 3), ("o4", 10)]);
}

#[test]
fn test_dp_iterative_optimized() {
    let opts = test_options();

    let solution = DynamicProgrammingOptimized::with_opts(&opts).solve_iter(17);
    assert_float_eq(value_of(&solution), 0.401);
    assert_solution_eq(&solution, &[("o1", 1), ("o2", 3), ("o2", 3), ("o4", 10)]);
}

#[test]
fn test_greedy() {
    let opts = test_options();

    let solution = Greedy::with_opts(&opts).solve(17);
    assert_float_eq(value_of(&solution), 0.401);
    assert_solution_eq(&solution, &[("o1", 1), ("o2", 3), ("o2", 3), ("o4", 10)]);
}

#[test]
fn test_dp_recursive_plain() {
    let opts = test_options();

    let solution = DynamicProgramming::with_opts(&opts).solve_recursively(17);
    assert_eq!(solution.value(), 401_000);
    assert_solution_eq(&solution, &[("o1", 1), ("o2", 3), ("o2", 3), ("o4", 10)]);
}
