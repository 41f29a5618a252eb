use optalloc::greedy::{has_positive_starts, Greedy};
use optalloc::opt::{Opt, OptCombination};

fn opt(name: &str, start: u32, end: u32, interest: u32, bonus: u32) -> Opt {
    Opt { name: name.to_string(), start, end, interest, bonus }
}

fn entries(combo: &OptCombination) -> Vec<(String, u32)> {
    combo.iter().map(|pair| (pair.0.name.clone(), pair.1)).collect()
}

fn named(pairs: &[(&str, u32)]) -> Vec<(String, u32)> {
    pairs.iter().map(|pair| (pair.0.to_string(), pair.1)).collect()
}

fn greedy_entries(opts: &Vec<Opt>, n: u32) -> Vec<(String, u32)> {
    entries(&Greedy::with_opts(opts).solve(n))
}

#[test]
fn greedy_starts_the_option_with_the_highest_start_slope() {
    let opts = vec![
        opt("o1", 1, 2, 11_000, 10_000),
        opt("o2", 3, 4, 16_000, 22_000),
        opt("o3", 5, 9, 18_000, 25_000),
        opt("o4", 10, 19, 20_000, 40_000),
    ];
    assert_eq!(greedy_entries(&opts, 10), named(&[("o4", 10)]));
    assert_eq!(greedy_entries(&opts, 9), named(&[("o2", 3), ("o2", 3), ("o2", 3)]));
    assert_eq!(greedy_entries(&opts, 5), named(&[("o1", 1), ("o1", 1), ("o2", 3)]));
    assert_eq!(greedy_entries(&opts, 1), named(&[("o1", 1)]));
}

#[test]
fn greedy_raises_an_entry_when_its_slope_is_strictly_higher() {
    let opts = vec![opt("a", 3, 10, 50_000, 0), opt("b", 1, 1, 10_000, 0)];
    assert_eq!(greedy_entries(&opts, 5), named(&[("a", 5)]));
    assert_eq!(greedy_entries(&opts, 4), named(&[("a", 4)]));
    assert_eq!(greedy_entries(&opts, 2), named(&[("b", 1), ("b", 1)]));
    assert_eq!(greedy_entries(&opts, 14), named(&[("a", 3), ("a", 3), ("a", 3), ("a", 5)]));
    assert_eq!(Greedy::with_opts(&opts).solve(14).value(), 700_000);
}

#[test]
fn greedy_raises_by_no_more_than_the_room_or_the_rest() {
    let opts = vec![opt("a", 2, 3, 50_000, 0)];
    assert_eq!(greedy_entries(&opts, 1), named(&[]));
    assert_eq!(greedy_entries(&opts, 3), named(&[("a", 3)]));
    assert_eq!(greedy_entries(&opts, 5), named(&[("a", 2), ("a", 3)]));
    assert_eq!(greedy_entries(&opts, 7), named(&[("a", 2), ("a", 2), ("a", 3)]));
    let one = vec![opt("x", 3, 4, 10_000, 5_000)];
    assert_eq!(greedy_entries(&one, 5), named(&[("x", 4)]));
    assert_eq!(Greedy::with_opts(&one).solve(5).value(), 45_000);
}

#[test]
fn greedy_ranks_start_slopes_in_ten_thousandths() {
    // All three rank 100: the last one is taken, though it pays least.
    let tied = vec![opt("p", 1, 1, 10_099, 0), opt("q", 1, 1, 10_050, 0), opt("r", 1, 1, 10_000, 0)];
    assert_eq!(greedy_entries(&tied, 1), named(&[("r", 1)]));
    assert_eq!(Greedy::with_opts(&tied).solve(2).value(), 20_000);
    // One step of rank apart: the higher one is taken, wherever it stands.
    let apart = vec![opt("p", 1, 1, 10_100, 0), opt("q", 1, 1, 10_050, 0)];
    assert_eq!(greedy_entries(&apart, 1), named(&[("p", 1)]));
}

#[test]
fn greedy_ranks_entries_in_ten_thousandths() {
    // Both entries rank 100: the last of the combination is raised.
    let tied = vec![opt("aa", 5, 7, 10_099, 100_000), opt("zz", 2, 4, 10_000, 200)];
    assert_eq!(greedy_entries(&tied, 8), named(&[("aa", 5), ("zz", 3)]));
    assert_eq!(Greedy::with_opts(&tied).solve(8).value(), 180_695);
    // Ranks 100 and 150: the higher one is raised.
    let apart = vec![opt("aa", 5, 7, 10_000, 100_000), opt("zz", 2, 4, 15_000, 0)];
    assert_eq!(greedy_entries(&apart, 8), named(&[("aa", 5), ("zz", 3)]));
    let other = vec![opt("aa", 5, 7, 15_000, 100_000), opt("zz", 2, 4, 15_100, 0)];
    assert_eq!(greedy_entries(&other, 8), named(&[("aa", 5), ("zz", 3)]));
}

#[test]
fn greedy_compares_the_two_slopes_exactly() {
    // 20050 against 20000 is one rank, and still strictly higher: raise.
    let higher = vec![opt("b", 1, 1, 20_000, 0), opt("A", 3, 5, 20_050, 0)];
    assert_eq!(greedy_entries(&higher, 4), named(&[("A", 4)]));
    assert_eq!(Greedy::with_opts(&higher).solve(4).value(), 80_200);
    // Equal slopes: start.
    let equal = vec![opt("b", 1, 1, 20_000, 0), opt("A", 3, 5, 20_000, 0)];
    assert_eq!(greedy_entries(&equal, 4), named(&[("A", 3), ("b", 1)]));
}

#[test]
fn greedy_stops_when_both_slopes_are_zero() {
    let opts = vec![opt("z", 1, 5, 0, 0), opt("w", 7, 9, 5, 5)];
    assert_eq!(greedy_entries(&opts, 4), named(&[]));
    assert_eq!(greedy_entries(&opts, 6), named(&[]));
    assert_eq!(greedy_entries(&opts, 7), named(&[("w", 7)]));
    assert_eq!(Greedy::with_opts(&opts).solve(7).value(), 40);
}

#[test]
fn greedy_starts_again_when_no_entry_has_a_slope() {
    let opts = vec![opt("flat", 2, 5, 0, 10_000), opt("tiny", 1, 1, 1, 0)];
    assert_eq!(greedy_entries(&opts, 3), named(&[("flat", 2), ("tiny", 1)]));
    assert_eq!(greedy_entries(&opts, 4), named(&[("flat", 2), ("flat", 2)]));
}

#[test]
fn greedy_keeps_new_entries_in_canonical_order() {
    let opts = vec![opt("b", 2, 2, 10_000, 0), opt("a", 1, 1, 5_000, 0)];
    assert_eq!(greedy_entries(&opts, 5), named(&[("a", 1), ("b", 2), ("b", 2)]));
}

#[test]
fn greedy_starts_an_option_at_its_start_whatever_its_end() {
    let opts = vec![opt("never", 5, 4, 1, 1)];
    assert_eq!(greedy_entries(&opts, 9), named(&[("never", 5)]));
    assert_eq!(greedy_entries(&opts, 4), named(&[]));
}

#[test]
fn try_solve_refuses_a_start_of_zero_but_for_nothing() {
    let opts = vec![opt("a", 1, 3, 1_000, 0), opt("z", 0, 2, 1_000, 0)];
    let solver = Greedy::with_opts(&opts);
    assert!(solver.try_solve(3).is_none());
    assert_eq!(solver.try_solve(0).map(|c| c.len()), Some(0));
    let fine = vec![opt("a", 1, 3, 1_000, 0)];
    let solved = Greedy::with_opts(&fine).try_solve(3).unwrap();
    assert_eq!(entries(&solved), named(&[("a", 1), ("a", 1), ("a", 1)]));
    assert_eq!(entries(&solved), greedy_entries(&fine, 3));
}

#[test]
fn has_positive_starts_finds_a_start_of_zero() {
    assert!(has_positive_starts(&Vec::new()));
    assert!(has_positive_starts(&vec![opt("a", 1, 1, 0, 0), opt("b", 5, 2, 0, 0)]));
    assert!(!has_positive_starts(&vec![opt("a", 1, 1, 0, 0), opt("z", 0, 2, 0, 0)]));
    assert!(!has_positive_starts(&vec![opt("z", 0, 0, 0, 0)]));
}
