use optalloc::opt::{Opt, OptCombination};
use optalloc::scaling::{find_named, scale_opt, scale_opts, unscale};

fn opt(name: &str, start: u32, end: u32, interest: u32, bonus: u32) -> Opt {
    Opt { name: name.to_string(), start, end, interest, bonus }
}

fn fields(o: &Opt) -> (String, u32, u32, u32, u32) {
    (o.name.clone(), o.start, o.end, o.interest, o.bonus)
}

fn entries(combo: &OptCombination) -> Vec<(String, u32)> {
    combo.iter().map(|pair| (pair.0.name.clone(), pair.1)).collect()
}

#[test]
fn scale_rounds_start_up_and_end_and_bonus_down() {
    let o = opt("o", 10, 19, 20_000, 40_005);
    assert_eq!(fields(&scale_opt(&o, 3)), ("o".to_string(), 4, 6, 20_000, 13_335));
    assert_eq!(fields(&scale_opt(&o, 5)), ("o".to_string(), 2, 3, 20_000, 8_001));
    assert_eq!(fields(&scale_opt(&o, 10)), ("o".to_string(), 1, 1, 20_000, 4_000));
    assert_eq!(fields(&scale_opt(&o, 20)), ("o".to_string(), 1, 0, 20_000, 2_000));
}

#[test]
fn scale_by_one_changes_nothing() {
    let o = opt("o", 10, 19, 20_000, 40_005);
    assert_eq!(fields(&scale_opt(&o, 1)), fields(&o));
    let top = opt("top", u32::MAX, u32::MAX, u32::MAX, u32::MAX);
    assert_eq!(fields(&scale_opt(&top, 1)), fields(&top));
}

#[test]
fn scale_keeps_a_start_of_zero() {
    let o = opt("o", 0, 7, 1, 9);
    assert_eq!(fields(&scale_opt(&o, 4)), ("o".to_string(), 0, 1, 1, 2));
}

#[test]
fn scale_of_the_largest_start() {
    let o = opt("o", u32::MAX, u32::MAX, 0, 0);
    assert_eq!(scale_opt(&o, 2).start, 2_147_483_648);
    assert_eq!(scale_opt(&o, 2).end, 2_147_483_647);
    assert_eq!(scale_opt(&o, u32::MAX).start, 1);
}

#[test]
fn scale_opts_scales_each_in_place() {
    let opts = vec![opt("a", 1, 2, 11, 10), opt("b", 3, 4, 16, 22), opt("c", 5, 9, 18, 25)];
    let scaled = scale_opts(&opts, 2);
    let got: Vec<_> = scaled.iter().map(fields).collect();
    assert_eq!(
        got,
        vec![
            ("a".to_string(), 1, 1, 11, 5),
            ("b".to_string(), 2, 2, 16, 11),
            ("c".to_string(), 3, 4, 18, 12)
        ]
    );
    assert_eq!(scale_opts(&Vec::new(), 2).len(), 0);
}

#[test]
fn find_named_takes_the_first_of_that_name() {
    let opts = vec![opt("a", 1, 2, 0, 0), opt("b", 3, 4, 0, 0), opt("b", 5, 6, 0, 0)];
    assert_eq!(find_named(&opts, &"b".to_string()).map(|o| o.start), Some(3));
    assert_eq!(find_named(&opts, &"a".to_string()).map(|o| o.start), Some(1));
    assert!(find_named(&opts, &"c".to_string()).is_none());
    assert!(find_named(&Vec::new(), &"a".to_string()).is_none());
}

#[test]
fn unscale_multiplies_amounts_and_names_the_fine_options() {
    let fine = vec![opt("o1", 10, 20, 11, 10), opt("o2", 30, 40, 16, 22)];
    let scaled = scale_opts(&fine, 10);
    let mut solution = OptCombination::new();
    solution.add(&scaled[1], 3);
    solution.add(&scaled[0], 2);
    solution.add(&scaled[0], 1);
    let back = unscale(&solution, &fine, 10).unwrap();
    assert_eq!(
        entries(&back),
        vec![("o1".to_string(), 10), ("o1".to_string(), 20), ("o2".to_string(), 30)]
    );
    assert_eq!(back.get(0).0.bonus, 10);
    assert_eq!(back.value(), 120 + 230 + 502);
}

#[test]
fn unscale_puts_the_pairs_in_canonical_order() {
    let fine = vec![opt("a", 1, 9, 0, 0), opt("b", 1, 9, 0, 0)];
    let mut solution = OptCombination::new();
    solution.add_unordered(&fine[1], 2);
    solution.add_unordered(&fine[0], 3);
    solution.add_unordered(&fine[0], 1);
    let back = unscale(&solution, &fine, 2).unwrap();
    assert_eq!(
        entries(&back),
        vec![("a".to_string(), 2), ("a".to_string(), 6), ("b".to_string(), 4)]
    );
}

#[test]
fn unscale_of_the_empty_combination_is_empty() {
    let fine = vec![opt("a", 1, 9, 0, 0)];
    let back = unscale(&OptCombination::new(), &fine, 7).unwrap();
    assert_eq!(back.len(), 0);
}

#[test]
fn unscale_fails_on_an_unknown_name() {
    let fine = vec![opt("a", 1, 9, 0, 0)];
    let stranger = opt("b", 1, 9, 0, 0);
    let mut solution = OptCombination::new_with_opt(&fine[0], 1);
    solution.add(&stranger, 1);
    assert!(unscale(&solution, &fine, 2).is_none());
}

#[test]
fn unscale_fails_on_an_amount_that_does_not_fit() {
    let fine = vec![opt("a", 1, u32::MAX, 0, 0)];
    let solution = OptCombination::new_with_opt(&fine[0], 65_536);
    assert!(unscale(&solution, &fine, 65_536).is_none());
    let back = unscale(&solution, &fine, 65_535).unwrap();
    assert_eq!(back.get(0).1, 4_294_901_760);
}
