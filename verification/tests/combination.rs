use optalloc::opt::{Opt, OptCombination};
use std::collections::hash_map::DefaultHasher;
use std::collections::HashSet;
use std::hash::{Hash, Hasher};

fn hash_of<T: Hash>(value: &T) -> u64 {
    let mut hasher = DefaultHasher::new();
    value.hash(&mut hasher);
    hasher.finish()
}

fn opt(name: &str, start: u32, end: u32, interest: u32, bonus: u32) -> Opt {
    Opt { name: name.to_string(), start, end, interest, bonus }
}

fn entries(combo: &OptCombination) -> Vec<(String, u32)> {
    combo.iter().map(|pair| (pair.0.name.clone(), pair.1)).collect()
}

fn named(pairs: &[(&str, u32)]) -> Vec<(String, u32)> {
    pairs.iter().map(|pair| (pair.0.to_string(), pair.1)).collect()
}

#[test]
fn gain_is_amount_times_interest_plus_bonus() {
    let o = opt("o2", 3, 4, 16_000, 22_000);
    assert_eq!(o.gain_for(3), 70_000);
    assert_eq!(o.gain_for(0), 22_000);
    assert_eq!(o.gain_for(1), 38_000);
}

#[test]
fn gain_of_the_largest_numbers_fits() {
    let o = opt("big", 1, u32::MAX, u32::MAX, u32::MAX);
    assert_eq!(o.gain_for(u32::MAX), 18_446_744_069_414_584_320);
}

#[test]
fn accepts_the_range_with_both_ends() {
    let o = opt("o3", 5, 9, 18_000, 25_000);
    assert!(!o.accepts(4));
    assert!(o.accepts(5));
    assert!(o.accepts(7));
    assert!(o.accepts(9));
    assert!(!o.accepts(10));
}

#[test]
fn accepts_nothing_where_start_is_above_end() {
    let o = opt("none", 5, 4, 1, 1);
    assert!(!o.accepts(4));
    assert!(!o.accepts(5));
}

#[test]
fn option_clone_keeps_every_field() {
    let o = opt("o1", 1, 2, 11_000, 10_000);
    let c = o.clone();
    assert_eq!(c.name, "o1");
    assert_eq!((c.start, c.end, c.interest, c.bonus), (1, 2, 11_000, 10_000));
}

#[test]
fn options_are_equal_by_name_alone() {
    let a = opt("same", 1, 2, 3, 4);
    let b = opt("same", 5, 6, 7, 8);
    let c = opt("other", 1, 2, 3, 4);
    assert!(a == b);
    assert!(a != c);
}

#[test]
fn new_combination_is_empty_and_worth_nothing() {
    let combo = OptCombination::new();
    assert_eq!(combo.len(), 0);
    assert_eq!(combo.value(), 0);
    assert_eq!(combo.iter().count(), 0);
}

#[test]
fn new_with_opt_holds_the_one_pair() {
    let o = opt("o4", 10, 19, 20_000, 40_000);
    let combo = OptCombination::new_with_opt(&o, 10);
    assert_eq!(entries(&combo), named(&[("o4", 10)]));
    assert_eq!(combo.value(), 240_000);
}

#[test]
fn add_orders_by_name_then_amount() {
    let a = opt("a", 1, 9, 1, 0);
    let b = opt("b", 1, 9, 1, 0);
    let mut combo = OptCombination::new();
    combo.add(&b, 2);
    combo.add(&a, 5);
    combo.add(&b, 1);
    combo.add(&a, 3);
    combo.add(&a, 5);
    assert_eq!(entries(&combo), named(&[("a", 3), ("a", 5), ("a", 5), ("b", 1), ("b", 2)]));
}

#[test]
fn add_puts_a_shorter_name_before_the_name_it_begins() {
    let o1 = opt("o1", 1, 9, 1, 0);
    let o10 = opt("o10", 1, 9, 1, 0);
    let o2 = opt("o2", 1, 9, 1, 0);
    let mut combo = OptCombination::new();
    combo.add(&o2, 1);
    combo.add(&o10, 1);
    combo.add(&o1, 1);
    assert_eq!(entries(&combo), named(&[("o1", 1), ("o10", 1), ("o2", 1)]));
}

#[test]
fn add_orders_names_by_code_point() {
    let upper = opt("Z", 1, 9, 1, 0);
    let lower = opt("a", 1, 9, 1, 0);
    let accent = opt("\u{e9}", 1, 9, 1, 0);
    let kanji = opt("\u{4e2d}", 1, 9, 1, 0);
    let mut combo = OptCombination::new();
    combo.add(&kanji, 1);
    combo.add(&lower, 1);
    combo.add(&accent, 1);
    combo.add(&upper, 1);
    assert_eq!(
        entries(&combo),
        named(&[("Z", 1), ("a", 1), ("\u{e9}", 1), ("\u{4e2d}", 1)])
    );
}

#[test]
fn add_gives_one_order_whatever_the_order_of_the_calls() {
    let o1 = opt("o1", 1, 2, 11_000, 10_000);
    let o2 = opt("o2", 3, 4, 16_000, 22_000);
    let o4 = opt("o4", 10, 19, 20_000, 40_000);
    let mut first = OptCombination::new();
    first.add(&o1, 1);
    first.add(&o2, 3);
    first.add(&o2, 3);
    first.add(&o4, 10);
    let mut second = OptCombination::new_with_opt(&o4, 10);
    second.add(&o2, 3);
    second.add(&o1, 1);
    second.add(&o2, 3);
    assert!(first == second);
    assert!(first.same_as(&second));
    assert_eq!(entries(&first), entries(&second));
    assert_eq!(first.value(), 401_000);
}

#[test]
fn add_unordered_appends() {
    let a = opt("a", 1, 9, 1, 0);
    let b = opt("b", 1, 9, 1, 0);
    let mut combo = OptCombination::new();
    combo.add_unordered(&b, 2);
    combo.add_unordered(&a, 5);
    combo.add_unordered(&b, 1);
    assert_eq!(entries(&combo), named(&[("b", 2), ("a", 5), ("b", 1)]));
}

#[test]
fn add_unordered_builds_unequal_combinations_from_the_same_pairs() {
    let a = opt("a", 1, 9, 1, 0);
    let b = opt("b", 1, 9, 1, 0);
    let mut first = OptCombination::new();
    first.add_unordered(&a, 1);
    first.add_unordered(&b, 1);
    let mut second = OptCombination::new();
    second.add_unordered(&b, 1);
    second.add_unordered(&a, 1);
    assert!(first != second);
    assert_eq!(first.value(), second.value());
}

#[test]
fn combinations_differ_by_length_name_or_amount() {
    let a = opt("a", 1, 9, 1, 0);
    let b = opt("b", 1, 9, 1, 0);
    let one = OptCombination::new_with_opt(&a, 1);
    let mut two = OptCombination::new_with_opt(&a, 1);
    two.add(&a, 1);
    assert!(!one.same_as(&two));
    assert!(!one.same_as(&OptCombination::new_with_opt(&b, 1)));
    assert!(!one.same_as(&OptCombination::new_with_opt(&a, 2)));
    assert!(one.same_as(&OptCombination::new_with_opt(&a, 1)));
    assert!(OptCombination::new().same_as(&OptCombination::new()));
}

#[test]
fn value_sums_the_gains() {
    let o1 = opt("o1", 1, 2, 11_000, 10_000);
    let o3 = opt("o3", 5, 9, 18_000, 25_000);
    let mut combo = OptCombination::new();
    combo.add(&o3, 7);
    combo.add(&o1, 2);
    combo.add(&o1, 1);
    assert_eq!(combo.value(), 151_000 + 32_000 + 21_000);
}

#[test]
fn value_goes_beyond_sixty_four_bits() {
    let o = opt("big", 1, u32::MAX, u32::MAX, u32::MAX);
    let mut combo = OptCombination::new();
    combo.add(&o, u32::MAX);
    combo.add(&o, u32::MAX);
    assert_eq!(combo.value(), 2 * 18_446_744_069_414_584_320u128);
}

#[test]
fn get_and_len_read_the_pairs() {
    let a = opt("a", 1, 9, 1, 0);
    let b = opt("b", 1, 9, 1, 0);
    let mut combo = OptCombination::new();
    combo.add(&b, 2);
    combo.add(&a, 5);
    assert_eq!(combo.len(), 2);
    assert_eq!(combo.get(0).0.name, "a");
    assert_eq!(combo.get(0).1, 5);
    assert_eq!(combo.get(1).0.name, "b");
    assert_eq!(combo.get(1).1, 2);
}

#[test]
fn iter_mut_changes_amounts_in_place() {
    let a = opt("a", 1, 9, 1_000, 0);
    let b = opt("b", 1, 9, 2_000, 500);
    let mut combo = OptCombination::new();
    combo.add(&a, 1);
    combo.add(&b, 2);
    for pair in combo.iter_mut() {
        pair.1 += 3;
    }
    assert_eq!(entries(&combo), named(&[("a", 4), ("b", 5)]));
    assert_eq!(combo.value(), 4_000 + 10_500);
}

#[test]
fn combination_clone_is_equal_and_separate() {
    let a = opt("a", 1, 9, 1_000, 0);
    let mut combo = OptCombination::new_with_opt(&a, 2);
    let copy = combo.clone();
    combo.add(&a, 3);
    assert_eq!(entries(&copy), named(&[("a", 2)]));
    assert_eq!(entries(&combo), named(&[("a", 2), ("a", 3)]));
}

#[test]
fn options_hash_by_name_alone() {
    let a = opt("same", 1, 2, 3, 4);
    let b = opt("same", 5, 6, 7, 8);
    assert_eq!(hash_of(&a), hash_of(&b));
    assert_eq!(hash_of(&a), hash_of(&"same".to_string()));
}

#[test]
fn equal_combinations_hash_alike() {
    let o1 = opt("o1", 1, 2, 11_000, 10_000);
    let o2 = opt("o2", 3, 4, 16_000, 22_000);
    let mut b = OptCombination::new();
    b.add(&o1, 1);
    b.add(&o2, 3);
    let mut a = OptCombination::new();
    a.add(&o2, 3);
    a.add(&o1, 1);
    assert!(a == b);
    assert_eq!(hash_of(&a), hash_of(&b));
    let pairs: Vec<_> = a.iter().map(|pair| (pair.0.name.clone(), pair.1)).collect();
    assert_eq!(pairs, named(&[("o1", 1), ("o2", 3)]));
    let mut set = HashSet::new();
    assert!(set.insert(a));
    assert!(!set.insert(b));
    assert_eq!(set.len(), 1);
}
