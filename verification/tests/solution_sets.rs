use optalloc::opt::{Opt, OptCombination};
use optalloc::solution_set::SolutionSet;

fn opt(name: &str, start: u32, end: u32, interest: u32, bonus: u32) -> Opt {
    Opt { name: name.to_string(), start, end, interest, bonus }
}

fn entries(combo: &OptCombination) -> Vec<(String, u32)> {
    combo.iter().map(|pair| (pair.0.name.clone(), pair.1)).collect()
}

fn named(pairs: &[(&str, u32)]) -> Vec<(String, u32)> {
    pairs.iter().map(|pair| (pair.0.to_string(), pair.1)).collect()
}

#[test]
fn new_set_is_empty() {
    let set = SolutionSet::new();
    assert_eq!(set.len(), 0);
    assert!(set.into_best().is_none());
}

#[test]
fn insert_keeps_out_what_the_set_holds() {
    let a = opt("a", 1, 9, 1_000, 0);
    let b = opt("b", 1, 9, 2_000, 0);
    let mut set = SolutionSet::new();
    let mut ab = OptCombination::new_with_opt(&a, 1);
    ab.add(&b, 2);
    let mut ba = OptCombination::new_with_opt(&b, 2);
    ba.add(&a, 1);
    assert!(set.insert(ab));
    assert!(!set.insert(ba));
    assert!(set.insert(OptCombination::new_with_opt(&a, 1)));
    assert!(set.insert(OptCombination::new_with_opt(&a, 2)));
    assert!(!set.insert(OptCombination::new_with_opt(&a, 1)));
    assert_eq!(set.len(), 3);
    assert_eq!(entries(set.get(0)), named(&[("a", 1), ("b", 2)]));
    assert_eq!(entries(set.get(1)), named(&[("a", 1)]));
    assert_eq!(entries(set.get(2)), named(&[("a", 2)]));
}

#[test]
fn insert_goes_by_names_not_by_options() {
    let a = opt("a", 1, 9, 1_000, 0);
    let twin = opt("a", 1, 9, 5_000, 0);
    let mut set = SolutionSet::new();
    assert!(set.insert(OptCombination::new_with_opt(&a, 1)));
    assert!(!set.insert(OptCombination::new_with_opt(&twin, 1)));
    assert_eq!(set.into_best().unwrap().value(), 1_000);
}

#[test]
fn pop_takes_the_last_member() {
    let a = opt("a", 1, 9, 1_000, 0);
    let mut set = SolutionSet::new();
    set.insert(OptCombination::new_with_opt(&a, 1));
    set.insert(OptCombination::new_with_opt(&a, 2));
    assert_eq!(entries(&set.pop().unwrap()), named(&[("a", 2)]));
    assert_eq!(set.len(), 1);
    assert_eq!(entries(&set.pop().unwrap()), named(&[("a", 1)]));
    assert!(set.pop().is_none());
    assert_eq!(set.len(), 0);
}

#[test]
fn into_best_takes_the_most_valuable() {
    let a = opt("a", 1, 9, 1_000, 0);
    let b = opt("b", 1, 9, 500, 4_000);
    let mut set = SolutionSet::new();
    set.insert(OptCombination::new_with_opt(&a, 3));
    set.insert(OptCombination::new_with_opt(&b, 2));
    set.insert(OptCombination::new_with_opt(&a, 4));
    let best = set.into_best().unwrap();
    assert_eq!(entries(&best), named(&[("b", 2)]));
    assert_eq!(best.value(), 5_000);
}

#[test]
fn into_best_takes_the_last_of_equals() {
    let a = opt("a", 1, 9, 1_000, 0);
    let b = opt("b", 1, 9, 500, 1_000);
    let mut set = SolutionSet::new();
    set.insert(OptCombination::new_with_opt(&a, 2));
    set.insert(OptCombination::new_with_opt(&b, 2));
    set.insert(OptCombination::new_with_opt(&a, 1));
    assert_eq!(entries(&set.into_best().unwrap()), named(&[("b", 2)]));
}

#[test]
fn extend_with_adds_the_pair_to_each_member() {
    let a = opt("a", 1, 9, 1_000, 0);
    let b = opt("b", 1, 9, 2_000, 0);
    let mut from = SolutionSet::new();
    from.insert(OptCombination::new_with_opt(&a, 1));
    from.insert(OptCombination::new_with_opt(&b, 1));
    let mut set = SolutionSet::new();
    let mut held = OptCombination::new_with_opt(&a, 1);
    held.add(&a, 2);
    set.insert(held);
    set.extend_with(from, &a, 2);
    assert_eq!(set.len(), 2);
    assert_eq!(entries(set.get(0)), named(&[("a", 1), ("a", 2)]));
    assert_eq!(entries(set.get(1)), named(&[("a", 2), ("b", 1)]));
}

#[test]
fn extend_with_the_empty_set_changes_nothing() {
    let a = opt("a", 1, 9, 1_000, 0);
    let mut set = SolutionSet::new();
    set.insert(OptCombination::new_with_opt(&a, 1));
    set.extend_with(SolutionSet::new(), &a, 2);
    assert_eq!(set.len(), 1);
    assert_eq!(entries(set.get(0)), named(&[("a", 1)]));
}

#[test]
fn set_clone_is_equal_and_separate() {
    let a = opt("a", 1, 9, 1_000, 0);
    let mut set = SolutionSet::new();
    set.insert(OptCombination::new_with_opt(&a, 1));
    let copy = set.clone();
    set.insert(OptCombination::new_with_opt(&a, 2));
    assert_eq!(copy.len(), 1);
    assert_eq!(set.len(), 2);
    assert_eq!(entries(copy.get(0)), named(&[("a", 1)]));
}
