use optalloc::method::Method;
use std::str::FromStr;

#[test]
fn from_str_knows_each_method() {
    assert_eq!(Method::from_str("brute-force"), Ok(Method::BruteForce));
    assert_eq!(
        Method::from_str("overlapping-subproblems"),
        Ok(Method::OverlappingSubproblems)
    );
    assert_eq!(Method::from_str("optimal-substructure"), Ok(Method::OptimalSubstructure));
    assert_eq!(Method::from_str("dp-recursive"), Ok(Method::DPRecursive));
    assert_eq!(Method::from_str("dp-recursive-optimized"), Ok(Method::DPRecursiveOptimized));
    assert_eq!(Method::from_str("dp-iterative-optimized"), Ok(Method::DPIterativeOptimized));
    assert_eq!(Method::from_str("greedy"), Ok(Method::Greedy));
}

#[test]
fn from_str_repeats_an_unknown_name() {
    assert_eq!(Method::from_str("simplex"), Err("Unknown method: simplex".to_string()));
    assert_eq!(Method::from_str(""), Err("Unknown method: ".to_string()));
    assert_eq!(Method::from_str("Greedy"), Err("Unknown method: Greedy".to_string()));
    assert_eq!(Method::from_str("greedy "), Err("Unknown method: greedy ".to_string()));
}

#[test]
fn parse_goes_by_the_same_names() {
    assert_eq!("dp-recursive".parse::<Method>(), Ok(Method::DPRecursive));
    assert_eq!("dp".parse::<Method>(), Err("Unknown method: dp".to_string()));
    assert_eq!(<Method as FromStr>::from_str("greedy"), Ok(Method::Greedy));
}

#[test]
fn variants_lists_the_names_in_order() {
    assert_eq!(
        Method::variants(),
        &[
            "brute-force",
            "overlapping-subproblems",
            "optimal-substructure",
            "dp-recursive",
            "dp-recursive-optimized",
            "dp-iterative-optimized",
            "greedy"
        ]
    );
}

#[test]
fn every_variant_parses_to_a_method_of_its_own() {
    let mut seen: Vec<Method> = Vec::new();
    for name in Method::variants() {
        let method = Method::from_str(name).unwrap();
        assert!(!seen.contains(&method));
        seen.push(method);
    }
    assert_eq!(seen.len(), 7);
}
