//! The solving methods by name.

use vstd::prelude::*;
use vstd::string::StringExecFns;

verus! {

/// A way to solve: one per solver.
#[derive(Debug, Clone, Copy, PartialEq, Eq, Structural)]
pub enum Method {
    BruteForce,
    OverlappingSubproblems,
    OptimalSubstructure,
    DPRecursive,
    DPRecursiveOptimized,
    DPIterativeOptimized,
    Greedy,
}

impl Method {
    /// The name under which the method is chosen.
    pub open spec fn name(self) -> Seq<char> {
        match self {
            Method::BruteForce => "brute-force"@,
            Method::OverlappingSubproblems => "overlapping-subproblems"@,
            Method::OptimalSubstructure => "optimal-substructure"@,
            Method::DPRecursive => "dp-recursive"@,
            Method::DPRecursiveOptimized => "dp-recursive-optimized"@,
            Method::DPIterativeOptimized => "dp-iterative-optimized"@,
            Method::Greedy => "greedy"@,
        }
    }

    /// The method of the given name; for any other string, an error that
    /// repeats it.
    pub fn from_str(s: &str) -> (found: Result<Method, String>)
        ensures
            match found {
                Ok(method) => method.name() == s@,
                Err(message) => (forall|method: Method| method.name() != s@) && message@
                    == "Unknown method: "@ + s@,
            },
    {
        let given: String = s.to_owned();
        if given == "brute-force".to_owned() {
            Ok(Method::BruteForce)
        } else if given == "overlapping-subproblems".to_owned() {
            Ok(Method::OverlappingSubproblems)
        } else if given == "optimal-substructure".to_owned() {
            Ok(Method::OptimalSubstructure)
        } else if given == "dp-recursive".to_owned() {
            Ok(Method::DPRecursive)
        } else if given == "dp-recursive-optimized".to_owned() {
            Ok(Method::DPRecursiveOptimized)
        } else if given == "dp-iterative-optimized".to_owned() {
            Ok(Method::DPIterativeOptimized)
        } else if given == "greedy".to_owned() {
            Ok(Method::Greedy)
        } else {
            Err("Unknown method: ".to_owned().concat(s))
        }
    }

    /// The names of all methods, in the order of their declaration.
    pub fn variants() -> (names: &'static [&'static str])
        ensures
            names@.len() == 7,
            names@[0]@ == Method::BruteForce.name(),
            names@[1]@ == Method::OverlappingSubproblems.name(),
            names@[2]@ == Method::OptimalSubstructure.name(),
            names@[3]@ == Method::DPRecursive.name(),
            names@[4]@ == Method::DPRecursiveOptimized.name(),
            names@[5]@ == Method::DPIterativeOptimized.name(),
            names@[6]@ == Method::Greedy.name(),
    {
        &[
            "brute-force",
            "overlapping-subproblems",
            "optimal-substructure",
            "dp-recursive",
            "dp-recursive-optimized",
            "dp-iterative-optimized",
            "greedy",
        ]
    }
}

impl core::str::FromStr for Method {
    type Err = String;

    /// The method of the given name; for any other string, an error that
    /// repeats it. This is what `parse` goes by.
    fn from_str(s: &str) -> (found: Result<Self, String>)
        ensures
            match found {
                Ok(method) => method.name() == s@,
                Err(message) => (forall|method: Method| method.name() != s@) && message@
                    == "Unknown method: "@ + s@,
            },
    {
        Method::from_str(s)
    }
}

/// The length of a method's name and its fourth character: enough to tell
/// any two names apart.
spec fn mark(method: Method) -> (nat, char) {
    match method {
        Method::BruteForce => (11, 't'),
        Method::OverlappingSubproblems => (23, 'r'),
        Method::OptimalSubstructure => (20, 'i'),
        Method::DPRecursive => (12, 'r'),
        Method::DPRecursiveOptimized => (22, 'r'),
        Method::DPIterativeOptimized => (22, 'i'),
        Method::Greedy => (6, 'e'),
    }
}

/// Each name has the length and the fourth character of its mark.
proof fn lemma_mark(method: Method)
    ensures
        method.name().len() == mark(method).0,
        method.name()[3] == mark(method).1,
{
    reveal_strlit("brute-force");
    reveal_strlit("overlapping-subproblems");
    reveal_strlit("optimal-substructure");
    reveal_strlit("dp-recursive");
    reveal_strlit("dp-recursive-optimized");
    reveal_strlit("dp-iterative-optimized");
    reveal_strlit("greedy");
}

/// No two methods share a name.
pub proof fn lemma_names_differ(a: Method, b: Method)
    requires
        a.name() == b.name(),
    ensures
        a == b,
{
    lemma_mark(a);
    lemma_mark(b);
}

} // verus!
