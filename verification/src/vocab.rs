//! The stock marker vocabulary: the code-status marker names this scanner
//! ships with. The scan itself takes any vocabulary; this is the default.

use vstd::prelude::*;
use vstd::string::*;

verus! {

/// The names of the stock vocabulary, in their fixed enumeration order.
pub open spec fn default_vocabulary_spec() -> Seq<Seq<char>> {
    seq![
        "untested"@,
        "includes_unwrap"@,
        "needs"@,
        "perf_critical"@,
        "security_sensitive"@,
        "unsafe_usage"@,
        "no_clippy"@,
        "complexity"@,
        "allocation_heavy"@,
        "panic_path"@,
        "needs_review"@,
        "temporary"@,
        "assumptions"@,
        "revisit_in"@,
        "dependency_sensitive"@,
        "platform_specific"@,
        "feature_gated"@,
        "api_stability"@,
        "deadlock_risk"@,
        "benchmark_candidate"@,
    ]
}

/// The stock vocabulary as owned strings.
pub fn default_vocabulary() -> (r: Vec<String>)
    ensures
        r.deep_view() == default_vocabulary_spec(),
{
    let mut r: Vec<String> = Vec::new();
    r.push(String::from_str("untested"));
    r.push(String::from_str("includes_unwrap"));
    r.push(String::from_str("needs"));
    r.push(String::from_str("perf_critical"));
    r.push(String::from_str("security_sensitive"));
    r.push(String::from_str("unsafe_usage"));
    r.push(String::from_str("no_clippy"));
    r.push(String::from_str("complexity"));
    r.push(String::from_str("allocation_heavy"));
    r.push(String::from_str("panic_path"));
    r.push(String::from_str("needs_review"));
    r.push(String::from_str("temporary"));
    r.push(String::from_str("assumptions"));
    r.push(String::from_str("revisit_in"));
    r.push(String::from_str("dependency_sensitive"));
    r.push(String::from_str("platform_specific"));
    r.push(String::from_str("feature_gated"));
    r.push(String::from_str("api_stability"));
    r.push(String::from_str("deadlock_risk"));
    r.push(String::from_str("benchmark_candidate"));
    proof {
        assert(r.deep_view() =~= default_vocabulary_spec());
    }
    r
}

} // verus!
