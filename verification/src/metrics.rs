//! Graph and telemetry figures shown by the dashboards and the console
//! side panel: top-line graph statistics, communities, hub symbols, and the
//! classification of span outcomes.

use vstd::prelude::*;
use crate::text::{ascii_lower, chars_of, to_ascii_lower};

verus! {

/// Top-line statistics of a code-review graph.
#[derive(Debug, Clone, Copy, PartialEq, Eq, Structural)]
pub struct GraphStats {
    pub total_symbols: usize,
    pub total_edges: usize,
    pub community_count: usize,
    pub file_count: usize,
}

/// One hub entry: a highly-connected symbol of the graph.
#[derive(Debug, Clone)]
pub struct HubEntry {
    pub name: String,
    pub symbol_id: String,
    pub connectivity_score: i32,
    pub file_path: String,
}

/// Equality of two texts up to ASCII case (`str::eq_ignore_ascii_case`).
pub open spec fn eq_ignore_ascii_case_spec(a: Seq<char>, b: Seq<char>) -> bool {
    a.len() == b.len() && forall|i: int| 0 <= i < a.len() ==> ascii_lower(#[trigger] a[i]) == ascii_lower(b[i])
}

/// Whether `a` and `b` are equal up to ASCII case.
pub fn eq_ignore_ascii_case(a: &str, b: &str) -> (r: bool)
    ensures
        r == eq_ignore_ascii_case_spec(a@, b@),
{
    let av = chars_of(a);
    let bv = chars_of(b);
    if av.len() != bv.len() {
        return false;
    }
    let mut i: usize = 0;
    while i < av.len()
        invariant
            i <= av@.len() == bv@.len(),
            av@ == a@,
            bv@ == b@,
            forall|k: int| 0 <= k < i ==> ascii_lower(#[trigger] av@[k]) == ascii_lower(bv@[k]),
        decreases av@.len() - i,
    {
        if to_ascii_lower(av[i]) != to_ascii_lower(bv[i]) {
            return false;
        }
        i = i + 1;
    }
    true
}

/// An outcome counts as an error when it is present and is not `success`
/// in any ASCII case.
pub open spec fn is_error_outcome_spec(outcome: Option<Seq<char>>) -> bool {
    match outcome {
        Some(o) => !eq_ignore_ascii_case_spec(o, seq!['s', 'u', 'c', 'c', 'e', 's', 's']),
        None => false,
    }
}

/// Returns `true` when the outcome is present and not equal to `"success"`
/// (case-insensitive).
pub fn is_error_outcome(outcome: Option<&str>) -> (r: bool)
    ensures
        r == is_error_outcome_spec(
            match outcome {
                Some(o) => Some(o@),
                None => None,
            },
        ),
{
    match outcome {
        Some(outcome_value) => {
            let success = "success";
            proof {
                reveal_strlit("success");
            }
            assert(success@ =~= seq!['s', 'u', 'c', 'c', 'e', 's', 's']);
            !eq_ignore_ascii_case(outcome_value, success)
        },
        None => false,
    }
}

} // verus!
