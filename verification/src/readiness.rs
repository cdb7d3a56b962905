//! The configured bounds of the page-readiness wait.
//!
//! The browser collaborator waits at least a configured minimum duration and
//! races the remaining configured maximum against the page's readiness
//! signals.  The rules here decide what the caller's options mean: when a
//! pair of bounds is acceptable, and which bounds apply when an option is
//! left out.

use vstd::prelude::*;

verus! {

/// The default minimum wait, in milliseconds.
pub open spec fn default_min_wait_ms() -> u64 {
    0
}

/// The default maximum wait, in milliseconds.
pub open spec fn default_max_wait_ms() -> u64 {
    5000
}

/// Whether a requested pair of wait bounds is acceptable: a given maximum
/// must not undercut a given minimum.
pub fn wait_bounds_ordered(min_ms: Option<u64>, max_ms: Option<u64>) -> (r: bool)
    ensures
        r == !(min_ms matches Some(a) && max_ms matches Some(b) && b < a),
{
    match (min_ms, max_ms) {
        (Some(a), Some(b)) => b >= a,
        _ => true,
    }
}

/// The bounds that apply: the requested ones, with the defaults filled in
/// where a bound was left out.
pub fn effective_wait_bounds(min_ms: Option<u64>, max_ms: Option<u64>) -> (r: (u64, u64))
    ensures
        r.0 == match min_ms {
            Some(v) => v,
            None => default_min_wait_ms(),
        },
        r.1 == match max_ms {
            Some(v) => v,
            None => default_max_wait_ms(),
        },
{
    let lo = match min_ms {
        Some(v) => v,
        None => 0,
    };
    let hi = match max_ms {
        Some(v) => v,
        None => 5000,
    };
    (lo, hi)
}

} // verus!
