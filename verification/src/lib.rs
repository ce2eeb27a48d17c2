use vstd::prelude::*;

pub mod cycle;
pub mod email;
pub mod error;
pub mod github;
pub mod laws;
pub mod reconcile;

verus! {

/// How long a task may stay in the baseline before it is evicted and
/// becomes eligible for re-notification, measured in seconds.
pub fn default_retention_seconds() -> (r: u64)
    ensures
        r == 86400,
{
    86400
}

} // verus!
