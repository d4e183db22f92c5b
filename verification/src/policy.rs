//! The routing policy: given the live entries for a requested model,
//! pick the one that serves the request.
//!
//! The baseline policy is uniform-random among replicas.  A policy is
//! stateless with respect to the list it is given: the contract pins
//! what is returned for an empty and for a non-empty list, and which
//! entry of a non-empty list comes back is the policy's choice.

use vstd::prelude::*;

use crate::entry::ModelEntry;

verus! {

/// Relies on rand::random_range: a value drawn from a non-empty
/// half-open range lies within it.  Which value comes back is chance,
/// so nothing more is stated.
#[verifier::external_body]
fn random_below(n: usize) -> (r: usize)
    requires
        n >= 1,
    ensures
        r < n,
{
    rand::random_range(0..n)
}

/// One backend chosen uniformly at random among the given entries, or
/// nothing exactly when the list is empty.  The dispatcher must treat
/// the empty outcome as "no backend currently serves this model".
pub fn select_uniform(entries: &Vec<ModelEntry>) -> (r: Option<ModelEntry>)
    ensures
        r is Some <==> entries@.len() > 0,
        r matches Some(e) ==> exists|i: int| 0 <= i < entries@.len() && e@ == entries@[i]@,
{
    if entries.len() == 0 {
        None
    } else {
        let i = random_below(entries.len());
        let e = entries[i].clone();
        proof {
            assert(e@ == entries@[i as int]@);
        }
        Some(e)
    }
}

/// How a router picks among replicas; uniform-random is the baseline
/// and further strategies plug in as new variants with the same
/// contract.
#[derive(Clone, Copy, PartialEq, Eq, Structural, Debug)]
pub enum RoutingPolicy {
    Random,
}

impl RoutingPolicy {
    /// Pick one entry by this policy, or nothing exactly when no entry
    /// is given.
    pub fn select(&self, entries: &Vec<ModelEntry>) -> (r: Option<ModelEntry>)
        ensures
            r is Some <==> entries@.len() > 0,
            r matches Some(e) ==> exists|i: int| 0 <= i < entries@.len() && e@ == entries@[i]@,
    {
        match self {
            RoutingPolicy::Random => select_uniform(entries),
        }
    }
}

} // verus!
