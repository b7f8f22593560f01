//! The membership distribution round.
//!
//! After the health gate, the orchestrator posts the full table to every node at
//! once and waits until all of them acknowledge, bounded by a global
//! deadline. A round that misses the deadline fails — but nothing is rolled
//! back: nodes that already applied the table keep it, and a straggler that
//! answers later still ends up updated.

use vstd::prelude::*;

use crate::gate::OrchError;

verus! {

/// When each node acknowledged the push: the tick its acknowledgment
/// arrived, or nothing if it never answered.
pub open spec fn all_acked_by(acks: Seq<Option<u64>>, deadline: u64) -> bool {
    forall|i: int|
        0 <= i < acks.len() ==> (#[trigger] acks[i] matches Some(t) && t <= deadline)
}

/// Judges one distribution round: success exactly when every node
/// acknowledged within the deadline, and a `DistributionTimeout` carrying the
/// deadline otherwise. Late acknowledgments are abandoned, not undone.
pub fn distribution_outcome(acks: &Vec<Option<u64>>, deadline: u64) -> (r: Result<
    (),
    OrchError,
>)
    ensures
        r is Ok <==> all_acked_by(acks@, deadline),
        r is Err ==> r == Result::<(), OrchError>::Err(OrchError::DistributionTimeout(deadline)),
{
    let mut i: usize = 0;
    while i < acks.len()
        invariant
            i <= acks@.len(),
            forall|j: int| 0 <= j < i ==> (#[trigger] acks@[j] matches Some(t) && t <= deadline),
        decreases acks@.len() - i,
    {
        match acks[i] {
            None => {
                return Err(OrchError::DistributionTimeout(deadline));
            },
            Some(t) => {
                if t > deadline {
                    return Err(OrchError::DistributionTimeout(deadline));
                }
            },
        }
        i = i + 1;
    }
    Ok(())
}

} // verus!
