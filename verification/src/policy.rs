//! How many copies of a file the cluster keeps.

use vstd::prelude::*;

verus! {

/// The number of replicas of each file, this node's copy included.
#[derive(Debug, Clone)]
pub struct ReplicationPolicy {
    pub replication_factor: usize,
}

/// The factor a policy keeps when asked for `requested`: at least one.
pub open spec fn kept_factor(requested: int) -> int {
    if requested >= 1 {
        requested
    } else {
        1
    }
}

/// The replicas left for other nodes under `factor`: all but the local copy,
/// never fewer than none.
pub open spec fn remote_count(factor: int) -> int {
    if factor >= 1 {
        factor - 1
    } else {
        0
    }
}

impl ReplicationPolicy {
    /// A policy of `replication_factor` replicas; at least one, the local copy.
    pub fn new(replication_factor: usize) -> (policy: Self)
        ensures
            policy.replication_factor == kept_factor(replication_factor as int),
    {
        let factor = if replication_factor >= 1 {
            replication_factor
        } else {
            1
        };
        ReplicationPolicy { replication_factor: factor }
    }

    /// The number of replicas that other nodes hold.
    pub fn remote_replica_count(&self) -> (count: usize)
        ensures
            count == remote_count(self.replication_factor as int),
    {
        if self.replication_factor >= 1 {
            self.replication_factor - 1
        } else {
            0
        }
    }
}

/// A policy keeps the local copy: whatever factor it was asked for, the
/// remote replicas and the local one together make up its factor.
pub proof fn lemma_policy_keeps_local_copy(requested: int)
    ensures
        kept_factor(requested) >= 1,
        remote_count(kept_factor(requested)) + 1 == kept_factor(requested),
{
}

} // verus!
