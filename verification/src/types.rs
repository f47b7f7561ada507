//! Shared plain types of the signing core: task identifiers, session
//! identifiers, error kinds and the sliding-window acceptance policy for the
//! block number a peer message is associated with.

use vstd::prelude::*;

verus! {

/// 32-byte content hash of an unsigned proposal batch; the identity of a
/// signing task.  Equal hashes mean the same task for scheduling purposes.
pub type TaskHash = [u8; 32];

/// Monotonic identifier of the keygen epoch whose public key signs.
pub type SessionId = u64;

/// How far (in blocks, in either direction) the block a message is associated
/// with may lie from the block its receiver expects.
pub const ASSOCIATED_BLOCK_TOLERANCE: u64 = 10;

/// Default cap on concurrently running signing tasks.
pub const MAX_RUNNING_TASKS: usize = 4;

/// Default cap on enqueued (admitted but not yet started) signing tasks.
pub const MAX_ENQUEUED_TASKS: usize = 20;

/// Default period of the interval poll driver.
pub const JOB_POLL_INTERVAL_IN_MILLISECONDS: u64 = 200;

/// Candidate signing-set indices tried per proposal within one session.
pub const MAX_POTENTIAL_SIGNING_SETS_PER_PROPOSAL: u8 = 2;

/// Blocks after a task's `started_at` until its handle reports a stall.
pub const SIGNING_TIMEOUT_BLOCKS: u64 = 2;

/// Error kinds surfaced by the core.
#[derive(Clone, Copy, Debug, PartialEq, Eq, Structural)]
pub enum SigningError {
    /// A chain query failed; the outer finalized-block loop decides retry.
    ChainQueryFailed,
    /// The deterministic sampler could not produce `t + 1` valid parties.
    CommitteeSelectionFailed,
    /// The protocol factory rejected a setup.
    ProtocolInitFailed,
    /// `push_task` was called with the queue full and `force_start` false.
    AdmissionOverflow,
    /// The wakeup channel of the poll driver is gone; fatal logic error.
    WakeupChannelClosed,
    /// A message could not be delivered; non-fatal, the message is dropped.
    MessageDeliveryFailed,
    /// A party index failed its validity conversion (indices are 1-based).
    InvalidPartyIndex,
}

/// Whether a message associated with block `got` is acceptable to a receiver
/// expecting block `expected`: within the sliding window of
/// [`ASSOCIATED_BLOCK_TOLERANCE`] blocks either side.
pub open spec fn spec_block_id_acceptable(expected: int, got: int) -> bool {
    -(ASSOCIATED_BLOCK_TOLERANCE as int) <= got - expected <= ASSOCIATED_BLOCK_TOLERANCE as int
}

/// Sliding-window policy on the block number a message is associated with.
pub fn associated_block_id_acceptable(expected: u64, got: u64) -> (r: bool)
    ensures
        r == spec_block_id_acceptable(expected as int, got as int),
{
    if got >= expected {
        got - expected <= ASSOCIATED_BLOCK_TOLERANCE
    } else {
        expected - got <= ASSOCIATED_BLOCK_TOLERANCE
    }
}

/// Byte-wise equality of two task hashes.
pub fn task_hash_eq(a: &TaskHash, b: &TaskHash) -> (r: bool)
    ensures
        r == (a@ == b@),
{
    let mut i: usize = 0;
    while i < 32
        invariant
            0 <= i <= 32,
            forall|k: int| 0 <= k < i ==> a@[k] == b@[k],
        decreases 32 - i,
    {
        if a[i] != b[i] {
            assert(a@ != b@);
            return false;
        }
        i += 1;
    }
    assert(a@ =~= b@);
    true
}

} // verus!
