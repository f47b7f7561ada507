//! The model of one in-flight signing task: its identity, the observable
//! state of its remote-control handle, and the commands through which the
//! scheduler asks the embedding runtime to act on the real handle.

use vstd::prelude::*;

use crate::types::{SessionId, TaskHash};
use crate::types::spec_block_id_acceptable;
use crate::types::associated_block_id_acceptable;

verus! {

/// Why a task's handle is being shut down.
#[derive(Clone, Copy, Debug, PartialEq, Eq, Structural)]
pub enum ShutdownReason {
    /// The handle reported a stall at the latest poll.
    Stalled,
    /// The task was released (evicted, superseded, or the manager shut down);
    /// releasing ownership ends the protocol.
    DropCode,
}

/// An effect the scheduler has decided on.  The embedding runtime performs it
/// against the real protocol handle; the decision itself is verified here.
#[derive(Debug)]
pub enum Command {
    /// Invoke `start` on the task's handle and spawn its driver future.
    Start { task_hash: TaskHash },
    /// Hand `message` to the task's handle.
    Deliver { task_hash: TaskHash, message: SignedMessage },
    /// Shut the task's handle down for `reason`.
    Shutdown { task_hash: TaskHash, reason: ShutdownReason },
    /// Signal the wakeup channel of the interval poll driver.
    Signal { task_hash: TaskHash },
}

/// A signed peer message of the signing protocol, as the gossip layer hands
/// it over: routing fields in the clear, the body opaque.
#[derive(Debug)]
pub struct SignedMessage {
    /// Keygen epoch the message belongs to.
    pub session_id: SessionId,
    /// Candidate signing-set index the message belongs to.
    pub ssid: u8,
    /// Block number the sender associated with the message.
    pub associated_block_id: u64,
    /// Hash of the unsigned proposal batch the message concerns, when the
    /// payload carries one.
    pub unsigned_proposal_hash: Option<TaskHash>,
    /// Opaque protocol body.
    pub payload: Vec<u8>,
}

/// One in-flight signing task.  Its identity is `task_hash` alone: two jobs
/// with equal hashes are the same task for scheduling purposes.  The
/// remaining fields model what the task's remote-control handle exposes.
#[derive(Clone, Copy, Debug)]
pub struct Job {
    /// Hash of the unsigned proposal batch; the task's identity.
    pub task_hash: TaskHash,
    /// Keygen epoch whose key signs.
    pub session_id: SessionId,
    /// Signing-set attempt number of the task.
    pub ssid: u8,
    /// Block number the task is associated with.
    pub associated_block_id: u64,
    /// Block number stall detection measures from: the setup block at
    /// creation, stamped anew when the scheduler starts a queued task, so
    /// queue wait does not count as protocol stall.
    pub started_at: u64,
    /// Blocks after `started_at` until the handle reports a stall.
    pub stall_timeout: u64,
    /// Whether `start` has been invoked on the handle.
    pub started: bool,
    /// Whether the driver future has returned.
    pub done: bool,
}

/// Observable state of one active task, for external snapshots.
#[derive(Clone, Copy, Debug, PartialEq, Eq, Structural)]
pub struct JobMetadata {
    pub session_id: SessionId,
    pub is_stalled: bool,
    pub is_finished: bool,
    pub has_started: bool,
    pub is_active: bool,
}

/// Whether the handle reports a stall at block `now`: more than
/// `stall_timeout` blocks have passed since `started_at`.
pub open spec fn spec_has_stalled(job: Job, now: int) -> bool {
    now - job.started_at > job.stall_timeout
}

/// `job` with its handle started.
pub open spec fn spec_started(job: Job) -> Job {
    Job { started: true, ..job }
}

/// Whether `msg`, addressed to the task `message_task_hash`, belongs to
/// `job`: same session, same task, same signing-set attempt, and an
/// acceptable associated block.
pub open spec fn spec_should_deliver(job: Job, msg: SignedMessage, message_task_hash: Seq<u8>) -> bool {
    &&& job.session_id == msg.session_id
    &&& job.task_hash@ == message_task_hash
    &&& job.ssid == msg.ssid
    &&& spec_block_id_acceptable(job.associated_block_id as int, msg.associated_block_id as int)
}

/// Routing predicate: does `msg`, addressed to `message_task_hash`, belong
/// to `task`?
pub fn should_deliver(task: &Job, msg: &SignedMessage, message_task_hash: &TaskHash) -> (r: bool)
    ensures
        r == spec_should_deliver(*task, *msg, message_task_hash@),
{
    task.session_id == msg.session_id
        && crate::types::task_hash_eq(&task.task_hash, message_task_hash)
        && task.ssid == msg.ssid
        && associated_block_id_acceptable(task.associated_block_id, msg.associated_block_id)
}

impl Job {
    /// A fresh, not yet started task.
    pub fn new(
        task_hash: TaskHash,
        session_id: SessionId,
        ssid: u8,
        associated_block_id: u64,
        started_at: u64,
        stall_timeout: u64,
    ) -> (r: Job)
        ensures
            r == (Job {
                task_hash,
                session_id,
                ssid,
                associated_block_id,
                started_at,
                stall_timeout,
                started: false,
                done: false,
            }),
    {
        Job {
            task_hash,
            session_id,
            ssid,
            associated_block_id,
            started_at,
            stall_timeout,
            started: false,
            done: false,
        }
    }

    /// Whether the handle reports a stall at block `now`.
    pub fn has_stalled(&self, now: u64) -> (r: bool)
        ensures
            r == spec_has_stalled(*self, now as int),
    {
        now > self.started_at && now - self.started_at > self.stall_timeout
    }

    /// Snapshot of the handle's observable state at block `now`.
    pub fn metadata(&self, now: u64) -> (r: JobMetadata)
        ensures
            r == spec_metadata(*self, now as int),
    {
        JobMetadata {
            session_id: self.session_id,
            is_stalled: self.has_stalled(now),
            is_finished: self.done,
            has_started: self.started,
            is_active: self.started && !self.done,
        }
    }
}

/// The snapshot [`Job::metadata`] returns.
pub open spec fn spec_metadata(job: Job, now: int) -> JobMetadata {
    JobMetadata {
        session_id: job.session_id,
        is_stalled: spec_has_stalled(job, now),
        is_finished: job.done,
        has_started: job.started,
        is_active: job.started && !job.done,
    }
}

} // verus!
