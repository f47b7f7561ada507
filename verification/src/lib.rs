//! Signing orchestration core of a distributed threshold-signature gadget.
//!
//! On each finalized block the [`signing_manager::SigningManager`] elects, for
//! every pending unsigned proposal batch, a deterministic committee of `t + 1`
//! signers.  When the local party is elected it plans a signing task, which a
//! bounded [`work_manager::WorkManager`] admits, queues, starts, reaps and
//! routes peer messages to.  The scheduler itself is a pure state machine:
//! every externally visible effect (starting a protocol handle, shutting one
//! down, handing it a message, signalling the wakeup channel) is returned to
//! the caller as a [`job::Command`], so an embedding runtime performs the
//! effects while the decisions stay verified.

pub mod buffer;
pub mod hashing;
pub mod job;
pub mod proposals;
pub mod sampling;
pub mod signing_manager;
pub mod types;
pub mod work_manager;
