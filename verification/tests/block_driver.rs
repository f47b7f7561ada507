use signing_core::job::Job;
use signing_core::proposals::UnsignedProposalBatch;
use signing_core::signing_manager::{
    AuthorityEntry, FinalizedBlockInputs, SigningManager,
};
use signing_core::types::SigningError;

fn authorities() -> Vec<AuthorityEntry> {
    (1u16..=4)
        .map(|i| AuthorityEntry { index: i, public_key: vec![i as u8; 33] })
        .collect()
}

fn batch(tag: u8, timestamp: u64, typed_chain_id: Option<u32>) -> UnsignedProposalBatch {
    UnsignedProposalBatch {
        hash: Some([tag; 32]),
        encoded: vec![tag, tag, tag],
        timestamp,
        typed_chain_id,
    }
}

/// Inputs where the local party is always elected: with `t = 3` the
/// committee is all four authorities.
fn inputs(batches: Vec<UnsignedProposalBatch>) -> FinalizedBlockInputs {
    FinalizedBlockInputs {
        session_id: 5,
        dkg_pub_key: vec![0xAA; 33],
        party_index: Some(2),
        best_authorities: authorities(),
        signature_threshold: 3,
        unjailed_signers: vec![1, 2, 3, 4],
        jailed_signers: Vec::new(),
        unsigned_proposal_batches: batches,
        block_number: 42,
    }
}

#[test]
fn keygen_lock_skips_block() {
    let mut sm = SigningManager::new();
    sm.keygen_lock();
    let r = sm.on_block_finalized(inputs(vec![batch(1, 1, Some(0))]));
    assert!(matches!(r, Ok(None)));
    sm.keygen_unlock();
    let r = sm.on_block_finalized(inputs(vec![batch(1, 1, Some(0))]));
    assert!(matches!(r, Ok(Some(_))));
}

#[test]
fn not_in_authority_set_is_a_success_without_work() {
    let sm = SigningManager::new();
    let mut inp = inputs(vec![batch(1, 1, Some(0))]);
    inp.party_index = None;
    assert!(matches!(sm.on_block_finalized(inp), Ok(None)));
}

#[test]
fn zero_party_index_is_rejected() {
    let sm = SigningManager::new();
    let mut inp = inputs(vec![batch(1, 1, Some(0))]);
    inp.party_index = Some(0);
    assert_eq!(
        sm.on_block_finalized(inp).unwrap_err(),
        SigningError::InvalidPartyIndex
    );
}

#[test]
fn plan_is_timestamp_ordered_and_complete() {
    let sm = SigningManager::new();
    let plan = sm
        .on_block_finalized(inputs(vec![
            batch(2, 20, Some(0)),
            batch(1, 10, None),
            batch(3, 30, Some(1)),
        ]))
        .unwrap()
        .unwrap();
    assert_eq!(plan.session_id, 5);
    assert_eq!(plan.threshold, 3);
    assert_eq!(plan.party_i.0, 2);
    assert_eq!(plan.associated_block_id, 42);
    assert_eq!(plan.best_authorities.len(), 4);
    assert_eq!(plan.tasks.len(), 3);
    // oldest first
    assert_eq!(plan.tasks[0].unsigned_proposal_hash, [1u8; 32]);
    assert_eq!(plan.tasks[1].unsigned_proposal_hash, [2u8; 32]);
    assert_eq!(plan.tasks[2].unsigned_proposal_hash, [3u8; 32]);
    // the rotation-priority batch (typed chain id None) is force-started
    assert!(plan.tasks[0].force_start);
    assert!(!plan.tasks[1].force_start);
    // with t = 3 every committee is all four authorities
    for task in &plan.tasks {
        assert_eq!(task.signing_set.len(), 4);
    }
}

#[test]
fn scheduled_and_unhashable_batches_are_skipped() {
    let mut sm = SigningManager::new();
    // fingerprint 7 is already queued in the work manager
    sm.work_manager
        .push_task(Job::new([7u8; 32], 5, 0, 42, 42, 2), false)
        .unwrap();
    let mut no_hash = batch(9, 5, Some(0));
    no_hash.hash = None;
    let plan = sm
        .on_block_finalized(inputs(vec![
            batch(7, 1, Some(0)),
            no_hash,
            batch(8, 2, Some(0)),
            batch(8, 3, Some(0)), // duplicate hash: only the older one runs
        ]))
        .unwrap()
        .unwrap();
    assert_eq!(plan.tasks.len(), 1);
    assert_eq!(plan.tasks[0].unsigned_proposal_hash, [8u8; 32]);
}

#[test]
fn full_queue_stops_planning() {
    let mut sm = SigningManager::new();
    // fill the queue to its bound
    for i in 0..signing_core::types::MAX_ENQUEUED_TASKS {
        sm.work_manager
            .push_task(Job::new([100 + i as u8; 32], 5, 0, 42, 42, 2), false)
            .unwrap();
    }
    let plan = sm
        .on_block_finalized(inputs(vec![batch(1, 1, Some(0))]))
        .unwrap()
        .unwrap();
    assert!(plan.tasks.is_empty());
}

#[test]
fn failed_message_without_fingerprint() {
    let mut sm = SigningManager::new();
    let r = sm.deliver_message(signing_core::job::SignedMessage {
        session_id: 5,
        ssid: 0,
        associated_block_id: 42,
        unsigned_proposal_hash: None,
        payload: vec![],
    });
    assert_eq!(r.unwrap_err(), SigningError::MessageDeliveryFailed);
}
