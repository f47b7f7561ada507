use signing_core::job::{Command, Job, ShutdownReason, SignedMessage};
use signing_core::types::associated_block_id_acceptable;
use signing_core::work_manager::{DeliveryAction, PollMethod, WorkManager};

fn hash(b: u8) -> [u8; 32] {
    [b; 32]
}

fn job(b: u8, session: u64, ssid: u8, block: u64) -> Job {
    Job::new(hash(b), session, ssid, block, block, 2)
}

fn msg(b: u8, session: u64, ssid: u8, block: u64, payload: u8) -> SignedMessage {
    SignedMessage {
        session_id: session,
        ssid,
        associated_block_id: block,
        unsigned_proposal_hash: Some(hash(b)),
        payload: vec![payload],
    }
}

fn active_hashes(wm: &WorkManager) -> Vec<[u8; 32]> {
    wm.inner.active_tasks.iter().map(|j| j.task_hash).collect()
}

#[test]
fn elected_admitted() {
    let mut wm = WorkManager::new(2, 8, PollMethod::Manual);
    wm.push_task(job(1, 5, 0, 10), false).unwrap();
    wm.push_task(job(2, 5, 0, 10), false).unwrap();
    wm.push_task(job(3, 5, 0, 10), false).unwrap();
    let cmds = wm.poll(10);
    assert_eq!(wm.inner.active_tasks.len(), 2);
    assert_eq!(wm.inner.enqueued_tasks.len(), 1);
    assert!(active_hashes(&wm).contains(&hash(1)));
    assert!(active_hashes(&wm).contains(&hash(2)));
    assert_eq!(wm.inner.enqueued_tasks[0].task_hash, hash(3));
    assert_eq!(cmds.len(), 2);
    assert!(matches!(cmds[0], Command::Start { task_hash } if task_hash == hash(1)));
    assert!(matches!(cmds[1], Command::Start { task_hash } if task_hash == hash(2)));
}

#[test]
fn force_start_bypasses_bounds() {
    let mut wm = WorkManager::new(1, 8, PollMethod::Manual);
    wm.push_task(job(1, 5, 0, 10), false).unwrap();
    wm.poll(10);
    assert_eq!(wm.inner.active_tasks.len(), 1);
    let cmds = wm.push_task(job(2, 5, 0, 10), true).unwrap();
    assert_eq!(wm.inner.active_tasks.len(), 2);
    assert!(active_hashes(&wm).contains(&hash(2)));
    assert_eq!(wm.inner.enqueued_tasks.len(), 0);
    assert!(matches!(cmds[0], Command::Start { task_hash } if task_hash == hash(2)));
}

#[test]
fn early_message_buffered_then_delivered_once() {
    let mut wm = WorkManager::new(2, 8, PollMethod::Manual);
    let m = msg(7, 5, 3, 10, 42);
    let action = wm.deliver_message(m, hash(7));
    assert!(matches!(action, DeliveryAction::Buffered));
    assert_eq!(wm.inner.enqueued_messages.len(), 1);
    assert_eq!(wm.inner.enqueued_messages[0].task_hash, hash(7));
    assert_eq!(wm.inner.enqueued_messages[0].queues.len(), 1);
    assert_eq!(wm.inner.enqueued_messages[0].queues[0].ssid, 3);
    assert_eq!(wm.inner.enqueued_messages[0].queues[0].messages.len(), 1);

    wm.push_task(job(7, 5, 3, 10), false).unwrap();
    let cmds = wm.poll(10);
    let deliveries: Vec<&Command> = cmds
        .iter()
        .filter(|c| matches!(c, Command::Deliver { .. }))
        .collect();
    assert_eq!(deliveries.len(), 1);
    match deliveries[0] {
        Command::Deliver { task_hash, message } => {
            assert_eq!(*task_hash, hash(7));
            assert_eq!(message.payload, vec![42]);
        }
        _ => unreachable!(),
    }
    assert!(wm.inner.enqueued_messages.is_empty());
}

#[test]
fn buffered_messages_arrive_in_insertion_order() {
    let mut wm = WorkManager::new(2, 8, PollMethod::Manual);
    wm.deliver_message(msg(7, 5, 3, 10, 1), hash(7));
    wm.deliver_message(msg(7, 5, 3, 10, 2), hash(7));
    wm.deliver_message(msg(7, 5, 3, 10, 3), hash(7));
    wm.push_task(job(7, 5, 3, 10), false).unwrap();
    let cmds = wm.poll(10);
    let payloads: Vec<u8> = cmds
        .iter()
        .filter_map(|c| match c {
            Command::Deliver { message, .. } => Some(message.payload[0]),
            _ => None,
        })
        .collect();
    assert_eq!(payloads, vec![1, 2, 3]);
}

#[test]
fn message_for_live_job_goes_to_handle() {
    let mut wm = WorkManager::new(2, 8, PollMethod::Manual);
    wm.push_task(job(7, 5, 3, 10), false).unwrap();
    let action = wm.deliver_message(msg(7, 5, 3, 10, 9), hash(7));
    assert!(matches!(action, DeliveryAction::ToEnqueuedJob { .. }));
    wm.poll(10);
    let action = wm.deliver_message(msg(7, 5, 3, 10, 9), hash(7));
    assert!(matches!(action, DeliveryAction::ToActiveJob { .. }));
    let action = wm.deliver_message(msg(7, 6, 3, 10, 9), hash(7));
    assert!(matches!(action, DeliveryAction::Buffered));
}

#[test]
fn duplicate_push_is_noop() {
    let mut wm = WorkManager::new(2, 8, PollMethod::Manual);
    wm.push_task(job(1, 5, 0, 10), false).unwrap();
    let cmds = wm.push_task(job(1, 5, 1, 10), false).unwrap();
    assert!(cmds.is_empty());
    assert_eq!(wm.inner.enqueued_tasks.len(), 1);
    let cmds = wm.push_task(job(1, 5, 1, 10), true).unwrap();
    assert!(cmds.is_empty());
    assert_eq!(wm.inner.active_tasks.len(), 0);
}

#[test]
fn queue_overflow_is_rejected() {
    let mut wm = WorkManager::new(1, 1, PollMethod::Manual);
    wm.push_task(job(1, 5, 0, 10), false).unwrap();
    let r = wm.push_task(job(2, 5, 0, 10), false);
    assert_eq!(
        r.unwrap_err(),
        signing_core::types::SigningError::AdmissionOverflow
    );
    assert!(wm.can_submit_more_tasks() == false);
}

#[test]
fn interval_push_signals_wakeup() {
    let mut wm = WorkManager::new(1, 8, PollMethod::Interval { millis: 200 });
    let cmds = wm.push_task(job(1, 5, 0, 10), false).unwrap();
    assert_eq!(cmds.len(), 1);
    assert!(matches!(cmds[0], Command::Signal { task_hash } if task_hash == hash(1)));
}

#[test]
fn stall_reaping() {
    let mut wm = WorkManager::new(2, 8, PollMethod::Manual);
    // started_at 0 with timeout 2: stalled well before block 10
    let j = Job::new(hash(1), 5, 0, 0, 0, 2);
    wm.push_task(j, true).unwrap();
    assert_eq!(wm.inner.active_tasks.len(), 1);
    // a buffered message for another ssid of the same task survives the reap
    wm.deliver_message(msg(1, 5, 1, 10, 8), hash(1));
    let cmds = wm.poll(10);
    assert!(wm.inner.active_tasks.is_empty());
    assert!(cmds.iter().any(|c| matches!(
        c,
        Command::Shutdown { task_hash, reason: ShutdownReason::Stalled } if *task_hash == hash(1)
    )));
    assert_eq!(wm.inner.enqueued_messages.len(), 1);
    assert_eq!(wm.inner.enqueued_messages[0].queues[0].ssid, 1);
}

#[test]
fn done_task_released_with_drop_code() {
    let mut wm = WorkManager::new(2, 8, PollMethod::Manual);
    wm.push_task(job(1, 5, 0, 10), true).unwrap();
    wm.mark_task_done(&hash(1));
    let cmds = wm.poll(10);
    assert!(wm.inner.active_tasks.is_empty());
    assert!(cmds.iter().any(|c| matches!(
        c,
        Command::Shutdown { task_hash, reason: ShutdownReason::DropCode } if *task_hash == hash(1)
    )));
}

#[test]
fn poll_purges_expired_messages_and_empty_maps() {
    let mut wm = WorkManager::new(2, 8, PollMethod::Manual);
    wm.deliver_message(msg(7, 5, 3, 0, 1), hash(7));
    wm.poll(100);
    assert!(wm.inner.enqueued_messages.is_empty());
}

#[test]
fn admission_liveness() {
    let mut wm = WorkManager::new(2, 8, PollMethod::Manual);
    wm.push_task(job(1, 5, 0, 10), false).unwrap();
    let before = wm.inner.enqueued_tasks.len();
    wm.poll(10);
    assert!(wm.inner.enqueued_tasks.len() < before);
}

#[test]
fn metadata_snapshot() {
    let mut wm = WorkManager::new(2, 8, PollMethod::Manual);
    wm.push_task(Job::new(hash(1), 9, 0, 10, 10, 2), true).unwrap();
    let meta = wm.get_active_sessions_metadata(11);
    assert_eq!(meta.len(), 1);
    assert_eq!(meta[0].session_id, 9);
    assert!(!meta[0].is_stalled);
    assert!(!meta[0].is_finished);
    assert!(meta[0].has_started);
    assert!(meta[0].is_active);
    let meta = wm.get_active_sessions_metadata(100);
    assert!(meta[0].is_stalled);
}

#[test]
fn force_shutdown_all_releases_everything() {
    let mut wm = WorkManager::new(1, 8, PollMethod::Manual);
    wm.push_task(job(1, 5, 0, 10), true).unwrap();
    wm.push_task(job(2, 5, 0, 10), false).unwrap();
    wm.deliver_message(msg(3, 5, 0, 10, 1), hash(3));
    let cmds = wm.force_shutdown_all();
    assert_eq!(cmds.len(), 2);
    assert!(cmds.iter().all(|c| matches!(
        c,
        Command::Shutdown { reason: ShutdownReason::DropCode, .. }
    )));
    assert!(wm.inner.active_tasks.is_empty());
    assert!(wm.inner.enqueued_tasks.is_empty());
    assert!(wm.inner.enqueued_messages.is_empty());
}

#[test]
fn poll_is_idempotent_at_same_block() {
    let mut wm = WorkManager::new(1, 8, PollMethod::Manual);
    // planned long before block 100: queue wait must not count as stall
    wm.push_task(Job::new(hash(1), 5, 0, 0, 0, 2), false).unwrap();
    let first = wm.poll(100);
    assert!(matches!(first[0], Command::Start { .. }));
    assert_eq!(wm.inner.active_tasks.len(), 1);
    assert_eq!(wm.inner.active_tasks[0].started_at, 100);
    // same clock, same handle answers: the second round changes nothing
    let second = wm.poll(100);
    assert!(second.is_empty());
    assert_eq!(wm.inner.active_tasks.len(), 1);
    assert!(wm.inner.enqueued_tasks.is_empty());
}

#[test]
fn failed_start_hands_buffered_messages_back() {
    let mut wm = WorkManager::new(2, 8, PollMethod::Manual);
    wm.deliver_message(msg(7, 5, 3, 10, 1), hash(7));
    wm.deliver_message(msg(7, 5, 3, 10, 2), hash(7));
    wm.push_task(job(7, 5, 3, 10), false).unwrap();
    let cmds = wm.poll(10);
    // the runtime reports the start failed and hands the deliveries back
    let undelivered: Vec<SignedMessage> = cmds
        .into_iter()
        .filter_map(|c| match c {
            Command::Deliver { message, .. } => Some(message),
            _ => None,
        })
        .collect();
    assert_eq!(undelivered.len(), 2);
    wm.mark_start_failed(&hash(7), undelivered);
    assert!(wm.inner.active_tasks.is_empty());
    // the messages are parked again, in order, for a later attempt
    assert_eq!(wm.inner.enqueued_messages.len(), 1);
    assert_eq!(wm.inner.enqueued_messages[0].queues[0].ssid, 3);
    let payloads: Vec<u8> = wm.inner.enqueued_messages[0].queues[0]
        .messages
        .iter()
        .map(|m| m.payload[0])
        .collect();
    assert_eq!(payloads, vec![1, 2]);
    // a later attempt receives them as if the failed start never happened
    wm.push_task(job(7, 5, 3, 10), false).unwrap();
    let cmds = wm.poll(10);
    let payloads: Vec<u8> = cmds
        .iter()
        .filter_map(|c| match c {
            Command::Deliver { message, .. } => Some(message.payload[0]),
            _ => None,
        })
        .collect();
    assert_eq!(payloads, vec![1, 2]);
}

#[test]
fn block_window_policy() {
    assert!(associated_block_id_acceptable(100, 100));
    assert!(associated_block_id_acceptable(100, 90));
    assert!(!associated_block_id_acceptable(100, 89));
    assert!(associated_block_id_acceptable(100, 110));
    assert!(!associated_block_id_acceptable(100, 111));
    assert!(associated_block_id_acceptable(5, 0));
}
