use issue_delivery::issue_delivery_worker::{
    backoff_secs, drain_queue, try_execute_task, ExecutionOutcome, WorkerError,
    ERROR_BACKOFF_SECS, IDLE_BACKOFF_SECS,
};
use issue_delivery::issue_store::{IssueStore, NewsletterIssue};
use issue_delivery::queue::DeliveryQueue;
use issue_delivery::transport::TransportLog;

fn issue_a() -> NewsletterIssue {
    NewsletterIssue {
        title: "Issue A".to_string(),
        text_content: "plain text".to_string(),
        html_content: "<p>html</p>".to_string(),
    }
}

#[test]
fn valid_recipient_is_delivered_and_task_removed() {
    let mut queue = DeliveryQueue::new();
    let mut issues = IssueStore::new();
    let mut transport = TransportLog::new();
    assert!(issues.store_issue(1, issue_a()));
    assert!(queue.enqueue(1, b"alice@example.com".to_vec()));

    let outcome = try_execute_task(&mut queue, &issues, &mut transport);

    assert_eq!(outcome, Ok(ExecutionOutcome::TaskCompleted));
    assert_eq!(queue.len(), 0);
    assert_eq!(transport.sent_count(), 1);
    let sent = transport.get_send(0);
    assert_eq!(sent.recipient, b"alice@example.com".to_vec());
    assert_eq!(sent.subject, "Issue A");
    assert_eq!(sent.text_content, "plain text");
    assert_eq!(sent.html_content, "<p>html</p>");
}

#[test]
fn invalid_recipient_is_skipped_without_transport_call() {
    let mut queue = DeliveryQueue::new();
    let mut issues = IssueStore::new();
    let mut transport = TransportLog::new();
    assert!(issues.store_issue(1, issue_a()));
    assert!(queue.enqueue(1, b"not-an-email".to_vec()));

    let outcome = try_execute_task(&mut queue, &issues, &mut transport);

    assert_eq!(outcome, Ok(ExecutionOutcome::TaskCompleted));
    assert_eq!(queue.len(), 0);
    assert_eq!(transport.sent_count(), 0);
}

#[test]
fn transport_failure_still_resolves_the_task_after_one_attempt() {
    let mut queue = DeliveryQueue::new();
    let mut issues = IssueStore::new();
    let mut transport = TransportLog::new();
    transport.set_outcome(false);
    assert!(issues.store_issue(1, issue_a()));
    assert!(queue.enqueue(1, b"alice@example.com".to_vec()));

    let outcome = try_execute_task(&mut queue, &issues, &mut transport);

    // A failure unrelated to the address is not retried: one attempt was
    // made and the task is gone.
    assert_eq!(outcome, Ok(ExecutionOutcome::TaskCompleted));
    assert_eq!(queue.len(), 0);
    assert_eq!(transport.sent_count(), 1);
}

#[test]
fn empty_queue_reports_empty_and_idle_backoff() {
    let mut queue = DeliveryQueue::new();
    let issues = IssueStore::new();
    let mut transport = TransportLog::new();

    let outcome = try_execute_task(&mut queue, &issues, &mut transport);

    assert_eq!(outcome, Ok(ExecutionOutcome::EmptyQueue));
    assert_eq!(transport.sent_count(), 0);
    assert_eq!(backoff_secs(&outcome), Some(IDLE_BACKOFF_SECS));
    assert_ne!(backoff_secs(&outcome), Some(ERROR_BACKOFF_SECS));
}

#[test]
fn unreachable_store_changes_nothing_and_uses_error_backoff() {
    let mut queue = DeliveryQueue::new();
    let mut issues = IssueStore::new();
    let mut transport = TransportLog::new();
    assert!(issues.store_issue(1, issue_a()));
    assert!(queue.enqueue(1, b"alice@example.com".to_vec()));
    queue.set_reachable(false);

    let outcome = try_execute_task(&mut queue, &issues, &mut transport);

    assert_eq!(outcome, Err(WorkerError::StoreUnavailable));
    // No partial deletion: the queue still holds exactly the one task.
    assert_eq!(queue.len(), 1);
    assert!(queue.contains(1, &b"alice@example.com".to_vec()));
    assert_eq!(transport.sent_count(), 0);
    assert_eq!(backoff_secs(&outcome), Some(ERROR_BACKOFF_SECS));

    // Once the store is back, the task is still deliverable.
    queue.set_reachable(true);
    let retried = try_execute_task(&mut queue, &issues, &mut transport);
    assert_eq!(retried, Ok(ExecutionOutcome::TaskCompleted));
    assert_eq!(queue.len(), 0);
    assert_eq!(transport.sent_count(), 1);
}

#[test]
fn resolved_task_is_not_reclaimed() {
    let mut queue = DeliveryQueue::new();
    assert!(queue.enqueue(1, b"alice@example.com".to_vec()));

    let claim = queue
        .claim_one()
        .expect("store is reachable")
        .expect("one task is unclaimed");
    assert_eq!(claim.issue_id, 1);
    assert_eq!(claim.recipient, b"alice@example.com".to_vec());
    queue.resolve(claim).expect("store is reachable");

    // Re-claiming right after the resolution finds nothing for the pair.
    let next = queue.claim_one().expect("store is reachable");
    assert!(next.is_none());
    assert!(!queue.contains(1, &b"alice@example.com".to_vec()));
}

#[test]
fn two_workers_never_claim_the_same_task() {
    let mut queue = DeliveryQueue::new();
    assert!(queue.enqueue(1, b"alice@example.com".to_vec()));
    assert!(queue.enqueue(1, b"bob@example.com".to_vec()));

    // Two worker loops interleaved against the shared store: both claim
    // before either resolves.
    let first = queue
        .claim_one()
        .expect("store is reachable")
        .expect("two tasks are unclaimed");
    let second = queue
        .claim_one()
        .expect("store is reachable")
        .expect("one task is still unclaimed");
    assert!(
        first.issue_id != second.issue_id || first.recipient != second.recipient,
        "a held task must be skipped, not handed out twice"
    );

    // A third claimant finds nothing while both claims are in flight.
    let third = queue.claim_one().expect("store is reachable");
    assert!(third.is_none());

    // N tasks yield exactly N resolutions.
    queue.resolve(first).expect("store is reachable");
    queue.resolve(second).expect("store is reachable");
    assert_eq!(queue.len(), 0);
    assert!(queue.claim_one().expect("store is reachable").is_none());
}

#[test]
fn released_task_becomes_visible_again() {
    let mut queue = DeliveryQueue::new();
    assert!(queue.enqueue(1, b"alice@example.com".to_vec()));

    let claim = queue
        .claim_one()
        .expect("store is reachable")
        .expect("one task is unclaimed");
    queue.release(claim);

    // The discarded attempt left the task queued and claimable.
    let again = queue.claim_one().expect("store is reachable");
    let again = again.expect("released task is visible again");
    assert_eq!(again.issue_id, 1);
    assert_eq!(again.recipient, b"alice@example.com".to_vec());
}

#[test]
fn draining_mixed_queue_sends_once_and_empties_queue() {
    let mut queue = DeliveryQueue::new();
    let mut issues = IssueStore::new();
    let mut transport = TransportLog::new();
    assert!(issues.store_issue(7, issue_a()));
    assert!(queue.enqueue(7, b"alice@example.com".to_vec()));
    assert!(queue.enqueue(7, b"not-an-email".to_vec()));

    let outcome = drain_queue(&mut queue, &issues, &mut transport);

    assert_eq!(outcome, Ok(ExecutionOutcome::EmptyQueue));
    assert_eq!(queue.len(), 0);
    // Exactly one transport call: the valid recipient; the malformed one
    // was removed without a call.
    assert_eq!(transport.sent_count(), 1);
    assert_eq!(transport.get_send(0).recipient, b"alice@example.com".to_vec());
    assert_eq!(transport.get_send(0).subject, "Issue A");
}

#[test]
fn missing_issue_keeps_task_queued_and_never_calls_transport() {
    let mut queue = DeliveryQueue::new();
    let issues = IssueStore::new();
    let mut transport = TransportLog::new();
    assert!(queue.enqueue(9, b"alice@example.com".to_vec()));

    // The anomaly persists, so every iteration reports the error and the
    // poison task stays queued.
    for _ in 0..3 {
        let outcome = try_execute_task(&mut queue, &issues, &mut transport);
        assert_eq!(outcome, Err(WorkerError::MissingIssueContent));
        assert_eq!(queue.len(), 1);
        assert!(queue.contains(9, &b"alice@example.com".to_vec()));
        assert_eq!(transport.sent_count(), 0);
        assert_eq!(backoff_secs(&outcome), Some(ERROR_BACKOFF_SECS));
    }
}

#[test]
fn draining_an_unreachable_store_fails_without_changes() {
    let mut queue = DeliveryQueue::new();
    let issues = IssueStore::new();
    let mut transport = TransportLog::new();
    assert!(queue.enqueue(3, b"alice@example.com".to_vec()));
    queue.set_reachable(false);

    let outcome = drain_queue(&mut queue, &issues, &mut transport);

    assert_eq!(outcome, Err(WorkerError::StoreUnavailable));
    assert_eq!(queue.len(), 1);
    assert_eq!(transport.sent_count(), 0);
}

#[test]
fn completed_task_continues_without_pause() {
    let pause = backoff_secs(&Ok(ExecutionOutcome::TaskCompleted));
    assert_eq!(pause, None);
}

#[test]
fn error_backoff_is_shorter_than_idle_backoff() {
    assert!(ERROR_BACKOFF_SECS < IDLE_BACKOFF_SECS);
    assert_eq!(IDLE_BACKOFF_SECS, 10);
    assert_eq!(ERROR_BACKOFF_SECS, 1);
    assert_eq!(
        backoff_secs(&Err(WorkerError::MissingIssueContent)),
        Some(ERROR_BACKOFF_SECS)
    );
    assert_eq!(
        backoff_secs(&Err(WorkerError::StoreUnavailable)),
        Some(ERROR_BACKOFF_SECS)
    );
}

#[test]
fn enqueue_enforces_key_uniqueness() {
    let mut queue = DeliveryQueue::new();
    assert!(queue.enqueue(1, b"alice@example.com".to_vec()));
    assert!(!queue.enqueue(1, b"alice@example.com".to_vec()));
    assert_eq!(queue.len(), 1);
    // The same recipient under another issue is a different obligation.
    assert!(queue.enqueue(2, b"alice@example.com".to_vec()));
    assert_eq!(queue.len(), 2);
}
