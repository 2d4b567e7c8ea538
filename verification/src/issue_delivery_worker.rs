//! The delivery executor and the worker loop's policy.
//!
//! One iteration claims at most one task, executes it, and resolves it as
//! part of the same atomic unit that produced the claim: an invalid
//! recipient is skipped permanently without a transport call; a valid one
//! gets exactly one transport call with the issue's content, and the task
//! is resolved whether that call succeeds or fails; a task whose issue is
//! missing is left queued and reported as an error. Store failure aborts
//! the attempt with nothing changed.

use crate::domain::{copy_bytes, is_valid, is_valid_email, SubscriberEmail};
use crate::issue_store::{stored_issue, IssueSnap, IssueStore};
use crate::queue::{
    all_held, claim_step, claim_step_at, release_step, resolve_step, unique_keys, DeliveryQueue,
    TaskSnap,
};
use crate::transport::{SendSnap, TransportLog, TransportModel};
use vstd::prelude::*;

verus! {

/// Seconds the worker loop sleeps after finding the queue empty.
pub const IDLE_BACKOFF_SECS: u64 = 10;

/// Seconds the worker loop sleeps after an infrastructure error; shorter
/// than the idle pause so transient failures are retried promptly.
pub const ERROR_BACKOFF_SECS: u64 = 1;

/// What one successful worker iteration did.
#[derive(Debug, PartialEq, Eq, Clone, Copy)]
pub enum ExecutionOutcome {
    /// A task was claimed and resolved, by delivery or by permanent skip.
    TaskCompleted,
    /// No unclaimed task was found.
    EmptyQueue,
}

/// Why one worker iteration failed; the task involved, if any, stays
/// queued.
#[derive(Debug, PartialEq, Eq, Clone, Copy)]
pub enum WorkerError {
    /// The queue store could not be reached; nothing changed.
    StoreUnavailable,
    /// A claimed task references an issue with no stored content — an
    /// anomaly, since tasks are enqueued atomically with their issue.
    MissingIssueContent,
}

/// The delivery executor's effect on the task claimed at `i`: an invalid
/// recipient or a completed transport call removes the task — the latter
/// after exactly one recorded send of the issue's content — while a
/// missing issue leaves queue and transport exactly as they were.
pub open spec fn executed_task_at(
    pre_q: Seq<TaskSnap>,
    post_q: Seq<TaskSnap>,
    issues: Seq<(u128, IssueSnap)>,
    pre_t: TransportModel,
    post_t: TransportModel,
    r: Result<ExecutionOutcome, WorkerError>,
    i: int,
) -> bool {
    &&& 0 <= i < pre_q.len()
    &&& !pre_q[i].held
    &&& if !is_valid_email(pre_q[i].recipient) {
        &&& r == Ok::<ExecutionOutcome, WorkerError>(ExecutionOutcome::TaskCompleted)
        &&& post_q == pre_q.remove(i)
        &&& post_t == pre_t
    } else {
        match stored_issue(issues, pre_q[i].issue_id) {
            Some(content) => {
                &&& r == Ok::<ExecutionOutcome, WorkerError>(ExecutionOutcome::TaskCompleted)
                &&& post_q == pre_q.remove(i)
                &&& post_t.deliver_ok == pre_t.deliver_ok
                &&& post_t.sends == pre_t.sends.push(
                    (SendSnap {
                        recipient: pre_q[i].recipient,
                        subject: content.title,
                        html_content: content.html_content,
                        text_content: content.text_content,
                    }),
                )
            },
            None => {
                &&& r == Err::<ExecutionOutcome, WorkerError>(WorkerError::MissingIssueContent)
                &&& post_q == pre_q
                &&& post_t == pre_t
            },
        }
    }
}

/// The executor's effects are exactly the claim protocol's steps: a
/// completed execution is one claim followed by one resolution of the
/// same task, and a missing-issue execution is one claim followed by one
/// release — so runs of worker iterations are runs of store events, and
/// the accounting over such runs applies to them.
pub proof fn lemma_execution_follows_protocol(
    pre_q: Seq<TaskSnap>,
    post_q: Seq<TaskSnap>,
    issues: Seq<(u128, IssueSnap)>,
    pre_t: TransportModel,
    post_t: TransportModel,
    r: Result<ExecutionOutcome, WorkerError>,
    i: int,
)
    requires
        unique_keys(pre_q),
        executed_task_at(pre_q, post_q, issues, pre_t, post_t, r, i),
    ensures
        r == Ok::<ExecutionOutcome, WorkerError>(ExecutionOutcome::TaskCompleted)
            ==> exists|mid: Seq<TaskSnap>|
            #[trigger] claim_step(pre_q, mid, pre_q[i].key()) && resolve_step(
                mid,
                post_q,
                pre_q[i].key(),
            ),
        r == Err::<ExecutionOutcome, WorkerError>(WorkerError::MissingIssueContent)
            ==> exists|mid: Seq<TaskSnap>|
            #[trigger] claim_step(pre_q, mid, pre_q[i].key()) && release_step(
                mid,
                post_q,
                pre_q[i].key(),
            ),
{
    let k = pre_q[i].key();
    let mid = pre_q.update(i, pre_q[i].with_held(true));
    assert(claim_step_at(pre_q, mid, k, i));
    assert(claim_step(pre_q, mid, k));
    if r == Ok::<ExecutionOutcome, WorkerError>(ExecutionOutcome::TaskCompleted) {
        assert(post_q == pre_q.remove(i));
        assert(post_q =~= mid.remove(i));
        assert(crate::queue::resolve_step_at(mid, post_q, k, i));
        assert(resolve_step(mid, post_q, k));
        assert(claim_step(pre_q, mid, k) && resolve_step(mid, post_q, k));
    }
    if r == Err::<ExecutionOutcome, WorkerError>(WorkerError::MissingIssueContent) {
        assert(post_q == pre_q);
        assert(post_q =~= mid.update(i, mid[i].with_held(false)));
        assert(crate::queue::release_step_at(mid, post_q, k, i));
        assert(release_step(mid, post_q, k));
        assert(claim_step(pre_q, mid, k) && release_step(mid, post_q, k));
    }
}

/// One worker iteration: claim at most one unheld task, execute it, and
/// resolve or release it within the same atomic unit.
pub fn try_execute_task(
    queue: &mut DeliveryQueue,
    issues: &IssueStore,
    transport: &mut TransportLog,
) -> (r: Result<ExecutionOutcome, WorkerError>)
    requires
        old(queue).wf(),
        issues.wf(),
    ensures
        final(queue).wf(),
        final(queue)@.reachable == old(queue)@.reachable,
        final(transport)@.deliver_ok == old(transport)@.deliver_ok,
        !old(queue)@.reachable ==> r == Err::<ExecutionOutcome, WorkerError>(
            WorkerError::StoreUnavailable,
        ) && final(queue)@ == old(queue)@ && final(transport)@ == old(transport)@,
        old(queue)@.reachable && all_held(old(queue)@.tasks) ==> r == Ok::<
            ExecutionOutcome,
            WorkerError,
        >(ExecutionOutcome::EmptyQueue) && final(queue)@ == old(queue)@ && final(transport)@
            == old(transport)@,
        old(queue)@.reachable && !all_held(old(queue)@.tasks) ==> exists|i: int|
            executed_task_at(
                old(queue)@.tasks,
                final(queue)@.tasks,
                issues@,
                old(transport)@,
                final(transport)@,
                r,
                i,
            ),
{
    let ghost pre_q = queue@.tasks;
    let ghost pre_t = transport@;
    let claimed = queue.claim_one();
    match claimed {
        Err(_) => Err(WorkerError::StoreUnavailable),
        Ok(None) => Ok(ExecutionOutcome::EmptyQueue),
        Ok(Some(claim)) => {
            let ghost k = claim.key();
            let ghost i = choose|i: int| claim_step_at(pre_q, queue@.tasks, k, i);
            proof {
                assert(claim_step_at(pre_q, queue@.tasks, k, i));
                assert(!all_held(pre_q));
            }
            let valid = is_valid(&claim.recipient);
            proof {
                assert(pre_q[i].key() == k);
                assert(pre_q[i].recipient == claim.recipient@);
                assert(pre_q[i].issue_id == claim.issue_id);
            }
            if !valid {
                // Invalid stored contact details: resolve the task as a
                // permanent skip; such an address is never retried.
                let ghost mid_q = queue@.tasks;
                let res = queue.resolve(claim);
                match res {
                    Ok(()) => {
                        proof {
                            lemma_resolution_lands(pre_q, mid_q, queue@.tasks, k, i);
                            assert(executed_task_at(
                                pre_q,
                                queue@.tasks,
                                issues@,
                                pre_t,
                                transport@,
                                Ok::<ExecutionOutcome, WorkerError>(
                                    ExecutionOutcome::TaskCompleted,
                                ),
                                i,
                            ));
                        }
                        Ok(ExecutionOutcome::TaskCompleted)
                    },
                    Err(_) => {
                        proof {
                            assert(false);
                        }
                        Err(WorkerError::StoreUnavailable)
                    },
                }
            } else {
                match issues.lookup(claim.issue_id) {
                    None => {
                        // No stored content for the referenced issue:
                        // discard the unit of work so the task stays
                        // queued, and report the failed attempt.
                        let ghost mid_q = queue@.tasks;
                        queue.release(claim);
                        proof {
                            lemma_release_restores(pre_q, mid_q, queue@.tasks, k, i);
                            assert(executed_task_at(
                                pre_q,
                                queue@.tasks,
                                issues@,
                                pre_t,
                                transport@,
                                Err::<ExecutionOutcome, WorkerError>(
                                    WorkerError::MissingIssueContent,
                                ),
                                i,
                            ));
                        }
                        Err(WorkerError::MissingIssueContent)
                    },
                    Some(issue) => {
                        let email = match SubscriberEmail::parse(copy_bytes(&claim.recipient)) {
                            Ok(email) => email,
                            Err(_) => {
                                proof {
                                    assert(false);
                                }
                                return Err(WorkerError::StoreUnavailable);
                            },
                        };
                        // Exactly one transport call per resolved task; a
                        // failure unrelated to the address is logged by
                        // the caller and not retried, so the task is
                        // resolved either way.
                        let _delivered = transport.send(
                            &email,
                            &issue.title,
                            &issue.html_content,
                            &issue.text_content,
                        );
                        let ghost mid_q = queue@.tasks;
                        let res = queue.resolve(claim);
                        match res {
                            Ok(()) => {
                                proof {
                                    lemma_resolution_lands(pre_q, mid_q, queue@.tasks, k, i);
                                    assert(executed_task_at(
                                        pre_q,
                                        queue@.tasks,
                                        issues@,
                                        pre_t,
                                        transport@,
                                        Ok::<ExecutionOutcome, WorkerError>(
                                            ExecutionOutcome::TaskCompleted,
                                        ),
                                        i,
                                    ));
                                }
                                Ok(ExecutionOutcome::TaskCompleted)
                            },
                            Err(_) => {
                                proof {
                                    assert(false);
                                }
                                Err(WorkerError::StoreUnavailable)
                            },
                        }
                    },
                }
            }
        },
    }
}

/// After a claim at `i` and a resolution of the same key, the net effect
/// on the queue is the removal of the task at `i`.
proof fn lemma_resolution_lands(
    pre: Seq<TaskSnap>,
    mid: Seq<TaskSnap>,
    post: Seq<TaskSnap>,
    k: crate::queue::TaskKey,
    i: int,
)
    requires
        unique_keys(pre),
        claim_step_at(pre, mid, k, i),
        crate::queue::resolve_step(mid, post, k),
    ensures
        post == pre.remove(i),
{
    let j = choose|j: int| crate::queue::resolve_step_at(mid, post, k, j);
    assert(crate::queue::resolve_step_at(mid, post, k, j));
    assert forall|x: int| 0 <= x < mid.len() implies mid[x].key() == pre[x].key() by {}
    if i != j {
        assert(pre[i].key() != pre[j].key());
        assert(false);
    }
    assert(post =~= pre.remove(i));
}

/// After a claim at `i` and a release of the same key, the queue is
/// exactly as it was before the claim.
proof fn lemma_release_restores(
    pre: Seq<TaskSnap>,
    mid: Seq<TaskSnap>,
    post: Seq<TaskSnap>,
    k: crate::queue::TaskKey,
    i: int,
)
    requires
        unique_keys(pre),
        claim_step_at(pre, mid, k, i),
        crate::queue::release_step(mid, post, k),
    ensures
        post == pre,
{
    let j = choose|j: int| crate::queue::release_step_at(mid, post, k, j);
    assert(crate::queue::release_step_at(mid, post, k, j));
    assert forall|x: int| 0 <= x < mid.len() implies mid[x].key() == pre[x].key() by {}
    if i != j {
        assert(pre[i].key() != pre[j].key());
        assert(false);
    }
    assert(post =~= pre);
}

/// The worker loop's pause policy: after a completed task the next
/// iteration follows immediately; an empty queue is polled again after
/// the idle pause; any error is retried after the shorter error pause.
pub fn backoff_secs(outcome: &Result<ExecutionOutcome, WorkerError>) -> (pause: Option<u64>)
    ensures
        match *outcome {
            Ok(ExecutionOutcome::TaskCompleted) => pause is None,
            Ok(ExecutionOutcome::EmptyQueue) => pause == Some(IDLE_BACKOFF_SECS),
            Err(_) => pause == Some(ERROR_BACKOFF_SECS),
        },
{
    match outcome {
        Ok(ExecutionOutcome::TaskCompleted) => None,
        Ok(ExecutionOutcome::EmptyQueue) => Some(IDLE_BACKOFF_SECS),
        Err(_) => Some(ERROR_BACKOFF_SECS),
    }
}

/// Runs claim-and-resolve iterations back to back, as the worker loop
/// does after completed tasks, until the queue has no unheld task, the
/// store fails, or a missing issue is found. Never answers that a task
/// was completed: completion only speeds up the next iteration. A
/// missing-issue failure is only allowed while a claimable poison task —
/// valid recipient, no stored issue — still sits in the queue, so a
/// reachable store and a healthy queue always drain to empty.
pub fn drain_queue(
    queue: &mut DeliveryQueue,
    issues: &IssueStore,
    transport: &mut TransportLog,
) -> (r: Result<ExecutionOutcome, WorkerError>)
    requires
        old(queue).wf(),
        issues.wf(),
    ensures
        final(queue).wf(),
        final(queue)@.reachable == old(queue)@.reachable,
        final(transport)@.deliver_ok == old(transport)@.deliver_ok,
        old(transport)@.sends.is_prefix_of(final(transport)@.sends),
        r != Ok::<ExecutionOutcome, WorkerError>(ExecutionOutcome::TaskCompleted),
        r == Ok::<ExecutionOutcome, WorkerError>(ExecutionOutcome::EmptyQueue) ==> all_held(
            final(queue)@.tasks,
        ),
        r == Err::<ExecutionOutcome, WorkerError>(WorkerError::StoreUnavailable) ==> !old(
            queue,
        )@.reachable,
        r == Err::<ExecutionOutcome, WorkerError>(WorkerError::MissingIssueContent)
            ==> exists|i: int|
            0 <= i < final(queue)@.tasks.len() && is_valid_email(
                #[trigger] final(queue)@.tasks[i].recipient,
            ) && stored_issue(issues@, final(queue)@.tasks[i].issue_id) is None,
{
    loop
        invariant
            queue.wf(),
            issues.wf(),
            queue@.reachable == old(queue)@.reachable,
            transport@.deliver_ok == old(transport)@.deliver_ok,
            old(transport)@.sends.is_prefix_of(transport@.sends),
        decreases queue@.tasks.len(),
    {
        let ghost loop_q = queue@.tasks;
        let ghost loop_t = transport@;
        let step = try_execute_task(queue, issues, transport);
        proof {
            lemma_iteration_extends_sends(
                loop_q,
                queue@.tasks,
                issues@,
                loop_t,
                transport@,
                step,
                queue@.reachable,
            );
            lemma_prefix_trans(old(transport)@.sends, loop_t.sends, transport@.sends);
        }
        match step {
            Ok(ExecutionOutcome::TaskCompleted) => {
                proof {
                    let i = choose|i: int|
                        executed_task_at(
                            loop_q,
                            queue@.tasks,
                            issues@,
                            loop_t,
                            transport@,
                            step,
                            i,
                        );
                    assert(executed_task_at(
                        loop_q,
                        queue@.tasks,
                        issues@,
                        loop_t,
                        transport@,
                        step,
                        i,
                    ));
                    assert(queue@.tasks.len() < loop_q.len());
                }
            },
            _ => {
                proof {
                    if step == Err::<ExecutionOutcome, WorkerError>(
                        WorkerError::MissingIssueContent,
                    ) {
                        assert(queue@.reachable && !all_held(loop_q));
                        let i = choose|i: int|
                            executed_task_at(
                                loop_q,
                                queue@.tasks,
                                issues@,
                                loop_t,
                                transport@,
                                step,
                                i,
                            );
                        assert(executed_task_at(
                            loop_q,
                            queue@.tasks,
                            issues@,
                            loop_t,
                            transport@,
                            step,
                            i,
                        ));
                        assert(queue@.tasks == loop_q);
                        assert(is_valid_email(queue@.tasks[i].recipient));
                        assert(stored_issue(issues@, queue@.tasks[i].issue_id) is None);
                    }
                }
                return step;
            },
        }
    }
}

/// Whatever one iteration did, the sends recorded before it are a prefix
/// of the sends recorded after it.
proof fn lemma_iteration_extends_sends(
    pre_q: Seq<TaskSnap>,
    post_q: Seq<TaskSnap>,
    issues: Seq<(u128, IssueSnap)>,
    pre_t: TransportModel,
    post_t: TransportModel,
    r: Result<ExecutionOutcome, WorkerError>,
    reachable: bool,
)
    requires
        reachable && !all_held(pre_q) ==> exists|i: int|
            executed_task_at(pre_q, post_q, issues, pre_t, post_t, r, i),
        !(reachable && !all_held(pre_q)) ==> post_t == pre_t,
    ensures
        pre_t.sends.is_prefix_of(post_t.sends),
{
    if reachable && !all_held(pre_q) {
        let i = choose|i: int| executed_task_at(pre_q, post_q, issues, pre_t, post_t, r, i);
        assert(executed_task_at(pre_q, post_q, issues, pre_t, post_t, r, i));
    }
    assert(post_t.sends.subrange(0, pre_t.sends.len() as int) =~= pre_t.sends);
}

/// Prefixes compose.
proof fn lemma_prefix_trans(a: Seq<SendSnap>, b: Seq<SendSnap>, c: Seq<SendSnap>)
    requires
        a.is_prefix_of(b),
        b.is_prefix_of(c),
    ensures
        a.is_prefix_of(c),
{
    assert(c.subrange(0, a.len() as int) =~= a) by {
        assert(forall|x: int|
            0 <= x < a.len() ==> c[x] == #[trigger] b.subrange(0, b.len() as int)[x]);
    }
}

} // verus!
