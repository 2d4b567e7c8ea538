//! The queue store and the claim protocol.
//!
//! `DeliveryQueue` models the durable collection of pending delivery
//! obligations, keyed uniquely by (issue, recipient). A worker takes a task
//! through `claim_one`, an atomic, non-blocking conditional read-and-mark:
//! tasks already held by another in-flight claim are skipped, never waited
//! on. The claim stays held until the worker either resolves the task
//! (deletes it, as `resolve` does) or discards the attempt (as `release`
//! does), whereupon the task becomes visible to the next claimant.
//!
//! The store can be marked unreachable to model infrastructure failure:
//! every failed operation leaves the set of tasks exactly as it was.

use vstd::prelude::*;

verus! {

/// Identity of one delivery obligation: one issue to one recipient.
pub struct TaskKey {
    pub issue_id: u128,
    pub recipient: Seq<u8>,
}

/// One queued task as the model sees it: its key, and whether some
/// in-flight claim currently holds it.
pub struct TaskSnap {
    pub issue_id: u128,
    pub recipient: Seq<u8>,
    pub held: bool,
}

impl TaskSnap {
    pub open spec fn key(self) -> TaskKey {
        TaskKey { issue_id: self.issue_id, recipient: self.recipient }
    }

    pub open spec fn with_held(self, h: bool) -> TaskSnap {
        TaskSnap { held: h, ..self }
    }
}

/// The abstract state of the queue store: the queued tasks, and whether
/// the store can currently be reached.
pub struct QueueModel {
    pub tasks: Seq<TaskSnap>,
    pub reachable: bool,
}

/// No two queued tasks share a key: the store enforces uniqueness of
/// (issue, recipient).
pub open spec fn unique_keys(tasks: Seq<TaskSnap>) -> bool {
    forall|i: int, j: int|
        0 <= i < tasks.len() && 0 <= j < tasks.len() && i != j ==> tasks[i].key() != tasks[j].key()
}

/// Some queued task has key `k`.
pub open spec fn contains_key(tasks: Seq<TaskSnap>, k: TaskKey) -> bool {
    exists|i: int| 0 <= i < tasks.len() && tasks[i].key() == k
}

/// Some queued task has key `k` and is held by an in-flight claim.
pub open spec fn holds_key(tasks: Seq<TaskSnap>, k: TaskKey) -> bool {
    exists|i: int| 0 <= i < tasks.len() && tasks[i].key() == k && tasks[i].held
}

/// Every queued task is held by an in-flight claim; a claim attempt
/// then finds nothing and reports the queue empty.
pub open spec fn all_held(tasks: Seq<TaskSnap>) -> bool {
    forall|i: int| 0 <= i < tasks.len() ==> tasks[i].held
}

/// The task at `i`, previously unheld, is taken by a claim; nothing else
/// changes.
pub open spec fn claim_step_at(pre: Seq<TaskSnap>, post: Seq<TaskSnap>, k: TaskKey, i: int) -> bool {
    &&& 0 <= i < pre.len()
    &&& !pre[i].held
    &&& pre[i].key() == k
    &&& post == pre.update(i, pre[i].with_held(true))
}

/// One previously unheld task with key `k` is taken by a claim.
pub open spec fn claim_step(pre: Seq<TaskSnap>, post: Seq<TaskSnap>, k: TaskKey) -> bool {
    exists|i: int| claim_step_at(pre, post, k, i)
}

/// The held task at `i` reaches a terminal outcome: it is deleted and the
/// claim is gone with it.
pub open spec fn resolve_step_at(pre: Seq<TaskSnap>, post: Seq<TaskSnap>, k: TaskKey, i: int) -> bool {
    &&& 0 <= i < pre.len()
    &&& pre[i].held
    &&& pre[i].key() == k
    &&& post == pre.remove(i)
}

/// One held task with key `k` is resolved: deleted, its claim released.
pub open spec fn resolve_step(pre: Seq<TaskSnap>, post: Seq<TaskSnap>, k: TaskKey) -> bool {
    exists|i: int| resolve_step_at(pre, post, k, i)
}

/// The attempt on the held task at `i` is discarded: the claim is released
/// and the task stays queued, visible to the next claimant.
pub open spec fn release_step_at(pre: Seq<TaskSnap>, post: Seq<TaskSnap>, k: TaskKey, i: int) -> bool {
    &&& 0 <= i < pre.len()
    &&& pre[i].held
    &&& pre[i].key() == k
    &&& post == pre.update(i, pre[i].with_held(false))
}

/// The claim on one held task with key `k` is released without deletion.
pub open spec fn release_step(pre: Seq<TaskSnap>, post: Seq<TaskSnap>, k: TaskKey) -> bool {
    exists|i: int| release_step_at(pre, post, k, i)
}

/// The store could not be reached; the attempted operation changed no
/// queued task.
#[derive(Debug, PartialEq, Eq)]
pub enum StoreError {
    Unavailable,
}

/// Exclusive right to process one task for the duration of one attempt.
pub struct ClaimedTask {
    pub issue_id: u128,
    pub recipient: Vec<u8>,
}

impl ClaimedTask {
    pub open spec fn key(self) -> TaskKey {
        TaskKey { issue_id: self.issue_id, recipient: self.recipient@ }
    }
}

struct TaskEntry {
    issue_id: u128,
    recipient: Vec<u8>,
    held: bool,
}

impl TaskEntry {
    spec fn snap(self) -> TaskSnap {
        TaskSnap { issue_id: self.issue_id, recipient: self.recipient@, held: self.held }
    }
}

/// The durable delivery queue, with its claim state.
pub struct DeliveryQueue {
    entries: Vec<TaskEntry>,
    reachable: bool,
}

impl View for DeliveryQueue {
    type V = QueueModel;

    closed spec fn view(&self) -> QueueModel {
        QueueModel {
            tasks: self.entries@.map_values(|e: TaskEntry| e.snap()),
            reachable: self.reachable,
        }
    }
}

impl DeliveryQueue {
    /// The store's standing invariant: task keys are unique.
    pub open spec fn wf(self) -> bool {
        unique_keys(self@.tasks)
    }

    /// An empty, reachable store.
    pub fn new() -> (q: DeliveryQueue)
        ensures
            q.wf(),
            q@.tasks.len() == 0,
            q@.reachable,
    {
        DeliveryQueue { entries: Vec::new(), reachable: true }
    }

    /// Models the store becoming unreachable (`up == false`) or coming
    /// back; the queued tasks are untouched.
    pub fn set_reachable(&mut self, up: bool)
        ensures
            final(self)@.tasks == old(self)@.tasks,
            final(self)@.reachable == up,
    {
        self.reachable = up;
    }

    /// Number of queued tasks, held or not.
    pub fn len(&self) -> (n: usize)
        ensures
            n == self@.tasks.len(),
    {
        self.entries.len()
    }

    /// Whether a task for (issue, recipient) is queued.
    #[verifier::loop_isolation(false)]
    pub fn contains(&self, issue_id: u128, recipient: &Vec<u8>) -> (b: bool)
        ensures
            b == contains_key(self@.tasks, (TaskKey { issue_id, recipient: recipient@ })),
    {
        let ghost k = TaskKey { issue_id, recipient: recipient@ };
        let n = self.entries.len();
        let mut i: usize = 0;
        while i < n
            invariant
                n == self@.tasks.len(),
                i <= n,
                forall|j: int| 0 <= j < i ==> self@.tasks[j].key() != k,
            decreases n - i,
        {
            proof {
                assert(self@.tasks[i as int] == self.entries@[i as int].snap());
            }
            let same_issue = self.entries[i].issue_id == issue_id;
            let same_recipient = crate::domain::bytes_eq(&self.entries[i].recipient, recipient);
            if same_issue && same_recipient {
                proof {
                    assert(self@.tasks[i as int].key() == k);
                }
                return true;
            }
            proof {
                assert(self@.tasks[i as int].key() != k);
            }
            i += 1;
        }
        proof {
            assert(!contains_key(self@.tasks, k));
        }
        false
    }

    /// Adds the obligation (issue, recipient) if no task with that key is
    /// queued, and reports whether it was added; the store enforces
    /// uniqueness of the pair. Only the external publish action enqueues,
    /// atomically with storing the issue itself.
    pub fn enqueue(&mut self, issue_id: u128, recipient: Vec<u8>) -> (added: bool)
        requires
            old(self).wf(),
        ensures
            final(self).wf(),
            final(self)@.reachable == old(self)@.reachable,
            added == !contains_key(old(self)@.tasks, (TaskKey { issue_id, recipient: recipient@ })),
            added ==> final(self)@.tasks == old(self)@.tasks.push(
                (TaskSnap { issue_id, recipient: recipient@, held: false }),
            ),
            !added ==> final(self)@.tasks == old(self)@.tasks,
    {
        if self.contains(issue_id, &recipient) {
            return false;
        }
        let ghost pre = self@.tasks;
        self.entries.push(TaskEntry { issue_id, recipient, held: false });
        proof {
            assert(self@.tasks =~= pre.push(self@.tasks.last()));
            assert forall|i: int, j: int|
                0 <= i < self@.tasks.len() && 0 <= j < self@.tasks.len() && i != j
                implies self@.tasks[i].key() != self@.tasks[j].key() by {
                if i < pre.len() && j < pre.len() {
                } else if i == pre.len() {
                    assert(self@.tasks[j].key() != self@.tasks[i].key()) by {
                        assert(!contains_key(pre, self@.tasks[i].key()));
                    }
                } else {
                    assert(!contains_key(pre, self@.tasks[j].key()));
                }
            }
        }
        true
    }

    /// The claim protocol: atomically take one arbitrary task not already
    /// held by another in-flight claim, skipping held tasks rather than
    /// waiting on them. Returns `None` when no unheld task exists, and
    /// fails, changing nothing, when the store is unreachable.
    #[verifier::loop_isolation(false)]
    pub fn claim_one(&mut self) -> (r: Result<Option<ClaimedTask>, StoreError>)
        requires
            old(self).wf(),
        ensures
            final(self).wf(),
            final(self)@.reachable == old(self)@.reachable,
            !old(self)@.reachable ==> r == Err::<Option<ClaimedTask>, StoreError>(
                StoreError::Unavailable,
            ) && final(self)@ == old(self)@,
            old(self)@.reachable ==> match r {
                Ok(Some(c)) => claim_step(old(self)@.tasks, final(self)@.tasks, c.key())
                    && holds_key(final(self)@.tasks, c.key()),
                Ok(None) => all_held(old(self)@.tasks) && final(self)@ == old(self)@,
                Err(_) => false,
            },
    {
        if !self.reachable {
            return Err(StoreError::Unavailable);
        }
        let n = self.entries.len();
        let mut i: usize = 0;
        while i < n
            invariant
                self@ == old(self)@,
                n == self.entries@.len(),
                i <= n,
                forall|j: int| 0 <= j < i ==> self@.tasks[j].held,
            decreases n - i,
        {
            if !self.entries[i].held {
                let ghost pre = self@.tasks;
                let issue_id = self.entries[i].issue_id;
                let marked = crate::domain::copy_bytes(&self.entries[i].recipient);
                let returned = crate::domain::copy_bytes(&self.entries[i].recipient);
                self.entries.set(i, TaskEntry { issue_id, recipient: marked, held: true });
                let c = ClaimedTask { issue_id, recipient: returned };
                proof {
                    assert(self@.tasks =~= pre.update(i as int, pre[i as int].with_held(true)));
                    assert(claim_step_at(pre, self@.tasks, c.key(), i as int));
                    assert forall|x: int, y: int|
                        0 <= x < self@.tasks.len() && 0 <= y < self@.tasks.len() && x != y
                        implies self@.tasks[x].key() != self@.tasks[y].key() by {
                        assert(self@.tasks[x].key() == pre[x].key());
                        assert(self@.tasks[y].key() == pre[y].key());
                    }
                    assert(self@.tasks[i as int].key() == c.key() && self@.tasks[i as int].held);
                }
                return Ok(Some(c));
            }
            i += 1;
        }
        Ok(None)
    }

    /// Finds the entry for `k`; with unique keys there is exactly one.
    #[verifier::loop_isolation(false)]
    fn find_index(&self, issue_id: u128, recipient: &Vec<u8>) -> (i: usize)
        requires
            contains_key(self@.tasks, (TaskKey { issue_id, recipient: recipient@ })),
        ensures
            i < self@.tasks.len(),
            self@.tasks[i as int].key() == (TaskKey { issue_id, recipient: recipient@ }),
    {
        let ghost k = TaskKey { issue_id, recipient: recipient@ };
        let n = self.entries.len();
        let mut i: usize = 0;
        while i < n
            invariant
                n == self@.tasks.len(),
                i <= n,
                contains_key(self@.tasks, k),
                forall|j: int| 0 <= j < i ==> self@.tasks[j].key() != k,
            decreases n - i,
        {
            if self.entries[i].issue_id == issue_id
                && crate::domain::bytes_eq(&self.entries[i].recipient, recipient) {
                proof {
                    assert(self@.tasks[i as int].key() == k);
                }
                return i;
            }
            proof {
                assert(self@.tasks[i as int].key() != k);
            }
            i += 1;
        }
        proof {
            assert(false);
        }
        0
    }

    /// Terminal resolution of a claimed task: delete it and release the
    /// claim as one atomic unit. When the store is unreachable the unit is
    /// discarded instead: the task stays queued and only the claim is
    /// released, exactly as `release` would.
    pub fn resolve(&mut self, claim: ClaimedTask) -> (r: Result<(), StoreError>)
        requires
            old(self).wf(),
            holds_key(old(self)@.tasks, claim.key()),
        ensures
            final(self).wf(),
            final(self)@.reachable == old(self)@.reachable,
            !old(self)@.reachable ==> r == Err::<(), StoreError>(StoreError::Unavailable)
                && release_step(old(self)@.tasks, final(self)@.tasks, claim.key()),
            old(self)@.reachable ==> r == Ok::<(), StoreError>(())
                && resolve_step(old(self)@.tasks, final(self)@.tasks, claim.key())
                && !contains_key(final(self)@.tasks, claim.key()),
    {
        if !self.reachable {
            self.release(claim);
            return Err(StoreError::Unavailable);
        }
        let ghost pre = self@.tasks;
        let ghost k = claim.key();
        let i = self.find_index(claim.issue_id, &claim.recipient);
        proof {
            let h = choose|j: int|
                0 <= j < pre.len() && pre[j].key() == k && pre[j].held;
            assert(pre[i as int].key() == pre[h].key());
            assert(i == h);
        }
        self.entries.remove(i);
        proof {
            assert(self@.tasks =~= pre.remove(i as int));
            assert(resolve_step_at(pre, self@.tasks, k, i as int));
            lemma_resolve_keeps_unique(pre, self@.tasks, k, i as int);
            assert forall|j: int| 0 <= j < self@.tasks.len()
                implies self@.tasks[j].key() != k by {
                if j < i {
                    assert(self@.tasks[j] == pre[j]);
                    assert(pre[j].key() != pre[i as int].key());
                } else {
                    assert(self@.tasks[j] == pre[j + 1]);
                    assert(pre[j + 1].key() != pre[i as int].key());
                }
            }
        }
        Ok(())
    }

    /// Discards the attempt on a claimed task: the claim is released, the
    /// task stays queued and becomes visible to the next claimant. Never
    /// needs the store: a discarded unit of work changes nothing durable.
    pub fn release(&mut self, claim: ClaimedTask)
        requires
            old(self).wf(),
            holds_key(old(self)@.tasks, claim.key()),
        ensures
            final(self).wf(),
            final(self)@.reachable == old(self)@.reachable,
            release_step(old(self)@.tasks, final(self)@.tasks, claim.key()),
    {
        let ghost pre = self@.tasks;
        let ghost k = claim.key();
        let i = self.find_index(claim.issue_id, &claim.recipient);
        proof {
            let h = choose|j: int|
                0 <= j < pre.len() && pre[j].key() == k && pre[j].held;
            assert(pre[i as int].key() == pre[h].key());
            assert(i == h);
        }
        let issue_id = self.entries[i].issue_id;
        let recipient = crate::domain::copy_bytes(&self.entries[i].recipient);
        self.entries.set(i, TaskEntry { issue_id, recipient, held: false });
        proof {
            assert(self@.tasks =~= pre.update(i as int, pre[i as int].with_held(false)));
            assert(release_step_at(pre, self@.tasks, k, i as int));
            assert forall|x: int, y: int|
                0 <= x < self@.tasks.len() && 0 <= y < self@.tasks.len() && x != y
                implies self@.tasks[x].key() != self@.tasks[y].key() by {
                assert(self@.tasks[x].key() == pre[x].key());
                assert(self@.tasks[y].key() == pre[y].key());
            }
        }
    }
}

/// Removing one task keeps the remaining keys unique.
proof fn lemma_resolve_keeps_unique(pre: Seq<TaskSnap>, post: Seq<TaskSnap>, k: TaskKey, i: int)
    requires
        unique_keys(pre),
        0 <= i < pre.len(),
        post == pre.remove(i),
    ensures
        unique_keys(post),
{
    assert forall|x: int, y: int|
        0 <= x < post.len() && 0 <= y < post.len() && x != y
        implies post[x].key() != post[y].key() by {
        let px = if x < i { x } else { x + 1 };
        let py = if y < i { y } else { y + 1 };
        assert(post[x] == pre[px]);
        assert(post[y] == pre[py]);
    }
}


/// Events the store accepts, from any number of workers sharing it.
pub enum StoreEvent {
    /// A worker claimed the unheld task with this key.
    Claim(TaskKey),
    /// A worker resolved the held task with this key: it was deleted.
    Resolve(TaskKey),
    /// A worker discarded its attempt: the claim on this key was released
    /// and the task stayed queued.
    Release(TaskKey),
}

/// One store transition, by whichever worker performed it.
pub open spec fn step(pre: Seq<TaskSnap>, post: Seq<TaskSnap>, e: StoreEvent) -> bool {
    match e {
        StoreEvent::Claim(k) => claim_step(pre, post, k),
        StoreEvent::Resolve(k) => resolve_step(pre, post, k),
        StoreEvent::Release(k) => release_step(pre, post, k),
    }
}

/// An interleaved run of any number of workers against one store:
/// `states` are the store's successive contents, and each event takes
/// one state to the next.
pub open spec fn run_ok(states: Seq<Seq<TaskSnap>>, events: Seq<StoreEvent>) -> bool {
    &&& states.len() == events.len() + 1
    &&& forall|j: int| 0 <= j < events.len() ==> step(states[j], states[j + 1], events[j])
}

/// The keys resolved over a run, in order of resolution.
pub open spec fn resolved_keys(events: Seq<StoreEvent>) -> Seq<TaskKey>
    decreases events.len(),
{
    if events.len() == 0 {
        Seq::empty()
    } else {
        let rest = resolved_keys(events.drop_last());
        match events.last() {
            StoreEvent::Resolve(k) => rest.push(k),
            _ => rest,
        }
    }
}

/// The keys of the queued tasks, in queue order.
pub open spec fn keys_of(tasks: Seq<TaskSnap>) -> Seq<TaskKey> {
    tasks.map_values(|t: TaskSnap| t.key())
}

/// The claim protocol is the sole mutual-exclusion mechanism between
/// workers: while one claim is in flight, a second claim never takes the
/// same task, so no two workers ever process one task concurrently.
pub proof fn lemma_claims_are_exclusive(
    pre: Seq<TaskSnap>,
    mid: Seq<TaskSnap>,
    post: Seq<TaskSnap>,
    k1: TaskKey,
    k2: TaskKey,
)
    requires
        unique_keys(pre),
        claim_step(pre, mid, k1),
        claim_step(mid, post, k2),
    ensures
        k1 != k2,
{
    let i1 = choose|i: int| claim_step_at(pre, mid, k1, i);
    let i2 = choose|i: int| claim_step_at(mid, post, k2, i);
    assert(claim_step_at(pre, mid, k1, i1));
    assert(claim_step_at(mid, post, k2, i2));
    if k1 == k2 {
        assert(mid[i1].held);
        assert(!mid[i2].held);
        assert(i1 != i2);
        assert(mid[i1].key() == pre[i1].key());
        assert(mid[i2].key() == pre[i2].key());
        assert(pre[i1].key() != pre[i2].key());
        assert(false);
    }
}

/// A resolved task never comes back: resolution deletes the only task
/// with its key, so a claim taken right after returns some other task.
pub proof fn lemma_no_resurrection(
    pre: Seq<TaskSnap>,
    mid: Seq<TaskSnap>,
    post: Seq<TaskSnap>,
    k1: TaskKey,
    k2: TaskKey,
)
    requires
        unique_keys(pre),
        resolve_step(pre, mid, k1),
        claim_step(mid, post, k2),
    ensures
        k2 != k1,
{
    let i1 = choose|i: int| resolve_step_at(pre, mid, k1, i);
    let i2 = choose|i: int| claim_step_at(mid, post, k2, i);
    assert(resolve_step_at(pre, mid, k1, i1));
    assert(claim_step_at(mid, post, k2, i2));
    if k1 == k2 {
        let back = if i2 < i1 { i2 } else { i2 + 1 };
        assert(mid[i2] == pre[back]);
        assert(back != i1);
        assert(pre[back].key() != pre[i1].key());
        assert(false);
    }
}

/// One step keeps keys unique, and changes the queued keys only by the
/// one resolution it may contain.
proof fn lemma_step_accounting(pre: Seq<TaskSnap>, post: Seq<TaskSnap>, e: StoreEvent)
    requires
        unique_keys(pre),
        step(pre, post, e),
    ensures
        unique_keys(post),
        match e {
            StoreEvent::Resolve(k) => keys_of(pre).to_multiset().count(k) > 0 && keys_of(
                post,
            ).to_multiset() == keys_of(pre).to_multiset().remove(k),
            _ => keys_of(post) == keys_of(pre),
        },
{
    broadcast use vstd::seq_lib::group_to_multiset_ensures;

    match e {
        StoreEvent::Claim(k) => {
            let i = choose|i: int| claim_step_at(pre, post, k, i);
            assert(claim_step_at(pre, post, k, i));
            assert forall|x: int, y: int|
                0 <= x < post.len() && 0 <= y < post.len() && x != y
                implies post[x].key() != post[y].key() by {
                assert(post[x].key() == pre[x].key());
                assert(post[y].key() == pre[y].key());
            }
            assert(keys_of(post) =~= keys_of(pre));
        },
        StoreEvent::Release(k) => {
            let i = choose|i: int| release_step_at(pre, post, k, i);
            assert(release_step_at(pre, post, k, i));
            assert forall|x: int, y: int|
                0 <= x < post.len() && 0 <= y < post.len() && x != y
                implies post[x].key() != post[y].key() by {
                assert(post[x].key() == pre[x].key());
                assert(post[y].key() == pre[y].key());
            }
            assert(keys_of(post) =~= keys_of(pre));
        },
        StoreEvent::Resolve(k) => {
            let i = choose|i: int| resolve_step_at(pre, post, k, i);
            assert(resolve_step_at(pre, post, k, i));
            lemma_resolve_keeps_unique(pre, post, k, i);
            assert(keys_of(post) =~= keys_of(pre).remove(i));
            assert(keys_of(pre)[i] == k);
            assert(keys_of(pre).contains(k));
            assert(keys_of(pre).remove(i).to_multiset() =~= keys_of(pre).to_multiset().remove(
                k,
            ));
        },
    }
}

/// Task conservation over any interleaving of workers: the tasks still
/// queued and the tasks resolved so far account exactly for the tasks
/// the run began with — none is lost, none is duplicated.
pub proof fn lemma_run_accounting(states: Seq<Seq<TaskSnap>>, events: Seq<StoreEvent>)
    requires
        run_ok(states, events),
        unique_keys(states[0]),
    ensures
        unique_keys(states.last()),
        keys_of(states.last()).to_multiset().add(resolved_keys(events).to_multiset()) == keys_of(
            states[0],
        ).to_multiset(),
    decreases events.len(),
{
    broadcast use vstd::seq_lib::group_to_multiset_ensures;

    if events.len() == 0 {
        assert(states.last() == states[0]);
        assert(resolved_keys(events) =~= Seq::<TaskKey>::empty());
        assert(keys_of(states.last()).to_multiset().add(resolved_keys(events).to_multiset())
            =~= keys_of(states[0]).to_multiset()) by {
            assert(resolved_keys(events).to_multiset().len() == 0);
        }
    } else {
        let sub_states = states.drop_last();
        let sub_events = events.drop_last();
        assert forall|j: int| 0 <= j < sub_events.len()
            implies step(sub_states[j], sub_states[j + 1], sub_events[j]) by {
            assert(step(states[j], states[j + 1], events[j]));
        }
        assert(run_ok(sub_states, sub_events));
        assert(sub_states[0] == states[0]);
        lemma_run_accounting(sub_states, sub_events);
        let pre = sub_states.last();
        let post = states.last();
        let n = events.len() - 1;
        assert(pre == states[n]);
        assert(step(states[n], states[n + 1], events[n]));
        lemma_step_accounting(pre, post, events[n]);
        match events[n] {
            StoreEvent::Resolve(k) => {
                assert(events.last() == events[n]);
                assert(resolved_keys(events) == resolved_keys(sub_events).push(k));
                assert(resolved_keys(events).to_multiset() =~= resolved_keys(
                    sub_events,
                ).to_multiset().insert(k));
                assert(keys_of(post).to_multiset().add(resolved_keys(events).to_multiset())
                    =~= keys_of(states[0]).to_multiset()) by {
                    assert(keys_of(pre).to_multiset().count(k) > 0);
                }
            },
            _ => {
                assert(resolved_keys(events) == resolved_keys(sub_events));
            },
        }
    }
}

/// However many workers interleave, a run that drains the queue resolves
/// every initial task exactly once: the resolutions number exactly the
/// initial tasks, and no task is resolved twice.
pub proof fn lemma_drained_run_resolves_all_once(
    states: Seq<Seq<TaskSnap>>,
    events: Seq<StoreEvent>,
)
    requires
        run_ok(states, events),
        unique_keys(states[0]),
        states.last().len() == 0,
    ensures
        resolved_keys(events).to_multiset() == keys_of(states[0]).to_multiset(),
        resolved_keys(events).len() == states[0].len(),
        forall|k: TaskKey| resolved_keys(events).to_multiset().count(k) <= 1,
{
    broadcast use vstd::seq_lib::group_to_multiset_ensures;

    lemma_run_accounting(states, events);
    assert(keys_of(states.last()).to_multiset().len() == 0);
    assert(resolved_keys(events).to_multiset() =~= keys_of(states[0]).to_multiset());
    assert(resolved_keys(events).to_multiset().len() == resolved_keys(events).len());
    assert(keys_of(states[0]).to_multiset().len() == keys_of(states[0]).len());
    assert(keys_of(states[0]).no_duplicates());
    keys_of(states[0]).lemma_multiset_has_no_duplicates();
    assert forall|k: TaskKey| resolved_keys(events).to_multiset().count(k) <= 1 by {
        if keys_of(states[0]).to_multiset().count(k) > 0 {
            assert(keys_of(states[0]).to_multiset().contains(k));
        }
    }
}

} // verus!
