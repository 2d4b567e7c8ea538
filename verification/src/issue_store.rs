//! The issue store: durable, immutable records of newsletter content.
//!
//! An issue is created once by the external publish action — atomically
//! with the queueing of one delivery task per confirmed subscriber — and
//! is never updated or deleted by the worker. A task whose issue is
//! missing here is an anomaly the delivery executor reports as an error
//! rather than resolving the task.

use vstd::prelude::*;

verus! {

/// Immutable content of one newsletter issue.
pub struct NewsletterIssue {
    pub title: String,
    pub text_content: String,
    pub html_content: String,
}

/// The content of one issue as the model sees it.
pub struct IssueSnap {
    pub title: Seq<char>,
    pub text_content: Seq<char>,
    pub html_content: Seq<char>,
}

impl View for NewsletterIssue {
    type V = IssueSnap;

    open spec fn view(&self) -> IssueSnap {
        IssueSnap {
            title: self.title@,
            text_content: self.text_content@,
            html_content: self.html_content@,
        }
    }
}

struct IssueRow {
    issue_id: u128,
    issue: NewsletterIssue,
}

impl IssueRow {
    spec fn snap(self) -> (u128, IssueSnap) {
        (self.issue_id, self.issue@)
    }
}

/// The durable collection of issues, keyed by issue id.
pub struct IssueStore {
    rows: Vec<IssueRow>,
}

/// Some stored issue has id `id`.
pub open spec fn store_contains(rows: Seq<(u128, IssueSnap)>, id: u128) -> bool {
    exists|i: int| 0 <= i < rows.len() && rows[i].0 == id
}

/// The content stored under `id`, if any.
pub open spec fn stored_issue(rows: Seq<(u128, IssueSnap)>, id: u128) -> Option<IssueSnap> {
    if store_contains(rows, id) {
        let i = choose|i: int| 0 <= i < rows.len() && rows[i].0 == id;
        Some(rows[i].1)
    } else {
        None
    }
}

impl View for IssueStore {
    type V = Seq<(u128, IssueSnap)>;

    closed spec fn view(&self) -> Seq<(u128, IssueSnap)> {
        self.rows@.map_values(|r: IssueRow| r.snap())
    }
}

impl IssueStore {
    /// The store's standing invariant: issue ids are unique.
    pub open spec fn wf(self) -> bool {
        forall|i: int, j: int|
            0 <= i < self@.len() && 0 <= j < self@.len() && i != j ==> self@[i].0 != self@[j].0
    }

    /// An empty store.
    pub fn new() -> (s: IssueStore)
        ensures
            s.wf(),
            s@.len() == 0,
    {
        IssueStore { rows: Vec::new() }
    }

    /// Stores content under a fresh id and reports whether it was fresh;
    /// an id already present keeps its original, immutable record. Only
    /// the external publish action stores issues.
    pub fn store_issue(&mut self, issue_id: u128, issue: NewsletterIssue) -> (added: bool)
        requires
            old(self).wf(),
        ensures
            final(self).wf(),
            added == !store_contains(old(self)@, issue_id),
            added ==> final(self)@ == old(self)@.push((issue_id, issue@)),
            !added ==> final(self)@ == old(self)@,
            stored_issue(final(self)@, issue_id) is Some,
    {
        let ghost pre = self@;
        if self.lookup(issue_id).is_some() {
            return false;
        }
        self.rows.push(IssueRow { issue_id, issue });
        proof {
            assert(self@ =~= pre.push(self@.last()));
            assert forall|i: int, j: int|
                0 <= i < self@.len() && 0 <= j < self@.len() && i != j
                implies self@[i].0 != self@[j].0 by {
                if i == pre.len() || j == pre.len() {
                    assert(!store_contains(pre, issue_id));
                }
            }
            assert(stored_issue(self@, issue_id) is Some) by {
                assert(self@[pre.len() as int].0 == issue_id);
            }
        }
        true
    }

    /// Looks an issue up by id: the recorded content, or `None` when no
    /// record exists. The store is immutable, so equal ids always yield
    /// equal content.
    #[verifier::loop_isolation(false)]
    pub fn lookup(&self, issue_id: u128) -> (r: Option<&NewsletterIssue>)
        requires
            self.wf(),
        ensures
            match r {
                Some(issue) => stored_issue(self@, issue_id) == Some(issue@),
                None => stored_issue(self@, issue_id) is None,
            },
    {
        let n = self.rows.len();
        let mut i: usize = 0;
        while i < n
            invariant
                i <= n,
                forall|j: int| 0 <= j < i ==> self@[j].0 != issue_id,
            decreases n - i,
        {
            if self.rows[i].issue_id == issue_id {
                proof {
                    assert(self@[i as int].0 == issue_id);
                    let w = choose|w: int| 0 <= w < self@.len() && self@[w].0 == issue_id;
                    assert(stored_issue(self@, issue_id) == Some(self@[w].1));
                }
                return Some(&self.rows[i].issue);
            }
            i += 1;
        }
        proof {
            assert(!store_contains(self@, issue_id));
        }
        None
    }
}

} // verus!
