//! Receiving a push: in which order its updates are checked, and what has to be found out for it.
use crate::git::{check_update, lemma_no_commit, name_refusal, new_commits, no_commit,
    update_refusal, update_views, validate_receive, Checked, GitError, RefUpdate, RefUpdateView,
    SnapshotMeta, MAX_NEW_COMMITS};
use crate::text::{lines, same, starts_with, texts, trim, trimmed};
use vstd::prelude::*;

verus! {

/// What has to be found out next.
pub enum Task {
    /// The commit that a name stands for.
    Commit(String),
    /// What a commit's snapshot says of itself. A snapshot that is not checked yet is checked.
    Snapshot { commit: String, check: bool },
    /// Whether a commit descends from another one, and what the snapshot of the latter says of
    /// itself.
    Ancestor { before: String, after: String },
    /// The commits that a commit brings.
    NewCommits(String),
    /// Whether a commit's snapshot can be published.
    Check(String),
    /// Nothing: the push is accepted.
    Done,
}

/// What has to be found out next, seen through its characters.
pub enum TaskView {
    Commit(Seq<char>),
    Snapshot { commit: Seq<char>, check: bool },
    Ancestor { before: Seq<char>, after: Seq<char> },
    NewCommits(Seq<char>),
    Check(Seq<char>),
    Done,
}

impl View for Task {
    type V = TaskView;

    open spec fn view(&self) -> TaskView {
        match self {
            Task::Commit(name) => TaskView::Commit(name@),
            Task::Snapshot { commit, check } => TaskView::Snapshot {
                commit: commit@,
                check: *check,
            },
            Task::Ancestor { before, after } => TaskView::Ancestor {
                before: before@,
                after: after@,
            },
            Task::NewCommits(name) => TaskView::NewCommits(name@),
            Task::Check(name) => TaskView::Check(name@),
            Task::Done => TaskView::Done,
        }
    }
}

/// What was found out.
pub enum Finding {
    /// What Git prints for the commit that a name stands for.
    Commit(String),
    Snapshot(SnapshotMeta),
    /// What the earlier snapshot says of itself, where the commit descends from it.
    Ancestor(Option<SnapshotMeta>),
    /// What Git lists for the commits that a commit brings.
    NewCommits(String),
    /// The snapshot can be published.
    Checked,
}

/// What is awaited for the first update that is left.
pub enum Stage {
    Commit,
    Snapshot(Seq<char>),
    Ancestor(Seq<char>, SnapshotMeta),
    NewCommits,
    /// Commits that the update brings and that are still to be looked at.
    Check(Seq<Seq<char>>),
    Done,
}

/// An update that was accepted, and what it was accepted for.
pub struct Accepted {
    pub update: RefUpdateView,
    pub commit: Seq<char>,
    pub current: SnapshotMeta,
    pub ancestor: Option<SnapshotMeta>,
}

/// How far a push has been checked.
pub struct Progress {
    pub left: Seq<RefUpdateView>,
    pub stage: Stage,
    /// The commits whose snapshots were or are being checked.
    pub checked: Set<Seq<char>>,
    pub accepted: Seq<Accepted>,
}

/// Turns to the next update.
pub open spec fn next_update(
    left: Seq<RefUpdateView>,
    checked: Set<Seq<char>>,
    accepted: Seq<Accepted>,
) -> Result<(Progress, TaskView), GitError> {
    if left.len() == 0 {
        Ok((Progress { left, stage: Stage::Done, checked, accepted }, TaskView::Done))
    } else {
        match name_refusal(left[0]) {
            Some(e) => Err(e),
            None => Ok(
                (
                    Progress { left, stage: Stage::Commit, checked, accepted },
                    TaskView::Commit(left[0].after),
                ),
            ),
        }
    }
}

/// Turns to the next commit that an update brings and that is not checked yet; behind the last one
/// to the next update.
pub open spec fn next_commit(
    left: Seq<RefUpdateView>,
    pending: Seq<Seq<char>>,
    checked: Set<Seq<char>>,
    accepted: Seq<Accepted>,
) -> Result<(Progress, TaskView), GitError>
    decreases pending.len(),
{
    if pending.len() == 0 {
        next_update(left.skip(1), checked, accepted)
    } else if checked.contains(pending[0]) {
        next_commit(left, pending.skip(1), checked, accepted)
    } else {
        Ok(
            (
                Progress {
                    left,
                    stage: Stage::Check(pending.skip(1)),
                    checked: checked.insert(pending[0]),
                    accepted,
                },
                TaskView::Check(pending[0]),
            ),
        )
    }
}

/// Decides on the update itself; where it is accepted, turns to the commits that it brings.
pub open spec fn decided(
    p: Progress,
    commit: Seq<char>,
    current: SnapshotMeta,
    ancestor: Option<SnapshotMeta>,
) -> Result<(Progress, TaskView), GitError> {
    match update_refusal(p.left[0], commit, current, ancestor) {
        Some(e) => Err(e),
        None => Ok(
            (
                Progress {
                    stage: Stage::NewCommits,
                    accepted: p.accepted.push(
                        Accepted { update: p.left[0], commit, current, ancestor },
                    ),
                    ..p
                },
                TaskView::NewCommits(p.left[0].after),
            ),
        ),
    }
}

/// Whether an update moves a published branch.
pub open spec fn moves_branch(u: RefUpdateView) -> bool {
    !"refs/tags/"@.is_prefix_of(u.name) && u.before != no_commit()
}

/// Whether a finding is what is awaited.
pub open spec fn awaited(stage: Stage, finding: Finding) -> bool {
    match stage {
        Stage::Commit => finding is Commit,
        Stage::Snapshot(_) => finding is Snapshot,
        Stage::Ancestor(_, _) => finding is Ancestor,
        Stage::NewCommits => finding is NewCommits,
        Stage::Check(_) => finding is Checked,
        Stage::Done => false,
    }
}

/// What a finding leads to: the next thing to find out, or why the push is refused.
pub open spec fn learned(p: Progress, finding: Finding) -> Result<(Progress, TaskView), GitError> {
    match (p.stage, finding) {
        (Stage::Commit, Finding::Commit(printed)) => {
            let commit = trim(printed@);
            Ok(
                (
                    Progress {
                        stage: Stage::Snapshot(commit),
                        checked: p.checked.insert(commit),
                        ..p
                    },
                    TaskView::Snapshot { commit, check: !p.checked.contains(commit) },
                ),
            )
        },
        (Stage::Snapshot(commit), Finding::Snapshot(current)) => if moves_branch(p.left[0]) {
            Ok(
                (
                    Progress { stage: Stage::Ancestor(commit, current), ..p },
                    TaskView::Ancestor { before: p.left[0].before, after: p.left[0].after },
                ),
            )
        } else {
            decided(p, commit, current, None)
        },
        (Stage::Ancestor(commit, current), Finding::Ancestor(ancestor)) => decided(
            p,
            commit,
            current,
            ancestor,
        ),
        (Stage::NewCommits, Finding::NewCommits(listing)) => {
            let rows = lines(listing@);
            if rows.len() > MAX_NEW_COMMITS {
                Err(GitError::TooManyCommits)
            } else {
                next_commit(p.left, rows, p.checked, p.accepted)
            }
        },
        (Stage::Check(pending), Finding::Checked) => next_commit(
            p.left,
            pending,
            p.checked,
            p.accepted,
        ),
        _ => Err(GitError::InvalidUpdate),
    }
}

/// What a receiver awaits.
enum Awaited {
    Commit,
    Snapshot,
    Ancestor,
    NewCommits,
    Check,
    Done,
}

/// A push while it is being received.
pub struct Receiver {
    updates: Vec<RefUpdate>,
    at: usize,
    awaited: Awaited,
    commit: String,
    current: Option<SnapshotMeta>,
    pending: Vec<String>,
    next: usize,
    checked: Checked,
    accepted: Ghost<Seq<Accepted>>,
}

impl Receiver {
    /// How far the push has been checked.
    pub closed spec fn progress(self) -> Progress {
        Progress {
            left: update_views(self.updates@).skip(self.at as int),
            stage: match self.awaited {
                Awaited::Commit => Stage::Commit,
                Awaited::Snapshot => Stage::Snapshot(self.commit@),
                Awaited::Ancestor => Stage::Ancestor(self.commit@, self.current->0),
                Awaited::NewCommits => Stage::NewCommits,
                Awaited::Check => Stage::Check(texts(self.pending@).skip(self.next as int)),
                Awaited::Done => Stage::Done,
            },
            checked: self.checked.commit_names(),
            accepted: self.accepted@,
        }
    }

    /// The receiver stands at an update while there is one.
    pub closed spec fn wf(self) -> bool {
        &&& self.at <= self.updates@.len()
        &&& !(self.awaited is Done) ==> self.at < self.updates@.len()
        &&& self.awaited is Ancestor ==> self.current is Some
        &&& self.next <= self.pending@.len()
    }

    /// Starts to receive updates.
    pub fn start(updates: Vec<RefUpdate>) -> (r: Result<(Self, Task), GitError>)
        ensures
            match next_update(
                update_views(updates@),
                Set::<Seq<char>>::empty(),
                Seq::<Accepted>::empty(),
            ) {
                Ok((p, task)) => {
                    &&& r is Ok
                    &&& r->Ok_0.0.wf()
                    &&& r->Ok_0.0.progress() == p
                    &&& r->Ok_0.1@ == task
                },
                Err(e) => r matches Err(x) && x == e,
            },
    {
        let mut receiver = Receiver {
            updates,
            at: 0,
            awaited: Awaited::Done,
            commit: String::new(),
            current: None,
            pending: Vec::new(),
            next: 0,
            checked: Checked::new(),
            accepted: Ghost(Seq::empty()),
        };
        assert(update_views(receiver.updates@).skip(0) == update_views(receiver.updates@));
        match receiver.turn() {
            Ok(task) => Ok((receiver, task)),
            Err(e) => Err(e),
        }
    }

    fn turn(&mut self) -> (r: Result<Task, GitError>)
        requires
            old(self).at <= old(self).updates@.len(),
            old(self).next <= old(self).pending@.len(),
        ensures
            match next_update(
                old(self).progress().left,
                old(self).progress().checked,
                old(self).progress().accepted,
            ) {
                Ok((p, task)) => {
                    &&& r is Ok
                    &&& final(self).wf()
                    &&& final(self).progress() == p
                    &&& r->Ok_0@ == task
                },
                Err(e) => r matches Err(x) && x == e,
            },
    {
        if self.at >= self.updates.len() {
            self.awaited = Awaited::Done;
            return Ok(Task::Done);
        }
        assert(self.progress().left[0] == self.updates@[self.at as int]@);
        match check_update(&self.updates[self.at]) {
            Ok(_) => {},
            Err(e) => {
                return Err(e);
            },
        }
        self.awaited = Awaited::Commit;
        Ok(Task::Commit(self.updates[self.at].after.clone()))
    }

    fn advance(&mut self) -> (r: Result<Task, GitError>)
        requires
            old(self).at < old(self).updates.len(),
            old(self).next <= old(self).pending@.len(),
        ensures
            match next_commit(
                old(self).progress().left,
                texts(old(self).pending@).skip(old(self).next as int),
                old(self).progress().checked,
                old(self).progress().accepted,
            ) {
                Ok((p, task)) => {
                    &&& r is Ok
                    &&& final(self).wf()
                    &&& final(self).progress() == p
                    &&& r->Ok_0@ == task
                },
                Err(e) => r matches Err(x) && x == e,
            },
    {
        let ghost rows = texts(self.pending@);
        let ghost left = self.progress().left;
        let ghost checked = self.progress().checked;
        let ghost accepted = self.progress().accepted;
        while self.next < self.pending.len()
            invariant
                self.at < self.updates.len(),
                self.next <= self.pending@.len(),
                rows == texts(self.pending@),
                left == self.progress().left,
                checked == self.progress().checked,
                accepted == self.progress().accepted,
                left == old(self).progress().left,
                checked == old(self).progress().checked,
                accepted == old(self).progress().accepted,
                next_commit(
                    left,
                    texts(old(self).pending@).skip(old(self).next as int),
                    checked,
                    accepted,
                ) == next_commit(left, rows.skip(self.next as int), checked, accepted),
            decreases self.pending@.len() - self.next,
        {
            let ghost rest = rows.skip(self.next as int);
            let i: usize = self.next;
            assert(rest[0] == self.pending@[i as int]@);
            assert(rest.skip(1) == rows.skip(i + 1));
            let fresh = self.checked.insert_commit(self.pending[i].as_str());
            self.next = i + 1;
            if fresh {
                self.awaited = Awaited::Check;
                let task = Task::Check(self.pending[i].clone());
                return Ok(task);
            }
            assert(checked.insert(rest[0]) =~= checked);
        }
        assert(rows.skip(self.next as int).len() == 0);
        assert(left.skip(1) == update_views(self.updates@).skip(self.at + 1));
        self.at = self.at + 1;
        self.turn()
    }

    fn decide(&mut self, current: SnapshotMeta, ancestor: Option<SnapshotMeta>) -> (r: Result<
        Task,
        GitError,
    >)
        requires
            old(self).wf(),
            old(self).at < old(self).updates@.len(),
        ensures
            match decided(old(self).progress(), old(self).commit@, current, ancestor) {
                Ok((p, task)) => {
                    &&& r is Ok
                    &&& final(self).wf()
                    &&& final(self).progress() == p
                    &&& r->Ok_0@ == task
                },
                Err(e) => r matches Err(x) && x == e,
            },
    {
        let ghost first = self.progress().left[0];
        assert(first == self.updates@[self.at as int]@);
        match validate_receive(
            &self.updates[self.at],
            self.commit.as_str(),
            &current,
            &ancestor,
        ) {
            Ok(_) => {},
            Err(e) => {
                return Err(e);
            },
        }
        let ghost more = self.accepted@.push(
            Accepted { update: first, commit: self.commit@, current, ancestor },
        );
        self.accepted = Ghost(more);
        self.awaited = Awaited::NewCommits;
        Ok(Task::NewCommits(self.updates[self.at].after.clone()))
    }

    /// Takes what was found out, and tells what has to be found out next or why the push is
    /// refused.
    pub fn learn(&mut self, finding: Finding) -> (r: Result<Task, GitError>)
        requires
            old(self).wf(),
            awaited(old(self).progress().stage, finding),
        ensures
            match learned(old(self).progress(), finding) {
                Ok((p, task)) => {
                    &&& r is Ok
                    &&& final(self).wf()
                    &&& final(self).progress() == p
                    &&& r->Ok_0@ == task
                },
                Err(e) => r matches Err(x) && x == e,
            },
    {
        match finding {
            Finding::Commit(printed) => {
                let commit = trimmed(printed.as_str());
                let check = self.checked.insert_commit(commit.as_str());
                self.commit = commit.clone();
                self.awaited = Awaited::Snapshot;
                Ok(Task::Snapshot { commit, check })
            },
            Finding::Snapshot(current) => {
                assert(self.progress().left[0] == self.updates@[self.at as int]@);
                let update = &self.updates[self.at];
                let moves = !starts_with(update.name.as_str(), "refs/tags/") && !same(
                    update.before.as_str(),
                    "0000000000000000000000000000000000000000",
                );
                if moves {
                    let task = Task::Ancestor {
                        before: update.before.clone(),
                        after: update.after.clone(),
                    };
                    self.current = Some(current);
                    self.awaited = Awaited::Ancestor;
                    Ok(task)
                } else {
                    self.decide(current, None)
                }
            },
            Finding::Ancestor(ancestor) => {
                match self.current.take() {
                    Some(current) => {
                        self.awaited = Awaited::Snapshot;
                        self.decide(current, ancestor)
                    },
                    None => Err(GitError::InvalidUpdate),
                }
            },
            Finding::NewCommits(listing) => {
                let rows = match new_commits(listing.as_str()) {
                    Ok(rows) => rows,
                    Err(e) => {
                        return Err(e);
                    },
                };
                self.pending = rows;
                self.next = 0;
                assert(texts(self.pending@).skip(0) == texts(self.pending@));
                self.advance()
            },
            Finding::Checked => self.advance(),
        }
    }
}

// ---------------------------------------------------------------------------
// Laws
// ---------------------------------------------------------------------------

/// Whether the accepted updates and those that are left are the updates of a push, and each
/// accepted one passed its checks with a commit whose snapshot was checked. The first one that is
/// left was looked at already where something is awaited of it.
pub open spec fn in_course(updates: Seq<RefUpdateView>, p: Progress) -> bool {
    let done = if p.stage is NewCommits || p.stage is Check {
        p.accepted.len() - 1
    } else {
        p.accepted.len() as int
    };
    &&& 0 <= done <= updates.len()
    &&& p.left == updates.skip(done)
    &&& p.stage is Done <==> p.left.len() == 0
    &&& p.accepted.len() <= updates.len()
    &&& forall|i: int|
        0 <= i < p.accepted.len() ==> {
            let a = #[trigger] p.accepted[i];
            &&& a.update == updates[i]
            &&& name_refusal(a.update) is None
            &&& update_refusal(a.update, a.commit, a.current, a.ancestor) is None
            &&& p.checked.contains(a.commit)
        }
    &&& !(p.stage is Done) ==> name_refusal(p.left[0]) is None
    &&& match p.stage {
        Stage::Snapshot(commit) => p.checked.contains(commit),
        Stage::Ancestor(commit, _) => p.checked.contains(commit),
        _ => true,
    }
}

proof fn lemma_next_update(
    updates: Seq<RefUpdateView>,
    checked: Set<Seq<char>>,
    accepted: Seq<Accepted>,
)
    requires
        accepted.len() <= updates.len(),
        forall|i: int|
            0 <= i < accepted.len() ==> {
                let a = #[trigger] accepted[i];
                &&& a.update == updates[i]
                &&& name_refusal(a.update) is None
                &&& update_refusal(a.update, a.commit, a.current, a.ancestor) is None
                &&& checked.contains(a.commit)
            },
    ensures
        next_update(updates.skip(accepted.len() as int), checked, accepted) matches Ok((q, _))
            ==> in_course(updates, q),
{
}

proof fn lemma_next_commit(
    updates: Seq<RefUpdateView>,
    p: Progress,
    pending: Seq<Seq<char>>,
    checked: Set<Seq<char>>,
)
    requires
        in_course(updates, p),
        p.stage is NewCommits || p.stage is Check,
        p.checked.subset_of(checked),
    ensures
        next_commit(p.left, pending, checked, p.accepted) matches Ok((q, _)) ==> in_course(
            updates,
            q,
        ),
    decreases pending.len(),
{
    if pending.len() == 0 {
        assert(p.left.skip(1) == updates.skip(p.accepted.len() as int));
        lemma_next_update(updates, checked, p.accepted);
    } else if checked.contains(pending[0]) {
        lemma_next_commit(updates, p, pending.skip(1), checked);
    }
}

proof fn lemma_learned(updates: Seq<RefUpdateView>, p: Progress, finding: Finding)
    requires
        in_course(updates, p),
        awaited(p.stage, finding),
    ensures
        learned(p, finding) matches Ok((q, _)) ==> in_course(updates, q),
{
    match (p.stage, finding) {
        (Stage::NewCommits, Finding::NewCommits(listing)) => {
            lemma_next_commit(updates, p, lines(listing@), p.checked);
        },
        (Stage::Check(pending), Finding::Checked) => {
            lemma_next_commit(updates, p, pending, p.checked);
        },
        _ => {
            assert(p.left[0] == updates[p.accepted.len() as int]);
        },
    }
}

/// How far a push has been checked after findings; `None` where it is refused, or where a finding
/// is not what is awaited.
pub open spec fn course(updates: Seq<RefUpdateView>, findings: Seq<Finding>) -> Option<Progress>
    decreases findings.len(),
{
    if findings.len() == 0 {
        match next_update(updates, Set::empty(), Seq::empty()) {
            Ok((p, _)) => Some(p),
            Err(_) => None,
        }
    } else {
        match course(updates, findings.drop_last()) {
            None => None,
            Some(p) => if !awaited(p.stage, findings.last()) {
                None
            } else {
                match learned(p, findings.last()) {
                    Ok((q, _)) => Some(q),
                    Err(_) => None,
                }
            },
        }
    }
}

proof fn lemma_course(updates: Seq<RefUpdateView>, findings: Seq<Finding>)
    ensures
        course(updates, findings) matches Some(p) ==> in_course(updates, p),
    decreases findings.len(),
{
    if findings.len() == 0 {
        assert(updates.skip(0) == updates);
        lemma_next_update(updates, Set::empty(), Seq::empty());
    } else {
        lemma_course(updates, findings.drop_last());
        match course(updates, findings.drop_last()) {
            Some(p) => {
                if awaited(p.stage, findings.last()) {
                    lemma_learned(updates, p, findings.last());
                }
            },
            None => {},
        }
    }
}

/// Whether a commit's snapshot was or is being checked, or is still to be looked at.
pub open spec fn covered(p: Progress, commit: Seq<char>) -> bool {
    p.checked.contains(commit) || (p.stage matches Stage::Check(pending) && pending.contains(
        commit,
    ))
}

/// Whether a finding lists a commit among those that an update brings.
pub open spec fn brings(finding: Finding, commit: Seq<char>) -> bool {
    finding matches Finding::NewCommits(listing) && lines(listing@).contains(commit)
}

proof fn lemma_next_commit_covers(
    left: Seq<RefUpdateView>,
    pending: Seq<Seq<char>>,
    checked: Set<Seq<char>>,
    accepted: Seq<Accepted>,
)
    ensures
        next_commit(left, pending, checked, accepted) matches Ok((q, _)) ==> {
            &&& forall|c: Seq<char>| checked.contains(c) ==> #[trigger] covered(q, c)
            &&& forall|c: Seq<char>| pending.contains(c) ==> #[trigger] covered(q, c)
        },
    decreases pending.len(),
{
    if pending.len() > 0 {
        let rest = pending.skip(1);
        if checked.contains(pending[0]) {
            lemma_next_commit_covers(left, rest, checked, accepted);
        }
        assert forall|c: Seq<char>| pending.contains(c) implies c == pending[0] || rest.contains(
            c,
        ) by {
            let k = choose|k: int| 0 <= k < pending.len() && pending[k] == c;
            if k > 0 {
                assert(rest[k - 1] == c);
            }
        }
    }
}

proof fn lemma_learned_covers(p: Progress, finding: Finding)
    requires
        awaited(p.stage, finding),
    ensures
        learned(p, finding) matches Ok((q, _)) ==> {
            &&& forall|c: Seq<char>| covered(p, c) ==> #[trigger] covered(q, c)
            &&& finding matches Finding::NewCommits(listing) ==> forall|c: Seq<char>|
                lines(listing@).contains(c) ==> #[trigger] covered(q, c)
        },
{
    match (p.stage, finding) {
        (Stage::NewCommits, Finding::NewCommits(listing)) => {
            lemma_next_commit_covers(p.left, lines(listing@), p.checked, p.accepted);
        },
        (Stage::Check(pending), Finding::Checked) => {
            lemma_next_commit_covers(p.left, pending, p.checked, p.accepted);
        },
        _ => {},
    }
}

proof fn lemma_course_covers(updates: Seq<RefUpdateView>, findings: Seq<Finding>)
    ensures
        course(updates, findings) matches Some(p) ==> forall|k: int, c: Seq<char>|
            0 <= k < findings.len() && brings(#[trigger] findings[k], c) ==> #[trigger] covered(
                p,
                c,
            ),
    decreases findings.len(),
{
    if findings.len() > 0 {
        let init = findings.drop_last();
        lemma_course_covers(updates, init);
        match course(updates, init) {
            Some(p) => {
                if awaited(p.stage, findings.last()) {
                    lemma_learned_covers(p, findings.last());
                    match learned(p, findings.last()) {
                        Ok((q, _)) => {
                            assert forall|k: int, c: Seq<char>|
                                0 <= k < findings.len() && brings(
                                    #[trigger] findings[k],
                                    c,
                                ) implies #[trigger] covered(q, c) by {
                                if k < init.len() {
                                    assert(init[k] == findings[k]);
                                    assert(covered(p, c));
                                }
                            }
                        },
                        Err(_) => {},
                    }
                }
            },
            None => {},
        }
    }
}

/// A push is accepted as a whole or not at all: when it is accepted, every one of its updates
/// passed its checks, with a commit whose snapshot was checked, and so was the snapshot of every
/// commit that an update brings.
pub proof fn law_accepted_push_passed_every_check(
    updates: Seq<RefUpdateView>,
    findings: Seq<Finding>,
)
    requires
        course(updates, findings) is Some,
        course(updates, findings)->0.stage is Done,
    ensures
        ({
            let p = course(updates, findings)->0;
            &&& p.accepted.len() == updates.len()
            &&& forall|i: int|
                0 <= i < updates.len() ==> {
                    let a = #[trigger] p.accepted[i];
                    &&& a.update == updates[i]
                    &&& name_refusal(a.update) is None
                    &&& update_refusal(a.update, a.commit, a.current, a.ancestor) is None
                    &&& p.checked.contains(a.commit)
                }
            &&& forall|k: int, commit: Seq<char>|
                0 <= k < findings.len() && #[trigger] brings(findings[k], commit)
                    ==> p.checked.contains(commit)
        }),
{
    lemma_course(updates, findings);
    lemma_course_covers(updates, findings);
    let p = course(updates, findings)->0;
    assert forall|k: int, commit: Seq<char>|
        0 <= k < findings.len() && #[trigger] brings(
            findings[k],
            commit,
        ) implies p.checked.contains(commit) by {
        assert(covered(p, commit));
    }
}

/// What has to be found out is about the update itself: the commit that its new name stands for,
/// the snapshot of that commit, for a branch that moves whether it descends from what the branch
/// named before, and then the commits that its new name brings.
pub proof fn law_tasks_are_about_the_update(
    p: Progress,
    u: RefUpdateView,
    printed: String,
    commit: Seq<char>,
    current: SnapshotMeta,
    zeros: Seq<char>,
)
    requires
        p.left.len() > 0,
        p.left[0] == u,
        name_refusal(u) is None,
        zeros.len() == 40,
        forall|i: int| 0 <= i < 40 ==> zeros[i] == '0',
    ensures
        next_update(p.left, p.checked, p.accepted) matches Ok((q, task)) && q.stage is Commit
            && q.left == p.left && task == TaskView::Commit(u.after),
        p.stage is Commit ==> (learned(p, Finding::Commit(printed)) matches Ok((q, task)) && q.stage
            == Stage::Snapshot(trim(printed@)) && task == (TaskView::Snapshot {
            commit: trim(printed@),
            check: !p.checked.contains(trim(printed@)),
        }) && q.checked.contains(trim(printed@))),
        p.stage == Stage::Snapshot(commit) && "refs/heads/"@.is_prefix_of(u.name) && u.before
            != zeros ==> (learned(p, Finding::Snapshot(current)) matches Ok((q, task)) && q.stage
            == Stage::Ancestor(commit, current) && task == (TaskView::Ancestor {
            before: u.before,
            after: u.after,
        })),
        p.stage == Stage::Snapshot(commit) && (!"refs/heads/"@.is_prefix_of(u.name) || u.before
            == zeros) ==> match update_refusal(u, commit, current, None) {
            None => learned(p, Finding::Snapshot(current)) matches Ok((_, task)) && task
                == TaskView::NewCommits(u.after),
            Some(e) => learned(p, Finding::Snapshot(current)) matches Err(x) && x == e,
        },
{
    reveal_strlit("refs/heads/");
    reveal_strlit("refs/tags/");
    lemma_no_commit(zeros);
    if "refs/heads/"@.is_prefix_of(u.name) {
        assert(u.name.subrange(0, "refs/heads/"@.len() as int)[5] == 'h');
        assert(!"refs/tags/"@.is_prefix_of(u.name)) by {
            if "refs/tags/"@.is_prefix_of(u.name) {
                assert(u.name.subrange(0, "refs/tags/"@.len() as int)[5] == 't');
            }
        }
    }
}

/// What was found of a branch that moves decides on it; where it is accepted, the commits that it
/// brings are asked for, and each of them that is not checked yet is checked in turn.
pub proof fn law_new_commits_are_checked_in_turn(
    p: Progress,
    commit: Seq<char>,
    current: SnapshotMeta,
    ancestor: Option<SnapshotMeta>,
    listing: String,
)
    requires
        p.left.len() > 0,
    ensures
        p.stage == Stage::Ancestor(commit, current) ==> match update_refusal(
            p.left[0],
            commit,
            current,
            ancestor,
        ) {
            None => learned(p, Finding::Ancestor(ancestor)) matches Ok((_, task)) && task
                == TaskView::NewCommits(p.left[0].after),
            Some(e) => learned(p, Finding::Ancestor(ancestor)) matches Err(x) && x == e,
        },
        p.stage is NewCommits && lines(listing@).len() > 10000 ==> learned(
            p,
            Finding::NewCommits(listing),
        ) is Err,
        p.stage is NewCommits && 0 < lines(listing@).len() <= 10000 && !p.checked.contains(
            lines(listing@)[0],
        ) ==> (learned(p, Finding::NewCommits(listing)) matches Ok((q, task)) && task
            == TaskView::Check(lines(listing@)[0]) && q.stage == Stage::Check(
            lines(listing@).skip(1),
        ) && q.left == p.left),
        p.stage is NewCommits && lines(listing@).len() == 0 ==> learned(
            p,
            Finding::NewCommits(listing),
        ) == next_update(p.left.skip(1), p.checked, p.accepted),
{
}

/// A push is refused only for a reason: an update that is not accepted, one whose name is not
/// accepted, or too many commits at once.
pub proof fn law_pushes_are_refused_for_a_reason(p: Progress, finding: Finding)
    requires
        awaited(p.stage, finding),
        p.left.len() > 0,
        learned(p, finding) is Err,
    ensures
        ({
            let e = learned(p, finding)->Err_0;
            ||| p.stage matches Stage::Snapshot(commit) && update_refusal(
                p.left[0],
                commit,
                finding->Snapshot_0,
                None,
            ) == Some(e)
            ||| p.stage matches Stage::Ancestor(commit, current) && update_refusal(
                p.left[0],
                commit,
                current,
                finding->Ancestor_0,
            ) == Some(e)
            ||| p.left.len() > 1 && name_refusal(p.left[1]) == Some(e)
            ||| finding matches Finding::NewCommits(listing) && lines(listing@).len() > 10000
        }),
{
    match (p.stage, finding) {
        (Stage::NewCommits, Finding::NewCommits(listing)) => {
            lemma_refused_next(p.left, lines(listing@), p.checked, p.accepted);
        },
        (Stage::Check(pending), Finding::Checked) => {
            lemma_refused_next(p.left, pending, p.checked, p.accepted);
        },
        _ => {},
    }
}

proof fn lemma_refused_next(
    left: Seq<RefUpdateView>,
    pending: Seq<Seq<char>>,
    checked: Set<Seq<char>>,
    accepted: Seq<Accepted>,
)
    requires
        left.len() > 0,
    ensures
        next_commit(left, pending, checked, accepted) matches Err(e) ==> left.len() > 1
            && name_refusal(left[1]) == Some(e),
    decreases pending.len(),
{
    if pending.len() > 0 && checked.contains(pending[0]) {
        lemma_refused_next(left, pending.skip(1), checked, accepted);
    }
}

} // verus!
