use agit_selfhost::git::{
    check_update, new_commits, receive_updates, validate_receive, Checked, LfsPass, LfsTask,
    RefUpdate, SnapshotMeta,
};
use agit_selfhost::receive::{Finding, Receiver, Task};

fn zero() -> String {
    "0".repeat(40)
}

fn id(c: &str) -> String {
    c.repeat(40)
}

fn update(before: String, after: String, name: &str) -> RefUpdate {
    RefUpdate { before, after, name: name.to_owned() }
}

fn meta(line: &str, session: &str) -> SnapshotMeta {
    SnapshotMeta { line: line.to_owned(), session: session.to_owned() }
}

#[test]
fn hook_lines_are_updates() {
    let lines = vec![format!("{} {} refs/heads/x", zero(), id("a"))];
    let updates = receive_updates(&lines, &vec![(true, true)]).unwrap();
    assert_eq!(updates[0].before, zero());
    assert_eq!(updates[0].after, id("a"));
    assert_eq!(updates[0].name, "refs/heads/x");
    assert_eq!(
        receive_updates(&lines, &vec![(true, false)]).err().unwrap().message(),
        "Invalid ref update"
    );
    assert!(receive_updates(&vec!["a b".to_owned()], &vec![(true, true)]).is_err());
    let many = vec![lines[0].clone(); 1025];
    assert_eq!(
        receive_updates(&many, &vec![(true, true); 1025]).err().unwrap().message(),
        "Too many ref updates"
    );
    assert_eq!(
        receive_updates(&many[..1024].to_vec(), &vec![(true, true); 1024]).unwrap().len(),
        1024
    );
}

#[test]
fn deletions_and_other_namespaces_are_refused() {
    assert!(check_update(&update(zero(), id("a"), "refs/heads/x")).is_ok());
    assert!(check_update(&update(zero(), id("a"), "refs/tags/x")).is_ok());
    assert_eq!(
        check_update(&update(id("a"), zero(), "refs/heads/x")).err().unwrap().message(),
        "Published refs cannot be deleted"
    );
    assert_eq!(
        check_update(&update(zero(), id("a"), "refs/notes/x")).err().unwrap().message(),
        "Unsupported ref namespace"
    );
}

#[test]
fn tags_are_immutable_and_version_tags_name_their_commit() {
    let now = meta("session", "s");
    let version = format!("refs/tags/agit-{}", id("a"));
    assert!(validate_receive(&update(zero(), id("b"), &version), &id("a"), &now, &None).is_ok());
    assert_eq!(
        validate_receive(&update(zero(), id("b"), &version), &id("b"), &now, &None)
            .err()
            .unwrap()
            .message(),
        "Version tag must match its commit"
    );
    assert_eq!(
        validate_receive(&update(id("a"), id("b"), "refs/tags/x"), &id("b"), &now, &None)
            .err()
            .unwrap()
            .message(),
        "Published version tags are immutable"
    );
    assert!(
        validate_receive(&update(id("a"), id("a"), "refs/tags/x"), &id("a"), &now, &None).is_ok()
    );
}

#[test]
fn branches_fast_forward_and_keep_their_session() {
    let moved = update(id("a"), id("b"), "refs/heads/x");
    let now = meta("session", "s");
    let check = |previous: Option<SnapshotMeta>| {
        validate_receive(&moved, &id("b"), &now, &previous).map_err(|e| e.message())
    };
    assert!(check(Some(meta("session", "s"))).is_ok());
    assert!(check(Some(meta("session", ""))).is_ok());
    assert_eq!(check(None).err().unwrap(), "Published branches must fast-forward");
    assert_eq!(
        check(Some(meta("file", "s"))).err().unwrap(),
        "Branch line type cannot change"
    );
    assert_eq!(
        check(Some(meta("session", "t"))).err().unwrap(),
        "Branch session identity cannot change"
    );
    let fresh = update(zero(), id("b"), "refs/heads/x");
    assert!(validate_receive(&fresh, &id("b"), &now, &None).is_ok());
}

#[test]
fn an_update_brings_a_bounded_number_of_commits() {
    let listing = |n: usize| "x\n".repeat(n);
    assert_eq!(new_commits(&listing(10000)).unwrap().len(), 10000);
    assert_eq!(
        new_commits(&listing(10001)).err().unwrap().message(),
        "Push has too many new commits; upload smaller batches"
    );
}

#[test]
fn what_was_checked_is_not_checked_again() {
    let mut checked = Checked::new();
    assert!(checked.insert_commit("a"));
    assert!(!checked.insert_commit("a"));
    assert!(checked.insert_commit("b"));
    assert!(!checked.has_object("o", 1));
    checked.insert_object("o".to_owned(), 1);
    assert!(checked.has_object("o", 1));
    assert!(!checked.has_object("o", 2));
}

#[test]
fn a_push_is_accepted_when_every_update_passes() {
    let updates = vec![
        update(id("a"), id("b"), "refs/heads/x"),
        update(zero(), id("b"), "refs/tags/y"),
    ];
    let (mut receiver, first) = Receiver::start(updates).ok().unwrap();
    assert!(matches!(first, Task::Commit(ref name) if *name == id("b")));
    let next = receiver.learn(Finding::Commit(format!("{}\n", id("b")))).ok().unwrap();
    assert!(matches!(next, Task::Snapshot { ref commit, check: true } if *commit == id("b")));
    let next = receiver.learn(Finding::Snapshot(meta("session", "s"))).ok().unwrap();
    assert!(matches!(
        next,
        Task::Ancestor { ref before, ref after } if *before == id("a") && *after == id("b")
    ));
    let next = receiver.learn(Finding::Ancestor(Some(meta("session", "s")))).ok().unwrap();
    assert!(matches!(next, Task::NewCommits(ref name) if *name == id("b")));
    let next = receiver
        .learn(Finding::NewCommits(format!("{}\n{}\n", id("b"), id("c"))))
        .ok()
        .unwrap();
    assert!(matches!(next, Task::Check(ref name) if *name == id("c")));
    let next = receiver.learn(Finding::Checked).ok().unwrap();
    assert!(matches!(next, Task::Commit(ref name) if *name == id("b")));
    let next = receiver.learn(Finding::Commit(id("b"))).ok().unwrap();
    assert!(matches!(next, Task::Snapshot { check: false, .. }));
    let next = receiver.learn(Finding::Snapshot(meta("session", "s"))).ok().unwrap();
    assert!(matches!(next, Task::NewCommits(_)));
    let next = receiver.learn(Finding::NewCommits(String::new())).ok().unwrap();
    assert!(matches!(next, Task::Done));
}

#[test]
fn a_push_is_refused_at_its_first_bad_update() {
    assert!(matches!(Receiver::start(vec![]), Ok((_, Task::Done))));
    let deleted = Receiver::start(vec![update(id("a"), zero(), "refs/heads/x")]);
    assert_eq!(deleted.err().unwrap().message(), "Published refs cannot be deleted");
    let (mut receiver, _) =
        Receiver::start(vec![update(id("a"), id("b"), "refs/heads/x")]).ok().unwrap();
    assert!(receiver.learn(Finding::Commit(id("b"))).is_ok());
    assert!(receiver.learn(Finding::Snapshot(meta("session", "s"))).is_ok());
    assert_eq!(
        receiver.learn(Finding::Ancestor(None)).err().unwrap().message(),
        "Published branches must fast-forward"
    );
}

#[test]
fn every_lfs_object_of_a_snapshot_is_verified_once() {
    let tree = "tree t 1\nblob a 100\nblob big 101\nblob b 7\nblob c 8\nblob d 9\n";
    let mut known = Checked::new();
    known.insert_commit("k");
    known.insert_object("old".to_owned(), 3);
    let mut pass = LfsPass::start(tree, 100, known).ok().unwrap();
    assert!(matches!(pass.next(), LfsTask::Inspect(ref name) if name == "a"));
    assert!(pass.inspect(None).is_ok());
    assert!(matches!(pass.next(), LfsTask::Inspect(ref name) if name == "b"));
    assert!(pass.inspect(Some(("old".to_owned(), 3))).is_ok());
    assert!(matches!(pass.next(), LfsTask::Inspect(ref name) if name == "c"));
    assert!(pass.inspect(Some(("old".to_owned(), 4))).is_ok());
    assert!(matches!(pass.next(), LfsTask::Verify { ref oid, size: 4 } if oid == "old"));
    assert!(pass.verify().is_ok());
    assert!(matches!(pass.next(), LfsTask::Inspect(ref name) if name == "d"));
    assert!(pass.inspect(Some(("old".to_owned(), 4))).is_ok());
    assert!(matches!(pass.next(), LfsTask::Done));
    let mut checked = pass.finish();
    assert!(checked.has_object("old", 3) && checked.has_object("old", 4));
    assert!(!checked.has_object("old", 5));
    assert!(!checked.insert_commit("k"));
    let broken = LfsPass::start("blob a x", 100, Checked::new());
    assert_eq!(broken.err().unwrap().message(), "invalid digit found in string");
    let late = LfsPass::start("blob a 1\nblob b x", 100, Checked::new());
    assert!(late.ok().unwrap().inspect(None).is_err());
}

#[test]
fn every_new_commit_of_an_accepted_push_is_checked() {
    let (mut receiver, _) =
        Receiver::start(vec![update(zero(), id("b"), "refs/heads/x")]).ok().unwrap();
    receiver.learn(Finding::Commit(id("b"))).ok().unwrap();
    receiver.learn(Finding::Snapshot(meta("session", "s"))).ok().unwrap();
    let listing = format!("{}\n{}\n{}\n", id("b"), id("c"), id("d"));
    let next = receiver.learn(Finding::NewCommits(listing)).ok().unwrap();
    assert!(matches!(next, Task::Check(ref name) if *name == id("c")));
    let next = receiver.learn(Finding::Checked).ok().unwrap();
    assert!(matches!(next, Task::Check(ref name) if *name == id("d")));
    let next = receiver.learn(Finding::Checked).ok().unwrap();
    assert!(matches!(next, Task::Done));
}
