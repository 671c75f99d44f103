use agit_selfhost::git::{
    blob, blob_name, blob_size, command, initialize, output, reachable_args, resolve,
    resolve_args, shell_quote, validate_lfs, validate_snapshot,
};
use agit_selfhost::space::Policy;
use agit_selfhost::state::{DataDirectory, Repository, State};

fn texts(list: &[&str]) -> Vec<String> {
    list.iter().map(|s| s.to_string()).collect()
}

#[test]
fn git_is_called_without_outside_configuration() {
    let call = command("/data/repos/x.git", false);
    assert_eq!(call.program, "git");
    assert_eq!(call.args, ["-C", "/data/repos/x.git"]);
    assert_eq!(
        call.env,
        vec![
            ("GIT_CONFIG_NOSYSTEM".to_owned(), "1".to_owned()),
            ("GIT_CONFIG_GLOBAL".to_owned(), "/dev/null".to_owned()),
            ("GIT_TERMINAL_PROMPT".to_owned(), "0".to_owned()),
            ("GIT_NO_LAZY_FETCH".to_owned(), "1".to_owned()),
        ]
    );
    assert_eq!(command("x", true).env[1].1, "NUL");
}

#[test]
fn output_is_text_or_a_failure() {
    let args = texts(&["cat-file", "-s"]);
    assert_eq!(output(&args, true, "grün\n".as_bytes(), "").unwrap(), "grün\n");
    assert_eq!(
        output(&args, false, b"", " fatal: no \n").err().unwrap().message(),
        "Git cat-file: fatal: no"
    );
    assert_eq!(output(&vec![], false, b"", "x").err().unwrap().message(), "Git : x");
    assert_eq!(
        output(&args, true, b"\xff", "").err().unwrap().message(),
        "Git output is not UTF-8"
    );
}

#[test]
fn a_file_is_read_whole_and_within_its_limit() {
    assert_eq!(blob_name("abc", true, "META").unwrap(), "abc:META");
    assert_eq!(
        blob_name("abc", false, "META").err().unwrap().message(),
        "Invalid immutable commit"
    );
    assert_eq!(blob_size(" 10\n", 10).unwrap(), 10);
    assert_eq!(
        blob_size("11\n", 10).err().unwrap().message(),
        "Blob exceeds configured read limit"
    );
    assert_eq!(
        blob_size("x", 10).err().unwrap().message(),
        "invalid digit found in string"
    );
    assert_eq!(blob(vec![1, 2], 2, true).unwrap(), [1, 2]);
    assert_eq!(
        blob(vec![1], 2, true).err().unwrap().message(),
        "Incomplete or oversized Git blob"
    );
    assert!(blob(vec![1, 2], 2, false).is_err());
}

#[test]
fn references_cannot_pass_for_options() {
    assert_eq!(
        resolve_args("main").unwrap(),
        ["rev-parse", "--verify", "--end-of-options", "main^{commit}"]
    );
    for bad in ["", "-x", "a\nb", "a\rb", "a\0b", &"é".repeat(129)] {
        assert_eq!(resolve_args(bad).err().unwrap().message(), "Invalid saved reference");
    }
    assert!(resolve_args(&"é".repeat(128)).is_ok());
    assert_eq!(reachable_args("abc")[2], "abc");
    assert_eq!(resolve("abc\n", true, "refs/heads/main\n").unwrap(), "abc");
    assert_eq!(
        resolve("abc\n", false, "refs/heads/main").err().unwrap().message(),
        "Expected a SHA-1 commit"
    );
    assert_eq!(
        resolve("abc\n", true, " \n").err().unwrap().message(),
        "Commit is not in published history"
    );
}

#[test]
fn quoted_paths_are_one_shell_word() {
    assert_eq!(shell_quote("/opt/hub"), "'/opt/hub'");
    assert_eq!(shell_quote("C:\\x y"), "'C:/x y'");
    assert_eq!(shell_quote("it's"), "'it'\"'\"'s'");
}

#[test]
fn a_repository_is_set_up_with_its_receive_hook() {
    let state = State::initialize(
        "/data dir",
        "ada".to_owned(),
        &None,
        "https://h.example",
        64,
        256,
        Policy::default(),
        DataDirectory { initialized: false, occupied: false },
    )
    .unwrap();
    let repo = Repository { id: "id".to_owned(), owner: "ada".to_owned(), name: "x".to_owned() };
    let plan = initialize(&state, &repo, "/usr/bin/hub", false).unwrap();
    assert_eq!(plan.path, "repos/id.git");
    assert_eq!(plan.init_args, ["init", "--bare", "--initial-branch=main"]);
    assert_eq!(plan.hook_path, "hooks/pre-receive");
    assert_eq!(
        plan.hook,
        "#!/bin/sh\nexec '/usr/bin/hub' --data '/data dir' validate-receive\n"
    );
    let keys: Vec<_> = plan.settings.iter().map(|(k, _)| k.as_str()).collect();
    assert_eq!(
        keys,
        [
            "http.receivepack",
            "receive.denyNonFastForwards",
            "receive.denyDeletes",
            "receive.fsckObjects",
            "transfer.fsckObjects",
            "receive.advertiseAtomic",
            "core.logAllRefUpdates",
        ]
    );
    assert!(plan.settings.iter().all(|(_, v)| v == "true"));
    assert_eq!(
        initialize(&state, &repo, "/usr/bin/hub", true).err().unwrap().message(),
        "Repository identity path already exists"
    );
}

#[test]
fn snapshots_hold_what_they_show() {
    let log = texts(&["a", "b", "c"]);
    assert!(validate_snapshot(&log, &texts(&["c", "a"]), 0, &vec![true, true]).is_ok());
    assert_eq!(
        validate_snapshot(&log, &texts(&["d"]), 1, &vec![false]).err().unwrap().message(),
        "VIEW references content absent from LOG"
    );
    assert_eq!(
        validate_snapshot(&log, &texts(&["a"]), 1, &vec![false]).err().unwrap().message(),
        "VIEW has unmatched merge markers"
    );
    assert_eq!(
        validate_snapshot(&log, &texts(&["a"]), 0, &vec![true, false]).err().unwrap().message(),
        "Unknown envelope runtime"
    );
}

#[test]
fn small_blobs_may_be_pointers() {
    assert_eq!(validate_lfs("blob abc 100", 200).unwrap(), Some("abc".to_owned()));
    assert_eq!(validate_lfs("blob abc 201", 200).unwrap(), None);
    assert_eq!(validate_lfs("tree abc -", 200).unwrap(), None);
    assert_eq!(validate_lfs("blob abc", 200).unwrap(), None);
    assert_eq!(
        validate_lfs("blob abc x", 200).err().unwrap().message(),
        "invalid digit found in string"
    );
}
