use agit_selfhost::space::{Policy, PolicyUpdate};
use agit_selfhost::state::{DataDirectory, State, StateError, Unique};
use serde_json::Value;

fn hub() -> State {
    State::initialize(
        "/data",
        "ada".to_owned(),
        &None,
        "https://h.example",
        64,
        256,
        Policy::default(),
        DataDirectory { initialized: false, occupied: false },
    )
    .unwrap()
}

fn origins(list: &[&str]) -> Value {
    Value::Array(list.iter().map(|s| Value::from(*s)).collect())
}

#[test]
fn created_repositories_are_found_and_listed_by_name() {
    let mut state = hub();
    for (i, name) in ["notes", "archive", "lab"].iter().enumerate() {
        let repo = state
            .create_repo_at(name, &None, &origins(&["git@x:y"]), format!("id-{i}"), 5)
            .unwrap();
        assert_eq!(repo.id, format!("id-{i}"));
        assert_eq!(repo.owner, "ada");
    }
    let names: Vec<_> = state.repositories().iter().map(|r| r.name.clone()).collect();
    assert_eq!(names, ["archive", "lab", "notes"]);
    assert_eq!(state.repository("ada", "lab").unwrap().id, "id-2");
    assert!(state.repository("bob", "lab").is_none());
    assert!(matches!(
        state.create_repo_at("lab", &None, &origins(&[]), "id-9".to_owned(), 5),
        Err(StateError::RepositoryExists)
    ));
    assert!(matches!(
        state.create_repo_at("new", &None, &origins(&[]), "id-0".to_owned(), 5),
        Err(StateError::Duplicate(Unique::RepositoryId))
    ));
    let repo = state.repository("ada", "lab").unwrap();
    assert_eq!(state.repo_path(&repo), "repos/id-2.git");
    assert_eq!(state.repo_url(&repo), "https://h.example/ada/lab.git");
    let json = state.repo_json(&repo, 7);
    assert_eq!(json["agent_id"], "id-2");
    assert_eq!(json["visibility"], "private");
    assert_eq!(json["session_count"], 7);
    assert_eq!(json["clone_url"], "https://h.example/ada/lab.git");
}

#[test]
fn unfit_repositories_are_refused() {
    let mut state = hub();
    let none = origins(&[]);
    let id = || "id".to_owned();
    let cases = [
        (state.create_repo_at(" x", &None, &none, id(), 0), "Invalid repository or owner name"),
        (
            state.create_repo_at("x", &Some("taken word".to_owned()), &none, id(), 0),
            "taken word",
        ),
        (
            state.create_repo_at("x", &None, &Value::from("text"), id(), 0),
            "repo_origins must be an array",
        ),
        (
            state.create_repo_at("x", &None, &Value::Array(vec![Value::from(1)]), id(), 0),
            "Invalid repo origins",
        ),
        (
            state.create_repo_at("x", &None, &origins(&["o"; 65]), id(), 0),
            "Invalid repo origins",
        ),
        (
            state.create_repo_at("x", &None, &origins(&["o".repeat(4097).as_str()]), id(), 0),
            "Invalid repo origins",
        ),
    ];
    for (result, message) in cases {
        assert_eq!(result.err().unwrap().message(), message);
    }
    assert!(state.records.is_empty());
    assert!(state
        .create_repo_at("x", &None, &origins(&["o".repeat(4096).as_str(); 64]), id(), 0)
        .is_ok());
}

#[test]
fn a_new_repository_is_dirty_until_it_is_marked_clean() {
    let mut state = hub();
    assert!(!state.any_dirty());
    let repo = state.create_repo("x", &None, &origins(&[])).unwrap();
    assert_eq!(repo.id.len(), 36);
    assert!(state.any_dirty());
    state.mark(&repo.id, false);
    assert!(!state.any_dirty());
    state.mark("other", true);
    assert!(!state.any_dirty());
    state.mark(&repo.id, true);
    assert!(state.any_dirty());
}

#[test]
fn a_policy_change_is_kept_only_when_it_is_valid() {
    let mut state = hub();
    let update = PolicyUpdate { quota_mib: Some(10240), warn_percent: Some(90), ..Default::default() };
    state.configure_storage(&update).unwrap();
    assert_eq!(state.config.storage.quota_mib, 10240);
    assert_eq!(state.config.storage.warn_percent, 90);
    assert_eq!(state.config.storage.min_free_mib, 3072);
    let bad = PolicyUpdate { cleanup_interval_hours: Some(0), ..Default::default() };
    assert_eq!(
        state.configure_storage(&bad).err().unwrap().message(),
        "cleanup_interval_hours must be between 1 and 8760"
    );
    assert_eq!(state.config.storage.cleanup_interval_hours, 24);
}
