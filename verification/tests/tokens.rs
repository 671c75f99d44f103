use agit_selfhost::outside::{FIRST_SECOND, LAST_SECOND};
use agit_selfhost::space::Policy;
use agit_selfhost::state::{
    digest, secret, timestamp, valid_name, DataDirectory, Fresh, State, StateError, Unique,
    ACCESS_SECONDS, REFRESH_SECONDS,
};

const EMPTY: DataDirectory = DataDirectory { initialized: false, occupied: false };

fn hub() -> State {
    State::initialize(
        "/data",
        "ada".to_owned(),
        &None,
        "https://history.example.com/",
        64,
        256,
        Policy::default(),
        EMPTY,
    )
    .unwrap()
}

fn fresh(n: usize) -> Fresh {
    Fresh {
        id: format!("session-{n}"),
        access: format!("access-{n}"),
        refresh: format!("refresh-{n}"),
    }
}

fn set_up(owner: &str, url: &str, snapshot: usize, upload: u64, policy: Policy, dir: DataDirectory)
    -> Result<State, String> {
    State::initialize("/data", owner.to_owned(), &None, url, snapshot, upload, policy, dir)
        .map_err(|e| e.message())
}

#[test]
fn a_hub_is_set_up_with_a_root_url_and_an_account() {
    let state = hub();
    assert_eq!(state.config.public_url, "https://history.example.com");
    assert_eq!(state.config.owner, "ada");
    assert_eq!(state.config.account_id.len(), 36);
    assert_eq!(state.config.schema, 1);
    assert!(state.pats.is_empty());
    let account = state.account();
    assert_eq!(account["username"], "ada");
    assert_eq!(account["account_id"], state.config.account_id.as_str());
}

#[test]
fn unfit_settings_are_refused() {
    let good = Policy::default();
    let url = "https://h.example";
    assert!(set_up("ada", url, 64, 256, good, EMPTY).is_ok());
    assert!(set_up("ada", "http://localhost:8177", 64, 256, good, EMPTY).is_ok());
    assert!(set_up("ada", "http://127.0.0.1", 64, 256, good, EMPTY).is_ok());
    assert!(set_up("ada", "http://[::1]:80/", 64, 256, good, EMPTY).is_ok());
    let cases = [
        (set_up(" ada", url, 64, 256, good, EMPTY), "Invalid repository or owner name"),
        (set_up(&"a".repeat(81), url, 64, 256, good, EMPTY), "Invalid repository or owner name"),
        (
            set_up("ada", url, 64, 256, Policy { quota_mib: 0, ..good }, EMPTY),
            "quota_mib must be positive and fit in bytes",
        ),
        (set_up("ada", url, 0, 256, good, EMPTY), "Snapshot limit must be between 1 and 512 MiB"),
        (set_up("ada", url, 513, 256, good, EMPTY), "Snapshot limit must be between 1 and 512 MiB"),
        (set_up("ada", url, 64, 4097, good, EMPTY), "Upload limit must be between 1 and 4096 MiB"),
        (set_up("ada", "no url", 64, 256, good, EMPTY), "relative URL without a base"),
        (
            set_up("ada", "https://me@h.example", 64, 256, good, EMPTY),
            "Public URL must not contain credentials, query or fragment",
        ),
        (
            set_up("ada", "https://h.example/?a", 64, 256, good, EMPTY),
            "Public URL must not contain credentials, query or fragment",
        ),
        (
            set_up("ada", "https://h.example/hub", 64, 256, good, EMPTY),
            "This Hub requires a root public URL, without a path prefix",
        ),
        (
            set_up("ada", "http://h.example", 64, 256, good, EMPTY),
            "Use HTTPS, or HTTP on loopback for development",
        ),
        (
            set_up("ada", url, 64, 256, good, DataDirectory { initialized: true, occupied: true }),
            "Hub is already initialized",
        ),
        (
            set_up("ada", url, 64, 256, good, DataDirectory { initialized: false, occupied: true }),
            "Initialize an empty data directory",
        ),
    ];
    for (result, message) in cases {
        assert_eq!(result.err().unwrap(), message);
    }
    assert_eq!(
        valid_name("x", &Some("reserved".to_owned())).err().unwrap().message(),
        "reserved"
    );
}

#[test]
fn a_saved_hub_is_opened_only_with_its_schema_and_a_valid_policy() {
    let mut config = hub().config;
    config.schema = 2;
    assert!(matches!(
        State::open("/data", config.clone(), vec![], vec![], vec![]),
        Err(StateError::UnsupportedSchema)
    ));
    config.schema = 1;
    config.storage.warn_percent = 101;
    assert_eq!(
        State::open("/data", config.clone(), vec![], vec![], vec![]).err().unwrap().message(),
        "warn_percent must be between 1 and 100"
    );
    config.storage.warn_percent = 100;
    assert_eq!(State::open("/data", config, vec![], vec![], vec![]).unwrap().root, "/data");
}

#[test]
fn hashes_and_dates_have_their_known_values() {
    assert_eq!(
        digest(b"abc"),
        "ba7816bf8f01cfea414140de5dae2223b00361a396177a9cb410ff61f20015ad"
    );
    assert_eq!(timestamp(0), "1970-01-01T00:00:00Z");
    assert_eq!(timestamp(1700000000), "2023-11-14T22:13:20Z");
    let s = secret("agsh_pat");
    assert!(s.starts_with("agsh_pat_"));
    assert_eq!(s.len(), 9 + 64);
    assert!(s[9..].bytes().all(|b| b.is_ascii_digit() || (b'a'..=b'f').contains(&b)));
    assert_ne!(s, secret("agsh_pat"));
}

#[test]
fn tokens_are_listed_without_their_values() {
    let mut state = hub();
    let token = state.issue_token("laptop").unwrap();
    assert_eq!(state.pats[0].hash, digest(token.as_bytes()));
    let listed = state.list_tokens();
    assert_eq!(listed[0]["label"], "laptop");
    assert_eq!(listed[0]["revoked"], false);
    assert_eq!(listed[0]["id"], state.pats[0].id.as_str());
    assert!(listed[0].get("hash").is_none());
    assert!(matches!(state.issue_token(""), Err(StateError::Label)));
    assert!(matches!(state.issue_token(&"x".repeat(121)), Err(StateError::Label)));
    assert!(state.issue_token(&"x".repeat(120)).is_ok());
    assert!(matches!(
        state.add_token("again", &token, "other".to_owned()),
        Err(StateError::Duplicate(Unique::PatHash))
    ));
    let id = state.pats[0].id.clone();
    let clash = state.add_token("again", "fresh token", id).err().unwrap();
    assert_eq!(clash.message(), "UNIQUE constraint failed: pats.id");
}

#[test]
fn a_login_lasts_an_hour_and_its_refresh_token_thirty_days() {
    let mut state = hub();
    state.add_token("initial", "secret", "pat-1".to_owned()).unwrap();
    assert!(state.login_at("wrong", 1000, fresh(0)).unwrap().is_none());
    let reply = state.login_at("secret", 1000, fresh(1)).unwrap().unwrap();
    assert_eq!(reply["access_token"], "access-1");
    assert_eq!(reply["refresh_token"], "refresh-1");
    assert_eq!(reply["username"], "ada");
    assert_eq!(reply["access_expires_at"], timestamp(1000 + 3600).as_str());
    assert_eq!(reply["refresh_expires_at"], timestamp(1000 + 30 * 86400).as_str());
    assert!(state.authenticated_at("access-1", 1000 + ACCESS_SECONDS - 1));
    assert!(!state.authenticated_at("access-1", 1000 + ACCESS_SECONDS));
    assert!(!state.authenticated_at("refresh-1", 1000));
    assert!(state
        .refresh_at("refresh-1", 1000 + REFRESH_SECONDS, fresh(2))
        .unwrap()
        .is_none());
}

#[test]
fn a_refresh_token_is_good_once() {
    let mut state = hub();
    state.add_token("initial", "secret", "pat-1".to_owned()).unwrap();
    state.login_at("secret", 0, fresh(1)).unwrap().unwrap();
    let renewed = state.refresh_at("refresh-1", 10, fresh(2)).unwrap().unwrap();
    assert_eq!(renewed["access_token"], "access-2");
    assert!(!state.authenticated_at("access-1", 10));
    assert!(state.authenticated_at("access-2", 10));
    assert!(state.refresh_at("refresh-1", 10, fresh(3)).unwrap().is_none());
    assert!(state.refresh_at("refresh-2", 10, fresh(3)).unwrap().is_some());
}

#[test]
fn revoking_a_token_ends_all_its_sessions_and_no_other() {
    let mut state = hub();
    state.add_token("one", "secret-1", "pat-1".to_owned()).unwrap();
    state.add_token("two", "secret-2", "pat-2".to_owned()).unwrap();
    state.login_at("secret-1", 0, fresh(1)).unwrap().unwrap();
    state.login_at("secret-1", 0, fresh(2)).unwrap().unwrap();
    state.login_at("secret-2", 0, fresh(3)).unwrap().unwrap();
    assert!(matches!(state.revoke_token("pat-9"), Err(StateError::UnknownPat)));
    state.revoke_token("pat-1").unwrap();
    assert!(!state.authenticated_at("access-1", 1));
    assert!(!state.authenticated_at("access-2", 1));
    assert!(state.authenticated_at("access-3", 1));
    assert!(state.login_at("secret-1", 1, fresh(4)).unwrap().is_none());
    assert!(state.refresh_at("refresh-2", 1, fresh(4)).unwrap().is_none());
    assert!(state.refresh_at("refresh-3", 1, fresh(4)).unwrap().is_some());
    assert_eq!(state.list_tokens()[0]["revoked"], true);
    assert_eq!(state.list_tokens()[1]["revoked"], false);
}

#[test]
fn logging_out_ends_one_session() {
    let mut state = hub();
    state.add_token("one", "secret", "pat-1".to_owned()).unwrap();
    state.login_at("secret", 0, fresh(1)).unwrap().unwrap();
    state.login_at("secret", 0, fresh(2)).unwrap().unwrap();
    state.logout("access-1");
    assert!(!state.authenticated_at("access-1", 1));
    assert!(state.authenticated_at("access-2", 1));
}

#[test]
fn now_and_chance_serve_a_real_login() {
    let mut state = hub();
    let token = state.issue_token("initial").unwrap();
    let reply = state.login(&token).unwrap().unwrap();
    let access = reply["access_token"].as_str().unwrap().to_owned();
    assert!(access.starts_with("agsh_access_"));
    assert_eq!(access.len(), "agsh_access_".len() + 64);
    assert!(reply["refresh_token"].as_str().unwrap().starts_with("agsh_refresh_"));
    assert!(state.authenticated(&access));
    let renewed = state.refresh(reply["refresh_token"].as_str().unwrap()).unwrap().unwrap();
    assert!(!state.authenticated(&access));
    assert!(state.authenticated(renewed["access_token"].as_str().unwrap()));
    assert!(state.login("agsh_pat_unknown").unwrap().is_none());
}

#[test]
fn no_session_opens_that_cannot_be_dated() {
    let mut state = hub();
    state.add_token("initial", "secret", "pat-1".to_owned()).unwrap();
    let last = LAST_SECOND - REFRESH_SECONDS;
    for now in [last + 1, i64::MAX, FIRST_SECOND - 1, i64::MIN] {
        assert!(matches!(state.login_at("secret", now, fresh(1)), Err(StateError::Clock)));
        assert!(matches!(state.login_at("wrong", now, fresh(1)), Ok(None)));
        assert!(matches!(state.refresh_at("refresh-1", now, fresh(1)), Ok(None)));
    }
    assert!(state.sessions.is_empty());
    assert!(state.login_at("secret", last, fresh(1)).unwrap().is_some());
    assert!(matches!(state.refresh_at("refresh-1", last + 1, fresh(2)), Err(StateError::Clock)));
    assert!(state.authenticated_at("access-1", last));
    assert!(state.refresh_at("refresh-1", last, fresh(2)).unwrap().is_some());
}

#[test]
fn clashing_sessions_change_nothing() {
    let mut state = hub();
    state.add_token("initial", "secret", "pat-1".to_owned()).unwrap();
    state.login_at("secret", 0, fresh(1)).unwrap().unwrap();
    let mut clash = |id: usize, access: usize, refresh: usize| {
        let drawn =
            Fresh { id: fresh(id).id, access: fresh(access).access, refresh: fresh(refresh).refresh };
        state.login_at("secret", 0, drawn).err().unwrap().message()
    };
    assert_eq!(clash(1, 2, 2), "UNIQUE constraint failed: auth_sessions.id");
    assert_eq!(clash(1, 1, 2), "UNIQUE constraint failed: auth_sessions.access_hash");
    assert_eq!(clash(1, 1, 1), "UNIQUE constraint failed: auth_sessions.refresh_hash");
    assert_eq!(state.sessions.len(), 1);
}

#[test]
fn inconsistent_tables_are_not_opened() {
    let saved = || {
        let mut state = hub();
        state.add_token("one", "secret-1", "pat-1".to_owned()).unwrap();
        state.add_token("two", "secret-2", "pat-2".to_owned()).unwrap();
        state.login_at("secret-1", 0, fresh(1)).unwrap().unwrap();
        state.login_at("secret-2", 0, fresh(2)).unwrap().unwrap();
        state
    };
    let open = |s: State| State::open("/data", s.config, s.pats, s.sessions, s.records);
    assert!(open(saved()).is_ok());
    let mut twice = saved();
    twice.pats[1].hash = twice.pats[0].hash.clone();
    assert!(matches!(open(twice), Err(StateError::Tables)));
    let mut shared = saved();
    shared.sessions[1].access_hash = shared.sessions[0].access_hash.clone();
    assert!(matches!(open(shared), Err(StateError::Tables)));
    let mut orphan = saved();
    orphan.sessions[1].pat_id = "pat-3".to_owned();
    assert_eq!(open(orphan).err().unwrap().message(), "The saved tables are inconsistent");
    let mut old = saved();
    old.config.schema = 2;
    assert!(matches!(open(old), Err(StateError::UnsupportedSchema)));
}
