use agit_selfhost::http::{
    change_policy, create_repository, create_repository_at, empty_reply, endpoint, error,
    failure_reply, handle, handle_at, json_body, login, login_at, read_cleanup, refresh,
    refresh_at, refs_reply, repositories_reply, repository_reply, request_header, requested_name,
    storage_error, string, unprocessable, Action, ApiError, Endpoint, Reply,
    RepositoryPart, Request,
};
use agit_selfhost::json::{texts_in, texts_out};
use agit_selfhost::space::{Policy, SpaceError, StorageLimit};
use agit_selfhost::state::{DataDirectory, Fresh, State};
use serde_json::Value;

fn hub() -> State {
    let mut state = State::initialize(
        "/data",
        "ada".to_owned(),
        &None,
        "https://h.example",
        64,
        256,
        Policy::default(),
        DataDirectory { initialized: false, occupied: false },
    )
    .unwrap();
    state.add_token("initial", "secret", "pat-1".to_owned()).unwrap();
    state.login_at("secret", 0, fresh(1)).unwrap().unwrap();
    let origins = Value::Array(vec![Value::from("git@x:y")]);
    state.create_repo_at("notes", &None, &origins, "id-1".to_owned(), 0).unwrap();
    state.create_repo_at("lab", &None, &Value::Array(vec![]), "id-2".to_owned(), 0).unwrap();
    state
}

fn fresh(n: usize) -> Fresh {
    Fresh {
        id: format!("session-{n}"),
        access: format!("access-{n}"),
        refresh: format!("refresh-{n}"),
    }
}

fn plain(method: &str, target: &str, headers: &[(&str, &str)]) -> Request {
    Request {
        method: method.to_owned(),
        target: target.to_owned(),
        headers: headers.iter().map(|(a, b)| (a.to_string(), b.to_string())).collect(),
    }
}

fn owner(method: &str, target: &str) -> Request {
    plain(method, target, &[("authorization", "Bearer access-1")])
}

fn git(method: &str, target: &str, id: &str) -> Request {
    plain(
        method,
        target,
        &[("Authorization", "Bearer access-1"), ("x-agentgit-expected-agent-id", id)],
    )
}

fn act(request: &Request) -> Action {
    match handle_at(&mut hub(), request, 10) {
        Ok(action) => action,
        Err(e) => panic!("{} {}", e.status, e.message),
    }
}

fn refused(request: &Request) -> (u16, String) {
    match handle_at(&mut hub(), request, 10) {
        Ok(_) => panic!("served"),
        Err(e) => (e.status, e.message),
    }
}

fn json(reply: &Reply) -> Value {
    serde_json::from_slice::<Value>(&reply.body).unwrap()
}

fn failed(result: Result<Reply, ApiError>) -> (u16, String) {
    let e = result.err().unwrap();
    (e.status, e.message)
}

#[test]
fn failures_tell_their_kind_and_nothing_from_inside() {
    let cases = [
        (401, "unauthorized"),
        (403, "forbidden"),
        (404, "not_found"),
        (409, "conflict"),
        (412, "agent_identity_mismatch"),
        (428, "agent_identity_required"),
        (413, "payload_too_large"),
        (507, "request_failed"),
    ];
    for (status, kind) in cases {
        let reply = failure_reply(&error(status, "why"));
        assert_eq!(reply.status, status);
        assert_eq!(json(&reply)["kind"], kind);
        assert_eq!(json(&reply)["error"], "why");
    }
    let inside = failure_reply(&error(500, "a path"));
    assert_eq!(json(&inside)["error"], "Internal Hub error; see server diagnostics");
    assert_eq!(
        inside.headers,
        vec![
            ("Content-Type".to_owned(), "application/json; charset=utf-8".to_owned()),
            ("Cache-Control".to_owned(), "no-store".to_owned()),
        ]
    );
    assert_eq!(Reply::file().headers[0].1, "application/octet-stream");
    assert_eq!(empty_reply(200).body, b"{}");
}

#[test]
fn bodies_and_headers_are_read() {
    let request = plain("GET", "/", &[("X-A", "1"), ("x-a", "2")]);
    assert_eq!(request_header(&request, "X-a").as_deref(), Some("1"));
    assert_eq!(request_header(&request, "X-b"), None);
    assert_eq!(json_body(b"{\"a\":1}").unwrap()["a"], 1);
    let big = json_body(&vec![b' '; 65537]).err().unwrap();
    assert_eq!((big.status, big.message.as_str()), (413, "JSON request exceeds limit"));
    let mut padded = vec![b' '; 65534];
    padded.extend_from_slice(b"{}");
    assert!(json_body(&padded).is_ok());
    let broken = json_body(b"{").err().unwrap();
    assert_eq!((broken.status, broken.message.as_str()), (400, "Invalid JSON body"));
    let value = serde_json::from_str::<Value>("{\"a\":\"x\",\"b\":1}").unwrap();
    assert_eq!(string(&value, "a").unwrap(), "x");
    assert_eq!(string(&value, "b").err().unwrap().message, "Missing b");
}

#[test]
fn paths_name_endpoints() {
    assert!(matches!(endpoint("GET", "/api/health"), Endpoint::Health));
    assert!(matches!(endpoint("POST", "/api/auth/login"), Endpoint::Login));
    assert!(matches!(endpoint("GET", "/api/auth/login"), Endpoint::Unsupported));
    assert!(matches!(endpoint("GET", "/api/agents"), Endpoint::Repositories { for_repo: false }));
    assert!(matches!(
        endpoint("GET", "/api/agents/for-repo"),
        Endpoint::Repositories { for_repo: true }
    ));
    assert!(matches!(endpoint("POST", "/api/agents"), Endpoint::CreateRepository));
    assert!(matches!(endpoint("PATCH", "/api/storage/policy"), Endpoint::StoragePolicy));
    assert!(matches!(
        endpoint("GET", "//api/agents/ada/notes"),
        Endpoint::Repository { part: RepositoryPart::Info, .. }
    ));
    assert!(matches!(
        endpoint("GET", "/api/agents/ada/notes/sessions/s1"),
        Endpoint::Repository { part: RepositoryPart::Session(ref s), .. } if s == "s1"
    ));
    assert!(matches!(
        endpoint("POST", "/ada/notes.git/info/lfs/objects/batch"),
        Endpoint::Git { ref owner, ref name, ref suffix }
            if owner == "ada" && name == "notes" && suffix == "info/lfs/objects/batch"
    ));
    assert!(matches!(endpoint("GET", "/ada/notes.git"), Endpoint::Unsupported));
    assert!(matches!(endpoint("GET", "/"), Endpoint::Unsupported));
}

#[test]
fn health_needs_no_credentials() {
    let action = act(&plain("GET", "/api/health", &[]));
    assert!(action.is_open());
    match action {
        Action::Health(reply) => {
            let body = json(&reply);
            assert_eq!(body["status"], "ok");
            assert_eq!(body["selfhost"], true);
            assert_eq!(body["version"], "0.2.0");
        }
        _ => panic!("health"),
    }
    assert!(matches!(act(&plain("POST", "/api/auth/login", &[])), Action::Login));
    assert!(matches!(act(&plain("POST", "/api/auth/refresh", &[])), Action::Refresh));
}

#[test]
fn everything_else_needs_a_good_access_token() {
    for target in ["/api/agents", "/api/storage", "/ada/notes.git/info/refs", "/nowhere"] {
        assert_eq!(
            refused(&plain("GET", target, &[])),
            (401, "Bearer authentication required".to_owned())
        );
        assert_eq!(
            refused(&plain("GET", target, &[("Authorization", "Bearer other")])),
            (401, "Invalid or expired access token".to_owned())
        );
        assert_eq!(
            refused(&plain("GET", target, &[("Authorization", "bearer access-1")])).0,
            401
        );
    }
    let mut state = hub();
    let late = handle_at(&mut state, &owner("GET", "/api/agents"), 3600).err().unwrap();
    assert_eq!(late.status, 401);
    state.revoke_token("pat-1").unwrap();
    assert_eq!(handle_at(&mut state, &owner("GET", "/api/agents"), 10).err().unwrap().status, 401);
}

#[test]
fn targets_are_bounded_urls() {
    let long = format!("/api/health?{}", "x".repeat(8192));
    assert_eq!(refused(&plain("GET", &long, &[])), (414, "Request URL is too long".to_owned()));
    assert_eq!(
        refused(&plain("GET", ":x/", &[])),
        (400, "Invalid request URL".to_owned())
    );
}

#[test]
fn the_owner_is_served() {
    match act(&owner("GET", "/api/auth/me")) {
        Action::Reply(reply) => assert_eq!(json(&reply)["username"], "ada"),
        _ => panic!("me"),
    }
    match act(&owner("GET", "/api/search/sessions?q=a%20b&q=c")) {
        Action::Search { params } => assert_eq!(
            params,
            vec![("q".to_owned(), "a b".to_owned()), ("q".to_owned(), "c".to_owned())]
        ),
        _ => panic!("search"),
    }
    assert!(matches!(act(&owner("POST", "/api/agents")), Action::CreateRepository));
    assert!(matches!(act(&owner("GET", "/api/storage")), Action::StorageStatus));
    assert!(matches!(act(&owner("PATCH", "/api/storage/policy")), Action::StoragePolicy));
    assert!(matches!(act(&owner("POST", "/api/storage/cleanup")), Action::StorageCleanup));
    assert!(matches!(
        act(&owner("GET", "/api/agents/ada/notes")),
        Action::Repository { repo } if repo.id == "id-1"
    ));
    assert!(matches!(
        act(&owner("GET", "/api/agents/ada/notes/refs")),
        Action::Refs { repo } if repo.id == "id-1"
    ));
    assert!(matches!(
        act(&owner("GET", "/api/agents/ada/notes/sessions/s?ref=m")),
        Action::Session { session, .. } if session == "s"
    ));
    assert_eq!(
        refused(&owner("GET", "/api/agents/ada/none")),
        (404, "Repository not found".to_owned())
    );
    assert_eq!(
        refused(&owner("DELETE", "/api/agents/ada/notes")),
        (404, "Unsupported repository operation".to_owned())
    );
    assert_eq!(refused(&owner("GET", "/nowhere")), (404, "Unsupported operation".to_owned()));
}

#[test]
fn logging_out_over_http_ends_the_session() {
    let mut state = hub();
    assert!(handle_at(&mut state, &owner("POST", "/api/auth/logout"), 10).is_ok());
    assert_eq!(handle_at(&mut state, &owner("GET", "/api/auth/me"), 10).err().unwrap().status, 401);
}

#[test]
fn git_needs_the_identity_of_its_repository() {
    let refs = "/ada/notes.git/info/refs?service=git-upload-pack";
    assert_eq!(
        refused(&owner("GET", refs)),
        (428, "Expected repository identity required".to_owned())
    );
    assert_eq!(
        refused(&git("GET", refs, "id-2")),
        (412, "Repository identity mismatch".to_owned())
    );
    match act(&git("GET", refs, "id-1")) {
        Action::Git { repo, suffix, query } => {
            assert_eq!(repo.id, "id-1");
            assert_eq!(suffix, "info/refs");
            assert_eq!(query, "service=git-upload-pack");
        }
        _ => panic!("git"),
    }
    assert!(matches!(
        act(&git("POST", "/ada/notes.git/git-receive-pack", "id-1")),
        Action::Git { query, .. } if query.is_empty()
    ));
    assert!(matches!(
        act(&git("PUT", "/ada/notes.git/info/lfs/objects/x", "id-1")),
        Action::Lfs { access, .. } if access == "access-1"
    ));
    assert_eq!(
        refused(&git("GET", "/ada/notes.git/info/refs?service=other", "id-1")),
        (400, "Smart HTTP service required".to_owned())
    );
    assert_eq!(
        refused(&git("GET", "/ada/notes.git/HEAD", "id-1")),
        (404, "Unsupported Git operation".to_owned())
    );
    assert_eq!(refused(&git("GET", "/ada/none.git/info/refs", "id-1")).0, 404);
}

#[test]
fn logins_and_refreshes_are_answered() {
    let mut state = hub();
    let reply = login_at(&mut state, b"{\"token\":\"secret\"}", 0, fresh(2)).unwrap();
    assert_eq!(json(&reply)["access_token"], "access-2");
    assert_eq!(
        failed(login_at(&mut state, b"{\"token\":\"no\"}", 0, fresh(3))),
        (401, "Invalid or revoked PAT".to_owned())
    );
    assert_eq!(failed(login_at(&mut state, b"{}", 0, fresh(3))), (400, "Missing token".to_owned()));
    assert_eq!(
        failed(login_at(&mut state, b"{\"token\":\"secret\"}", 0, fresh(2))),
        (500, "UNIQUE constraint failed: auth_sessions.refresh_hash".to_owned())
    );
    assert_eq!(
        failed(login_at(&mut state, b"{\"token\":\"secret\"}", i64::MAX, fresh(3))),
        (500, "The clock is outside the supported range".to_owned())
    );
    assert_eq!(
        failed(login_at(&mut state, b"{\"token\":\"no\"}", i64::MAX, fresh(3))).0,
        401
    );
    let renewed = refresh_at(&mut state, b"{\"refresh_token\":\"refresh-2\"}", 1, fresh(4)).unwrap();
    assert_eq!(json(&renewed)["refresh_token"], "refresh-4");
    assert_eq!(
        failed(refresh_at(&mut state, b"{\"refresh_token\":\"refresh-2\"}", 1, fresh(5))),
        (401, "Invalid or expired refresh token".to_owned())
    );
    assert_eq!(
        failed(refresh_at(&mut state, b"{}", 1, fresh(5))),
        (400, "Missing refresh_token".to_owned())
    );
    let now = json(&login(&mut state, b"{\"token\":\"secret\"}").unwrap());
    let again = format!("{{\"refresh_token\":{}}}", now["refresh_token"]);
    assert!(refresh(&mut state, again.as_bytes()).is_ok());
    let access = format!("Bearer {}", now["access_token"].as_str().unwrap());
    let gone = handle(&mut state, &plain("GET", "/api/auth/me", &[("Authorization", &access)]));
    assert_eq!(gone.err().unwrap().status, 401);
    assert_eq!(failed(login(&mut state, b"[]")), (400, "Missing token".to_owned()));
    assert_eq!(failed(refresh(&mut state, b"")), (400, "Invalid JSON body".to_owned()));
}

#[test]
fn repositories_are_created_over_http() {
    let mut state = hub();
    let body = b"{\"name\":\"new\",\"public\":false,\"repo_origins\":[\"o\"]}";
    assert_eq!(requested_name(body).as_deref(), Some("new"));
    assert_eq!(requested_name(b"{}"), None);
    let (repo, reply) =
        create_repository_at(&mut state, body, &None, "id-3".to_owned(), 7).ok().unwrap();
    assert_eq!(repo.id, "id-3");
    assert_eq!(reply.status, 201);
    assert_eq!(json(&reply)["push_url"], "https://h.example/ada/new.git");
    assert_eq!(json(&reply)["web_url"], "https://h.example/api/agents/ada/new");
    assert_eq!(json(&reply)["agent_id"], "id-3");
    assert_eq!(state.records[2].origins, b"[\"o\"]");
    let mut why = |body: &str, refused: Option<&str>| {
        let e = create_repository(&mut state, body.as_bytes(), &refused.map(str::to_owned))
            .err()
            .unwrap();
        (e.status, e.message)
    };
    let cases = [
        (why("{\"public\":true}", None), 403, "Only private repositories are supported"),
        (why("{\"public\":null}", None), 403, "Only private repositories are supported"),
        (why("{\"owner\":\"bob\"}", None), 403, "Only the configured owner is supported"),
        (why("{}", None), 400, "Missing name"),
        (why("{\"name\":\" x\"}", None), 400, "Invalid repository or owner name"),
        (why("{\"name\":\"x\"}", Some("reserved")), 400, "reserved"),
        (why("{\"name\":\"notes\"}", None), 409, "Repository already exists"),
        (why("{\"name\":\"x\",\"repo_origins\":1}", None), 500, "repo_origins must be an array"),
    ];
    for ((status, message), want, text) in cases {
        assert_eq!((status, message.as_str()), (want, text));
    }
    assert!(create_repository(&mut state, b"{\"name\":\"x\",\"owner\":\"ada\"}", &None).is_ok());
}

#[test]
fn repositories_are_listed_over_http() {
    let state = hub();
    let counts = vec![("id-1".to_owned(), 4)];
    let list = |params: &[(&str, &str)], for_repo: bool| {
        let params: Vec<_> =
            params.iter().map(|(a, b)| (a.to_string(), b.to_string())).collect();
        repositories_reply(&state, &params, for_repo, &counts)
    };
    let all = json(&list(&[], false).unwrap());
    assert_eq!(all[0]["name"], "lab");
    assert_eq!(all[0]["session_count"], 0);
    assert_eq!(all[1]["name"], "notes");
    assert_eq!(all[1]["session_count"], 4);
    assert_eq!(json(&list(&[("owner", "bob")], false).unwrap()), Value::Array(vec![]));
    let from = json(&list(&[("origin", "git@x:y")], true).unwrap());
    assert_eq!(from.as_array().unwrap().len(), 1);
    assert_eq!(from[0]["agent_id"], "id-1");
    assert_eq!(failed(list(&[], true)), (400, "Missing origin".to_owned()));
    assert!(list(&[("owner", "bob")], true).is_ok());
    assert_eq!(json(&list(&[("origin", "git@x:z")], true).unwrap()), Value::Array(vec![]));
    let repo = state.repository("ada", "notes").unwrap();
    assert_eq!(json(&repository_reply(&state, &repo, &counts))["session_count"], 4);
    let refs = json(&refs_reply("refs/heads/main abc\nodd\n"));
    assert_eq!(refs["items"].as_array().unwrap().len(), 1);
    assert_eq!(refs["items"][0]["name"], "refs/heads/main");
    assert_eq!(refs["items"][0]["commit"], "abc");
}

#[test]
fn the_storage_policy_changes_at_once() {
    let mut state = hub();
    let reply = change_policy(&mut state, b"{\"quota_mib\":10240,\"warn_percent\":90}").unwrap();
    assert_eq!(json(&reply)["quota_mib"], 10240);
    assert_eq!(json(&reply)["min_free_mib"], 3072);
    assert_eq!(state.config.storage.warn_percent, 90);
    assert_eq!(
        failed(change_policy(&mut state, b"{\"warn_percent\":0}")),
        (422, "warn_percent must be between 1 and 100".to_owned())
    );
    assert_eq!(
        failed(change_policy(&mut state, b"{\"other\":0}")),
        (400, "Invalid storage policy".to_owned())
    );
    assert_eq!(state.config.storage.warn_percent, 90);
    assert_eq!(read_cleanup(b"{}").ok(), Some(false));
    assert_eq!(read_cleanup(b"{\"apply\":true}").ok(), Some(true));
    assert_eq!(read_cleanup(b"{\"apply\":1}").err().unwrap().status, 400);
}

#[test]
fn used_up_storage_is_told_by_its_status() {
    let fault = unprocessable("why");
    assert_eq!((fault.status, fault.message.as_str()), (422, "why"));
    let over = storage_error(&SpaceError::Limit(StorageLimit("full".to_owned())));
    assert_eq!((over.status, over.message.as_str()), (507, "full"));
    assert_eq!(storage_error(&SpaceError::SizeOverflow).status, 500);
}

#[test]
fn unreadable_origins_fail_only_the_listing_by_origin() {
    let mut state = hub();
    state.records[0].origins = b"[1]".to_vec();
    let origin = vec![("origin".to_owned(), "git@x:y".to_owned())];
    let e = repositories_reply(&state, &origin, true, &vec![]).err().unwrap();
    assert_eq!(
        (e.status, e.message.as_str()),
        (500, "invalid type: integer `1`, expected a string at line 1 column 2")
    );
    assert_eq!(json(&repositories_reply(&state, &vec![], false, &vec![]).unwrap())[1]["name"], "notes");
}

#[test]
fn lists_of_texts_are_written_and_read_back() {
    let list = vec!["a\"b".to_owned(), "\u{e9}\n".to_owned()];
    let bytes = texts_out(&list);
    assert_eq!(String::from_utf8(bytes.clone()).unwrap(), "[\"a\\\"b\",\"\u{e9}\\n\"]");
    assert_eq!(texts_in(&bytes), Ok(list));
    assert_eq!(texts_in(b" [ ] "), Ok(vec![]));
    assert!(texts_in(b"{}").unwrap_err().starts_with("invalid type: map, expected a sequence"));
    assert_eq!(texts_in(b"[\"a\"").unwrap_err(), "EOF while parsing a list at line 1 column 4");
}
