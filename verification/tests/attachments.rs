use agit_selfhost::http::Reply;
use agit_selfhost::lfs::{
    batch_reply, fits_limit, lfs, locking_reply, missing_object, read_batch, valid_oid, verify_reply, LfsRoute,
    LfsUpload,
};
use agit_selfhost::space::{Policy, UploadBudget, MIB};
use agit_selfhost::state::{digest, DataDirectory, Repository, State};
use serde_json::Value;

fn hub(max_upload_mib: u64) -> State {
    State::initialize(
        "/data",
        "ada".to_owned(),
        &None,
        "https://h.example",
        64,
        max_upload_mib,
        Policy::default(),
        DataDirectory { initialized: false, occupied: false },
    )
    .unwrap()
}

fn repo() -> Repository {
    Repository { id: "id-1".to_owned(), owner: "ada".to_owned(), name: "notes".to_owned() }
}

fn json(reply: &Reply) -> Value {
    serde_json::from_slice::<Value>(&reply.body).unwrap()
}

fn budget() -> UploadBudget {
    UploadBudget { remaining: 100 * MIB, reserve: 0 }
}

#[test]
fn object_names_are_lower_case_hashes() {
    assert!(valid_oid(&"0f".repeat(32)));
    assert!(!valid_oid(&"0F".repeat(32)));
    assert!(!valid_oid(&"0".repeat(63)));
    assert!(!valid_oid(&"0".repeat(65)));
    assert!(!valid_oid(&"g".repeat(64)));
    assert!(!valid_oid("../../../../../../../../../../../../../../../../../../../../../../etc"));
}

#[test]
fn requests_are_routed() {
    let oid = "a".repeat(64);
    let object = format!("info/lfs/objects/{oid}");
    assert!(matches!(lfs("GET", "info/lfs/locks/verify"), Ok(LfsRoute::Locking)));
    assert_eq!(locking_reply().status, 404);
    assert_eq!(json(&locking_reply())["message"], "locking is not supported");
    assert!(matches!(lfs("POST", "info/lfs/objects/batch"), Ok(LfsRoute::Batch)));
    assert!(matches!(lfs("GET", &object), Ok(LfsRoute::Download(ref o)) if *o == oid));
    assert!(matches!(lfs("PUT", &object), Ok(LfsRoute::Upload(ref o)) if *o == oid));
    assert!(matches!(
        lfs("POST", &format!("{object}/verify")),
        Ok(LfsRoute::Verify(ref o)) if *o == oid
    ));
    let why = |method: &str, path: &str| {
        let e = lfs(method, path).err().unwrap();
        (e.status, e.message)
    };
    let missing = missing_object();
    assert_eq!((missing.status, missing.message.as_str()), (404, "LFS object not found"));
    assert_eq!(why("GET", "info/lfs/other"), (404, "Unsupported LFS route".to_owned()));
    assert_eq!(why("GET", "info/lfs/objects/batch"), (400, "Invalid LFS object id".to_owned()));
    assert_eq!(why("GET", "info/lfs/objects/x/verify"), (400, "Invalid LFS object id".to_owned()));
    assert_eq!(why("DELETE", &object), (405, "Unsupported LFS method".to_owned()));
    assert_eq!(why("GET", &format!("{object}/verify")), (405, "Unsupported LFS method".to_owned()));
}

#[test]
fn batches_name_objects_within_the_limit() {
    let config = hub(1).config;
    let oid = "b".repeat(64);
    let body = |size: u64| {
        format!("{{\"operation\":\"upload\",\"objects\":[{{\"oid\":\"{oid}\",\"size\":{size}}}]}}")
    };
    let batch = read_batch(&config, body(MIB).as_bytes()).ok().unwrap();
    assert!(batch.upload);
    assert_eq!(batch.objects, vec![(oid.clone(), MIB)]);
    let why = |body: &str| {
        let e = read_batch(&config, body.as_bytes()).err().unwrap();
        (e.status, e.message)
    };
    assert_eq!(why(&body(MIB + 1)), (413, "Invalid or oversized LFS object".to_owned()));
    assert_eq!(why("{}"), (400, "Missing operation".to_owned()));
    assert_eq!(why("{\"operation\":\"x\"}"), (422, "Unsupported LFS operation".to_owned()));
    assert_eq!(why("{\"operation\":\"download\"}"), (400, "Missing LFS objects".to_owned()));
    assert_eq!(
        why("{\"operation\":\"download\",\"objects\":[{}]}"),
        (400, "Missing oid".to_owned())
    );
    assert_eq!(
        why("{\"operation\":\"download\",\"objects\":[{\"oid\":\"x\"}]}"),
        (400, "Invalid LFS size".to_owned())
    );
    assert_eq!(
        why("{\"operation\":\"download\",\"objects\":[{\"oid\":\"x\",\"size\":1}]}"),
        (413, "Invalid or oversized LFS object".to_owned())
    );
    let many = format!("{{\"operation\":\"download\",\"objects\":[0{}]}}", ",0".repeat(1000));
    assert_eq!(why(&many), (413, "Too many LFS objects".to_owned()));
    assert!(fits_limit(&config, MIB));
    assert!(!fits_limit(&config, MIB + 1));
}

#[test]
fn batches_are_answered_by_what_is_stored() {
    let state = hub(1);
    let one = "1".repeat(64);
    let two = "2".repeat(64);
    let ask = |operation: &str| {
        let body = format!(
            "{{\"operation\":\"{operation}\",\"objects\":[{{\"oid\":\"{one}\",\"size\":5}},{{\"oid\":\"{two}\",\"size\":6}}]}}"
        );
        let batch = read_batch(&state.config, body.as_bytes()).ok().unwrap();
        json(&batch_reply(&state, &repo(), "token", &batch, &vec![true, false]))
    };
    let down = ask("download");
    assert_eq!(down["transfer"], "basic");
    assert_eq!(down["hash_algo"], "sha256");
    let got = &down["objects"][0];
    assert_eq!(got["oid"], one.as_str());
    assert_eq!(got["size"], 5);
    assert_eq!(got["authenticated"], true);
    let href = format!("https://h.example/ada/notes.git/info/lfs/objects/{one}");
    assert_eq!(got["actions"]["download"]["href"], href.as_str());
    assert_eq!(got["actions"]["download"]["header"]["Authorization"], "Bearer token");
    assert_eq!(
        got["actions"]["download"]["header"]["X-AgentGit-Expected-Agent-Id"],
        "id-1"
    );
    assert_eq!(down["objects"][1]["error"]["code"], 404);
    assert_eq!(down["objects"][1]["error"]["message"], "LFS object is missing");
    let up = ask("upload");
    assert!(up["objects"][0].get("actions").is_none());
    let steps = &up["objects"][1]["actions"];
    let href = format!("https://h.example/ada/notes.git/info/lfs/objects/{two}");
    assert_eq!(steps["upload"]["href"], href.as_str());
    assert_eq!(steps["verify"]["href"], format!("{href}/verify").as_str());
}

#[test]
fn stored_objects_are_verified_by_name_and_size() {
    let oid = "c".repeat(64);
    let body = format!("{{\"oid\":\"{oid}\",\"size\":5}}");
    assert!(verify_reply(body.as_bytes(), &oid, Some(5)).is_ok());
    let why = |body: &str, stored: Option<u64>| {
        let e = verify_reply(body.as_bytes(), &oid, stored).err().unwrap();
        (e.status, e.message)
    };
    let failed = (422, "LFS verification failed".to_owned());
    assert_eq!(why(&body, Some(6)), failed);
    assert_eq!(why(&body, None), failed);
    assert_eq!(why("{\"oid\":\"x\",\"size\":5}", Some(5)), failed);
    assert_eq!(why("{}", Some(5)), (400, "Missing object size".to_owned()));
}

#[test]
fn an_upload_is_accepted_only_with_the_hash_of_its_name() {
    let config = hub(1).config;
    let oid = digest(b"hello world");
    let mut upload = LfsUpload::new(&config, oid.clone(), budget());
    assert!(upload.part(b"hello ", MIB).is_ok());
    assert!(upload.part(b"world", MIB).is_ok());
    assert!(upload.finish().is_ok());
    let mut other = LfsUpload::new(&config, oid, budget());
    assert!(other.part(b"hello word", MIB).is_ok());
    let e = other.finish().err().unwrap();
    assert_eq!((e.status, e.message.as_str()), (422, "LFS SHA-256 mismatch"));
}

#[test]
fn an_upload_stays_within_its_limit_and_its_budget() {
    let config = hub(1).config;
    let mut upload = LfsUpload::new(&config, "d".repeat(64), budget());
    assert!(upload.part(&vec![0; MIB as usize], 10 * MIB).is_ok());
    let e = upload.part(&[0], 10 * MIB).err().unwrap();
    assert_eq!((e.status, e.message.as_str()), (413, "LFS object exceeds upload limit"));
    let mut poor =
        LfsUpload::new(&config, "d".repeat(64), UploadBudget { remaining: 4, reserve: 0 });
    assert!(poor.part(&[0; 3], MIB).is_ok());
    assert_eq!(poor.part(&[0; 2], MIB).err().unwrap().status, 507);
    assert!(poor.part(&[0; 1], MIB).is_ok());
}
