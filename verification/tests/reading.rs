use agit_selfhost::index::IndexError;
use agit_selfhost::read::{
    check_session, read_remote, turn_bounds, Envelope, ReadRequest, ReadSubject, MAX_READ,
};
use serde_json::Value;

fn pairs(list: &[(&str, &str)]) -> Vec<(String, String)> {
    list.iter().map(|(a, b)| (a.to_string(), b.to_string())).collect()
}

fn request(list: &[(&str, &str)]) -> Result<ReadRequest, String> {
    ReadRequest::parse(&pairs(list)).map_err(|e| e.message())
}

fn subject() -> ReadSubject {
    ReadSubject {
        owner: "ada".to_owned(),
        name: "notes".to_owned(),
        session_id: "s".to_owned(),
        runtime: "codex".to_owned(),
        commit: "abc".to_owned(),
        storage_warning: None,
    }
}

fn envelopes(sizes: &[usize]) -> Vec<Envelope> {
    sizes
        .iter()
        .map(|n| Envelope {
            source: "codex".to_owned(),
            session_id: Value::from("native"),
            content: Value::from("x".repeat(*n)),
        })
        .collect()
}

fn turns(reply: &Value) -> Vec<u64> {
    reply["turns"].as_array().unwrap().iter().map(|t| t["turn"].as_u64().unwrap()).collect()
}

#[test]
fn requests_name_a_reference_and_at_most_fifty_turns() {
    let plain = request(&[("ref", "main")]).unwrap();
    assert_eq!((plain.reference.as_str(), plain.from, plain.to), ("main", 1, 11));
    let range = request(&[("ref", "m"), ("from", "3"), ("to", "53")]).unwrap();
    assert_eq!((range.from, range.to), (3, 53));
    let bad = "Request between 1 and 50 turns, using an exclusive to bound";
    assert_eq!(request(&[]).err().unwrap(), "A saved reference is required");
    assert_eq!(request(&[("ref", "m"), ("from", "x")]).err().unwrap(), "invalid digit found in string");
    assert_eq!(request(&[("ref", "m"), ("to", "")]).err().unwrap(), "cannot parse integer from empty string");
    assert_eq!(request(&[("ref", "m"), ("from", "0")]).err().unwrap(), bad);
    assert_eq!(request(&[("ref", "m"), ("from", "3"), ("to", "3")]).err().unwrap(), bad);
    assert_eq!(request(&[("ref", "m"), ("from", "3"), ("to", "54")]).err().unwrap(), bad);
    assert_eq!(
        request(&[("ref", "m"), ("from", "18446744073709551615")]).err().unwrap(),
        "Turn range overflow"
    );
    assert!(check_session("s", "s").is_ok());
    assert_eq!(
        check_session("s", "t").err().unwrap().message(),
        "Session does not match saved reference"
    );
}

#[test]
fn turns_begin_at_their_first_line() {
    let lines = vec![Some(2), Some(1), None, Some(5), Some(4)];
    let bounds = turn_bounds(&vec![vec![0, 1], vec![2, 3, 4]], &lines, 7).unwrap();
    assert_eq!(bounds, [0, 4, 7]);
    assert_eq!(turn_bounds(&vec![], &lines, 7).unwrap(), [7]);
    assert_eq!(
        turn_bounds(&vec![vec![0], vec![2]], &lines, 7).err().unwrap().message(),
        "Turn has no source line"
    );
    assert_eq!(
        turn_bounds(&vec![vec![0], vec![3], vec![4]], &lines, 7).err().unwrap().message(),
        "Turn source lines are not ordered"
    );
    assert_eq!(turn_bounds(&vec![vec![0], vec![3]], &lines, 4).err(), Some(IndexError::Unordered));
}

#[test]
fn a_read_returns_the_records_of_its_turns() {
    let ask = request(&[("ref", "m"), ("from", "2"), ("to", "3")]).unwrap();
    let reply = read_remote(&subject(), &ask, &envelopes(&[1, 2, 3, 4]), &vec![0, 1, 3, 4]).unwrap();
    assert_eq!(reply["schema"], "agit-selfhost-transcript");
    assert_eq!(reply["schema_version"], 1);
    assert_eq!(reply["agent"], "ada/notes");
    assert_eq!(reply["session_id"], "s");
    assert_eq!(reply["runtime"], "codex");
    assert_eq!(reply["commit"], "abc");
    assert_eq!((&reply["from"], &reply["to"]), (&Value::from(2), &Value::from(3)));
    assert_eq!(reply["total_turns"], 3);
    assert_eq!(turns(&reply), [2]);
    let events = reply["turns"][0]["events"].as_array().unwrap();
    assert_eq!(events.len(), 2);
    assert_eq!(events[0]["line"], 2);
    assert_eq!(events[0]["source"], "codex");
    assert_eq!(events[0]["source_session_id"], "native");
    assert_eq!(events[0]["content"], "xx");
    assert_eq!(events[1]["content"], "xxx");
    assert_eq!(reply["next_from"], 3);
    assert_eq!(reply["truncated"], true);
    assert!(reply["storage_warning"].is_null());
    let warned = ReadSubject { storage_warning: Some("low".to_owned()), ..subject() };
    let reply = read_remote(&warned, &ask, &envelopes(&[1, 2, 3, 4]), &vec![0, 1, 3, 4]).unwrap();
    assert_eq!(reply["storage_warning"], "low");
}

#[test]
fn following_next_from_covers_the_session() {
    let big = MAX_READ / 2;
    let all = envelopes(&[big, big, 10, 10, big]);
    let starts = vec![0, 1, 2, 3, 4, 5];
    let mut seen = Vec::new();
    let mut lines = Vec::new();
    let mut from = Some(1u64);
    while let Some(next) = from {
        let ask = request(&[("ref", "m"), ("from", &next.to_string())]).unwrap();
        let reply = read_remote(&subject(), &ask, &all, &starts).unwrap();
        seen.extend(turns(&reply));
        for turn in reply["turns"].as_array().unwrap() {
            for event in turn["events"].as_array().unwrap() {
                lines.push(event["line"].as_u64().unwrap());
                assert_eq!(event["content"], all[lines.len() - 1].content);
            }
        }
        from = reply["next_from"].as_u64();
        assert_eq!(reply["truncated"].as_bool().unwrap(), from.is_some());
    }
    assert_eq!(seen, [1, 2, 3, 4, 5]);
    assert_eq!(lines, [1, 2, 3, 4, 5]);
    let behind = request(&[("ref", "m"), ("from", "6")]).unwrap();
    let reply = read_remote(&subject(), &behind, &all, &starts).unwrap();
    assert!(turns(&reply).is_empty());
    assert!(reply["next_from"].is_null());
}

#[test]
fn a_turn_that_fits_into_no_reply_is_an_error() {
    let ask = request(&[("ref", "m")]).unwrap();
    assert_eq!(
        read_remote(&subject(), &ask, &envelopes(&[10, MAX_READ]), &vec![0, 1, 2])
            .err()
            .unwrap()
            .message(),
        "A turn exceeds the remote read limit; clone this snapshot for full restoration"
    );
}
