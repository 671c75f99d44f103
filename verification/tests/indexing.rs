use agit_selfhost::index::{
    history, holds_session, index_snapshot, published_refs, reindex, saved, scope, Event,
    EventKind, EventScope, IndexError, IndexPass, Rebuild, ScopeLabel, ScopeLabels, MAX_TEXT,
};
use agit_selfhost::space::Policy;
use agit_selfhost::state::{digest, DataDirectory, State};
use serde_json::Value;

fn label(name: &str, secondhand: bool) -> ScopeLabel {
    ScopeLabel { name: name.to_owned(), secondhand }
}

fn labels() -> ScopeLabels {
    ScopeLabels {
        prompt: label("prompt", false),
        reply: label("reply", false),
        tool: label("tool", false),
        output: label("output", true),
        edit: label("edit", false),
        summary: label("summary", true),
    }
}

fn event(kind: EventKind, text: Option<&str>, line: Option<usize>) -> Event {
    Event { kind, text: text.map(str::to_owned), line, tool: None, paths: vec![] }
}

#[test]
fn each_kind_of_event_has_its_scope() {
    let cases = [
        (EventKind::UserPrompt, Some(EventScope::Prompt)),
        (EventKind::UserInterjection, Some(EventScope::Prompt)),
        (EventKind::AssistantReply, Some(EventScope::Reply)),
        (EventKind::ToolUse, Some(EventScope::Tool)),
        (EventKind::ToolResult, Some(EventScope::Output)),
        (EventKind::FileEdit, Some(EventScope::Edit)),
        (EventKind::CompactFiltered, Some(EventScope::Summary)),
        (EventKind::CompactSummary, Some(EventScope::Summary)),
        (EventKind::Other, None),
    ];
    for (kind, want) in cases {
        assert_eq!(scope(kind), want);
    }
}

#[test]
fn references_and_history_are_read_from_listings() {
    assert_eq!(
        published_refs("refs/heads/main abc\nrefs/tags/v 1 2\n").unwrap(),
        vec![
            ("refs/heads/main".to_owned(), "abc".to_owned()),
            ("refs/tags/v".to_owned(), "1 2".to_owned()),
        ]
    );
    assert_eq!(published_refs("a b\nbroken\n").err(), Some(IndexError::RefListing));
    assert_eq!(history("a\nb\n").unwrap(), ["a", "b"]);
    assert_eq!(history(&"x\n".repeat(100000)).unwrap().len(), 100000);
    assert_eq!(
        history(&"x\n".repeat(100001)).err().unwrap().message(),
        "History exceeds the indexing limit"
    );
    assert!(holds_session(false, "s"));
    assert!(!holds_session(true, "s"));
    assert!(!holds_session(false, ""));
}

#[test]
fn saved_times_are_dates() {
    let good = saved("1700000000\nAda\nada@example.com\n").unwrap();
    assert_eq!(good.at, 1700000000);
    assert_eq!(good.author, "Ada");
    assert_eq!(good.email, "ada@example.com");
    let bare = saved("-5").unwrap();
    assert_eq!((bare.at, bare.author.as_str(), bare.email.as_str()), (-5, "", ""));
    assert_eq!(saved("").err().unwrap().message(), "Missing saved time");
    assert_eq!(saved("x").err().unwrap().message(), "invalid digit found in string");
    assert!(saved("8210266876799").is_ok());
    assert!(saved("-8334601228800").is_ok());
    assert_eq!(saved("8210266876800").err(), Some(IndexError::SavedRange));
    assert_eq!(
        saved("-8334601228801").err().unwrap().message(),
        "Saved timestamp is outside the supported range"
    );
}

#[test]
fn a_snapshot_is_saved_event_by_event() {
    let mut edit = event(EventKind::FileEdit, Some("Patch"), Some(1));
    edit.tool = Some("Edit".to_owned());
    edit.paths = vec!["src/A.rs".to_owned()];
    let events = vec![
        event(EventKind::UserPrompt, Some("HELLO"), Some(0)),
        event(EventKind::Other, Some("skipped"), None),
        edit,
        event(EventKind::ToolResult, None, Some(9)),
    ];
    let raw = vec!["{0}".to_owned(), "{1}".to_owned()];
    let turns = vec![vec![0, 2], vec![2]];
    let made = index_snapshot(&events, &labels(), &raw, &turns);
    assert!(made.complete);
    assert_eq!(made.rows.len(), 3);
    assert_eq!(made.rows[0].text, "HELLO\n{0}");
    assert_eq!(made.rows[0].search_text, "hello\n{0}");
    assert_eq!(made.rows[0].scope, "prompt");
    assert_eq!((made.rows[0].ordinal, made.rows[0].line, made.rows[0].turn), (0, 1, 1));
    assert_eq!(
        made.rows[0].key,
        digest("[\"prompt\",\"HELLO\\n{0}\",null,[]]".as_bytes())
    );
    assert_eq!((made.rows[1].ordinal, made.rows[1].line, made.rows[1].turn), (2, 2, 2));
    assert_eq!(made.rows[1].tool.as_deref(), Some("Edit"));
    assert_eq!(
        made.rows[1].key,
        digest("[\"edit\",\"Patch\\n{1}\",\"Edit\",[\"src/A.rs\"]]".as_bytes())
    );
    assert_eq!(made.rows[2].text, "\n");
    assert_eq!((made.rows[2].line, made.rows[2].turn), (10, 0));
    assert!(made.rows[2].secondhand);
}

#[test]
fn a_too_long_text_is_cut_and_nothing_behind_it_is_lost() {
    let long = "é".repeat(MAX_TEXT / 2);
    let events = vec![
        event(EventKind::AssistantReply, Some(&long), None),
        event(EventKind::UserPrompt, Some("after"), None),
    ];
    let made = index_snapshot(&events, &labels(), &vec![], &vec![]);
    assert!(!made.complete);
    assert_eq!(made.rows.len(), 2);
    assert_eq!(made.rows[0].text.len(), MAX_TEXT);
    assert_eq!(made.rows[1].text, "after\n");
    let fits = vec![event(EventKind::AssistantReply, Some(&long[2..]), None)];
    assert!(index_snapshot(&fits, &labels(), &vec![], &vec![]).complete);
}

#[test]
fn a_pass_goes_on_behind_a_failure_and_reports_it() {
    let commits = vec!["a".to_owned(), "b".to_owned()];
    let mut pass = IndexPass::start(commits.clone());
    assert_eq!(pass.next().as_deref(), Some("a"));
    pass.record(false);
    assert_eq!(pass.next().as_deref(), Some("b"));
    pass.record(true);
    assert_eq!(pass.next(), None);
    let (dirty, outcome) = reindex(pass, false);
    assert!(dirty);
    assert_eq!(
        outcome.err().unwrap().message(),
        "Search index remains incomplete; valid history is searchable and original Git data is retained"
    );
    let mut clean = IndexPass::start(commits);
    clean.record(true);
    clean.record(true);
    assert_eq!(reindex(clean, false), (false, Ok(())));
    assert_eq!(reindex(IndexPass::start(vec![]), true), (true, Err(IndexError::Incomplete)));
}

#[test]
fn a_rebuild_takes_every_repository_and_reports_a_failure() {
    let mut state = State::initialize(
        "/data",
        "ada".to_owned(),
        &None,
        "https://h.example",
        64,
        1,
        Policy::default(),
        DataDirectory { initialized: false, occupied: false },
    )
    .unwrap();
    assert!(Rebuild::start(&state).finish().is_ok());
    for name in ["notes", "archive"] {
        state
            .create_repo_at(name, &None, &Value::Array(vec![]), format!("id-{name}"), 5)
            .unwrap();
    }
    let mut rebuild = Rebuild::start(&state);
    let first = rebuild.next().unwrap();
    assert_eq!((first.id.as_str(), first.name.as_str()), ("id-archive", "archive"));
    rebuild.record(false);
    assert_eq!(rebuild.next().unwrap().name, "notes");
    rebuild.record(true);
    assert!(rebuild.next().is_none());
    assert_eq!(
        rebuild.finish().err().unwrap().message(),
        "Rebuild completed with incomplete indexes; inspect the diagnostics"
    );
    let mut clean = Rebuild::start(&state);
    clean.record(true);
    clean.record(true);
    assert!(clean.finish().is_ok());
}
