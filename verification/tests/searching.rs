use agit_selfhost::index::IndexError;
use agit_selfhost::search::{
    index_query, matching, search, time_filter, Search, SearchQuery, SearchRequest, SearchRow, Sort,
    Verdict, MAX_ROWS,
};
use serde_json::Value;

const YES: Verdict = Verdict { turns: true, scope: true, text: true };

fn pairs(list: &[(&str, &str)]) -> Vec<(String, String)> {
    list.iter().map(|(a, b)| (a.to_string(), b.to_string())).collect()
}

fn any() -> SearchQuery {
    SearchQuery { owner: None, agent: None, runtime: None, visibility: None, tool: None, path: None }
}

fn request(list: &[(&str, &str)]) -> SearchRequest {
    SearchRequest::parse(&pairs(list), false).unwrap()
}

fn row(session: &str, saved: i64) -> SearchRow {
    SearchRow {
        owner: "ada".to_owned(),
        name: "notes".to_owned(),
        session: session.to_owned(),
        runtime: "codex".to_owned(),
        oid: "abc".to_owned(),
        saved,
        author: "Ada".to_owned(),
        email: "ada@example.com".to_owned(),
        origin: Some("git@x:y".to_owned()),
        turns: 3,
        scope: "prompt".to_owned(),
        text: "text".to_owned(),
        tool: Some("Edit".to_owned()),
        paths: vec!["src/Main.rs".to_owned()],
        secondhand: false,
        line: 4,
        turn: 2,
    }
}

fn answer(list: &[(&str, &str)], rows: Vec<SearchRow>) -> Value {
    let candidates = rows.into_iter().map(|row| (row, YES)).collect();
    search(
        any(),
        request(list),
        "https://h.example",
        false,
        candidates,
        &pairs(list),
        &vec!["term".to_owned()],
        Value::Array(vec![]),
    )
}

fn sessions(answer: &Value) -> Vec<String> {
    answer["items"]
        .as_array()
        .unwrap()
        .iter()
        .map(|i| i["session_id"].as_str().unwrap().to_owned())
        .collect()
}

fn problem(list: &[(&str, &str)]) -> String {
    SearchRequest::parse(&pairs(list), false).err().unwrap().message()
}

#[test]
fn requests_have_defaults_and_limits() {
    let plain = request(&[]);
    assert_eq!((plain.page, plain.per, plain.sort), (1, 10, Sort::Best));
    let full = request(&[
        ("page", "100000"),
        ("per", "100"),
        ("sort", "turns"),
        ("since", "2023-11-14T22:13:20Z"),
        ("before", "2023-11-14T23:13:20+01:00"),
        ("author", "ada"),
        ("code_origin", "o"),
    ]);
    assert_eq!(full.since, Some(1700000000));
    assert_eq!(full.before, Some(1700000000));
    assert_eq!(full.author.as_deref(), Some("ada"));
    assert_eq!(
        SearchRequest::parse(&pairs(&[]), true).err().unwrap().message(),
        "Unsupported category, state or fork filter"
    );
    assert_eq!(problem(&[("scope", "")]), "Organization scope is unsupported");
    assert_eq!(problem(&[("page", "x")]), "invalid digit found in string");
    assert_eq!(problem(&[("per", "")]), "cannot parse integer from empty string");
    assert_eq!(problem(&[("page", "0")]), "Invalid pagination");
    assert_eq!(problem(&[("page", "100001")]), "Invalid pagination");
    assert_eq!(problem(&[("per", "101")]), "Invalid pagination");
    assert_eq!(problem(&[("sort", "worst")]), "Unsupported sort");
    assert_eq!(problem(&[("since", "yesterday")]), "Time filters must be RFC3339 timestamps");
    assert_eq!(problem(&[("before", "2023")]), "Time filters must be RFC3339 timestamps");
    assert_eq!(time_filter(&None), Ok(None));
    assert_eq!(time_filter(&Some("no".to_owned())), Err(IndexError::TimeFilter));
}

#[test]
fn the_text_index_is_asked_for_long_terms() {
    let terms = vec!["ab".to_owned(), "abc".to_owned(), "say \"hi\"".to_owned(), "世界人".to_owned()];
    assert_eq!(index_query(&terms), "\"abc\" AND \"say \"\"hi\"\"\" AND \"世界人\"");
    assert_eq!(index_query(&vec!["ab".to_owned()]), "");
}

#[test]
fn every_filter_can_turn_a_row_away() {
    let some = |s: &str| Some(s.to_owned());
    let all = request(&[]);
    let r = row("s", 1000);
    let query = |q: SearchQuery| matching(&q, &all, &r, YES);
    assert!(query(any()));
    assert!(query(SearchQuery { owner: some("ada"), ..any() }));
    assert!(!query(SearchQuery { owner: some("bob"), ..any() }));
    assert!(query(SearchQuery { agent: some("notes"), ..any() }));
    assert!(query(SearchQuery { agent: some("ada/notes"), ..any() }));
    assert!(!query(SearchQuery { agent: some("bob/notes"), ..any() }));
    assert!(!query(SearchQuery { runtime: some("other"), ..any() }));
    assert!(query(SearchQuery { visibility: some("private"), ..any() }));
    assert!(!query(SearchQuery { visibility: some("public"), ..any() }));
    assert!(query(SearchQuery { tool: some("eDIT"), ..any() }));
    assert!(!query(SearchQuery { tool: some("Bash"), ..any() }));
    assert!(query(SearchQuery { path: some("MAIN"), ..any() }));
    assert!(!query(SearchQuery { path: some("lib"), ..any() }));
    for v in [
        Verdict { turns: false, ..YES },
        Verdict { scope: false, ..YES },
        Verdict { text: false, ..YES },
    ] {
        assert!(!matching(&any(), &all, &r, v));
    }
    let by = |list: &[(&str, &str)]| matching(&any(), &request(list), &r, YES);
    assert!(by(&[("since", "1970-01-01T00:16:40Z")]));
    assert!(!by(&[("since", "1970-01-01T00:16:41Z")]));
    assert!(!by(&[("before", "1970-01-01T00:16:40Z")]));
    assert!(by(&[("before", "1970-01-01T00:16:41Z")]));
    assert!(by(&[("author", "ADA")]));
    assert!(by(&[("author", "Ada@Example.com")]));
    assert!(!by(&[("author", "bob")]));
    assert!(by(&[("code_origin", "git@x:y")]));
    assert!(!by(&[("code_origin", "git@x:Y")]));
    let bare = SearchRow { tool: None, origin: None, ..row("s", 0) };
    assert!(!matching(&SearchQuery { tool: some("Edit"), ..any() }, &all, &bare, YES));
    assert!(!matching(&any(), &request(&[("code_origin", "o")]), &bare, YES));
}

#[test]
fn a_session_is_one_hit_that_counts_its_further_events() {
    let long = SearchRow { text: "é".repeat(900), ..row("s", 1700000000) };
    let found = answer(&[("author", "ada")], vec![long, row("s", 5), row("t", 9)]);
    assert_eq!(found["type"], "sessions");
    assert_eq!(found["total"], 2);
    assert_eq!(found["page"], 1);
    assert_eq!(found["per"], 10);
    assert_eq!(found["incomplete"], false);
    assert_eq!(found["terms"][0], "term");
    assert_eq!(found["applied_filters"]["author"], "ada");
    assert_eq!(found["applied_filters"].as_object().unwrap().len(), 1);
    let hit = &found["items"][0];
    assert_eq!(hit["agent"], "ada/notes");
    assert_eq!(hit["session_id"], "s");
    assert_eq!(hit["excerpt"], "é".repeat(800).as_str());
    assert_eq!(
        hit["url"],
        "https://h.example/api/agents/ada/notes/sessions/s?ref=abc&from=2&to=3&detail=inline"
    );
    assert_eq!(hit["timestamp"], "2023-11-14T22:13:20Z");
    assert_eq!(hit["other_hits"], 1);
    assert_eq!(hit["outcome"], "unknown");
    assert_eq!(hit["commit"], "abc");
    assert_eq!(hit["turn"], 2);
    assert_eq!(hit["line"], 4);
    assert_eq!(hit["turns"], 3);
    assert_eq!(hit["tool"], "Edit");
    assert_eq!(hit["paths"][0], "src/Main.rs");
    assert_eq!(hit["secondhand"], false);
    let early = answer(&[], vec![SearchRow { turn: 0, ..row("s", 0) }]);
    assert!(early["items"][0]["url"].as_str().unwrap().contains("&from=1&to=2&"));
}

#[test]
fn hits_are_ordered_as_asked() {
    let rows = || {
        vec![
            SearchRow { turns: 1, secondhand: true, ..row("a", 500) },
            SearchRow { turns: 9, ..row("c", 100) },
            SearchRow { turns: 5, ..row("b", 100) },
            SearchRow { turns: 9, ..row("d", 200) },
        ]
    };
    assert_eq!(sessions(&answer(&[], rows())), ["d", "b", "c", "a"]);
    assert_eq!(sessions(&answer(&[("sort", "recent")], rows())), ["a", "d", "b", "c"]);
    assert_eq!(sessions(&answer(&[("sort", "turns")], rows())), ["d", "c", "b", "a"]);
}

#[test]
fn pages_hold_the_hits_one_after_another() {
    let rows = || (0..5).map(|i| row(&format!("s{i}"), 100 - i)).collect::<Vec<_>>();
    assert_eq!(sessions(&answer(&[("per", "2")], rows())), ["s0", "s1"]);
    assert_eq!(sessions(&answer(&[("per", "2"), ("page", "3")], rows())), ["s4"]);
    let behind = answer(&[("per", "2"), ("page", "4")], rows());
    assert!(sessions(&behind).is_empty());
    assert_eq!(behind["total"], 5);
}

#[test]
fn a_search_looks_at_a_bounded_number_of_rows() {
    let mut running = Search::start(any(), request(&[]), "", false);
    for _ in 0..MAX_ROWS {
        assert!(running.take(row("s", 0), YES));
    }
    assert!(!running.take(row("t", 0), YES));
    let found = running.finish(&vec![], &vec![], Value::Null);
    assert_eq!(found["total"], 1);
    assert_eq!(found["incomplete"], true);
    assert_eq!(found["items"][0]["other_hits"], MAX_ROWS - 1);
    let dirty = Search::start(any(), request(&[]), "", true);
    assert_eq!(dirty.finish(&vec![], &vec![], Value::Null)["incomplete"], true);
    let many = (0..=MAX_ROWS).map(|_| (row("s", 0), YES)).collect();
    let whole =
        search(any(), request(&[]), "", false, many, &vec![], &vec![], Value::Null);
    assert_eq!(whole["incomplete"], true);
    assert_eq!(whole["items"][0]["other_hits"], MAX_ROWS - 1);
}
