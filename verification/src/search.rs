//! Searching saved sessions.
use crate::http::{endpoint_of, law_repository_paths, EndpointView, RepositoryPartView};
use crate::index::IndexError;
use crate::json::{flag, items_under, json_of, jsons, lemma_object_of, list, member, members,
    natural, object, object_of, optional_text, pair, text, text_list, text_or_null, texts_to_json,
    Json};
use crate::outside::{date_of, date_text, is_date, optional, pairs_of, read_date};
use crate::params::{law_last_parameter_counts, parameter, value_of};
use crate::read::{law_requests_ask_for_turns, read_request};
use crate::state::timestamp;
use crate::text::{append, append_decimal, chars_of, contains_text, decimal, first_chars, fold,
    has_part, join, joined, law_case_of_ascii_letters_is_ignored, law_decimal_text_is_read_back,
    law_texts_are_cut_to_characters, lemma_text_less_total, lemma_text_less_transitive, less,
    lowercase, lowercase_of, number, parse_number, prefix_chars, replace_char, replaced, same,
    same_folded, same_ignoring_case, text_less, texts};
use serde_json::Value;
use vstd::prelude::*;

verus! {

// ---------------------------------------------------------------------------
// Search requests
// ---------------------------------------------------------------------------

/// The second that a time filter gives, if there is one.
pub open spec fn filter_time(value: Option<Seq<char>>) -> Result<Option<i64>, IndexError> {
    match value {
        None => Ok(None),
        Some(v) => match date_of(v) {
            Some(seconds) => Ok(Some(seconds)),
            None => Err(IndexError::TimeFilter),
        },
    }
}

/// Reads a time filter.
pub fn time_filter(value: &Option<String>) -> (r: Result<Option<i64>, IndexError>)
    ensures
        r == filter_time(optional(*value)),
{
    match value {
        None => Ok(None),
        Some(v) => match read_date(v.as_str()) {
            Some(seconds) => Ok(Some(seconds)),
            None => Err(IndexError::TimeFilter),
        },
    }
}

/// The order of search results.
#[derive(Clone, Copy, Debug, PartialEq, Eq, Structural)]
pub enum Sort {
    Best,
    Recent,
    Turns,
}

/// The order that a name asks for.
pub open spec fn sort_of(name: Seq<char>) -> Option<Sort> {
    if name == "best"@ {
        Some(Sort::Best)
    } else if name == "recent"@ {
        Some(Sort::Recent)
    } else if name == "turns"@ {
        Some(Sort::Turns)
    } else {
        None
    }
}

/// The parameters of a search.
pub struct SearchRequest {
    pub page: usize,
    pub per: usize,
    pub sort: Sort,
    pub since: Option<i64>,
    pub before: Option<i64>,
    pub author: Option<String>,
    pub code_origin: Option<String>,
}

/// The parameters of a search, seen through their characters.
#[verifier::ext_equal]
pub struct SearchRequestView {
    pub page: nat,
    pub per: nat,
    pub sort: Sort,
    pub since: Option<i64>,
    pub before: Option<i64>,
    pub author: Option<Seq<char>>,
    pub code_origin: Option<Seq<char>>,
}

impl View for SearchRequest {
    type V = SearchRequestView;

    open spec fn view(&self) -> SearchRequestView {
        SearchRequestView {
            page: self.page as nat,
            per: self.per as nat,
            sort: self.sort,
            since: self.since,
            before: self.before,
            author: optional(self.author),
            code_origin: optional(self.code_origin),
        }
    }
}

/// The text of a parameter, or a default.
pub open spec fn value_or(
    params: Seq<(Seq<char>, Seq<char>)>,
    key: Seq<char>,
    default: Seq<char>,
) -> Seq<char> {
    match value_of(params, key) {
        Some(v) => v,
        None => default,
    }
}

/// The parameters of a search, or why they are refused. `unsupported` tells whether the query asks
/// for a category, a state or a fork.
pub open spec fn search_request(
    params: Seq<(Seq<char>, Seq<char>)>,
    unsupported: bool,
) -> Result<SearchRequestView, IndexError> {
    if unsupported {
        Err(IndexError::UnsupportedFilter)
    } else if value_of(params, "scope"@) is Some {
        Err(IndexError::OrganizationScope)
    } else {
        match number(value_or(params, "page"@, "1"@), usize::MAX as nat) {
            Err(e) => Err(IndexError::Number(e)),
            Ok(page) => match number(value_or(params, "per"@, "10"@), usize::MAX as nat) {
                Err(e) => Err(IndexError::Number(e)),
                Ok(per) => if !(1 <= page <= 100000 && 1 <= per <= 100) {
                    Err(IndexError::Pagination)
                } else {
                    match sort_of(value_or(params, "sort"@, "best"@)) {
                        None => Err(IndexError::UnsupportedSort),
                        Some(sort) => match (
                            filter_time(value_of(params, "since"@)),
                            filter_time(value_of(params, "before"@)),
                        ) {
                            (Ok(since), Ok(before)) => Ok(
                                SearchRequestView {
                                    page,
                                    per,
                                    sort,
                                    since,
                                    before,
                                    author: value_of(params, "author"@),
                                    code_origin: value_of(params, "code_origin"@),
                                },
                            ),
                            _ => Err(IndexError::TimeFilter),
                        },
                    }
                },
            },
        }
    }
}

fn parameter_or(params: &Vec<(String, String)>, key: &str, default: &str) -> (r: String)
    ensures
        r@ == value_or(pairs_of(params@), key@, default@),
{
    match parameter(params, key) {
        Some(v) => v,
        None => default.to_owned(),
    }
}

fn parameter_number(params: &Vec<(String, String)>, key: &str, default: &str) -> (r: Result<
    usize,
    IndexError,
>)
    ensures
        match number(value_or(pairs_of(params@), key@, default@), usize::MAX as nat) {
            Ok(n) => r is Ok && r->Ok_0 == n,
            Err(e) => r == Err::<usize, _>(IndexError::Number(e)),
        },
{
    let v = parameter_or(params, key, default);
    match parse_number(v.as_str(), usize::MAX as u64) {
        Ok(n) => Ok(n as usize),
        Err(e) => Err(IndexError::Number(e)),
    }
}

impl SearchRequest {
    /// Whether the page can be served.
    pub open spec fn wf(self) -> bool {
        1 <= self.page <= 100000 && 1 <= self.per <= 100
    }

    /// Reads the parameters of a search.
    pub fn parse(params: &Vec<(String, String)>, unsupported: bool) -> (r: Result<
        SearchRequest,
        IndexError,
    >)
        ensures
            match search_request(pairs_of(params@), unsupported) {
                Ok(v) => r is Ok && r->Ok_0@ == v && r->Ok_0.wf(),
                Err(e) => r == Err::<SearchRequest, _>(e),
            },
    {
        if unsupported {
            return Err(IndexError::UnsupportedFilter);
        }
        if parameter(params, "scope").is_some() {
            return Err(IndexError::OrganizationScope);
        }
        let page: usize = match parameter_number(params, "page", "1") {
            Ok(n) => n,
            Err(e) => {
                return Err(e);
            },
        };
        let per: usize = match parameter_number(params, "per", "10") {
            Ok(n) => n,
            Err(e) => {
                return Err(e);
            },
        };
        if !(1 <= page && page <= 100000 && 1 <= per && per <= 100) {
            return Err(IndexError::Pagination);
        }
        let name = parameter_or(params, "sort", "best");
        let sort = if same(name.as_str(), "best") {
            Sort::Best
        } else if same(name.as_str(), "recent") {
            Sort::Recent
        } else if same(name.as_str(), "turns") {
            Sort::Turns
        } else {
            return Err(IndexError::UnsupportedSort);
        };
        let since = match time_filter(&parameter(params, "since")) {
            Ok(t) => t,
            Err(e) => {
                return Err(e);
            },
        };
        let before = match time_filter(&parameter(params, "before")) {
            Ok(t) => t,
            Err(e) => {
                return Err(e);
            },
        };
        Ok(
            SearchRequest {
                page,
                per,
                sort,
                since,
                before,
                author: parameter(params, "author"),
                code_origin: parameter(params, "code_origin"),
            },
        )
    }
}

/// The filters of a search that its answer repeats.
pub open spec fn filter_members(params: Seq<(Seq<char>, Seq<char>)>) -> Seq<(Seq<char>, Json)> {
    filter_member(params, "author"@) + filter_member(params, "since"@) + filter_member(
        params,
        "before"@,
    ) + filter_member(params, "code_origin"@)
}

/// One filter of a search, where the request has it.
pub open spec fn filter_member(params: Seq<(Seq<char>, Seq<char>)>, key: Seq<char>) -> Seq<
    (Seq<char>, Json),
> {
    match value_of(params, key) {
        Some(v) => seq![(key, Json::Text(v))],
        None => Seq::empty(),
    }
}

fn add_filter(pairs: &mut Vec<(String, Value)>, params: &Vec<(String, String)>, key: &str)
    ensures
        members(final(pairs)@) == members(old(pairs)@) + filter_member(pairs_of(params@), key@),
{
    match parameter(params, key) {
        Some(v) => {
            pairs.push(pair(key, text(v.as_str())));
        },
        None => {},
    }
    assert(members(pairs@) == members(old(pairs)@) + filter_member(pairs_of(params@), key@));
}

/// The filters of a search that its answer repeats.
pub fn applied_filters(params: &Vec<(String, String)>) -> (r: Value)
    ensures
        json_of(r) == Json::Object(object_of(filter_members(pairs_of(params@)))),
{
    let mut pairs: Vec<(String, Value)> = Vec::new();
    add_filter(&mut pairs, params, "author");
    add_filter(&mut pairs, params, "since");
    add_filter(&mut pairs, params, "before");
    add_filter(&mut pairs, params, "code_origin");
    assert(members(pairs@) == filter_members(pairs_of(params@)));
    object(pairs)
}

/// The quoted form of a term for the text index.
pub open spec fn quoted_term(term: Seq<char>) -> Seq<char> {
    "\""@ + replace_char(term, '"', "\"\""@) + "\""@
}

/// The terms that the text index can look up, in quoted form: it holds three characters together.
pub open spec fn index_terms(terms: Seq<Seq<char>>) -> Seq<Seq<char>>
    decreases terms.len(),
{
    if terms.len() == 0 {
        Seq::empty()
    } else if terms.last().len() >= 3 {
        index_terms(terms.drop_last()).push(quoted_term(terms.last()))
    } else {
        index_terms(terms.drop_last())
    }
}

/// The query for the text index: all terms that it can look up. Where there is none, every event
/// is a candidate.
pub fn index_query(terms: &Vec<String>) -> (r: String)
    ensures
        r@ == joined(index_terms(texts(terms@)), " AND "@),
{
    let ghost all = texts(terms@);
    let mut quoted: Vec<String> = Vec::new();
    let mut i: usize = 0;
    assert(texts(quoted@) == Seq::<Seq<char>>::empty());
    while i < terms.len()
        invariant
            i <= terms@.len(),
            all == texts(terms@),
            texts(quoted@) == index_terms(all.take(i as int)),
        decreases terms@.len() - i,
    {
        assert(all.take(i + 1).drop_last() == all.take(i as int));
        assert(all.take(i + 1).last() == terms@[i as int]@);
        let chars = chars_of(terms[i].as_str());
        if chars.len() >= 3 {
            let mut s = "\"".to_owned();
            append(&mut s, replaced(terms[i].as_str(), '"', "\"\"").as_str());
            append(&mut s, "\"");
            let ghost before = quoted@;
            quoted.push(s);
            assert(texts(quoted@) == texts(before).push(s@));
        }
        i = i + 1;
    }
    assert(all.take(i as int) == all);
    let r = join(&quoted, 0, " AND ");
    assert(texts(quoted@).skip(0) == texts(quoted@));
    r
}

// ---------------------------------------------------------------------------
// Candidates
// ---------------------------------------------------------------------------

/// The filters that a query gives by name.
pub struct SearchQuery {
    pub owner: Option<String>,
    pub agent: Option<String>,
    pub runtime: Option<String>,
    pub visibility: Option<String>,
    pub tool: Option<String>,
    pub path: Option<String>,
}

/// The filters of a query, seen through their characters.
#[verifier::ext_equal]
pub struct SearchQueryView {
    pub owner: Option<Seq<char>>,
    pub agent: Option<Seq<char>>,
    pub runtime: Option<Seq<char>>,
    pub visibility: Option<Seq<char>>,
    pub tool: Option<Seq<char>>,
    pub path: Option<Seq<char>>,
}

impl View for SearchQuery {
    type V = SearchQueryView;

    open spec fn view(&self) -> SearchQueryView {
        SearchQueryView {
            owner: optional(self.owner),
            agent: optional(self.agent),
            runtime: optional(self.runtime),
            visibility: optional(self.visibility),
            tool: optional(self.tool),
            path: optional(self.path),
        }
    }
}

/// An indexed event with its snapshot and repository.
pub struct SearchRow {
    pub owner: String,
    pub name: String,
    pub session: String,
    pub runtime: String,
    pub oid: String,
    pub saved: i64,
    pub author: String,
    pub email: String,
    pub origin: Option<String>,
    pub turns: u64,
    pub scope: String,
    pub text: String,
    pub tool: Option<String>,
    pub paths: Vec<String>,
    pub secondhand: bool,
    pub line: u64,
    pub turn: u64,
}

/// An indexed event, seen through its characters.
#[verifier::ext_equal]
pub struct SearchRowView {
    pub owner: Seq<char>,
    pub name: Seq<char>,
    pub session: Seq<char>,
    pub runtime: Seq<char>,
    pub oid: Seq<char>,
    pub saved: i64,
    pub author: Seq<char>,
    pub email: Seq<char>,
    pub origin: Option<Seq<char>>,
    pub turns: u64,
    pub scope: Seq<char>,
    pub text: Seq<char>,
    pub tool: Option<Seq<char>>,
    pub paths: Seq<Seq<char>>,
    pub secondhand: bool,
    pub line: u64,
    pub turn: u64,
}

impl View for SearchRow {
    type V = SearchRowView;

    open spec fn view(&self) -> SearchRowView {
        SearchRowView {
            owner: self.owner@,
            name: self.name@,
            session: self.session@,
            runtime: self.runtime@,
            oid: self.oid@,
            saved: self.saved,
            author: self.author@,
            email: self.email@,
            origin: optional(self.origin),
            turns: self.turns,
            scope: self.scope@,
            text: self.text@,
            tool: optional(self.tool),
            paths: texts(self.paths@),
            secondhand: self.secondhand,
            line: self.line,
            turn: self.turn,
        }
    }
}

/// What the query says of a row's number of turns, of its scope and of its text.
#[derive(Clone, Copy, Debug, PartialEq, Eq, Structural)]
pub struct Verdict {
    pub turns: bool,
    pub scope: bool,
    pub text: bool,
}

impl SearchRowView {
    /// The full name of the row's repository.
    pub open spec fn slug(self) -> Seq<char> {
        self.owner + "/"@ + self.name
    }

    /// What rows of one session have in common.
    pub open spec fn key(self) -> Seq<char> {
        self.slug() + "/"@ + self.session
    }
}

/// Whether a row meets a query and the filters of a request.
pub open spec fn row_matches(
    q: SearchQueryView,
    request: SearchRequestView,
    row: SearchRowView,
    verdict: Verdict,
) -> bool {
    &&& q.owner matches Some(owner) ==> row.owner == owner
    &&& q.agent matches Some(agent) ==> row.slug() == agent || row.name == agent
    &&& q.runtime matches Some(runtime) ==> row.runtime == runtime
    &&& q.visibility matches Some(visibility) ==> visibility == "private"@
    &&& q.tool matches Some(tool) ==> row.tool is Some && same_folded(row.tool->0, tool)
    &&& q.path matches Some(path) ==> exists|i: int|
        0 <= i < row.paths.len() && has_part(lowercase(#[trigger] row.paths[i]), lowercase(path))
    &&& verdict.turns
    &&& verdict.scope
    &&& verdict.text
    &&& request.since matches Some(t) ==> row.saved >= t
    &&& request.before matches Some(t) ==> row.saved < t
    &&& request.author matches Some(author) ==> same_folded(row.author, author) || same_folded(
        row.email,
        author,
    )
    &&& request.code_origin matches Some(origin) ==> row.origin == Some(origin)
}

fn is_value(wanted: &Option<String>, value: &str) -> (r: bool)
    ensures
        r == (optional(*wanted) matches Some(w) ==> value@ == w),
{
    match wanted {
        Some(w) => same(value, w.as_str()),
        None => true,
    }
}

fn slug_of(row: &SearchRow) -> (r: String)
    ensures
        r@ == row@.slug(),
{
    let mut s = row.owner.clone();
    append(&mut s, "/");
    append(&mut s, row.name.as_str());
    s
}

fn has_path(paths: &Vec<String>, path: &str) -> (r: bool)
    ensures
        r == exists|i: int|
            0 <= i < texts(paths@).len() && has_part(
                lowercase(#[trigger] texts(paths@)[i]),
                lowercase(path@),
            ),
{
    let wanted = lowercase_of(path);
    let mut i: usize = 0;
    while i < paths.len()
        invariant
            i <= paths@.len(),
            wanted@ == lowercase(path@),
            forall|k: int|
                0 <= k < i ==> !has_part(
                    lowercase(#[trigger] texts(paths@)[k]),
                    lowercase(path@),
                ),
        decreases paths@.len() - i,
    {
        assert(texts(paths@)[i as int] == paths@[i as int]@);
        let low = lowercase_of(paths[i].as_str());
        if contains_text(low.as_str(), wanted.as_str()) {
            return true;
        }
        i = i + 1;
    }
    false
}

/// Tells whether a row meets a query and the filters of a request.
pub fn matching(query: &SearchQuery, request: &SearchRequest, row: &SearchRow, verdict: Verdict) -> (r:
    bool)
    ensures
        r == row_matches(query@, request@, row@, verdict),
{
    let agent = match &query.agent {
        Some(agent) => same(slug_of(row).as_str(), agent.as_str()) || same(
            row.name.as_str(),
            agent.as_str(),
        ),
        None => true,
    };
    let visibility = match &query.visibility {
        Some(v) => same(v.as_str(), "private"),
        None => true,
    };
    let tool = match &query.tool {
        Some(wanted) => match &row.tool {
            Some(tool) => same_ignoring_case(tool.as_str(), wanted.as_str()),
            None => false,
        },
        None => true,
    };
    let path = match &query.path {
        Some(path) => has_path(&row.paths, path.as_str()),
        None => true,
    };
    let since = match request.since {
        Some(t) => row.saved >= t,
        None => true,
    };
    let before = match request.before {
        Some(t) => row.saved < t,
        None => true,
    };
    let author = match &request.author {
        Some(a) => same_ignoring_case(row.author.as_str(), a.as_str()) || same_ignoring_case(
            row.email.as_str(),
            a.as_str(),
        ),
        None => true,
    };
    let origin = match &request.code_origin {
        Some(wanted) => match &row.origin {
            Some(origin) => same(origin.as_str(), wanted.as_str()),
            None => false,
        },
        None => true,
    };
    assert(origin == (request@.code_origin matches Some(o) ==> row@.origin == Some(o)));
    is_value(&query.owner, row.owner.as_str()) && agent && is_value(
        &query.runtime,
        row.runtime.as_str(),
    ) && visibility && tool && path && verdict.turns && verdict.scope && verdict.text && since
        && before && author && origin
}

// ---------------------------------------------------------------------------
// Hits
// ---------------------------------------------------------------------------

/// How many characters of an event's text a hit shows.
pub const EXCERPT: usize = 800;

/// A session that a search has found, with the first event that was found in it.
pub struct Hit {
    pub key: String,
    pub agent: String,
    pub session_id: String,
    pub excerpt: String,
    pub url: String,
    pub runtime: String,
    pub scope: String,
    pub secondhand: bool,
    pub tool: Option<String>,
    pub paths: Vec<String>,
    pub turns: u64,
    pub timestamp: String,
    pub line: u64,
    /// How many further events were found in the session.
    pub other_hits: u64,
    pub commit: String,
    pub turn: u64,
}

/// A session that a search has found, seen through its characters.
#[verifier::ext_equal]
pub struct HitView {
    pub key: Seq<char>,
    pub agent: Seq<char>,
    pub session_id: Seq<char>,
    pub excerpt: Seq<char>,
    pub url: Seq<char>,
    pub runtime: Seq<char>,
    pub scope: Seq<char>,
    pub secondhand: bool,
    pub tool: Option<Seq<char>>,
    pub paths: Seq<Seq<char>>,
    pub turns: u64,
    pub timestamp: Seq<char>,
    pub line: u64,
    pub other_hits: u64,
    pub commit: Seq<char>,
    pub turn: u64,
}

impl View for Hit {
    type V = HitView;

    open spec fn view(&self) -> HitView {
        HitView {
            key: self.key@,
            agent: self.agent@,
            session_id: self.session_id@,
            excerpt: self.excerpt@,
            url: self.url@,
            runtime: self.runtime@,
            scope: self.scope@,
            secondhand: self.secondhand,
            tool: optional(self.tool),
            paths: texts(self.paths@),
            turns: self.turns,
            timestamp: self.timestamp@,
            line: self.line,
            other_hits: self.other_hits,
            commit: self.commit@,
            turn: self.turn,
        }
    }
}

/// The first turn to read for an event: its own, or the first one where it has none.
pub open spec fn first_turn(turn: nat) -> nat {
    if turn == 0 {
        1
    } else {
        turn
    }
}

/// Where the turn of a row is read.
pub open spec fn row_url(public_url: Seq<char>, row: SearchRowView) -> Seq<char> {
    public_url + "/api/agents/"@ + row.owner + "/"@ + row.name + "/sessions/"@ + row.session
        + "?ref="@ + row.oid + "&from="@ + decimal(first_turn(row.turn as nat)) + "&to="@ + decimal(
        first_turn(row.turn as nat) + 1,
    ) + "&detail=inline"@
}

/// The hit that a row starts.
pub open spec fn hit_of(public_url: Seq<char>, row: SearchRowView) -> HitView {
    HitView {
        key: row.key(),
        agent: row.slug(),
        session_id: row.session,
        excerpt: first_chars(row.text, EXCERPT as nat),
        url: row_url(public_url, row),
        runtime: row.runtime,
        scope: row.scope,
        secondhand: row.secondhand,
        tool: row.tool,
        paths: row.paths,
        turns: row.turns,
        timestamp: date_text(row.saved as int),
        line: row.line,
        other_hits: 0,
        commit: row.oid,
        turn: row.turn,
    }
}

fn new_hit(public_url: &str, row: SearchRow) -> (r: Hit)
    requires
        is_date(row.saved as int),
        row.turn < u64::MAX,
    ensures
        r@ == hit_of(public_url@, row@),
{
    let agent = slug_of(&row);
    let mut key = agent.clone();
    append(&mut key, "/");
    append(&mut key, row.session.as_str());
    let first: u64 = if row.turn == 0 {
        1
    } else {
        row.turn
    };
    let mut url = public_url.to_owned();
    append(&mut url, "/api/agents/");
    append(&mut url, row.owner.as_str());
    append(&mut url, "/");
    append(&mut url, row.name.as_str());
    append(&mut url, "/sessions/");
    append(&mut url, row.session.as_str());
    append(&mut url, "?ref=");
    append(&mut url, row.oid.as_str());
    append(&mut url, "&from=");
    append_decimal(&mut url, first);
    append(&mut url, "&to=");
    append_decimal(&mut url, first + 1);
    append(&mut url, "&detail=inline");
    Hit {
        key,
        agent,
        session_id: row.session,
        excerpt: prefix_chars(row.text.as_str(), EXCERPT),
        url,
        runtime: row.runtime,
        scope: row.scope,
        secondhand: row.secondhand,
        tool: row.tool,
        paths: row.paths,
        turns: row.turns,
        timestamp: timestamp(row.saved),
        line: row.line,
        other_hits: 0,
        commit: row.oid,
        turn: row.turn,
    }
}

/// Whether a session has been found.
pub open spec fn found(hits: Seq<HitView>, key: Seq<char>) -> bool {
    exists|i: int| 0 <= i < hits.len() && (#[trigger] hits[i]).key == key
}

/// The hits after one further event was found in a session.
pub open spec fn counted(hits: Seq<HitView>, key: Seq<char>) -> Seq<HitView> {
    Seq::new(
        hits.len(),
        |i: int|
            if hits[i].key == key {
                HitView { other_hits: (hits[i].other_hits + 1) as u64, ..hits[i] }
            } else {
                hits[i]
            },
    )
}

/// The hits after a row that matches.
pub open spec fn with_hit(hits: Seq<HitView>, public_url: Seq<char>, row: SearchRowView) -> Seq<
    HitView,
> {
    if found(hits, row.key()) {
        counted(hits, row.key())
    } else {
        hits.push(hit_of(public_url, row))
    }
}

/// The sessions that a search finds among rows, in the order in which they are found.
pub open spec fn hits_of(
    q: SearchQueryView,
    request: SearchRequestView,
    public_url: Seq<char>,
    rows: Seq<(SearchRowView, Verdict)>,
) -> Seq<HitView>
    decreases rows.len(),
{
    if rows.len() == 0 {
        Seq::empty()
    } else {
        let hits = hits_of(q, request, public_url, rows.drop_last());
        if row_matches(q, request, rows.last().0, rows.last().1) {
            with_hit(hits, public_url, rows.last().0)
        } else {
            hits
        }
    }
}

/// The hits, seen through their characters.
pub open spec fn hit_views(v: Seq<Hit>) -> Seq<HitView> {
    Seq::new(v.len(), |i: int| v[i]@)
}

/// Whether no session stands twice among hits.
pub open spec fn keys_differ(hits: Seq<HitView>) -> bool {
    forall|i: int, j: int|
        0 <= i < j < hits.len() ==> (#[trigger] hits[i]).key != (#[trigger] hits[j]).key
}

fn add_hit(hits: &mut Vec<Hit>, public_url: &str, row: SearchRow)
    requires
        is_date(row.saved as int),
        row.turn < u64::MAX,
        keys_differ(hit_views(old(hits)@)),
        forall|i: int| 0 <= i < old(hits)@.len() ==> (#[trigger] old(hits)@[i]).other_hits
            < u64::MAX,
    ensures
        hit_views(final(hits)@) == with_hit(hit_views(old(hits)@), public_url@, row@),
        keys_differ(hit_views(final(hits)@)),
{
    let ghost before = hit_views(hits@);
    let hit = new_hit(public_url, row);
    let mut i: usize = 0;
    while i < hits.len()
        invariant
            i <= hits@.len(),
            hits@ == old(hits)@,
            before == hit_views(hits@),
            keys_differ(before),
            hit@ == hit_of(public_url@, row@),
            forall|k: int| 0 <= k < hits@.len() ==> (#[trigger] hits@[k]).other_hits < u64::MAX,
            forall|k: int| 0 <= k < i ==> (#[trigger] before[k]).key != hit@.key,
        decreases hits@.len() - i,
    {
        assert(before[i as int] == hits@[i as int]@);
        if same(hits[i].key.as_str(), hit.key.as_str()) {
            hits[i].other_hits = hits[i].other_hits + 1;
            proof {
                let after = hit_views(hits@);
                assert(found(before, hit@.key));
                assert forall|k: int| 0 <= k < before.len() implies after[k] == counted(
                    before,
                    hit@.key,
                )[k] by {
                    if k != i {
                        assert(before[k].key != hit@.key);
                        assert(after[k] == before[k]);
                    }
                }
                assert(after == counted(before, hit@.key));
                assert forall|a: int, b: int| 0 <= a < b < after.len() implies (
                #[trigger] after[a]).key != (#[trigger] after[b]).key by {
                    assert(after[a].key == before[a].key);
                    assert(after[b].key == before[b].key);
                }
            }
            return ;
        }
        i = i + 1;
    }
    hits.push(hit);
    assert(hit_views(hits@) == before.push(hit@));
    assert(!found(before, hit@.key));
}

// ---------------------------------------------------------------------------
// Collecting
// ---------------------------------------------------------------------------

/// How many rows a search looks at.
pub const MAX_ROWS: usize = 50000;

/// A search while it goes through its rows.
pub struct Search {
    pub query: SearchQuery,
    pub request: SearchRequest,
    pub public_url: String,
    /// Whether some repository's index is incomplete.
    pub dirty: bool,
    pub examined: usize,
    pub hits: Vec<Hit>,
    /// Whether there were more rows than a search looks at.
    pub truncated: bool,
    pub rows: Ghost<Seq<(SearchRowView, Verdict)>>,
}

impl Search {
    /// The hits are those of the rows that were looked at.
    pub open spec fn wf(self) -> bool {
        &&& self.request.wf()
        &&& self.examined == self.rows@.len()
        &&& self.examined <= MAX_ROWS
        &&& hit_views(self.hits@) == hits_of(
            self.query@,
            self.request@,
            self.public_url@,
            self.rows@,
        )
        &&& keys_differ(hit_views(self.hits@))
        &&& forall|i: int| 0 <= i < self.hits@.len() ==> (#[trigger] self.hits@[i]).other_hits
            <= self.examined
    }

    /// Whether two searches ask for the same.
    pub open spec fn same_search(self, other: Search) -> bool {
        &&& self.query == other.query
        &&& self.request == other.request
        &&& self.public_url == other.public_url
        &&& self.dirty == other.dirty
    }

    /// A search that has looked at nothing.
    pub fn start(query: SearchQuery, request: SearchRequest, public_url: &str, dirty: bool) -> (r:
        Self)
        requires
            request.wf(),
        ensures
            r.wf(),
            r.query == query,
            r.request == request,
            r.public_url@ == public_url@,
            r.dirty == dirty,
            !r.truncated,
            r.rows@ == Seq::<(SearchRowView, Verdict)>::empty(),
    {
        let r = Search {
            query,
            request,
            public_url: public_url.to_owned(),
            dirty,
            examined: 0,
            hits: Vec::new(),
            truncated: false,
            rows: Ghost(Seq::empty()),
        };
        assert(hit_views(r.hits@) == Seq::<HitView>::empty());
        r
    }

    /// Looks at the next row. Tells whether the search goes on: behind the last row that it looks
    /// at it only notes that there are more.
    pub fn take(&mut self, row: SearchRow, verdict: Verdict) -> (r: bool)
        requires
            old(self).wf(),
            is_date(row.saved as int),
            row.turn < u64::MAX,
        ensures
            final(self).wf(),
            final(self).same_search(*old(self)),
            r == (old(self).examined < MAX_ROWS),
            r ==> final(self).rows@ == old(self).rows@.push((row@, verdict))
                && final(self).truncated == old(self).truncated,
            !r ==> final(self).rows@ == old(self).rows@ && final(self).truncated,
    {
        if self.examined >= MAX_ROWS {
            self.truncated = true;
            return false;
        }
        let ghost before = hit_views(self.hits@);
        let ghost past = self.rows@;
        let ghost seen = past.push((row@, verdict));
        assert(seen.drop_last() =~= past);
        assert(seen.last() == (row@, verdict));
        assert(hits_of(self.query@, self.request@, self.public_url@, seen) == (if row_matches(
            self.query@,
            self.request@,
            row@,
            verdict,
        ) {
            with_hit(before, self.public_url@, row@)
        } else {
            before
        }));
        let matched = matching(&self.query, &self.request, &row, verdict);
        self.examined = self.examined + 1;
        self.rows = Ghost(seen);
        if matched {
            add_hit(&mut self.hits, self.public_url.as_str(), row);
            assert forall|i: int| 0 <= i < self.hits@.len() implies (
            #[trigger] self.hits@[i]).other_hits <= self.examined by {
                let after = hit_views(self.hits@);
                assert(after[i] == self.hits@[i]@);
                if i < before.len() {
                    assert(before[i] == old(self).hits@[i]@);
                }
            }
        }
        true
    }
}

// ---------------------------------------------------------------------------
// Order and pages
// ---------------------------------------------------------------------------

/// Whether a hit comes before another one: by what the order asks for, then the later saved
/// first, then by session.
pub open spec fn hit_before(sort: Sort, a: HitView, b: HitView) -> bool {
    if sort is Turns && a.turns != b.turns {
        a.turns > b.turns
    } else if sort is Best && a.secondhand != b.secondhand {
        !a.secondhand
    } else if a.timestamp != b.timestamp {
        text_less(b.timestamp, a.timestamp)
    } else {
        text_less(a.session_id, b.session_id)
    }
}

/// A list of hits with one more, behind those that do not come after it.
pub open spec fn insert_hit(sort: Sort, hits: Seq<HitView>, hit: HitView) -> Seq<HitView>
    decreases hits.len(),
{
    if hits.len() > 0 && hit_before(sort, hit, hits.last()) {
        insert_hit(sort, hits.drop_last(), hit).push(hits.last())
    } else {
        hits.push(hit)
    }
}

/// The hits in order; those that nothing tells apart keep the order in which they were found.
pub open spec fn in_order(sort: Sort, hits: Seq<HitView>) -> Seq<HitView>
    decreases hits.len(),
{
    if hits.len() == 0 {
        Seq::empty()
    } else {
        insert_hit(sort, in_order(sort, hits.drop_last()), hits.last())
    }
}

fn comes_before(sort: Sort, a: &Hit, b: &Hit) -> (r: bool)
    ensures
        r == hit_before(sort, a@, b@),
{
    let by_turns = match sort {
        Sort::Turns => true,
        _ => false,
    };
    let by_source = match sort {
        Sort::Best => true,
        _ => false,
    };
    if by_turns && a.turns != b.turns {
        a.turns > b.turns
    } else if by_source && a.secondhand != b.secondhand {
        !a.secondhand
    } else if !same(a.timestamp.as_str(), b.timestamp.as_str()) {
        less(b.timestamp.as_str(), a.timestamp.as_str())
    } else {
        less(a.session_id.as_str(), b.session_id.as_str())
    }
}

fn place_hit(sort: Sort, hits: &mut Vec<Hit>, hit: Hit)
    ensures
        hit_views(final(hits)@) == insert_hit(sort, hit_views(old(hits)@), hit@),
{
    let mut at: usize = hits.len();
    let ghost all = hit_views(hits@);
    assert(all.take(all.len() as int) == all);
    assert(insert_hit(sort, all, hit@) == insert_hit(sort, all.take(at as int), hit@) + all.skip(
        at as int,
    ));
    while at > 0 && comes_before(sort, &hit, &hits[at - 1])
        invariant
            at <= hits@.len(),
            all == hit_views(hits@),
            insert_hit(sort, all, hit@) == insert_hit(sort, all.take(at as int), hit@) + all.skip(
                at as int,
            ),
        decreases at,
    {
        assert(all.take(at as int).drop_last() == all.take(at - 1));
        assert(all.take(at as int).last() == all[at - 1]);
        assert(insert_hit(sort, all, hit@) == insert_hit(sort, all.take(at - 1), hit@) + all.skip(
            at - 1,
        ));
        at = at - 1;
    }
    let ghost view = hit@;
    proof {
        if at > 0 {
            assert(all.take(at as int).last() == all[at - 1]);
        }
        assert(insert_hit(sort, all.take(at as int), view) == all.take(at as int).push(view));
    }
    hits.insert(at, hit);
    assert(hit_views(hits@) == all.take(at as int).push(view) + all.skip(at as int));
}

fn order_hits(sort: Sort, hits: Vec<Hit>) -> (r: Vec<Hit>)
    ensures
        hit_views(r@) == in_order(sort, hit_views(hits@)),
{
    let ghost all = hit_views(hits@);
    let mut rest = hits;
    let mut reversed: Vec<Hit> = Vec::new();
    while rest.len() > 0
        invariant
            all.len() == rest@.len() + reversed@.len(),
            forall|i: int| 0 <= i < rest@.len() ==> (#[trigger] rest@[i])@ == all[i],
            forall|i: int|
                0 <= i < reversed@.len() ==> (#[trigger] reversed@[i])@ == all[all.len() - 1 - i],
        decreases rest@.len(),
    {
        match rest.pop() {
            Some(hit) => {
                reversed.push(hit);
            },
            None => {},
        }
    }
    let mut sorted: Vec<Hit> = Vec::new();
    assert(hit_views(sorted@) == Seq::<HitView>::empty());
    assert(all.take(0) == Seq::<HitView>::empty());
    while reversed.len() > 0
        invariant
            reversed@.len() <= all.len(),
            forall|i: int|
                0 <= i < reversed@.len() ==> (#[trigger] reversed@[i])@ == all[all.len() - 1 - i],
            hit_views(sorted@) == in_order(sort, all.take(all.len() - reversed@.len())),
        decreases reversed@.len(),
    {
        let ghost n = all.len() - reversed@.len();
        assert(all.take(n + 1).drop_last() == all.take(n));
        match reversed.pop() {
            Some(hit) => {
                assert(hit@ == all[n]);
                place_hit(sort, &mut sorted, hit);
            },
            None => {},
        }
    }
    assert(all.take(all.len() as int) == all);
    sorted
}

/// The smaller of two numbers.
pub open spec fn lesser(a: int, b: int) -> int {
    if a < b {
        a
    } else {
        b
    }
}

/// One page of the hits.
pub open spec fn page_of(hits: Seq<HitView>, page: nat, per: nat) -> Seq<HitView> {
    hits.subrange(
        lesser((page - 1) * per, hits.len() as int),
        lesser((page * per) as int, hits.len() as int),
    )
}

/// The JSON form of a hit.
pub open spec fn hit_json(h: HitView) -> Json {
    Json::Object(
        object_of(
            seq![
                ("agent"@, Json::Text(h.agent)),
                ("session_id"@, Json::Text(h.session_id)),
                ("excerpt"@, Json::Text(h.excerpt)),
                ("url"@, Json::Text(h.url)),
                ("runtime"@, Json::Text(h.runtime)),
                ("scope"@, Json::Text(h.scope)),
                ("secondhand"@, Json::Flag(h.secondhand)),
                ("tool"@, text_or_null(h.tool)),
                ("paths"@, text_list(h.paths)),
                ("turns"@, Json::Natural(h.turns)),
                ("timestamp"@, Json::Text(h.timestamp)),
                ("line"@, Json::Natural(h.line)),
                ("other_hits"@, Json::Natural(h.other_hits)),
                ("outcome"@, Json::Text("unknown"@)),
                ("commit"@, Json::Text(h.commit)),
                ("turn"@, Json::Natural(h.turn)),
            ],
        ),
    )
}

impl Hit {
    /// Writes the hit as JSON.
    pub fn to_json(&self) -> (r: Value)
        ensures
            json_of(r) == hit_json(self@),
    {
        let pairs = vec![
            pair("agent", text(self.agent.as_str())),
            pair("session_id", text(self.session_id.as_str())),
            pair("excerpt", text(self.excerpt.as_str())),
            pair("url", text(self.url.as_str())),
            pair("runtime", text(self.runtime.as_str())),
            pair("scope", text(self.scope.as_str())),
            pair("secondhand", flag(self.secondhand)),
            pair("tool", optional_text(&self.tool)),
            pair("paths", texts_to_json(&self.paths)),
            pair("turns", natural(self.turns)),
            pair("timestamp", text(self.timestamp.as_str())),
            pair("line", natural(self.line)),
            pair("other_hits", natural(self.other_hits)),
            pair("outcome", text("unknown")),
            pair("commit", text(self.commit.as_str())),
            pair("turn", natural(self.turn)),
        ];
        assert(members(pairs@) == seq![
            ("agent"@, Json::Text(self@.agent)),
            ("session_id"@, Json::Text(self@.session_id)),
            ("excerpt"@, Json::Text(self@.excerpt)),
            ("url"@, Json::Text(self@.url)),
            ("runtime"@, Json::Text(self@.runtime)),
            ("scope"@, Json::Text(self@.scope)),
            ("secondhand"@, Json::Flag(self@.secondhand)),
            ("tool"@, text_or_null(self@.tool)),
            ("paths"@, text_list(self@.paths)),
            ("turns"@, Json::Natural(self@.turns)),
            ("timestamp"@, Json::Text(self@.timestamp)),
            ("line"@, Json::Natural(self@.line)),
            ("other_hits"@, Json::Natural(self@.other_hits)),
            ("outcome"@, Json::Text("unknown"@)),
            ("commit"@, Json::Text(self@.commit)),
            ("turn"@, Json::Natural(self@.turn)),
        ]);
        object(pairs)
    }
}

/// The answer to a search.
pub open spec fn search_json(
    request: SearchRequestView,
    params: Seq<(Seq<char>, Seq<char>)>,
    hits: Seq<HitView>,
    incomplete: bool,
    unknown: Json,
    terms: Seq<Seq<char>>,
) -> Json {
    let page = page_of(in_order(request.sort, hits), request.page, request.per);
    Json::Object(
        object_of(
            seq![
                ("type"@, Json::Text("sessions"@)),
                ("applied_filters"@, Json::Object(object_of(filter_members(params)))),
                ("total"@, Json::Natural(hits.len() as u64)),
                ("page"@, Json::Natural(request.page as u64)),
                ("per"@, Json::Natural(request.per as u64)),
                ("items"@, Json::List(Seq::new(page.len(), |i: int| hit_json(page[i])))),
                ("incomplete"@, Json::Flag(incomplete)),
                ("unknown"@, unknown),
                ("terms"@, text_list(terms)),
            ],
        ),
    )
}

proof fn lemma_in_order_len(sort: Sort, hits: Seq<HitView>)
    ensures
        in_order(sort, hits).len() == hits.len(),
    decreases hits.len(),
{
    if hits.len() > 0 {
        lemma_in_order_len(sort, hits.drop_last());
        lemma_insert_hit_len(sort, in_order(sort, hits.drop_last()), hits.last());
    }
}

proof fn lemma_insert_hit_len(sort: Sort, hits: Seq<HitView>, hit: HitView)
    ensures
        insert_hit(sort, hits, hit).len() == hits.len() + 1,
    decreases hits.len(),
{
    if hits.len() > 0 && hit_before(sort, hit, hits.last()) {
        lemma_insert_hit_len(sort, hits.drop_last(), hit);
    }
}

impl Search {
    /// Answers a search that has gone through its rows. `params` are the parameters of the
    /// request, `terms` and `unknown` what the query looks for and what of it is not understood.
    pub fn finish(self, params: &Vec<(String, String)>, terms: &Vec<String>, unknown: Value) -> (r:
        Value)
        requires
            self.wf(),
        ensures
            json_of(r) == search_json(
                self.request@,
                pairs_of(params@),
                hits_of(self.query@, self.request@, self.public_url@, self.rows@),
                self.dirty || self.truncated,
                json_of(unknown),
                texts(terms@),
            ),
    {
        let ghost found = hit_views(self.hits@);
        let ghost sorted_view = in_order(self.request.sort, found);
        let total: usize = self.hits.len();
        let page: usize = self.request.page;
        let per: usize = self.request.per;
        proof {
            lemma_in_order_len(self.request.sort, found);
        }
        assert(page * per <= 100000 * 100) by (nonlinear_arith)
            requires
                page <= 100000,
                per <= 100,
        ;
        assert((page - 1) * per == page * per - per) by (nonlinear_arith);
        assert(page * per >= per) by (nonlinear_arith)
            requires
                page >= 1,
        ;
        let sorted = order_hits(self.request.sort, self.hits);
        let product: usize = page * per;
        let end: usize = if product < total {
            product
        } else {
            total
        };
        let start: usize = if product - per < total {
            product - per
        } else {
            total
        };
        let ghost chosen = page_of(sorted_view, page as nat, per as nat);
        let mut items: Vec<Value> = Vec::new();
        let mut i: usize = start;
        while i < end
            invariant
                start <= i <= end,
                end <= sorted@.len(),
                start <= sorted@.len(),
                start <= end,
                hit_views(sorted@) == sorted_view,
                chosen == sorted_view.subrange(start as int, end as int),
                items@.len() == i - start,
                forall|k: int|
                    0 <= k < items@.len() ==> json_of(#[trigger] items@[k]) == hit_json(chosen[k]),
            decreases end - i,
        {
            assert(chosen[i - start] == sorted@[i as int]@);
            items.push(sorted[i].to_json());
            i = i + 1;
        }
        let pairs = vec![
            pair("type", text("sessions")),
            pair("applied_filters", applied_filters(params)),
            pair("total", natural(total as u64)),
            pair("page", natural(page as u64)),
            pair("per", natural(per as u64)),
            pair("items", list(items)),
            pair("incomplete", flag(self.dirty || self.truncated)),
            pair("unknown", unknown),
            pair("terms", texts_to_json(terms)),
        ];
        assert(jsons(items@) == Seq::new(chosen.len(), |k: int| hit_json(chosen[k])));
        assert(members(pairs@) == seq![
            ("type"@, Json::Text("sessions"@)),
            ("applied_filters"@, Json::Object(object_of(filter_members(pairs_of(params@))))),
            ("total"@, Json::Natural(total as u64)),
            ("page"@, Json::Natural(page as u64)),
            ("per"@, Json::Natural(per as u64)),
            ("items"@, Json::List(Seq::new(chosen.len(), |k: int| hit_json(chosen[k])))),
            ("incomplete"@, Json::Flag(self.dirty || self.truncated)),
            ("unknown"@, json_of(unknown)),
            ("terms"@, text_list(texts(terms@))),
        ]);
        object(pairs)
    }
}

/// The rows of a search that are looked at.
pub open spec fn looked_at<A>(rows: Seq<A>) -> Seq<A> {
    if rows.len() <= MAX_ROWS {
        rows
    } else {
        rows.take(MAX_ROWS as int)
    }
}

/// The candidates of a search, seen through their characters.
pub open spec fn candidate_views(v: Seq<(SearchRow, Verdict)>) -> Seq<(SearchRowView, Verdict)> {
    Seq::new(v.len(), |i: int| (v[i].0@, v[i].1))
}

/// Searches candidates. `dirty` tells whether some repository's index is incomplete.
pub fn search(
    query: SearchQuery,
    request: SearchRequest,
    public_url: &str,
    dirty: bool,
    candidates: Vec<(SearchRow, Verdict)>,
    params: &Vec<(String, String)>,
    terms: &Vec<String>,
    unknown: Value,
) -> (r: Value)
    requires
        request.wf(),
        forall|i: int| 0 <= i < candidates@.len() ==> is_date(
            (#[trigger] candidates@[i]).0.saved as int,
        ) && candidates@[i].0.turn < u64::MAX,
    ensures
        json_of(r) == search_json(
            request@,
            pairs_of(params@),
            hits_of(
                query@,
                request@,
                public_url@,
                looked_at(candidate_views(candidates@)),
            ),
            dirty || candidates@.len() > MAX_ROWS,
            json_of(unknown),
            texts(terms@),
        ),
{
    let ghost all = candidate_views(candidates@);
    let ghost given = candidates@;
    let mut running = Search::start(query, request, public_url, dirty);
    let mut rest: Vec<(SearchRow, Verdict)> = Vec::new();
    let mut from = candidates;
    while from.len() > 0
        invariant
            from@.len() + rest@.len() == given.len(),
            forall|i: int| 0 <= i < from@.len() ==> #[trigger] from@[i] == given[i],
            forall|i: int|
                0 <= i < rest@.len() ==> #[trigger] rest@[i] == given[given.len() - 1 - i],
        decreases from@.len(),
    {
        match from.pop() {
            Some(one) => {
                rest.push(one);
            },
            None => {},
        }
    }
    assert(all.take(0) == Seq::<(SearchRowView, Verdict)>::empty());
    while rest.len() > 0
        invariant
            running.wf(),
            running.query == query,
            running.request == request,
            running.public_url@ == public_url@,
            running.dirty == dirty,
            all == candidate_views(given),
            rest@.len() <= given.len(),
            forall|i: int|
                0 <= i < rest@.len() ==> #[trigger] rest@[i] == given[given.len() - 1 - i],
            forall|i: int| 0 <= i < given.len() ==> is_date(
                (#[trigger] given[i]).0.saved as int,
            ) && given[i].0.turn < u64::MAX,
            running.rows@ == looked_at(all.take(given.len() - rest@.len())),
            running.truncated == (given.len() - rest@.len() > MAX_ROWS),
        decreases rest@.len(),
    {
        let ghost n = given.len() - rest@.len();
        let ghost past = running.rows@;
        match rest.pop() {
            Some((row, verdict)) => {
                assert((row, verdict) == given[n]);
                assert(all.take(n + 1) == all.take(n).push((row@, verdict)));
                assert(all.take(n + 1).take(MAX_ROWS as int) =~= all.take(MAX_ROWS as int) || n + 1
                    <= MAX_ROWS);
                assert(all.take(n).take(MAX_ROWS as int) =~= all.take(MAX_ROWS as int) || n
                    <= MAX_ROWS);
                running.take(row, verdict);
                assert(running.rows@ =~= looked_at(all.take(n + 1)));
            },
            None => {},
        }
    }
    assert(all.take(all.len() as int) == all);
    running.finish(params, terms, unknown)
}

// ---------------------------------------------------------------------------
// Laws
// ---------------------------------------------------------------------------

/// Whether no hit stands behind one that it comes before.
pub open spec fn is_ordered(sort: Sort, hits: Seq<HitView>) -> bool {
    forall|i: int, j: int|
        0 <= i < j < hits.len() ==> !hit_before(sort, #[trigger] hits[j], #[trigger] hits[i])
}

proof fn lemma_hit_before(sort: Sort, a: HitView, b: HitView, c: HitView)
    ensures
        hit_before(sort, a, b) ==> !hit_before(sort, b, a),
        !hit_before(sort, b, a) && !hit_before(sort, c, b) ==> !hit_before(sort, c, a),
{
    lemma_text_less_total(a.timestamp, b.timestamp);
    lemma_text_less_total(a.timestamp, c.timestamp);
    lemma_text_less_total(b.timestamp, c.timestamp);
    lemma_text_less_total(a.session_id, b.session_id);
    lemma_text_less_total(a.session_id, c.session_id);
    lemma_text_less_total(b.session_id, c.session_id);
    if text_less(a.timestamp, c.timestamp) && text_less(c.timestamp, b.timestamp) {
        lemma_text_less_transitive(a.timestamp, c.timestamp, b.timestamp);
    }
    if text_less(b.timestamp, a.timestamp) && text_less(a.timestamp, c.timestamp) {
        lemma_text_less_transitive(b.timestamp, a.timestamp, c.timestamp);
    }
    if text_less(c.session_id, a.session_id) && text_less(a.session_id, b.session_id) {
        lemma_text_less_transitive(c.session_id, a.session_id, b.session_id);
    }
    if text_less(b.session_id, c.session_id) && text_less(c.session_id, a.session_id) {
        lemma_text_less_transitive(b.session_id, c.session_id, a.session_id);
    }
}

proof fn lemma_insert_hit(sort: Sort, hits: Seq<HitView>, hit: HitView)
    requires
        is_ordered(sort, hits),
    ensures
        is_ordered(sort, insert_hit(sort, hits, hit)),
        insert_hit(sort, hits, hit).to_multiset() == hits.to_multiset().insert(hit),
        forall|k: int|
            0 <= k < insert_hit(sort, hits, hit).len() ==> hits.contains(
                #[trigger] insert_hit(sort, hits, hit)[k],
            ) || insert_hit(sort, hits, hit)[k] == hit,
    decreases hits.len(),
{
    broadcast use vstd::seq_lib::group_to_multiset_ensures;

    let out = insert_hit(sort, hits, hit);
    if hits.len() > 0 && hit_before(sort, hit, hits.last()) {
        let init = hits.drop_last();
        let inner = insert_hit(sort, init, hit);
        lemma_insert_hit(sort, init, hit);
        assert(hits == init.push(hits.last()));
        assert forall|i: int, j: int| 0 <= i < j < out.len() implies !hit_before(
            sort,
            #[trigger] out[j],
            #[trigger] out[i],
        ) by {
            if j == inner.len() {
                if inner[i] == hit {
                    lemma_hit_before(sort, hit, hits.last(), hit);
                } else {
                    let m = choose|m: int| 0 <= m < init.len() && init[m] == inner[i];
                    assert(hits[m] == inner[i]);
                    assert(!hit_before(sort, hits[hits.len() - 1], hits[m]));
                }
            } else {
                assert(out[i] == inner[i] && out[j] == inner[j]);
            }
        }
        assert forall|k: int| 0 <= k < out.len() implies hits.contains(#[trigger] out[k]) || out[k]
            == hit by {
            if k < inner.len() {
                if init.contains(inner[k]) {
                    let m = choose|m: int| 0 <= m < init.len() && init[m] == inner[k];
                    assert(hits[m] == out[k]);
                }
            } else {
                assert(hits[hits.len() - 1] == out[k]);
            }
        }
        assert(out.to_multiset() =~= hits.to_multiset().insert(hit));
    } else {
        assert forall|i: int, j: int| 0 <= i < j < out.len() implies !hit_before(
            sort,
            #[trigger] out[j],
            #[trigger] out[i],
        ) by {
            if j == hits.len() {
                lemma_hit_before(sort, hits[i], hits.last(), hit);
                if i < hits.len() - 1 {
                    assert(!hit_before(sort, hits[hits.len() - 1], hits[i]));
                }
            }
        }
        assert forall|k: int| 0 <= k < out.len() implies hits.contains(#[trigger] out[k]) || out[k]
            == hit by {
            if k < hits.len() {
                assert(hits[k] == out[k]);
            }
        }
    }
}

/// The hits of a search are put in order: none comes behind one that it should precede, none is
/// lost and none is added.
pub proof fn law_hits_are_in_order(sort: Sort, hits: Seq<HitView>)
    ensures
        is_ordered(sort, in_order(sort, hits)),
        in_order(sort, hits).to_multiset() == hits.to_multiset(),
    decreases hits.len(),
{
    broadcast use vstd::seq_lib::group_to_multiset_ensures;

    if hits.len() > 0 {
        let init = hits.drop_last();
        law_hits_are_in_order(sort, init);
        lemma_insert_hit(sort, in_order(sort, init), hits.last());
        assert(hits == init.push(hits.last()));
    } else {
        assert(hits == Seq::<HitView>::empty());
    }
}

/// How many rows of a session match.
pub open spec fn matches_in(
    q: SearchQueryView,
    request: SearchRequestView,
    rows: Seq<(SearchRowView, Verdict)>,
    key: Seq<char>,
) -> nat
    decreases rows.len(),
{
    if rows.len() == 0 {
        0
    } else {
        matches_in(q, request, rows.drop_last(), key) + (if rows.last().0.key() == key
            && row_matches(q, request, rows.last().0, rows.last().1) {
            1nat
        } else {
            0
        })
    }
}

/// A session is found if and only if one of its rows matches. It is found once, and tells how
/// many further rows of it match.
pub proof fn law_hits_are_the_matching_sessions(
    q: SearchQueryView,
    request: SearchRequestView,
    public_url: Seq<char>,
    rows: Seq<(SearchRowView, Verdict)>,
)
    requires
        rows.len() <= MAX_ROWS,
    ensures
        keys_differ(hits_of(q, request, public_url, rows)),
        forall|key: Seq<char>|
            (matches_in(q, request, rows, key) > 0) == #[trigger] found(
                hits_of(q, request, public_url, rows),
                key,
            ),
        forall|i: int|
            0 <= i < hits_of(q, request, public_url, rows).len() ==> (#[trigger] hits_of(
                q,
                request,
                public_url,
                rows,
            )[i]).other_hits + 1 == matches_in(
                q,
                request,
                rows,
                hits_of(q, request, public_url, rows)[i].key,
            ),
        forall|key: Seq<char>| #[trigger] matches_in(q, request, rows, key) <= rows.len(),
    decreases rows.len(),
{
    let all = hits_of(q, request, public_url, rows);
    if rows.len() > 0 {
        let init = rows.drop_last();
        let row = rows.last().0;
        let before = hits_of(q, request, public_url, init);
        law_hits_are_the_matching_sessions(q, request, public_url, init);
        if row_matches(q, request, row, rows.last().1) {
            if found(before, row.key()) {
                assert forall|i: int| 0 <= i < all.len() implies (#[trigger] all[i]).key
                    == before[i].key by {}
                assert forall|key: Seq<char>|
                    (matches_in(q, request, rows, key) > 0) == #[trigger] found(all, key) by {
                    if found(before, key) {
                        let k = choose|k: int|
                            0 <= k < before.len() && (#[trigger] before[k]).key == key;
                        assert(all[k].key == key);
                    }
                    if found(all, key) {
                        let k = choose|k: int| 0 <= k < all.len() && (#[trigger] all[k]).key == key;
                        assert(before[k].key == key);
                    }
                }
                assert forall|i: int| 0 <= i < all.len() implies (#[trigger] all[i]).other_hits + 1
                    == matches_in(q, request, rows, all[i].key) by {
                    assert(before[i].other_hits + 1 == matches_in(
                        q,
                        request,
                        init,
                        before[i].key,
                    ));
                    assert(matches_in(q, request, init, before[i].key) <= init.len());
                }
            } else {
                assert(all == before.push(hit_of(public_url, row)));
                assert(matches_in(q, request, init, row.key()) == 0);
                assert forall|key: Seq<char>|
                    (matches_in(q, request, rows, key) > 0) == #[trigger] found(all, key) by {
                    if found(before, key) {
                        let k = choose|k: int|
                            0 <= k < before.len() && (#[trigger] before[k]).key == key;
                        assert(all[k].key == key);
                    }
                    if found(all, key) {
                        let k = choose|k: int| 0 <= k < all.len() && (#[trigger] all[k]).key == key;
                        if k < before.len() {
                            assert(before[k].key == key);
                        }
                    }
                    if key == row.key() {
                        assert(all[before.len() as int].key == key);
                    }
                }
                assert forall|i: int| 0 <= i < all.len() implies (#[trigger] all[i]).other_hits + 1
                    == matches_in(q, request, rows, all[i].key) by {
                    if i < before.len() {
                        assert(all[i] == before[i]);
                        assert(before[i].key != row.key());
                    }
                }
            }
        } else {
            assert forall|key: Seq<char>|
                (matches_in(q, request, rows, key) > 0) == #[trigger] found(all, key) by {
                assert(found(before, key) == (matches_in(q, request, init, key) > 0));
            }
        }
        assert forall|key: Seq<char>| #[trigger]
            matches_in(q, request, rows, key) <= rows.len() by {
            assert(matches_in(q, request, init, key) <= init.len());
        }
    }
}

/// The pages of a search hold its hits one after another: each hit stands on exactly the page and
/// at the place that its position gives, and a page holds no more than was asked for.
pub proof fn law_pages_hold_the_hits(hits: Seq<HitView>, per: nat, i: int)
    requires
        per > 0,
        0 <= i < hits.len(),
    ensures
        page_of(hits, (i / per as int + 1) as nat, per).len() <= per,
        i % (per as int) < page_of(hits, (i / per as int + 1) as nat, per).len(),
        page_of(hits, (i / per as int + 1) as nat, per)[i % (per as int)] == hits[i],
{
    let p = per as int;
    let n = i / p;
    assert(n * p + i % p == i && 0 <= i % p < p && 0 <= n) by (nonlinear_arith)
        requires
            p > 0,
            0 <= i,
            n == i / p,
    ;
    assert((n + 1 - 1) * p == n * p);
    assert((n + 1) * p == n * p + p) by (nonlinear_arith);
}

/// A page behind the last hit is empty.
pub proof fn law_pages_end(hits: Seq<HitView>, page: nat, per: nat)
    requires
        page >= 1,
        (page - 1) * per >= hits.len(),
    ensures
        page_of(hits, page, per).len() == 0,
{
    assert(page * per >= (page - 1) * per) by (nonlinear_arith)
        requires
            page >= 1,
            per >= 0,
    ;
}

// ---------------------------------------------------------------------------
// Laws of filters
// ---------------------------------------------------------------------------

/// A query without filters.
pub open spec fn any_query() -> SearchQueryView {
    SearchQueryView {
        owner: None,
        agent: None,
        runtime: None,
        visibility: None,
        tool: None,
        path: None,
    }
}

/// A request without filters.
pub open spec fn any_request() -> SearchRequestView {
    SearchRequestView {
        page: 1,
        per: 10,
        sort: Sort::Best,
        since: None,
        before: None,
        author: None,
        code_origin: None,
    }
}

/// The verdict that nothing speaks against a row.
pub open spec fn any_verdict() -> Verdict {
    Verdict { turns: true, scope: true, text: true }
}

/// What each filter asks for, where it is the only one. Names are compared as they are, tools and
/// authors without regard to case, and a path needs to hold what is looked for; the time from
/// which on is included, and the time before which is not.
pub proof fn law_single_filters(row: SearchRowView, w: Seq<char>, t: i64)
    ensures
        ({
            let q = any_query();
            let r = any_request();
            let v = any_verdict();
            &&& row_matches(q, r, row, v)
            &&& row_matches(SearchQueryView { owner: Some(w), ..q }, r, row, v) <==> row.owner == w
            &&& row_matches(SearchQueryView { agent: Some(w), ..q }, r, row, v) <==> row.name == w
                || row.owner + "/"@ + row.name == w
            &&& row_matches(SearchQueryView { runtime: Some(w), ..q }, r, row, v) <==> row.runtime
                == w
            &&& row_matches(SearchQueryView { visibility: Some(w), ..q }, r, row, v) <==> w
                == "private"@
            &&& row_matches(SearchQueryView { tool: Some(w), ..q }, r, row, v) <==> row.tool is Some
                && same_folded(row.tool->0, w)
            &&& row_matches(SearchQueryView { path: Some(w), ..q }, r, row, v) <==> exists|i: int|
                0 <= i < row.paths.len() && has_part(
                    lowercase(#[trigger] row.paths[i]),
                    lowercase(w),
                )
            &&& row_matches(q, SearchRequestView { since: Some(t), ..r }, row, v) <==> t
                <= row.saved
            &&& row_matches(q, SearchRequestView { before: Some(t), ..r }, row, v) <==> t
                > row.saved
            &&& row_matches(q, SearchRequestView { author: Some(w), ..r }, row, v) <==> same_folded(
                w,
                row.author,
            ) || same_folded(w, row.email)
            &&& row_matches(q, SearchRequestView { code_origin: Some(w), ..r }, row, v)
                <==> row.origin == Some(w)
            &&& !row_matches(q, r, row, Verdict { turns: false, ..v })
            &&& !row_matches(q, r, row, Verdict { scope: false, ..v })
            &&& !row_matches(q, r, row, Verdict { text: false, ..v })
        }),
{
    assert(same_folded(w, row.author) == same_folded(row.author, w)) by {
        law_case_of_ascii_letters_is_ignored(w, row.author);
        law_case_of_ascii_letters_is_ignored(row.author, w);
        lemma_same_folded_symmetric(w, row.author);
    }
    assert(same_folded(w, row.email) == same_folded(row.email, w)) by {
        lemma_same_folded_symmetric(w, row.email);
    }
}

proof fn lemma_same_folded_symmetric(a: Seq<char>, b: Seq<char>)
    ensures
        same_folded(a, b) == same_folded(b, a),
{
    if same_folded(a, b) {
        assert forall|i: int| 0 <= i < b.len() implies fold(#[trigger] b[i]) == fold(a[i]) by {
            assert(fold(a[i]) == fold(b[i]));
        }
    }
    if same_folded(b, a) {
        assert forall|i: int| 0 <= i < a.len() implies fold(#[trigger] a[i]) == fold(b[i]) by {
            assert(fold(b[i]) == fold(a[i]));
        }
    }
}

/// A row meets a search exactly where it meets each of its filters alone.
pub proof fn law_filters_hold_together(
    q: SearchQueryView,
    request: SearchRequestView,
    row: SearchRowView,
    verdict: Verdict,
)
    ensures
        ({
            let a = any_query();
            let r = any_request();
            let v = any_verdict();
            row_matches(q, request, row, verdict) <==> {
                &&& row_matches(SearchQueryView { owner: q.owner, ..a }, r, row, v)
                &&& row_matches(SearchQueryView { agent: q.agent, ..a }, r, row, v)
                &&& row_matches(SearchQueryView { runtime: q.runtime, ..a }, r, row, v)
                &&& row_matches(SearchQueryView { visibility: q.visibility, ..a }, r, row, v)
                &&& row_matches(SearchQueryView { tool: q.tool, ..a }, r, row, v)
                &&& row_matches(SearchQueryView { path: q.path, ..a }, r, row, v)
                &&& row_matches(a, SearchRequestView { since: request.since, ..r }, row, v)
                &&& row_matches(a, SearchRequestView { before: request.before, ..r }, row, v)
                &&& row_matches(a, SearchRequestView { author: request.author, ..r }, row, v)
                &&& row_matches(
                    a,
                    SearchRequestView { code_origin: request.code_origin, ..r },
                    row,
                    v,
                )
                &&& row_matches(a, r, row, verdict)
            }
        }),
{
}

/// Nothing of a row matters to a search but what its filters look at.
pub proof fn law_other_fields_do_not_matter(
    q: SearchQueryView,
    request: SearchRequestView,
    row: SearchRowView,
    other: SearchRowView,
    verdict: Verdict,
)
    requires
        row.owner == other.owner,
        row.name == other.name,
        row.runtime == other.runtime,
        row.saved == other.saved,
        row.author == other.author,
        row.email == other.email,
        row.origin == other.origin,
        row.tool == other.tool,
        row.paths == other.paths,
    ensures
        row_matches(q, request, row, verdict) == row_matches(q, request, other, verdict),
{
}

/// A search reads its page, its size and its order from its parameters, within their limits.
pub proof fn law_search_parameters(page: nat, per: nat, sort: Seq<char>)
    requires
        page <= usize::MAX,
        per <= usize::MAX,
    ensures
        ({
            let asked = seq![("page"@, decimal(page)), ("per"@, decimal(per)), ("sort"@, sort)];
            let known = sort == "best"@ || sort == "recent"@ || sort == "turns"@;
            &&& search_request(asked, true) == Err::<SearchRequestView, _>(
                IndexError::UnsupportedFilter,
            )
            &&& !(1 <= page <= 100000 && 1 <= per <= 100) ==> search_request(asked, false) == Err::<
                SearchRequestView,
                _,
            >(IndexError::Pagination)
            &&& 1 <= page <= 100000 && 1 <= per <= 100 && !known ==> search_request(asked, false)
                == Err::<SearchRequestView, _>(IndexError::UnsupportedSort)
            &&& 1 <= page <= 100000 && 1 <= per <= 100 && known ==> search_request(asked, false)
                == Ok::<SearchRequestView, IndexError>(
                SearchRequestView {
                    page,
                    per,
                    sort: if sort == "turns"@ {
                        Sort::Turns
                    } else if sort == "recent"@ {
                        Sort::Recent
                    } else {
                        Sort::Best
                    },
                    ..any_request()
                },
            )
            &&& search_request(Seq::empty(), false) == Ok::<SearchRequestView, IndexError>(
                any_request(),
            )
        }),
{
    reveal_strlit("page");
    reveal_strlit("per");
    reveal_strlit("sort");
    reveal_strlit("scope");
    reveal_strlit("since");
    reveal_strlit("before");
    reveal_strlit("author");
    reveal_strlit("code_origin");
    reveal_strlit("best");
    reveal_strlit("recent");
    reveal_strlit("turns");
    reveal_strlit("1");
    reveal_strlit("10");
    law_decimal_text_is_read_back(page, usize::MAX as nat);
    law_decimal_text_is_read_back(per, usize::MAX as nat);
    law_decimal_text_is_read_back(1, usize::MAX as nat);
    law_decimal_text_is_read_back(10, usize::MAX as nat);
    reveal_with_fuel(decimal, 3);
    assert(decimal(1) == "1"@);
    assert(decimal(10) == "10"@);
    let none = Seq::<(Seq<char>, Seq<char>)>::empty();
    let one = none.push(("page"@, decimal(page)));
    let two = one.push(("per"@, decimal(per)));
    let three = two.push(("sort"@, sort));
    assert(three == seq![("page"@, decimal(page)), ("per"@, decimal(per)), ("sort"@, sort)]);
    assert("page"@.len() == 4 && "per"@.len() == 3 && "sort"@.len() == 4 && "scope"@.len() == 5
        && "since"@.len() == 5 && "before"@.len() == 6 && "author"@.len() == 6
        && "code_origin"@.len() == 11);
    assert("page"@[0] != "sort"@[0]);
    assert("best"@.len() == 4 && "recent"@.len() == 6 && "turns"@.len() == 5);
    law_last_parameter_counts(none, "page"@, decimal(page));
    law_last_parameter_counts(one, "per"@, decimal(per));
    law_last_parameter_counts(two, "sort"@, sort);
    assert(forall|key: Seq<char>| (#[trigger] value_of(none, key)) is None);
}

/// The filters of a search are its parameters of that name. Times are RFC 3339, and a text that
/// is none is refused.
pub proof fn law_search_filters_are_parameters(
    params: Seq<(Seq<char>, Seq<char>)>,
    unsupported: bool,
)
    ensures
        value_of(params, "scope"@) is Some ==> search_request(params, unsupported) is Err,
        search_request(params, unsupported) matches Ok(v) ==> {
            &&& v.author == value_of(params, "author"@)
            &&& v.code_origin == value_of(params, "code_origin"@)
            &&& match value_of(params, "since"@) {
                Some(text) => v.since is Some && v.since == date_of(text),
                None => v.since is None,
            }
            &&& match value_of(params, "before"@) {
                Some(text) => v.before is Some && v.before == date_of(text),
                None => v.before is None,
            }
        },
{
}

// ---------------------------------------------------------------------------
// Laws of the text index
// ---------------------------------------------------------------------------

/// Whether a text is the quoted form of a term of three characters or more.
pub open spec fn quotes_long_term(terms: Seq<Seq<char>>, q: Seq<char>) -> bool {
    exists|i: int|
        0 <= i < terms.len() && (#[trigger] terms[i]).len() >= 3 && quoted_term(terms[i]) == q
}

/// Every term of three characters or more is looked up, and no other one.
pub proof fn law_long_terms_are_looked_up(terms: Seq<Seq<char>>)
    ensures
        forall|i: int|
            0 <= i < terms.len() && (#[trigger] terms[i]).len() >= 3 ==> index_terms(
                terms,
            ).contains(quoted_term(terms[i])),
        forall|k: int|
            0 <= k < index_terms(terms).len() ==> quotes_long_term(
                terms,
                #[trigger] index_terms(terms)[k],
            ),
    decreases terms.len(),
{
    if terms.len() > 0 {
        let init = terms.drop_last();
        law_long_terms_are_looked_up(init);
        let all = index_terms(terms);
        let past = index_terms(init);
        assert forall|i: int|
            0 <= i < terms.len() && (#[trigger] terms[i]).len() >= 3 implies all.contains(
            quoted_term(terms[i]),
        ) by {
            if i < init.len() {
                assert(init[i] == terms[i]);
                assert(past.contains(quoted_term(init[i])));
                let k = choose|k: int| 0 <= k < past.len() && past[k] == quoted_term(init[i]);
                assert(all[k] == past[k]);
            } else {
                assert(all[all.len() - 1] == quoted_term(terms[i]));
            }
        }
        assert forall|k: int| 0 <= k < all.len() implies quotes_long_term(
            terms,
            #[trigger] all[k],
        ) by {
            if k < past.len() {
                assert(past[k] == all[k]);
                assert(quotes_long_term(init, past[k]));
                let i = choose|i: int|
                    0 <= i < init.len() && (#[trigger] init[i]).len() >= 3 && quoted_term(init[i])
                        == past[k];
                assert(terms[i] == init[i]);
            } else {
                assert(terms[terms.len() - 1] == terms.last());
            }
        }
    }
}

/// What the text index reads between quotes: two quotes stand for one. The flag tells whether a
/// quote waits for its second one.
pub open spec fn read_quoted(s: Seq<char>) -> (bool, Seq<char>)
    decreases s.len(),
{
    if s.len() == 0 {
        (false, Seq::empty())
    } else {
        let (waits, text) = read_quoted(s.drop_last());
        if s.last() != '"' {
            (waits, text.push(s.last()))
        } else if waits {
            (false, text.push('"'))
        } else {
            (true, text)
        }
    }
}

/// The text index reads a term as it is, whatever characters it has.
pub proof fn law_quoted_terms_are_read_back(term: Seq<char>)
    ensures
        quoted_term(term).len() >= 2,
        quoted_term(term)[0] == '"',
        quoted_term(term).last() == '"',
        read_quoted(quoted_term(term).subrange(1, quoted_term(term).len() - 1)) == (false, term),
{
    reveal_strlit("\"");
    let inner = replace_char(term, '"', "\"\""@);
    lemma_read_quoted(term);
    assert(quoted_term(term).subrange(1, quoted_term(term).len() - 1) == inner);
}

proof fn lemma_read_quoted(term: Seq<char>)
    ensures
        read_quoted(replace_char(term, '"', "\"\""@)) == (false, term),
    decreases term.len(),
{
    reveal_strlit("\"\"");
    if term.len() > 0 {
        let init = replace_char(term.drop_last(), '"', "\"\""@);
        lemma_read_quoted(term.drop_last());
        assert(term.drop_last().push(term.last()) == term);
        if term.last() == '"' {
            let all = init + "\"\""@;
            assert(all.drop_last() == init.push('"'));
            assert(init.push('"').drop_last() == init);
            assert(read_quoted(init.push('"')) == (true, term.drop_last()));
        } else {
            assert(init.push(term.last()).drop_last() == init);
        }
    }
}

// ---------------------------------------------------------------------------
// Laws of hits
// ---------------------------------------------------------------------------

/// Whether a hit shows a row: the count of further hits aside, all it says is the row's.
pub open spec fn shows(hit: HitView, row: SearchRowView, public_url: Seq<char>) -> bool {
    &&& hit.key == row.owner + "/"@ + row.name + "/"@ + row.session
    &&& hit.agent == row.owner + "/"@ + row.name
    &&& hit.session_id == row.session
    &&& hit.excerpt.is_prefix_of(row.text)
    &&& hit.excerpt.len() == if row.text.len() < 800 {
        row.text.len()
    } else {
        800
    }
    &&& hit.url == row_url(public_url, row)
    &&& hit.runtime == row.runtime
    &&& hit.scope == row.scope
    &&& hit.secondhand == row.secondhand
    &&& hit.tool == row.tool
    &&& hit.paths == row.paths
    &&& hit.turns == row.turns
    &&& hit.timestamp == date_text(row.saved as int)
    &&& hit.line == row.line
    &&& hit.commit == row.oid
    &&& hit.turn == row.turn
}

/// A hit shows the first row of its session that matches.
pub proof fn law_hits_show_their_first_row(
    q: SearchQueryView,
    request: SearchRequestView,
    public_url: Seq<char>,
    rows: Seq<(SearchRowView, Verdict)>,
    h: int,
)
    requires
        0 <= h < hits_of(q, request, public_url, rows).len(),
    ensures
        exists|i: int|
            {
                &&& 0 <= i < rows.len()
                &&& row_matches(q, request, (#[trigger] rows[i]).0, rows[i].1)
                &&& shows(hits_of(q, request, public_url, rows)[h], rows[i].0, public_url)
                &&& forall|k: int|
                    0 <= k < i && row_matches(q, request, (#[trigger] rows[k]).0, rows[k].1)
                        ==> rows[k].0.key() != rows[i].0.key()
            },
    decreases rows.len(),
{
    let all = hits_of(q, request, public_url, rows);
    let init = rows.drop_last();
    let before = hits_of(q, request, public_url, init);
    let n = init.len() as int;
    let row = rows.last().0;
    assert(rows[n] == rows.last());
    if h < before.len() {
        law_hits_show_their_first_row(q, request, public_url, init, h);
        let i = choose|i: int|
            {
                &&& 0 <= i < init.len()
                &&& row_matches(q, request, (#[trigger] init[i]).0, init[i].1)
                &&& shows(before[h], init[i].0, public_url)
                &&& forall|k: int|
                    0 <= k < i && row_matches(q, request, (#[trigger] init[k]).0, init[k].1)
                        ==> init[k].0.key() != init[i].0.key()
            };
        assert(rows[i] == init[i]);
        assert forall|k: int|
            0 <= k < i && row_matches(
                q,
                request,
                (#[trigger] rows[k]).0,
                rows[k].1,
            ) implies rows[k].0.key() != rows[i].0.key() by {
            assert(init[k] == rows[k]);
        }
        assert(shows(all[h], rows[i].0, public_url));
    } else {
        assert(row_matches(q, request, row, rows.last().1) && !found(before, row.key()));
        assert(all[h] == hit_of(public_url, row));
        law_texts_are_cut_to_characters(row.text, EXCERPT as nat);
        assert(shows(all[h], rows[n].0, public_url));
        assert forall|k: int|
            0 <= k < n && row_matches(
                q,
                request,
                (#[trigger] rows[k]).0,
                rows[k].1,
            ) implies rows[k].0.key() != rows[n].0.key() by {
            assert(init[k] == rows[k]);
            lemma_matching_row_is_found(q, request, public_url, init, k);
        }
    }
}

proof fn lemma_matching_row_is_found(
    q: SearchQueryView,
    request: SearchRequestView,
    public_url: Seq<char>,
    rows: Seq<(SearchRowView, Verdict)>,
    i: int,
)
    requires
        0 <= i < rows.len(),
        row_matches(q, request, rows[i].0, rows[i].1),
    ensures
        found(hits_of(q, request, public_url, rows), rows[i].0.key()),
    decreases rows.len(),
{
    let init = rows.drop_last();
    let before = hits_of(q, request, public_url, init);
    let all = hits_of(q, request, public_url, rows);
    let key = rows[i].0.key();
    if i < init.len() {
        assert(init[i] == rows[i]);
        lemma_matching_row_is_found(q, request, public_url, init, i);
        let k = choose|k: int| 0 <= k < before.len() && (#[trigger] before[k]).key == key;
        assert(all[k].key == key);
    } else if found(before, key) {
        let k = choose|k: int| 0 <= k < before.len() && (#[trigger] before[k]).key == key;
        assert(all[k].key == key);
    } else {
        assert(all[before.len() as int].key == key);
    }
}

/// The order of the hits, field by field: by turns the longest session first, by fitness what was
/// said itself before what was only quoted; then the later saved first, then by session.
pub proof fn law_order_of_hits(sort: Sort, hits: Seq<HitView>, i: int, j: int)
    requires
        0 <= i < j < hits.len(),
    ensures
        ({
            let a = in_order(sort, hits)[i];
            let b = in_order(sort, hits)[j];
            &&& sort == Sort::Turns ==> a.turns >= b.turns
            &&& sort == Sort::Best ==> (b.secondhand == false ==> a.secondhand == false)
            &&& sort == Sort::Recent || (sort == Sort::Turns && a.turns == b.turns) || (sort
                == Sort::Best && a.secondhand == b.secondhand) ==> {
                &&& !text_less(a.timestamp, b.timestamp)
                &&& a.timestamp == b.timestamp ==> !text_less(b.session_id, a.session_id)
            }
        }),
{
    law_hits_are_in_order(sort, hits);
    lemma_in_order_len(sort, hits);
    let all = in_order(sort, hits);
    assert(!hit_before(sort, all[j], all[i]));
    lemma_text_less_total(all[i].timestamp, all[j].timestamp);
}

/// What the answer to a search says: how many sessions were found, those of the page, in order,
/// and whether something may be missing.
pub proof fn law_answers_say_what_was_found(
    request: SearchRequestView,
    params: Seq<(Seq<char>, Seq<char>)>,
    hits: Seq<HitView>,
    incomplete: bool,
    unknown: Json,
    terms: Seq<Seq<char>>,
)
    ensures
        ({
            let answer = search_json(request, params, hits, incomplete, unknown, terms);
            let page = page_of(in_order(request.sort, hits), request.page, request.per);
            &&& member(answer, "total"@) == Some(Json::Natural(hits.len() as u64))
            &&& member(answer, "page"@) == Some(Json::Natural(request.page as u64))
            &&& member(answer, "per"@) == Some(Json::Natural(request.per as u64))
            &&& member(answer, "incomplete"@) == Some(Json::Flag(incomplete))
            &&& member(answer, "unknown"@) == Some(unknown)
            &&& member(answer, "terms"@) == Some(text_list(terms))
            &&& items_under(answer, "items"@).len() == page.len()
            &&& forall|i: int|
                0 <= i < page.len() ==> #[trigger] items_under(answer, "items"@)[i] == hit_json(
                    page[i],
                )
        }),
{
    reveal_strlit("total");
    reveal_strlit("page");
    reveal_strlit("per");
    reveal_strlit("items");
    reveal_strlit("incomplete");
    reveal_strlit("unknown");
    reveal_strlit("terms");
    let page = page_of(in_order(request.sort, hits), request.page, request.per);
    let pairs = seq![
        ("type"@, Json::Text("sessions"@)),
        ("applied_filters"@, Json::Object(object_of(filter_members(params)))),
        ("total"@, Json::Natural(hits.len() as u64)),
        ("page"@, Json::Natural(request.page as u64)),
        ("per"@, Json::Natural(request.per as u64)),
        ("items"@, Json::List(Seq::new(page.len(), |i: int| hit_json(page[i])))),
        ("incomplete"@, Json::Flag(incomplete)),
        ("unknown"@, unknown),
        ("terms"@, text_list(terms)),
    ];
    assert(search_json(request, params, hits, incomplete, unknown, terms) == Json::Object(
        object_of(pairs),
    ));
    assert(pairs[2].0.len() == 5);
    assert(pairs[3].0.len() == 4);
    assert(pairs[4].0.len() == 3);
    assert(pairs[5].0.len() == 5);
    assert(pairs[6].0.len() == 10);
    assert(pairs[7].0.len() == 7);
    assert(pairs[8].0.len() == 5);
    assert(pairs[2].0[1] != pairs[5].0[1]);
    assert(pairs[2].0[0] != pairs[5].0[0]);
    assert(pairs[2].0[1] != pairs[8].0[1]);
    assert(pairs[5].0[0] != pairs[8].0[0] || pairs[5].0[1] != pairs[8].0[1]);
    lemma_object_of(pairs, 2);
    lemma_object_of(pairs, 3);
    lemma_object_of(pairs, 4);
    lemma_object_of(pairs, 5);
    lemma_object_of(pairs, 6);
    lemma_object_of(pairs, 7);
    lemma_object_of(pairs, 8);
}

/// What the JSON form of a hit says.
pub proof fn law_hits_are_written_field_by_field(h: HitView)
    ensures
        ({
            let j = hit_json(h);
            &&& member(j, "agent"@) == Some(Json::Text(h.agent))
            &&& member(j, "session_id"@) == Some(Json::Text(h.session_id))
            &&& member(j, "excerpt"@) == Some(Json::Text(h.excerpt))
            &&& member(j, "url"@) == Some(Json::Text(h.url))
            &&& member(j, "runtime"@) == Some(Json::Text(h.runtime))
            &&& member(j, "scope"@) == Some(Json::Text(h.scope))
            &&& member(j, "secondhand"@) == Some(Json::Flag(h.secondhand))
            &&& member(j, "tool"@) == Some(
                match h.tool {
                    Some(tool) => Json::Text(tool),
                    None => Json::Null,
                },
            )
            &&& items_under(j, "paths"@).len() == h.paths.len()
            &&& forall|i: int|
                0 <= i < h.paths.len() ==> #[trigger] items_under(j, "paths"@)[i] == Json::Text(
                    h.paths[i],
                )
            &&& member(j, "turns"@) == Some(Json::Natural(h.turns))
            &&& member(j, "timestamp"@) == Some(Json::Text(h.timestamp))
            &&& member(j, "line"@) == Some(Json::Natural(h.line))
            &&& member(j, "other_hits"@) == Some(Json::Natural(h.other_hits))
            &&& member(j, "commit"@) == Some(Json::Text(h.commit))
            &&& member(j, "turn"@) == Some(Json::Natural(h.turn))
        }),
{
    reveal_strlit("agent");
    reveal_strlit("session_id");
    reveal_strlit("excerpt");
    reveal_strlit("url");
    reveal_strlit("runtime");
    reveal_strlit("scope");
    reveal_strlit("secondhand");
    reveal_strlit("tool");
    reveal_strlit("paths");
    reveal_strlit("turns");
    reveal_strlit("timestamp");
    reveal_strlit("line");
    reveal_strlit("other_hits");
    reveal_strlit("outcome");
    reveal_strlit("commit");
    reveal_strlit("turn");
    let pairs = seq![
        ("agent"@, Json::Text(h.agent)),
        ("session_id"@, Json::Text(h.session_id)),
        ("excerpt"@, Json::Text(h.excerpt)),
        ("url"@, Json::Text(h.url)),
        ("runtime"@, Json::Text(h.runtime)),
        ("scope"@, Json::Text(h.scope)),
        ("secondhand"@, Json::Flag(h.secondhand)),
        ("tool"@, text_or_null(h.tool)),
        ("paths"@, text_list(h.paths)),
        ("turns"@, Json::Natural(h.turns)),
        ("timestamp"@, Json::Text(h.timestamp)),
        ("line"@, Json::Natural(h.line)),
        ("other_hits"@, Json::Natural(h.other_hits)),
        ("outcome"@, Json::Text("unknown"@)),
        ("commit"@, Json::Text(h.commit)),
        ("turn"@, Json::Natural(h.turn)),
    ];
    assert(hit_json(h) == Json::Object(object_of(pairs)));
    assert(pairs[0].0.len() == 5 && pairs[0].0[0] == 'a');
    assert(pairs[1].0.len() == 10 && pairs[1].0[1] == 'e' && pairs[1].0[2] == 's');
    assert(pairs[2].0.len() == 7 && pairs[2].0[0] == 'e');
    assert(pairs[3].0.len() == 3);
    assert(pairs[4].0.len() == 7 && pairs[4].0[0] == 'r');
    assert(pairs[5].0.len() == 5 && pairs[5].0[0] == 's');
    assert(pairs[6].0.len() == 10 && pairs[6].0[0] == 's' && pairs[6].0[2] == 'c');
    assert(pairs[7].0.len() == 4 && pairs[7].0[0] == 't' && pairs[7].0[1] == 'o');
    assert(pairs[8].0.len() == 5 && pairs[8].0[0] == 'p');
    assert(pairs[9].0.len() == 5 && pairs[9].0[0] == 't');
    assert(pairs[10].0.len() == 9);
    assert(pairs[11].0.len() == 4 && pairs[11].0[0] == 'l');
    assert(pairs[12].0.len() == 10 && pairs[12].0[0] == 'o');
    assert(pairs[13].0.len() == 7 && pairs[13].0[0] == 'o');
    assert(pairs[14].0.len() == 6);
    assert(pairs[15].0.len() == 4 && pairs[15].0[0] == 't' && pairs[15].0[1] == 'u');
    lemma_object_of(pairs, 0);
    lemma_object_of(pairs, 1);
    lemma_object_of(pairs, 2);
    lemma_object_of(pairs, 3);
    lemma_object_of(pairs, 4);
    lemma_object_of(pairs, 5);
    lemma_object_of(pairs, 6);
    lemma_object_of(pairs, 7);
    lemma_object_of(pairs, 8);
    lemma_object_of(pairs, 9);
    lemma_object_of(pairs, 10);
    lemma_object_of(pairs, 11);
    lemma_object_of(pairs, 12);
    lemma_object_of(pairs, 14);
    lemma_object_of(pairs, 15);
}

/// A search looks at the first fifty thousand rows, and at all of them where there are no more.
pub proof fn law_how_many_rows_are_looked_at<A>(rows: Seq<A>)
    ensures
        looked_at(rows).is_prefix_of(rows),
        looked_at(rows).len() == if rows.len() < 50000 {
            rows.len()
        } else {
            50000
        },
{
}

/// The answer repeats the filters of the request, each under its name, and nothing else.
pub proof fn law_filters_are_repeated(params: Seq<(Seq<char>, Seq<char>)>, key: Seq<char>)
    ensures
        ({
            let told = Json::Object(object_of(filter_members(params)));
            let known = key == "author"@ || key == "since"@ || key == "before"@ || key
                == "code_origin"@;
            member(told, key) == if known && value_of(params, key) is Some {
                Some(Json::Text(value_of(params, key)->0))
            } else {
                None
            }
        }),
{
    reveal_strlit("author");
    reveal_strlit("since");
    reveal_strlit("before");
    reveal_strlit("code_origin");
    assert("author"@.len() == 6 && "since"@.len() == 5 && "before"@.len() == 6 && "code_origin"@.len()
        == 11 && "author"@[0] != "before"@[0]);
    let none = Seq::<(Seq<char>, Json)>::empty();
    let p1 = none + filter_member(params, "author"@);
    let p2 = p1 + filter_member(params, "since"@);
    let p3 = p2 + filter_member(params, "before"@);
    let p4 = p3 + filter_member(params, "code_origin"@);
    assert(p1 =~= filter_member(params, "author"@));
    lemma_filter_member(none, params, "author"@);
    lemma_filter_member(p1, params, "since"@);
    lemma_filter_member(p2, params, "before"@);
    lemma_filter_member(p3, params, "code_origin"@);
    assert forall|k: Seq<char>| (#[trigger] member(Json::Object(object_of(none)), k)) is None by {}
}

proof fn lemma_filter_member(
    pairs: Seq<(Seq<char>, Json)>,
    params: Seq<(Seq<char>, Seq<char>)>,
    key: Seq<char>,
)
    ensures
        ({
            let more = Json::Object(object_of(pairs + filter_member(params, key)));
            let j = Json::Object(object_of(pairs));
            &&& value_of(params, key) matches Some(v) ==> member(more, key) == Some(Json::Text(v))
            &&& value_of(params, key) is None ==> member(more, key) == member(j, key)
            &&& forall|other: Seq<char>|
                other != key ==> #[trigger] member(more, other) == member(j, other)
        }),
{
    let all = pairs + filter_member(params, key);
    if value_of(params, key) is Some {
        assert(all.drop_last() =~= pairs);
    } else {
        assert(all =~= pairs);
    }
}

/// The link of a hit leads to its turn: its path is that of the session in its repository, and what
/// it asks for is the commit, the turn of the event, or the first one where it has none, and no
/// other turn.
pub proof fn law_links_lead_to_the_turn(public_url: Seq<char>, row: SearchRowView)
    requires
        !row.owner.contains('/'),
        !row.name.contains('/'),
        !row.session.contains('/'),
        row.turn < usize::MAX,
    ensures
        ({
            let path = "/api/agents/"@ + row.owner + "/"@ + row.name + "/sessions/"@ + row.session;
            let turn = if row.turn == 0 {
                1
            } else {
                row.turn as nat
            };
            let from = decimal(turn);
            let to = decimal(turn + 1);
            &&& row_url(public_url, row) == public_url + path + "?ref="@ + row.oid + "&from="@ + from
                + "&to="@ + to + "&detail=inline"@
            &&& endpoint_of("GET"@, path) == (EndpointView::Repository {
                owner: row.owner,
                name: row.name,
                part: RepositoryPartView::Session(row.session),
            })
            &&& read_request(seq![("ref"@, row.oid), ("from"@, from), ("to"@, to)]) == Ok::<
                (Seq<char>, nat, nat),
                IndexError,
            >((row.oid, turn, turn + 1))
        }),
{
    law_repository_paths(row.owner, row.name, row.session);
    let turn = if row.turn == 0 {
        1
    } else {
        row.turn as nat
    };
    law_requests_ask_for_turns(row.oid, turn, turn + 1);
    let path = "/api/agents/"@ + row.owner + "/"@ + row.name + "/sessions/"@ + row.session;
    assert(public_url + "/api/agents/"@ + row.owner + "/"@ + row.name + "/sessions/"@ + row.session
        =~= public_url + path);
}

} // verus!
