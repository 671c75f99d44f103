//! The HTTP interface: which requests are served, to whom, and how.
use crate::json::{as_text, copy, decode, decoded, encode, encoded, flag, flag_in, get, json_of,
    jsons, lemma_object_of, list, member, members, object, object_of, pair, saved_texts, text,
    text_in, texts_in, Json};
use crate::outside::{current_second, is_date, is_hyphenated_id, optional, pairs_of,
    random_hyphenated, read_url, url_of, UrlView};
use crate::params::{law_last_parameter_counts, lemma_value_of, parameter, value_of};
use crate::space::{is_update, policy_json, update_of, Policy, PolicyUpdate, SpaceError};
use crate::state::{account_pairs, by_name, can_start, clone_url, create_fault, find, holder,
    is_drawn, law_created_repository_is_found, law_login_needs_a_live_token,
    law_logout_ends_one_session, law_refresh_needs_a_good_token, law_session_expires,
    law_the_exchanged_token_is_spent, lemma_find, name_fault, new_record, origin_texts,
    origins_kept, renewable, repository_json, repository_views, same_record, session_at,
    session_clash, session_json, token_hash, valid_name, Config, Fresh, FreshView, RecordView,
    Repository, RepositoryView, State, StateError, Tables, Unique, ACCESS_SECONDS};
use crate::text::{after, append, before, halves, join, joined, law_first_separator_parts_a_text,
    law_joining_undoes_splitting, law_leading_and_trailing_characters_come_off,
    law_prefixes_and_suffixes_come_off, law_separator_parts_a_text,
    law_text_without_separator_is_one_part, lemma_split_on_nonempty, lines, lists, same,
    same_folded, same_ignoring_case, skip_leading, split, split_lines, split_on, split_once,
    starts_with, strip_leading, strip_prefix, strip_suffix, texts, utf8_len};
use serde_json::Value;
use vstd::prelude::*;
use vstd::utf8::encode_utf8;

verus! {

// ---------------------------------------------------------------------------
// Failures and replies
// ---------------------------------------------------------------------------

/// Why a request is refused: the status of the reply, and a message.
#[derive(Debug)]
pub struct ApiError {
    pub status: u16,
    pub message: String,
}

/// Why a request is refused, seen through its characters.
#[verifier::ext_equal]
pub struct Refusal {
    pub status: u16,
    pub message: Seq<char>,
}

impl View for ApiError {
    type V = Refusal;

    open spec fn view(&self) -> Refusal {
        Refusal { status: self.status, message: self.message@ }
    }
}

/// A refusal with a status and a message.
pub open spec fn refusal(status: u16, message: Seq<char>) -> Refusal {
    Refusal { status, message }
}

/// Refuses a request.
pub fn error(status: u16, message: &str) -> (r: ApiError)
    ensures
        r@ == refusal(status, message@),
{
    ApiError { status, message: message.to_owned() }
}

/// Refuses a request whose search, read or push is at fault, for the reason given.
pub fn unprocessable(message: &str) -> (r: ApiError)
    ensures
        r@ == refusal(422, message@),
{
    error(422, message)
}

/// A reply: its status, its headers and its body.
pub struct Reply {
    pub status: u16,
    pub headers: Vec<(String, String)>,
    pub body: Vec<u8>,
}

/// A reply, seen through what it holds.
#[verifier::ext_equal]
pub struct ReplyView {
    pub status: u16,
    pub headers: Seq<(Seq<char>, Seq<char>)>,
    pub body: Seq<u8>,
}

impl View for Reply {
    type V = ReplyView;

    open spec fn view(&self) -> ReplyView {
        ReplyView { status: self.status, headers: pairs_of(self.headers@), body: self.body@ }
    }
}

/// The headers of a reply whose body has a type: it is not to be stored.
pub open spec fn typed_headers(content_type: Seq<char>) -> Seq<(Seq<char>, Seq<char>)> {
    seq![("Content-Type"@, content_type), ("Cache-Control"@, "no-store"@)]
}

/// A reply with a JSON document.
pub open spec fn json_reply(status: u16, value: Json) -> ReplyView {
    ReplyView {
        status,
        headers: typed_headers("application/json; charset=utf-8"@),
        body: encoded(value),
    }
}

fn headers_for(content_type: &str) -> (r: Vec<(String, String)>)
    ensures
        pairs_of(r@) == typed_headers(content_type@),
{
    let r = vec![
        ("Content-Type".to_owned(), content_type.to_owned()),
        ("Cache-Control".to_owned(), "no-store".to_owned()),
    ];
    assert(pairs_of(r@) == typed_headers(content_type@));
    r
}

impl Reply {
    /// A reply with a JSON document.
    pub fn json(status: u16, value: &Value) -> (r: Self)
        ensures
            r@ == json_reply(status, json_of(*value)),
    {
        Reply { status, headers: headers_for("application/json; charset=utf-8"), body: encode(value) }
    }

    /// The head of a reply whose body is a stored file.
    pub fn file() -> (r: Self)
        ensures
            r@ == (ReplyView {
                status: 200,
                headers: typed_headers("application/octet-stream"@),
                body: Seq::empty(),
            }),
    {
        let r = Reply {
            status: 200,
            headers: headers_for("application/octet-stream"),
            body: Vec::new(),
        };
        assert(r@.body == Seq::<u8>::empty());
        r
    }
}

/// The kind of failure that a status stands for.
pub open spec fn failure_kind(status: u16) -> Seq<char> {
    if status == 401 {
        "unauthorized"@
    } else if status == 403 {
        "forbidden"@
    } else if status == 404 {
        "not_found"@
    } else if status == 409 {
        "conflict"@
    } else if status == 412 {
        "agent_identity_mismatch"@
    } else if status == 428 {
        "agent_identity_required"@
    } else if status == 413 {
        "payload_too_large"@
    } else {
        "request_failed"@
    }
}

/// What a client is told of a failure: nothing of what went wrong inside the Hub.
pub open spec fn failure_text(e: Refusal) -> Seq<char> {
    if e.status == 500 {
        "Internal Hub error; see server diagnostics"@
    } else {
        e.message
    }
}

/// The JSON form of a failure.
pub open spec fn failure_json(e: Refusal) -> Json {
    Json::Object(
        object_of(
            seq![
                ("error"@, Json::Text(failure_text(e))),
                ("kind"@, Json::Text(failure_kind(e.status))),
            ],
        ),
    )
}

fn kind_of(status: u16) -> (r: String)
    ensures
        r@ == failure_kind(status),
{
    if status == 401 {
        "unauthorized".to_owned()
    } else if status == 403 {
        "forbidden".to_owned()
    } else if status == 404 {
        "not_found".to_owned()
    } else if status == 409 {
        "conflict".to_owned()
    } else if status == 412 {
        "agent_identity_mismatch".to_owned()
    } else if status == 428 {
        "agent_identity_required".to_owned()
    } else if status == 413 {
        "payload_too_large".to_owned()
    } else {
        "request_failed".to_owned()
    }
}

/// The reply to a request that is refused.
pub fn failure_reply(e: &ApiError) -> (r: Reply)
    ensures
        r@ == json_reply(e.status, failure_json(e@)),
{
    let message = if e.status == 500 {
        "Internal Hub error; see server diagnostics".to_owned()
    } else {
        e.message.clone()
    };
    let pairs = vec![
        pair("error", text(message.as_str())),
        pair("kind", text(kind_of(e.status).as_str())),
    ];
    assert(members(pairs@) == seq![
        ("error"@, Json::Text(failure_text(e@))),
        ("kind"@, Json::Text(failure_kind(e.status))),
    ]);
    Reply::json(e.status, &object(pairs))
}

// ---------------------------------------------------------------------------
// Requests
// ---------------------------------------------------------------------------

/// The head of a request.
pub struct Request {
    pub method: String,
    /// The path and query, as the request line gives them.
    pub target: String,
    pub headers: Vec<(String, String)>,
}

/// The value of a header: the first one with the name, whatever its case.
pub open spec fn header_value(headers: Seq<(Seq<char>, Seq<char>)>, name: Seq<char>) -> Option<
    Seq<char>,
>
    decreases headers.len(),
{
    if headers.len() == 0 {
        None
    } else if same_folded(headers[0].0, name) {
        Some(headers[0].1)
    } else {
        header_value(headers.skip(1), name)
    }
}

/// Looks a header up.
pub fn request_header(request: &Request, name: &str) -> (r: Option<String>)
    ensures
        optional(r) == header_value(pairs_of(request.headers@), name@),
{
    let ghost all = pairs_of(request.headers@);
    let mut i: usize = 0;
    assert(all.skip(0) == all);
    while i < request.headers.len()
        invariant
            i <= request.headers@.len(),
            all == pairs_of(request.headers@),
            header_value(all, name@) == header_value(all.skip(i as int), name@),
        decreases request.headers@.len() - i,
    {
        assert(all.skip(i as int)[0] == all[i as int]);
        assert(all.skip(i as int).skip(1) == all.skip(i + 1));
        if same_ignoring_case(request.headers[i].0.as_str(), name) {
            return Some(request.headers[i].1.clone());
        }
        i = i + 1;
    }
    None
}

/// How many bytes the JSON body of a request may have.
pub const MAX_JSON: usize = 65536;

/// The document in the body of a request, or why it is refused.
pub open spec fn body_json(body: Seq<u8>) -> Result<Json, Refusal> {
    if body.len() > MAX_JSON {
        Err(refusal(413, "JSON request exceeds limit"@))
    } else {
        match decoded(body) {
            Some(j) => Ok(j),
            None => Err(refusal(400, "Invalid JSON body"@)),
        }
    }
}

/// Reads the JSON body of a request.
pub fn json_body(body: &[u8]) -> (r: Result<Value, ApiError>)
    ensures
        match body_json(body@) {
            Ok(j) => r is Ok && json_of(r->Ok_0) == j,
            Err(e) => r is Err && r->Err_0@ == e,
        },
{
    if body.len() > MAX_JSON {
        return Err(error(413, "JSON request exceeds limit"));
    }
    match decode(body) {
        Some(v) => Ok(v),
        None => Err(error(400, "Invalid JSON body")),
    }
}

/// The text of a member that a request must have.
pub open spec fn member_text(j: Json, key: Seq<char>) -> Result<Seq<char>, Refusal> {
    match as_text(member(j, key)) {
        Some(s) => Ok(s),
        None => Err(refusal(400, "Missing "@ + key)),
    }
}

/// Reads the text of a member that a request must have.
pub fn string(value: &Value, key: &str) -> (r: Result<String, ApiError>)
    ensures
        match member_text(json_of(*value), key@) {
            Ok(s) => r is Ok && r->Ok_0@ == s,
            Err(e) => r is Err && r->Err_0@ == e,
        },
{
    match get(value, key) {
        Some(v) => match text_in(v) {
            Some(s) => {
                return Ok(s.to_owned());
            },
            None => {},
        },
        None => {},
    }
    let mut message = "Missing ".to_owned();
    append(&mut message, key);
    Err(ApiError { status: 400, message })
}

// ---------------------------------------------------------------------------
// Endpoints
// ---------------------------------------------------------------------------

/// What a path of a repository asks for.
#[derive(Debug)]
pub enum RepositoryPart {
    Info,
    Refs,
    Session(String),
    Unsupported,
}

/// What a request asks for, by its method and its path.
#[derive(Debug)]
pub enum Endpoint {
    Health,
    Login,
    Refresh,
    Me,
    Logout,
    Search,
    CreateRepository,
    Repositories { for_repo: bool },
    StorageStatus,
    StoragePolicy,
    StorageCleanup,
    Repository { owner: String, name: String, part: RepositoryPart },
    Git { owner: String, name: String, suffix: String },
    Unsupported,
}

/// What a path of a repository asks for, seen through its characters.
pub enum RepositoryPartView {
    Info,
    Refs,
    Session(Seq<char>),
    Unsupported,
}

/// What a request asks for, seen through its characters.
pub enum EndpointView {
    Health,
    Login,
    Refresh,
    Me,
    Logout,
    Search,
    CreateRepository,
    Repositories { for_repo: bool },
    StorageStatus,
    StoragePolicy,
    StorageCleanup,
    Repository { owner: Seq<char>, name: Seq<char>, part: RepositoryPartView },
    Git { owner: Seq<char>, name: Seq<char>, suffix: Seq<char> },
    Unsupported,
}

impl View for RepositoryPart {
    type V = RepositoryPartView;

    open spec fn view(&self) -> RepositoryPartView {
        match self {
            RepositoryPart::Info => RepositoryPartView::Info,
            RepositoryPart::Refs => RepositoryPartView::Refs,
            RepositoryPart::Session(s) => RepositoryPartView::Session(s@),
            RepositoryPart::Unsupported => RepositoryPartView::Unsupported,
        }
    }
}

impl View for Endpoint {
    type V = EndpointView;

    open spec fn view(&self) -> EndpointView {
        match self {
            Endpoint::Health => EndpointView::Health,
            Endpoint::Login => EndpointView::Login,
            Endpoint::Refresh => EndpointView::Refresh,
            Endpoint::Me => EndpointView::Me,
            Endpoint::Logout => EndpointView::Logout,
            Endpoint::Search => EndpointView::Search,
            Endpoint::CreateRepository => EndpointView::CreateRepository,
            Endpoint::Repositories { for_repo } => EndpointView::Repositories {
                for_repo: *for_repo,
            },
            Endpoint::StorageStatus => EndpointView::StorageStatus,
            Endpoint::StoragePolicy => EndpointView::StoragePolicy,
            Endpoint::StorageCleanup => EndpointView::StorageCleanup,
            Endpoint::Repository { owner, name, part } => EndpointView::Repository {
                owner: owner@,
                name: name@,
                part: part@,
            },
            Endpoint::Git { owner, name, suffix } => EndpointView::Git {
                owner: owner@,
                name: name@,
                suffix: suffix@,
            },
            Endpoint::Unsupported => EndpointView::Unsupported,
        }
    }
}

/// What a path below a repository asks for; `parts` are the segments of the path.
pub open spec fn part_of(method: Seq<char>, parts: Seq<Seq<char>>) -> RepositoryPartView {
    if parts.len() == 4 && method == "GET"@ {
        RepositoryPartView::Info
    } else if parts.len() == 5 && parts[4] == "refs"@ && method == "GET"@ {
        RepositoryPartView::Refs
    } else if parts.len() == 6 && parts[4] == "sessions"@ && method == "GET"@ {
        RepositoryPartView::Session(parts[5])
    } else {
        RepositoryPartView::Unsupported
    }
}

/// What the segments of a path ask for.
pub open spec fn segments_endpoint(method: Seq<char>, parts: Seq<Seq<char>>) -> EndpointView {
    if parts.len() >= 4 && parts[0] == "api"@ && parts[1] == "agents"@ {
        EndpointView::Repository { owner: parts[2], name: parts[3], part: part_of(method, parts) }
    } else if parts.len() >= 3 && before(parts[1], ".git"@) is Some {
        EndpointView::Git {
            owner: parts[0],
            name: before(parts[1], ".git"@)->0,
            suffix: joined(parts.skip(2), "/"@),
        }
    } else {
        EndpointView::Unsupported
    }
}

/// What a request asks for.
pub open spec fn endpoint_of(method: Seq<char>, path: Seq<char>) -> EndpointView {
    if path == "/api/health"@ && method == "GET"@ {
        EndpointView::Health
    } else if path == "/api/auth/login"@ && method == "POST"@ {
        EndpointView::Login
    } else if path == "/api/auth/refresh"@ && method == "POST"@ {
        EndpointView::Refresh
    } else if path == "/api/auth/me"@ && method == "GET"@ {
        EndpointView::Me
    } else if path == "/api/auth/logout"@ && method == "POST"@ {
        EndpointView::Logout
    } else if path == "/api/search/sessions"@ && method == "GET"@ {
        EndpointView::Search
    } else if path == "/api/agents"@ && method == "POST"@ {
        EndpointView::CreateRepository
    } else if path == "/api/agents"@ && method == "GET"@ {
        EndpointView::Repositories { for_repo: false }
    } else if path == "/api/agents/for-repo"@ && method == "GET"@ {
        EndpointView::Repositories { for_repo: true }
    } else if path == "/api/storage"@ && method == "GET"@ {
        EndpointView::StorageStatus
    } else if path == "/api/storage/policy"@ && method == "PATCH"@ {
        EndpointView::StoragePolicy
    } else if path == "/api/storage/cleanup"@ && method == "POST"@ {
        EndpointView::StorageCleanup
    } else {
        segments_endpoint(method, split_on(skip_leading(path, '/'), '/'))
    }
}

fn is_route(method: &str, path: &str, want_method: &str, want_path: &str) -> (r: bool)
    ensures
        r == (path@ == want_path@ && method@ == want_method@),
{
    same(path, want_path) && same(method, want_method)
}

/// Tells what a request asks for.
pub fn endpoint(method: &str, path: &str) -> (r: Endpoint)
    ensures
        r@ == endpoint_of(method@, path@),
{
    if is_route(method, path, "GET", "/api/health") {
        return Endpoint::Health;
    }
    if is_route(method, path, "POST", "/api/auth/login") {
        return Endpoint::Login;
    }
    if is_route(method, path, "POST", "/api/auth/refresh") {
        return Endpoint::Refresh;
    }
    if is_route(method, path, "GET", "/api/auth/me") {
        return Endpoint::Me;
    }
    if is_route(method, path, "POST", "/api/auth/logout") {
        return Endpoint::Logout;
    }
    if is_route(method, path, "GET", "/api/search/sessions") {
        return Endpoint::Search;
    }
    if is_route(method, path, "POST", "/api/agents") {
        return Endpoint::CreateRepository;
    }
    if is_route(method, path, "GET", "/api/agents") {
        return Endpoint::Repositories { for_repo: false };
    }
    if is_route(method, path, "GET", "/api/agents/for-repo") {
        return Endpoint::Repositories { for_repo: true };
    }
    if is_route(method, path, "GET", "/api/storage") {
        return Endpoint::StorageStatus;
    }
    if is_route(method, path, "PATCH", "/api/storage/policy") {
        return Endpoint::StoragePolicy;
    }
    if is_route(method, path, "POST", "/api/storage/cleanup") {
        return Endpoint::StorageCleanup;
    }
    let parts = split(strip_leading(path, '/').as_str(), '/');
    let ghost views = texts(parts@);
    assert(views.len() == parts@.len());
    assert(forall|i: int| 0 <= i < parts@.len() ==> #[trigger] views[i] == parts@[i]@);
    if parts.len() >= 4 && same(parts[0].as_str(), "api") && same(parts[1].as_str(), "agents") {
        let part = if parts.len() == 4 && same(method, "GET") {
            RepositoryPart::Info
        } else if parts.len() == 5 && same(parts[4].as_str(), "refs") && same(method, "GET") {
            RepositoryPart::Refs
        } else if parts.len() == 6 && same(parts[4].as_str(), "sessions") && same(method, "GET") {
            RepositoryPart::Session(parts[5].clone())
        } else {
            RepositoryPart::Unsupported
        };
        return Endpoint::Repository { owner: parts[2].clone(), name: parts[3].clone(), part };
    }
    if parts.len() >= 3 {
        match strip_suffix(parts[1].as_str(), ".git") {
            Some(name) => {
                return Endpoint::Git {
                    owner: parts[0].clone(),
                    name,
                    suffix: join(&parts, 2, "/"),
                };
            },
            None => {},
        }
    }
    Endpoint::Unsupported
}

// ---------------------------------------------------------------------------
// Handling
// ---------------------------------------------------------------------------

/// What is to be done for a request. Those from `Me` on are for the owner alone.
pub enum Action {
    /// The Hub is well.
    Health(Reply),
    /// Log in with the token in the body.
    Login,
    /// Exchange the refresh token in the body.
    Refresh,
    /// Nothing more: this is the reply.
    Reply(Reply),
    Search { params: Vec<(String, String)> },
    /// Create the repository that the body names.
    CreateRepository,
    Repositories { for_repo: bool, params: Vec<(String, String)> },
    StorageStatus,
    /// Change the storage policy as the body asks.
    StoragePolicy,
    /// List or remove expired temporary files, as the body asks.
    StorageCleanup,
    Repository { repo: Repository },
    Refs { repo: Repository },
    Session { repo: Repository, session: String, params: Vec<(String, String)> },
    Lfs { repo: Repository, suffix: String, access: String },
    Git { repo: Repository, suffix: String, query: String },
}

/// What is to be done for a request, seen through what it holds.
pub enum ActionView {
    Health(ReplyView),
    Login,
    Refresh,
    Reply(ReplyView),
    Search { params: Seq<(Seq<char>, Seq<char>)> },
    CreateRepository,
    Repositories { for_repo: bool, params: Seq<(Seq<char>, Seq<char>)> },
    StorageStatus,
    StoragePolicy,
    StorageCleanup,
    Repository { repo: RepositoryView },
    Refs { repo: RepositoryView },
    Session { repo: RepositoryView, session: Seq<char>, params: Seq<(Seq<char>, Seq<char>)> },
    Lfs { repo: RepositoryView, suffix: Seq<char>, access: Seq<char> },
    Git { repo: RepositoryView, suffix: Seq<char>, query: Seq<char> },
}

impl View for Action {
    type V = ActionView;

    open spec fn view(&self) -> ActionView {
        match self {
            Action::Health(reply) => ActionView::Health(reply@),
            Action::Login => ActionView::Login,
            Action::Refresh => ActionView::Refresh,
            Action::Reply(reply) => ActionView::Reply(reply@),
            Action::Search { params } => ActionView::Search { params: pairs_of(params@) },
            Action::CreateRepository => ActionView::CreateRepository,
            Action::Repositories { for_repo, params } => ActionView::Repositories {
                for_repo: *for_repo,
                params: pairs_of(params@),
            },
            Action::StorageStatus => ActionView::StorageStatus,
            Action::StoragePolicy => ActionView::StoragePolicy,
            Action::StorageCleanup => ActionView::StorageCleanup,
            Action::Repository { repo } => ActionView::Repository { repo: repo@ },
            Action::Refs { repo } => ActionView::Refs { repo: repo@ },
            Action::Session { repo, session, params } => ActionView::Session {
                repo: repo@,
                session: session@,
                params: pairs_of(params@),
            },
            Action::Lfs { repo, suffix, access } => ActionView::Lfs {
                repo: repo@,
                suffix: suffix@,
                access: access@,
            },
            Action::Git { repo, suffix, query } => ActionView::Git {
                repo: repo@,
                suffix: suffix@,
                query: query@,
            },
        }
    }
}

impl ActionView {
    /// Whether the action is for anyone.
    pub open spec fn is_open(self) -> bool {
        self is Health || self is Login || self is Refresh
    }
}

impl Action {
    /// Tells whether the action is for anyone.
    pub fn is_open(&self) -> (r: bool)
        ensures
            r == self@.is_open(),
    {
        match self {
            Action::Health(_) => true,
            Action::Login => true,
            Action::Refresh => true,
            _ => false,
        }
    }
}

/// The head of a request, seen through its characters.
#[verifier::ext_equal]
pub struct RequestView {
    pub method: Seq<char>,
    pub target: Seq<char>,
    pub headers: Seq<(Seq<char>, Seq<char>)>,
}

impl View for Request {
    type V = RequestView;

    open spec fn view(&self) -> RequestView {
        RequestView {
            method: self.method@,
            target: self.target@,
            headers: pairs_of(self.headers@),
        }
    }
}

/// How many bytes the target of a request may have.
pub const MAX_TARGET: usize = 8192;

/// The URL of a request, or why it is refused.
pub open spec fn request_url(target: Seq<char>) -> Result<UrlView, Refusal> {
    if encode_utf8(target).len() > MAX_TARGET {
        Err(refusal(414, "Request URL is too long"@))
    } else {
        match url_of("http://localhost"@ + target) {
            Ok(u) => Ok(u),
            Err(_) => Err(refusal(400, "Invalid request URL"@)),
        }
    }
}

/// The access token of a request that is good at a time, or why the request is refused.
pub open spec fn granted(tables: Tables, headers: Seq<(Seq<char>, Seq<char>)>, now: int) -> Result<
    Seq<char>,
    Refusal,
> {
    let authorization = match header_value(headers, "Authorization"@) {
        Some(v) => v,
        None => Seq::empty(),
    };
    match after(authorization, "Bearer "@) {
        None => Err(refusal(401, "Bearer authentication required"@)),
        Some(access) => if tables.authenticates(access, now) {
            Ok(access)
        } else {
            Err(refusal(401, "Invalid or expired access token"@))
        },
    }
}

/// The JSON form of the Hub's health.
pub open spec fn health_json() -> Json {
    Json::Object(
        object_of(
            seq![
                ("status"@, Json::Text("ok"@)),
                ("version"@, Json::Text("0.2.0"@)),
                ("selfhost"@, Json::Flag(true)),
            ],
        ),
    )
}

/// An object without members.
pub open spec fn nothing_json() -> Json {
    Json::Object(Map::empty())
}

/// What is to be done for a request to a repository's Git service.
pub open spec fn git_action(
    repo: RepositoryView,
    method: Seq<char>,
    suffix: Seq<char>,
    headers: Seq<(Seq<char>, Seq<char>)>,
    url: UrlView,
    access: Seq<char>,
) -> Result<ActionView, Refusal> {
    match header_value(headers, "X-AgentGit-Expected-Agent-Id"@) {
        None => Err(refusal(428, "Expected repository identity required"@)),
        Some(expected) => if expected != repo.id {
            Err(refusal(412, "Repository identity mismatch"@))
        } else if "info/lfs/"@.is_prefix_of(suffix) {
            Ok(ActionView::Lfs { repo, suffix, access })
        } else if !is_git_operation(method, suffix) {
            Err(refusal(404, "Unsupported Git operation"@))
        } else if method == "GET"@ && !is_git_service(value_of(url.pairs, "service"@)) {
            Err(refusal(400, "Smart HTTP service required"@))
        } else {
            Ok(
                ActionView::Git {
                    repo,
                    suffix,
                    query: match url.query {
                        Some(q) => q,
                        None => Seq::empty(),
                    },
                },
            )
        },
    }
}

/// Whether a path below a repository is an operation of Git over HTTP.
pub open spec fn is_git_operation(method: Seq<char>, suffix: Seq<char>) -> bool {
    ||| method == "GET"@ && suffix == "info/refs"@
    ||| method == "POST"@ && suffix == "git-upload-pack"@
    ||| method == "POST"@ && suffix == "git-receive-pack"@
}

/// Whether a parameter names a service of Git over HTTP.
pub open spec fn is_git_service(service: Option<Seq<char>>) -> bool {
    service == Some("git-upload-pack"@) || service == Some("git-receive-pack"@)
}

/// What is to be done for a request of the owner.
pub open spec fn owner_action(
    config: Config,
    tables: Tables,
    request: RequestView,
    url: UrlView,
    access: Seq<char>,
) -> Result<ActionView, Refusal> {
    match endpoint_of(request.method, url.path) {
        EndpointView::Me => Ok(
            ActionView::Reply(json_reply(200, Json::Object(object_of(account_pairs(config))))),
        ),
        EndpointView::Logout => Ok(ActionView::Reply(json_reply(200, nothing_json()))),
        EndpointView::Search => Ok(ActionView::Search { params: url.pairs }),
        EndpointView::CreateRepository => Ok(ActionView::CreateRepository),
        EndpointView::Repositories { for_repo } => Ok(
            ActionView::Repositories { for_repo, params: url.pairs },
        ),
        EndpointView::StorageStatus => Ok(ActionView::StorageStatus),
        EndpointView::StoragePolicy => Ok(ActionView::StoragePolicy),
        EndpointView::StorageCleanup => Ok(ActionView::StorageCleanup),
        EndpointView::Repository { owner, name, part } => match find(tables.records, owner, name) {
            None => Err(refusal(404, "Repository not found"@)),
            Some(repo) => match part {
                RepositoryPartView::Info => Ok(ActionView::Repository { repo }),
                RepositoryPartView::Refs => Ok(ActionView::Refs { repo }),
                RepositoryPartView::Session(session) => Ok(
                    ActionView::Session { repo, session, params: url.pairs },
                ),
                RepositoryPartView::Unsupported => Err(
                    refusal(404, "Unsupported repository operation"@),
                ),
            },
        },
        EndpointView::Git { owner, name, suffix } => match find(tables.records, owner, name) {
            None => Err(refusal(404, "Repository not found"@)),
            Some(repo) => git_action(repo, request.method, suffix, request.headers, url, access),
        },
        _ => Err(refusal(404, "Unsupported operation"@)),
    }
}

/// What is to be done for a request at a time, or why it is refused.
pub open spec fn handled(config: Config, tables: Tables, request: RequestView, now: int) -> Result<
    ActionView,
    Refusal,
> {
    match request_url(request.target) {
        Err(e) => Err(e),
        Ok(url) => match endpoint_of(request.method, url.path) {
            EndpointView::Health => Ok(ActionView::Health(json_reply(200, health_json()))),
            EndpointView::Login => Ok(ActionView::Login),
            EndpointView::Refresh => Ok(ActionView::Refresh),
            _ => match granted(tables, request.headers, now) {
                Err(e) => Err(e),
                Ok(access) => owner_action(config, tables, request, url, access),
            },
        },
    }
}

/// The tables after a request has been looked at: a logout of the owner ends its session, and
/// nothing else changes anything.
pub open spec fn tables_after(tables: Tables, request: RequestView, now: int) -> Tables {
    match request_url(request.target) {
        Err(_) => tables,
        Ok(url) => match (
            endpoint_of(request.method, url.path),
            granted(tables, request.headers, now),
        ) {
            (EndpointView::Logout, Ok(access)) => tables.logged_out(access),
            _ => tables,
        },
    }
}

fn health() -> (r: Reply)
    ensures
        r@ == json_reply(200, health_json()),
{
    let pairs = vec![
        pair("status", text("ok")),
        pair("version", text("0.2.0")),
        pair("selfhost", flag(true)),
    ];
    assert(members(pairs@) == seq![
        ("status"@, Json::Text("ok"@)),
        ("version"@, Json::Text("0.2.0"@)),
        ("selfhost"@, Json::Flag(true)),
    ]);
    Reply::json(200, &object(pairs))
}

/// A reply that says nothing more than its status.
pub fn empty_reply(status: u16) -> (r: Reply)
    ensures
        r@ == json_reply(status, nothing_json()),
{
    let pairs: Vec<(String, Value)> = Vec::new();
    assert(members(pairs@) == Seq::<(Seq<char>, Json)>::empty());
    Reply::json(status, &object(pairs))
}

fn access_of(state: &State, request: &Request, now: i64) -> (r: Result<String, ApiError>)
    ensures
        match granted(state@, request@.headers, now as int) {
            Ok(access) => r is Ok && r->Ok_0@ == access,
            Err(e) => r is Err && r->Err_0@ == e,
        },
{
    let authorization = match request_header(request, "Authorization") {
        Some(v) => v,
        None => {
            let v = String::new();
            assert(v@ == Seq::<char>::empty());
            v
        },
    };
    match strip_prefix(authorization.as_str(), "Bearer ") {
        None => Err(error(401, "Bearer authentication required")),
        Some(access) => if state.authenticated_at(access.as_str(), now) {
            Ok(access)
        } else {
            Err(error(401, "Invalid or expired access token"))
        },
    }
}

fn is_service(service: &Option<String>) -> (r: bool)
    ensures
        r == is_git_service(optional(*service)),
{
    match service {
        Some(v) => same(v.as_str(), "git-upload-pack") || same(v.as_str(), "git-receive-pack"),
        None => false,
    }
}

fn git_request(
    repo: Repository,
    request: &Request,
    suffix: String,
    params: &Vec<(String, String)>,
    query: Option<String>,
    access: String,
    Ghost(url): Ghost<UrlView>,
) -> (r: Result<Action, ApiError>)
    requires
        url.pairs == pairs_of(params@),
        url.query == optional(query),
    ensures
        match git_action(repo@, request@.method, suffix@, request@.headers, url, access@) {
            Ok(action) => r is Ok && r->Ok_0@ == action,
            Err(e) => r is Err && r->Err_0@ == e,
        },
{
    let expected = match request_header(request, "X-AgentGit-Expected-Agent-Id") {
        Some(v) => v,
        None => {
            return Err(error(428, "Expected repository identity required"));
        },
    };
    if !same(expected.as_str(), repo.id.as_str()) {
        return Err(error(412, "Repository identity mismatch"));
    }
    if starts_with(suffix.as_str(), "info/lfs/") {
        return Ok(Action::Lfs { repo, suffix, access });
    }
    let method = request.method.as_str();
    let operation = (same(method, "GET") && same(suffix.as_str(), "info/refs")) || (same(
        method,
        "POST",
    ) && same(suffix.as_str(), "git-upload-pack")) || (same(method, "POST") && same(
        suffix.as_str(),
        "git-receive-pack",
    ));
    if !operation {
        return Err(error(404, "Unsupported Git operation"));
    }
    if same(method, "GET") && !is_service(&parameter(params, "service")) {
        return Err(error(400, "Smart HTTP service required"));
    }
    let query = match query {
        Some(q) => q,
        None => {
            let q = String::new();
            assert(q@ == Seq::<char>::empty());
            q
        },
    };
    Ok(Action::Git { repo, suffix, query })
}

/// Decides what is to be done for a request at a time.
pub fn handle_at(state: &mut State, request: &Request, now: i64) -> (r: Result<Action, ApiError>)
    ensures
        match handled(old(state).config, old(state)@, request@, now as int) {
            Ok(action) => r is Ok && r->Ok_0@ == action,
            Err(e) => r is Err && r->Err_0@ == e,
        },
        final(state)@ == tables_after(old(state)@, request@, now as int),
        final(state).same_hub(*old(state)),
        old(state)@.wf() ==> final(state)@.wf(),
{
    if utf8_len(request.target.as_str()) > MAX_TARGET {
        return Err(error(414, "Request URL is too long"));
    }
    let mut full = "http://localhost".to_owned();
    append(&mut full, request.target.as_str());
    let url = match read_url(full.as_str()) {
        Ok(u) => u,
        Err(_) => {
            return Err(error(400, "Invalid request URL"));
        },
    };
    let ghost view = url@;
    let asked = endpoint(request.method.as_str(), url.path.as_str());
    match asked {
        Endpoint::Health => {
            return Ok(Action::Health(health()));
        },
        Endpoint::Login => {
            return Ok(Action::Login);
        },
        Endpoint::Refresh => {
            return Ok(Action::Refresh);
        },
        _ => {},
    }
    let access = match access_of(state, request, now) {
        Ok(a) => a,
        Err(e) => {
            return Err(e);
        },
    };
    match asked {
        Endpoint::Me => Ok(Action::Reply(Reply::json(200, &state.account()))),
        Endpoint::Logout => {
            state.logout(access.as_str());
            Ok(Action::Reply(empty_reply(200)))
        },
        Endpoint::Search => Ok(Action::Search { params: url.pairs }),
        Endpoint::CreateRepository => Ok(Action::CreateRepository),
        Endpoint::Repositories { for_repo } => Ok(
            Action::Repositories { for_repo, params: url.pairs },
        ),
        Endpoint::StorageStatus => Ok(Action::StorageStatus),
        Endpoint::StoragePolicy => Ok(Action::StoragePolicy),
        Endpoint::StorageCleanup => Ok(Action::StorageCleanup),
        Endpoint::Repository { owner, name, part } => {
            let repo = match state.repository(owner.as_str(), name.as_str()) {
                Some(repo) => repo,
                None => {
                    return Err(error(404, "Repository not found"));
                },
            };
            match part {
                RepositoryPart::Info => Ok(Action::Repository { repo }),
                RepositoryPart::Refs => Ok(Action::Refs { repo }),
                RepositoryPart::Session(session) => Ok(
                    Action::Session { repo, session, params: url.pairs },
                ),
                RepositoryPart::Unsupported => Err(error(404, "Unsupported repository operation")),
            }
        },
        Endpoint::Git { owner, name, suffix } => {
            let repo = match state.repository(owner.as_str(), name.as_str()) {
                Some(repo) => repo,
                None => {
                    return Err(error(404, "Repository not found"));
                },
            };
            git_request(repo, request, suffix, &url.pairs, url.query, access, Ghost(view))
        },
        _ => Err(error(404, "Unsupported operation")),
    }
}

/// Decides what is to be done for a request now.
pub fn handle(state: &mut State, request: &Request) -> (r: Result<Action, ApiError>)
    ensures
        exists|now: int|
            0 <= now && is_date(now) && (match #[trigger] handled(
                old(state).config,
                old(state)@,
                request@,
                now,
            ) {
                Ok(action) => r is Ok && r->Ok_0@ == action,
                Err(e) => r is Err && r->Err_0@ == e,
            }) && final(state)@ == tables_after(old(state)@, request@, now),
        final(state).same_hub(*old(state)),
        old(state)@.wf() ==> final(state)@.wf(),
{
    let now = current_second();
    let r = handle_at(state, request, now);
    proof {
        let h = handled(old(state).config, old(state)@, request@, now as int);
        assert(match h {
            Ok(action) => r is Ok && r->Ok_0@ == action,
            Err(e) => r is Err && r->Err_0@ == e,
        });
    }
    r
}

/// Without a good access token, a request is served only where it asks for the Hub's health, logs
/// in or refreshes a session; every other request that can be read is refused as unauthorized, and
/// nothing changes.
pub proof fn law_only_the_owner_is_served(
    config: Config,
    tables: Tables,
    request: RequestView,
    now: int,
)
    requires
        granted(tables, request.headers, now) is Err,
    ensures
        tables_after(tables, request, now) == tables,
        match handled(config, tables, request, now) {
            Ok(action) => action.is_open(),
            Err(e) => e.status == 401 || request_url(request.target) is Err,
        },
{
}

/// An access token that has expired, that was never given out, or whose personal token was
/// revoked serves no request of the owner.
pub proof fn law_a_bad_token_is_no_grant(
    tables: Tables,
    headers: Seq<(Seq<char>, Seq<char>)>,
    access: Seq<char>,
    now: int,
)
    requires
        header_value(headers, "Authorization"@) == Some("Bearer "@ + access),
        !tables.authenticates(access, now),
    ensures
        granted(tables, headers, now) == Err::<Seq<char>, _>(
            refusal(401, "Invalid or expired access token"@),
        ),
{
    let full = "Bearer "@ + access;
    assert("Bearer "@.is_prefix_of(full));
    assert(full.skip("Bearer "@.len() as int) == access);
}

/// A repository's Git service answers only requests that name the repository's identity: without
/// one they are refused with 428, with another one with 412.
pub proof fn law_git_needs_the_identity(
    repo: RepositoryView,
    method: Seq<char>,
    suffix: Seq<char>,
    headers: Seq<(Seq<char>, Seq<char>)>,
    url: UrlView,
    access: Seq<char>,
)
    requires
        header_value(headers, "X-AgentGit-Expected-Agent-Id"@) != Some(repo.id),
    ensures
        git_action(repo, method, suffix, headers, url, access) matches Err(e) && (e.status == 428
            || e.status == 412),
{
}

// ---------------------------------------------------------------------------
// Sessions of the owner
// ---------------------------------------------------------------------------

/// The text of a member of a request's body, or why the request is refused.
pub open spec fn body_text(body: Seq<u8>, key: Seq<char>) -> Result<Seq<char>, Refusal> {
    match body_json(body) {
        Err(e) => Err(e),
        Ok(j) => member_text(j, key),
    }
}

fn read_body_text(body: &[u8], key: &str) -> (r: Result<String, ApiError>)
    ensures
        match body_text(body@, key@) {
            Ok(s) => r is Ok && r->Ok_0@ == s,
            Err(e) => r is Err && r->Err_0@ == e,
        },
{
    match json_body(body) {
        Ok(v) => string(&v, key),
        Err(e) => Err(e),
    }
}

/// The refusal of a clock that no session can be dated by.
pub open spec fn clock_refusal() -> Refusal {
    refusal(500, "The clock is outside the supported range"@)
}

/// What opening a session for a client comes to.
pub open spec fn session_served(
    pre: State,
    base: Tables,
    pat_id: Seq<char>,
    now: int,
    fresh: FreshView,
    post: State,
    r: Result<Reply, ApiError>,
) -> bool {
    match base.opened(pat_id, now, fresh) {
        Some(tables) => if can_start(now) {
            post@ == tables && r is Ok && r->Ok_0@ == json_reply(
                200,
                session_json(pre.config, fresh, now),
            )
        } else {
            post@ == pre@ && r is Err && r->Err_0@ == clock_refusal()
        },
        None => post@ == pre@ && r is Err && r->Err_0@ == refusal(
            500,
            session_clash(base.sessions, session_at(pat_id, now, fresh)).text(),
        ),
    }
}

/// What a login with a token comes to.
pub open spec fn login_served(
    pre: State,
    token: Seq<char>,
    now: int,
    fresh: FreshView,
    post: State,
    r: Result<Reply, ApiError>,
) -> bool {
    match holder(pre@.pats, token_hash(token)) {
        Some(id) => session_served(pre, pre@, id, now, fresh, post, r),
        None => post@ == pre@ && r is Err && r->Err_0@ == refusal(401, "Invalid or revoked PAT"@),
    }
}

/// What the exchange of a refresh token comes to.
pub open spec fn refresh_served(
    pre: State,
    token: Seq<char>,
    now: int,
    fresh: FreshView,
    post: State,
    r: Result<Reply, ApiError>,
) -> bool {
    match renewable(pre@, pre@.sessions, token_hash(token), now) {
        Some(s) => session_served(pre, pre@.without_session(s.id), s.pat_id, now, fresh, post, r),
        None => post@ == pre@ && r is Err && r->Err_0@ == refusal(
            401,
            "Invalid or expired refresh token"@,
        ),
    }
}

fn session_reply(outcome: Result<Option<Value>, StateError>, refused: &str) -> (r: Result<
    Reply,
    ApiError,
>)
    ensures
        match outcome {
            Ok(Some(v)) => r is Ok && r->Ok_0@ == json_reply(200, json_of(v)),
            Ok(None) => r is Err && r->Err_0@ == refusal(401, refused@),
            Err(e) => r is Err && r->Err_0@ == refusal(500, e.text()),
        },
{
    match outcome {
        Ok(Some(v)) => Ok(Reply::json(200, &v)),
        Ok(None) => Err(error(401, refused)),
        Err(e) => Err(ApiError { status: 500, message: e.message() }),
    }
}

/// Logs in at a time with the token in a request's body.
pub fn login_at(state: &mut State, body: &[u8], now: i64, fresh: Fresh) -> (r: Result<
    Reply,
    ApiError,
>)
    ensures
        match body_text(body@, "token"@) {
            Err(e) => r is Err && r->Err_0@ == e && final(state)@ == old(state)@,
            Ok(token) => login_served(*old(state), token, now as int, fresh@, *final(state), r),
        },
        final(state).same_hub(*old(state)),
        old(state)@.wf() ==> final(state)@.wf(),
{
    match read_body_text(body, "token") {
        Err(e) => Err(e),
        Ok(token) => {
            let outcome = state.login_at(token.as_str(), now, fresh);
            session_reply(outcome, "Invalid or revoked PAT")
        },
    }
}

/// Exchanges at a time the refresh token in a request's body.
pub fn refresh_at(state: &mut State, body: &[u8], now: i64, fresh: Fresh) -> (r: Result<
    Reply,
    ApiError,
>)
    ensures
        match body_text(body@, "refresh_token"@) {
            Err(e) => r is Err && r->Err_0@ == e && final(state)@ == old(state)@,
            Ok(token) => refresh_served(*old(state), token, now as int, fresh@, *final(state), r),
        },
        final(state).same_hub(*old(state)),
        old(state)@.wf() ==> final(state)@.wf(),
{
    match read_body_text(body, "refresh_token") {
        Err(e) => Err(e),
        Ok(token) => {
            let outcome = state.refresh_at(token.as_str(), now, fresh);
            session_reply(outcome, "Invalid or expired refresh token")
        },
    }
}

/// A login that succeeds opens the Hub: with the access token that it returned, the owner is served
/// for an hour, and not longer.
pub proof fn law_login_opens_the_hub(
    pre: State,
    token: Seq<char>,
    now: int,
    fresh: FreshView,
    post: State,
    r: Result<Reply, ApiError>,
    headers: Seq<(Seq<char>, Seq<char>)>,
    at: int,
)
    requires
        login_served(pre, token, now, fresh, post, r),
        r is Ok,
        header_value(headers, "Authorization"@) == Some("Bearer "@ + fresh.access),
    ensures
        if at < now + ACCESS_SECONDS {
            granted(post@, headers, at) == Ok::<Seq<char>, Refusal>(fresh.access)
        } else {
            granted(post@, headers, at) is Err
        },
{
    let id = holder(pre@.pats, token_hash(token))->0;
    law_login_needs_a_live_token(pre@, token);
    law_session_expires(pre@, id, now, fresh, at);
    let full = "Bearer "@ + fresh.access;
    assert("Bearer "@.is_prefix_of(full));
    assert(full.skip("Bearer "@.len() as int) == fresh.access);
}

/// Logs in with the token in a request's body.
pub fn login(state: &mut State, body: &[u8]) -> (r: Result<Reply, ApiError>)
    ensures
        match body_text(body@, "token"@) {
            Err(e) => r is Err && r->Err_0@ == e && final(state)@ == old(state)@,
            Ok(token) => exists|now: int, fresh: FreshView|
                0 <= now && is_date(now) && is_drawn(fresh) && #[trigger] login_served(
                    *old(state),
                    token,
                    now,
                    fresh,
                    *final(state),
                    r,
                ),
        },
        final(state).same_hub(*old(state)),
        old(state)@.wf() ==> final(state)@.wf(),
{
    let now = current_second();
    let fresh = Fresh::draw();
    let ghost f = fresh@;
    let r = login_at(state, body, now, fresh);
    assert(body_text(body@, "token"@) matches Ok(token) ==> login_served(
        *old(state),
        token,
        now as int,
        f,
        *state,
        r,
    ));
    r
}

/// Exchanges the refresh token in a request's body.
pub fn refresh(state: &mut State, body: &[u8]) -> (r: Result<Reply, ApiError>)
    ensures
        match body_text(body@, "refresh_token"@) {
            Err(e) => r is Err && r->Err_0@ == e && final(state)@ == old(state)@,
            Ok(token) => exists|now: int, fresh: FreshView|
                0 <= now && is_date(now) && is_drawn(fresh) && #[trigger] refresh_served(
                    *old(state),
                    token,
                    now,
                    fresh,
                    *final(state),
                    r,
                ),
        },
        final(state).same_hub(*old(state)),
        old(state)@.wf() ==> final(state)@.wf(),
{
    let now = current_second();
    let fresh = Fresh::draw();
    let ghost f = fresh@;
    let r = refresh_at(state, body, now, fresh);
    assert(body_text(body@, "refresh_token"@) matches Ok(token) ==> refresh_served(
        *old(state),
        token,
        now as int,
        f,
        *state,
        r,
    ));
    r
}

// ---------------------------------------------------------------------------
// Repositories
// ---------------------------------------------------------------------------

/// What a request to create a repository asks for: its name and its origins, or why the request
/// is refused.
pub open spec fn creation(
    config: Config,
    tables: Tables,
    body: Seq<u8>,
    refused: Option<Seq<char>>,
) -> Result<(Seq<char>, Json), Refusal> {
    match body_json(body) {
        Err(e) => Err(e),
        Ok(j) => if member(j, "public"@) is Some && member(j, "public"@) != Some(
            Json::Flag(false),
        ) {
            Err(refusal(403, "Only private repositories are supported"@))
        } else if as_text(member(j, "owner"@)) is Some && as_text(member(j, "owner"@)) != Some(
            config.owner@,
        ) {
            Err(refusal(403, "Only the configured owner is supported"@))
        } else {
            match member_text(j, "name"@) {
                Err(e) => Err(e),
                Ok(name) => match name_fault(name, refused) {
                    Some(fault) => Err(refusal(400, fault)),
                    None => if find(tables.records, config.owner@, name) is Some {
                        Err(refusal(409, "Repository already exists"@))
                    } else {
                        Ok(
                            (
                                name,
                                match member(j, "repo_origins"@) {
                                    Some(origins) => origins,
                                    None => Json::List(Seq::empty()),
                                },
                            ),
                        )
                    },
                },
            }
        },
    }
}

/// The JSON form of a repository that was just created.
pub open spec fn created_json(config: Config, repo: RepositoryView) -> Json {
    Json::Object(
        object_of(
            seq![
                ("agent_id"@, Json::Text(repo.id)),
                ("owner"@, Json::Text(repo.owner)),
                ("name"@, Json::Text(repo.name)),
                ("push_url"@, Json::Text(clone_url(config, repo))),
                (
                    "web_url"@,
                    Json::Text(
                        config.public_url@ + "/api/agents/"@ + repo.owner + "/"@ + repo.name,
                    ),
                ),
            ],
        ),
    )
}

/// What the creation of a repository with an identifier at a time comes to.
pub open spec fn creation_served(
    pre: State,
    name: Seq<char>,
    refused: Option<Seq<char>>,
    origins: Json,
    id: Seq<char>,
    now: i64,
    post: State,
    r: Result<(Repository, Reply), ApiError>,
) -> bool {
    let repo = RepositoryView { id, owner: pre.config.owner@, name };
    match create_fault(pre@, pre.config.owner@, name, refused, origins) {
        Some(fault) => post@ == pre@ && r is Err && r->Err_0@ == refusal(500, fault),
        None => match pre@.with_record(new_record(repo, origins, now)) {
            Some(tables) => {
                &&& post@ == tables
                &&& r is Ok
                &&& r->Ok_0.0@ == repo
                &&& r->Ok_0.1@ == json_reply(201, created_json(pre.config, repo))
                &&& origins_kept(origins)
            },
            None => post@ == pre@ && r is Err && r->Err_0@ == refusal(
                500,
                Unique::RepositoryId.text(),
            ),
        },
    }
}

/// The name that a request to create a repository gives, where it gives one.
pub fn requested_name(body: &[u8]) -> (r: Option<String>)
    ensures
        match body_text(body@, "name"@) {
            Ok(name) => r is Some && r->0@ == name,
            Err(_) => r is None,
        },
{
    match read_body_text(body, "name") {
        Ok(name) => Some(name),
        Err(_) => None,
    }
}

fn read_creation(state: &State, body: &[u8], refused: &Option<String>) -> (r: Result<
    (String, Value),
    ApiError,
>)
    ensures
        match creation(state.config, state@, body@, optional(*refused)) {
            Ok((name, origins)) => r is Ok && r->Ok_0.0@ == name && json_of(r->Ok_0.1) == origins,
            Err(e) => r is Err && r->Err_0@ == e,
        },
{
    let value = match json_body(body) {
        Ok(v) => v,
        Err(e) => {
            return Err(e);
        },
    };
    match get(&value, "public") {
        Some(v) => {
            let private = match flag_in(v) {
                Some(b) => !b,
                None => false,
            };
            if !private {
                return Err(error(403, "Only private repositories are supported"));
            }
        },
        None => {},
    }
    match get(&value, "owner") {
        Some(v) => match text_in(v) {
            Some(owner) => {
                if !same(owner, state.config.owner.as_str()) {
                    return Err(error(403, "Only the configured owner is supported"));
                }
            },
            None => {},
        },
        None => {},
    }
    let name = match string(&value, "name") {
        Ok(name) => name,
        Err(e) => {
            return Err(e);
        },
    };
    match valid_name(name.as_str(), refused) {
        Ok(_) => {},
        Err(e) => {
            return Err(ApiError { status: 400, message: e.message() });
        },
    }
    if state.repository(state.config.owner.as_str(), name.as_str()).is_some() {
        return Err(error(409, "Repository already exists"));
    }
    let origins = match get(&value, "repo_origins") {
        Some(v) => copy(v),
        None => {
            let none: Vec<Value> = Vec::new();
            assert(jsons(none@) == Seq::<Json>::empty());
            list(none)
        },
    };
    Ok((name, origins))
}

fn created_reply(state: &State, repo: &Repository) -> (r: Reply)
    ensures
        r@ == json_reply(201, created_json(state.config, repo@)),
{
    let mut web = state.config.public_url.clone();
    append(&mut web, "/api/agents/");
    append(&mut web, repo.owner.as_str());
    append(&mut web, "/");
    append(&mut web, repo.name.as_str());
    let pairs = vec![
        pair("agent_id", text(repo.id.as_str())),
        pair("owner", text(repo.owner.as_str())),
        pair("name", text(repo.name.as_str())),
        pair("push_url", text(state.repo_url(repo).as_str())),
        pair("web_url", text(web.as_str())),
    ];
    assert(members(pairs@) == seq![
        ("agent_id"@, Json::Text(repo@.id)),
        ("owner"@, Json::Text(repo@.owner)),
        ("name"@, Json::Text(repo@.name)),
        ("push_url"@, Json::Text(clone_url(state.config, repo@))),
        (
            "web_url"@,
            Json::Text(
                state.config.public_url@ + "/api/agents/"@ + repo@.owner + "/"@ + repo@.name,
            ),
        ),
    ]);
    Reply::json(201, &object(pairs))
}

/// Creates the repository that a request's body names, with an identifier at a time. `refused` is
/// why the shared naming rules refuse the name, where they do.
pub fn create_repository_at(
    state: &mut State,
    body: &[u8],
    refused: &Option<String>,
    id: String,
    now: i64,
) -> (r: Result<(Repository, Reply), ApiError>)
    ensures
        match creation(old(state).config, old(state)@, body@, optional(*refused)) {
            Err(e) => r is Err && r->Err_0@ == e && final(state)@ == old(state)@,
            Ok((name, origins)) => creation_served(
                *old(state),
                name,
                optional(*refused),
                origins,
                id@,
                now,
                *final(state),
                r,
            ),
        },
        final(state).same_hub(*old(state)),
        old(state)@.wf() ==> final(state)@.wf(),
{
    let (name, origins) = match read_creation(state, body, refused) {
        Ok(asked) => asked,
        Err(e) => {
            return Err(e);
        },
    };
    match state.create_repo_at(name.as_str(), refused, &origins, id, now) {
        Ok(repo) => {
            let reply = created_reply(state, &repo);
            Ok((repo, reply))
        },
        Err(e) => Err(ApiError { status: 500, message: e.message() }),
    }
}

/// Creates the repository that a request's body names.
pub fn create_repository(state: &mut State, body: &[u8], refused: &Option<String>) -> (r: Result<
    (Repository, Reply),
    ApiError,
>)
    ensures
        match creation(old(state).config, old(state)@, body@, optional(*refused)) {
            Err(e) => r is Err && r->Err_0@ == e && final(state)@ == old(state)@,
            Ok((name, origins)) => exists|id: Seq<char>, now: i64|
                is_hyphenated_id(id) && 0 <= now && #[trigger] creation_served(
                    *old(state),
                    name,
                    optional(*refused),
                    origins,
                    id,
                    now,
                    *final(state),
                    r,
                ),
        },
        final(state).same_hub(*old(state)),
        old(state)@.wf() ==> final(state)@.wf(),
{
    let id = random_hyphenated();
    let now = current_second();
    let ghost new_id = id@;
    let r = create_repository_at(state, body, refused, id, now);
    proof {
        let asked = creation(old(state).config, old(state)@, body@, optional(*refused));
        if asked is Ok {
            let (name, origins) = asked->Ok_0;
            assert(creation_served(
                *old(state),
                name,
                optional(*refused),
                origins,
                new_id,
                now,
                *state,
                r,
            ));
        }
    }
    r
}

/// How many sessions of a repository are saved.
pub open spec fn sessions_of(counts: Seq<(Seq<char>, u64)>, id: Seq<char>) -> u64
    decreases counts.len(),
{
    if counts.len() == 0 {
        0
    } else if counts[0].0 == id {
        counts[0].1
    } else {
        sessions_of(counts.skip(1), id)
    }
}

/// The counts, seen through their characters.
pub open spec fn count_views(v: Seq<(String, u64)>) -> Seq<(Seq<char>, u64)> {
    Seq::new(v.len(), |i: int| (v[i].0@, v[i].1))
}

fn count_sessions(counts: &Vec<(String, u64)>, id: &str) -> (r: u64)
    ensures
        r == sessions_of(count_views(counts@), id@),
{
    let ghost all = count_views(counts@);
    let mut i: usize = 0;
    assert(all.skip(0) == all);
    while i < counts.len()
        invariant
            i <= counts@.len(),
            all == count_views(counts@),
            sessions_of(all, id@) == sessions_of(all.skip(i as int), id@),
        decreases counts@.len() - i,
    {
        assert(all.skip(i as int)[0] == all[i as int]);
        assert(all.skip(i as int).skip(1) == all.skip(i + 1));
        if same(counts[i].0.as_str(), id) {
            return counts[i].1;
        }
        i = i + 1;
    }
    0
}

/// The reply that describes a repository. `counts` tells how many sessions are saved of each.
pub fn repository_reply(state: &State, repo: &Repository, counts: &Vec<(String, u64)>) -> (r: Reply)
    ensures
        r@ == json_reply(
            200,
            repository_json(
                state.config,
                repo@,
                sessions_of(count_views(counts@), repo@.id),
            ),
        ),
{
    Reply::json(200, &state.repo_json(repo, count_sessions(counts, repo.id.as_str())))
}

/// The JSON document that lists the origins of a repository.
pub open spec fn origins_of(records: Seq<RecordView>, id: Seq<char>) -> Option<Seq<u8>>
    decreases records.len(),
{
    if records.len() == 0 {
        None
    } else if records[0].id == id {
        Some(records[0].origins)
    } else {
        origins_of(records.skip(1), id)
    }
}

/// Whether a repository comes from an origin; refused where its origins cannot be read.
pub open spec fn has_origin(records: Seq<RecordView>, id: Seq<char>, origin: Seq<char>) -> Result<
    bool,
    Refusal,
> {
    match origins_of(records, id) {
        None => Ok(false),
        Some(saved) => match saved_texts(saved) {
            Ok(origins) => Ok(origins.contains(origin)),
            Err(message) => Err(refusal(500, message)),
        },
    }
}

fn comes_from(state: &State, id: &str, origin: &str) -> (r: Result<bool, ApiError>)
    ensures
        match has_origin(state@.records, id@, origin@) {
            Ok(b) => r is Ok && r->Ok_0 == b,
            Err(e) => r is Err && r->Err_0@ == e,
        },
{
    let ghost all = state@.records;
    let mut i: usize = 0;
    assert(all.skip(0) == all);
    while i < state.records.len()
        invariant
            i <= state.records@.len(),
            all == state@.records,
            origins_of(all, id@) == origins_of(all.skip(i as int), id@),
        decreases state.records@.len() - i,
    {
        let record = &state.records[i];
        assert(all.skip(i as int)[0] == record@);
        assert(all.skip(i as int).skip(1) == all.skip(i + 1));
        if same(record.id.as_str(), id) {
            return match texts_in(record.origins.as_slice()) {
                Ok(origins) => Ok(lists(&origins, origin)),
                Err(message) => Err(ApiError { status: 500, message }),
            };
        }
        i = i + 1;
    }
    Ok(false)
}

/// Whether a repository is listed for the parameters of a request: it belongs to the owner and, for
/// a request by origin, comes from the origin. A request by origin without an origin is refused.
pub open spec fn is_listed(
    tables: Tables,
    repo: RepositoryView,
    params: Seq<(Seq<char>, Seq<char>)>,
    for_repo: bool,
) -> Result<bool, Refusal> {
    if value_of(params, "owner"@) is Some && value_of(params, "owner"@) != Some(repo.owner) {
        Ok(false)
    } else if !for_repo {
        Ok(true)
    } else {
        match value_of(params, "origin"@) {
            None => Err(refusal(400, "Missing origin"@)),
            Some(origin) => has_origin(tables.records, repo.id, origin),
        }
    }
}

proof fn lemma_origins_of(records: Seq<RecordView>, record: RecordView)
    requires
        forall|i: int| 0 <= i < records.len() ==> (#[trigger] records[i]).id != record.id,
    ensures
        origins_of(records.push(record), record.id) == Some(record.origins),
    decreases records.len(),
{
    let all = records.push(record);
    if records.len() > 0 {
        assert(all[0] == records[0]);
        assert(all.skip(1) == records.skip(1).push(record));
        lemma_origins_of(records.skip(1), record);
    }
}

/// A repository that was created comes from the origins that were given for it, and from no other.
pub proof fn law_created_repository_comes_from_its_origins(
    tables: Tables,
    repo: RepositoryView,
    origins: Json,
    now: i64,
    origin: Seq<char>,
)
    requires
        origins_kept(origins),
        tables.with_record(new_record(repo, origins, now)) is Some,
    ensures
        has_origin(
            (tables.with_record(new_record(repo, origins, now))->0).records,
            repo.id,
            origin,
        ) == Ok::<bool, Refusal>(origin_texts(origins).contains(origin)),
{
    lemma_origins_of(tables.records, new_record(repo, origins, now));
}

/// The descriptions of the repositories that are listed, in order.
pub open spec fn listing(
    config: Config,
    tables: Tables,
    repos: Seq<RepositoryView>,
    params: Seq<(Seq<char>, Seq<char>)>,
    for_repo: bool,
    counts: Seq<(Seq<char>, u64)>,
) -> Result<Seq<Json>, Refusal>
    decreases repos.len(),
{
    if repos.len() == 0 {
        Ok(Seq::empty())
    } else {
        let repo = repos.last();
        match listing(config, tables, repos.drop_last(), params, for_repo, counts) {
            Err(e) => Err(e),
            Ok(items) => match is_listed(tables, repo, params, for_repo) {
                Err(e) => Err(e),
                Ok(false) => Ok(items),
                Ok(true) => Ok(
                    items.push(repository_json(config, repo, sessions_of(counts, repo.id))),
                ),
            },
        }
    }
}

proof fn lemma_listing_error_stays(
    config: Config,
    tables: Tables,
    repos: Seq<RepositoryView>,
    params: Seq<(Seq<char>, Seq<char>)>,
    for_repo: bool,
    counts: Seq<(Seq<char>, u64)>,
    n: int,
)
    requires
        0 <= n <= repos.len(),
        listing(config, tables, repos.take(n), params, for_repo, counts) is Err,
    ensures
        listing(config, tables, repos, params, for_repo, counts) == listing(
            config,
            tables,
            repos.take(n),
            params,
            for_repo,
            counts,
        ),
    decreases repos.len(),
{
    if n == repos.len() {
        assert(repos.take(n) == repos);
    } else {
        assert(repos.drop_last().take(n) == repos.take(n));
        lemma_listing_error_stays(
            config,
            tables,
            repos.drop_last(),
            params,
            for_repo,
            counts,
            n,
        );
    }
}

fn check_listed(state: &State, repo: &Repository, params: &Vec<(String, String)>, for_repo: bool) -> (r:
    Result<bool, ApiError>)
    ensures
        match is_listed(state@, repo@, pairs_of(params@), for_repo) {
            Ok(b) => r is Ok && r->Ok_0 == b,
            Err(e) => r is Err && r->Err_0@ == e,
        },
{
    match parameter(params, "owner") {
        Some(owner) => {
            if !same(owner.as_str(), repo.owner.as_str()) {
                return Ok(false);
            }
        },
        None => {},
    }
    if !for_repo {
        return Ok(true);
    }
    match parameter(params, "origin") {
        None => Err(error(400, "Missing origin")),
        Some(origin) => comes_from(state, repo.id.as_str(), origin.as_str()),
    }
}

/// Lists repositories by name: all of them or, with `for_repo`, those that come from an origin.
pub fn repositories_reply(
    state: &State,
    params: &Vec<(String, String)>,
    for_repo: bool,
    counts: &Vec<(String, u64)>,
) -> (r: Result<Reply, ApiError>)
    ensures
        match listing(
            state.config,
            state@,
            by_name(state@.records),
            pairs_of(params@),
            for_repo,
            count_views(counts@),
        ) {
            Ok(items) => r is Ok && r->Ok_0@ == json_reply(200, Json::List(items)),
            Err(e) => r is Err && r->Err_0@ == e,
        },
{
    let repos = state.repositories();
    let ghost all = repository_views(repos@);
    let ghost views = pairs_of(params@);
    let ghost numbers = count_views(counts@);
    let mut items: Vec<Value> = Vec::new();
    let mut i: usize = 0;
    assert(jsons(items@) == Seq::<Json>::empty());
    while i < repos.len()
        invariant
            i <= repos@.len(),
            all == repository_views(repos@),
            all == by_name(state@.records),
            views == pairs_of(params@),
            numbers == count_views(counts@),
            listing(state.config, state@, all.take(i as int), views, for_repo, numbers) == Ok::<
                Seq<Json>,
                Refusal,
            >(jsons(items@)),
        decreases repos@.len() - i,
    {
        assert(all.take(i + 1).drop_last() == all.take(i as int));
        assert(all.take(i + 1).last() == repos@[i as int]@);
        match check_listed(state, &repos[i], params, for_repo) {
            Err(e) => {
                proof {
                    lemma_listing_error_stays(
                        state.config,
                        state@,
                        all,
                        views,
                        for_repo,
                        numbers,
                        i + 1,
                    );
                }
                return Err(e);
            },
            Ok(listed) => {
                if listed {
                    let ghost before = items@;
                    let count: u64 = count_sessions(counts, repos[i].id.as_str());
                    items.push(state.repo_json(&repos[i], count));
                    assert(jsons(items@) == jsons(before).push(json_of(items@.last())));
                }
            },
        }
        i = i + 1;
    }
    assert(all.take(i as int) == all);
    Ok(Reply::json(200, &list(items)))
}

/// The JSON form of a published reference.
pub open spec fn ref_json(name: Seq<char>, commit: Seq<char>) -> Json {
    Json::Object(object_of(seq![("name"@, Json::Text(name)), ("commit"@, Json::Text(commit))]))
}

/// The references that Git lists, one per line; a line without a space is left out.
pub open spec fn ref_items(rows: Seq<Seq<char>>) -> Seq<Json>
    decreases rows.len(),
{
    if rows.len() == 0 {
        Seq::empty()
    } else {
        match halves(rows.last(), ' ') {
            Some((name, commit)) => ref_items(rows.drop_last()).push(ref_json(name, commit)),
            None => ref_items(rows.drop_last()),
        }
    }
}

/// The reply that lists the published references of a repository.
pub fn refs_reply(printed: &str) -> (r: Reply)
    ensures
        r@ == json_reply(
            200,
            Json::Object(object_of(seq![("items"@, Json::List(ref_items(lines(printed@))))])),
        ),
{
    let rows = split_lines(printed);
    let ghost all = texts(rows@);
    let mut items: Vec<Value> = Vec::new();
    let mut i: usize = 0;
    assert(jsons(items@) == Seq::<Json>::empty());
    while i < rows.len()
        invariant
            i <= rows@.len(),
            all == texts(rows@),
            jsons(items@) == ref_items(all.take(i as int)),
        decreases rows@.len() - i,
    {
        assert(all.take(i + 1).drop_last() == all.take(i as int));
        assert(all.take(i + 1).last() == rows@[i as int]@);
        match split_once(rows[i].as_str(), ' ') {
            Some((name, commit)) => {
                let pairs = vec![
                    pair("name", text(name.as_str())),
                    pair("commit", text(commit.as_str())),
                ];
                assert(members(pairs@) == seq![
                    ("name"@, Json::Text(name@)),
                    ("commit"@, Json::Text(commit@)),
                ]);
                let ghost before = items@;
                items.push(object(pairs));
                assert(jsons(items@) == jsons(before).push(ref_json(name@, commit@)));
            },
            None => {},
        }
        i = i + 1;
    }
    assert(all.take(i as int) == all);
    let pairs = vec![pair("items", list(items))];
    assert(members(pairs@) == seq![("items"@, Json::List(ref_items(lines(printed@))))]);
    Reply::json(200, &object(pairs))
}

// ---------------------------------------------------------------------------
// Storage
// ---------------------------------------------------------------------------

/// The change of the storage policy that a request asks for, or why it is refused.
pub open spec fn policy_change(current: Policy, body: Seq<u8>) -> Result<Policy, Refusal> {
    match body_json(body) {
        Err(e) => Err(e),
        Ok(j) => if !is_update(j) {
            Err(refusal(400, "Invalid storage policy"@))
        } else {
            let merged = update_of(j).merged(current);
            match merged.fault() {
                Some(fault) => Err(refusal(422, fault.text())),
                None => Ok(merged),
            }
        },
    }
}

/// Changes the storage policy as a request's body asks, at once.
pub fn change_policy(state: &mut State, body: &[u8]) -> (r: Result<Reply, ApiError>)
    ensures
        final(state)@ == old(state)@,
        final(state).root == old(state).root,
        match policy_change(old(state).config.storage, body@) {
            Ok(policy) => {
                &&& r is Ok
                &&& r->Ok_0@ == json_reply(200, policy_json(policy))
                &&& final(state).config == (Config { storage: policy, ..old(state).config })
            },
            Err(e) => r is Err && r->Err_0@ == e && final(state).config == old(state).config,
        },
{
    let value = match json_body(body) {
        Ok(v) => v,
        Err(e) => {
            return Err(e);
        },
    };
    let update = match PolicyUpdate::from_json(&value) {
        Some(u) => u,
        None => {
            return Err(error(400, "Invalid storage policy"));
        },
    };
    match state.configure_storage(&update) {
        Ok(_) => Ok(Reply::json(200, &state.config.storage.to_json())),
        Err(e) => Err(ApiError { status: 422, message: e.message() }),
    }
}

/// Whether a request for a cleanup asks for files to be removed, or only for a list of them.
pub open spec fn cleanup_request(body: Seq<u8>) -> Result<bool, Refusal> {
    match body_json(body) {
        Err(e) => Err(e),
        Ok(j) => match member(j, "apply"@) {
            None => Ok(false),
            Some(Json::Flag(apply)) => Ok(apply),
            _ => Err(refusal(400, "Invalid apply"@)),
        },
    }
}

/// Reads whether a request for a cleanup asks for files to be removed.
pub fn read_cleanup(body: &[u8]) -> (r: Result<bool, ApiError>)
    ensures
        match cleanup_request(body@) {
            Ok(apply) => r is Ok && r->Ok_0 == apply,
            Err(e) => r is Err && r->Err_0@ == e,
        },
{
    let value = match json_body(body) {
        Ok(v) => v,
        Err(e) => {
            return Err(e);
        },
    };
    match get(&value, "apply") {
        None => Ok(false),
        Some(v) => match flag_in(v) {
            Some(apply) => Ok(apply),
            None => Err(error(400, "Invalid apply")),
        },
    }
}

/// How a client is told that storing failed: 507 where the budget is used up, and nothing of what
/// went wrong inside the Hub.
pub open spec fn storage_status(e: SpaceError) -> u16 {
    match e {
        SpaceError::Limit(_) => 507,
        _ => 500,
    }
}

/// Refuses a request whose data cannot be stored.
pub fn storage_error(e: &SpaceError) -> (r: ApiError)
    ensures
        r@ == refusal(storage_status(*e), e.text()),
{
    let status: u16 = match e {
        SpaceError::Limit(_) => 507,
        _ => 500,
    };
    ApiError { status, message: e.message() }
}

// ---------------------------------------------------------------------------
// Laws of service
// ---------------------------------------------------------------------------

proof fn lemma_fixed_paths_have_no_dot(path: Seq<char>, p: int)
    requires
        0 <= p < path.len(),
        path[p] == '.',
    ensures
        path != "/api/health"@,
        path != "/api/auth/login"@,
        path != "/api/auth/refresh"@,
        path != "/api/auth/me"@,
        path != "/api/auth/logout"@,
        path != "/api/search/sessions"@,
        path != "/api/agents"@,
        path != "/api/agents/for-repo"@,
        path != "/api/storage"@,
        path != "/api/storage/policy"@,
        path != "/api/storage/cleanup"@,
{
    reveal_strlit("/api/health");
    reveal_strlit("/api/auth/login");
    reveal_strlit("/api/auth/refresh");
    reveal_strlit("/api/auth/me");
    reveal_strlit("/api/auth/logout");
    reveal_strlit("/api/search/sessions");
    reveal_strlit("/api/agents");
    reveal_strlit("/api/agents/for-repo");
    reveal_strlit("/api/storage");
    reveal_strlit("/api/storage/policy");
    reveal_strlit("/api/storage/cleanup");
    if path.len() <= 20 {
        assert(p == 0 || p == 1 || p == 2 || p == 3 || p == 4 || p == 5 || p == 6 || p == 7 || p
            == 8 || p == 9 || p == 10 || p == 11 || p == 12 || p == 13 || p == 14 || p == 15 || p
            == 16 || p == 17 || p == 18 || p == 19);
    }
}

/// The path of a repository of Git leads to Git, whatever stands behind it.
pub proof fn law_git_paths(
    method: Seq<char>,
    owner: Seq<char>,
    name: Seq<char>,
    suffix: Seq<char>,
)
    requires
        owner.len() > 0,
        !owner.contains('/'),
        !name.contains('/'),
    ensures
        endpoint_of(method, "/"@ + owner + "/"@ + name + ".git/"@ + suffix) == (EndpointView::Git {
            owner,
            name,
            suffix,
        }),
{
    reveal_strlit("/");
    reveal_strlit(".git/");
    reveal_strlit(".git");
    reveal_strlit("agents");
    let path = "/"@ + owner + "/"@ + name + ".git/"@ + suffix;
    let at = owner.len() as int + name.len() + 2;
    assert(path[at] == '.');
    lemma_fixed_paths_have_no_dot(path, at);
    let full = name + ".git"@;
    let rest = owner.push('/') + (full.push('/') + suffix);
    assert(path == seq!['/'] + rest);
    assert(rest[0] == owner[0]);
    assert(owner[0] != '/');
    law_leading_and_trailing_characters_come_off(rest, '/');
    law_separator_parts_a_text(owner, '/', full.push('/') + suffix);
    law_separator_parts_a_text(full, '/', suffix);
    law_text_without_separator_is_one_part(owner, '/');
    assert forall|i: int| 0 <= i < full.len() implies full[i] != '/' by {
        if i < name.len() {
            assert(name[i] != '/');
        }
    }
    law_text_without_separator_is_one_part(full, '/');
    let parts = split_on(rest, '/');
    let behind = split_on(suffix, '/');
    lemma_split_on_nonempty(suffix, '/');
    assert(parts == seq![owner] + (seq![full] + behind));
    assert(parts[0] == owner && parts[1] == full);
    assert(parts.skip(2) == behind);
    law_prefixes_and_suffixes_come_off(name, ".git"@, full);
    law_joining_undoes_splitting(suffix, '/');
    assert("/"@ == seq!['/']);
    assert(full.last() == 't');
    assert("agents"@.last() == 's');
}

/// The path of a repository leads to it, and behind it to its references and to its sessions.
pub proof fn law_repository_paths(owner: Seq<char>, name: Seq<char>, session: Seq<char>)
    requires
        !owner.contains('/'),
        !name.contains('/'),
        !session.contains('/'),
    ensures
        endpoint_of("GET"@, "/api/agents/"@ + owner + "/"@ + name) == (EndpointView::Repository {
            owner,
            name,
            part: RepositoryPartView::Info,
        }),
        endpoint_of("GET"@, "/api/agents/"@ + owner + "/"@ + name + "/refs"@) == (
        EndpointView::Repository { owner, name, part: RepositoryPartView::Refs }),
        endpoint_of("GET"@, "/api/agents/"@ + owner + "/"@ + name + "/sessions/"@ + session) == (
        EndpointView::Repository { owner, name, part: RepositoryPartView::Session(session) }),
{
    reveal_strlit("/");
    reveal_strlit("/refs");
    reveal_strlit("refs");
    reveal_strlit("/sessions/");
    reveal_strlit("sessions");
    let none = Seq::<Seq<char>>::empty();
    let plain = "/api/agents/"@ + owner + "/"@ + name;
    lemma_repository_path(owner, name, Seq::<char>::empty());
    assert(plain + Seq::<char>::empty() == plain);
    law_text_without_separator_is_one_part(name, '/');
    lemma_repository_path(owner, name, "/refs"@);
    assert(name + "/refs"@ == name.push('/') + "refs"@);
    law_separator_parts_a_text(name, '/', "refs"@);
    assert(!"refs"@.contains('/'));
    law_text_without_separator_is_one_part("refs"@, '/');
    lemma_repository_path(owner, name, "/sessions/"@ + session);
    assert(plain + "/sessions/"@ + session == plain + ("/sessions/"@ + session));
    assert(name + ("/sessions/"@ + session) == name.push('/') + ("sessions"@.push('/') + session));
    law_separator_parts_a_text(name, '/', "sessions"@.push('/') + session);
    law_separator_parts_a_text("sessions"@, '/', session);
    assert(!"sessions"@.contains('/'));
    law_text_without_separator_is_one_part("sessions"@, '/');
    law_text_without_separator_is_one_part(session, '/');
    assert(name + Seq::<char>::empty() == name);
}

proof fn lemma_repository_path(owner: Seq<char>, name: Seq<char>, behind: Seq<char>)
    requires
        !owner.contains('/'),
    ensures
        endpoint_of("GET"@, "/api/agents/"@ + owner + "/"@ + name + behind) == segments_endpoint(
            "GET"@,
            seq!["api"@, "agents"@, owner] + split_on(name + behind, '/'),
        ),
{
    reveal_strlit("/");
    reveal_strlit("api");
    reveal_strlit("agents");
    reveal_strlit("GET");
    reveal_strlit("POST");
    reveal_strlit("PATCH");
    reveal_strlit("/api/agents/");
    reveal_strlit("/api/health");
    reveal_strlit("/api/auth/login");
    reveal_strlit("/api/auth/refresh");
    reveal_strlit("/api/auth/me");
    reveal_strlit("/api/auth/logout");
    reveal_strlit("/api/search/sessions");
    reveal_strlit("/api/agents");
    reveal_strlit("/api/agents/for-repo");
    reveal_strlit("/api/storage");
    reveal_strlit("/api/storage/policy");
    reveal_strlit("/api/storage/cleanup");
    let path = "/api/agents/"@ + owner + "/"@ + name + behind;
    let end = name + behind;
    let rest = "api"@.push('/') + ("agents"@.push('/') + (owner.push('/') + end));
    assert(path == seq!['/'] + rest);
    assert(path[5] == 'a' && path[6] == 'g');
    assert(path.len() > 12);
    let p = 12 + owner.len() as int;
    assert(path[p] == '/');
    if path == "/api/agents/for-repo"@ {
        assert(p == 12 || p == 13 || p == 14 || p == 15 || p == 16 || p == 17 || p == 18 || p
            == 19);
    }
    law_leading_and_trailing_characters_come_off(rest, '/');
    assert(!"api"@.contains('/'));
    assert(!"agents"@.contains('/'));
    law_separator_parts_a_text("api"@, '/', "agents"@.push('/') + (owner.push('/') + end));
    law_separator_parts_a_text("agents"@, '/', owner.push('/') + end);
    law_separator_parts_a_text(owner, '/', end);
    law_text_without_separator_is_one_part("api"@, '/');
    law_text_without_separator_is_one_part("agents"@, '/');
    law_text_without_separator_is_one_part(owner, '/');
    assert(seq!["api"@] + (seq!["agents"@] + (seq![owner] + split_on(end, '/'))) == seq![
        "api"@,
        "agents"@,
        owner,
    ] + split_on(end, '/'));
}

/// Whether a request is one of the owner for a path: its URL is that path, and its access token
/// is good at the time.
pub open spec fn is_owners(
    tables: Tables,
    request: RequestView,
    path: Seq<char>,
    access: Seq<char>,
    now: int,
) -> bool {
    &&& request_url(request.target) is Ok
    &&& (request_url(request.target)->Ok_0).path == path
    &&& header_value(request.headers, "Authorization"@) == Some("Bearer "@ + access)
    &&& tables.authenticates(access, now)
}

proof fn lemma_good_token_is_granted(
    tables: Tables,
    headers: Seq<(Seq<char>, Seq<char>)>,
    access: Seq<char>,
    now: int,
)
    requires
        header_value(headers, "Authorization"@) == Some("Bearer "@ + access),
        tables.authenticates(access, now),
    ensures
        granted(tables, headers, now) == Ok::<Seq<char>, Refusal>(access),
{
    law_prefixes_and_suffixes_come_off("Bearer "@, access, "Bearer "@ + access);
}

/// Clones, fetches and pushes are served: a request of the owner with the identity of an existing
/// repository is handed to Git, with that repository and what was asked of it. Git is asked for
/// the references of a service first, and then for what it sends or takes in.
pub proof fn law_git_is_served(
    config: Config,
    tables: Tables,
    request: RequestView,
    access: Seq<char>,
    now: int,
    i: int,
    suffix: Seq<char>,
)
    requires
        tables.wf(),
        0 <= i < tables.records.len(),
        tables.records[i].owner.len() > 0,
        !tables.records[i].owner.contains('/'),
        !tables.records[i].name.contains('/'),
        is_owners(
            tables,
            request,
            "/"@ + tables.records[i].owner + "/"@ + tables.records[i].name + ".git/"@ + suffix,
            access,
            now,
        ),
        header_value(request.headers, "X-AgentGit-Expected-Agent-Id"@) == Some(
            tables.records[i].id,
        ),
        ({
            let service = value_of((request_url(request.target)->Ok_0).pairs, "service"@);
            ||| request.method == "POST"@ && suffix == "git-upload-pack"@
            ||| request.method == "POST"@ && suffix == "git-receive-pack"@
            ||| request.method == "GET"@ && suffix == "info/refs"@ && service == Some(
                "git-upload-pack"@,
            )
            ||| request.method == "GET"@ && suffix == "info/refs"@ && service == Some(
                "git-receive-pack"@,
            )
        }),
    ensures
        handled(config, tables, request, now) == Ok::<ActionView, Refusal>(
            ActionView::Git {
                repo: tables.records[i].identity(),
                suffix,
                query: match (request_url(request.target)->Ok_0).query {
                    Some(q) => q,
                    None => Seq::<char>::empty(),
                },
            },
        ),
        tables_after(tables, request, now) == tables,
{
    reveal_strlit("info/lfs/");
    reveal_strlit("git-upload-pack");
    reveal_strlit("git-receive-pack");
    reveal_strlit("info/refs");
    reveal_strlit("GET");
    reveal_strlit("POST");
    let record = tables.records[i];
    law_git_paths(request.method, record.owner, record.name, suffix);
    lemma_good_token_is_granted(tables, request.headers, access, now);
    lemma_found_record(tables, i);
    assert("GET"@.len() == 3 && "POST"@.len() == 4);
    assert(!"info/lfs/"@.is_prefix_of(suffix)) by {
        if "info/lfs/"@.is_prefix_of(suffix) {
            let start = suffix.subrange(0, "info/lfs/"@.len() as int);
            assert(start[0] == 'i' && start[5] == 'l');
            assert(suffix[0] == 'i' && suffix[5] == 'l');
        }
    }
    assert(is_git_operation(request.method, suffix));
}

/// Attachments are served: a request of the owner with the identity of an existing repository, for
/// something below its attachments, is handed on with that repository and the access token.
pub proof fn law_attachments_are_served(
    config: Config,
    tables: Tables,
    request: RequestView,
    access: Seq<char>,
    now: int,
    i: int,
    rest: Seq<char>,
)
    requires
        tables.wf(),
        0 <= i < tables.records.len(),
        tables.records[i].owner.len() > 0,
        !tables.records[i].owner.contains('/'),
        !tables.records[i].name.contains('/'),
        is_owners(
            tables,
            request,
            "/"@ + tables.records[i].owner + "/"@ + tables.records[i].name + ".git/"@ + (
            "info/lfs/"@ + rest),
            access,
            now,
        ),
        header_value(request.headers, "X-AgentGit-Expected-Agent-Id"@) == Some(
            tables.records[i].id,
        ),
    ensures
        handled(config, tables, request, now) == Ok::<ActionView, Refusal>(
            ActionView::Lfs {
                repo: tables.records[i].identity(),
                suffix: "info/lfs/"@ + rest,
                access,
            },
        ),
{
    let record = tables.records[i];
    law_git_paths(request.method, record.owner, record.name, "info/lfs/"@ + rest);
    lemma_good_token_is_granted(tables, request.headers, access, now);
    lemma_found_record(tables, i);
    assert("info/lfs/"@.is_prefix_of("info/lfs/"@ + rest));
}

/// Repositories, their references and their sessions are served to the owner.
pub proof fn law_repositories_are_served(
    config: Config,
    tables: Tables,
    request: RequestView,
    access: Seq<char>,
    now: int,
    i: int,
    session: Seq<char>,
)
    requires
        tables.wf(),
        0 <= i < tables.records.len(),
        !tables.records[i].owner.contains('/'),
        !tables.records[i].name.contains('/'),
        !session.contains('/'),
        request.method == "GET"@,
    ensures
        ({
            let repo = tables.records[i].identity();
            let path = "/api/agents/"@ + repo.owner + "/"@ + repo.name;
            let answer = handled(config, tables, request, now);
            let params = (request_url(request.target)->Ok_0).pairs;
            &&& is_owners(tables, request, path, access, now) ==> answer == Ok::<
                ActionView,
                Refusal,
            >(ActionView::Repository { repo })
            &&& is_owners(tables, request, path + "/refs"@, access, now) ==> answer == Ok::<
                ActionView,
                Refusal,
            >(ActionView::Refs { repo })
            &&& is_owners(tables, request, path + "/sessions/"@ + session, access, now) ==> answer
                == Ok::<ActionView, Refusal>(ActionView::Session { repo, session, params })
        }),
{
    let record = tables.records[i];
    law_repository_paths(record.owner, record.name, session);
    if tables.authenticates(access, now) && header_value(request.headers, "Authorization"@) == Some(
        "Bearer "@ + access,
    ) {
        lemma_good_token_is_granted(tables, request.headers, access, now);
    }
    lemma_found_record(tables, i);
}

/// A repository that is not there is not served.
pub proof fn law_unknown_repositories_are_not_found(
    config: Config,
    tables: Tables,
    request: RequestView,
    access: Seq<char>,
    now: int,
    owner: Seq<char>,
    name: Seq<char>,
    suffix: Seq<char>,
)
    requires
        owner.len() > 0,
        !owner.contains('/'),
        !name.contains('/'),
        forall|i: int|
            0 <= i < tables.records.len() ==> !((#[trigger] tables.records[i]).owner == owner
                && tables.records[i].name == name),
        is_owners(tables, request, "/"@ + owner + "/"@ + name + ".git/"@ + suffix, access, now),
    ensures
        handled(config, tables, request, now) matches Err(e) && e.status == 404,
{
    law_git_paths(request.method, owner, name, suffix);
    lemma_good_token_is_granted(tables, request.headers, access, now);
    lemma_find(tables.records, owner, name);
}

proof fn lemma_found_record(tables: Tables, i: int)
    requires
        tables.wf(),
        0 <= i < tables.records.len(),
    ensures
        find(tables.records, tables.records[i].owner, tables.records[i].name) == Some(
            tables.records[i].identity(),
        ),
{
    let record = tables.records[i];
    lemma_find(tables.records, record.owner, record.name);
    match find(tables.records, record.owner, record.name) {
        Some(r) => {
            let k = choose|k: int|
                0 <= k < tables.records.len() && (#[trigger] tables.records[k]).identity() == r;
            if k < i {
                assert(!same_record(tables.records[k], tables.records[i]));
            }
            if i < k {
                assert(!same_record(tables.records[i], tables.records[k]));
            }
        },
        None => {
            assert(tables.records[i].owner == record.owner);
        },
    }
}

/// The owner is told who it is, may log out, search, create and list repositories, and see, change
/// and clean up the storage; a search and a listing get the parameters of the request.
pub proof fn law_the_owner_is_served(
    config: Config,
    tables: Tables,
    request: RequestView,
    access: Seq<char>,
    now: int,
)
    ensures
        ({
            let answer = handled(config, tables, request, now);
            let after = tables_after(tables, request, now);
            let params = (request_url(request.target)->Ok_0).pairs;
            let get = request.method == "GET"@;
            let post = request.method == "POST"@;
            let patch = request.method == "PATCH"@;
            &&& get && is_owners(tables, request, "/api/auth/me"@, access, now) ==> answer == Ok::<
                ActionView,
                Refusal,
            >(
                ActionView::Reply(
                    json_reply(200, Json::Object(object_of(account_pairs(config)))),
                ),
            ) && after == tables
            &&& post && is_owners(tables, request, "/api/auth/logout"@, access, now) ==> {
                &&& answer == Ok::<ActionView, Refusal>(
                    ActionView::Reply(json_reply(200, Json::Object(Map::empty()))),
                )
                &&& !after.authenticates(access, now)
            }
            &&& get && is_owners(tables, request, "/api/search/sessions"@, access, now) ==> answer
                == Ok::<ActionView, Refusal>(ActionView::Search { params })
            &&& post && is_owners(tables, request, "/api/agents"@, access, now) ==> answer == Ok::<
                ActionView,
                Refusal,
            >(ActionView::CreateRepository)
            &&& get && is_owners(tables, request, "/api/agents"@, access, now) ==> answer == Ok::<
                ActionView,
                Refusal,
            >(ActionView::Repositories { for_repo: false, params })
            &&& get && is_owners(tables, request, "/api/agents/for-repo"@, access, now) ==> answer
                == Ok::<ActionView, Refusal>(ActionView::Repositories { for_repo: true, params })
            &&& get && is_owners(tables, request, "/api/storage"@, access, now) ==> answer == Ok::<
                ActionView,
                Refusal,
            >(ActionView::StorageStatus)
            &&& patch && is_owners(tables, request, "/api/storage/policy"@, access, now) ==> answer
                == Ok::<ActionView, Refusal>(ActionView::StoragePolicy)
            &&& post && is_owners(tables, request, "/api/storage/cleanup"@, access, now) ==> answer
                == Ok::<ActionView, Refusal>(ActionView::StorageCleanup)
        }),
{
    reveal_strlit("GET");
    reveal_strlit("POST");
    reveal_strlit("PATCH");
    lemma_fixed_paths_differ();
    if tables.authenticates(access, now) && header_value(request.headers, "Authorization"@) == Some(
        "Bearer "@ + access,
    ) {
        lemma_good_token_is_granted(tables, request.headers, access, now);
        law_logout_ends_one_session(tables, access, access, now);
    }
}

proof fn lemma_fixed_paths_differ()
    ensures
        "GET"@ != "POST"@ && "GET"@ != "PATCH"@ && "POST"@ != "PATCH"@,
        "/api/auth/me"@ != "/api/health"@,
        "/api/auth/logout"@ != "/api/auth/login"@ && "/api/auth/logout"@ != "/api/auth/refresh"@,
        "/api/search/sessions"@ != "/api/health"@ && "/api/search/sessions"@ != "/api/auth/me"@,
        "/api/agents"@ != "/api/auth/login"@ && "/api/agents"@ != "/api/auth/refresh"@
            && "/api/agents"@ != "/api/auth/logout"@ && "/api/agents"@ != "/api/health"@
            && "/api/agents"@ != "/api/auth/me"@ && "/api/agents"@ != "/api/search/sessions"@,
        "/api/agents/for-repo"@ != "/api/health"@ && "/api/agents/for-repo"@ != "/api/auth/me"@
            && "/api/agents/for-repo"@ != "/api/search/sessions"@ && "/api/agents/for-repo"@
            != "/api/agents"@,
        "/api/storage"@ != "/api/health"@ && "/api/storage"@ != "/api/auth/me"@ && "/api/storage"@
            != "/api/search/sessions"@ && "/api/storage"@ != "/api/agents"@ && "/api/storage"@
            != "/api/agents/for-repo"@,
        "/api/storage/cleanup"@ != "/api/auth/login"@ && "/api/storage/cleanup"@
            != "/api/auth/refresh"@ && "/api/storage/cleanup"@ != "/api/auth/logout"@
            && "/api/storage/cleanup"@ != "/api/agents"@,
{
    reveal_strlit("GET");
    reveal_strlit("POST");
    reveal_strlit("PATCH");
    reveal_strlit("/api/health");
    reveal_strlit("/api/auth/login");
    reveal_strlit("/api/auth/refresh");
    reveal_strlit("/api/auth/me");
    reveal_strlit("/api/auth/logout");
    reveal_strlit("/api/search/sessions");
    reveal_strlit("/api/agents");
    reveal_strlit("/api/agents/for-repo");
    reveal_strlit("/api/storage");
    reveal_strlit("/api/storage/policy");
    reveal_strlit("/api/storage/cleanup");
    assert("GET"@.len() == 3 && "POST"@.len() == 4 && "PATCH"@.len() == 5);
    assert("/api/health"@.len() == 11 && "/api/auth/login"@.len() == 15 && "/api/auth/refresh"@.len()
        == 17 && "/api/auth/me"@.len() == 12 && "/api/auth/logout"@.len() == 16
        && "/api/search/sessions"@.len() == 20 && "/api/agents"@.len() == 11
        && "/api/agents/for-repo"@.len() == 20 && "/api/storage"@.len() == 12
        && "/api/storage/cleanup"@.len() == 20);
    assert("/api/health"@[5] == 'h' && "/api/agents"@[5] == 'a' && "/api/search/sessions"@[5] == 's'
        && "/api/agents/for-repo"@[5] == 'a' && "/api/storage"@[5] == 's' && "/api/auth/me"@[5]
        == 'a' && "/api/storage/cleanup"@[5] == 's');
}

/// Whether the Hub lives can be asked without a token, and so can a login and a refresh.
pub proof fn law_anyone_may_ask_and_log_in(
    config: Config,
    tables: Tables,
    request: RequestView,
    now: int,
)
    requires
        request_url(request.target) is Ok,
    ensures
        ({
            let path = (request_url(request.target)->Ok_0).path;
            let answer = handled(config, tables, request, now);
            &&& request.method == "GET"@ && path == "/api/health"@ ==> answer is Ok
                && answer->Ok_0 is Health
            &&& request.method == "POST"@ && path == "/api/auth/login"@ ==> answer == Ok::<
                ActionView,
                Refusal,
            >(ActionView::Login)
            &&& request.method == "POST"@ && path == "/api/auth/refresh"@ ==> answer == Ok::<
                ActionView,
                Refusal,
            >(ActionView::Refresh)
        }),
{
    reveal_strlit("GET");
    reveal_strlit("POST");
    reveal_strlit("/api/health");
    reveal_strlit("/api/auth/login");
    reveal_strlit("/api/auth/refresh");
    assert("GET"@.len() == 3 && "POST"@.len() == 4);
    assert("/api/health"@.len() == 11 && "/api/auth/login"@.len() == 15 && "/api/auth/refresh"@.len()
        == 17);
}

/// The value of a header is that of the first header with its name, the case of the name aside.
pub proof fn law_first_header_counts(headers: Seq<(Seq<char>, Seq<char>)>, name: Seq<char>)
    ensures
        match header_value(headers, name) {
            Some(v) => exists|i: int|
                {
                    &&& 0 <= i < headers.len()
                    &&& same_folded((#[trigger] headers[i]).0, name)
                    &&& headers[i].1 == v
                    &&& forall|k: int| 0 <= k < i ==> !same_folded((#[trigger] headers[k]).0, name)
                },
            None => forall|i: int|
                0 <= i < headers.len() ==> !same_folded((#[trigger] headers[i]).0, name),
        },
    decreases headers.len(),
{
    if headers.len() > 0 {
        let rest = headers.skip(1);
        law_first_header_counts(rest, name);
        if same_folded(headers[0].0, name) {
            assert(header_value(headers, name) == Some(headers[0].1));
        } else {
            match header_value(rest, name) {
                Some(v) => {
                    let i = choose|i: int|
                        {
                            &&& 0 <= i < rest.len()
                            &&& same_folded((#[trigger] rest[i]).0, name)
                            &&& rest[i].1 == v
                            &&& forall|k: int|
                                0 <= k < i ==> !same_folded((#[trigger] rest[k]).0, name)
                        };
                    assert(headers[i + 1] == rest[i]);
                    assert forall|k: int| 0 <= k < i + 1 implies !same_folded(
                        (#[trigger] headers[k]).0,
                        name,
                    ) by {
                        if k > 0 {
                            assert(rest[k - 1] == headers[k]);
                        }
                    }
                },
                None => {
                    assert forall|i: int| 0 <= i < headers.len() implies !same_folded(
                        (#[trigger] headers[i]).0,
                        name,
                    ) by {
                        if i > 0 {
                            assert(rest[i - 1] == headers[i]);
                        }
                    }
                },
            }
        }
    }
}

/// A failure inside the Hub tells nothing of itself; every other refusal tells its reason.
pub proof fn law_failures_inside_are_not_told(a: Refusal, b: Refusal)
    ensures
        a.status == 500 && b.status == 500 ==> failure_json(a) == failure_json(b),
        a.status != 500 ==> member(failure_json(a), "error"@) == Some(Json::Text(a.message)),
        a.status == b.status ==> member(failure_json(a), "kind"@) == member(
            failure_json(b),
            "kind"@,
        ),
{
    reveal_strlit("error");
    reveal_strlit("kind");
    lemma_failure_json(a);
    lemma_failure_json(b);
}

proof fn lemma_failure_json(e: Refusal)
    ensures
        member(failure_json(e), "error"@) == Some(Json::Text(failure_text(e))),
        member(failure_json(e), "kind"@) == Some(Json::Text(failure_kind(e.status))),
{
    reveal_strlit("error");
    reveal_strlit("kind");
    let pairs = seq![
        ("error"@, Json::Text(failure_text(e))),
        ("kind"@, Json::Text(failure_kind(e.status))),
    ];
    assert(pairs[0].0.len() == 5 && pairs[1].0.len() == 4);
    lemma_object_of(pairs, 0);
    lemma_object_of(pairs, 1);
}

/// A repository is listed for the owner that is asked for, or where none is; and, where an origin
/// is asked for, only if it comes from there. What is listed is each of these once, in order.
pub proof fn law_listed_repositories(
    config: Config,
    tables: Tables,
    repos: Seq<RepositoryView>,
    counts: Seq<(Seq<char>, u64)>,
    owner: Seq<char>,
)
    ensures
        ({
            let all = listing(config, tables, repos, Seq::empty(), false, counts);
            &&& all is Ok
            &&& all->Ok_0.len() == repos.len()
            &&& forall|i: int|
                0 <= i < repos.len() ==> #[trigger] all->Ok_0[i] == repository_json(
                    config,
                    repos[i],
                    sessions_of(counts, repos[i].id),
                )
        }),
        forall|i: int|
            0 <= i < repos.len() ==> (is_listed(
                tables,
                #[trigger] repos[i],
                seq![("owner"@, owner)],
                false,
            ) == Ok::<bool, Refusal>(repos[i].owner == owner)),
        forall|i: int, origin: Seq<char>|
            0 <= i < repos.len() ==> #[trigger] is_listed(
                tables,
                repos[i],
                seq![("origin"@, origin)],
                true,
            ) == has_origin(tables.records, repos[i].id, origin),
    decreases repos.len(),
{
    reveal_strlit("owner");
    reveal_strlit("origin");
    let none = Seq::<(Seq<char>, Seq<char>)>::empty();
    assert("owner"@.len() == 5 && "origin"@.len() == 6);
    assert(none.push(("owner"@, owner)) == seq![("owner"@, owner)]);
    law_last_parameter_counts(none, "owner"@, owner);
    assert forall|i: int, origin: Seq<char>| 0 <= i < repos.len() implies #[trigger] is_listed(
        tables,
        repos[i],
        seq![("origin"@, origin)],
        true,
    ) == has_origin(tables.records, repos[i].id, origin) by {
        assert(none.push(("origin"@, origin)) == seq![("origin"@, origin)]);
        law_last_parameter_counts(none, "origin"@, origin);
        assert(value_of(none, "owner"@) is None);
    }
    assert(value_of(none, "owner"@) is None);
    if repos.len() > 0 {
        law_listed_repositories(config, tables, repos.drop_last(), counts, owner);
        let past = listing(config, tables, repos.drop_last(), none, false, counts)->Ok_0;
        let all = listing(config, tables, repos, none, false, counts)->Ok_0;
        assert forall|i: int| 0 <= i < repos.len() implies #[trigger] all[i] == repository_json(
            config,
            repos[i],
            sessions_of(counts, repos[i].id),
        ) by {
            if i < past.len() {
                assert(all[i] == past[i]);
            }
        }
    }
}

// ---------------------------------------------------------------------------
// Laws of bodies
// ---------------------------------------------------------------------------

/// A body is read where it has at most 64 KiB and is JSON, and a target where it has at most 8 KiB
/// and is one of a URL.
pub proof fn law_which_requests_are_read(body: Seq<u8>, target: Seq<char>)
    ensures
        body_json(body) is Ok <==> body.len() <= 65536 && decoded(body) is Some,
        body_json(body) matches Ok(j) ==> decoded(body) == Some(j),
        request_url(target) is Ok <==> encode_utf8(target).len() <= 8192 && url_of(
            "http://localhost"@ + target,
        ) is Ok,
        request_url(target) matches Ok(u) ==> url_of("http://localhost"@ + target) == Ok::<
            UrlView,
            Seq<char>,
        >(u),
{
}

/// A repository may be created exactly where the request does not ask for a public one or for one
/// of another owner, names it, the name is accepted, and no repository has it. It has the origins
/// that the request lists, or none.
pub proof fn law_which_creations_are_accepted(
    config: Config,
    tables: Tables,
    body: Seq<u8>,
    refused: Option<Seq<char>>,
)
    ensures
        ({
            let j = decoded(body)->0;
            let answer = creation(config, tables, body, refused);
            &&& answer is Ok <==> {
                &&& body.len() <= 65536
                &&& decoded(body) is Some
                &&& member(j, "public"@) is None || member(j, "public"@) == Some(Json::Flag(false))
                &&& member(j, "owner"@) matches Some(Json::Text(owner)) ==> owner == config.owner@
                &&& member(j, "name"@) is Some && member(j, "name"@)->0 is Text
                &&& name_fault(member(j, "name"@)->0->Text_0, refused) is None
                &&& forall|i: int|
                    0 <= i < tables.records.len() ==> !((#[trigger] tables.records[i]).owner
                        == config.owner@ && tables.records[i].name == member(
                        j,
                        "name"@,
                    )->0->Text_0)
            }
            &&& answer matches Ok((name, origins)) ==> {
                &&& member(j, "name"@) == Some(Json::Text(name))
                &&& match member(j, "repo_origins"@) {
                    Some(given) => origins == given,
                    None => origins == Json::List(Seq::empty()),
                }
            }
        }),
{
    let j = decoded(body)->0;
    if member(j, "name"@) is Some && member(j, "name"@)->0 is Text {
        let name = member(j, "name"@)->0->Text_0;
        lemma_find(tables.records, config.owner@, name);
        if find(tables.records, config.owner@, name) is Some {
            let r = find(tables.records, config.owner@, name)->0;
            let i = choose|i: int|
                0 <= i < tables.records.len() && (#[trigger] tables.records[i]).identity() == r;
            assert(tables.records[i].owner == config.owner@ && tables.records[i].name == name);
        }
    }
}

/// What is told of a new repository: who it is and where it is pushed to.
pub proof fn law_what_is_told_of_a_new_repository(config: Config, repo: RepositoryView)
    ensures
        ({
            let j = created_json(config, repo);
            &&& member(j, "agent_id"@) == Some(Json::Text(repo.id))
            &&& member(j, "owner"@) == Some(Json::Text(repo.owner))
            &&& member(j, "name"@) == Some(Json::Text(repo.name))
            &&& member(j, "push_url"@) == Some(
                Json::Text(
                    config.public_url@ + ("/"@ + repo.owner + "/"@ + repo.name + ".git"@),
                ),
            )
            &&& member(j, "web_url"@) == Some(
                Json::Text(
                    config.public_url@ + ("/api/agents/"@ + repo.owner + "/"@ + repo.name),
                ),
            )
        }),
{
    reveal_strlit("agent_id");
    reveal_strlit("owner");
    reveal_strlit("name");
    reveal_strlit("push_url");
    reveal_strlit("web_url");
    let web = config.public_url@ + "/api/agents/"@ + repo.owner + "/"@ + repo.name;
    let pairs = seq![
        ("agent_id"@, Json::Text(repo.id)),
        ("owner"@, Json::Text(repo.owner)),
        ("name"@, Json::Text(repo.name)),
        ("push_url"@, Json::Text(clone_url(config, repo))),
        ("web_url"@, Json::Text(web)),
    ];
    assert(clone_url(config, repo) =~= config.public_url@ + ("/"@ + repo.owner + "/"@ + repo.name
        + ".git"@));
    assert(web =~= config.public_url@ + ("/api/agents/"@ + repo.owner + "/"@ + repo.name));
    assert(pairs[0].0.len() == 8 && pairs[0].0[0] == 'a');
    assert(pairs[1].0.len() == 5);
    assert(pairs[2].0.len() == 4);
    assert(pairs[3].0.len() == 8 && pairs[3].0[0] == 'p');
    assert(pairs[4].0.len() == 7);
    lemma_object_of(pairs, 0);
    lemma_object_of(pairs, 1);
    lemma_object_of(pairs, 2);
    lemma_object_of(pairs, 3);
    lemma_object_of(pairs, 4);
}

/// A policy changes exactly where the request is an update and the outcome is valid; it changes to
/// that outcome.
pub proof fn law_which_policies_are_adopted(current: Policy, body: Seq<u8>)
    ensures
        policy_change(current, body) is Ok <==> {
            &&& body.len() <= 65536
            &&& decoded(body) is Some
            &&& is_update(decoded(body)->0)
            &&& update_of(decoded(body)->0).merged(current).valid()
        },
        policy_change(current, body) matches Ok(p) ==> p == update_of(decoded(body)->0).merged(
            current,
        ),
{
}

/// A cleanup removes something only where the request says so.
pub proof fn law_cleanups_are_previews_unless_applied(body: Seq<u8>)
    ensures
        cleanup_request(body) == Ok::<bool, Refusal>(true) <==> body.len() <= 65536 && decoded(
            body,
        ) is Some && member(decoded(body)->0, "apply"@) == Some(Json::Flag(true)),
        body.len() <= 65536 && decoded(body) is Some && member(decoded(body)->0, "apply"@) is None
            ==> cleanup_request(body) == Ok::<bool, Refusal>(false),
{
}

/// What is too much for the storage is answered as such; every other failure of it is one inside.
pub proof fn law_how_storage_failures_are_answered(e: SpaceError)
    ensures
        storage_status(e) == 507 <==> e is Limit,
        storage_status(e) != 507 ==> storage_status(e) == 500,
{
}

/// The count of a repository is the one that is given for it, and zero where none is.
pub proof fn law_counts_belong_to_their_repository(counts: Seq<(Seq<char>, u64)>, id: Seq<char>)
    ensures
        (forall|i: int| 0 <= i < counts.len() ==> (#[trigger] counts[i]).0 != id) ==> sessions_of(
            counts,
            id,
        ) == 0,
        forall|i: int|
            0 <= i < counts.len() && (#[trigger] counts[i]).0 == id && (forall|k: int|
                0 <= k < i ==> (#[trigger] counts[k]).0 != id) ==> sessions_of(counts, id)
                == counts[i].1,
    decreases counts.len(),
{
    if counts.len() > 0 && counts[0].0 != id {
        let rest = counts.skip(1);
        law_counts_belong_to_their_repository(rest, id);
        assert forall|i: int| 0 <= i < rest.len() implies rest[i] == #[trigger] counts[i + 1] by {}
        if forall|i: int| 0 <= i < counts.len() ==> (#[trigger] counts[i]).0 != id {
            assert forall|i: int| 0 <= i < rest.len() implies (#[trigger] rest[i]).0 != id by {
                assert(counts[i + 1].0 != id);
            }
        }
        assert forall|i: int|
            0 <= i < counts.len() && (#[trigger] counts[i]).0 == id && (forall|k: int|
                0 <= k < i ==> (#[trigger] counts[k]).0 != id) implies sessions_of(counts, id)
            == counts[i].1 by {
            assert(i > 0);
            assert(rest[i - 1] == counts[i]);
            assert forall|k: int| 0 <= k < i - 1 implies (#[trigger] rest[k]).0 != id by {
                assert(counts[k + 1].0 != id);
            }
        }
    }
}

/// The references that are told are those that Git lists, in order: their names and commits.
pub proof fn law_references_are_told(rows: Seq<Seq<char>>, name: Seq<char>, commit: Seq<char>)
    requires
        !name.contains(' '),
    ensures
        ref_items(rows.push(name.push(' ') + commit)) == ref_items(rows).push(
            ref_json(name, commit),
        ),
        ref_items(rows.push(name)) == ref_items(rows),
        ref_items(Seq::empty()).len() == 0,
        member(ref_json(name, commit), "name"@) == Some(Json::Text(name)),
        member(ref_json(name, commit), "commit"@) == Some(Json::Text(commit)),
{
    reveal_strlit("name");
    reveal_strlit("commit");
    law_first_separator_parts_a_text(name, ' ', commit);
    assert(rows.push(name.push(' ') + commit).drop_last() =~= rows);
    assert(rows.push(name).drop_last() =~= rows);
    let pairs = seq![("name"@, Json::Text(name)), ("commit"@, Json::Text(commit))];
    assert(pairs[0].0.len() == 4 && pairs[1].0.len() == 6);
    lemma_object_of(pairs, 0);
    lemma_object_of(pairs, 1);
}

// ---------------------------------------------------------------------------
// Laws of refusal and of answers
// ---------------------------------------------------------------------------

/// Nothing else is handed to Git than the references of a service and the two operations, each by
/// its own method.
pub proof fn law_nothing_else_is_handed_to_git(
    repo: RepositoryView,
    method: Seq<char>,
    suffix: Seq<char>,
    headers: Seq<(Seq<char>, Seq<char>)>,
    url: UrlView,
    access: Seq<char>,
)
    ensures
        git_action(repo, method, suffix, headers, url, access) matches Ok(action) ==> match action {
            ActionView::Git { repo: r, suffix: s, .. } => {
                &&& r == repo && s == suffix
                &&& {
                    ||| method == "POST"@ && (suffix == "git-upload-pack"@ || suffix
                        == "git-receive-pack"@)
                    ||| method == "GET"@ && suffix == "info/refs"@ && (value_of(
                        url.pairs,
                        "service"@,
                    ) == Some("git-upload-pack"@) || value_of(url.pairs, "service"@) == Some(
                        "git-receive-pack"@,
                    ))
                }
            },
            ActionView::Lfs { repo: r, suffix: s, access: a } => r == repo && s == suffix && a
                == access && "info/lfs/"@.is_prefix_of(suffix),
            _ => false,
        },
{
}

/// The tables change only by a logout, and then only for a token that is good.
pub proof fn law_only_a_logout_changes_the_tables(
    config: Config,
    tables: Tables,
    request: RequestView,
    now: int,
)
    requires
        tables_after(tables, request, now) != tables,
    ensures
        request.method == "POST"@,
        request_url(request.target) is Ok,
        (request_url(request.target)->Ok_0).path == "/api/auth/logout"@,
        granted(tables, request.headers, now) is Ok,
{
    lemma_only_logout(request.method, (request_url(request.target)->Ok_0).path);
}

proof fn lemma_only_logout(method: Seq<char>, path: Seq<char>)
    ensures
        endpoint_of(method, path) is Logout ==> method == "POST"@ && path == "/api/auth/logout"@,
{
}

/// A repository is only read by the paths of its own; another method or another place below it is
/// not served.
pub proof fn law_repositories_are_only_read(method: Seq<char>, parts: Seq<Seq<char>>)
    ensures
        method != "GET"@ ==> part_of(method, parts) is Unsupported,
        parts.len() > 6 ==> part_of(method, parts) is Unsupported,
        parts.len() == 5 && parts[4] != "refs"@ ==> part_of(method, parts) is Unsupported,
        parts.len() == 6 && parts[4] != "sessions"@ ==> part_of(method, parts) is Unsupported,
{
}

/// A request without a bearer token is refused, and so is one whose token is not good.
pub proof fn law_who_is_refused(tables: Tables, headers: Seq<(Seq<char>, Seq<char>)>, now: int)
    ensures
        header_value(headers, "Authorization"@) is None ==> (granted(tables, headers, now) matches Err(
            e,
        ) && e.status == 401),
        granted(tables, headers, now) matches Ok(access) ==> tables.authenticates(access, now)
            && header_value(headers, "Authorization"@) == Some("Bearer "@ + access),
        granted(tables, headers, now) matches Err(e) ==> e.status == 401,
{
    reveal_strlit("Bearer ");
    match header_value(headers, "Authorization"@) {
        Some(v) => {
            law_prefixes_and_suffixes_come_off("Bearer "@, Seq::<char>::empty(), v);
        },
        None => {},
    }
}

/// What kind of failure a status is.
pub proof fn law_kinds_of_failures(message: Seq<char>, status: u16)
    ensures
        ({
            let kind = |n: u16| member(failure_json(refusal(n, message)), "kind"@);
            &&& kind(401) == Some(Json::Text("unauthorized"@))
            &&& kind(403) == Some(Json::Text("forbidden"@))
            &&& kind(404) == Some(Json::Text("not_found"@))
            &&& kind(409) == Some(Json::Text("conflict"@))
            &&& kind(412) == Some(Json::Text("agent_identity_mismatch"@))
            &&& kind(428) == Some(Json::Text("agent_identity_required"@))
            &&& kind(413) == Some(Json::Text("payload_too_large"@))
            &&& status != 401 && status != 403 && status != 404 && status != 409 && status != 412
                && status != 428 && status != 413 ==> kind(status) == Some(
                Json::Text("request_failed"@),
            )
        }),
{
    lemma_failure_json(refusal(401, message));
    lemma_failure_json(refusal(403, message));
    lemma_failure_json(refusal(404, message));
    lemma_failure_json(refusal(409, message));
    lemma_failure_json(refusal(412, message));
    lemma_failure_json(refusal(428, message));
    lemma_failure_json(refusal(413, message));
    lemma_failure_json(refusal(status, message));
}

/// An answer in JSON is that document, is called JSON, and is not to be stored.
pub proof fn law_answers_are_json(status: u16, value: Json)
    ensures
        json_reply(status, value).status == status,
        json_reply(status, value).body == encoded(value),
        value_of(json_reply(status, value).headers, "Content-Type"@) == Some(
            "application/json; charset=utf-8"@,
        ),
        value_of(json_reply(status, value).headers, "Cache-Control"@) == Some("no-store"@),
{
    reveal_strlit("Content-Type");
    reveal_strlit("Cache-Control");
    let headers = json_reply(status, value).headers;
    assert(headers[0].0.len() == 12 && headers[1].0.len() == 13);
    lemma_value_of(headers, 0);
    lemma_value_of(headers, 1);
}

/// How a login is answered: with a session of the token where the token is live, and else with a
/// refusal that changes nothing.
pub proof fn law_how_logins_are_answered(
    pre: State,
    token: Seq<char>,
    now: int,
    fresh: FreshView,
    post: State,
    r: Result<Reply, ApiError>,
)
    requires
        login_served(pre, token, now, fresh, post, r),
    ensures
        ({
            let live = exists|i: int|
                0 <= i < pre@.pats.len() && (#[trigger] pre@.pats[i]).hash == token_hash(token)
                    && !pre@.pats[i].revoked;
            &&& r is Ok ==> live && r->Ok_0@ == json_reply(
                200,
                session_json(pre.config, fresh, now),
            ) && post@.sessions.len() == pre@.sessions.len() + 1
            &&& r is Err ==> post@ == pre@
            &&& !live ==> r is Err && r->Err_0.status == 401
            &&& live && pre@.sessions.len() == 0 && can_start(now) ==> r is Ok
        }),
{
    law_login_needs_a_live_token(pre@, token);
}

/// How an exchange of a refresh token is answered: with a new session of the same token in place of
/// the old one where the token is good, and else with a refusal that changes nothing.
pub proof fn law_how_refreshes_are_answered(
    pre: State,
    token: Seq<char>,
    now: int,
    fresh: FreshView,
    post: State,
    r: Result<Reply, ApiError>,
    at: int,
)
    requires
        refresh_served(pre, token, now, fresh, post, r),
        pre@.wf(),
    ensures
        r is Err ==> post@ == pre@,
        !pre@.refreshes(token, now) ==> r is Err && r->Err_0.status == 401,
        r is Ok ==> r->Ok_0@ == json_reply(200, session_json(pre.config, fresh, now)),
        r is Ok && token_hash(fresh.refresh) != token_hash(token) ==> !post@.refreshes(token, at),
        r is Ok ==> (post@.authenticates(fresh.access, at) <==> at < now + 3600),
{
    law_refresh_needs_a_good_token(pre@, token, now);
    if r is Ok {
        let s = renewable(pre@, pre@.sessions, token_hash(token), now)->0;
        let base = pre@.without_session(s.id);
        law_the_exchanged_token_is_spent(pre@, token, now, fresh, at);
        law_session_expires(base, s.pat_id, now, fresh, at);
    }
}

/// A text of a body is read under its name, from a body that is JSON and not too long.
pub proof fn law_texts_are_read_by_name(body: Seq<u8>, key: Seq<char>, text: Seq<char>)
    ensures
        body_text(body, key) == Ok::<Seq<char>, Refusal>(text) <==> {
            &&& body.len() <= 65536
            &&& decoded(body) is Some
            &&& member(decoded(body)->0, key) == Some(Json::Text(text))
        },
{
}

/// How a creation is answered: with the repository under the name that was asked for, which is then
/// there and waits for indexing, or with a refusal that changes nothing.
pub proof fn law_how_creations_are_answered(
    pre: State,
    name: Seq<char>,
    refused: Option<Seq<char>>,
    origins: Json,
    id: Seq<char>,
    now: i64,
    post: State,
    r: Result<(Repository, Reply), ApiError>,
)
    requires
        creation_served(pre, name, refused, origins, id, now, post, r),
    ensures
        r is Err ==> post@ == pre@ && r->Err_0.status == 500,
        r matches Ok((repo, reply)) ==> {
            &&& repo@ == (RepositoryView { id, owner: pre.config.owner@, name })
            &&& reply@.status == 201
            &&& reply@.body == encoded(created_json(pre.config, repo@))
            &&& find(post@.records, pre.config.owner@, name) == Some(repo@)
            &&& find(pre@.records, pre.config.owner@, name) is None
            &&& post@.records.len() == pre@.records.len() + 1
            &&& post@.records.last().dirty
            &&& post@.records.last().created == now
            &&& post@.pats == pre@.pats && post@.sessions == pre@.sessions
        },
        create_fault(pre@, pre.config.owner@, name, refused, origins) is None && (forall|i: int|
            0 <= i < pre@.records.len() ==> (#[trigger] pre@.records[i]).id != id) ==> r is Ok,
{
    let repo = RepositoryView { id, owner: pre.config.owner@, name };
    let record = new_record(repo, origins, now);
    lemma_find(pre@.records, pre.config.owner@, name);
    if r is Ok {
        law_created_repository_is_found(pre@, record, pre.config.owner@, name);
        assert(record.identity() == repo);
        assert(post@.records.last() == record);
    } else if create_fault(pre@, pre.config.owner@, name, refused, origins) is None && (forall|
        i: int,
    |
        0 <= i < pre@.records.len() ==> (#[trigger] pre@.records[i]).id != id) {
        assert(pre@.with_record(record) is Some) by {
            assert forall|i: int| 0 <= i < pre@.records.len() implies !((
            #[trigger] pre@.records[i]).owner == record.owner && pre@.records[i].name
                == record.name) by {}
        }
    }
}

/// The bytes of a file are sent as such, and are not to be stored.
pub proof fn law_files_are_sent_as_bytes(r: Reply)
    requires
        call_ensures(Reply::file, (), r),
    ensures
        r@.status == 200,
        value_of(r@.headers, "Content-Type"@) == Some("application/octet-stream"@),
        value_of(r@.headers, "Cache-Control"@) == Some("no-store"@),
{
    reveal_strlit("Content-Type");
    reveal_strlit("Cache-Control");
    let headers = r@.headers;
    assert(headers[0].0.len() == 12 && headers[1].0.len() == 13);
    lemma_value_of(headers, 0);
    lemma_value_of(headers, 1);
}

} // verus!
