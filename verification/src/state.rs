//! The Hub's configuration, tokens and repositories.
use crate::json::{encode, encoded, flag, items_in, json_of, jsons, lemma_object_of, list, member,
    members, natural, object, object_of, pair, saved_texts, text, text_in, Json};
use crate::outside::{current_second, date_text, hash, hex, hex_text, is_date, is_hex,
    is_hyphenated_id, is_simple_id, optional, random_hyphenated, random_simple, read_url, sha256,
    url_of, write_date, UrlParts, UrlView, FIRST_SECOND, LAST_SECOND};
use crate::seqs::lemma_filter;
use crate::space::{Policy, PolicyError, PolicyUpdate};
use crate::text::{append, is_white, law_trimming_takes_white_space_off, less, same, skip_trailing,
    strip_trailing, text_less, texts, trim, trimmed, utf8_len};
use serde_json::Value;
use vstd::prelude::*;
use vstd::utf8::encode_utf8;

verus! {

// ---------------------------------------------------------------------------
// Digests, secrets and names
// ---------------------------------------------------------------------------

/// The hexadecimal SHA-256 hash of some bytes.
pub open spec fn digest_of(data: Seq<u8>) -> Seq<char> {
    hex_text(sha256(data))
}

/// The hash under which a token is kept.
pub open spec fn token_hash(token: Seq<char>) -> Seq<char> {
    digest_of(encode_utf8(token))
}

/// Hashes some bytes.
pub fn digest(value: &[u8]) -> (r: String)
    ensures
        r@ == digest_of(value@),
        r@.len() == 64,
{
    let h = hash(value);
    hex(h.as_slice())
}

fn hash_token(token: &str) -> (r: String)
    ensures
        r@ == token_hash(token@),
{
    digest(token.as_bytes())
}

/// Whether a text is a secret with a prefix: an underscore and 64 random hexadecimal digits
/// follow it.
pub open spec fn is_secret(prefix: Seq<char>, s: Seq<char>) -> bool {
    let n = prefix.len() as int;
    &&& s.len() == n + 65
    &&& s.take(n) == prefix
    &&& s[n] == '_'
    &&& is_simple_id(s.subrange(n + 1, n + 33))
    &&& is_simple_id(s.subrange(n + 33, n + 65))
}

/// Makes a secret with a prefix.
pub fn secret(prefix: &str) -> (r: String)
    ensures
        is_secret(prefix@, r@),
{
    let a = random_simple();
    let b = random_simple();
    let mut s = prefix.to_owned();
    s.push('_');
    append(&mut s, a.as_str());
    append(&mut s, b.as_str());
    proof {
        let n = prefix@.len() as int;
        assert(s@.take(n) == prefix@);
        assert(s@.subrange(n + 1, n + 33) == a@);
        assert(s@.subrange(n + 33, n + 65) == b@);
    }
    s
}

/// Writes a number of seconds since 1970 as an RFC 3339 date.
pub fn timestamp(value: i64) -> (r: String)
    requires
        is_date(value as int),
    ensures
        r@ == date_text(value as int),
{
    write_date(value)
}

/// A column of a table that holds no value twice.
#[derive(Clone, Copy, Debug, PartialEq, Eq, Structural)]
pub enum Unique {
    PatId,
    PatHash,
    SessionId,
    SessionAccess,
    SessionRefresh,
    RepositoryId,
}

impl Unique {
    /// The message of a value that is already there, as the database words it.
    pub open spec fn text(self) -> Seq<char> {
        match self {
            Unique::PatId => "UNIQUE constraint failed: pats.id"@,
            Unique::PatHash => "UNIQUE constraint failed: pats.hash"@,
            Unique::SessionId => "UNIQUE constraint failed: auth_sessions.id"@,
            Unique::SessionAccess => "UNIQUE constraint failed: auth_sessions.access_hash"@,
            Unique::SessionRefresh => "UNIQUE constraint failed: auth_sessions.refresh_hash"@,
            Unique::RepositoryId => "UNIQUE constraint failed: repositories.id"@,
        }
    }

    fn message(&self) -> (r: String)
        ensures
            r@ == self.text(),
    {
        match self {
            Unique::PatId => "UNIQUE constraint failed: pats.id".to_owned(),
            Unique::PatHash => "UNIQUE constraint failed: pats.hash".to_owned(),
            Unique::SessionId => "UNIQUE constraint failed: auth_sessions.id".to_owned(),
            Unique::SessionAccess =>
                "UNIQUE constraint failed: auth_sessions.access_hash".to_owned(),
            Unique::SessionRefresh =>
                "UNIQUE constraint failed: auth_sessions.refresh_hash".to_owned(),
            Unique::RepositoryId => "UNIQUE constraint failed: repositories.id".to_owned(),
        }
    }
}

/// Why an operation on the Hub's state failed.
#[derive(Debug)]
pub enum StateError {
    InvalidName,
    /// The shared naming rules refuse the name, for this reason.
    NameRefused(String),
    Policy(PolicyError),
    SnapshotLimit,
    UploadLimit,
    /// The public URL cannot be read, for this reason.
    InvalidUrl(String),
    UrlExtras,
    UrlPath,
    UrlScheme,
    AlreadyInitialized,
    NotEmpty,
    UnsupportedSchema,
    Label,
    UnknownPat,
    /// A value is already in a column that holds no value twice.
    Duplicate(Unique),
    /// The saved tables break their rules.
    Tables,
    OriginsNotArray,
    InvalidOrigins,
    RepositoryExists,
    Clock,
}

impl StateError {
    /// The message of the failure.
    pub open spec fn text(self) -> Seq<char> {
        match self {
            StateError::InvalidName => "Invalid repository or owner name"@,
            StateError::NameRefused(reason) => reason@,
            StateError::Policy(e) => e.text(),
            StateError::SnapshotLimit => "Snapshot limit must be between 1 and 512 MiB"@,
            StateError::UploadLimit => "Upload limit must be between 1 and 4096 MiB"@,
            StateError::InvalidUrl(reason) => reason@,
            StateError::UrlExtras => "Public URL must not contain credentials, query or fragment"@,
            StateError::UrlPath => "This Hub requires a root public URL, without a path prefix"@,
            StateError::UrlScheme => "Use HTTPS, or HTTP on loopback for development"@,
            StateError::AlreadyInitialized => "Hub is already initialized"@,
            StateError::NotEmpty => "Initialize an empty data directory"@,
            StateError::UnsupportedSchema => "Unsupported Hub schema"@,
            StateError::Label => "Token label must contain 1-120 bytes"@,
            StateError::UnknownPat => "Unknown PAT identifier"@,
            StateError::Duplicate(column) => column.text(),
            StateError::Tables => "The saved tables are inconsistent"@,
            StateError::OriginsNotArray => "repo_origins must be an array"@,
            StateError::InvalidOrigins => "Invalid repo origins"@,
            StateError::RepositoryExists => "Repository already exists"@,
            StateError::Clock => "The clock is outside the supported range"@,
        }
    }

    /// Tells the message of the failure.
    pub fn message(&self) -> (r: String)
        ensures
            r@ == self.text(),
    {
        match self {
            StateError::InvalidName => "Invalid repository or owner name".to_owned(),
            StateError::NameRefused(reason) => reason.clone(),
            StateError::Policy(e) => e.message(),
            StateError::SnapshotLimit => "Snapshot limit must be between 1 and 512 MiB".to_owned(),
            StateError::UploadLimit => "Upload limit must be between 1 and 4096 MiB".to_owned(),
            StateError::InvalidUrl(reason) => reason.clone(),
            StateError::UrlExtras =>
                "Public URL must not contain credentials, query or fragment".to_owned(),
            StateError::UrlPath =>
                "This Hub requires a root public URL, without a path prefix".to_owned(),
            StateError::UrlScheme => "Use HTTPS, or HTTP on loopback for development".to_owned(),
            StateError::AlreadyInitialized => "Hub is already initialized".to_owned(),
            StateError::NotEmpty => "Initialize an empty data directory".to_owned(),
            StateError::UnsupportedSchema => "Unsupported Hub schema".to_owned(),
            StateError::Label => "Token label must contain 1-120 bytes".to_owned(),
            StateError::UnknownPat => "Unknown PAT identifier".to_owned(),
            StateError::Duplicate(column) => column.message(),
            StateError::Tables => "The saved tables are inconsistent".to_owned(),
            StateError::OriginsNotArray => "repo_origins must be an array".to_owned(),
            StateError::InvalidOrigins => "Invalid repo origins".to_owned(),
            StateError::RepositoryExists => "Repository already exists".to_owned(),
            StateError::Clock => "The clock is outside the supported range".to_owned(),
        }
    }
}

/// Why a name is refused, if it is: it has white space at an end, it is longer than 80 bytes,
/// or the shared naming rules refuse it.
pub open spec fn name_fault(name: Seq<char>, refused: Option<Seq<char>>) -> Option<Seq<char>> {
    if name != trim(name) || encode_utf8(name).len() > 80 {
        Some("Invalid repository or owner name"@)
    } else {
        refused
    }
}

/// Checks the name of an owner or a repository. `refused` is what the shared naming rules have
/// against it.
pub fn valid_name(name: &str, refused: &Option<String>) -> (r: Result<(), StateError>)
    ensures
        match r {
            Ok(()) => name_fault(name@, optional(*refused)) is None,
            Err(e) => name_fault(name@, optional(*refused)) == Some(e.text()),
        },
{
    let t = trimmed(name);
    if !same(name, t.as_str()) || utf8_len(name) > 80 {
        return Err(StateError::InvalidName);
    }
    match refused {
        Some(reason) => Err(StateError::NameRefused(reason.clone())),
        None => Ok(()),
    }
}

// ---------------------------------------------------------------------------
// Tables
// ---------------------------------------------------------------------------

/// The configuration of a Hub.
#[derive(Debug)]
pub struct Config {
    pub schema: u32,
    pub owner: String,
    pub account_id: String,
    pub public_url: String,
    pub max_snapshot_mib: usize,
    pub max_upload_mib: u64,
    pub storage: Policy,
}

impl Config {
    /// The limits are in range.
    pub open spec fn wf(self) -> bool {
        &&& self.schema == 1
        &&& 1 <= self.max_snapshot_mib <= 512
        &&& 1 <= self.max_upload_mib <= 4096
        &&& self.storage.valid()
    }
}

impl Clone for Config {
    fn clone(&self) -> (r: Self)
        ensures
            r == *self,
    {
        Config {
            schema: self.schema,
            owner: self.owner.clone(),
            account_id: self.account_id.clone(),
            public_url: self.public_url.clone(),
            max_snapshot_mib: self.max_snapshot_mib,
            max_upload_mib: self.max_upload_mib,
            storage: self.storage,
        }
    }
}

/// A published repository.
#[derive(Debug)]
pub struct Repository {
    pub id: String,
    pub owner: String,
    pub name: String,
}

#[verifier::ext_equal]
pub struct RepositoryView {
    pub id: Seq<char>,
    pub owner: Seq<char>,
    pub name: Seq<char>,
}

impl View for Repository {
    type V = RepositoryView;

    open spec fn view(&self) -> RepositoryView {
        RepositoryView { id: self.id@, owner: self.owner@, name: self.name@ }
    }
}

impl Clone for Repository {
    fn clone(&self) -> (r: Self)
        ensures
            r == *self,
    {
        Repository { id: self.id.clone(), owner: self.owner.clone(), name: self.name.clone() }
    }
}

/// A personal access token, kept by its hash.
#[derive(Debug)]
pub struct Pat {
    pub id: String,
    pub hash: String,
    pub label: String,
    pub revoked: bool,
}

#[verifier::ext_equal]
pub struct PatView {
    pub id: Seq<char>,
    pub hash: Seq<char>,
    pub label: Seq<char>,
    pub revoked: bool,
}

impl View for Pat {
    type V = PatView;

    open spec fn view(&self) -> PatView {
        PatView { id: self.id@, hash: self.hash@, label: self.label@, revoked: self.revoked }
    }
}

impl Pat {
    fn copied(&self, revoked: bool) -> (r: Self)
        ensures
            r@ == (PatView { revoked, ..self@ }),
    {
        Pat {
            id: self.id.clone(),
            hash: self.hash.clone(),
            label: self.label.clone(),
            revoked,
        }
    }
}

/// A login, with the hashes of its access token and its refresh token.
#[derive(Debug)]
pub struct AuthSession {
    pub id: String,
    pub pat_id: String,
    pub access_hash: String,
    pub refresh_hash: String,
    pub access_exp: i64,
    pub refresh_exp: i64,
}

#[verifier::ext_equal]
pub struct SessionView {
    pub id: Seq<char>,
    pub pat_id: Seq<char>,
    pub access_hash: Seq<char>,
    pub refresh_hash: Seq<char>,
    pub access_exp: i64,
    pub refresh_exp: i64,
}

impl View for AuthSession {
    type V = SessionView;

    open spec fn view(&self) -> SessionView {
        SessionView {
            id: self.id@,
            pat_id: self.pat_id@,
            access_hash: self.access_hash@,
            refresh_hash: self.refresh_hash@,
            access_exp: self.access_exp,
            refresh_exp: self.refresh_exp,
        }
    }
}

impl AuthSession {
    fn copied(&self) -> (r: Self)
        ensures
            r@ == self@,
    {
        AuthSession {
            id: self.id.clone(),
            pat_id: self.pat_id.clone(),
            access_hash: self.access_hash.clone(),
            refresh_hash: self.refresh_hash.clone(),
            access_exp: self.access_exp,
            refresh_exp: self.refresh_exp,
        }
    }
}

/// What the Hub keeps of a repository.
#[derive(Debug)]
pub struct Record {
    pub id: String,
    pub owner: String,
    pub name: String,
    /// The JSON document that lists the origins.
    pub origins: Vec<u8>,
    pub created: i64,
    /// Whether the search index may lack something of the repository.
    pub dirty: bool,
}

#[verifier::ext_equal]
pub struct RecordView {
    pub id: Seq<char>,
    pub owner: Seq<char>,
    pub name: Seq<char>,
    pub origins: Seq<u8>,
    pub created: i64,
    pub dirty: bool,
}

impl View for Record {
    type V = RecordView;

    open spec fn view(&self) -> RecordView {
        RecordView {
            id: self.id@,
            owner: self.owner@,
            name: self.name@,
            origins: self.origins@,
            created: self.created,
            dirty: self.dirty,
        }
    }
}

impl RecordView {
    /// The identity of the repository.
    pub open spec fn identity(self) -> RepositoryView {
        RepositoryView { id: self.id, owner: self.owner, name: self.name }
    }
}

impl Record {
    fn identity(&self) -> (r: Repository)
        ensures
            r@ == self@.identity(),
    {
        Repository { id: self.id.clone(), owner: self.owner.clone(), name: self.name.clone() }
    }
}

/// The tables of a Hub.
#[verifier::ext_equal]
pub struct Tables {
    pub pats: Seq<PatView>,
    pub sessions: Seq<SessionView>,
    pub records: Seq<RecordView>,
}

/// The Hub's state. `root` is its data directory.
pub struct State {
    pub root: String,
    pub config: Config,
    pub pats: Vec<Pat>,
    pub sessions: Vec<AuthSession>,
    pub records: Vec<Record>,
}

/// The tokens, seen through their characters.
pub open spec fn pat_views(v: Seq<Pat>) -> Seq<PatView> {
    Seq::new(v.len(), |i: int| v[i]@)
}

/// The sessions, seen through their characters.
pub open spec fn session_views(v: Seq<AuthSession>) -> Seq<SessionView> {
    Seq::new(v.len(), |i: int| v[i]@)
}

/// The records, seen through their characters.
pub open spec fn record_views(v: Seq<Record>) -> Seq<RecordView> {
    Seq::new(v.len(), |i: int| v[i]@)
}

impl View for State {
    type V = Tables;

    open spec fn view(&self) -> Tables {
        Tables {
            pats: pat_views(self.pats@),
            sessions: session_views(self.sessions@),
            records: record_views(self.records@),
        }
    }
}

impl Tables {
    /// No table has an entry.
    pub open spec fn none() -> Tables {
        Tables { pats: Seq::empty(), sessions: Seq::empty(), records: Seq::empty() }
    }

    /// Identifiers and hashes are unique, every session belongs to a token, and no two
    /// repositories share an owner and a name.
    pub open spec fn wf(self) -> bool {
        &&& distinct_pats(self.pats)
        &&& distinct_sessions(self.sessions)
        &&& forall|i: int|
            0 <= i < self.sessions.len() ==> self.knows((#[trigger] self.sessions[i]).pat_id)
        &&& distinct_records(self.records)
    }

    /// Whether a token identifier is in the table.
    pub open spec fn knows(self, id: Seq<char>) -> bool {
        exists|i: int| 0 <= i < self.pats.len() && (#[trigger] self.pats[i]).id == id
    }

    /// Whether a token identifier belongs to a token that is not revoked.
    pub open spec fn live(self, id: Seq<char>) -> bool {
        exists|i: int|
            0 <= i < self.pats.len() && (#[trigger] self.pats[i]).id == id && !self.pats[i].revoked
    }

    /// Whether an access token opens the Hub at a time: it belongs to a session that has not
    /// expired, of a token that is not revoked.
    pub open spec fn authenticates(self, access: Seq<char>, now: int) -> bool {
        exists|i: int|
            0 <= i < self.sessions.len() && (#[trigger] self.sessions[i]).access_hash == token_hash(
                access,
            ) && self.sessions[i].access_exp > now && self.live(self.sessions[i].pat_id)
    }

    /// Whether a refresh token is good at a time.
    pub open spec fn refreshes(self, refresh: Seq<char>, now: int) -> bool {
        exists|i: int|
            0 <= i < self.sessions.len() && (#[trigger] self.sessions[i]).refresh_hash
                == token_hash(refresh) && self.sessions[i].refresh_exp > now && self.live(
                self.sessions[i].pat_id,
            )
    }

    /// Whether a refresh token belongs to a session of a live token, whatever the time.
    pub open spec fn renews(self, refresh: Seq<char>) -> bool {
        exists|i: int|
            0 <= i < self.sessions.len() && (#[trigger] self.sessions[i]).refresh_hash
                == token_hash(refresh) && self.live(self.sessions[i].pat_id)
    }
}

/// Whether no two tokens share an identifier or a hash.
pub open spec fn distinct_pats(v: Seq<PatView>) -> bool {
    forall|i: int, j: int| 0 <= i < j < v.len() ==> !same_pat(#[trigger] v[i], #[trigger] v[j])
}

/// Whether no two sessions share an identifier or a hash.
pub open spec fn distinct_sessions(v: Seq<SessionView>) -> bool {
    forall|i: int, j: int| 0 <= i < j < v.len() ==> !clash(#[trigger] v[i], #[trigger] v[j])
}

/// Whether no two repositories share an identifier, or an owner and a name.
pub open spec fn distinct_records(v: Seq<RecordView>) -> bool {
    forall|i: int, j: int| 0 <= i < j < v.len() ==> !same_record(#[trigger] v[i], #[trigger] v[j])
}

/// Whether two tokens share an identifier or a hash.
pub open spec fn same_pat(a: PatView, b: PatView) -> bool {
    a.id == b.id || a.hash == b.hash
}

/// Whether two repositories share an identifier, or an owner and a name.
pub open spec fn same_record(a: RecordView, b: RecordView) -> bool {
    a.id == b.id || (a.owner == b.owner && a.name == b.name)
}

/// The column in which a token clashes with another, where it does: the hash comes first.
pub open spec fn pat_clash(pats: Seq<PatView>, pat: PatView) -> Unique {
    if exists|i: int| 0 <= i < pats.len() && (#[trigger] pats[i]).hash == pat.hash {
        Unique::PatHash
    } else {
        Unique::PatId
    }
}

/// The column in which a session clashes with another, where it does: the refresh hash comes
/// first, then the access hash.
pub open spec fn session_clash(sessions: Seq<SessionView>, s: SessionView) -> Unique {
    if exists|i: int|
        0 <= i < sessions.len() && (#[trigger] sessions[i]).refresh_hash == s.refresh_hash {
        Unique::SessionRefresh
    } else if exists|i: int|
        0 <= i < sessions.len() && (#[trigger] sessions[i]).access_hash == s.access_hash {
        Unique::SessionAccess
    } else {
        Unique::SessionId
    }
}

/// Whether two sessions share an identifier or a hash.
pub open spec fn clash(a: SessionView, b: SessionView) -> bool {
    a.id == b.id || a.access_hash == b.access_hash || a.refresh_hash == b.refresh_hash
}

// ---------------------------------------------------------------------------
// Tokens
// ---------------------------------------------------------------------------

/// How long an access token is good, in seconds.
pub const ACCESS_SECONDS: i64 = 3600;

/// How long a refresh token is good, in seconds.
pub const REFRESH_SECONDS: i64 = 2592000;

/// The random parts of a new session.
pub struct Fresh {
    pub id: String,
    pub access: String,
    pub refresh: String,
}

#[verifier::ext_equal]
pub struct FreshView {
    pub id: Seq<char>,
    pub access: Seq<char>,
    pub refresh: Seq<char>,
}

impl View for Fresh {
    type V = FreshView;

    open spec fn view(&self) -> FreshView {
        FreshView { id: self.id@, access: self.access@, refresh: self.refresh@ }
    }
}

/// Whether the parts of a session have the shape of what is drawn for one: an identifier and two
/// secrets.
pub open spec fn is_drawn(fresh: FreshView) -> bool {
    &&& is_hyphenated_id(fresh.id)
    &&& is_secret("agsh_access"@, fresh.access)
    &&& is_secret("agsh_refresh"@, fresh.refresh)
}

impl Fresh {
    /// Draws the random parts of a session.
    pub fn draw() -> (r: Self)
        ensures
            is_drawn(r@),
    {
        let access = secret("agsh_access");
        let refresh = secret("agsh_refresh");
        Fresh { id: random_hyphenated(), access, refresh }
    }
}

/// Whether a time can be the start of a session: its ends are dates.
pub open spec fn can_start(now: int) -> bool {
    FIRST_SECOND <= now && now + REFRESH_SECONDS <= LAST_SECOND
}

/// A session that starts at a time.
pub open spec fn session_at(pat_id: Seq<char>, now: int, fresh: FreshView) -> SessionView {
    SessionView {
        id: fresh.id,
        pat_id,
        access_hash: token_hash(fresh.access),
        refresh_hash: token_hash(fresh.refresh),
        access_exp: (now + ACCESS_SECONDS) as i64,
        refresh_exp: (now + REFRESH_SECONDS) as i64,
    }
}

/// The JSON form of the account.
pub open spec fn account_pairs(config: Config) -> Seq<(Seq<char>, Json)> {
    seq![
        ("account_id"@, Json::Text(config.account_id@)),
        ("username"@, Json::Text(config.owner@)),
    ]
}

/// What a client is told of a new session.
pub open spec fn session_json(config: Config, fresh: FreshView, now: int) -> Json {
    Json::Object(
        object_of(
            account_pairs(config) + seq![
                ("access_token"@, Json::Text(fresh.access)),
                ("refresh_token"@, Json::Text(fresh.refresh)),
                ("access_expires_at"@, Json::Text(date_text(now + ACCESS_SECONDS))),
                ("refresh_expires_at"@, Json::Text(date_text(now + REFRESH_SECONDS))),
            ],
        ),
    )
}

/// The identifier of the first token that has a hash and is not revoked.
pub open spec fn holder(pats: Seq<PatView>, hash: Seq<char>) -> Option<Seq<char>>
    decreases pats.len(),
{
    if pats.len() == 0 {
        None
    } else {
        match holder(pats.drop_last(), hash) {
            Some(id) => Some(id),
            None => if pats.last().hash == hash && !pats.last().revoked {
                Some(pats.last().id)
            } else {
                None
            },
        }
    }
}

/// The first session that a refresh hash belongs to, among those that are good at a time.
pub open spec fn renewable(
    tables: Tables,
    sessions: Seq<SessionView>,
    hash: Seq<char>,
    now: int,
) -> Option<SessionView>
    decreases sessions.len(),
{
    if sessions.len() == 0 {
        None
    } else {
        let s = sessions.last();
        match renewable(tables, sessions.drop_last(), hash, now) {
            Some(x) => Some(x),
            None => if s.refresh_hash == hash && s.refresh_exp > now && tables.live(s.pat_id) {
                Some(s)
            } else {
                None
            },
        }
    }
}

/// Which sessions do not come from a token.
pub open spec fn not_of_pat(id: Seq<char>) -> spec_fn(SessionView) -> bool {
    |s: SessionView| s.pat_id != id
}

/// Which sessions do not have an identifier.
pub open spec fn not_with_id(id: Seq<char>) -> spec_fn(SessionView) -> bool {
    |s: SessionView| s.id != id
}

/// Which sessions do not have an access token with a hash.
pub open spec fn not_with_access(hash: Seq<char>) -> spec_fn(SessionView) -> bool {
    |s: SessionView| s.access_hash != hash
}

impl Tables {
    /// The tables with a token more, unless its identifier or its hash is in use.
    pub open spec fn with_pat(self, pat: PatView) -> Option<Tables> {
        if exists|i: int|
            0 <= i < self.pats.len() && ((#[trigger] self.pats[i]).id == pat.id || self.pats[i].hash
                == pat.hash) {
            None
        } else {
            Some(Tables { pats: self.pats.push(pat), ..self })
        }
    }

    /// The tables with a session more, unless it shares an identifier or a hash with another.
    pub open spec fn with_session(self, session: SessionView) -> Option<Tables> {
        if exists|i: int| 0 <= i < self.sessions.len() && clash(#[trigger] self.sessions[i], session) {
            None
        } else {
            Some(Tables { sessions: self.sessions.push(session), ..self })
        }
    }

    /// The tables with a token revoked and its sessions gone.
    pub open spec fn revoked(self, id: Seq<char>) -> Tables {
        Tables {
            pats: Seq::new(
                self.pats.len(),
                |i: int|
                    if self.pats[i].id == id {
                        PatView { revoked: true, ..self.pats[i] }
                    } else {
                        self.pats[i]
                    },
            ),
            sessions: self.sessions.filter(not_of_pat(id)),
            ..self
        }
    }

    /// The tables without the sessions of an access token.
    pub open spec fn logged_out(self, access: Seq<char>) -> Tables {
        Tables { sessions: self.sessions.filter(not_with_access(token_hash(access))), ..self }
    }

    /// The tables without the session of an identifier.
    pub open spec fn without_session(self, id: Seq<char>) -> Tables {
        Tables { sessions: self.sessions.filter(not_with_id(id)), ..self }
    }

    /// The tables after a token has opened a session at a time. `None`: no such session can be
    /// added.
    pub open spec fn opened(self, pat_id: Seq<char>, now: int, fresh: FreshView) -> Option<Tables> {
        self.with_session(session_at(pat_id, now, fresh))
    }
}

/// What opening a session on the tables comes to: the new tables and what the client is told,
/// or a failure that changes nothing.
pub open spec fn opening(
    pre: State,
    base: Tables,
    pat_id: Seq<char>,
    now: int,
    fresh: FreshView,
    post: State,
    r: Result<Option<Value>, StateError>,
) -> bool {
    match base.opened(pat_id, now, fresh) {
        Some(tables) => if can_start(now) {
            post@ == tables && (r matches Ok(Some(v)) && json_of(v) == session_json(
                pre.config,
                fresh,
                now,
            ))
        } else {
            post@ == pre@ && r matches Err(StateError::Clock)
        },
        None => post@ == pre@ && (r matches Err(StateError::Duplicate(column)) && column
            == session_clash(base.sessions, session_at(pat_id, now, fresh))),
    }
}

/// What a login at a time comes to.
pub open spec fn login_outcome(
    pre: State,
    pat: Seq<char>,
    now: int,
    fresh: FreshView,
    post: State,
    r: Result<Option<Value>, StateError>,
) -> bool {
    match holder(pre@.pats, token_hash(pat)) {
        Some(id) => opening(pre, pre@, id, now, fresh, post, r),
        None => post@ == pre@ && r matches Ok(None),
    }
}

/// What a refresh at a time comes to.
pub open spec fn refresh_outcome(
    pre: State,
    token: Seq<char>,
    now: int,
    fresh: FreshView,
    post: State,
    r: Result<Option<Value>, StateError>,
) -> bool {
    match renewable(pre@, pre@.sessions, token_hash(token), now) {
        Some(s) => opening(pre, pre@.without_session(s.id), s.pat_id, now, fresh, post, r),
        None => post@ == pre@ && r matches Ok(None),
    }
}

impl State {
    /// Whether only the tables differ.
    pub open spec fn same_hub(self, other: State) -> bool {
        self.root == other.root && self.config == other.config
    }

    /// Whether a new token's label is out of range.
    pub open spec fn label_fault(label: Seq<char>) -> bool {
        label.len() == 0 || encode_utf8(label).len() > 120
    }

    /// Adds a token with a label under its hash.
    pub fn add_token(&mut self, label: &str, token: &str, id: String) -> (r: Result<
        (),
        StateError,
    >)
        ensures
            final(self).same_hub(*old(self)),
            old(self)@.wf() ==> final(self)@.wf(),
            ({
                let pat = PatView {
                    id: id@,
                    hash: token_hash(token@),
                    label: label@,
                    revoked: false,
                };
                if State::label_fault(label@) {
                    final(self)@ == old(self)@ && r matches Err(StateError::Label)
                } else {
                    match old(self)@.with_pat(pat) {
                        Some(tables) => final(self)@ == tables && r is Ok,
                        None => final(self)@ == old(self)@ && (r matches Err(
                            StateError::Duplicate(column),
                        ) && column == pat_clash(old(self)@.pats, pat)),
                    }
                }
            }),
    {
        if label.is_empty() || utf8_len(label) > 120 {
            return Err(StateError::Label);
        }
        let hash = hash_token(token);
        let mut by_id = false;
        let mut i: usize = 0;
        while i < self.pats.len()
            invariant
                *self == *old(self),
                i <= self.pats@.len(),
                hash@ == token_hash(token@),
                !State::label_fault(label@),
                forall|k: int| 0 <= k < i ==> (#[trigger] self@.pats[k]).hash != hash@,
                !by_id ==> forall|k: int| 0 <= k < i ==> (#[trigger] self@.pats[k]).id != id@,
                by_id ==> exists|k: int| 0 <= k < i && (#[trigger] self@.pats[k]).id == id@,
            decreases self.pats@.len() - i,
        {
            if same(self.pats[i].hash.as_str(), hash.as_str()) {
                assert(self@.pats[i as int].hash == hash@);
                return Err(StateError::Duplicate(Unique::PatHash));
            }
            if same(self.pats[i].id.as_str(), id.as_str()) {
                assert(self@.pats[i as int].id == id@);
                by_id = true;
            }
            i += 1;
        }
        if by_id {
            return Err(StateError::Duplicate(Unique::PatId));
        }
        self.pats.push(Pat { id, hash, label: label.to_owned(), revoked: false });
        proof {
            let pat = PatView {
                id: id@,
                hash: token_hash(token@),
                label: label@,
                revoked: false,
            };
            assert(self@.pats == old(self)@.pats.push(pat));
            assert(self@ == old(self)@.with_pat(pat)->0);
            if old(self)@.wf() {
                assert forall|k: int| 0 <= k < self@.sessions.len() implies self@.knows(
                    (#[trigger] self@.sessions[k]).pat_id,
                ) by {
                    assert(old(self)@.knows(old(self)@.sessions[k].pat_id));
                    let m = choose|m: int|
                        0 <= m < old(self)@.pats.len() && (#[trigger] old(self)@.pats[m]).id
                            == old(self)@.sessions[k].pat_id;
                    assert(self@.pats[m].id == self@.sessions[k].pat_id);
                }
            }
        }
        Ok(())
    }

    /// Issues a token with a label, and hands it out this once.
    pub fn issue_token(&mut self, label: &str) -> (r: Result<String, StateError>)
        ensures
            final(self).same_hub(*old(self)),
            old(self)@.wf() ==> final(self)@.wf(),
            match r {
                Ok(token) => is_secret("agsh_pat"@, token@) && !State::label_fault(label@) && exists|
                    id: Seq<char>,
                |
                    is_hyphenated_id(id) && Some(final(self)@) == #[trigger] old(self)@.with_pat(
                        PatView { id, hash: token_hash(token@), label: label@, revoked: false },
                    ),
                Err(StateError::Label) => State::label_fault(label@) && final(self)@ == old(self)@,
                Err(e) => e is Duplicate && !State::label_fault(label@) && final(self)@
                    == old(self)@ && exists|token: Seq<char>, id: Seq<char>|
                    is_secret("agsh_pat"@, token) && is_hyphenated_id(id)
                        && #[trigger] old(self)@.with_pat(
                        PatView { id, hash: token_hash(token), label: label@, revoked: false },
                    ) is None,
            },
    {
        let token = secret("agsh_pat");
        let id = random_hyphenated();
        let ghost chosen = id@;
        match self.add_token(label, token.as_str(), id) {
            Ok(()) => {
                assert(Some(self@) == old(self)@.with_pat(
                    PatView {
                        id: chosen,
                        hash: token_hash(token@),
                        label: label@,
                        revoked: false,
                    },
                ));
                Ok(token)
            },
            Err(e) => Err(e),
        }
    }

    /// The JSON form of the tokens: identifiers and labels, never hashes.
    pub open spec fn tokens_json(self) -> Json {
        Json::List(Seq::new(self@.pats.len(), |i: int| token_json(self@.pats[i])))
    }

    /// Lists the tokens.
    pub fn list_tokens(&self) -> (r: Value)
        ensures
            json_of(r) == self.tokens_json(),
    {
        let mut items: Vec<Value> = Vec::new();
        let mut i: usize = 0;
        while i < self.pats.len()
            invariant
                i <= self.pats@.len(),
                items@.len() == i,
                forall|k: int|
                    0 <= k < i ==> json_of(#[trigger] items@[k]) == token_json(self@.pats[k]),
            decreases self.pats@.len() - i,
        {
            let p = &self.pats[i];
            let pairs = vec![
                pair("id", text(p.id.as_str())),
                pair("label", text(p.label.as_str())),
                pair("revoked", flag(p.revoked)),
            ];
            assert(members(pairs@) == seq![
                ("id"@, Json::Text(p.id@)),
                ("label"@, Json::Text(p.label@)),
                ("revoked"@, Json::Flag(p.revoked)),
            ]);
            items.push(object(pairs));
            i += 1;
        }
        assert(jsons(items@) == Seq::new(self@.pats.len(), |k: int| token_json(self@.pats[k])));
        list(items)
    }

    fn live_token(&self, id: &str) -> (r: bool)
        ensures
            r == self@.live(id@),
    {
        let mut i: usize = 0;
        while i < self.pats.len()
            invariant
                i <= self.pats@.len(),
                forall|k: int|
                    0 <= k < i ==> !((#[trigger] self@.pats[k]).id == id@ && !self@.pats[k].revoked),
            decreases self.pats@.len() - i,
        {
            if same(self.pats[i].id.as_str(), id) && !self.pats[i].revoked {
                assert(self@.pats[i as int].id == id@);
                return true;
            }
            i += 1;
        }
        false
    }

    /// Revokes a token and every session that came from it.
    pub fn revoke_token(&mut self, id: &str) -> (r: Result<(), StateError>)
        ensures
            final(self).same_hub(*old(self)),
            old(self)@.wf() ==> final(self)@.wf(),
            match r {
                Ok(()) => old(self)@.knows(id@) && final(self)@ == old(self)@.revoked(id@),
                Err(e) => e is UnknownPat && !old(self)@.knows(id@) && final(self)@ == old(self)@,
            },
    {
        let mut found = false;
        let mut pats: Vec<Pat> = Vec::new();
        let mut i: usize = 0;
        while i < self.pats.len()
            invariant
                *self == *old(self),
                i <= self.pats@.len(),
                pats@.len() == i,
                found == exists|k: int| 0 <= k < i && (#[trigger] self@.pats[k]).id == id@,
                forall|k: int|
                    0 <= k < i ==> (#[trigger] pats@[k])@ == if self@.pats[k].id == id@ {
                        PatView { revoked: true, ..self@.pats[k] }
                    } else {
                        self@.pats[k]
                    },
            decreases self.pats@.len() - i,
        {
            let p = &self.pats[i];
            if same(p.id.as_str(), id) {
                assert(self@.pats[i as int].id == id@);
                found = true;
                pats.push(p.copied(true));
            } else {
                pats.push(p.copied(p.revoked));
            }
            i += 1;
        }
        if !found {
            return Err(StateError::UnknownPat);
        }
        let mut sessions: Vec<AuthSession> = Vec::new();
        let mut i: usize = 0;
        proof {
            reveal(Seq::filter);
            assert(session_views(sessions@) == self@.sessions.take(0).filter(not_of_pat(id@)));
        }
        while i < self.sessions.len()
            invariant
                *self == *old(self),
                i <= self.sessions@.len(),
                session_views(sessions@) == self@.sessions.take(i as int).filter(not_of_pat(id@)),
            decreases self.sessions@.len() - i,
        {
            proof {
                reveal(Seq::filter);
                assert(self@.sessions.take(i + 1).drop_last() == self@.sessions.take(i as int));
            }
            let s = &self.sessions[i];
            if !same(s.pat_id.as_str(), id) {
                let ghost kept = session_views(sessions@);
                sessions.push(s.copied());
                assert(session_views(sessions@) == kept.push(s@));
            }
            i += 1;
        }
        assert(self@.sessions.take(self@.sessions.len() as int) == self@.sessions);
        self.pats = pats;
        self.sessions = sessions;
        proof {
            assert(self@.pats == old(self)@.revoked(id@).pats);
            assert(self@ == old(self)@.revoked(id@));
            if old(self)@.wf() {
                lemma_revoked_wf(old(self)@, id@);
            }
        }
        Ok(())
    }

    /// The JSON form of the account.
    pub fn account(&self) -> (r: Value)
        ensures
            json_of(r) == Json::Object(object_of(account_pairs(self.config))),
    {
        let pairs = vec![
            pair("account_id", text(self.config.account_id.as_str())),
            pair("username", text(self.config.owner.as_str())),
        ];
        assert(members(pairs@) == account_pairs(self.config));
        object(pairs)
    }

    fn session_reply(&self, fresh: &Fresh, now: i64) -> (r: Value)
        requires
            can_start(now as int),
        ensures
            json_of(r) == session_json(self.config, fresh@, now as int),
    {
        let pairs = vec![
            pair("account_id", text(self.config.account_id.as_str())),
            pair("username", text(self.config.owner.as_str())),
            pair("access_token", text(fresh.access.as_str())),
            pair("refresh_token", text(fresh.refresh.as_str())),
            pair("access_expires_at", text(timestamp(now + ACCESS_SECONDS).as_str())),
            pair("refresh_expires_at", text(timestamp(now + REFRESH_SECONDS).as_str())),
        ];
        assert(members(pairs@) == account_pairs(self.config) + seq![
            ("access_token"@, Json::Text(fresh.access@)),
            ("refresh_token"@, Json::Text(fresh.refresh@)),
            ("access_expires_at"@, Json::Text(date_text(now + ACCESS_SECONDS))),
            ("refresh_expires_at"@, Json::Text(date_text(now + REFRESH_SECONDS))),
        ]);
        object(pairs)
    }

}

/// The JSON form of a token.
pub open spec fn token_json(p: PatView) -> Json {
    Json::Object(
        object_of(
            seq![
                ("id"@, Json::Text(p.id)),
                ("label"@, Json::Text(p.label)),
                ("revoked"@, Json::Flag(p.revoked)),
            ],
        ),
    )
}

proof fn lemma_kept_sessions_wf(
    tables: Tables,
    pats: Seq<PatView>,
    keep: spec_fn(SessionView) -> bool,
)
    requires
        tables.wf(),
        pats.len() == tables.pats.len(),
        forall|i: int|
            0 <= i < pats.len() ==> (#[trigger] pats[i]).id == tables.pats[i].id && pats[i].hash
                == tables.pats[i].hash,
    ensures
        (Tables { pats, sessions: tables.sessions.filter(keep), ..tables }).wf(),
{
    let post = Tables { pats, sessions: tables.sessions.filter(keep), ..tables };
    lemma_filter(tables.sessions, keep);
    assert forall|i: int, j: int| 0 <= i < j < post.pats.len() implies (
    #[trigger] post.pats[i]).id != (#[trigger] post.pats[j]).id && post.pats[i].hash
        != post.pats[j].hash by {
        assert(tables.pats[i].id != tables.pats[j].id);
    }
    assert forall|i: int, j: int| 0 <= i < j < post.sessions.len() implies !clash(
        #[trigger] post.sessions[i],
        #[trigger] post.sessions[j],
    ) by {
        let (a, b) = choose|a: int, b: int|
            #![trigger tables.sessions[a], tables.sessions[b]]
            0 <= a < b < tables.sessions.len() && tables.sessions[a] == post.sessions[i]
                && tables.sessions[b] == post.sessions[j];
        assert(!clash(tables.sessions[a], tables.sessions[b]));
    }
    assert forall|i: int| 0 <= i < post.sessions.len() implies post.knows(
        (#[trigger] post.sessions[i]).pat_id,
    ) by {
        assert(tables.sessions.contains(post.sessions[i]));
        let a = choose|a: int|
            0 <= a < tables.sessions.len() && tables.sessions[a] == post.sessions[i];
        assert(tables.knows(tables.sessions[a].pat_id));
        let m = choose|m: int|
            0 <= m < tables.pats.len() && (#[trigger] tables.pats[m]).id == tables.sessions[a].pat_id;
        assert(post.pats[m].id == post.sessions[i].pat_id);
    }
}

proof fn lemma_revoked_wf(tables: Tables, id: Seq<char>)
    requires
        tables.wf(),
    ensures
        tables.revoked(id).wf(),
{
    lemma_kept_sessions_wf(tables, tables.revoked(id).pats, not_of_pat(id));
}

proof fn lemma_with_session_wf(tables: Tables, s: SessionView)
    requires
        tables.wf(),
        tables.knows(s.pat_id),
        tables.with_session(s) is Some,
    ensures
        (tables.with_session(s)->0).wf(),
{
    let post = tables.with_session(s)->0;
    assert forall|i: int, j: int| 0 <= i < j < post.sessions.len() implies !clash(
        #[trigger] post.sessions[i],
        #[trigger] post.sessions[j],
    ) by {
        assert(post.sessions[i] == tables.sessions[i]);
        if j < tables.sessions.len() {
            assert(!clash(tables.sessions[i], tables.sessions[j]));
        }
    }
    assert forall|i: int| 0 <= i < post.sessions.len() implies post.knows(
        (#[trigger] post.sessions[i]).pat_id,
    ) by {
        if i < tables.sessions.len() {
            assert(tables.knows(tables.sessions[i].pat_id));
        }
        let m = choose|m: int|
            0 <= m < tables.pats.len() && (#[trigger] tables.pats[m]).id == post.sessions[i].pat_id;
        assert(post.pats[m].id == post.sessions[i].pat_id);
    }
}

proof fn lemma_holder(pats: Seq<PatView>, hash: Seq<char>)
    ensures
        match holder(pats, hash) {
            Some(id) => exists|i: int|
                0 <= i < pats.len() && (#[trigger] pats[i]).id == id && pats[i].hash == hash
                    && !pats[i].revoked,
            None => forall|i: int|
                0 <= i < pats.len() ==> !((#[trigger] pats[i]).hash == hash && !pats[i].revoked),
        },
    decreases pats.len(),
{
    if pats.len() > 0 {
        let init = pats.drop_last();
        lemma_holder(init, hash);
        match holder(init, hash) {
            Some(id) => {
                let i = choose|i: int|
                    0 <= i < init.len() && (#[trigger] init[i]).id == id && init[i].hash == hash
                        && !init[i].revoked;
                assert(pats[i].id == id);
            },
            None => {
                assert(pats[pats.len() - 1] == pats.last());
                assert forall|i: int| 0 <= i < init.len() implies !((#[trigger] pats[i]).hash == hash
                    && !pats[i].revoked) by {
                    assert(init[i] == pats[i]);
                }
            },
        }
    }
}

proof fn lemma_renewable(tables: Tables, sessions: Seq<SessionView>, hash: Seq<char>, now: int)
    ensures
        match renewable(tables, sessions, hash, now) {
            Some(s) => exists|i: int|
                0 <= i < sessions.len() && #[trigger] sessions[i] == s && s.refresh_hash == hash
                    && s.refresh_exp > now && tables.live(s.pat_id),
            None => forall|i: int|
                0 <= i < sessions.len() ==> !((#[trigger] sessions[i]).refresh_hash == hash
                    && sessions[i].refresh_exp > now && tables.live(sessions[i].pat_id)),
        },
    decreases sessions.len(),
{
    if sessions.len() > 0 {
        let init = sessions.drop_last();
        lemma_renewable(tables, init, hash, now);
        match renewable(tables, init, hash, now) {
            Some(s) => {
                let i = choose|i: int| 0 <= i < init.len() && #[trigger] init[i] == s;
                assert(sessions[i] == s);
            },
            None => {
                assert(sessions[sessions.len() - 1] == sessions.last());
                assert forall|i: int| 0 <= i < init.len() implies !((
                #[trigger] sessions[i]).refresh_hash == hash && sessions[i].refresh_exp > now
                    && tables.live(sessions[i].pat_id)) by {
                    assert(init[i] == sessions[i]);
                }
            },
        }
    }
}

impl State {
    /// Adds a session of a token to the given sessions, which are the rest of the table.
    fn new_session(
        &mut self,
        kept: Vec<AuthSession>,
        pat: String,
        now: i64,
        fresh: Fresh,
    ) -> (r: Result<Option<Value>, StateError>)
        ensures
            final(self).same_hub(*old(self)),
            opening(
                *old(self),
                Tables { sessions: session_views(kept@), ..old(self)@ },
                pat@,
                now as int,
                fresh@,
                *final(self),
                r,
            ),
    {
        let ghost base = Tables { sessions: session_views(kept@), ..self@ };
        let ghost added = session_at(pat@, now as int, fresh@);
        let access_hash = hash_token(fresh.access.as_str());
        let refresh_hash = hash_token(fresh.refresh.as_str());
        let mut by_access = false;
        let mut by_id = false;
        let mut i: usize = 0;
        while i < kept.len()
            invariant
                *self == *old(self),
                i <= kept@.len(),
                base == (Tables { sessions: session_views(kept@), ..self@ }),
                added == session_at(pat@, now as int, fresh@),
                access_hash@ == added.access_hash,
                refresh_hash@ == added.refresh_hash,
                forall|k: int|
                    0 <= k < i ==> (#[trigger] base.sessions[k]).refresh_hash != added.refresh_hash,
                !by_access ==> forall|k: int|
                    0 <= k < i ==> (#[trigger] base.sessions[k]).access_hash != added.access_hash,
                by_access ==> exists|k: int|
                    0 <= k < i && (#[trigger] base.sessions[k]).access_hash == added.access_hash,
                !by_id ==> forall|k: int|
                    0 <= k < i ==> (#[trigger] base.sessions[k]).id != added.id,
                by_id ==> exists|k: int| 0 <= k < i && (#[trigger] base.sessions[k]).id == added.id,
            decreases kept@.len() - i,
        {
            let s = &kept[i];
            let ghost there = base.sessions[i as int];
            if same(s.refresh_hash.as_str(), refresh_hash.as_str()) {
                assert(there.refresh_hash == added.refresh_hash);
                assert(clash(there, added));
                return Err(StateError::Duplicate(Unique::SessionRefresh));
            }
            if same(s.access_hash.as_str(), access_hash.as_str()) {
                assert(there.access_hash == added.access_hash);
                by_access = true;
            }
            if same(s.id.as_str(), fresh.id.as_str()) {
                assert(there.id == added.id);
                by_id = true;
            }
            i += 1;
        }
        if by_access || by_id {
            assert(exists|k: int|
                0 <= k < base.sessions.len() && clash(#[trigger] base.sessions[k], added)) by {
                let k = if by_access {
                    choose|k: int|
                        0 <= k < i && (#[trigger] base.sessions[k]).access_hash
                            == added.access_hash
                } else {
                    choose|k: int| 0 <= k < i && (#[trigger] base.sessions[k]).id == added.id
                };
                assert(clash(base.sessions[k], added));
            }
            return Err(
                StateError::Duplicate(
                    if by_access {
                        Unique::SessionAccess
                    } else {
                        Unique::SessionId
                    },
                ),
            );
        }
        if now < FIRST_SECOND || now > LAST_SECOND - REFRESH_SECONDS {
            return Err(StateError::Clock);
        }
        let session = AuthSession {
            id: fresh.id.clone(),
            pat_id: pat,
            access_hash,
            refresh_hash,
            access_exp: now + ACCESS_SECONDS,
            refresh_exp: now + REFRESH_SECONDS,
        };
        assert(session@ == added);
        let reply = self.session_reply(&fresh, now);
        let mut sessions = kept;
        sessions.push(session);
        assert(session_views(sessions@) == base.sessions.push(added));
        self.sessions = sessions;
        assert(self@ == base.with_session(added)->0);
        Ok(Some(reply))
    }

    /// Copies the sessions except the one with an identifier, if one is given.
    fn sessions_without(&self, id: Option<&str>) -> (r: Vec<AuthSession>)
        ensures
            session_views(r@) == match id {
                Some(id) => self@.sessions.filter(not_with_id(id@)),
                None => self@.sessions,
            },
    {
        let mut kept: Vec<AuthSession> = Vec::new();
        let mut i: usize = 0;
        proof {
            reveal(Seq::filter);
            assert(session_views(kept@) == self@.sessions.take(0));
        }
        while i < self.sessions.len()
            invariant
                i <= self.sessions@.len(),
                session_views(kept@) == match id {
                    Some(id) => self@.sessions.take(i as int).filter(not_with_id(id@)),
                    None => self@.sessions.take(i as int),
                },
            decreases self.sessions@.len() - i,
        {
            proof {
                reveal(Seq::filter);
                assert(self@.sessions.take(i + 1).drop_last() == self@.sessions.take(i as int));
                assert(self@.sessions.take(i + 1) == self@.sessions.take(i as int).push(
                    self@.sessions[i as int],
                ));
            }
            let s = &self.sessions[i];
            let drop = match id {
                Some(id) => same(s.id.as_str(), id),
                None => false,
            };
            if !drop {
                let ghost before = session_views(kept@);
                kept.push(s.copied());
                assert(session_views(kept@) == before.push(s@));
            }
            i += 1;
        }
        assert(self@.sessions.take(self@.sessions.len() as int) == self@.sessions);
        kept
    }

    /// Logs in with a token at a time: an unknown or revoked token opens nothing, and no session
    /// opens at a time that its ends cannot be dated from.
    pub fn login_at(&mut self, pat: &str, now: i64, fresh: Fresh) -> (r: Result<
        Option<Value>,
        StateError,
    >)
        ensures
            final(self).same_hub(*old(self)),
            old(self)@.wf() ==> final(self)@.wf(),
            login_outcome(*old(self), pat@, now as int, fresh@, *final(self), r),
    {
        let hash = hash_token(pat);
        let mut id: Option<String> = None;
        let mut i: usize = 0;
        assert(self@.pats.take(0).len() == 0);
        while i < self.pats.len()
            invariant
                *self == *old(self),
                i <= self.pats@.len(),
                hash@ == token_hash(pat@),
                optional(id) == holder(self@.pats.take(i as int), hash@),
            decreases self.pats@.len() - i,
        {
            assert(self@.pats.take(i + 1).drop_last() == self@.pats.take(i as int));
            let p = &self.pats[i];
            if id.is_none() && same(p.hash.as_str(), hash.as_str()) && !p.revoked {
                id = Some(p.id.clone());
            }
            i += 1;
        }
        assert(self@.pats.take(self@.pats.len() as int) == self@.pats);
        match id {
            None => Ok(None),
            Some(id) => {
                let kept = self.sessions_without(None);
                let ghost pat_id = id@;
                assert(self@ == (Tables { sessions: session_views(kept@), ..self@ }));
                let r = self.new_session(kept, id, now, fresh);
                proof {
                    if old(self)@.wf() && old(self)@.opened(pat_id, now as int, fresh@) is Some {
                        lemma_holder(old(self)@.pats, hash@);
                        assert(old(self)@.knows(pat_id));
                        lemma_with_session_wf(
                            old(self)@,
                            session_at(pat_id, now as int, fresh@),
                        );
                    }
                }
                r
            },
        }
    }

    /// Exchanges a refresh token at a time: the old session ends and a new one starts, unless its
    /// ends cannot be dated.
    pub fn refresh_at(&mut self, token: &str, now: i64, fresh: Fresh) -> (r: Result<
        Option<Value>,
        StateError,
    >)
        ensures
            final(self).same_hub(*old(self)),
            old(self)@.wf() ==> final(self)@.wf(),
            refresh_outcome(*old(self), token@, now as int, fresh@, *final(self), r),
    {
        let hash = hash_token(token);
        let mut found: Option<usize> = None;
        let mut i: usize = 0;
        assert(self@.sessions.take(0).len() == 0);
        while i < self.sessions.len()
            invariant
                *self == *old(self),
                i <= self.sessions@.len(),
                hash@ == token_hash(token@),
                match found {
                    Some(k) => k < i && renewable(
                        self@,
                        self@.sessions.take(i as int),
                        hash@,
                        now as int,
                    ) == Some(self@.sessions[k as int]),
                    None => renewable(self@, self@.sessions.take(i as int), hash@, now as int)
                        is None,
                },
            decreases self.sessions@.len() - i,
        {
            assert(self@.sessions.take(i + 1).drop_last() == self@.sessions.take(i as int));
            let s = &self.sessions[i];
            if found.is_none() && same(s.refresh_hash.as_str(), hash.as_str()) && s.refresh_exp
                > now && self.live_token(s.pat_id.as_str()) {
                found = Some(i);
            }
            i += 1;
        }
        assert(self@.sessions.take(self@.sessions.len() as int) == self@.sessions);
        match found {
            None => Ok(None),
            Some(k) => {
                let id = self.sessions[k].id.clone();
                let pat = self.sessions[k].pat_id.clone();
                let ghost s = self@.sessions[k as int];
                let kept = self.sessions_without(Some(id.as_str()));
                assert(self@.without_session(s.id) == (Tables {
                    sessions: session_views(kept@),
                    ..self@
                }));
                let r = self.new_session(kept, pat, now, fresh);
                proof {
                    let base = old(self)@.without_session(s.id);
                    if old(self)@.wf() {
                        lemma_kept_sessions_wf(old(self)@, old(self)@.pats, not_with_id(s.id));
                        lemma_renewable(old(self)@, old(self)@.sessions, hash@, now as int);
                        assert(old(self)@.live(s.pat_id));
                        let m = choose|m: int|
                            0 <= m < old(self)@.pats.len() && (#[trigger] old(self)@.pats[m]).id
                                == s.pat_id && !old(self)@.pats[m].revoked;
                        assert(base.pats[m].id == s.pat_id);
                        assert(base.knows(s.pat_id));
                        if base.opened(s.pat_id, now as int, fresh@) is Some {
                            lemma_with_session_wf(base, session_at(s.pat_id, now as int, fresh@));
                        }
                    }
                }
                r
            },
        }
    }

    /// Whether an access token is good at a time.
    pub fn authenticated_at(&self, access: &str, now: i64) -> (r: bool)
        ensures
            r == self@.authenticates(access@, now as int),
    {
        let hash = hash_token(access);
        let mut i: usize = 0;
        while i < self.sessions.len()
            invariant
                i <= self.sessions@.len(),
                hash@ == token_hash(access@),
                forall|k: int|
                    0 <= k < i ==> !((#[trigger] self@.sessions[k]).access_hash == hash@
                        && self@.sessions[k].access_exp > now && self@.live(
                        self@.sessions[k].pat_id,
                    )),
            decreases self.sessions@.len() - i,
        {
            let s = &self.sessions[i];
            if same(s.access_hash.as_str(), hash.as_str()) && s.access_exp > now && self.live_token(
                s.pat_id.as_str(),
            ) {
                assert(self@.sessions[i as int].access_hash == hash@);
                return true;
            }
            i += 1;
        }
        false
    }

    /// Logs in with a token.
    pub fn login(&mut self, pat: &str) -> (r: Result<Option<Value>, StateError>)
        ensures
            final(self).same_hub(*old(self)),
            old(self)@.wf() ==> final(self)@.wf(),
            holder(old(self)@.pats, token_hash(pat@)) is None ==> (r matches Ok(None))
                && final(self)@ == old(self)@,
            exists|now: int, fresh: FreshView|
                0 <= now && is_date(now) && is_drawn(fresh) && #[trigger] login_outcome(
                    *old(self),
                    pat@,
                    now,
                    fresh,
                    *final(self),
                    r,
                ),
    {
        let now = current_second();
        let fresh = Fresh::draw();
        let ghost f = fresh@;
        let r = self.login_at(pat, now, fresh);
        assert(login_outcome(*old(self), pat@, now as int, f, *self, r));
        r
    }

    /// Exchanges a refresh token.
    pub fn refresh(&mut self, token: &str) -> (r: Result<Option<Value>, StateError>)
        ensures
            final(self).same_hub(*old(self)),
            old(self)@.wf() ==> final(self)@.wf(),
            !old(self)@.renews(token@) ==> (r matches Ok(None)) && final(self)@ == old(self)@,
            exists|now: int, fresh: FreshView|
                0 <= now && is_date(now) && is_drawn(fresh) && #[trigger] refresh_outcome(
                    *old(self),
                    token@,
                    now,
                    fresh,
                    *final(self),
                    r,
                ),
    {
        let now = current_second();
        let fresh = Fresh::draw();
        let ghost f = fresh@;
        let r = self.refresh_at(token, now, fresh);
        assert(refresh_outcome(*old(self), token@, now as int, f, *self, r));
        proof {
            lemma_renewable(old(self)@, old(self)@.sessions, token_hash(token@), now as int);
        }
        r
    }

    /// Whether an access token is good now.
    pub fn authenticated(&self, access: &str) -> (r: bool)
        ensures
            exists|now: int|
                0 <= now && is_date(now) && r == #[trigger] self@.authenticates(access@, now),
    {
        let now = current_second();
        let r = self.authenticated_at(access, now);
        assert(r == self@.authenticates(access@, now as int));
        r
    }

    /// Ends the session of an access token.
    pub fn logout(&mut self, access: &str)
        ensures
            final(self).same_hub(*old(self)),
            final(self)@ == old(self)@.logged_out(access@),
            old(self)@.wf() ==> final(self)@.wf(),
    {
        let hash = hash_token(access);
        let mut kept: Vec<AuthSession> = Vec::new();
        let mut i: usize = 0;
        proof {
            reveal(Seq::filter);
            assert(session_views(kept@) == self@.sessions.take(0).filter(not_with_access(hash@)));
        }
        while i < self.sessions.len()
            invariant
                *self == *old(self),
                i <= self.sessions@.len(),
                session_views(kept@) == self@.sessions.take(i as int).filter(
                    not_with_access(hash@),
                ),
            decreases self.sessions@.len() - i,
        {
            proof {
                reveal(Seq::filter);
                assert(self@.sessions.take(i + 1).drop_last() == self@.sessions.take(i as int));
            }
            let s = &self.sessions[i];
            if !same(s.access_hash.as_str(), hash.as_str()) {
                let ghost before = session_views(kept@);
                kept.push(s.copied());
                assert(session_views(kept@) == before.push(s@));
            }
            i += 1;
        }
        assert(self@.sessions.take(self@.sessions.len() as int) == self@.sessions);
        self.sessions = kept;
        proof {
            assert(self@ == old(self)@.logged_out(access@));
            if old(self)@.wf() {
                lemma_kept_sessions_wf(old(self)@, old(self)@.pats, not_with_access(hash@));
            }
        }
    }
}

// ---------------------------------------------------------------------------
// Laws of tokens
// ---------------------------------------------------------------------------

/// A login succeeds exactly with a token that is in the table and not revoked.
pub proof fn law_login_needs_a_live_token(tables: Tables, pat: Seq<char>)
    ensures
        holder(tables.pats, token_hash(pat)) is Some <==> exists|i: int|
            0 <= i < tables.pats.len() && (#[trigger] tables.pats[i]).hash == token_hash(pat)
                && !tables.pats[i].revoked,
        holder(tables.pats, token_hash(pat)) matches Some(id) ==> tables.live(id),
{
    lemma_holder(tables.pats, token_hash(pat));
}

/// A token that was issued logs in, and every other one does as before.
pub proof fn law_issued_token_logs_in(
    tables: Tables,
    pat: PatView,
    token: Seq<char>,
    other: Seq<char>,
)
    requires
        tables.with_pat(pat) is Some,
        pat.hash == token_hash(token),
        !pat.revoked,
    ensures
        holder((tables.with_pat(pat)->0).pats, token_hash(token)) == Some(pat.id),
        token_hash(other) != token_hash(token) ==> holder(
            (tables.with_pat(pat)->0).pats,
            token_hash(other),
        ) == holder(tables.pats, token_hash(other)),
{
    let post = tables.with_pat(pat)->0;
    assert(post.pats.drop_last() == tables.pats);
    lemma_holder(tables.pats, token_hash(token));
}

/// A refresh succeeds exactly with a refresh token that is good at the time.
pub proof fn law_refresh_needs_a_good_token(tables: Tables, token: Seq<char>, now: int)
    ensures
        renewable(tables, tables.sessions, token_hash(token), now) is Some <==> tables.refreshes(
            token,
            now,
        ),
{
    lemma_renewable(tables, tables.sessions, token_hash(token), now);
}

/// After a token is revoked it opens nothing: no login, no refresh and no access token that came
/// from it works at any time. The sessions of every other token work as before.
pub proof fn law_revocation_is_complete(
    tables: Tables,
    id: Seq<char>,
    token: Seq<char>,
    now: int,
)
    ensures
        !tables.revoked(id).live(id),
        holder(tables.revoked(id).pats, token_hash(token)) != Some(id),
        forall|i: int|
            0 <= i < tables.revoked(id).sessions.len() ==> (
            #[trigger] tables.revoked(id).sessions[i]).pat_id != id,
        tables.revoked(id).authenticates(token, now) <==> exists|i: int|
            0 <= i < tables.sessions.len() && (#[trigger] tables.sessions[i]).pat_id != id
                && tables.sessions[i].access_hash == token_hash(token)
                && tables.sessions[i].access_exp > now && tables.live(tables.sessions[i].pat_id),
        tables.revoked(id).refreshes(token, now) <==> exists|i: int|
            0 <= i < tables.sessions.len() && (#[trigger] tables.sessions[i]).pat_id != id
                && tables.sessions[i].refresh_hash == token_hash(token)
                && tables.sessions[i].refresh_exp > now && tables.live(tables.sessions[i].pat_id),
{
    let post = tables.revoked(id);
    lemma_filter(tables.sessions, not_of_pat(id));
    lemma_holder(post.pats, token_hash(token));
    assert forall|other: Seq<char>| other != id implies tables.live(other) == #[trigger] post.live(
        other,
    ) by {
        if tables.live(other) {
            let i = choose|i: int|
                0 <= i < tables.pats.len() && (#[trigger] tables.pats[i]).id == other
                    && !tables.pats[i].revoked;
            assert(post.pats[i].id == other);
        }
        if post.live(other) {
            let i = choose|i: int|
                0 <= i < post.pats.len() && (#[trigger] post.pats[i]).id == other
                    && !post.pats[i].revoked;
            assert(tables.pats[i].id == other);
        }
    }
    assert forall|i: int| 0 <= i < post.sessions.len() implies (#[trigger] post.sessions[i]).pat_id
        != id by {
        assert(not_of_pat(id)(post.sessions[i]));
    }
    if post.authenticates(token, now) {
        let j = choose|j: int|
            0 <= j < post.sessions.len() && (#[trigger] post.sessions[j]).access_hash == token_hash(
                token,
            ) && post.sessions[j].access_exp > now && post.live(post.sessions[j].pat_id);
        assert(tables.sessions.contains(post.sessions[j]));
        let i = choose|i: int|
            0 <= i < tables.sessions.len() && tables.sessions[i] == post.sessions[j];
        assert(tables.sessions[i].pat_id != id);
    }
    if post.refreshes(token, now) {
        let j = choose|j: int|
            0 <= j < post.sessions.len() && (#[trigger] post.sessions[j]).refresh_hash
                == token_hash(token) && post.sessions[j].refresh_exp > now && post.live(
                post.sessions[j].pat_id,
            );
        assert(tables.sessions.contains(post.sessions[j]));
        let i = choose|i: int|
            0 <= i < tables.sessions.len() && tables.sessions[i] == post.sessions[j];
        assert(tables.sessions[i].pat_id != id);
    }
    assert forall|i: int|
        0 <= i < tables.sessions.len() && (
        #[trigger] tables.sessions[i]).pat_id != id implies exists|j: int|
        0 <= j < post.sessions.len() && #[trigger] post.sessions[j] == tables.sessions[i] by {
        assert(not_of_pat(id)(tables.sessions[i]));
        assert(post.sessions.contains(tables.sessions[i]));
    }
}

proof fn lemma_live_depends_on_pats(a: Tables, b: Tables)
    requires
        a.pats == b.pats,
    ensures
        forall|id: Seq<char>| a.live(id) == #[trigger] b.live(id),
{
    assert forall|id: Seq<char>| a.live(id) == #[trigger] b.live(id) by {
        if a.live(id) {
            let i = choose|i: int|
                0 <= i < a.pats.len() && (#[trigger] a.pats[i]).id == id && !a.pats[i].revoked;
            assert(b.pats[i].id == id);
        }
        if b.live(id) {
            let i = choose|i: int|
                0 <= i < b.pats.len() && (#[trigger] b.pats[i]).id == id && !b.pats[i].revoked;
            assert(a.pats[i].id == id);
        }
    }
}

/// A new session's access token is good for an hour and its refresh token for thirty days, as
/// long as its token is not revoked.
pub proof fn law_session_expires(
    base: Tables,
    pat_id: Seq<char>,
    now: int,
    fresh: FreshView,
    at: int,
)
    requires
        can_start(now),
        base.live(pat_id),
        base.opened(pat_id, now, fresh) is Some,
    ensures
        (base.opened(pat_id, now, fresh)->0).authenticates(fresh.access, at) <==> at < now
            + ACCESS_SECONDS,
        (base.opened(pat_id, now, fresh)->0).refreshes(fresh.refresh, at) <==> at < now
            + REFRESH_SECONDS,
{
    let post = base.opened(pat_id, now, fresh)->0;
    let s = session_at(pat_id, now, fresh);
    let n = base.sessions.len() as int;
    assert(post.sessions[n] == s);
    lemma_live_depends_on_pats(base, post);
    assert(post.live(pat_id));
    assert forall|i: int| 0 <= i < post.sessions.len() && i != n implies (
    #[trigger] post.sessions[i]).access_hash != s.access_hash && post.sessions[i].refresh_hash
        != s.refresh_hash by {
        assert(!clash(base.sessions[i], s));
    }
}

/// A refresh ends the session that it came from: its access token and its refresh token are
/// good at no later time.
pub proof fn law_refresh_rotates(
    tables: Tables,
    token: Seq<char>,
    access: Seq<char>,
    now: int,
    fresh: FreshView,
    at: int,
)
    requires
        tables.wf(),
        renewable(tables, tables.sessions, token_hash(token), now) matches Some(s) && s.access_hash
            == token_hash(access) && tables.without_session(s.id).opened(
            s.pat_id,
            now,
            fresh,
        ) is Some,
        token_hash(fresh.refresh) != token_hash(token),
        token_hash(fresh.access) != token_hash(access),
    ensures
        ({
            let s = renewable(tables, tables.sessions, token_hash(token), now)->0;
            let post = tables.without_session(s.id).opened(s.pat_id, now, fresh)->0;
            !post.refreshes(token, at) && !post.authenticates(access, at)
        }),
{
    let s = renewable(tables, tables.sessions, token_hash(token), now)->0;
    let base = tables.without_session(s.id);
    let post = base.opened(s.pat_id, now, fresh)->0;
    lemma_renewable(tables, tables.sessions, token_hash(token), now);
    lemma_filter(tables.sessions, not_with_id(s.id));
    let k = choose|k: int| 0 <= k < tables.sessions.len() && #[trigger] tables.sessions[k] == s;
    assert forall|j: int| 0 <= j < base.sessions.len() implies (
    #[trigger] base.sessions[j]).refresh_hash != token_hash(token)
        && base.sessions[j].access_hash != token_hash(access) by {
        assert(not_with_id(s.id)(base.sessions[j]));
        assert(tables.sessions.contains(base.sessions[j]));
        let i = choose|i: int|
            0 <= i < tables.sessions.len() && tables.sessions[i] == base.sessions[j];
        assert(i != k);
        if i < k {
            assert(!clash(tables.sessions[i], tables.sessions[k]));
        } else {
            assert(!clash(tables.sessions[k], tables.sessions[i]));
        }
    }
    assert forall|j: int| 0 <= j < post.sessions.len() implies (
    #[trigger] post.sessions[j]).refresh_hash != token_hash(token)
        && post.sessions[j].access_hash != token_hash(access) by {
        if j < base.sessions.len() {
            assert(post.sessions[j] == base.sessions[j]);
        }
    }
}

/// After a logout the access token is good at no time, and every access token with another hash
/// is as good as before.
pub proof fn law_logout_ends_one_session(
    tables: Tables,
    access: Seq<char>,
    other: Seq<char>,
    now: int,
)
    ensures
        !tables.logged_out(access).authenticates(access, now),
        token_hash(other) != token_hash(access) ==> tables.logged_out(access).authenticates(
            other,
            now,
        ) == tables.authenticates(other, now),
{
    let hash = token_hash(access);
    let post = tables.logged_out(access);
    lemma_filter(tables.sessions, not_with_access(hash));
    lemma_live_depends_on_pats(tables, post);
    assert forall|j: int| 0 <= j < post.sessions.len() implies (
    #[trigger] post.sessions[j]).access_hash != hash by {
        assert(not_with_access(hash)(post.sessions[j]));
    }
    if token_hash(other) != hash {
        if post.authenticates(other, now) {
            let j = choose|j: int|
                0 <= j < post.sessions.len() && (#[trigger] post.sessions[j]).access_hash
                    == token_hash(other) && post.sessions[j].access_exp > now && post.live(
                    post.sessions[j].pat_id,
                );
            assert(tables.sessions.contains(post.sessions[j]));
            let i = choose|i: int|
                0 <= i < tables.sessions.len() && tables.sessions[i] == post.sessions[j];
            assert(tables.sessions[i].access_hash == token_hash(other));
        }
        if tables.authenticates(other, now) {
            let i = choose|i: int|
                0 <= i < tables.sessions.len() && (#[trigger] tables.sessions[i]).access_hash
                    == token_hash(other) && tables.sessions[i].access_exp > now && tables.live(
                    tables.sessions[i].pat_id,
                );
            assert(not_with_access(hash)(tables.sessions[i]));
            assert(post.sessions.contains(tables.sessions[i]));
            let j = choose|j: int|
                0 <= j < post.sessions.len() && post.sessions[j] == tables.sessions[i];
            assert(post.sessions[j].access_hash == token_hash(other));
        }
    }
}

// ---------------------------------------------------------------------------
// Repositories
// ---------------------------------------------------------------------------

/// The first repository with an owner and a name.
pub open spec fn find(records: Seq<RecordView>, owner: Seq<char>, name: Seq<char>) -> Option<
    RepositoryView,
>
    decreases records.len(),
{
    if records.len() == 0 {
        None
    } else {
        match find(records.drop_last(), owner, name) {
            Some(r) => Some(r),
            None => if records.last().owner == owner && records.last().name == name {
                Some(records.last().identity())
            } else {
                None
            },
        }
    }
}

/// A list of repositories with one more, behind those whose names are not greater.
pub open spec fn insert_by_name(list: Seq<RepositoryView>, r: RepositoryView) -> Seq<RepositoryView>
    decreases list.len(),
{
    if list.len() > 0 && text_less(r.name, list.last().name) {
        insert_by_name(list.drop_last(), r).push(list.last())
    } else {
        list.push(r)
    }
}

/// The repositories by name; those with one name keep the order of the table.
pub open spec fn by_name(records: Seq<RecordView>) -> Seq<RepositoryView>
    decreases records.len(),
{
    if records.len() == 0 {
        Seq::empty()
    } else {
        insert_by_name(by_name(records.drop_last()), records.last().identity())
    }
}

/// The repositories, seen through their characters.
pub open spec fn repository_views(v: Seq<Repository>) -> Seq<RepositoryView> {
    Seq::new(v.len(), |i: int| v[i]@)
}

/// The origins of a repository as a client lists them.
pub open spec fn origin_texts(j: Json) -> Seq<Seq<char>> {
    Seq::new(
        (j->List_0).len(),
        |i: int|
            match (j->List_0)[i] {
                Json::Text(s) => s,
                _ => Seq::<char>::empty(),
            },
    )
}

/// Whether a list of origins is in range: at most 64 texts of at most 4096 bytes.
pub open spec fn origins_fit(j: Json) -> bool {
    &&& (j->List_0).len() <= 64
    &&& forall|i: int|
        0 <= i < (j->List_0).len() ==> ((#[trigger] (j->List_0)[i]) matches Json::Text(s)
            && encode_utf8(s).len() <= 4096)
}

/// Whether what is kept of a list of origins is read back as that list.
pub open spec fn origins_kept(origins: Json) -> bool {
    saved_texts(encoded(origins)) == Ok::<Seq<Seq<char>>, Seq<char>>(origin_texts(origins))
}

/// What the Hub keeps of a repository that was just created.
pub open spec fn new_record(repo: RepositoryView, origins: Json, now: i64) -> RecordView {
    RecordView {
        id: repo.id,
        owner: repo.owner,
        name: repo.name,
        origins: encoded(origins),
        created: now,
        dirty: true,
    }
}

/// Why a repository cannot be created, if it cannot.
pub open spec fn create_fault(
    tables: Tables,
    owner: Seq<char>,
    name: Seq<char>,
    refused: Option<Seq<char>>,
    origins: Json,
) -> Option<Seq<char>> {
    match name_fault(name, refused) {
        Some(e) => Some(e),
        None => if !(origins is List) {
            Some("repo_origins must be an array"@)
        } else if !origins_fit(origins) {
            Some("Invalid repo origins"@)
        } else if find(tables.records, owner, name) is Some {
            Some("Repository already exists"@)
        } else {
            None
        },
    }
}

impl Tables {
    /// The tables with a repository more, unless its identifier is in use or there is one with
    /// its owner and name.
    pub open spec fn with_record(self, r: RecordView) -> Option<Tables> {
        if exists|i: int|
            0 <= i < self.records.len() && ((#[trigger] self.records[i]).id == r.id || (
            self.records[i].owner == r.owner && self.records[i].name == r.name)) {
            None
        } else {
            Some(Tables { records: self.records.push(r), ..self })
        }
    }

    /// A repository is marked for indexing.
    pub open spec fn awaits_indexing(self) -> bool {
        exists|i: int| 0 <= i < self.records.len() && (#[trigger] self.records[i]).dirty
    }

    /// The tables with the index mark of a repository set.
    pub open spec fn marked(self, id: Seq<char>, dirty: bool) -> Tables {
        Tables {
            records: Seq::new(
                self.records.len(),
                |i: int|
                    if self.records[i].id == id {
                        RecordView { dirty, ..self.records[i] }
                    } else {
                        self.records[i]
                    },
            ),
            ..self
        }
    }
}

/// The JSON form of a repository.
pub open spec fn repository_json(config: Config, repo: RepositoryView, sessions: u64) -> Json {
    Json::Object(
        object_of(
            seq![
                ("agent_id"@, Json::Text(repo.id)),
                ("owner"@, Json::Text(repo.owner)),
                ("name"@, Json::Text(repo.name)),
                ("visibility"@, Json::Text("private"@)),
                ("session_count"@, Json::Natural(sessions)),
                ("clone_url"@, Json::Text(clone_url(config, repo))),
            ],
        ),
    )
}

/// Where a repository is cloned from and pushed to.
pub open spec fn clone_url(config: Config, repo: RepositoryView) -> Seq<char> {
    config.public_url@ + "/"@ + repo.owner + "/"@ + repo.name + ".git"@
}

fn place(list: &mut Vec<Repository>, r: Repository)
    ensures
        repository_views(final(list)@) == insert_by_name(repository_views(old(list)@), r@),
{
    let mut at: usize = list.len();
    let ghost all = repository_views(list@);
    assert(all.take(all.len() as int) == all);
    assert(insert_by_name(all, r@) == insert_by_name(all.take(at as int), r@) + all.skip(at as int));
    while at > 0 && less(r.name.as_str(), list[at - 1].name.as_str())
        invariant
            at <= list@.len(),
            all == repository_views(list@),
            insert_by_name(all, r@) == insert_by_name(all.take(at as int), r@) + all.skip(
                at as int,
            ),
        decreases at,
    {
        assert(all.take(at as int).drop_last() == all.take(at - 1));
        assert(all.take(at as int).last() == all[at - 1]);
        assert(insert_by_name(all, r@) == insert_by_name(all.take(at - 1), r@) + all.skip(at - 1));
        at -= 1;
    }
    let ghost view = r@;
    proof {
        if at > 0 {
            assert(all.take(at as int).last() == all[at - 1]);
        }
        assert(insert_by_name(all.take(at as int), view) == all.take(at as int).push(view));
    }
    list.insert(at, r);
    assert(repository_views(list@) == all.take(at as int).push(view) + all.skip(at as int));
}

impl State {
    /// The repository of an owner with a name.
    pub fn repository(&self, owner: &str, name: &str) -> (r: Option<Repository>)
        ensures
            match r {
                Some(x) => find(self@.records, owner@, name@) == Some(x@),
                None => find(self@.records, owner@, name@) is None,
            },
    {
        let mut found: Option<usize> = None;
        let mut i: usize = 0;
        while i < self.records.len()
            invariant
                i <= self.records@.len(),
                match found {
                    Some(k) => k < i && find(self@.records.take(i as int), owner@, name@) == Some(
                        self@.records[k as int].identity(),
                    ),
                    None => find(self@.records.take(i as int), owner@, name@) is None,
                },
            decreases self.records@.len() - i,
        {
            assert(self@.records.take(i + 1).drop_last() == self@.records.take(i as int));
            let x = &self.records[i];
            if found.is_none() && same(x.owner.as_str(), owner) && same(x.name.as_str(), name) {
                found = Some(i);
            }
            i += 1;
        }
        assert(self@.records.take(self@.records.len() as int) == self@.records);
        match found {
            Some(k) => Some(self.records[k].identity()),
            None => None,
        }
    }

    /// The repositories by name.
    pub fn repositories(&self) -> (r: Vec<Repository>)
        ensures
            repository_views(r@) == by_name(self@.records),
    {
        let mut list: Vec<Repository> = Vec::new();
        let mut i: usize = 0;
        assert(repository_views(list@) == by_name(self@.records.take(0)));
        while i < self.records.len()
            invariant
                i <= self.records@.len(),
                repository_views(list@) == by_name(self@.records.take(i as int)),
            decreases self.records@.len() - i,
        {
            assert(self@.records.take(i + 1).drop_last() == self@.records.take(i as int));
            place(&mut list, self.records[i].identity());
            i += 1;
        }
        assert(self@.records.take(self@.records.len() as int) == self@.records);
        list
    }

    /// The path of a repository, relative to the data directory.
    pub fn repo_path(&self, repo: &Repository) -> (r: String)
        ensures
            r@ == "repos/"@ + repo.id@ + ".git"@,
    {
        let mut s = "repos/".to_owned();
        append(&mut s, repo.id.as_str());
        append(&mut s, ".git");
        s
    }

    /// Where a repository is cloned from and pushed to.
    pub fn repo_url(&self, repo: &Repository) -> (r: String)
        ensures
            r@ == clone_url(self.config, repo@),
    {
        let mut s = self.config.public_url.clone();
        append(&mut s, "/");
        append(&mut s, repo.owner.as_str());
        append(&mut s, "/");
        append(&mut s, repo.name.as_str());
        append(&mut s, ".git");
        s
    }

    /// Writes a repository as JSON; `sessions` is the number of its saved sessions.
    pub fn repo_json(&self, repo: &Repository, sessions: u64) -> (r: Value)
        ensures
            json_of(r) == repository_json(self.config, repo@, sessions),
    {
        let pairs = vec![
            pair("agent_id", text(repo.id.as_str())),
            pair("owner", text(repo.owner.as_str())),
            pair("name", text(repo.name.as_str())),
            pair("visibility", text("private")),
            pair("session_count", natural(sessions)),
            pair("clone_url", text(self.repo_url(repo).as_str())),
        ];
        assert(members(pairs@) == seq![
            ("agent_id"@, Json::Text(repo.id@)),
            ("owner"@, Json::Text(repo.owner@)),
            ("name"@, Json::Text(repo.name@)),
            ("visibility"@, Json::Text("private"@)),
            ("session_count"@, Json::Natural(sessions)),
            ("clone_url"@, Json::Text(clone_url(self.config, repo@))),
        ]);
        object(pairs)
    }

    /// Creates a repository with an identifier at a time.
    pub fn create_repo_at(
        &mut self,
        name: &str,
        refused: &Option<String>,
        origins: &Value,
        id: String,
        now: i64,
    ) -> (r: Result<Repository, StateError>)
        ensures
            final(self).same_hub(*old(self)),
            old(self)@.wf() ==> final(self)@.wf(),
            ({
                let owner = old(self).config.owner@;
                let repo = RepositoryView { id: id@, owner, name: name@ };
                let record = new_record(repo, json_of(*origins), now);
                match create_fault(
                    old(self)@,
                    owner,
                    name@,
                    optional(*refused),
                    json_of(*origins),
                ) {
                    Some(fault) => final(self)@ == old(self)@ && r is Err && r->Err_0.text()
                        == fault,
                    None => match old(self)@.with_record(record) {
                        Some(tables) => final(self)@ == tables && r is Ok && r->Ok_0@ == repo,
                        None => final(self)@ == old(self)@ && r matches Err(
                            StateError::Duplicate(Unique::RepositoryId),
                        ),
                    },
                }
            }),
            r is Ok ==> origins_kept(json_of(*origins)),
    {
        match valid_name(name, refused) {
            Ok(()) => {},
            Err(e) => return Err(e),
        }
        let items = match items_in(origins) {
            Some(items) => items,
            None => return Err(StateError::OriginsNotArray),
        };
        if items.len() > 64 {
            return Err(StateError::InvalidOrigins);
        }
        let ghost j = json_of(*origins);
        let mut i: usize = 0;
        while i < items.len()
            invariant
                *self == *old(self),
                i <= items@.len(),
                items@.len() <= 64,
                j == Json::List(jsons(items@)),
                j == json_of(*origins),
                name_fault(name@, optional(*refused)) is None,
                forall|k: int|
                    0 <= k < i ==> ((#[trigger] (j->List_0)[k]) matches Json::Text(s)
                        && encode_utf8(s).len() <= 4096),
            decreases items@.len() - i,
        {
            match text_in(&items[i]) {
                Some(s) => {
                    if utf8_len(s) > 4096 {
                        assert((j->List_0)[i as int] == Json::Text(s@));
                        return Err(StateError::InvalidOrigins);
                    }
                    assert((j->List_0)[i as int] == Json::Text(s@));
                },
                None => {
                    assert(!((j->List_0)[i as int] is Text));
                    return Err(StateError::InvalidOrigins);
                },
            }
            i += 1;
        }
        assert(origins_fit(j));
        let saved = encode(origins);
        assert(Seq::new((j->List_0).len(), |k: int| (j->List_0)[k]->Text_0) == origin_texts(j));
        let owner = self.config.owner.clone();
        if self.repository(owner.as_str(), name).is_some() {
            return Err(StateError::RepositoryExists);
        }
        let mut k: usize = 0;
        while k < self.records.len()
            invariant
                *self == *old(self),
                k <= self.records@.len(),
                owner@ == self.config.owner@,
                create_fault(self@, owner@, name@, optional(*refused), json_of(*origins)) is None,
                saved@ == encoded(json_of(*origins)),
                origins_kept(json_of(*origins)),
                forall|m: int| 0 <= m < k ==> (#[trigger] self@.records[m]).id != id@,
            decreases self.records@.len() - k,
        {
            if same(self.records[k].id.as_str(), id.as_str()) {
                assert(self@.records[k as int].id == id@);
                return Err(StateError::Duplicate(Unique::RepositoryId));
            }
            k += 1;
        }
        proof {
            lemma_find(self@.records, owner@, name@);
        }
        let repo = Repository { id: id.clone(), owner: owner.clone(), name: name.to_owned() };
        let record = Record {
            id,
            owner,
            name: name.to_owned(),
            origins: saved,
            created: now,
            dirty: true,
        };
        let ghost view = record@;
        self.records.push(record);
        proof {
            assert(self@.records == old(self)@.records.push(view));
            assert(self@ == old(self)@.with_record(view)->0);
            if old(self)@.wf() {
                lemma_tables_wf_with_records(old(self)@, self@);
            }
        }
        Ok(repo)
    }

    /// Creates a repository.
    pub fn create_repo(&mut self, name: &str, refused: &Option<String>, origins: &Value) -> (r:
        Result<Repository, StateError>)
        ensures
            final(self).same_hub(*old(self)),
            old(self)@.wf() ==> final(self)@.wf(),
            match create_fault(
                old(self)@,
                old(self).config.owner@,
                name@,
                optional(*refused),
                json_of(*origins),
            ) {
                Some(fault) => final(self)@ == old(self)@ && r is Err && r->Err_0.text() == fault,
                None => match r {
                    Ok(repo) => {
                        &&& is_hyphenated_id(repo.id@)
                        &&& repo.owner@ == old(self).config.owner@
                        &&& repo.name@ == name@
                        &&& origins_kept(json_of(*origins))
                        &&& exists|now: i64|
                            0 <= now && Some(final(self)@) == old(self)@.with_record(
                                #[trigger] new_record(repo@, json_of(*origins), now),
                            )
                    },
                    Err(e) => e is Duplicate && final(self)@ == old(self)@ && exists|i: int|
                        0 <= i < old(self)@.records.len() && is_hyphenated_id(
                            (#[trigger] old(self)@.records[i]).id,
                        ),
                },
            },
    {
        let id = random_hyphenated();
        let now = current_second();
        let r = self.create_repo_at(name, refused, origins, id, now);
        proof {
            if r is Ok {
                let record = new_record(r->Ok_0@, json_of(*origins), now);
                assert(Some(self@) == old(self)@.with_record(record));
            } else {
                lemma_find(old(self)@.records, old(self).config.owner@, name@);
            }
        }
        r
    }

    /// Marks whether the search index may lack something of a repository.
    pub fn mark(&mut self, id: &str, dirty: bool)
        ensures
            final(self).same_hub(*old(self)),
            final(self)@ == old(self)@.marked(id@, dirty),
            old(self)@.wf() ==> final(self)@.wf(),
    {
        let mut records: Vec<Record> = Vec::new();
        std::mem::swap(&mut records, &mut self.records);
        let mut i: usize = 0;
        let ghost start = record_views(records@);
        while i < records.len()
            invariant
                i <= records@.len(),
                records@.len() == start.len(),
                forall|k: int|
                    0 <= k < i ==> (#[trigger] records@[k])@ == if start[k].id == id@ {
                        RecordView { dirty, ..start[k] }
                    } else {
                        start[k]
                    },
                forall|k: int| i <= k < start.len() ==> (#[trigger] records@[k])@ == start[k],
            decreases records@.len() - i,
        {
            if same(records[i].id.as_str(), id) {
                records[i].dirty = dirty;
            }
            i += 1;
        }
        self.records = records;
        proof {
            assert(start == old(self)@.records);
            assert(self@.records == old(self)@.marked(id@, dirty).records);
            assert(self@ == old(self)@.marked(id@, dirty));
            if old(self)@.wf() {
                lemma_marked_wf(old(self)@, id@, dirty);
            }
        }
    }

    /// Whether the search index may lack something.
    pub fn any_dirty(&self) -> (r: bool)
        ensures
            r == self@.awaits_indexing(),
    {
        let mut i: usize = 0;
        while i < self.records.len()
            invariant
                i <= self.records@.len(),
                forall|k: int| 0 <= k < i ==> !(#[trigger] self@.records[k]).dirty,
            decreases self.records@.len() - i,
        {
            if self.records[i].dirty {
                assert(self@.records[i as int].dirty);
                return true;
            }
            i += 1;
        }
        false
    }
}

proof fn lemma_tables_wf_with_records(pre: Tables, post: Tables)
    requires
        pre.wf(),
        post.pats == pre.pats,
        post.sessions == pre.sessions,
        forall|i: int, j: int|
            0 <= i < j < post.records.len() ==> (#[trigger] post.records[i]).id != (
            #[trigger] post.records[j]).id && !(post.records[i].owner == post.records[j].owner
                && post.records[i].name == post.records[j].name),
    ensures
        post.wf(),
{
    assert forall|i: int| 0 <= i < post.sessions.len() implies post.knows(
        (#[trigger] post.sessions[i]).pat_id,
    ) by {
        assert(pre.knows(pre.sessions[i].pat_id));
        let m = choose|m: int|
            0 <= m < pre.pats.len() && (#[trigger] pre.pats[m]).id == pre.sessions[i].pat_id;
        assert(post.pats[m].id == post.sessions[i].pat_id);
    }
}

proof fn lemma_marked_wf(tables: Tables, id: Seq<char>, dirty: bool)
    requires
        tables.wf(),
    ensures
        tables.marked(id, dirty).wf(),
{
    let post = tables.marked(id, dirty);
    assert forall|i: int, j: int| 0 <= i < j < post.records.len() implies (
    #[trigger] post.records[i]).id != (#[trigger] post.records[j]).id && !(post.records[i].owner
        == post.records[j].owner && post.records[i].name == post.records[j].name) by {
        assert(tables.records[i].id != tables.records[j].id);
    }
    lemma_tables_wf_with_records(tables, post);
}

/// A repository is found exactly where a record has its owner and its name.
pub proof fn lemma_find(records: Seq<RecordView>, owner: Seq<char>, name: Seq<char>)
    ensures
        match find(records, owner, name) {
            Some(r) => r.owner == owner && r.name == name && exists|i: int|
                0 <= i < records.len() && (#[trigger] records[i]).identity() == r,
            None => forall|i: int|
                0 <= i < records.len() ==> !((#[trigger] records[i]).owner == owner
                    && records[i].name == name),
        },
    decreases records.len(),
{
    if records.len() > 0 {
        let init = records.drop_last();
        lemma_find(init, owner, name);
        match find(init, owner, name) {
            Some(r) => {
                let i = choose|i: int|
                    0 <= i < init.len() && (#[trigger] init[i]).identity() == r;
                assert(records[i].identity() == r);
            },
            None => {
                assert(records[records.len() - 1] == records.last());
                assert forall|i: int| 0 <= i < init.len() implies !((
                #[trigger] records[i]).owner == owner && records[i].name == name) by {
                    assert(init[i] == records[i]);
                }
            },
        }
    }
}

/// A repository that was created is found under its owner and name, no second one can be
/// created there, and every other one is found as before.
pub proof fn law_created_repository_is_found(
    tables: Tables,
    record: RecordView,
    owner: Seq<char>,
    name: Seq<char>,
)
    requires
        tables.with_record(record) is Some,
    ensures
        find((tables.with_record(record)->0).records, record.owner, record.name) == Some(
            record.identity(),
        ),
        (tables.with_record(record)->0).with_record(record) is None,
        !(owner == record.owner && name == record.name) ==> find(
            (tables.with_record(record)->0).records,
            owner,
            name,
        ) == find(tables.records, owner, name),
{
    let post = tables.with_record(record)->0;
    lemma_find(tables.records, record.owner, record.name);
    assert(post.records.drop_last() == tables.records);
    assert(post.records[post.records.len() - 1] == record);
    if find(tables.records, record.owner, record.name) is Some {
        let r = find(tables.records, record.owner, record.name)->0;
        let i = choose|i: int|
            0 <= i < tables.records.len() && (#[trigger] tables.records[i]).identity() == r;
        assert(tables.records[i].owner == record.owner);
    }
}

/// Whether a list of repositories is in the order of names.
pub open spec fn is_sorted(list: Seq<RepositoryView>) -> bool {
    forall|i: int, j: int|
        0 <= i < j < list.len() ==> !text_less((#[trigger] list[j]).name, (#[trigger] list[i]).name)
}

/// The identities of the repositories in a table.
pub open spec fn identities(records: Seq<RecordView>) -> Seq<RepositoryView> {
    Seq::new(records.len(), |i: int| records[i].identity())
}

proof fn lemma_insert_by_name(list: Seq<RepositoryView>, r: RepositoryView)
    requires
        is_sorted(list),
    ensures
        is_sorted(insert_by_name(list, r)),
        insert_by_name(list, r).to_multiset() == list.to_multiset().insert(r),
        forall|k: int|
            0 <= k < insert_by_name(list, r).len() ==> list.contains(
                #[trigger] insert_by_name(list, r)[k],
            ) || insert_by_name(list, r)[k] == r,
    decreases list.len(),
{
    broadcast use vstd::seq_lib::group_to_multiset_ensures;

    let out = insert_by_name(list, r);
    if list.len() > 0 && text_less(r.name, list.last().name) {
        let init = list.drop_last();
        let inner = insert_by_name(init, r);
        lemma_insert_by_name(init, r);
        assert(list == init.push(list.last()));
        assert forall|i: int, j: int| 0 <= i < j < out.len() implies !text_less(
            (#[trigger] out[j]).name,
            (#[trigger] out[i]).name,
        ) by {
            if j == inner.len() {
                assert(init.contains(inner[i]) || inner[i] == r);
                if inner[i] == r {
                    crate::text::lemma_text_less_total(r.name, list.last().name);
                } else {
                    let m = choose|m: int| 0 <= m < init.len() && init[m] == inner[i];
                    assert(list[m] == inner[i]);
                    assert(!text_less(list[list.len() - 1].name, list[m].name));
                }
            } else {
                assert(out[i] == inner[i] && out[j] == inner[j]);
            }
        }
        assert forall|k: int| 0 <= k < out.len() implies list.contains(#[trigger] out[k]) || out[k]
            == r by {
            if k < inner.len() {
                assert(init.contains(inner[k]) || inner[k] == r);
                if init.contains(inner[k]) {
                    let m = choose|m: int| 0 <= m < init.len() && init[m] == inner[k];
                    assert(list[m] == out[k]);
                }
            } else {
                assert(list[list.len() - 1] == out[k]);
            }
        }
        assert(out.to_multiset() =~= list.to_multiset().insert(r));
    } else {
        assert forall|i: int, j: int| 0 <= i < j < out.len() implies !text_less(
            (#[trigger] out[j]).name,
            (#[trigger] out[i]).name,
        ) by {
            if j == list.len() {
                let last = list.last();
                if i < list.len() - 1 {
                    assert(!text_less(list[list.len() - 1].name, list[i].name));
                }
                if text_less(r.name, list[i].name) {
                    crate::text::lemma_text_less_total(r.name, last.name);
                    crate::text::lemma_text_less_total(list[i].name, last.name);
                    if r.name != last.name {
                        crate::text::lemma_text_less_transitive(last.name, r.name, list[i].name);
                    }
                }
            }
        }
        assert forall|k: int| 0 <= k < out.len() implies list.contains(#[trigger] out[k]) || out[k]
            == r by {
            if k < list.len() {
                assert(list[k] == out[k]);
            }
        }
    }
}

/// The listing of repositories is in the order of their names, and holds each repository of the
/// table once.
pub proof fn law_repositories_are_listed_by_name(records: Seq<RecordView>)
    ensures
        is_sorted(by_name(records)),
        by_name(records).to_multiset() == identities(records).to_multiset(),
    decreases records.len(),
{
    broadcast use vstd::seq_lib::group_to_multiset_ensures;

    if records.len() > 0 {
        let init = records.drop_last();
        law_repositories_are_listed_by_name(init);
        lemma_insert_by_name(by_name(init), records.last().identity());
        assert(identities(records) == identities(init).push(records.last().identity()));
    } else {
        assert(identities(records) == Seq::<RepositoryView>::empty());
    }
}

// ---------------------------------------------------------------------------
// Set-up
// ---------------------------------------------------------------------------

/// What is already in a data directory.
#[derive(Clone, Copy, Debug, PartialEq, Eq, Structural)]
pub struct DataDirectory {
    /// It holds a configuration.
    pub initialized: bool,
    /// It holds anything at all.
    pub occupied: bool,
}

/// What is wrong with a public URL, if anything is.
pub open spec fn url_fault(url: Result<UrlView, Seq<char>>) -> Option<Seq<char>> {
    match url {
        Err(reason) => Some(reason),
        Ok(u) => if !(u.username.len() == 0 && u.password is None && u.query is None
            && u.fragment is None) {
            Some("Public URL must not contain credentials, query or fragment"@)
        } else if !(u.path == "/"@ || u.path.len() == 0) {
            Some("This Hub requires a root public URL, without a path prefix"@)
        } else if !(u.scheme == "https"@ || (u.scheme == "http"@ && is_loopback(u.host))) {
            Some("Use HTTPS, or HTTP on loopback for development"@)
        } else {
            None
        },
    }
}

/// Whether a host is the machine itself.
pub open spec fn is_loopback(host: Option<Seq<char>>) -> bool {
    match host {
        Some(h) => h == "127.0.0.1"@ || h == "localhost"@ || h == "[::1]"@,
        None => false,
    }
}

/// Why a Hub cannot be set up, if it cannot.
pub open spec fn setup_fault(
    owner: Seq<char>,
    refused: Option<Seq<char>>,
    url: Result<UrlView, Seq<char>>,
    max_snapshot_mib: int,
    max_upload_mib: int,
    storage: Policy,
    directory: DataDirectory,
) -> Option<Seq<char>> {
    if name_fault(owner, refused) is Some {
        name_fault(owner, refused)
    } else if storage.fault() is Some {
        Some((storage.fault()->0).text())
    } else if !(1 <= max_snapshot_mib <= 512) {
        Some("Snapshot limit must be between 1 and 512 MiB"@)
    } else if !(1 <= max_upload_mib <= 4096) {
        Some("Upload limit must be between 1 and 4096 MiB"@)
    } else if url_fault(url) is Some {
        url_fault(url)
    } else if directory.initialized {
        Some("Hub is already initialized"@)
    } else if directory.occupied {
        Some("Initialize an empty data directory"@)
    } else {
        None
    }
}

fn check_url(url: &UrlParts) -> (r: Result<(), StateError>)
    ensures
        match r {
            Ok(()) => url_fault(Ok(url@)) is None,
            Err(e) => url_fault(Ok(url@)) == Some(e.text()),
        },
{
    if !(url.username.as_str().is_empty() && url.password.is_none() && url.query.is_none()
        && url.fragment.is_none()) {
        return Err(StateError::UrlExtras);
    }
    if !(same(url.path.as_str(), "/") || url.path.as_str().is_empty()) {
        return Err(StateError::UrlPath);
    }
    let loopback = match &url.host {
        Some(h) => same(h.as_str(), "127.0.0.1") || same(h.as_str(), "localhost") || same(
            h.as_str(),
            "[::1]",
        ),
        None => false,
    };
    if !(same(url.scheme.as_str(), "https") || (same(url.scheme.as_str(), "http") && loopback)) {
        return Err(StateError::UrlScheme);
    }
    Ok(())
}

impl State {
    /// Sets up a Hub with a parsed public URL and an account identifier.
    pub fn initialize_with(
        root: &str,
        owner: String,
        refused: &Option<String>,
        url: &Result<UrlParts, String>,
        max_snapshot_mib: usize,
        max_upload_mib: u64,
        storage: Policy,
        directory: DataDirectory,
        account_id: String,
    ) -> (r: Result<State, StateError>)
        ensures
            ({
                let view: Result<UrlView, Seq<char>> = match *url {
                    Ok(u) => Ok(u@),
                    Err(reason) => Err(reason@),
                };
                let fault = setup_fault(
                    owner@,
                    optional(*refused),
                    view,
                    max_snapshot_mib as int,
                    max_upload_mib as int,
                    storage,
                    directory,
                );
                match r {
                    Ok(s) => {
                        &&& fault is None
                        &&& s.root@ == root@
                        &&& s@ == Tables::none()
                        &&& s.config.wf()
                        &&& s.config.owner@ == owner@
                        &&& s.config.account_id@ == account_id@
                        &&& s.config.public_url@ == skip_trailing((view->Ok_0).text, '/')
                        &&& s.config.max_snapshot_mib == max_snapshot_mib
                        &&& s.config.max_upload_mib == max_upload_mib
                        &&& s.config.storage == storage
                    },
                    Err(e) => fault == Some(e.text()),
                }
            }),
    {
        match valid_name(owner.as_str(), refused) {
            Ok(()) => {},
            Err(e) => return Err(e),
        }
        match storage.validate() {
            Ok(()) => {},
            Err(e) => return Err(StateError::Policy(e)),
        }
        if !(1 <= max_snapshot_mib && max_snapshot_mib <= 512) {
            return Err(StateError::SnapshotLimit);
        }
        if !(1 <= max_upload_mib && max_upload_mib <= 4096) {
            return Err(StateError::UploadLimit);
        }
        let url = match url {
            Ok(u) => u,
            Err(reason) => return Err(StateError::InvalidUrl(reason.clone())),
        };
        match check_url(url) {
            Ok(()) => {},
            Err(e) => return Err(e),
        }
        if directory.initialized {
            return Err(StateError::AlreadyInitialized);
        }
        if directory.occupied {
            return Err(StateError::NotEmpty);
        }
        let config = Config {
            schema: 1,
            owner,
            account_id,
            public_url: strip_trailing(url.text.as_str(), '/'),
            max_snapshot_mib,
            max_upload_mib,
            storage,
        };
        let state = State {
            root: root.to_owned(),
            config,
            pats: Vec::new(),
            sessions: Vec::new(),
            records: Vec::new(),
        };
        assert(state@ == Tables::none());
        Ok(state)
    }

    /// Sets up a Hub: checks its settings and gives it an account identifier.
    pub fn initialize(
        root: &str,
        owner: String,
        refused: &Option<String>,
        public_url: &str,
        max_snapshot_mib: usize,
        max_upload_mib: u64,
        storage: Policy,
        directory: DataDirectory,
    ) -> (r: Result<State, StateError>)
        ensures
            ({
                let fault = setup_fault(
                    owner@,
                    optional(*refused),
                    url_of(public_url@),
                    max_snapshot_mib as int,
                    max_upload_mib as int,
                    storage,
                    directory,
                );
                match r {
                    Ok(s) => {
                        &&& fault is None
                        &&& s.root@ == root@
                        &&& s@ == Tables::none()
                        &&& s.config.wf()
                        &&& s.config.owner@ == owner@
                        &&& is_hyphenated_id(s.config.account_id@)
                        &&& s.config.public_url@ == skip_trailing(
                            (url_of(public_url@)->Ok_0).text,
                            '/',
                        )
                        &&& s.config.max_snapshot_mib == max_snapshot_mib
                        &&& s.config.max_upload_mib == max_upload_mib
                        &&& s.config.storage == storage
                    },
                    Err(e) => fault == Some(e.text()),
                }
            }),
    {
        let url = read_url(public_url);
        let account_id = random_hyphenated();
        State::initialize_with(
            root,
            owner,
            refused,
            &url,
            max_snapshot_mib,
            max_upload_mib,
            storage,
            directory,
            account_id,
        )
    }
}

fn pats_differ(pats: &Vec<Pat>) -> (r: bool)
    ensures
        r == distinct_pats(pat_views(pats@)),
{
    let ghost all = pat_views(pats@);
    let mut j: usize = 0;
    while j < pats.len()
        invariant
            j <= pats@.len(),
            all == pat_views(pats@),
            forall|x: int, y: int|
                0 <= x < y < j ==> !same_pat(#[trigger] all[x], #[trigger] all[y]),
        decreases pats@.len() - j,
    {
        let mut i: usize = 0;
        while i < j
            invariant
                i <= j < pats@.len(),
                all == pat_views(pats@),
                forall|x: int| 0 <= x < i ==> !same_pat(#[trigger] all[x], all[j as int]),
            decreases j - i,
        {
            if same(pats[i].id.as_str(), pats[j].id.as_str()) || same(
                pats[i].hash.as_str(),
                pats[j].hash.as_str(),
            ) {
                assert(same_pat(all[i as int], all[j as int]));
                return false;
            }
            i += 1;
        }
        j += 1;
    }
    true
}

fn sessions_differ(sessions: &Vec<AuthSession>) -> (r: bool)
    ensures
        r == distinct_sessions(session_views(sessions@)),
{
    let ghost all = session_views(sessions@);
    let mut j: usize = 0;
    while j < sessions.len()
        invariant
            j <= sessions@.len(),
            all == session_views(sessions@),
            forall|x: int, y: int|
                0 <= x < y < j ==> !clash(#[trigger] all[x], #[trigger] all[y]),
        decreases sessions@.len() - j,
    {
        let mut i: usize = 0;
        while i < j
            invariant
                i <= j < sessions@.len(),
                all == session_views(sessions@),
                forall|x: int| 0 <= x < i ==> !clash(#[trigger] all[x], all[j as int]),
            decreases j - i,
        {
            let a = &sessions[i];
            let b = &sessions[j];
            if same(a.id.as_str(), b.id.as_str()) || same(
                a.access_hash.as_str(),
                b.access_hash.as_str(),
            ) || same(a.refresh_hash.as_str(), b.refresh_hash.as_str()) {
                assert(clash(all[i as int], all[j as int]));
                return false;
            }
            i += 1;
        }
        j += 1;
    }
    true
}

fn records_differ(records: &Vec<Record>) -> (r: bool)
    ensures
        r == distinct_records(record_views(records@)),
{
    let ghost all = record_views(records@);
    let mut j: usize = 0;
    while j < records.len()
        invariant
            j <= records@.len(),
            all == record_views(records@),
            forall|x: int, y: int|
                0 <= x < y < j ==> !same_record(#[trigger] all[x], #[trigger] all[y]),
        decreases records@.len() - j,
    {
        let mut i: usize = 0;
        while i < j
            invariant
                i <= j < records@.len(),
                all == record_views(records@),
                forall|x: int| 0 <= x < i ==> !same_record(#[trigger] all[x], all[j as int]),
            decreases j - i,
        {
            let a = &records[i];
            let b = &records[j];
            if same(a.id.as_str(), b.id.as_str()) || (same(a.owner.as_str(), b.owner.as_str())
                && same(a.name.as_str(), b.name.as_str())) {
                assert(same_record(all[i as int], all[j as int]));
                return false;
            }
            i += 1;
        }
        j += 1;
    }
    true
}

impl State {
    fn knows_token(&self, id: &str) -> (r: bool)
        ensures
            r == self@.knows(id@),
    {
        let mut i: usize = 0;
        while i < self.pats.len()
            invariant
                i <= self.pats@.len(),
                forall|k: int| 0 <= k < i ==> (#[trigger] self@.pats[k]).id != id@,
            decreases self.pats@.len() - i,
        {
            if same(self.pats[i].id.as_str(), id) {
                assert(self@.pats[i as int].id == id@);
                return true;
            }
            i += 1;
        }
        false
    }

    /// Tells whether the tables keep their rules.
    fn consistent(&self) -> (r: bool)
        ensures
            r == self@.wf(),
    {
        let pats = pats_differ(&self.pats);
        let sessions = sessions_differ(&self.sessions);
        let records = records_differ(&self.records);
        if !(pats && sessions && records) {
            return false;
        }
        let mut i: usize = 0;
        while i < self.sessions.len()
            invariant
                i <= self.sessions@.len(),
                forall|k: int| 0 <= k < i ==> self@.knows((#[trigger] self@.sessions[k]).pat_id),
            decreases self.sessions@.len() - i,
        {
            if !self.knows_token(self.sessions[i].pat_id.as_str()) {
                assert(!self@.knows(self@.sessions[i as int].pat_id));
                return false;
            }
            i += 1;
        }
        true
    }

    /// Opens a Hub with a saved configuration and saved tables.
    pub fn open(
        root: &str,
        config: Config,
        pats: Vec<Pat>,
        sessions: Vec<AuthSession>,
        records: Vec<Record>,
    ) -> (r: Result<State, StateError>)
        ensures
            ({
                let tables = Tables {
                    pats: pat_views(pats@),
                    sessions: session_views(sessions@),
                    records: record_views(records@),
                };
                match r {
                    Ok(s) => {
                        &&& config.schema == 1 && config.storage.valid() && tables.wf()
                        &&& s.root@ == root@
                        &&& s.config == config
                        &&& s@ == tables
                    },
                    Err(StateError::UnsupportedSchema) => config.schema != 1,
                    Err(StateError::Policy(p)) => config.schema == 1 && config.storage.fault()
                        == Some(p),
                    Err(e) => e is Tables && config.schema == 1 && config.storage.valid()
                        && !tables.wf(),
                }
            }),
    {
        if config.schema != 1 {
            return Err(StateError::UnsupportedSchema);
        }
        match config.storage.validate() {
            Ok(()) => {},
            Err(e) => return Err(StateError::Policy(e)),
        }
        let state = State { root: root.to_owned(), config, pats, sessions, records };
        if !state.consistent() {
            return Err(StateError::Tables);
        }
        Ok(state)
    }

    /// Changes settings of the storage policy.
    pub fn configure_storage(&mut self, update: &PolicyUpdate) -> (r: Result<(), StateError>)
        ensures
            final(self)@ == old(self)@,
            final(self).root == old(self).root,
            ({
                let merged = update.merged(old(self).config.storage);
                match r {
                    Ok(()) => merged.valid() && final(self).config == (Config {
                        storage: merged,
                        ..old(self).config
                    }),
                    Err(e) => final(self).config == old(self).config && (e matches StateError::Policy(p)
                        && merged.fault() == Some(p)),
                }
            }),
    {
        match update.apply(&self.config.storage) {
            Ok(policy) => {
                self.config.storage = policy;
                Ok(())
            },
            Err(e) => Err(StateError::Policy(e)),
        }
    }
}

// ---------------------------------------------------------------------------
// Laws of sessions, replies and set-up
// ---------------------------------------------------------------------------

/// A session opens an hour of access, and can be renewed for thirty days; it belongs to its token.
pub proof fn law_how_long_sessions_last(pat_id: Seq<char>, now: int, fresh: FreshView)
    requires
        can_start(now),
    ensures
        session_at(pat_id, now, fresh).access_exp == now + 3600,
        session_at(pat_id, now, fresh).refresh_exp == now + 30 * 24 * 3600,
        session_at(pat_id, now, fresh).pat_id == pat_id,
        session_at(pat_id, now, fresh).access_hash == hex_text(sha256(encode_utf8(fresh.access))),
        session_at(pat_id, now, fresh).refresh_hash == hex_text(sha256(encode_utf8(fresh.refresh))),
{
}

/// A new session leaves every other one alone: who was let in before is let in still.
pub proof fn law_a_login_leaves_other_sessions_alone(
    base: Tables,
    pat_id: Seq<char>,
    now: int,
    fresh: FreshView,
    other: Seq<char>,
    at: int,
)
    requires
        base.opened(pat_id, now, fresh) is Some,
        token_hash(other) != token_hash(fresh.access),
        token_hash(other) != token_hash(fresh.refresh),
    ensures
        (base.opened(pat_id, now, fresh)->0).authenticates(other, at) == base.authenticates(
            other,
            at,
        ),
        (base.opened(pat_id, now, fresh)->0).refreshes(other, at) == base.refreshes(other, at),
        (base.opened(pat_id, now, fresh)->0).pats == base.pats,
        (base.opened(pat_id, now, fresh)->0).records == base.records,
{
    let post = base.opened(pat_id, now, fresh)->0;
    let n = base.sessions.len() as int;
    lemma_live_depends_on_pats(base, post);
    assert forall|i: int| 0 <= i < n implies base.sessions[i] == #[trigger] post.sessions[i] by {}
    assert(post.sessions[n] == session_at(pat_id, now, fresh));
    if base.authenticates(other, at) {
        let i = choose|i: int|
            0 <= i < base.sessions.len() && (#[trigger] base.sessions[i]).access_hash == token_hash(
                other,
            ) && base.sessions[i].access_exp > at && base.live(base.sessions[i].pat_id);
        assert(post.sessions[i].access_hash == token_hash(other));
    }
    if base.refreshes(other, at) {
        let i = choose|i: int|
            0 <= i < base.sessions.len() && (#[trigger] base.sessions[i]).refresh_hash
                == token_hash(other) && base.sessions[i].refresh_exp > at && base.live(
                base.sessions[i].pat_id,
            );
        assert(post.sessions[i].refresh_hash == token_hash(other));
    }
}

/// The end of a session leaves every session with another identifier alone.
pub proof fn law_ending_a_session_leaves_others_alone(tables: Tables, id: Seq<char>, i: int)
    requires
        0 <= i < tables.sessions.len(),
    ensures
        tables.sessions[i].id != id ==> tables.without_session(id).sessions.contains(
            tables.sessions[i],
        ),
        forall|k: int|
            0 <= k < tables.without_session(id).sessions.len() ==> (
            #[trigger] tables.without_session(id).sessions[k]).id != id && tables.sessions.contains(
                tables.without_session(id).sessions[k],
            ),
        tables.without_session(id).pats == tables.pats,
{
    lemma_filter(tables.sessions, not_with_id(id));
    let post = tables.without_session(id);
    if tables.sessions[i].id != id {
        assert(not_with_id(id)(tables.sessions[i]));
    }
    assert forall|k: int| 0 <= k < post.sessions.len() implies (#[trigger] post.sessions[k]).id != id
        && tables.sessions.contains(post.sessions[k]) by {
        assert(not_with_id(id)(post.sessions[k]));
    }
}

/// What a client is told of a new session: its tokens, when they expire, and who it is.
pub proof fn law_what_a_client_is_told_of_a_session(config: Config, fresh: FreshView, now: int)
    ensures
        ({
            let j = session_json(config, fresh, now);
            &&& member(j, "account_id"@) == Some(Json::Text(config.account_id@))
            &&& member(j, "username"@) == Some(Json::Text(config.owner@))
            &&& member(j, "access_token"@) == Some(Json::Text(fresh.access))
            &&& member(j, "refresh_token"@) == Some(Json::Text(fresh.refresh))
            &&& member(j, "access_expires_at"@) == Some(Json::Text(date_text(now + 3600)))
            &&& member(j, "refresh_expires_at"@) == Some(
                Json::Text(date_text(now + 30 * 24 * 3600)),
            )
        }),
        member(Json::Object(object_of(account_pairs(config))), "account_id"@) == Some(
            Json::Text(config.account_id@),
        ),
        member(Json::Object(object_of(account_pairs(config))), "username"@) == Some(
            Json::Text(config.owner@),
        ),
{
    reveal_strlit("account_id");
    reveal_strlit("username");
    reveal_strlit("access_token");
    reveal_strlit("refresh_token");
    reveal_strlit("access_expires_at");
    reveal_strlit("refresh_expires_at");
    let account = account_pairs(config);
    let pairs = account + seq![
        ("access_token"@, Json::Text(fresh.access)),
        ("refresh_token"@, Json::Text(fresh.refresh)),
        ("access_expires_at"@, Json::Text(date_text(now + ACCESS_SECONDS))),
        ("refresh_expires_at"@, Json::Text(date_text(now + REFRESH_SECONDS))),
    ];
    assert(account[0].0.len() == 10 && account[1].0.len() == 8);
    assert(pairs[0].0.len() == 10);
    assert(pairs[1].0.len() == 8);
    assert(pairs[2].0.len() == 12);
    assert(pairs[3].0.len() == 13);
    assert(pairs[4].0.len() == 17);
    assert(pairs[5].0.len() == 18);
    lemma_object_of(account, 0);
    lemma_object_of(account, 1);
    lemma_object_of(pairs, 0);
    lemma_object_of(pairs, 1);
    lemma_object_of(pairs, 2);
    lemma_object_of(pairs, 3);
    lemma_object_of(pairs, 4);
    lemma_object_of(pairs, 5);
}

/// What is listed of a token: its identifier, its label and whether it is revoked; never its hash.
pub proof fn law_what_is_listed_of_a_token(p: PatView)
    ensures
        member(token_json(p), "id"@) == Some(Json::Text(p.id)),
        member(token_json(p), "label"@) == Some(Json::Text(p.label)),
        member(token_json(p), "revoked"@) == Some(Json::Flag(p.revoked)),
        forall|hash: Seq<char>| token_json(p) == #[trigger] token_json(PatView { hash, ..p }),
{
    reveal_strlit("id");
    reveal_strlit("label");
    reveal_strlit("revoked");
    let pairs = seq![
        ("id"@, Json::Text(p.id)),
        ("label"@, Json::Text(p.label)),
        ("revoked"@, Json::Flag(p.revoked)),
    ];
    assert(pairs[0].0.len() == 2 && pairs[1].0.len() == 5 && pairs[2].0.len() == 7);
    lemma_object_of(pairs, 0);
    lemma_object_of(pairs, 1);
    lemma_object_of(pairs, 2);
}

/// What is told of a repository.
pub proof fn law_what_is_told_of_a_repository(config: Config, repo: RepositoryView, sessions: u64)
    ensures
        ({
            let j = repository_json(config, repo, sessions);
            &&& member(j, "agent_id"@) == Some(Json::Text(repo.id))
            &&& member(j, "owner"@) == Some(Json::Text(repo.owner))
            &&& member(j, "name"@) == Some(Json::Text(repo.name))
            &&& member(j, "visibility"@) == Some(Json::Text("private"@))
            &&& member(j, "session_count"@) == Some(Json::Natural(sessions))
            &&& member(j, "clone_url"@) == Some(
                Json::Text(
                    config.public_url@ + ("/"@ + repo.owner + "/"@ + repo.name + ".git"@),
                ),
            )
        }),
{
    reveal_strlit("agent_id");
    reveal_strlit("owner");
    reveal_strlit("name");
    reveal_strlit("visibility");
    reveal_strlit("session_count");
    reveal_strlit("clone_url");
    let pairs = seq![
        ("agent_id"@, Json::Text(repo.id)),
        ("owner"@, Json::Text(repo.owner)),
        ("name"@, Json::Text(repo.name)),
        ("visibility"@, Json::Text("private"@)),
        ("session_count"@, Json::Natural(sessions)),
        ("clone_url"@, Json::Text(clone_url(config, repo))),
    ];
    assert(clone_url(config, repo) =~= config.public_url@ + ("/"@ + repo.owner + "/"@ + repo.name
        + ".git"@));
    assert(pairs[0].0.len() == 8);
    assert(pairs[1].0.len() == 5);
    assert(pairs[2].0.len() == 4);
    assert(pairs[3].0.len() == 10);
    assert(pairs[4].0.len() == 13);
    assert(pairs[5].0.len() == 9);
    lemma_object_of(pairs, 0);
    lemma_object_of(pairs, 1);
    lemma_object_of(pairs, 2);
    lemma_object_of(pairs, 3);
    lemma_object_of(pairs, 4);
    lemma_object_of(pairs, 5);
}

/// A name is accepted exactly where it has no white space at an end, is no longer than eighty
/// bytes, and the shared rules have nothing against it; a label where it has between one and a
/// hundred and twenty bytes.
pub proof fn law_which_names_are_accepted(name: Seq<char>, refused: Option<Seq<char>>)
    ensures
        name_fault(name, refused) is None <==> {
            &&& name.len() == 0 || (!is_white(name[0]) && !is_white(name.last()))
            &&& encode_utf8(name).len() <= 80
            &&& refused is None
        },
        State::label_fault(name) <==> name.len() < 1 || encode_utf8(name).len() > 120,
{
    law_trimming_takes_white_space_off(name);
    if name.len() == 0 {
        assert(trim(name) =~= name);
    } else if !is_white(name[0]) && !is_white(name.last()) {
        let (i, j) = choose|i: int, j: int|
            {
                &&& 0 <= i <= j <= name.len()
                &&& trim(name) == #[trigger] name.subrange(i, j)
                &&& forall|k: int| 0 <= k < i ==> is_white(#[trigger] name[k])
                &&& forall|k: int| j <= k < name.len() ==> is_white(#[trigger] name[k])
            };
        if i > 0 {
            assert(is_white(name[0]));
        }
        if j < name.len() {
            assert(is_white(name[name.len() - 1]));
        }
        assert(name.subrange(0, name.len() as int) =~= name);
    }
}

/// A public URL is accepted exactly where it is a root without credentials, query and fragment,
/// over HTTPS, or over HTTP on the machine itself.
pub proof fn law_which_urls_are_accepted(u: UrlView, reason: Seq<char>)
    ensures
        url_fault(Err(reason)) == Some(reason),
        url_fault(Ok(u)) is None <==> {
            &&& u.username == Seq::<char>::empty()
            &&& u.password is None
            &&& u.query is None
            &&& u.fragment is None
            &&& u.path == "/"@ || u.path == Seq::<char>::empty()
            &&& u.scheme == "https"@ || (u.scheme == "http"@ && (u.host == Some("127.0.0.1"@)
                || u.host == Some("localhost"@) || u.host == Some("[::1]"@)))
        },
{
    if u.username.len() == 0 {
        assert(u.username =~= Seq::<char>::empty());
    }
    if u.path.len() == 0 {
        assert(u.path =~= Seq::<char>::empty());
    }
}

/// A Hub is set up exactly where its owner's name, its policy, its limits and its URL are accepted,
/// and its directory is empty.
pub proof fn law_which_hubs_are_set_up(
    owner: Seq<char>,
    refused: Option<Seq<char>>,
    url: Result<UrlView, Seq<char>>,
    max_snapshot_mib: int,
    max_upload_mib: int,
    storage: Policy,
    directory: DataDirectory,
)
    ensures
        setup_fault(
            owner,
            refused,
            url,
            max_snapshot_mib,
            max_upload_mib,
            storage,
            directory,
        ) is None <==> {
            &&& name_fault(owner, refused) is None
            &&& storage.valid()
            &&& 1 <= max_snapshot_mib <= 512
            &&& 1 <= max_upload_mib <= 4096
            &&& url_fault(url) is None
            &&& !directory.initialized
            &&& !directory.occupied
        },
{
}

/// A repository is created exactly where its name is accepted, its origins are a list of at most
/// sixty-four texts of at most four KiB each, and no repository of the owner has the name.
pub proof fn law_which_repositories_are_created(
    tables: Tables,
    owner: Seq<char>,
    name: Seq<char>,
    refused: Option<Seq<char>>,
    items: Seq<Json>,
)
    ensures
        create_fault(tables, owner, name, refused, Json::List(items)) is None <==> {
            &&& name_fault(name, refused) is None
            &&& items.len() <= 64
            &&& forall|i: int|
                0 <= i < items.len() ==> (#[trigger] items[i] is Text) && encode_utf8(
                    items[i]->Text_0,
                ).len() <= 4096
            &&& forall|i: int|
                0 <= i < tables.records.len() ==> !((#[trigger] tables.records[i]).owner == owner
                    && tables.records[i].name == name)
        },
        forall|i: int|
            0 <= i < items.len() && items[i] is Text ==> origin_texts(Json::List(items))[i] == (
            #[trigger] items[i])->Text_0,
        origin_texts(Json::List(items)).len() == items.len(),
{
    lemma_find(tables.records, owner, name);
    if exists|i: int|
        0 <= i < tables.records.len() && (#[trigger] tables.records[i]).owner == owner
            && tables.records[i].name == name {
        assert(find(tables.records, owner, name) is Some);
    }
    if find(tables.records, owner, name) is Some {
        let r = find(tables.records, owner, name)->0;
        let i = choose|i: int|
            0 <= i < tables.records.len() && (#[trigger] tables.records[i]).identity() == r;
        assert(tables.records[i].owner == owner && tables.records[i].name == name);
    }
}

/// What is kept of a new repository: it has the identity and the origins that were given for it,
/// and is to be indexed.
pub proof fn law_what_is_kept_of_a_new_repository(repo: RepositoryView, origins: Json, now: i64)
    ensures
        new_record(repo, origins, now).identity() == repo,
        new_record(repo, origins, now).origins == encoded(origins),
        new_record(repo, origins, now).created == now,
        new_record(repo, origins, now).dirty,
{
}

/// A mark sets whether the index of one repository may lack something, and leaves all else as it
/// is.
pub proof fn law_marks_concern_one_repository(tables: Tables, id: Seq<char>, dirty: bool, i: int)
    requires
        0 <= i < tables.records.len(),
    ensures
        tables.marked(id, dirty).records.len() == tables.records.len(),
        tables.marked(id, dirty).records[i].dirty == if tables.records[i].id == id {
            dirty
        } else {
            tables.records[i].dirty
        },
        tables.marked(id, dirty).records[i].identity() == tables.records[i].identity(),
        tables.marked(id, dirty).records[i].origins == tables.records[i].origins,
        tables.marked(id, dirty).pats == tables.pats,
        tables.marked(id, dirty).sessions == tables.sessions,
{
}

/// What cannot be added: a token whose identifier or hash is there, a session of which one of the
/// three is there, a repository whose identifier or whose owner and name are there. All else can,
/// and stands behind what was there.
pub proof fn law_what_can_be_added(
    tables: Tables,
    pat: PatView,
    session: SessionView,
    record: RecordView,
)
    ensures
        tables.with_pat(pat) is Some <==> forall|i: int|
            0 <= i < tables.pats.len() ==> (#[trigger] tables.pats[i]).id != pat.id
                && tables.pats[i].hash != pat.hash,
        tables.with_pat(pat) matches Some(post) ==> post == (Tables {
            pats: tables.pats.push(pat),
            ..tables
        }),
        tables.with_session(session) is Some <==> forall|i: int|
            0 <= i < tables.sessions.len() ==> (#[trigger] tables.sessions[i]).id != session.id
                && tables.sessions[i].access_hash != session.access_hash
                && tables.sessions[i].refresh_hash != session.refresh_hash,
        tables.with_session(session) matches Some(post) ==> post == (Tables {
            sessions: tables.sessions.push(session),
            ..tables
        }),
        tables.with_record(record) is Some <==> forall|i: int|
            0 <= i < tables.records.len() ==> (#[trigger] tables.records[i]).id != record.id && !(
            tables.records[i].owner == record.owner && tables.records[i].name == record.name),
        tables.with_record(record) matches Some(post) ==> post == (Tables {
            records: tables.records.push(record),
            ..tables
        }),
{
    if tables.with_session(session) is None {
        let i = choose|i: int|
            0 <= i < tables.sessions.len() && clash(#[trigger] tables.sessions[i], session);
        assert(clash(tables.sessions[i], session));
    }
    assert forall|i: int|
        0 <= i < tables.sessions.len() implies clash(#[trigger] tables.sessions[i], session) == !(
    tables.sessions[i].id != session.id && tables.sessions[i].access_hash != session.access_hash
        && tables.sessions[i].refresh_hash != session.refresh_hash) by {}
}

/// A revoked token stays in the table, under its hash, and every other one is as it was.
pub proof fn law_revocation_concerns_one_token(tables: Tables, id: Seq<char>, i: int)
    requires
        0 <= i < tables.pats.len(),
    ensures
        tables.revoked(id).pats.len() == tables.pats.len(),
        tables.pats[i].id != id ==> tables.revoked(id).pats[i] == tables.pats[i],
        tables.pats[i].id == id ==> tables.revoked(id).pats[i] == (PatView {
            revoked: true,
            ..tables.pats[i]
        }),
        tables.revoked(id).records == tables.records,
{
}

/// The session of a refresh token that is exchanged ends, and its token stays live.
pub proof fn law_the_exchanged_token_is_spent(
    tables: Tables,
    token: Seq<char>,
    now: int,
    fresh: FreshView,
    at: int,
)
    requires
        tables.wf(),
        renewable(tables, tables.sessions, token_hash(token), now) is Some,
    ensures
        ({
            let s = renewable(tables, tables.sessions, token_hash(token), now)->0;
            let base = tables.without_session(s.id);
            &&& !base.refreshes(token, at)
            &&& base.live(s.pat_id)
            &&& base.opened(s.pat_id, now, fresh) is Some && token_hash(fresh.refresh) != token_hash(
                token,
            ) ==> !(base.opened(s.pat_id, now, fresh)->0).refreshes(token, at)
        }),
{
    let s = renewable(tables, tables.sessions, token_hash(token), now)->0;
    let base = tables.without_session(s.id);
    lemma_renewable(tables, tables.sessions, token_hash(token), now);
    lemma_filter(tables.sessions, not_with_id(s.id));
    lemma_live_depends_on_pats(tables, base);
    let k = choose|k: int| 0 <= k < tables.sessions.len() && #[trigger] tables.sessions[k] == s;
    assert forall|j: int| 0 <= j < base.sessions.len() implies (
    #[trigger] base.sessions[j]).refresh_hash != token_hash(token) by {
        assert(not_with_id(s.id)(base.sessions[j]));
        assert(tables.sessions.contains(base.sessions[j]));
        let i = choose|i: int|
            0 <= i < tables.sessions.len() && tables.sessions[i] == base.sessions[j];
        assert(i != k);
        if i < k {
            assert(!clash(tables.sessions[i], tables.sessions[k]));
        } else {
            assert(!clash(tables.sessions[k], tables.sessions[i]));
        }
    }
    if base.opened(s.pat_id, now, fresh) is Some && token_hash(fresh.refresh) != token_hash(token) {
        let post = base.opened(s.pat_id, now, fresh)->0;
        assert forall|j: int| 0 <= j < post.sessions.len() implies (
        #[trigger] post.sessions[j]).refresh_hash != token_hash(token) by {
            if j < base.sessions.len() {
                assert(post.sessions[j] == base.sessions[j]);
            }
        }
    }
}

/// What a login comes to: with a live token a session that lets in for an hour, and with none
/// nothing at all.
pub proof fn law_what_a_login_comes_to(
    pre: State,
    pat: Seq<char>,
    now: int,
    fresh: FreshView,
    post: State,
    r: Result<Option<Value>, StateError>,
    at: int,
)
    requires
        login_outcome(pre, pat, now, fresh, post, r),
    ensures
        ({
            let live = exists|i: int|
                0 <= i < pre@.pats.len() && (#[trigger] pre@.pats[i]).hash == token_hash(pat)
                    && !pre@.pats[i].revoked;
            &&& !live ==> (r matches Ok(None)) && post@ == pre@
            &&& r is Err ==> post@ == pre@
            &&& r matches Ok(Some(v)) ==> live && json_of(v) == session_json(
                pre.config,
                fresh,
                now,
            ) && (post@.authenticates(fresh.access, at) <==> at < now + 3600)
            &&& live ==> !(r matches Ok(None))
        }),
{
    law_login_needs_a_live_token(pre@, pat);
    if holder(pre@.pats, token_hash(pat)) is Some {
        let id = holder(pre@.pats, token_hash(pat))->0;
        if pre@.opened(id, now, fresh) is Some && can_start(now) {
            law_session_expires(pre@, id, now, fresh, at);
        }
    }
}

/// What an exchange of a refresh token comes to: with a good one a new session in place of the old
/// one, and else nothing at all.
pub proof fn law_what_a_refresh_comes_to(
    pre: State,
    token: Seq<char>,
    now: int,
    fresh: FreshView,
    post: State,
    r: Result<Option<Value>, StateError>,
    at: int,
)
    requires
        refresh_outcome(pre, token, now, fresh, post, r),
        pre@.wf(),
    ensures
        !pre@.refreshes(token, now) ==> (r matches Ok(None)) && post@ == pre@,
        r is Err ==> post@ == pre@,
        pre@.refreshes(token, now) ==> !(r matches Ok(None)),
        r matches Ok(Some(v)) ==> json_of(v) == session_json(pre.config, fresh, now) && (
        post@.authenticates(fresh.access, at) <==> at < now + 3600) && post@.sessions.len()
            <= pre@.sessions.len(),
        r matches Ok(Some(_)) && token_hash(fresh.refresh) != token_hash(token)
            ==> !post@.refreshes(token, at),
{
    law_refresh_needs_a_good_token(pre@, token, now);
    if renewable(pre@, pre@.sessions, token_hash(token), now) is Some {
        let s = renewable(pre@, pre@.sessions, token_hash(token), now)->0;
        let base = pre@.without_session(s.id);
        law_the_exchanged_token_is_spent(pre@, token, now, fresh, at);
        lemma_one_session_less(pre@, token, now);
        if base.opened(s.pat_id, now, fresh) is Some && can_start(now) {
            law_session_expires(base, s.pat_id, now, fresh, at);
        }
    }
}

proof fn lemma_one_session_less(tables: Tables, token: Seq<char>, now: int)
    requires
        renewable(tables, tables.sessions, token_hash(token), now) is Some,
    ensures
        ({
            let s = renewable(tables, tables.sessions, token_hash(token), now)->0;
            tables.without_session(s.id).sessions.len() < tables.sessions.len()
        }),
{
    let s = renewable(tables, tables.sessions, token_hash(token), now)->0;
    lemma_renewable(tables, tables.sessions, token_hash(token), now);
    let k = choose|k: int| 0 <= k < tables.sessions.len() && #[trigger] tables.sessions[k] == s;
    lemma_filter_shorter(tables.sessions, not_with_id(s.id), k);
}

proof fn lemma_filter_shorter(
    v: Seq<SessionView>,
    pred: spec_fn(SessionView) -> bool,
    k: int,
)
    requires
        0 <= k < v.len(),
        !pred(v[k]),
    ensures
        v.filter(pred).len() < v.len(),
    decreases v.len(),
{
    reveal(Seq::filter);
    let init = v.drop_last();
    if k < init.len() {
        assert(init[k] == v[k]);
        lemma_filter_shorter(init, pred, k);
    } else {
        lemma_filter_not_longer(init, pred);
    }
}

proof fn lemma_filter_not_longer(v: Seq<SessionView>, pred: spec_fn(SessionView) -> bool)
    ensures
        v.filter(pred).len() <= v.len(),
    decreases v.len(),
{
    reveal(Seq::filter);
    if v.len() > 0 {
        lemma_filter_not_longer(v.drop_last(), pred);
    }
}

/// What the rules of the tables are: no identifier and no hash of a token stands twice, nor one of
/// a session, every session is one of a token that is there, and no two repositories share an
/// identifier, or an owner and a name.
pub proof fn law_the_rules_of_the_tables(tables: Tables, i: int, j: int)
    requires
        tables.wf(),
        0 <= i < j,
    ensures
        j < tables.pats.len() ==> tables.pats[i].id != tables.pats[j].id && tables.pats[i].hash
            != tables.pats[j].hash,
        j < tables.sessions.len() ==> tables.sessions[i].id != tables.sessions[j].id
            && tables.sessions[i].access_hash != tables.sessions[j].access_hash
            && tables.sessions[i].refresh_hash != tables.sessions[j].refresh_hash,
        j < tables.sessions.len() ==> exists|k: int|
            0 <= k < tables.pats.len() && (#[trigger] tables.pats[k]).id
                == tables.sessions[j].pat_id,
        j < tables.records.len() ==> tables.records[i].id != tables.records[j].id && !(
        tables.records[i].owner == tables.records[j].owner && tables.records[i].name
            == tables.records[j].name),
        Tables::none().wf(),
{
    if j < tables.pats.len() {
        assert(!same_pat(tables.pats[i], tables.pats[j]));
    }
    if j < tables.sessions.len() {
        assert(!clash(tables.sessions[i], tables.sessions[j]));
        assert(tables.knows(tables.sessions[j].pat_id));
    }
    if j < tables.records.len() {
        assert(!same_record(tables.records[i], tables.records[j]));
    }
}

/// All tokens are listed, in the order in which they were issued.
pub proof fn law_all_tokens_are_listed(state: State, i: int)
    requires
        0 <= i < state@.pats.len(),
    ensures
        state.tokens_json() is List,
        (state.tokens_json()->List_0).len() == state@.pats.len(),
        member((state.tokens_json()->List_0)[i], "id"@) == Some(Json::Text(state@.pats[i].id)),
{
    law_what_is_listed_of_a_token(state@.pats[i]);
}

/// What clashes first: the hash of a token before its identifier, and of a session the refresh
/// token before the access token before the identifier.
pub proof fn law_what_clashes_first(tables: Tables, pat: PatView, session: SessionView, i: int)
    requires
        i >= 0,
    ensures
        i < tables.pats.len() && tables.pats[i].hash == pat.hash ==> pat_clash(tables.pats, pat)
            == Unique::PatHash,
        (forall|k: int| 0 <= k < tables.pats.len() ==> (#[trigger] tables.pats[k]).hash != pat.hash)
            ==> pat_clash(tables.pats, pat) == Unique::PatId,
        i < tables.sessions.len() && tables.sessions[i].refresh_hash == session.refresh_hash
            ==> session_clash(tables.sessions, session) == Unique::SessionRefresh,
        (forall|k: int|
            0 <= k < tables.sessions.len() ==> (#[trigger] tables.sessions[k]).refresh_hash
                != session.refresh_hash) && i < tables.sessions.len()
            && tables.sessions[i].access_hash == session.access_hash ==> session_clash(
            tables.sessions,
            session,
        ) == Unique::SessionAccess,
{
}

/// What is drawn for a session: an access token and a refresh token, which differ, each the name of
/// its use and 64 hexadecimal digits.
pub proof fn law_drawn_tokens_name_their_use(fresh: FreshView, i: int)
    requires
        is_drawn(fresh),
    ensures
        "agsh_access_"@.is_prefix_of(fresh.access),
        "agsh_refresh_"@.is_prefix_of(fresh.refresh),
        fresh.access.len() == 12 + 64,
        fresh.refresh.len() == 13 + 64,
        fresh.access != fresh.refresh,
        12 <= i < 76 ==> is_hex(fresh.access[i]),
        13 <= i < 77 ==> is_hex(fresh.refresh[i]),
        fresh.id.len() == 36,
{
    reveal_strlit("agsh_access");
    reveal_strlit("agsh_refresh");
    reveal_strlit("agsh_access_");
    reveal_strlit("agsh_refresh_");
    lemma_secret("agsh_access"@, fresh.access, i);
    lemma_secret("agsh_refresh"@, fresh.refresh, i);
    assert("agsh_access"@.push('_') =~= "agsh_access_"@);
    assert("agsh_refresh"@.push('_') =~= "agsh_refresh_"@);
}

proof fn lemma_secret(prefix: Seq<char>, s: Seq<char>, i: int)
    requires
        is_secret(prefix, s),
    ensures
        prefix.push('_').is_prefix_of(s),
        prefix.len() + 1 <= i < prefix.len() + 65 ==> is_hex(s[i]),
{
    let n = prefix.len() as int;
    assert(s.take(n + 1) =~= prefix.push('_')) by {
        assert forall|k: int| 0 <= k < n implies s[k] == prefix[k] by {
            assert(s.take(n)[k] == s[k]);
        }
    }
    assert(s.take(n + 1) =~= s.subrange(0, n + 1));
    if n + 1 <= i < n + 33 {
        assert(is_hex(s.subrange(n + 1, n + 33)[i - n - 1]));
    } else if n + 33 <= i < n + 65 {
        assert(is_hex(s.subrange(n + 33, n + 65)[i - n - 33]));
    }
}

/// Each repository has a place of its own, below that of all repositories.
pub proof fn law_repositories_have_their_own_places(
    state: State,
    a: Repository,
    b: Repository,
    p: String,
    q: String,
)
    requires
        call_ensures(State::repo_path, (&state, &a), p),
        call_ensures(State::repo_path, (&state, &b), q),
    ensures
        "repos/"@.is_prefix_of(p@),
        ".git"@.is_suffix_of(p@),
        p@ == q@ <==> a.id@ == b.id@,
{
    reveal_strlit("repos/");
    reveal_strlit(".git");
    if p@ == q@ {
        assert(a.id@ =~= p@.subrange(6, p@.len() - 4));
        assert(b.id@ =~= q@.subrange(6, q@.len() - 4));
    }
}

/// The hub waits for indexing as long as a repository is marked, and does with a new one.
pub proof fn law_what_waits_for_indexing(
    tables: Tables,
    i: int,
    repo: RepositoryView,
    origins: Json,
    now: i64,
)
    ensures
        0 <= i < tables.records.len() && tables.records[i].dirty ==> tables.awaits_indexing(),
        (forall|k: int| 0 <= k < tables.records.len() ==> !(#[trigger] tables.records[k]).dirty)
            ==> !tables.awaits_indexing(),
        tables.with_record(new_record(repo, origins, now)) matches Some(t) ==> t.awaits_indexing(),
{
    if tables.with_record(new_record(repo, origins, now)) is Some {
        let t = tables.with_record(new_record(repo, origins, now))->0;
        assert(t.records[t.records.len() - 1].dirty);
    }
}

/// A hub opens where its format is known, its storage settings are valid and its tables are
/// sound, with all of them as they are.
pub proof fn law_which_hubs_open(
    root: &str,
    config: Config,
    pats: Vec<Pat>,
    sessions: Vec<AuthSession>,
    records: Vec<Record>,
    r: Result<State, StateError>,
)
    requires
        call_ensures(State::open, (root, config, pats, sessions, records), r),
    ensures
        r is Ok <==> {
            &&& config.schema == 1
            &&& config.storage.valid()
            &&& (Tables {
                pats: pat_views(pats@),
                sessions: session_views(sessions@),
                records: record_views(records@),
            }).wf()
        },
        r matches Ok(s) ==> {
            &&& s.root@ == root@
            &&& s.config == config
            &&& s@.pats == pat_views(pats@)
            &&& s@.sessions == session_views(sessions@)
            &&& s@.records == record_views(records@)
        },
{
}

/// A new hub has the settings it was given, holds nothing, and lets nobody in.
pub proof fn law_new_hubs_let_nobody_in(
    root: &str,
    owner: String,
    refused: Option<String>,
    public_url: &str,
    max_snapshot_mib: usize,
    max_upload_mib: u64,
    storage: Policy,
    directory: DataDirectory,
    r: Result<State, StateError>,
    token: Seq<char>,
    at: int,
)
    requires
        call_ensures(
            State::initialize,
            (
                root,
                owner,
                &refused,
                public_url,
                max_snapshot_mib,
                max_upload_mib,
                storage,
                directory,
            ),
            r,
        ),
        r is Ok,
    ensures
        ({
            let s = r->Ok_0;
            &&& s.root@ == root@
            &&& s.config.owner@ == owner@
            &&& s.config.storage == storage
            &&& s.config.max_snapshot_mib == max_snapshot_mib
            &&& s.config.max_upload_mib == max_upload_mib
            &&& s.config.public_url@.len() > 0 ==> s.config.public_url@.last() != '/'
            &&& !s@.authenticates(token, at)
            &&& !s@.refreshes(token, at)
            &&& holder(s@.pats, token_hash(token)) is None
            &&& s@.records.len() == 0
        }),
{
    law_login_needs_a_live_token((r->Ok_0)@, token);
    lemma_no_trailing((url_of(public_url@)->Ok_0).text, '/');
}

proof fn lemma_no_trailing(s: Seq<char>, c: char)
    ensures
        skip_trailing(s, c).len() > 0 ==> skip_trailing(s, c).last() != c,
    decreases s.len(),
{
    if s.len() > 0 && s.last() == c {
        lemma_no_trailing(s.drop_last(), c);
    }
}

} // verus!
