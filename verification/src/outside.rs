//! Hashing, time, random identifiers and URLs.
use crate::text::digit;
use sha2::{Digest, Sha256};
use vstd::prelude::*;

verus! {

// ---------------------------------------------------------------------------
// SHA-256 and hexadecimal text
// ---------------------------------------------------------------------------

/// The SHA-256 hash of a sequence of bytes.
pub uninterp spec fn sha256(data: Seq<u8>) -> Seq<u8>;

/// Calls `Sha256::digest`. The result depends on the bytes alone and has 32 bytes.
#[verifier::external_body]
pub(crate) fn hash(data: &[u8]) -> (r: Vec<u8>)
    ensures
        r@ == sha256(data@),
        r@.len() == 32,
{
    Sha256::digest(data).to_vec()
}

/// A SHA-256 hasher that takes its input in parts.
#[verifier::external_body]
pub struct ContentHash {
    hasher: Sha256,
}

/// What a hasher has taken so far.
pub uninterp spec fn taken(h: ContentHash) -> Seq<u8>;

impl ContentHash {
    /// Calls `Sha256::new`: nothing has been taken.
    #[verifier::external_body]
    pub(crate) fn new() -> (r: Self)
        ensures
            taken(r) == Seq::<u8>::empty(),
    {
        ContentHash { hasher: Sha256::new() }
    }

    /// Calls `Digest::update`, which takes further bytes.
    #[verifier::external_body]
    pub(crate) fn update(&mut self, part: &[u8])
        ensures
            taken(*final(self)) == taken(*old(self)) + part@,
    {
        self.hasher.update(part);
    }

    /// Calls `Digest::finalize`: the hash of all that was taken.
    #[verifier::external_body]
    pub(crate) fn finish(self) -> (r: Vec<u8>)
        ensures
            r@ == sha256(taken(self)),
            r@.len() == 32,
    {
        self.hasher.finalize().to_vec()
    }
}

/// The lower-case hexadecimal digit of a number below 16.
pub open spec fn hex_digit(n: nat) -> char {
    if n < 10 {
        digit(n)
    } else {
        ('a' as u32 + (n - 10)) as char
    }
}

/// Two hexadecimal digits for each byte, the high one first.
pub open spec fn hex_text(data: Seq<u8>) -> Seq<char> {
    Seq::new(
        2 * data.len(),
        |i: int|
            if i % 2 == 0 {
                hex_digit((data[i / 2] / 16) as nat)
            } else {
                hex_digit((data[i / 2] % 16) as nat)
            },
    )
}

/// Calls `hex::encode`: two lower-case hexadecimal digits for each byte.
#[verifier::external_body]
pub(crate) fn hex(data: &[u8]) -> (r: String)
    ensures
        r@ == hex_text(data@),
{
    hex::encode(data)
}

// ---------------------------------------------------------------------------
// Time
// ---------------------------------------------------------------------------

/// The first second that a date of `chrono` can hold.
pub const FIRST_SECOND: i64 = -8334601228800;

/// The last second that a date of `chrono` can hold.
pub const LAST_SECOND: i64 = 8210266876799;

/// Whether a number of seconds since 1970 is a date of `chrono`.
pub open spec fn is_date(seconds: int) -> bool {
    FIRST_SECOND <= seconds <= LAST_SECOND
}

/// Calls `DateTime::from_timestamp`, which is `None` outside the range of dates: from the
/// start of the year -262143 to the end of the year 262142.
#[verifier::external_body]
pub(crate) fn date_exists(seconds: i64) -> (r: bool)
    ensures
        r == is_date(seconds as int),
{
    chrono::DateTime::from_timestamp(seconds, 0).is_some()
}

/// Tells whether a number of seconds since 1970 is a date of `chrono`.
pub fn is_date_second(seconds: i64) -> (r: bool)
    ensures
        r == is_date(seconds as int),
{
    FIRST_SECOND <= seconds && seconds <= LAST_SECOND
}

/// The RFC 3339 text of a date in UTC, to the second, with the suffix `Z`.
pub uninterp spec fn date_text(seconds: int) -> Seq<char>;

/// Calls `DateTime::from_timestamp` and `to_rfc3339_opts`. The result depends on the number of
/// seconds alone.
#[verifier::external_body]
pub(crate) fn write_date(seconds: i64) -> (r: String)
    requires
        is_date(seconds as int),
    ensures
        r@ == date_text(seconds as int),
{
    chrono::DateTime::from_timestamp(seconds, 0)
        .expect("bounded timestamp")
        .to_rfc3339_opts(chrono::SecondsFormat::Secs, true)
}

/// The seconds since 1970 of an RFC 3339 text, if it is one.
pub uninterp spec fn date_of(text: Seq<char>) -> Option<i64>;

/// Calls `DateTime::parse_from_rfc3339` and `timestamp`. The result depends on the text alone.
#[verifier::external_body]
pub(crate) fn read_date(text: &str) -> (r: Option<i64>)
    ensures
        r == date_of(text@),
{
    chrono::DateTime::parse_from_rfc3339(text).ok().map(|date| date.timestamp())
}

/// Calls `Utc::now`: some second since 1970 that is a date of `chrono`. Which one depends on the
/// machine's clock; `Utc::now` takes for granted that it does not stand before 1970.
#[verifier::external_body]
pub(crate) fn current_second() -> (r: i64)
    ensures
        0 <= r,
        is_date(r as int),
{
    chrono::Utc::now().timestamp()
}

// ---------------------------------------------------------------------------
// Random identifiers
// ---------------------------------------------------------------------------

/// Whether a character is a lower-case hexadecimal digit.
pub open spec fn is_hex(c: char) -> bool {
    ('0' <= c && c <= '9') || ('a' <= c && c <= 'f')
}

/// Whether a text has 32 lower-case hexadecimal digits.
pub open spec fn is_simple_id(s: Seq<char>) -> bool {
    s.len() == 32 && forall|i: int| 0 <= i < 32 ==> is_hex(#[trigger] s[i])
}

/// Whether a text has the groups of 8, 4, 4, 4 and 12 lower-case hexadecimal digits of a UUID,
/// with hyphens between them.
pub open spec fn is_hyphenated_id(s: Seq<char>) -> bool {
    s.len() == 36 && forall|i: int|
        0 <= i < 36 ==> if i == 8 || i == 13 || i == 18 || i == 23 {
            #[trigger] s[i] == '-'
        } else {
            is_hex(s[i])
        }
}

/// Calls `Uuid::new_v4` and writes the result by `Uuid::simple`. Which identifier it is depends
/// on chance.
#[verifier::external_body]
pub(crate) fn random_simple() -> (r: String)
    ensures
        is_simple_id(r@),
{
    uuid::Uuid::new_v4().simple().to_string()
}

/// Calls `Uuid::new_v4` and writes the result with hyphens. Which identifier it is depends on
/// chance.
#[verifier::external_body]
pub(crate) fn random_hyphenated() -> (r: String)
    ensures
        is_hyphenated_id(r@),
{
    uuid::Uuid::new_v4().to_string()
}

// ---------------------------------------------------------------------------
// URLs
// ---------------------------------------------------------------------------

/// The parts of a URL.
pub struct UrlParts {
    pub text: String,
    pub scheme: String,
    pub username: String,
    pub password: Option<String>,
    pub host: Option<String>,
    pub path: String,
    pub query: Option<String>,
    pub fragment: Option<String>,
    pub pairs: Vec<(String, String)>,
}

/// The parts of a URL, seen through their characters.
#[verifier::ext_equal]
pub struct UrlView {
    pub text: Seq<char>,
    pub scheme: Seq<char>,
    pub username: Seq<char>,
    pub password: Option<Seq<char>>,
    pub host: Option<Seq<char>>,
    pub path: Seq<char>,
    pub query: Option<Seq<char>>,
    pub fragment: Option<Seq<char>>,
    pub pairs: Seq<(Seq<char>, Seq<char>)>,
}

/// The view of an optional text.
pub open spec fn optional(s: Option<String>) -> Option<Seq<char>> {
    match s {
        Some(t) => Some(t@),
        None => None,
    }
}

/// The view of a sequence of pairs of texts.
pub open spec fn pairs_of(v: Seq<(String, String)>) -> Seq<(Seq<char>, Seq<char>)> {
    Seq::new(v.len(), |i: int| (v[i].0@, v[i].1@))
}

impl View for UrlParts {
    type V = UrlView;

    open spec fn view(&self) -> UrlView {
        UrlView {
            text: self.text@,
            scheme: self.scheme@,
            username: self.username@,
            password: optional(self.password),
            host: optional(self.host),
            path: self.path@,
            query: optional(self.query),
            fragment: optional(self.fragment),
            pairs: pairs_of(self.pairs@),
        }
    }
}

/// The parts of the URL that a text writes, or the message that says why it writes none.
pub uninterp spec fn url_of(text: Seq<char>) -> Result<UrlView, Seq<char>>;

/// Calls `Url::parse` and reads the parts of the result by `as_str`, `scheme`, `username`,
/// `password`, `host_str`, `path`, `query`, `fragment` and `query_pairs`, or the message of the
/// error. They depend on the text alone.
#[verifier::external_body]
pub(crate) fn read_url(text: &str) -> (r: Result<UrlParts, String>)
    ensures
        match r {
            Ok(parts) => url_of(text@) == Ok::<UrlView, Seq<char>>(parts@),
            Err(message) => url_of(text@) == Err::<UrlView, Seq<char>>(message@),
        },
{
    url::Url::parse(text).map_err(|e| e.to_string()).map(|url| UrlParts {
        text: url.as_str().to_owned(),
        scheme: url.scheme().to_owned(),
        username: url.username().to_owned(),
        password: url.password().map(str::to_owned),
        host: url.host_str().map(str::to_owned),
        path: url.path().to_owned(),
        query: url.query().map(str::to_owned),
        fragment: url.fragment().map(str::to_owned),
        pairs: url.query_pairs().into_owned().collect(),
    })
}

// ---------------------------------------------------------------------------
// Laws
// ---------------------------------------------------------------------------

/// The hexadecimal text of bytes has two digits for each, the one of the sixteens first.
pub proof fn law_hexadecimal_text(data: Seq<u8>, i: int)
    requires
        0 <= i < data.len(),
    ensures
        hex_text(data).len() == 2 * data.len(),
        hex_text(data)[2 * i] == "0123456789abcdef"@[data[i] as int / 16],
        hex_text(data)[2 * i + 1] == "0123456789abcdef"@[data[i] as int % 16],
{
    lemma_hex_digit((data[i] / 16) as nat);
    lemma_hex_digit((data[i] % 16) as nat);
    assert((2 * i) % 2 == 0 && (2 * i) / 2 == i);
    assert((2 * i + 1) % 2 == 1 && (2 * i + 1) / 2 == i);
}

proof fn lemma_hex_digit(n: nat)
    requires
        n < 16,
    ensures
        hex_digit(n) == "0123456789abcdef"@[n as int],
{
    reveal_strlit("0123456789abcdef");
    assert(n == 0 || n == 1 || n == 2 || n == 3 || n == 4 || n == 5 || n == 6 || n == 7 || n == 8
        || n == 9 || n == 10 || n == 11 || n == 12 || n == 13 || n == 14 || n == 15);
}

/// Which seconds are dates: those from the start of the year -262143 to the end of the year
/// 262142.
pub proof fn law_which_seconds_are_dates(seconds: int)
    ensures
        is_date(seconds) <==> -8334601228800 <= seconds <= 8210266876799,
{
}

} // verus!
