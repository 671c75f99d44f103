//! Git over HTTP: what is handed to Git's own HTTP program, and what comes back from it.
use crate::git::{declared_shallow, law_accepted_push_is_atomic, push_end, push_fault, push_start,
    GitError};
use crate::http::{error, header_value, refusal, request_header, storage_error, unprocessable,
    ApiError, Refusal, Request};
use crate::outside::pairs_of;
use crate::params::{lemma_value_of, value_of};
use crate::space::{UploadBudget, MIB};
use crate::state::{Repository, RepositoryView, State};
use crate::text::{append, append_decimal, chars_of, decimal, halves, is_digit, is_white,
    law_decimal_text, law_decimal_text_is_read_back, law_first_separator_parts_a_text,
    law_separator_parts_a_text, law_text_without_separator_is_one_part, lemma_split_on_nonempty,
    lemma_trim_end, number, parse_number, same, same_folded, same_ignoring_case, split, split_on,
    split_once, texts, trim, trim_end, trimmed, trimmed_end, utf8, NumberError};
use vstd::prelude::*;
use vstd::slice::slice_subrange;
use vstd::utf8::{decode_utf8, encode_utf8, valid_utf8};

verus! {

// ---------------------------------------------------------------------------
// Requests
// ---------------------------------------------------------------------------

/// Whether an operation publishes something.
pub open spec fn is_receive(suffix: Seq<char>) -> bool {
    suffix == "git-receive-pack"@
}

/// Tells whether an operation publishes something.
pub fn receives(suffix: &str) -> (r: bool)
    ensures
        r == is_receive(suffix@),
{
    same(suffix, "git-receive-pack")
}

/// Why a request is refused for the encoding of its body: what is published must not be
/// compressed, because its commands are checked.
pub open spec fn encoding_refusal(
    suffix: Seq<char>,
    headers: Seq<(Seq<char>, Seq<char>)>,
) -> Option<Refusal> {
    let encoding = header_value(headers, "Content-Encoding"@);
    if is_receive(suffix) && encoding is Some && encoding != Some("identity"@) {
        Some(refusal(415, "Compressed receive-pack requests are unsupported"@))
    } else {
        None
    }
}

/// Checks the encoding of a request's body.
pub fn check_encoding(suffix: &str, request: &Request) -> (r: Result<(), ApiError>)
    ensures
        match encoding_refusal(suffix@, pairs_of(request.headers@)) {
            None => r is Ok,
            Some(e) => r is Err && r->Err_0@ == e,
        },
{
    if receives(suffix) {
        match request_header(request, "Content-Encoding") {
            Some(v) => {
                if !same(v.as_str(), "identity") {
                    return Err(error(415, "Compressed receive-pack requests are unsupported"));
                }
            },
            None => {},
        }
    }
    Ok(())
}

/// The body of a request while it is being copied. What is published has a budget.
pub struct GitBody {
    pub max_upload_mib: u64,
    pub copied: u64,
    pub budget: Option<UploadBudget>,
}

impl GitBody {
    /// Starts a copy.
    pub fn new(state: &State, budget: Option<UploadBudget>) -> (r: Self)
        ensures
            r.max_upload_mib == state.config.max_upload_mib,
            r.copied == 0,
            r.budget == budget,
    {
        GitBody { max_upload_mib: state.config.max_upload_mib, copied: 0, budget }
    }

    /// Why the next part of a body is refused, given the free bytes of the filesystem.
    pub open spec fn part_refusal(self, size: int, available: int) -> Option<Refusal> {
        if self.copied + size > self.max_upload_mib * MIB || self.copied + size > u64::MAX {
            Some(refusal(413, "Git request exceeds upload limit"@))
        } else {
            match self.budget {
                Some(budget) => if budget.fits(size, available) {
                    None
                } else {
                    Some(
                        refusal(
                            507,
                            "Upload stopped before writing: Hub quota or filesystem reserve would be exceeded"@,
                        ),
                    )
                },
                None => None,
            }
        }
    }

    /// Counts the next part; it may be written only if this succeeds.
    pub fn part(&mut self, size: usize, available: u64) -> (r: Result<(), ApiError>)
        ensures
            final(self).max_upload_mib == old(self).max_upload_mib,
            match old(self).part_refusal(size as int, available as int) {
                Some(e) => r is Err && r->Err_0@ == e && final(self).copied == old(self).copied
                    && final(self).budget == old(self).budget,
                None => {
                    &&& r is Ok
                    &&& final(self).copied == old(self).copied + size
                    &&& match old(self).budget {
                        None => final(self).budget is None,
                        Some(b) => final(self).budget == Some(
                            UploadBudget { remaining: (b.remaining - size) as u64, ..b },
                        ),
                    }
                },
            },
    {
        assert(self.max_upload_mib * MIB <= u64::MAX * MIB) by (nonlinear_arith)
            requires
                self.max_upload_mib <= u64::MAX,
                MIB == 1048576,
        ;
        let limit: u128 = self.max_upload_mib as u128 * MIB as u128;
        let total: u128 = self.copied as u128 + size as u128;
        if total > limit || total > u64::MAX as u128 {
            return Err(error(413, "Git request exceeds upload limit"));
        }
        match self.budget.take() {
            Some(budget) => {
                let mut budget = budget;
                match budget.consume(size, available) {
                    Ok(_) => {
                        self.budget = Some(budget);
                    },
                    Err(e) => {
                        self.budget = Some(budget);
                        return Err(storage_error(&e));
                    },
                }
            },
            None => {},
        }
        self.copied = total as u64;
        Ok(())
    }
}

/// What reads is never refused for lack of storage: only what is published has a budget.
pub proof fn law_reading_needs_no_storage(body: GitBody, size: int, available: int)
    requires
        body.budget is None,
    ensures
        body.part_refusal(size, available) matches Some(e) ==> e.status == 413,
{
}

/// The value of a header, or nothing.
pub open spec fn header_or_nothing(headers: Seq<(Seq<char>, Seq<char>)>, name: Seq<char>) -> Seq<
    char,
> {
    match header_value(headers, name) {
        Some(v) => v,
        None => Seq::empty(),
    }
}

/// Why Git's HTTP program does not run, if it does not: for the encoding of the request's body,
/// else for its size, else, where something is published, for what is wrong with its commands.
pub open spec fn git_refusal(
    suffix: Seq<char>,
    headers: Seq<(Seq<char>, Seq<char>)>,
    max_upload_mib: int,
    copied: int,
    fault: Option<Seq<char>>,
) -> Option<Refusal> {
    match encoding_refusal(suffix, headers) {
        Some(e) => Some(e),
        None => if copied > max_upload_mib * MIB {
            Some(refusal(413, "Git request exceeds upload limit"@))
        } else {
            match fault {
                Some(message) => if is_receive(suffix) {
                    Some(refusal(422, message))
                } else {
                    None
                },
                None => None,
            }
        },
    }
}

/// The message of an error, if there is one.
pub open spec fn fault_text(fault: Option<GitError>) -> Option<Seq<char>> {
    match fault {
        Some(e) => Some(e.text()),
        None => None,
    }
}

/// Git's HTTP program takes in only what has passed every check: what is published is not
/// compressed, is within the limit, and its commands are accepted, so that it updates at most one
/// reference or all its references together. `input` is the body, and `fault` is there where
/// something is wrong with its commands.
pub proof fn law_published_requests_are_checked(
    suffix: Seq<char>,
    headers: Seq<(Seq<char>, Seq<char>)>,
    max_upload_mib: int,
    input: Seq<u8>,
    is_event_id: Seq<bool>,
    fault: Option<Seq<char>>,
)
    requires
        is_receive(suffix),
        is_event_id.len() == declared_shallow(input).len(),
        fault is Some <==> push_fault(input, is_event_id) is Some,
        git_refusal(suffix, headers, max_upload_mib, input.len() as int, fault) is None,
    ensures
        header_value(headers, "Content-Encoding"@) matches Some(v) ==> v == "identity"@,
        input.len() <= max_upload_mib * MIB,
        push_fault(input, is_event_id) is None,
        push_end(push_start(), input) matches Some(q) && (q.count <= 1 || q.atomic),
{
    law_accepted_push_is_atomic(input, is_event_id);
}

/// The environment that Git's HTTP program runs in, beside that of every call of Git. `repos` is
/// the directory of the repositories.
pub open spec fn cgi_environment(
    repos: Seq<char>,
    owner: Seq<char>,
    repo: RepositoryView,
    suffix: Seq<char>,
    query: Seq<char>,
    method: Seq<char>,
    headers: Seq<(Seq<char>, Seq<char>)>,
    copied: nat,
) -> Seq<(Seq<char>, Seq<char>)> {
    seq![
        ("GIT_PROJECT_ROOT"@, repos),
        ("GIT_HTTP_EXPORT_ALL"@, "1"@),
        ("PATH_INFO"@, "/"@ + repo.id + ".git/"@ + suffix),
        ("QUERY_STRING"@, query),
        ("REQUEST_METHOD"@, method),
        ("CONTENT_TYPE"@, header_or_nothing(headers, "Content-Type"@)),
        ("CONTENT_LENGTH"@, decimal(copied)),
        ("REMOTE_USER"@, owner),
        ("GIT_PROTOCOL"@, header_or_nothing(headers, "Git-Protocol"@)),
        ("HTTP_CONTENT_ENCODING"@, header_or_nothing(headers, "Content-Encoding"@)),
    ]
}

fn header_text(request: &Request, name: &str) -> (r: String)
    ensures
        r@ == header_or_nothing(pairs_of(request.headers@), name@),
{
    match request_header(request, name) {
        Some(v) => v,
        None => {
            let v = String::new();
            assert(v@ == Seq::<char>::empty());
            v
        },
    }
}

/// Makes the environment that Git's HTTP program runs in, or refuses the request before anything
/// is changed. `repos` is the directory of the repositories, `copied` the size of the body, and
/// `fault` what is wrong with the commands of a push.
pub fn smart_http(
    state: &State,
    repos: &str,
    repo: &Repository,
    suffix: &str,
    query: &str,
    request: &Request,
    copied: u64,
    fault: &Option<GitError>,
) -> (r: Result<Vec<(String, String)>, ApiError>)
    ensures
        match git_refusal(
            suffix@,
            pairs_of(request.headers@),
            state.config.max_upload_mib as int,
            copied as int,
            fault_text(*fault),
        ) {
            Some(e) => r is Err && r->Err_0@ == e,
            None => r is Ok && pairs_of(r->Ok_0@) == cgi_environment(
                repos@,
                state.config.owner@,
                repo@,
                suffix@,
                query@,
                request.method@,
                pairs_of(request.headers@),
                copied as nat,
            ),
        },
{
    match check_encoding(suffix, request) {
        Ok(_) => {},
        Err(e) => {
            return Err(e);
        },
    }
    assert(state.config.max_upload_mib * MIB <= u64::MAX * MIB) by (nonlinear_arith)
        requires
            state.config.max_upload_mib <= u64::MAX,
            MIB == 1048576,
    ;
    if copied as u128 > state.config.max_upload_mib as u128 * MIB as u128 {
        return Err(error(413, "Git request exceeds upload limit"));
    }
    match fault {
        Some(e) => {
            if receives(suffix) {
                return Err(unprocessable(e.message().as_str()));
            }
        },
        None => {},
    }
    let mut path = "/".to_owned();
    append(&mut path, repo.id.as_str());
    append(&mut path, ".git/");
    append(&mut path, suffix);
    let mut length = String::new();
    append_decimal(&mut length, copied);
    assert(length@ == decimal(copied as nat));
    let r = vec![
        ("GIT_PROJECT_ROOT".to_owned(), repos.to_owned()),
        ("GIT_HTTP_EXPORT_ALL".to_owned(), "1".to_owned()),
        ("PATH_INFO".to_owned(), path),
        ("QUERY_STRING".to_owned(), query.to_owned()),
        ("REQUEST_METHOD".to_owned(), request.method.clone()),
        ("CONTENT_TYPE".to_owned(), header_text(request, "Content-Type")),
        ("CONTENT_LENGTH".to_owned(), length),
        ("REMOTE_USER".to_owned(), state.config.owner.clone()),
        ("GIT_PROTOCOL".to_owned(), header_text(request, "Git-Protocol")),
        ("HTTP_CONTENT_ENCODING".to_owned(), header_text(request, "Content-Encoding")),
    ];
    let ghost headers = pairs_of(request.headers@);
    assert(pairs_of(r@) == seq![
        ("GIT_PROJECT_ROOT"@, repos@),
        ("GIT_HTTP_EXPORT_ALL"@, "1"@),
        ("PATH_INFO"@, "/"@ + repo@.id + ".git/"@ + suffix@),
        ("QUERY_STRING"@, query@),
        ("REQUEST_METHOD"@, request.method@),
        ("CONTENT_TYPE"@, header_or_nothing(headers, "Content-Type"@)),
        ("CONTENT_LENGTH"@, decimal(copied as nat)),
        ("REMOTE_USER"@, state.config.owner@),
        ("GIT_PROTOCOL"@, header_or_nothing(headers, "Git-Protocol"@)),
        ("HTTP_CONTENT_ENCODING"@, header_or_nothing(headers, "Content-Encoding"@)),
    ]);
    Ok(r)
}

// ---------------------------------------------------------------------------
// Replies
// ---------------------------------------------------------------------------

/// How many bytes the head of a reply of Git's HTTP program may have.
pub const MAX_HEAD: usize = 16384;

/// Why the head of a reply cannot be read.
#[derive(Clone, Copy, Debug, PartialEq, Eq, Structural)]
pub enum CgiError {
    Invalid,
    NotUtf8,
    Malformed,
    Header,
    Status(NumberError),
}

impl CgiError {
    /// The message of the failure.
    pub open spec fn text(self) -> Seq<char> {
        match self {
            CgiError::Invalid => "Invalid Git CGI headers"@,
            CgiError::NotUtf8 => "stream did not contain valid UTF-8"@,
            CgiError::Malformed => "Malformed Git CGI header"@,
            CgiError::Header => "Invalid CGI header"@,
            CgiError::Status(e) => e.text(),
        }
    }

    /// Tells the message of the failure.
    pub fn message(&self) -> (r: String)
        ensures
            r@ == self.text(),
    {
        match self {
            CgiError::Invalid => "Invalid Git CGI headers".to_owned(),
            CgiError::NotUtf8 => "stream did not contain valid UTF-8".to_owned(),
            CgiError::Malformed => "Malformed Git CGI header".to_owned(),
            CgiError::Header => "Invalid CGI header".to_owned(),
            CgiError::Status(e) => e.message(),
        }
    }
}

/// The head of a reply: its status, its headers and where its body begins. While the head is read,
/// the latter is where its next line begins.
pub struct CgiHead {
    pub status: u16,
    pub headers: Vec<(String, String)>,
    pub offset: usize,
}

/// The length of the first line, its end counted.
pub open spec fn line_length(bytes: Seq<u8>) -> nat
    decreases bytes.len(),
{
    if bytes.len() == 0 {
        0
    } else if bytes[0] == 10 {
        1
    } else {
        1 + line_length(bytes.skip(1))
    }
}

/// The status that a header gives: the first word of its value.
pub open spec fn status_of(value: Seq<char>) -> Result<nat, NumberError> {
    number(split_on(trim(value), ' ')[0], u16::MAX as nat)
}

/// Whether every character is an ASCII one.
pub open spec fn is_ascii(s: Seq<char>) -> bool {
    forall|i: int| 0 <= i < s.len() ==> (#[trigger] s[i]) as u32 <= 127
}

fn ascii(s: &str) -> (r: bool)
    ensures
        r == is_ascii(s@),
{
    let chars = chars_of(s);
    let mut i: usize = 0;
    while i < chars.len()
        invariant
            i <= chars@.len(),
            chars@ == s@,
            forall|k: int| 0 <= k < i ==> (#[trigger] s@[k]) as u32 <= 127,
        decreases chars@.len() - i,
    {
        if chars[i] as u32 > 127 {
            assert(s@[i as int] as u32 > 127);
            return false;
        }
        i = i + 1;
    }
    true
}

/// What one line of a head does to the status and the headers; `None` for the empty line that
/// ends the head.
pub open spec fn head_line(
    line: Seq<char>,
    status: u16,
    headers: Seq<(Seq<char>, Seq<char>)>,
) -> Result<Option<(u16, Seq<(Seq<char>, Seq<char>)>)>, CgiError> {
    if trim_end(line).len() == 0 {
        Ok(None)
    } else {
        match halves(line, ':') {
            None => Err(CgiError::Malformed),
            Some((name, value)) => if same_folded(name, "Status"@) {
                match status_of(value) {
                    Ok(n) => Ok(Some((n as u16, headers))),
                    Err(e) => Err(CgiError::Status(e)),
                }
            } else if is_ascii(name) && is_ascii(trim(value)) {
                Ok(Some((status, headers.push((name, trim(value))))))
            } else {
                Err(CgiError::Header)
            },
        }
    }
}

/// What the bytes of one line of a head do, behind `used` bytes of it. A line is read before its
/// length counts.
pub open spec fn head_step(
    line: Seq<u8>,
    used: nat,
    status: u16,
    headers: Seq<(Seq<char>, Seq<char>)>,
) -> Result<Option<(u16, Seq<(Seq<char>, Seq<char>)>)>, CgiError> {
    if line.len() == 0 {
        Err(CgiError::Invalid)
    } else if !valid_utf8(line) {
        Err(CgiError::NotUtf8)
    } else if used + line.len() > MAX_HEAD {
        Err(CgiError::Invalid)
    } else {
        head_line(decode_utf8(line), status, headers)
    }
}

/// The status, the headers and the length of the head that begins a reply, behind `used` bytes of
/// it that gave a status and headers.
pub open spec fn head_scan(
    rest: Seq<u8>,
    used: nat,
    status: u16,
    headers: Seq<(Seq<char>, Seq<char>)>,
) -> Result<(u16, Seq<(Seq<char>, Seq<char>)>, nat), CgiError>
    decreases rest.len(),
{
    proof {
        lemma_line_length(rest);
    }
    let n = line_length(rest);
    match head_step(rest.take(n as int), used, status, headers) {
        Err(e) => Err(e),
        Ok(None) => Ok((status, headers, used + n)),
        Ok(Some((s, h))) => head_scan(rest.skip(n as int), used + n, s, h),
    }
}

/// A line is no longer than the bytes that it begins, and empty only where there is none.
pub proof fn lemma_line_length(bytes: Seq<u8>)
    ensures
        line_length(bytes) <= bytes.len(),
        line_length(bytes) == 0 <==> bytes.len() == 0,
    decreases bytes.len(),
{
    if bytes.len() > 0 && bytes[0] != 10 {
        lemma_line_length(bytes.skip(1));
    }
}

fn first_line(bytes: &[u8], from: usize) -> (r: usize)
    requires
        from <= bytes@.len(),
    ensures
        r == line_length(bytes@.skip(from as int)),
        r <= bytes@.len() - from,
{
    let ghost rest = bytes@.skip(from as int);
    let mut n: usize = 0;
    assert(rest.skip(0) == rest);
    while n < bytes.len() - from
        invariant
            from <= bytes@.len(),
            rest == bytes@.skip(from as int),
            n <= bytes@.len() - from,
            line_length(rest) == n + line_length(rest.skip(n as int)),
        decreases bytes@.len() - from - n,
    {
        assert(rest.skip(n as int)[0] == bytes@[from + n]);
        assert(rest.skip(n as int).skip(1) == rest.skip(n + 1));
        if bytes[from + n] == 10 {
            return n + 1;
        }
        n = n + 1;
    }
    n
}

fn read_status(value: &str) -> (r: Result<u16, NumberError>)
    ensures
        match status_of(value@) {
            Ok(n) => r is Ok && r->Ok_0 == n,
            Err(e) => r == Err::<u16, _>(e),
        },
{
    let parts = split(trimmed(value).as_str(), ' ');
    proof {
        lemma_split_on_nonempty(trim(value@), ' ');
        assert(texts(parts@)[0] == parts@[0]@);
    }
    match parse_number(parts[0].as_str(), u16::MAX as u64) {
        Ok(n) => Ok(n as u16),
        Err(e) => Err(e),
    }
}

impl CgiHead {
    /// The head is no longer than it may be.
    pub open spec fn wf(self) -> bool {
        self.offset <= MAX_HEAD
    }

    /// Nothing of the head has been read.
    pub fn start() -> (r: Self)
        ensures
            r.wf(),
            r.status == 200,
            pairs_of(r.headers@) == Seq::<(Seq<char>, Seq<char>)>::empty(),
            r.offset == 0,
    {
        CgiHead { status: 200, headers: Vec::new(), offset: 0 }
    }

    /// Takes the next line of the head, its end counted, or no byte where there is none; tells
    /// whether the head ends with it.
    pub fn take(&mut self, line: &[u8]) -> (r: Result<bool, CgiError>)
        requires
            old(self).wf(),
        ensures
            final(self).wf(),
            match head_step(
                line@,
                old(self).offset as nat,
                old(self).status,
                pairs_of(old(self).headers@),
            ) {
                Err(e) => r == Err::<bool, _>(e) && *final(self) == *old(self),
                Ok(None) => {
                    &&& r == Ok::<_, CgiError>(true)
                    &&& final(self).status == old(self).status
                    &&& final(self).headers == old(self).headers
                    &&& final(self).offset == old(self).offset + line@.len()
                },
                Ok(Some((status, headers))) => {
                    &&& r == Ok::<_, CgiError>(false)
                    &&& final(self).status == status
                    &&& pairs_of(final(self).headers@) == headers
                    &&& final(self).offset == old(self).offset + line@.len()
                },
            },
    {
        if line.len() == 0 {
            return Err(CgiError::Invalid);
        }
        let row = match utf8(line) {
            Ok(t) => t,
            Err(_) => {
                return Err(CgiError::NotUtf8);
            },
        };
        if line.len() > MAX_HEAD - self.offset {
            return Err(CgiError::Invalid);
        }
        if trimmed_end(row.as_str()).as_str().is_empty() {
            self.offset = self.offset + line.len();
            return Ok(true);
        }
        match split_once(row.as_str(), ':') {
            None => {
                return Err(CgiError::Malformed);
            },
            Some((name, value)) => {
                if same_ignoring_case(name.as_str(), "Status") {
                    match read_status(value.as_str()) {
                        Ok(s) => {
                            self.status = s;
                        },
                        Err(e) => {
                            return Err(CgiError::Status(e));
                        },
                    }
                } else {
                    let value = trimmed(value.as_str());
                    if !ascii(name.as_str()) || !ascii(value.as_str()) {
                        return Err(CgiError::Header);
                    }
                    let ghost past = self.headers@;
                    let ghost one = (name@, value@);
                    self.headers.push((name, value));
                    assert(pairs_of(self.headers@) == pairs_of(past).push(one));
                }
            },
        }
        self.offset = self.offset + line.len();
        Ok(false)
    }
}

/// Reads the head of a reply of Git's HTTP program from the bytes of the reply.
pub fn read_head(bytes: &[u8]) -> (r: Result<CgiHead, CgiError>)
    ensures
        match head_scan(bytes@, 0, 200, Seq::empty()) {
            Ok((status, headers, offset)) => {
                &&& r is Ok
                &&& r->Ok_0.status == status
                &&& pairs_of(r->Ok_0.headers@) == headers
                &&& r->Ok_0.offset == offset
                &&& offset <= bytes@.len()
            },
            Err(e) => r is Err && r->Err_0 == e,
        },
{
    let mut head = CgiHead::start();
    assert(bytes@.skip(0) == bytes@);
    loop
        invariant
            head.wf(),
            head.offset <= bytes@.len(),
            head_scan(bytes@, 0, 200, Seq::empty()) == head_scan(
                bytes@.skip(head.offset as int),
                head.offset as nat,
                head.status,
                pairs_of(head.headers@),
            ),
        decreases bytes@.len() - head.offset,
    {
        let at: usize = head.offset;
        let ghost rest = bytes@.skip(at as int);
        proof {
            lemma_line_length(rest);
        }
        let n: usize = first_line(bytes, at);
        assert(at + n <= bytes.len());
        let line = slice_subrange(bytes, at, at + n);
        assert(line@ == rest.take(n as int));
        assert(rest.skip(n as int) == bytes@.skip(at + n));
        match head.take(line) {
            Ok(true) => {
                return Ok(head);
            },
            Ok(false) => {},
            Err(e) => {
                return Err(e);
            },
        }
    }
}

// ---------------------------------------------------------------------------
// Laws
// ---------------------------------------------------------------------------

/// What is fetched may be compressed; what is published may not, and is taken in where it says
/// nothing of its encoding or that it has none.
pub proof fn law_which_encodings_are_refused(headers: Seq<(Seq<char>, Seq<char>)>, suffix: Seq<char>)
    ensures
        suffix != "git-receive-pack"@ ==> encoding_refusal(suffix, headers) is None,
        encoding_refusal("git-receive-pack"@, headers) is None <==> match header_value(
            headers,
            "Content-Encoding"@,
        ) {
            Some(v) => v == "identity"@,
            None => true,
        },
{
}

/// Git's HTTP program runs exactly where nothing speaks against it: a fetch needs only to be
/// within the limit, and a push needs to be within it, not to be compressed, and to have commands
/// that are accepted.
pub proof fn law_what_is_handed_to_git(
    headers: Seq<(Seq<char>, Seq<char>)>,
    max_upload_mib: int,
    copied: int,
    fault: Option<Seq<char>>,
    suffix: Seq<char>,
)
    ensures
        suffix != "git-receive-pack"@ ==> (git_refusal(
            suffix,
            headers,
            max_upload_mib,
            copied,
            fault,
        ) is None <==> copied <= max_upload_mib * 1048576),
        git_refusal("git-receive-pack"@, headers, max_upload_mib, copied, fault) is None <==> copied
            <= max_upload_mib * 1048576 && fault is None && match header_value(
            headers,
            "Content-Encoding"@,
        ) {
            Some(v) => v == "identity"@,
            None => true,
        },
{
}

/// A part of a request's body is refused exactly where it would exceed the limit or, of what is
/// published, the quota or the reserve.
pub proof fn law_which_bodies_are_refused(body: GitBody, size: int, available: int)
    requires
        size > 0,
        body.max_upload_mib * 1048576 <= u64::MAX,
    ensures
        body.part_refusal(size, available) is None <==> {
            &&& body.copied + size <= body.max_upload_mib * 1048576
            &&& body.budget matches Some(b) ==> size <= b.remaining && available - size >= b.reserve
        },
{
}

/// What Git's HTTP program is told: which repository and which operation, who asks, and what the
/// request says of itself.
pub proof fn law_what_git_is_told(
    repos: Seq<char>,
    owner: Seq<char>,
    repo: RepositoryView,
    suffix: Seq<char>,
    query: Seq<char>,
    method: Seq<char>,
    headers: Seq<(Seq<char>, Seq<char>)>,
    copied: nat,
)
    ensures
        ({
            let told = cgi_environment(repos, owner, repo, suffix, query, method, headers, copied);
            &&& value_of(told, "GIT_PROJECT_ROOT"@) == Some(repos)
            &&& value_of(told, "PATH_INFO"@) == Some("/"@ + repo.id + ".git/"@ + suffix)
            &&& value_of(told, "QUERY_STRING"@) == Some(query)
            &&& value_of(told, "REQUEST_METHOD"@) == Some(method)
            &&& value_of(told, "REMOTE_USER"@) == Some(owner)
            &&& value_of(told, "CONTENT_LENGTH"@) == Some(decimal(copied))
            &&& header_value(headers, "Content-Type"@) is Some ==> value_of(
                told,
                "CONTENT_TYPE"@,
            ) == header_value(headers, "Content-Type"@)
            &&& header_value(headers, "Git-Protocol"@) is Some ==> value_of(
                told,
                "GIT_PROTOCOL"@,
            ) == header_value(headers, "Git-Protocol"@)
            &&& header_value(headers, "Content-Encoding"@) is Some ==> value_of(
                told,
                "HTTP_CONTENT_ENCODING"@,
            ) == header_value(headers, "Content-Encoding"@)
        }),
{
    reveal_strlit("GIT_PROJECT_ROOT");
    reveal_strlit("GIT_HTTP_EXPORT_ALL");
    reveal_strlit("PATH_INFO");
    reveal_strlit("QUERY_STRING");
    reveal_strlit("REQUEST_METHOD");
    reveal_strlit("CONTENT_TYPE");
    reveal_strlit("CONTENT_LENGTH");
    reveal_strlit("REMOTE_USER");
    reveal_strlit("GIT_PROTOCOL");
    reveal_strlit("HTTP_CONTENT_ENCODING");
    let told = cgi_environment(repos, owner, repo, suffix, query, method, headers, copied);
    assert(told[0].0.len() == 16);
    assert(told[1].0.len() == 19);
    assert(told[2].0.len() == 9);
    assert(told[3].0.len() == 12 && told[3].0[0] == 'Q');
    assert(told[4].0.len() == 14 && told[4].0[0] == 'R');
    assert(told[5].0.len() == 12 && told[5].0[0] == 'C');
    assert(told[6].0.len() == 14 && told[6].0[0] == 'C');
    assert(told[7].0.len() == 11);
    assert(told[8].0.len() == 12 && told[8].0[0] == 'G');
    assert(told[9].0.len() == 21);
    lemma_value_of(told, 0);
    lemma_value_of(told, 2);
    lemma_value_of(told, 3);
    lemma_value_of(told, 4);
    lemma_value_of(told, 5);
    lemma_value_of(told, 6);
    lemma_value_of(told, 7);
    lemma_value_of(told, 8);
    lemma_value_of(told, 9);
}

/// A line of a head is a header, parted at the first colon; one of the status sets it, and an
/// empty line ends the head.
pub proof fn law_lines_of_a_head(
    name: Seq<char>,
    value: Seq<char>,
    status: u16,
    headers: Seq<(Seq<char>, Seq<char>)>,
    code: nat,
    reason: Seq<char>,
)
    requires
        !name.contains(':'),
        code <= 65535,
    ensures
        trim_end(name.push(':') + value).len() > 0 && !same_folded(name, "Status"@) && is_ascii(name)
            && is_ascii(trim(value)) ==> head_line(name.push(':') + value, status, headers) == Ok::<
            Option<(u16, Seq<(Seq<char>, Seq<char>)>)>,
            CgiError,
        >(Some((status, headers.push((name, trim(value)))))),
        same_folded(name, "Status"@) && trim(value) == decimal(code) + " "@ + reason ==> head_line(
            name.push(':') + value,
            status,
            headers,
        ) == Ok::<Option<(u16, Seq<(Seq<char>, Seq<char>)>)>, CgiError>(
            Some((code as u16, headers)),
        ),
        head_line("\r\n"@, status, headers) == Ok::<
            Option<(u16, Seq<(Seq<char>, Seq<char>)>)>,
            CgiError,
        >(None),
{
    reveal_strlit("\r\n");
    reveal_strlit(" ");
    reveal_strlit("Status");
    let line = name.push(':') + value;
    law_first_separator_parts_a_text(name, ':', value);
    assert("\r\n"@.drop_last() =~= seq!['\r']);
    assert(seq!['\r'].drop_last() =~= Seq::<char>::empty());
    assert(trim_end(Seq::<char>::empty()) =~= Seq::<char>::empty());
    assert(trim_end(seq!['\r']) == trim_end(Seq::<char>::empty()));
    assert(trim_end("\r\n"@) == trim_end(seq!['\r']));
    let n = lemma_trim_end(line);
    if n <= name.len() {
        assert(is_white(line[name.len() as int]));
        assert(line[name.len() as int] == ':');
    }
    if trim(value) == decimal(code) + " "@ + reason {
        law_decimal_text(code);
        assert forall|i: int| 0 <= i < decimal(code).len() implies decimal(code)[i] != ' ' by {
            assert(is_digit(decimal(code)[i]));
        }
        assert(decimal(code) + " "@ + reason =~= decimal(code).push(' ') + reason);
        law_separator_parts_a_text(decimal(code), ' ', reason);
        law_text_without_separator_is_one_part(decimal(code), ' ');
        law_decimal_text_is_read_back(code, u16::MAX as nat);
        assert((seq![decimal(code)] + split_on(reason, ' '))[0] == decimal(code));
    }
}

/// A line of a head ends at its newline.
pub proof fn law_lines_end_at_their_newline(a: Seq<u8>, b: Seq<u8>)
    requires
        forall|i: int| 0 <= i < a.len() ==> a[i] != 10,
    ensures
        line_length(a.push(10) + b) == a.len() + 1,
        line_length(a) == a.len(),
    decreases a.len(),
{
    if a.len() > 0 {
        let rest = a.skip(1);
        assert forall|i: int| 0 <= i < rest.len() implies rest[i] != 10 by {
            assert(a[i + 1] != 10);
        }
        law_lines_end_at_their_newline(rest, b);
        assert((a.push(10) + b).skip(1) =~= rest.push(10) + b);
        assert(a[0] != 10);
    }
}

/// A head is read line by line up to the blank line, as long as it takes up no more than 16 KiB;
/// what stands behind the blank line is not looked at.
pub proof fn law_heads_are_read_line_by_line(
    line: Seq<u8>,
    text: Seq<char>,
    rest: Seq<u8>,
    used: nat,
    status: u16,
    headers: Seq<(Seq<char>, Seq<char>)>,
)
    requires
        forall|i: int| 0 <= i < line.len() ==> line[i] != 10,
        encode_utf8(text) == line.push(10),
    ensures
        ({
            let whole = head_scan(line.push(10) + rest, used, status, headers);
            let n = line.len() + 1;
            &&& used + n > 16384 ==> whole is Err
            &&& used + n <= 16384 ==> match head_line(text, status, headers) {
                Ok(None) => whole == Ok::<(u16, Seq<(Seq<char>, Seq<char>)>, nat), CgiError>(
                    (status, headers, used + n),
                ),
                Ok(Some((s, h))) => whole == head_scan(rest, used + n, s, h),
                Err(e) => whole == Err::<(u16, Seq<(Seq<char>, Seq<char>)>, nat), CgiError>(e),
            }
        }),
        head_scan(Seq::empty(), used, status, headers) is Err,
{
    let bytes = line.push(10) + rest;
    law_lines_end_at_their_newline(line, rest);
    vstd::utf8::encode_utf8_valid_utf8(text);
    vstd::utf8::encode_utf8_decode_utf8(text);
    assert(bytes.take(line.len() as int + 1) =~= line.push(10));
    assert(bytes.skip(line.len() as int + 1) =~= rest);
    let none = Seq::<u8>::empty();
    law_lines_end_at_their_newline(none, none);
    assert(none.take(0).len() == 0);
}

/// The body of a request begins with nothing copied, and within the limit of the hub.
pub proof fn law_how_a_body_begins(
    state: State,
    budget: Option<UploadBudget>,
    r: GitBody,
)
    requires
        call_ensures(GitBody::new, (&state, budget), r),
    ensures
        r.copied == 0,
        r.max_upload_mib == state.config.max_upload_mib,
        r.budget == budget,
{
}

} // verus!
