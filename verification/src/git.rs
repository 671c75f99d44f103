//! Rules for Git: how it is called, what a push may do, and what a saved snapshot must hold.
use crate::outside::pairs_of;
use crate::params::{lemma_value_of, value_of};
use crate::state::{Repository, State};
use crate::text::{append, contains_char, decimal, halves, is_digit, is_white, law_decimal_text,
    law_decimal_text_is_read_back, law_first_separator_parts_a_text,
    law_trimming_takes_white_space_off, lemma_encoded_len_bound, lemma_three_words, lemma_trim_line,
    lines, lists, number, parse_number, replace_char, replaced, same, split_lines, split_words,
    starts_with, texts, trim, trim_end, trimmed, trimmed_end, utf8, utf8_fault, utf8_len, words,
    NumberError};
use vstd::prelude::*;
use vstd::slice::slice_subrange;
use vstd::utf8::{decode_utf8, encode_utf8, valid_utf8};

verus! {

/// Why a Git operation was refused or failed.
#[derive(Debug)]
pub enum GitError {
    /// Git itself failed, with this message.
    Failed(String),
    NotUtf8,
    InvalidCommit,
    Number(NumberError),
    BlobTooLarge,
    IncompleteBlob,
    InvalidReference,
    NotSha1,
    Unpublished,
    PathExists,
    ViewContent,
    Markers,
    UnknownRuntime,
    Truncated,
    PacketPrefix,
    PacketLength,
    /// A part of a packet is not UTF-8, for this reason.
    PacketText(String),
    ShallowDeclaration,
    ShallowId,
    TooManyUpdates,
    NotAtomic,
    InvalidUpdate,
    Deleted,
    Namespace,
    TagMismatch,
    TagImmutable,
    NotFastForward,
    LineType,
    SessionIdentity,
    TooManyCommits,
}

impl GitError {
    /// The message of the failure.
    pub open spec fn text(self) -> Seq<char> {
        match self {
            GitError::Failed(message) => message@,
            GitError::NotUtf8 => "Git output is not UTF-8"@,
            GitError::InvalidCommit => "Invalid immutable commit"@,
            GitError::Number(e) => e.text(),
            GitError::BlobTooLarge => "Blob exceeds configured read limit"@,
            GitError::IncompleteBlob => "Incomplete or oversized Git blob"@,
            GitError::InvalidReference => "Invalid saved reference"@,
            GitError::NotSha1 => "Expected a SHA-1 commit"@,
            GitError::Unpublished => "Commit is not in published history"@,
            GitError::PathExists => "Repository identity path already exists"@,
            GitError::ViewContent => "VIEW references content absent from LOG"@,
            GitError::Markers => "VIEW has unmatched merge markers"@,
            GitError::UnknownRuntime => "Unknown envelope runtime"@,
            GitError::Truncated => "failed to fill whole buffer"@,
            GitError::PacketPrefix => "invalid digit found in string"@,
            GitError::PacketLength => "Invalid Git packet length"@,
            GitError::PacketText(reason) => reason@,
            GitError::ShallowDeclaration => "Invalid shallow declaration"@,
            GitError::ShallowId => "Invalid shallow object id"@,
            GitError::TooManyUpdates => "Too many ref updates"@,
            GitError::NotAtomic => "Multiple ref updates require git push --atomic"@,
            GitError::InvalidUpdate => "Invalid ref update"@,
            GitError::Deleted => "Published refs cannot be deleted"@,
            GitError::Namespace => "Unsupported ref namespace"@,
            GitError::TagMismatch => "Version tag must match its commit"@,
            GitError::TagImmutable => "Published version tags are immutable"@,
            GitError::NotFastForward => "Published branches must fast-forward"@,
            GitError::LineType => "Branch line type cannot change"@,
            GitError::SessionIdentity => "Branch session identity cannot change"@,
            GitError::TooManyCommits => "Push has too many new commits; upload smaller batches"@,
        }
    }

    /// Tells the message of the failure.
    pub fn message(&self) -> (r: String)
        ensures
            r@ == self.text(),
    {
        match self {
            GitError::Failed(message) => message.clone(),
            GitError::NotUtf8 => "Git output is not UTF-8".to_owned(),
            GitError::InvalidCommit => "Invalid immutable commit".to_owned(),
            GitError::Number(e) => e.message(),
            GitError::BlobTooLarge => "Blob exceeds configured read limit".to_owned(),
            GitError::IncompleteBlob => "Incomplete or oversized Git blob".to_owned(),
            GitError::InvalidReference => "Invalid saved reference".to_owned(),
            GitError::NotSha1 => "Expected a SHA-1 commit".to_owned(),
            GitError::Unpublished => "Commit is not in published history".to_owned(),
            GitError::PathExists => "Repository identity path already exists".to_owned(),
            GitError::ViewContent => "VIEW references content absent from LOG".to_owned(),
            GitError::Markers => "VIEW has unmatched merge markers".to_owned(),
            GitError::UnknownRuntime => "Unknown envelope runtime".to_owned(),
            GitError::Truncated => "failed to fill whole buffer".to_owned(),
            GitError::PacketPrefix => "invalid digit found in string".to_owned(),
            GitError::PacketLength => "Invalid Git packet length".to_owned(),
            GitError::PacketText(reason) => reason.clone(),
            GitError::ShallowDeclaration => "Invalid shallow declaration".to_owned(),
            GitError::ShallowId => "Invalid shallow object id".to_owned(),
            GitError::TooManyUpdates => "Too many ref updates".to_owned(),
            GitError::NotAtomic => "Multiple ref updates require git push --atomic".to_owned(),
            GitError::InvalidUpdate => "Invalid ref update".to_owned(),
            GitError::Deleted => "Published refs cannot be deleted".to_owned(),
            GitError::Namespace => "Unsupported ref namespace".to_owned(),
            GitError::TagMismatch => "Version tag must match its commit".to_owned(),
            GitError::TagImmutable => "Published version tags are immutable".to_owned(),
            GitError::NotFastForward => "Published branches must fast-forward".to_owned(),
            GitError::LineType => "Branch line type cannot change".to_owned(),
            GitError::SessionIdentity => "Branch session identity cannot change".to_owned(),
            GitError::TooManyCommits =>
                "Push has too many new commits; upload smaller batches".to_owned(),
        }
    }
}

// ---------------------------------------------------------------------------
// Calling Git
// ---------------------------------------------------------------------------

/// How a program is called.
pub struct Invocation {
    pub program: String,
    pub args: Vec<String>,
    pub env: Vec<(String, String)>,
}

/// A call of Git in a repository, which reads no system or user configuration, never prompts and
/// never fetches.
pub fn command(repo: &str, windows: bool) -> (r: Invocation)
    ensures
        r.program@ == "git"@,
        texts(r.args@) == seq!["-C"@, repo@],
        pairs_of(r.env@) == seq![
            ("GIT_CONFIG_NOSYSTEM"@, "1"@),
            (
                "GIT_CONFIG_GLOBAL"@,
                if windows {
                    "NUL"@
                } else {
                    "/dev/null"@
                },
            ),
            ("GIT_TERMINAL_PROMPT"@, "0"@),
            ("GIT_NO_LAZY_FETCH"@, "1"@),
        ],
{
    let nowhere = if windows {
        "NUL"
    } else {
        "/dev/null"
    };
    let args = vec!["-C".to_owned(), repo.to_owned()];
    let env = vec![
        ("GIT_CONFIG_NOSYSTEM".to_owned(), "1".to_owned()),
        ("GIT_CONFIG_GLOBAL".to_owned(), nowhere.to_owned()),
        ("GIT_TERMINAL_PROMPT".to_owned(), "0".to_owned()),
        ("GIT_NO_LAZY_FETCH".to_owned(), "1".to_owned()),
    ];
    assert(texts(args@) == seq!["-C"@, repo@]);
    assert(pairs_of(env@) == seq![
        ("GIT_CONFIG_NOSYSTEM"@, "1"@),
        ("GIT_CONFIG_GLOBAL"@, nowhere@),
        ("GIT_TERMINAL_PROMPT"@, "0"@),
        ("GIT_NO_LAZY_FETCH"@, "1"@),
    ]);
    Invocation { program: "git".to_owned(), args, env }
}

/// The text that a finished call of Git has printed. A call that failed is told by its first
/// argument and what it printed as errors.
pub fn output(args: &Vec<String>, success: bool, stdout: &[u8], stderr: &str) -> (r: Result<
    String,
    GitError,
>)
    ensures
        if !success {
            r matches Err(GitError::Failed(m)) && m@ == "Git "@ + (if args@.len() > 0 {
                args@[0]@
            } else {
                Seq::empty()
            }) + ": "@ + trim(stderr@)
        } else if valid_utf8(stdout@) {
            r is Ok && r->Ok_0@ == decode_utf8(stdout@)
        } else {
            r matches Err(GitError::NotUtf8)
        },
{
    if !success {
        let mut s = "Git ".to_owned();
        if args.len() > 0 {
            append(&mut s, args[0].as_str());
        }
        append(&mut s, ": ");
        append(&mut s, trimmed(stderr).as_str());
        return Err(GitError::Failed(s));
    }
    match utf8(stdout) {
        Ok(t) => Ok(t),
        Err(_) => Err(GitError::NotUtf8),
    }
}

/// How many bytes the file may have in which a snapshot tells of itself.
pub const META_LIMIT: usize = 1048576;

/// The name of a file of a commit. `is_event_id` tells whether the commit's name is one.
pub fn blob_name(oid: &str, is_event_id: bool, path: &str) -> (r: Result<String, GitError>)
    ensures
        match r {
            Ok(s) => is_event_id && s@ == oid@ + ":"@ + path@,
            Err(e) => !is_event_id && e is InvalidCommit,
        },
{
    if !is_event_id {
        return Err(GitError::InvalidCommit);
    }
    let mut s = oid.to_owned();
    append(&mut s, ":");
    append(&mut s, path);
    Ok(s)
}

/// The size of a file as Git prints it, or why it is refused.
pub open spec fn printed_size(printed: Seq<char>, limit: nat) -> Result<nat, GitError> {
    match number(trim(printed), usize::MAX as nat) {
        Err(e) => Err(GitError::Number(e)),
        Ok(n) => if n <= limit {
            Ok(n)
        } else {
            Err(GitError::BlobTooLarge)
        },
    }
}

/// The size of a file as Git prints it, if it is within a limit.
pub fn blob_size(printed: &str, limit: usize) -> (r: Result<usize, GitError>)
    ensures
        match printed_size(printed@, limit as nat) {
            Ok(n) => r is Ok && r->Ok_0 == n,
            Err(e) => r matches Err(x) && x == e,
        },
{
    let t = trimmed(printed);
    match parse_number(t.as_str(), usize::MAX as u64) {
        Err(e) => Err(GitError::Number(e)),
        Ok(n) => if n <= limit as u64 {
            Ok(n as usize)
        } else {
            Err(GitError::BlobTooLarge)
        },
    }
}

/// The bytes of a file that was read from Git: all of them, or none.
pub fn blob(bytes: Vec<u8>, size: usize, success: bool) -> (r: Result<Vec<u8>, GitError>)
    ensures
        match r {
            Ok(b) => success && b == bytes && b@.len() == size,
            Err(e) => e is IncompleteBlob && !(success && bytes@.len() == size),
        },
{
    if success && bytes.len() == size {
        Ok(bytes)
    } else {
        Err(GitError::IncompleteBlob)
    }
}

/// Whether a saved reference may be given to Git: it is short, cannot pass for an option and
/// stays on one line.
pub open spec fn is_reference(reference: Seq<char>) -> bool {
    &&& reference.len() > 0
    &&& encode_utf8(reference).len() <= 256
    &&& !"-"@.is_prefix_of(reference)
    &&& !reference.contains('\n')
    &&& !reference.contains('\r')
    &&& !reference.contains('\0')
}

/// How Git is asked for the commit of a saved reference.
pub fn resolve_args(reference: &str) -> (r: Result<Vec<String>, GitError>)
    ensures
        match r {
            Ok(args) => is_reference(reference@) && texts(args@) == seq![
                "rev-parse"@,
                "--verify"@,
                "--end-of-options"@,
                reference@ + "^{commit}"@,
            ],
            Err(e) => e is InvalidReference && !is_reference(reference@),
        },
{
    if reference.is_empty() || utf8_len(reference) > 256 || starts_with(reference, "-")
        || contains_char(reference, '\n') || contains_char(reference, '\r') || contains_char(
        reference,
        '\0',
    ) {
        return Err(GitError::InvalidReference);
    }
    let mut commit = reference.to_owned();
    append(&mut commit, "^{commit}");
    let args = vec![
        "rev-parse".to_owned(),
        "--verify".to_owned(),
        "--end-of-options".to_owned(),
        commit,
    ];
    assert(texts(args@) == seq![
        "rev-parse"@,
        "--verify"@,
        "--end-of-options"@,
        reference@ + "^{commit}"@,
    ]);
    Ok(args)
}

/// How Git is asked which published references hold a commit.
pub fn reachable_args(oid: &str) -> (r: Vec<String>)
    ensures
        texts(r@) == seq![
            "for-each-ref"@,
            "--contains"@,
            oid@,
            "--format=%(refname)"@,
            "refs/heads"@,
            "refs/tags"@,
        ],
{
    let args = vec![
        "for-each-ref".to_owned(),
        "--contains".to_owned(),
        oid.to_owned(),
        "--format=%(refname)".to_owned(),
        "refs/heads".to_owned(),
        "refs/tags".to_owned(),
    ];
    assert(texts(args@) == seq![
        "for-each-ref"@,
        "--contains"@,
        oid@,
        "--format=%(refname)"@,
        "refs/heads"@,
        "refs/tags"@,
    ]);
    args
}

/// The commit of a saved reference, or why it is refused.
pub open spec fn resolved(
    printed: Seq<char>,
    is_event_id: bool,
    reachable: Seq<char>,
) -> Result<Seq<char>, GitError> {
    if !is_event_id {
        Err(GitError::NotSha1)
    } else if trim(reachable).len() == 0 {
        Err(GitError::Unpublished)
    } else {
        Ok(trim(printed))
    }
}

/// The commit of a saved reference: Git prints its name, `is_event_id` tells whether the name is
/// one, and `reachable` lists the published references that hold it.
pub fn resolve(printed: &str, is_event_id: bool, reachable: &str) -> (r: Result<String, GitError>)
    ensures
        match resolved(printed@, is_event_id, reachable@) {
            Ok(commit) => r is Ok && r->Ok_0@ == commit,
            Err(e) => r matches Err(x) && x == e,
        },
{
    if !is_event_id {
        return Err(GitError::NotSha1);
    }
    if trimmed(reachable).as_str().is_empty() {
        return Err(GitError::Unpublished);
    }
    Ok(trimmed(printed))
}

// ---------------------------------------------------------------------------
// New repositories
// ---------------------------------------------------------------------------

/// A shell word for a path: in single quotes, with forward slashes.
pub open spec fn quoted(value: Seq<char>) -> Seq<char> {
    "'"@ + replace_char(replace_char(value, '\\', "/"@), '\'', "'\"'\"'"@) + "'"@
}

/// Quotes a path for the shell.
pub fn shell_quote(value: &str) -> (r: String)
    ensures
        r@ == quoted(value@),
{
    let slashes = replaced(value, '\\', "/");
    let quotes = replaced(slashes.as_str(), '\'', "'\"'\"'");
    let mut s = "'".to_owned();
    append(&mut s, quotes.as_str());
    append(&mut s, "'");
    s
}

/// Where a reader of a shell word stands.
pub enum Quoting {
    Bare,
    Single,
    Double,
    /// A character whose meaning depends on the shell has been read.
    Special,
}

/// What a shell has read of a word that consists of quoted parts alone, and where it stands.
pub open spec fn shell_scan(s: Seq<char>) -> (Quoting, Seq<char>)
    decreases s.len(),
{
    if s.len() == 0 {
        (Quoting::Bare, Seq::empty())
    } else {
        let (mode, word) = shell_scan(s.drop_last());
        let c = s.last();
        match mode {
            Quoting::Bare => if c == '\'' {
                (Quoting::Single, word)
            } else if c == '"' {
                (Quoting::Double, word)
            } else {
                (Quoting::Special, word)
            },
            Quoting::Single => if c == '\'' {
                (Quoting::Bare, word)
            } else {
                (Quoting::Single, word.push(c))
            },
            Quoting::Double => if c == '"' {
                (Quoting::Bare, word)
            } else if c == '$' || c == '`' || c == '\\' || c == '!' {
                (Quoting::Special, word)
            } else {
                (Quoting::Double, word.push(c))
            },
            Quoting::Special => (Quoting::Special, word),
        }
    }
}

proof fn lemma_shell_scan_quotes(v: Seq<char>)
    ensures
        shell_scan("'"@ + replace_char(v, '\'', "'\"'\"'"@)) == (Quoting::Single, v),
    decreases v.len(),
{
    reveal_strlit("'");
    reveal_strlit("'\"'\"'");
    let open = "'"@;
    let by = "'\"'\"'"@;
    if v.len() == 0 {
        assert(open + replace_char(v, '\'', by) == seq!['\'']);
        assert(seq!['\''].drop_last() == Seq::<char>::empty());
        reveal_with_fuel(shell_scan, 2);
    } else {
        let init = v.drop_last();
        lemma_shell_scan_quotes(init);
        let head = open + replace_char(init, '\'', by);
        if v.last() == '\'' {
            let a = head.push('\'');
            let b = a.push('"');
            let c = b.push('\'');
            let d = c.push('"');
            let e = d.push('\'');
            assert(open + replace_char(v, '\'', by) == e);
            assert(a.drop_last() == head);
            assert(b.drop_last() == a);
            assert(c.drop_last() == b);
            assert(d.drop_last() == c);
            assert(e.drop_last() == d);
            assert(shell_scan(a) == (Quoting::Bare, init));
            assert(shell_scan(b) == (Quoting::Double, init));
            assert(shell_scan(c) == (Quoting::Double, init.push('\'')));
            assert(shell_scan(d) == (Quoting::Bare, init.push('\'')));
            assert(shell_scan(e) == (Quoting::Single, init.push('\'')));
            assert(init.push('\'') == v);
        } else {
            let a = head.push(v.last());
            assert(open + replace_char(v, '\'', by) == a);
            assert(a.drop_last() == head);
            assert(init.push(v.last()) == v);
        }
    }
}

/// A shell reads a quoted path as one word: the path itself, with forward slashes.
pub proof fn law_shell_reads_the_path_back(value: Seq<char>)
    ensures
        shell_scan(quoted(value)) == (Quoting::Bare, replace_char(value, '\\', "/"@)),
{
    reveal_strlit("'");
    let v = replace_char(value, '\\', "/"@);
    lemma_shell_scan_quotes(v);
    let head = "'"@ + replace_char(v, '\'', "'\"'\"'"@);
    assert(quoted(value) == head.push('\''));
    assert(quoted(value).drop_last() == head);
}

/// How a repository is set up.
pub struct RepositorySetup {
    /// The path of the repository, relative to the data directory.
    pub path: String,
    pub init_args: Vec<String>,
    pub settings: Vec<(String, String)>,
    /// The path of the receive hook, relative to the repository.
    pub hook_path: String,
    pub hook: String,
}

/// The settings of a repository: pushes over HTTP, no deletion and no rewriting of references,
/// checked objects, atomic pushes and a log of updates.
pub open spec fn repository_settings() -> Seq<(Seq<char>, Seq<char>)> {
    seq![
        ("http.receivepack"@, "true"@),
        ("receive.denyNonFastForwards"@, "true"@),
        ("receive.denyDeletes"@, "true"@),
        ("receive.fsckObjects"@, "true"@),
        ("transfer.fsckObjects"@, "true"@),
        ("receive.advertiseAtomic"@, "true"@),
        ("core.logAllRefUpdates"@, "true"@),
    ]
}

/// The receive hook: it hands the push to this program.
pub open spec fn hook_text(executable: Seq<char>, root: Seq<char>) -> Seq<char> {
    "#!/bin/sh\nexec "@ + quoted(executable) + " --data "@ + quoted(root) + " validate-receive\n"@
}

fn setting(key: &str) -> (r: (String, String))
    ensures
        r.0@ == key@,
        r.1@ == "true"@,
{
    (key.to_owned(), "true".to_owned())
}

/// Plans the set-up of a repository. `exists` tells whether its path is taken.
pub fn initialize(state: &State, repo: &Repository, executable: &str, exists: bool) -> (r: Result<
    RepositorySetup,
    GitError,
>)
    ensures
        match r {
            Ok(s) => {
                &&& !exists
                &&& s.path@ == "repos/"@ + repo.id@ + ".git"@
                &&& texts(s.init_args@) == seq!["init"@, "--bare"@, "--initial-branch=main"@]
                &&& pairs_of(s.settings@) == repository_settings()
                &&& s.hook_path@ == "hooks/pre-receive"@
                &&& s.hook@ == hook_text(executable@, state.root@)
            },
            Err(e) => exists && e is PathExists,
        },
{
    if exists {
        return Err(GitError::PathExists);
    }
    let init_args = vec![
        "init".to_owned(),
        "--bare".to_owned(),
        "--initial-branch=main".to_owned(),
    ];
    let settings = vec![
        setting("http.receivepack"),
        setting("receive.denyNonFastForwards"),
        setting("receive.denyDeletes"),
        setting("receive.fsckObjects"),
        setting("transfer.fsckObjects"),
        setting("receive.advertiseAtomic"),
        setting("core.logAllRefUpdates"),
    ];
    let mut hook = "#!/bin/sh\nexec ".to_owned();
    append(&mut hook, shell_quote(executable).as_str());
    append(&mut hook, " --data ");
    append(&mut hook, shell_quote(state.root.as_str()).as_str());
    append(&mut hook, " validate-receive\n");
    assert(texts(init_args@) == seq!["init"@, "--bare"@, "--initial-branch=main"@]);
    assert(pairs_of(settings@) == repository_settings());
    Ok(
        RepositorySetup {
            path: state.repo_path(repo),
            init_args,
            settings,
            hook_path: "hooks/pre-receive".to_owned(),
            hook,
        },
    )
}

// ---------------------------------------------------------------------------
// Push commands
// ---------------------------------------------------------------------------

/// The largest length of a Git packet, its four-digit prefix counted.
pub const MAX_PACKET: usize = 65520;

/// How many references one push may update, and how many shallow commits it may declare.
pub const MAX_UPDATES: usize = 1024;

/// The value of a hexadecimal digit.
pub open spec fn hex_value(b: u8) -> Option<nat> {
    if 48 <= b <= 57 {
        Some((b - 48) as nat)
    } else if 97 <= b <= 102 {
        Some((b - 87) as nat)
    } else if 65 <= b <= 70 {
        Some((b - 55) as nat)
    } else {
        None
    }
}

fn hex_digit_value(b: u8) -> (r: Option<usize>)
    ensures
        match hex_value(b) {
            Some(v) => r is Some && r->0 == v && v < 16,
            None => r is None,
        },
{
    if 48 <= b && b <= 57 {
        Some((b - 48) as usize)
    } else if 97 <= b && b <= 102 {
        Some((b - 87) as usize)
    } else if 65 <= b && b <= 70 {
        Some((b - 55) as usize)
    } else {
        None
    }
}

/// The number that hexadecimal digits write; `None` where one of them is no digit.
pub open spec fn hex_number(digits: Seq<u8>) -> Option<nat>
    decreases digits.len(),
{
    if digits.len() == 0 {
        Some(0)
    } else {
        match (hex_number(digits.drop_last()), hex_value(digits.last())) {
            (Some(n), Some(v)) => Some(n * 16 + v),
            _ => None,
        }
    }
}

/// The length that a packet's prefix of four bytes gives: a hexadecimal number, which a plus sign
/// may precede.
pub open spec fn packet_length(prefix: Seq<u8>) -> Option<nat> {
    if prefix[0] == 43 {
        hex_number(prefix.skip(1))
    } else {
        hex_number(prefix)
    }
}

/// Reads the length of a packet from its prefix.
pub fn read_packet_length(prefix: &[u8]) -> (r: Option<usize>)
    requires
        prefix@.len() == 4,
    ensures
        match packet_length(prefix@) {
            Some(n) => r is Some && r->0 == n,
            None => r is None,
        },
{
    let from: usize = if prefix[0] == 43 {
        1
    } else {
        0
    };
    let ghost digits = prefix@.skip(from as int);
    assert(prefix@.skip(0) == prefix@);
    let mut n: usize = 0;
    let mut i: usize = from;
    while i < 4
        invariant
            from <= i <= 4,
            from <= 1,
            prefix@.len() == 4,
            digits == prefix@.skip(from as int),
            packet_length(prefix@) == hex_number(digits),
            hex_number(digits.take(i - from)) == Some(n as nat),
            i == 0 ==> n == 0,
            i == 1 ==> n < 16,
            i == 2 ==> n < 256,
            i == 3 ==> n < 4096,
        decreases 4 - i,
    {
        assert(digits.take(i - from + 1).drop_last() == digits.take(i - from));
        match hex_digit_value(prefix[i]) {
            Some(v) => {
                n = n * 16 + v;
                i = i + 1;
            },
            None => {
                proof {
                    lemma_hex_number_prefix(digits, i - from + 1);
                }
                return None;
            },
        }
    }
    assert(digits.take(4 - from) == digits);
    Some(n)
}

proof fn lemma_hex_number_prefix(digits: Seq<u8>, n: int)
    requires
        0 <= n <= digits.len(),
        hex_number(digits.take(n)) is None,
    ensures
        hex_number(digits) is None,
    decreases digits.len(),
{
    if n == digits.len() {
        assert(digits.take(n) == digits);
    } else {
        assert(digits.drop_last().take(n) == digits.take(n));
        lemma_hex_number_prefix(digits.drop_last(), n);
    }
}

/// The bytes that begin a shallow declaration.
pub open spec fn shallow_mark() -> Seq<u8> {
    seq![115u8, 104, 97, 108, 108, 111, 119, 32]
}

/// What has been read of a push.
pub struct PushProgress {
    /// The reference updates.
    pub count: nat,
    /// The commits declared shallow.
    pub shallow: Seq<Seq<char>>,
    /// Whether the updates are to be made together.
    pub atomic: bool,
}

/// The text behind the first NUL of a packet, as bytes.
pub open spec fn capabilities(packet: Seq<u8>) -> Option<Seq<u8>>
    decreases packet.len(),
{
    if packet.len() == 0 {
        None
    } else if packet[0] == 0 {
        Some(packet.skip(1))
    } else {
        capabilities(packet.skip(1))
    }
}

/// What is wrong with the commands of a push.
pub enum PushFault {
    /// A rule is broken.
    Rule(GitError),
    /// These bytes are not UTF-8.
    NotUtf8(Seq<u8>),
}

impl PushFault {
    /// Whether an error tells of the fault.
    pub open spec fn told_by(self, e: GitError) -> bool {
        match self {
            PushFault::Rule(rule) => e == rule,
            PushFault::NotUtf8(bytes) => e matches GitError::PacketText(reason) && reason@
                == utf8_fault(bytes),
        }
    }
}

/// Whether an error is there exactly where there is a fault, and tells of it.
pub open spec fn tells(e: Option<GitError>, fault: Option<PushFault>) -> bool {
    match fault {
        Some(f) => e is Some && f.told_by(e->0),
        None => e is None,
    }
}

/// What is wrong with a packet's prefix that gives no length.
pub open spec fn prefix_fault(prefix: Seq<u8>) -> PushFault {
    if valid_utf8(prefix) {
        PushFault::Rule(GitError::PacketPrefix)
    } else {
        PushFault::NotUtf8(prefix)
    }
}

fn prefix_error(prefix: &[u8]) -> (r: GitError)
    ensures
        prefix_fault(prefix@).told_by(r),
{
    match utf8(prefix) {
        Ok(_) => GitError::PacketPrefix,
        Err(reason) => GitError::PacketText(reason),
    }
}

/// What one packet of a push does to what has been read, or why it is refused.
pub open spec fn push_packet(p: PushProgress, packet: Seq<u8>) -> Result<PushProgress, PushFault> {
    if shallow_mark().is_prefix_of(packet) {
        if p.count != 0 || p.shallow.len() + 1 > MAX_UPDATES {
            Err(PushFault::Rule(GitError::ShallowDeclaration))
        } else if !valid_utf8(packet.skip(8)) {
            Err(PushFault::NotUtf8(packet.skip(8)))
        } else {
            Ok(
                PushProgress {
                    shallow: p.shallow.push(trim_end(decode_utf8(packet.skip(8)))),
                    ..p
                },
            )
        }
    } else if p.count + 1 > MAX_UPDATES {
        Err(PushFault::Rule(GitError::TooManyUpdates))
    } else {
        let counted = PushProgress { count: p.count + 1, ..p };
        match capabilities(packet) {
            Some(c) => if p.count != 0 {
                Ok(counted)
            } else if !valid_utf8(c) {
                Err(PushFault::NotUtf8(c))
            } else {
                Ok(PushProgress { atomic: words(decode_utf8(c)).contains("atomic"@), ..counted })
            },
            None => Ok(counted),
        }
    }
}

/// The commits that a push declares shallow, as far as it can be read, and why it is refused.
pub open spec fn push_scan(p: PushProgress, input: Seq<u8>) -> (Seq<Seq<char>>, Option<PushFault>)
    decreases input.len(),
{
    if input.len() < 4 {
        (p.shallow, Some(PushFault::Rule(GitError::Truncated)))
    } else {
        match packet_length(input.take(4)) {
            None => (p.shallow, Some(prefix_fault(input.take(4)))),
            Some(n) => if n == 0 {
                if p.count <= 1 || p.atomic {
                    (p.shallow, None)
                } else {
                    (p.shallow, Some(PushFault::Rule(GitError::NotAtomic)))
                }
            } else if n < 4 || n > MAX_PACKET {
                (p.shallow, Some(PushFault::Rule(GitError::PacketLength)))
            } else if input.len() < n {
                (p.shallow, Some(PushFault::Rule(GitError::Truncated)))
            } else {
                match push_packet(p, input.subrange(4, n as int)) {
                    Err(e) => (p.shallow, Some(e)),
                    Ok(q) => push_scan(q, input.skip(n as int)),
                }
            },
        }
    }
}

/// A push of which nothing has been read.
pub open spec fn push_start() -> PushProgress {
    PushProgress { count: 0, shallow: Seq::empty(), atomic: false }
}

/// The commits that a push declares shallow.
pub open spec fn declared_shallow(input: Seq<u8>) -> Seq<Seq<char>> {
    push_scan(push_start(), input).0
}

/// Why the commands of a push are refused. A name that is no commit's is found while the commands
/// are read, so it comes before whatever is wrong behind it.
pub open spec fn push_fault(input: Seq<u8>, is_event_id: Seq<bool>) -> Option<PushFault> {
    if is_event_id.contains(false) {
        Some(PushFault::Rule(GitError::ShallowId))
    } else {
        push_scan(push_start(), input).1
    }
}

struct PushReading {
    count: usize,
    shallow: Vec<String>,
    atomic: bool,
}

impl PushReading {
    spec fn progress(self) -> PushProgress {
        PushProgress {
            count: self.count as nat,
            shallow: texts(self.shallow@),
            atomic: self.atomic,
        }
    }

    fn packet(&mut self, packet: &[u8]) -> (r: Result<(), GitError>)
        requires
            old(self).count <= MAX_UPDATES,
            old(self).shallow@.len() <= MAX_UPDATES,
        ensures
            match push_packet(old(self).progress(), packet@) {
                Ok(p) => r is Ok && final(self).progress() == p,
                Err(f) => r is Err && f.told_by(r->Err_0) && final(self).progress() == old(
                    self,
                ).progress(),
            },
            final(self).count <= MAX_UPDATES,
            final(self).shallow@.len() <= MAX_UPDATES,
    {
        if begins_shallow(packet) {
            if self.count != 0 || self.shallow.len() + 1 > MAX_UPDATES {
                return Err(GitError::ShallowDeclaration);
            }
            let rest = slice_subrange(packet, 8, packet.len());
            assert(rest@ == packet@.skip(8));
            match utf8(rest) {
                Err(reason) => Err(GitError::PacketText(reason)),
                Ok(t) => {
                    let ghost before = self.shallow@;
                    self.shallow.push(trimmed_end(t.as_str()));
                    assert(texts(self.shallow@) == texts(before).push(
                        trim_end(decode_utf8(packet@.skip(8))),
                    ));
                    Ok(())
                },
            }
        } else if self.count + 1 > MAX_UPDATES {
            Err(GitError::TooManyUpdates)
        } else {
            match after_nul(packet) {
                Some(rest) => if self.count != 0 {
                    self.count = self.count + 1;
                    Ok(())
                } else {
                    match utf8(rest) {
                        Err(reason) => Err(GitError::PacketText(reason)),
                        Ok(t) => {
                            self.count = self.count + 1;
                            self.atomic = has_word(t.as_str(), "atomic");
                            Ok(())
                        },
                    }
                },
                None => {
                    self.count = self.count + 1;
                    Ok(())
                },
            }
        }
    }
}

fn begins_shallow(packet: &[u8]) -> (r: bool)
    ensures
        r == shallow_mark().is_prefix_of(packet@),
{
    packet.len() >= 8 && packet[0] == 115 && packet[1] == 104 && packet[2] == 97 && packet[3] == 108
        && packet[4] == 108 && packet[5] == 111 && packet[6] == 119 && packet[7] == 32
}

fn after_nul(packet: &[u8]) -> (r: Option<&[u8]>)
    ensures
        match capabilities(packet@) {
            Some(c) => r is Some && r->0@ == c,
            None => r is None,
        },
{
    let mut i: usize = 0;
    assert(packet@.skip(0) == packet@);
    while i < packet.len()
        invariant
            i <= packet@.len(),
            capabilities(packet@) == capabilities(packet@.skip(i as int)),
        decreases packet@.len() - i,
    {
        assert(packet@.skip(i as int).skip(1) == packet@.skip(i as int + 1));
        if packet[i] == 0 {
            return Some(slice_subrange(packet, i + 1, packet.len()));
        }
        i = i + 1;
    }
    None
}

fn has_word(text: &str, word: &str) -> (r: bool)
    ensures
        r == words(text@).contains(word@),
{
    let all = split_words(text);
    lists(&all, word)
}

fn read_push(input: &[u8]) -> (r: (Vec<String>, Option<GitError>))
    ensures
        texts(r.0@) == push_scan(push_start(), input@).0,
        tells(r.1, push_scan(push_start(), input@).1),
{
    let mut reading = PushReading { count: 0, shallow: Vec::new(), atomic: false };
    let mut at: usize = 0;
    assert(reading.progress().shallow == push_start().shallow);
    assert(input@.skip(0) == input@);
    loop
        invariant
            at <= input@.len(),
            reading.count <= MAX_UPDATES,
            reading.shallow@.len() <= MAX_UPDATES,
            push_scan(push_start(), input@) == push_scan(
                reading.progress(),
                input@.skip(at as int),
            ),
        decreases input@.len() - at,
    {
        let ghost rest = input@.skip(at as int);
        if input.len() - at < 4 {
            return (reading.shallow, Some(GitError::Truncated));
        }
        let prefix = slice_subrange(input, at, at + 4);
        assert(prefix@ == rest.take(4));
        let n: usize = match read_packet_length(prefix) {
            None => {
                return (reading.shallow, Some(prefix_error(prefix)));
            },
            Some(n) => n,
        };
        if n == 0 {
            if reading.count <= 1 || reading.atomic {
                return (reading.shallow, None);
            }
            return (reading.shallow, Some(GitError::NotAtomic));
        }
        if n < 4 || n > MAX_PACKET {
            return (reading.shallow, Some(GitError::PacketLength));
        }
        if input.len() - at < n {
            return (reading.shallow, Some(GitError::Truncated));
        }
        let packet = slice_subrange(input, at + 4, at + n);
        assert(packet@ == rest.subrange(4, n as int));
        match reading.packet(packet) {
            Err(e) => {
                return (reading.shallow, Some(e));
            },
            Ok(_) => {},
        }
        assert(rest.skip(n as int) == input@.skip(at + n));
        at = at + n;
    }
}

/// The commits that a push declares shallow, as far as its commands can be read.
pub fn shallow_commits(input: &[u8]) -> (r: Vec<String>)
    ensures
        texts(r@) == declared_shallow(input@),
{
    let (shallow, _) = read_push(input);
    shallow
}

/// Checks the commands of a push: a push of several references must either update every
/// reference or update none. `is_event_id` tells of each commit declared shallow whether its name
/// is one.
pub fn validate_push_commands(input: &[u8], is_event_id: &Vec<bool>) -> (r: Result<(), GitError>)
    requires
        is_event_id@.len() == declared_shallow(input@).len(),
    ensures
        match push_fault(input@, is_event_id@) {
            None => r is Ok,
            Some(f) => r is Err && f.told_by(r->Err_0),
        },
{
    let (_, fault) = read_push(input);
    let mut i: usize = 0;
    while i < is_event_id.len()
        invariant
            i <= is_event_id@.len(),
            forall|j: int| 0 <= j < i ==> is_event_id@[j],
        decreases is_event_id@.len() - i,
    {
        if !is_event_id[i] {
            assert(is_event_id@[i as int] == false);
            return Err(GitError::ShallowId);
        }
        i = i + 1;
    }
    match fault {
        None => Ok(()),
        Some(e) => Err(e),
    }
}

/// What has been read of a push when its commands end; `None` where it is refused before.
pub open spec fn push_end(p: PushProgress, input: Seq<u8>) -> Option<PushProgress>
    decreases input.len(),
{
    if input.len() < 4 {
        None
    } else {
        match packet_length(input.take(4)) {
            None => None,
            Some(n) => if n == 0 {
                Some(p)
            } else if n < 4 || n > MAX_PACKET || input.len() < n {
                None
            } else {
                match push_packet(p, input.subrange(4, n as int)) {
                    Err(_) => None,
                    Ok(q) => push_end(q, input.skip(n as int)),
                }
            },
        }
    }
}

proof fn lemma_push_end(p: PushProgress, input: Seq<u8>)
    requires
        p.count <= MAX_UPDATES,
        push_scan(p, input).1 is None,
    ensures
        push_end(p, input) matches Some(q) && q.count <= MAX_UPDATES && (q.count <= 1 || q.atomic)
            && q.shallow == push_scan(p, input).0,
    decreases input.len(),
{
    let n = packet_length(input.take(4))->0;
    if n != 0 {
        let q = push_packet(p, input.subrange(4, n as int))->Ok_0;
        lemma_push_end(q, input.skip(n as int));
    }
}

/// An accepted push updates at most one reference, or asks for all its updates to be made
/// together; and every commit that it declares shallow has a commit's name.
pub proof fn law_accepted_push_is_atomic(input: Seq<u8>, is_event_id: Seq<bool>)
    requires
        is_event_id.len() == declared_shallow(input).len(),
        push_fault(input, is_event_id) is None,
    ensures
        push_end(push_start(), input) matches Some(q) && q.count <= MAX_UPDATES && (q.count <= 1
            || q.atomic),
        forall|i: int| 0 <= i < declared_shallow(input).len() ==> is_event_id[i],
{
    lemma_push_end(push_start(), input);
    assert forall|i: int| 0 <= i < declared_shallow(input).len() implies is_event_id[i] by {
        if !is_event_id[i] {
            assert(is_event_id[i] == false);
        }
    }
}

// ---------------------------------------------------------------------------
// Push commands in parts
// ---------------------------------------------------------------------------

/// What is needed to go on with reading the commands of a push.
pub enum PushNeed {
    /// As many bytes; fewer only where the push ends before.
    Bytes(usize),
    /// Whether the name of a commit declared shallow is one.
    Verdict(String),
    /// Nothing: the commands are accepted.
    End,
}

/// Where the reading of the commands of a push stands.
pub enum PushStage {
    /// Before the prefix of a packet.
    Prefix,
    /// Behind the prefix of a packet that has as many bytes more.
    Packet(nat),
    /// Behind a packet that declares a commit shallow.
    Verdict,
    /// Behind the last packet.
    End,
}

/// How far the commands of a push have been read.
pub struct PushCourse {
    pub progress: PushProgress,
    pub stage: PushStage,
}

/// Nothing of the commands has been read.
pub open spec fn course_start() -> PushCourse {
    PushCourse { progress: push_start(), stage: PushStage::Prefix }
}

/// How many bytes the next part has, where one is awaited.
pub open spec fn part_size(stage: PushStage) -> nat {
    match stage {
        PushStage::Prefix => 4,
        PushStage::Packet(n) => n,
        _ => 0,
    }
}

/// Whether the next part of a push is awaited.
pub open spec fn awaits_part(stage: PushStage) -> bool {
    stage is Prefix || stage is Packet
}

/// What the next part of a push leads to.
pub open spec fn fed(c: PushCourse, part: Seq<u8>) -> Result<PushCourse, PushFault> {
    if part.len() < part_size(c.stage) {
        Err(PushFault::Rule(GitError::Truncated))
    } else if c.stage is Prefix {
        match packet_length(part) {
            None => Err(prefix_fault(part)),
            Some(n) => if n == 0 {
                if c.progress.count <= 1 || c.progress.atomic {
                    Ok(PushCourse { stage: PushStage::End, ..c })
                } else {
                    Err(PushFault::Rule(GitError::NotAtomic))
                }
            } else if n < 4 || n > MAX_PACKET {
                Err(PushFault::Rule(GitError::PacketLength))
            } else {
                Ok(PushCourse { stage: PushStage::Packet((n - 4) as nat), ..c })
            },
        }
    } else {
        match push_packet(c.progress, part) {
            Err(f) => Err(f),
            Ok(q) => Ok(
                PushCourse {
                    progress: q,
                    stage: if q.shallow.len() > c.progress.shallow.len() {
                        PushStage::Verdict
                    } else {
                        PushStage::Prefix
                    },
                },
            ),
        }
    }
}

/// What the verdict on a name leads to.
pub open spec fn judged(c: PushCourse, is_event_id: bool) -> Result<PushCourse, PushFault> {
    if is_event_id {
        Ok(PushCourse { stage: PushStage::Prefix, ..c })
    } else {
        Err(PushFault::Rule(GitError::ShallowId))
    }
}

/// Whether a need is what a course needs.
pub open spec fn needed(c: PushCourse, need: PushNeed) -> bool {
    match c.stage {
        PushStage::Prefix => need matches PushNeed::Bytes(n) && n == 4,
        PushStage::Packet(m) => need matches PushNeed::Bytes(n) && n == m,
        PushStage::Verdict => need matches PushNeed::Verdict(name) && name@
            == c.progress.shallow.last(),
        PushStage::End => need is End,
    }
}

/// The commands of a push while they are read in parts.
pub struct PushCommands {
    reading: PushReading,
    need: PushNeed,
    behind_prefix: bool,
}

impl PushCommands {
    /// How far the commands have been read.
    pub closed spec fn course(self) -> PushCourse {
        PushCourse {
            progress: self.reading.progress(),
            stage: match self.need {
                PushNeed::Bytes(n) => if self.behind_prefix {
                    PushStage::Packet(n as nat)
                } else {
                    PushStage::Prefix
                },
                PushNeed::Verdict(_) => PushStage::Verdict,
                PushNeed::End => PushStage::End,
            },
        }
    }

    /// The need that is kept is what the course needs, and no limit is passed.
    pub closed spec fn wf(self) -> bool {
        &&& self.reading.count <= MAX_UPDATES
        &&& self.reading.shallow@.len() <= MAX_UPDATES
        &&& needed(self.course(), self.need)
    }

    /// Starts to read the commands of a push.
    pub fn start() -> (r: Self)
        ensures
            r.wf(),
            r.course() == course_start(),
    {
        let reading = PushReading { count: 0, shallow: Vec::new(), atomic: false };
        assert(reading.progress().shallow == push_start().shallow);
        PushCommands { reading, need: PushNeed::Bytes(4), behind_prefix: false }
    }

    /// Tells what is needed next.
    pub fn next(&self) -> (r: PushNeed)
        requires
            self.wf(),
        ensures
            needed(self.course(), r),
    {
        match &self.need {
            PushNeed::Bytes(n) => PushNeed::Bytes(*n),
            PushNeed::Verdict(name) => PushNeed::Verdict(name.clone()),
            PushNeed::End => PushNeed::End,
        }
    }

    /// Takes the next part, or tells what is wrong with the push.
    pub fn take(&mut self, part: &[u8]) -> (r: Result<(), GitError>)
        requires
            old(self).wf(),
            awaits_part(old(self).course().stage),
            part@.len() <= part_size(old(self).course().stage),
        ensures
            final(self).wf(),
            match fed(old(self).course(), part@) {
                Ok(c) => r is Ok && final(self).course() == c,
                Err(f) => r is Err && f.told_by(r->Err_0) && final(self).course() == old(
                    self,
                ).course(),
            },
    {
        let size: usize = match &self.need {
            PushNeed::Bytes(n) => *n,
            _ => 0,
        };
        if part.len() < size {
            return Err(GitError::Truncated);
        }
        if self.behind_prefix {
            let before: usize = self.reading.shallow.len();
            match self.reading.packet(part) {
                Err(e) => {
                    return Err(e);
                },
                Ok(_) => {},
            }
            self.behind_prefix = false;
            self.need = if self.reading.shallow.len() > before {
                assert(self.reading.progress().shallow.last()
                    == self.reading.shallow@[self.reading.shallow@.len() - 1]@);
                PushNeed::Verdict(self.reading.shallow[self.reading.shallow.len() - 1].clone())
            } else {
                PushNeed::Bytes(4)
            };
            return Ok(());
        }
        let n: usize = match read_packet_length(part) {
            None => {
                return Err(prefix_error(part));
            },
            Some(n) => n,
        };
        if n == 0 {
            if !(self.reading.count <= 1 || self.reading.atomic) {
                return Err(GitError::NotAtomic);
            }
            self.need = PushNeed::End;
            return Ok(());
        }
        if n < 4 || n > MAX_PACKET {
            return Err(GitError::PacketLength);
        }
        self.behind_prefix = true;
        self.need = PushNeed::Bytes(n - 4);
        Ok(())
    }

    /// Takes the verdict on the name that was asked for.
    pub fn judge(&mut self, is_event_id: bool) -> (r: Result<(), GitError>)
        requires
            old(self).wf(),
            old(self).course().stage is Verdict,
        ensures
            final(self).wf(),
            match judged(old(self).course(), is_event_id) {
                Ok(c) => r is Ok && final(self).course() == c,
                Err(f) => r is Err && f.told_by(r->Err_0) && final(self).course() == old(
                    self,
                ).course(),
            },
    {
        if !is_event_id {
            return Err(GitError::ShallowId);
        }
        self.need = PushNeed::Bytes(4);
        self.behind_prefix = false;
        Ok(())
    }
}

/// What reading the commands of a push in parts comes to: each part has as many bytes as are
/// needed, or is what is left of the input. `is_event_id` are the verdicts on the names, in order.
pub open spec fn read_in_parts(c: PushCourse, input: Seq<u8>, is_event_id: Seq<bool>) -> Option<
    PushFault,
>
    decreases
            input.len(),
            if c.stage is Packet {
                2int
            } else if c.stage is Verdict {
                1
            } else {
                0
            },
{
    if c.stage is End {
        None
    } else if c.stage is Verdict {
        match judged(c, is_event_id[0]) {
            Err(f) => Some(f),
            Ok(d) => read_in_parts(d, input, is_event_id.skip(1)),
        }
    } else {
        let size = if input.len() < part_size(c.stage) {
            input.len()
        } else {
            part_size(c.stage)
        };
        match fed(c, input.take(size as int)) {
            Err(f) => Some(f),
            Ok(d) => read_in_parts(d, input.skip(size as int), is_event_id),
        }
    }
}

proof fn lemma_scan_keeps_shallow(p: PushProgress, input: Seq<u8>)
    ensures
        p.shallow.len() <= push_scan(p, input).0.len(),
    decreases input.len(),
{
    if input.len() >= 4 {
        match packet_length(input.take(4)) {
            Some(n) => {
                if 4 <= n <= MAX_PACKET && n <= input.len() {
                    match push_packet(p, input.subrange(4, n as int)) {
                        Ok(q) => {
                            lemma_scan_keeps_shallow(q, input.skip(n as int));
                        },
                        Err(_) => {},
                    }
                }
            },
            None => {},
        }
    }
}

proof fn lemma_read_in_parts(p: PushProgress, input: Seq<u8>, is_event_id: Seq<bool>)
    requires
        p.shallow.len() + is_event_id.len() == push_scan(p, input).0.len(),
    ensures
        read_in_parts(PushCourse { progress: p, stage: PushStage::Prefix }, input, is_event_id)
            == if is_event_id.contains(false) {
            Some(PushFault::Rule(GitError::ShallowId))
        } else {
            push_scan(p, input).1
        },
    decreases input.len(),
{
    let c = PushCourse { progress: p, stage: PushStage::Prefix };
    if input.len() < 4 {
        assert(input.take(input.len() as int) == input);
    } else if packet_length(input.take(4)) is Some {
        let n = packet_length(input.take(4))->0;
        if n == 0 {
            let end = PushCourse { progress: p, stage: PushStage::End };
            assert(read_in_parts(end, input.skip(4), is_event_id) is None);
        } else if 4 <= n <= MAX_PACKET {
            let behind = PushCourse { progress: p, stage: PushStage::Packet((n - 4) as nat) };
            let rest = input.skip(4);
            assert(fed(c, input.take(4)) == Ok::<PushCourse, PushFault>(behind));
            assert(read_in_parts(c, input, is_event_id) == read_in_parts(
                behind,
                rest,
                is_event_id,
            ));
            if n <= input.len() {
                assert(rest.take(n - 4) == input.subrange(4, n as int));
                assert(rest.skip(n - 4) == input.skip(n as int));
                match push_packet(p, input.subrange(4, n as int)) {
                    Ok(q) => {
                        lemma_scan_keeps_shallow(q, input.skip(n as int));
                        if q.shallow.len() > p.shallow.len() {
                            let others = is_event_id.skip(1);
                            let asked = PushCourse { progress: q, stage: PushStage::Verdict };
                            assert(read_in_parts(behind, rest, is_event_id) == read_in_parts(
                                asked,
                                input.skip(n as int),
                                is_event_id,
                            ));
                            assert(is_event_id.contains(false) == (!is_event_id[0]
                                || others.contains(false))) by {
                                if !is_event_id[0] {
                                    assert(is_event_id[0] == false);
                                }
                                if others.contains(false) {
                                    let k = choose|k: int|
                                        0 <= k < others.len() && others[k] == false;
                                    assert(is_event_id[k + 1] == false);
                                }
                                if is_event_id.contains(false) && is_event_id[0] {
                                    let k = choose|k: int|
                                        0 <= k < is_event_id.len() && is_event_id[k] == false;
                                    assert(others[k - 1] == false);
                                }
                            }
                            lemma_read_in_parts(q, input.skip(n as int), others);
                        } else {
                            lemma_read_in_parts(q, input.skip(n as int), is_event_id);
                        }
                    },
                    Err(_) => {},
                }
            } else {
                assert(rest.take(rest.len() as int) == rest);
            }
        }
    }
}

/// Reading the commands of a push in parts comes to the same as checking them at once.
pub proof fn law_parts_are_checked_as_a_whole(input: Seq<u8>, is_event_id: Seq<bool>)
    requires
        is_event_id.len() == declared_shallow(input).len(),
    ensures
        read_in_parts(course_start(), input, is_event_id) == push_fault(input, is_event_id),
{
    lemma_read_in_parts(push_start(), input, is_event_id);
}

// ---------------------------------------------------------------------------
// Received references
// ---------------------------------------------------------------------------

/// The update of one reference.
pub struct RefUpdate {
    pub before: String,
    pub after: String,
    pub name: String,
}

/// The update of one reference, seen through its characters.
#[verifier::ext_equal]
pub struct RefUpdateView {
    pub before: Seq<char>,
    pub after: Seq<char>,
    pub name: Seq<char>,
}

impl View for RefUpdate {
    type V = RefUpdateView;

    open spec fn view(&self) -> RefUpdateView {
        RefUpdateView { before: self.before@, after: self.after@, name: self.name@ }
    }
}

/// The name that stands for no commit.
pub open spec fn no_commit() -> Seq<char> {
    "0000000000000000000000000000000000000000"@
}

fn is_no_commit(name: &str) -> (r: bool)
    ensures
        r == (name@ == no_commit()),
{
    same(name, "0000000000000000000000000000000000000000")
}

/// The update that a line of the receive hook's input writes. The two flags tell whether its
/// first and its second word are the names of commits.
pub open spec fn update_of(line: Seq<char>, is_event_id: (bool, bool)) -> Option<RefUpdateView> {
    let w = words(line);
    if w.len() == 3 && is_event_id.0 && is_event_id.1 {
        Some(RefUpdateView { before: w[0], after: w[1], name: w[2] })
    } else {
        None
    }
}

/// The updates of the receive hook's input; `None` where a line is no update.
pub open spec fn updates_of(lines: Seq<Seq<char>>, is_event_id: Seq<(bool, bool)>) -> Option<
    Seq<RefUpdateView>,
>
    decreases lines.len(),
{
    if lines.len() == 0 {
        Some(Seq::empty())
    } else {
        let k = lines.len() - 1;
        match (updates_of(lines.drop_last(), is_event_id), update_of(lines[k], is_event_id[k])) {
            (Some(u), Some(last)) => Some(u.push(last)),
            _ => None,
        }
    }
}

/// The updates, seen through their characters.
pub open spec fn update_views(v: Seq<RefUpdate>) -> Seq<RefUpdateView> {
    Seq::new(v.len(), |i: int| v[i]@)
}

proof fn lemma_updates_prefix(lines: Seq<Seq<char>>, is_event_id: Seq<(bool, bool)>, n: int)
    requires
        0 <= n <= lines.len(),
        updates_of(lines.take(n), is_event_id) is None,
    ensures
        updates_of(lines, is_event_id) is None,
    decreases lines.len(),
{
    if n == lines.len() {
        assert(lines.take(n) == lines);
    } else {
        assert(lines.drop_last().take(n) == lines.take(n));
        lemma_updates_prefix(lines.drop_last(), is_event_id, n);
    }
}

/// The lines of the receive hook's input that are read: one more than it may have.
pub open spec fn read_lines(lines: Seq<Seq<char>>) -> Seq<Seq<char>> {
    if lines.len() <= MAX_UPDATES + 1 {
        lines
    } else {
        lines.take(MAX_UPDATES + 1)
    }
}

/// Reads the receive hook's input. `is_event_id` tells of each line whether its first and its
/// second word are the names of commits.
pub fn receive_updates(lines: &Vec<String>, is_event_id: &Vec<(bool, bool)>) -> (r: Result<
    Vec<RefUpdate>,
    GitError,
>)
    requires
        is_event_id@.len() == lines@.len(),
    ensures
        match updates_of(read_lines(texts(lines@)), is_event_id@) {
            None => r matches Err(GitError::InvalidUpdate),
            Some(u) => if u.len() <= MAX_UPDATES {
                r is Ok && update_views(r->Ok_0@) == u
            } else {
                r matches Err(GitError::TooManyUpdates)
            },
        },
{
    let ghost all = read_lines(texts(lines@));
    let mut updates: Vec<RefUpdate> = Vec::new();
    let mut i: usize = 0;
    assert(update_views(updates@) == Seq::<RefUpdateView>::empty());
    while i < lines.len() && i < MAX_UPDATES + 1
        invariant
            i <= lines@.len(),
            i <= MAX_UPDATES + 1,
            is_event_id@.len() == lines@.len(),
            all == read_lines(texts(lines@)),
            updates@.len() == i,
            updates_of(all.take(i as int), is_event_id@) == Some(update_views(updates@)),
        decreases lines@.len() - i,
    {
        let ghost w = words(lines@[i as int]@);
        let parts = split_words(lines[i].as_str());
        assert(all.take(i + 1).drop_last() == all.take(i as int));
        assert(all.take(i + 1)[i as int] == lines@[i as int]@);
        assert(texts(parts@) == w);
        if parts.len() != 3 || !is_event_id[i].0 || !is_event_id[i].1 {
            proof {
                lemma_updates_prefix(all, is_event_id@, i + 1);
            }
            return Err(GitError::InvalidUpdate);
        }
        assert(texts(parts@)[0] == parts@[0]@);
        assert(texts(parts@)[1] == parts@[1]@);
        assert(texts(parts@)[2] == parts@[2]@);
        let update = RefUpdate {
            before: parts[0].clone(),
            after: parts[1].clone(),
            name: parts[2].clone(),
        };
        let ghost before = updates@;
        updates.push(update);
        assert(update_views(updates@) == update_views(before).push(updates@.last()@));
        i = i + 1;
    }
    assert(all.take(i as int) == all);
    if updates.len() <= MAX_UPDATES {
        Ok(updates)
    } else {
        Err(GitError::TooManyUpdates)
    }
}

/// Why an update is refused before its commit is looked at: saved references are never deleted,
/// and there are branches and tags alone.
pub open spec fn name_refusal(u: RefUpdateView) -> Option<GitError> {
    if u.after == no_commit() {
        Some(GitError::Deleted)
    } else if !"refs/heads/"@.is_prefix_of(u.name) && !"refs/tags/"@.is_prefix_of(u.name) {
        Some(GitError::Namespace)
    } else {
        None
    }
}

/// Checks what an update asks for.
pub fn check_update(update: &RefUpdate) -> (r: Result<(), GitError>)
    ensures
        match name_refusal(update@) {
            None => r is Ok,
            Some(e) => r matches Err(x) && x == e,
        },
{
    if is_no_commit(update.after.as_str()) {
        return Err(GitError::Deleted);
    }
    if !starts_with(update.name.as_str(), "refs/heads/") && !starts_with(
        update.name.as_str(),
        "refs/tags/",
    ) {
        return Err(GitError::Namespace);
    }
    Ok(())
}

/// What a snapshot says of itself: the type of its line, and its session.
pub struct SnapshotMeta {
    pub line: String,
    pub session: String,
}

/// How many new commits one update may bring.
pub const MAX_NEW_COMMITS: usize = 10000;

/// Why the update of a tag is refused. A version tag carries the name of its commit, and no tag
/// changes once it is published.
pub open spec fn tag_refusal(u: RefUpdateView, commit: Seq<char>) -> Option<GitError> {
    if "refs/tags/agit-"@.is_prefix_of(u.name) && u.name != "refs/tags/agit-"@ + commit {
        Some(GitError::TagMismatch)
    } else if u.before != no_commit() && u.before != u.after {
        Some(GitError::TagImmutable)
    } else {
        None
    }
}

/// Why the update of a branch is refused. `ancestor` is what the branch's last snapshot says of
/// itself, where the new commit descends from it.
pub open spec fn branch_refusal(
    u: RefUpdateView,
    current: SnapshotMeta,
    ancestor: Option<SnapshotMeta>,
) -> Option<GitError> {
    if u.before == no_commit() {
        None
    } else {
        match ancestor {
            None => Some(GitError::NotFastForward),
            Some(previous) => if previous.line@ != current.line@ {
                Some(GitError::LineType)
            } else if previous.session@.len() != 0 && previous.session@ != current.session@ {
                Some(GitError::SessionIdentity)
            } else {
                None
            },
        }
    }
}

/// Why an update is refused, once its commit has been looked at.
pub open spec fn update_refusal(
    u: RefUpdateView,
    commit: Seq<char>,
    current: SnapshotMeta,
    ancestor: Option<SnapshotMeta>,
) -> Option<GitError> {
    if "refs/tags/"@.is_prefix_of(u.name) {
        tag_refusal(u, commit)
    } else {
        branch_refusal(u, current, ancestor)
    }
}

/// Checks the update of a reference to a commit. `current` is what the new snapshot says of
/// itself; `ancestor` is what the last one says, where the new commit descends from it.
pub fn validate_receive(
    update: &RefUpdate,
    commit: &str,
    current: &SnapshotMeta,
    ancestor: &Option<SnapshotMeta>,
) -> (r: Result<(), GitError>)
    ensures
        match update_refusal(update@, commit@, *current, *ancestor) {
            None => r is Ok,
            Some(e) => r matches Err(x) && x == e,
        },
{
    if starts_with(update.name.as_str(), "refs/tags/") {
        if starts_with(update.name.as_str(), "refs/tags/agit-") {
            let mut expected = "refs/tags/agit-".to_owned();
            append(&mut expected, commit);
            if !same(update.name.as_str(), expected.as_str()) {
                return Err(GitError::TagMismatch);
            }
        }
        if !is_no_commit(update.before.as_str()) && !same(
            update.before.as_str(),
            update.after.as_str(),
        ) {
            return Err(GitError::TagImmutable);
        }
        return Ok(());
    }
    if is_no_commit(update.before.as_str()) {
        return Ok(());
    }
    match ancestor {
        None => Err(GitError::NotFastForward),
        Some(previous) => {
            if !same(previous.line.as_str(), current.line.as_str()) {
                return Err(GitError::LineType);
            }
            if !previous.session.as_str().is_empty() && !same(
                previous.session.as_str(),
                current.session.as_str(),
            ) {
                return Err(GitError::SessionIdentity);
            }
            Ok(())
        },
    }
}

/// The commits that an update brings, as Git lists them, if they are not too many.
pub fn new_commits(listing: &str) -> (r: Result<Vec<String>, GitError>)
    ensures
        if lines(listing@).len() <= MAX_NEW_COMMITS {
            r is Ok && texts(r->Ok_0@) == lines(listing@)
        } else {
            r matches Err(GitError::TooManyCommits)
        },
{
    let all = split_lines(listing);
    assert(texts(all@).len() == all@.len());
    if all.len() <= MAX_NEW_COMMITS {
        Ok(all)
    } else {
        Err(GitError::TooManyCommits)
    }
}

/// A published reference is never deleted. A published tag keeps its commit. A published branch
/// moves to descendants only, and keeps its type of line and its session.
pub proof fn law_published_references_stay(
    u: RefUpdateView,
    commit: Seq<char>,
    current: SnapshotMeta,
    ancestor: Option<SnapshotMeta>,
)
    requires
        u.before != no_commit(),
        name_refusal(u) is None,
        update_refusal(u, commit, current, ancestor) is None,
    ensures
        u.after != no_commit(),
        "refs/tags/"@.is_prefix_of(u.name) ==> u.after == u.before,
        "refs/heads/"@.is_prefix_of(u.name) ==> {
            &&& ancestor is Some
            &&& ancestor->0.line@ == current.line@
            &&& ancestor->0.session@.len() == 0 || ancestor->0.session@ == current.session@
        },
{
    reveal_strlit("refs/heads/");
    reveal_strlit("refs/tags/");
    if "refs/heads/"@.is_prefix_of(u.name) && "refs/tags/"@.is_prefix_of(u.name) {
        assert(u.name[5] == "refs/heads/"@[5]);
        assert(u.name[5] == "refs/tags/"@[5]);
    }
}

/// A version tag that is accepted carries the name of its commit.
pub proof fn law_version_tag_names_its_commit(
    u: RefUpdateView,
    commit: Seq<char>,
    current: SnapshotMeta,
    ancestor: Option<SnapshotMeta>,
)
    requires
        "refs/tags/agit-"@.is_prefix_of(u.name),
        update_refusal(u, commit, current, ancestor) is None,
    ensures
        u.name == "refs/tags/agit-"@ + commit,
{
    reveal_strlit("refs/tags/agit-");
    reveal_strlit("refs/tags/");
    assert("refs/tags/"@.is_prefix_of(u.name)) by {
        assert forall|i: int| 0 <= i < 10 implies "refs/tags/"@[i] == u.name[i] by {
            assert(u.name.take(15)[i] == "refs/tags/agit-"@[i]);
        }
        assert(u.name.take(10) == "refs/tags/"@);
    }
}

// ---------------------------------------------------------------------------
// Snapshots
// ---------------------------------------------------------------------------

/// Why a snapshot is refused, given the names of the events in its LOG and its VIEW, how many
/// merge markers of the VIEW have no partner, and of each envelope whether its runtime is known.
pub open spec fn snapshot_fault(
    log: Seq<Seq<char>>,
    view: Seq<Seq<char>>,
    unmatched: nat,
    known: Seq<bool>,
) -> Option<GitError> {
    if exists|i: int| 0 <= i < view.len() && !log.contains(#[trigger] view[i]) {
        Some(GitError::ViewContent)
    } else if unmatched != 0 {
        Some(GitError::Markers)
    } else if known.contains(false) {
        Some(GitError::UnknownRuntime)
    } else {
        None
    }
}

/// Checks a snapshot that holds a session.
pub fn validate_snapshot(
    log: &Vec<String>,
    view: &Vec<String>,
    unmatched: usize,
    known: &Vec<bool>,
) -> (r: Result<(), GitError>)
    ensures
        match snapshot_fault(texts(log@), texts(view@), unmatched as nat, known@) {
            None => r is Ok,
            Some(e) => r matches Err(x) && x == e,
        },
{
    let mut i: usize = 0;
    while i < view.len()
        invariant
            i <= view@.len(),
            forall|j: int| 0 <= j < i ==> texts(log@).contains(#[trigger] texts(view@)[j]),
        decreases view@.len() - i,
    {
        assert(texts(view@)[i as int] == view@[i as int]@);
        if !lists(log, view[i].as_str()) {
            return Err(GitError::ViewContent);
        }
        i = i + 1;
    }
    if unmatched != 0 {
        return Err(GitError::Markers);
    }
    let mut k: usize = 0;
    while k < known.len()
        invariant
            k <= known@.len(),
            unmatched == 0,
            forall|j: int|
                0 <= j < texts(view@).len() ==> texts(log@).contains(#[trigger] texts(view@)[j]),
            forall|j: int| 0 <= j < k ==> known@[j],
        decreases known@.len() - k,
    {
        if !known[k] {
            assert(known@[k as int] == false);
            return Err(GitError::UnknownRuntime);
        }
        k = k + 1;
    }
    Ok(())
}

/// The file of a snapshot that may be an LFS pointer, from a row that Git lists: a blob whose
/// size is within the limit of pointers.
pub open spec fn pointer_candidate(row: Seq<char>, limit: nat) -> Result<
    Option<Seq<char>>,
    NumberError,
> {
    let w = words(row);
    if w.len() != 3 || w[0] != "blob"@ {
        Ok(None)
    } else {
        match number(w[2], usize::MAX as nat) {
            Err(e) => Err(e),
            Ok(n) => Ok(
                if n > limit {
                    None
                } else {
                    Some(w[1])
                },
            ),
        }
    }
}

/// Reads a row of a snapshot's files: the name of a file that may be an LFS pointer.
pub fn validate_lfs(row: &str, limit: usize) -> (r: Result<Option<String>, GitError>)
    ensures
        match pointer_candidate(row@, limit as nat) {
            Err(e) => r matches Err(GitError::Number(x)) && x == e,
            Ok(name) => r is Ok && crate::outside::optional(r->Ok_0) == name,
        },
{
    let parts = split_words(row);
    assert(texts(parts@) == words(row@));
    if parts.len() != 3 {
        return Ok(None);
    }
    assert(texts(parts@)[0] == parts@[0]@);
    assert(texts(parts@)[1] == parts@[1]@);
    assert(texts(parts@)[2] == parts@[2]@);
    if !same(parts[0].as_str(), "blob") {
        return Ok(None);
    }
    match parse_number(parts[2].as_str(), usize::MAX as u64) {
        Err(e) => Err(GitError::Number(e)),
        Ok(n) => if n > limit as u64 {
            Ok(None)
        } else {
            Ok(Some(parts[1].clone()))
        },
    }
}

/// What has been checked while a push is received: commits by their names, LFS objects by their
/// names and sizes.
pub struct Checked {
    pub commits: Vec<String>,
    pub objects: Vec<(String, u64)>,
}

impl Checked {
    /// The commits that have been checked.
    pub open spec fn commit_names(self) -> Set<Seq<char>> {
        texts(self.commits@).to_set()
    }

    /// The LFS objects that have been checked, by their names and sizes.
    pub open spec fn object_names(self) -> Seq<(Seq<char>, u64)> {
        Seq::new(self.objects@.len(), |i: int| (self.objects@[i].0@, self.objects@[i].1))
    }

    /// Whether an LFS object has been checked.
    pub open spec fn holds(self, oid: Seq<char>, size: u64) -> bool {
        self.object_names().contains((oid, size))
    }

    /// Nothing has been checked.
    pub fn new() -> (r: Self)
        ensures
            r.commit_names() == Set::<Seq<char>>::empty(),
            r.object_names() == Seq::<(Seq<char>, u64)>::empty(),
    {
        let r = Checked { commits: Vec::new(), objects: Vec::new() };
        assert(r.commit_names() =~= Set::<Seq<char>>::empty());
        r
    }

    /// Takes a commit; tells whether it is new.
    pub fn insert_commit(&mut self, name: &str) -> (r: bool)
        ensures
            r == !old(self).commit_names().contains(name@),
            final(self).commit_names() == old(self).commit_names().insert(name@),
            final(self).objects == old(self).objects,
    {
        let ghost before = self.commits@;
        if lists(&self.commits, name) {
            assert(self.commit_names() =~= old(self).commit_names().insert(name@));
            return false;
        }
        self.commits.push(name.to_owned());
        assert(texts(self.commits@) == texts(before).push(name@));
        assert(self.commit_names() =~= old(self).commit_names().insert(name@)) by {
            broadcast use vstd::seq_lib::group_seq_properties;

        }
        true
    }

    /// Tells whether an LFS object has been checked.
    pub fn has_object(&self, oid: &str, size: u64) -> (r: bool)
        ensures
            r == self.holds(oid@, size),
    {
        let mut i: usize = 0;
        while i < self.objects.len()
            invariant
                i <= self.objects@.len(),
                forall|j: int|
                    0 <= j < i ==> !((#[trigger] self.objects@[j]).0@ == oid@ && self.objects@[j].1
                        == size),
            decreases self.objects@.len() - i,
        {
            if self.objects[i].1 == size && same(self.objects[i].0.as_str(), oid) {
                assert(self.object_names()[i as int] == (oid@, size));
                return true;
            }
            i = i + 1;
        }
        false
    }

    /// Takes an LFS object that has been checked.
    pub fn insert_object(&mut self, oid: String, size: u64)
        ensures
            final(self).commits == old(self).commits,
            final(self).object_names() == old(self).object_names().push((oid@, size)),
    {
        self.objects.push((oid, size));
    }
}

// ---------------------------------------------------------------------------
// LFS objects of a snapshot
// ---------------------------------------------------------------------------

/// What has to be done next to check the LFS objects of a snapshot.
pub enum LfsTask {
    /// Read the file with this name: it may be an LFS pointer.
    Inspect(String),
    /// Verify the stored object with this name and size.
    Verify { oid: String, size: u64 },
    /// Nothing: every object is there.
    Done,
}

/// What is awaited while the LFS objects of a snapshot are checked.
pub enum LfsStage {
    /// What the file with this name holds.
    Inspect(Seq<char>),
    /// That the object with this name and size is there.
    Verify(Seq<char>, u64),
    Done,
}

/// How far the LFS objects of a snapshot have been checked.
pub struct LfsCourse {
    /// The rows that are left.
    pub left: Seq<Seq<char>>,
    pub stage: LfsStage,
    /// The objects that have been found to be there.
    pub objects: Seq<(Seq<char>, u64)>,
    /// The pointers that have been read.
    pub found: Seq<(Seq<char>, u64)>,
}

/// Turns to the next row of a file that may be an LFS pointer.
pub open spec fn next_pointer(c: LfsCourse, limit: nat) -> Result<LfsCourse, NumberError>
    decreases c.left.len(),
{
    if c.left.len() == 0 {
        Ok(LfsCourse { stage: LfsStage::Done, ..c })
    } else {
        let rest = LfsCourse { left: c.left.skip(1), ..c };
        match pointer_candidate(c.left[0], limit) {
            Err(e) => Err(e),
            Ok(None) => next_pointer(rest, limit),
            Ok(Some(name)) => Ok(LfsCourse { stage: LfsStage::Inspect(name), ..rest }),
        }
    }
}

/// What the reading of a file leads to: an object is verified unless it has been already.
pub open spec fn inspected(
    c: LfsCourse,
    pointer: Option<(Seq<char>, u64)>,
    limit: nat,
) -> Result<LfsCourse, NumberError> {
    match pointer {
        None => next_pointer(c, limit),
        Some(p) => {
            let d = LfsCourse { found: c.found.push(p), ..c };
            if c.objects.contains(p) {
                next_pointer(d, limit)
            } else {
                Ok(LfsCourse { stage: LfsStage::Verify(p.0, p.1), ..d })
            }
        },
    }
}

/// What the verification of an object leads to.
pub open spec fn verified(c: LfsCourse, limit: nat) -> Result<LfsCourse, NumberError> {
    match c.stage {
        LfsStage::Verify(oid, size) => next_pointer(
            LfsCourse { objects: c.objects.push((oid, size)), ..c },
            limit,
        ),
        _ => Ok(c),
    }
}

/// Whether a task is what is awaited.
pub open spec fn lfs_task(stage: LfsStage, task: LfsTask) -> bool {
    match stage {
        LfsStage::Inspect(name) => task matches LfsTask::Inspect(s) && s@ == name,
        LfsStage::Verify(oid, size) => task matches LfsTask::Verify { oid: o, size: n } && o@ == oid
            && n == size,
        LfsStage::Done => task is Done,
    }
}

/// Whether every pointer that has been read is one of an object that is there, save the one whose
/// object is being verified.
pub open spec fn all_there(c: LfsCourse) -> bool {
    forall|i: int|
        0 <= i < c.found.len() ==> c.objects.contains(#[trigger] c.found[i]) || c.stage
            == LfsStage::Verify(c.found[i].0, c.found[i].1)
}

proof fn lemma_next_pointer(c: LfsCourse, limit: nat)
    requires
        forall|i: int| 0 <= i < c.found.len() ==> c.objects.contains(#[trigger] c.found[i]),
    ensures
        next_pointer(c, limit) matches Ok(d) ==> all_there(d) && d.found == c.found && d.objects
            == c.objects,
    decreases c.left.len(),
{
    if c.left.len() > 0 && pointer_candidate(c.left[0], limit) == Ok::<
        Option<Seq<char>>,
        NumberError,
    >(None) {
        lemma_next_pointer(LfsCourse { left: c.left.skip(1), ..c }, limit);
    }
}

/// The check of the LFS objects of a snapshot.
pub struct LfsPass {
    rows: Vec<String>,
    at: usize,
    limit: usize,
    task: LfsTask,
    checked: Checked,
    found: Ghost<Seq<(Seq<char>, u64)>>,
}

impl LfsPass {
    /// How far the check has come.
    pub closed spec fn course(self) -> LfsCourse {
        LfsCourse {
            left: texts(self.rows@).skip(self.at as int),
            stage: match self.task {
                LfsTask::Inspect(name) => LfsStage::Inspect(name@),
                LfsTask::Verify { oid, size } => LfsStage::Verify(oid@, size),
                LfsTask::Done => LfsStage::Done,
            },
            objects: self.checked.object_names(),
            found: self.found@,
        }
    }

    /// How large a pointer may be.
    pub closed spec fn pointer_limit(self) -> nat {
        self.limit as nat
    }

    /// The commits that have been checked.
    pub closed spec fn commit_names(self) -> Set<Seq<char>> {
        self.checked.commit_names()
    }

    /// Every pointer that has been read is one of an object that is there.
    pub closed spec fn wf(self) -> bool {
        &&& self.at <= self.rows@.len()
        &&& all_there(self.course())
    }

    /// Starts the check with the rows of a snapshot's files and what has been checked before.
    pub fn start(tree: &str, limit: usize, checked: Checked) -> (r: Result<Self, GitError>)
        ensures
            ({
                let c = LfsCourse {
                    left: lines(tree@),
                    stage: LfsStage::Done,
                    objects: checked.object_names(),
                    found: Seq::empty(),
                };
                match next_pointer(c, limit as nat) {
                    Ok(d) => {
                        &&& r is Ok
                        &&& r->Ok_0.wf()
                        &&& r->Ok_0.course() == d
                        &&& r->Ok_0.pointer_limit() == limit
                        &&& r->Ok_0.commit_names() == checked.commit_names()
                    },
                    Err(e) => r matches Err(GitError::Number(x)) && x == e,
                }
            }),
    {
        let rows = split_lines(tree);
        let mut pass = LfsPass {
            rows,
            at: 0,
            limit,
            task: LfsTask::Done,
            checked,
            found: Ghost(Seq::empty()),
        };
        assert(texts(pass.rows@).skip(0) == lines(tree@));
        match pass.advance() {
            Ok(_) => Ok(pass),
            Err(e) => Err(e),
        }
    }

    fn advance(&mut self) -> (r: Result<(), GitError>)
        requires
            old(self).at <= old(self).rows@.len(),
            forall|i: int|
                0 <= i < old(self).found@.len() ==> old(self).course().objects.contains(
                    #[trigger] old(self).found@[i],
                ),
        ensures
            match next_pointer(old(self).course(), old(self).pointer_limit()) {
                Ok(d) => {
                    &&& r is Ok
                    &&& final(self).wf()
                    &&& final(self).course() == d
                    &&& final(self).pointer_limit() == old(self).pointer_limit()
                    &&& final(self).commit_names() == old(self).commit_names()
                },
                Err(e) => r matches Err(GitError::Number(x)) && x == e,
            },
    {
        let ghost start = self.course();
        let ghost limit = self.limit as nat;
        proof {
            lemma_next_pointer(start, limit);
        }
        while self.at < self.rows.len()
            invariant
                self.at <= self.rows@.len(),
                self.limit == limit,
                limit == old(self).pointer_limit(),
                start == old(self).course(),
                self.checked == old(self).checked,
                self.found == old(self).found,
                self.course().stage == start.stage,
                next_pointer(start, limit) == next_pointer(self.course(), limit),
                next_pointer(start, limit) matches Ok(d) ==> all_there(d),
            decreases self.rows@.len() - self.at,
        {
            let ghost here = self.course();
            let i: usize = self.at;
            assert(here.left[0] == self.rows@[i as int]@);
            assert(here.left.skip(1) == texts(self.rows@).skip(i + 1));
            match validate_lfs(self.rows[i].as_str(), self.limit) {
                Err(e) => {
                    return Err(e);
                },
                Ok(Some(name)) => {
                    self.at = i + 1;
                    self.task = LfsTask::Inspect(name);
                    return Ok(());
                },
                Ok(None) => {},
            }
            self.at = i + 1;
        }
        self.task = LfsTask::Done;
        Ok(())
    }

    /// Tells what has to be done next.
    pub fn next(&self) -> (r: LfsTask)
        ensures
            lfs_task(self.course().stage, r),
    {
        match &self.task {
            LfsTask::Inspect(name) => LfsTask::Inspect(name.clone()),
            LfsTask::Verify { oid, size } => LfsTask::Verify { oid: oid.clone(), size: *size },
            LfsTask::Done => LfsTask::Done,
        }
    }

    /// Takes what a file holds: the name and the size of an object where it is an LFS pointer.
    pub fn inspect(&mut self, pointer: Option<(String, u64)>) -> (r: Result<(), GitError>)
        requires
            old(self).wf(),
            old(self).course().stage is Inspect,
        ensures
            match inspected(old(self).course(), pointer_view(pointer), old(self).pointer_limit()) {
                Ok(d) => {
                    &&& r is Ok
                    &&& final(self).wf()
                    &&& final(self).course() == d
                    &&& final(self).pointer_limit() == old(self).pointer_limit()
                    &&& final(self).commit_names() == old(self).commit_names()
                },
                Err(e) => r matches Err(GitError::Number(x)) && x == e,
            },
    {
        match pointer {
            None => self.advance(),
            Some((oid, size)) => {
                let ghost one = (oid@, size);
                let ghost past = self.found@;
                self.found = Ghost(past.push(one));
                if self.checked.has_object(oid.as_str(), size) {
                    self.advance()
                } else {
                    self.task = LfsTask::Verify { oid, size };
                    Ok(())
                }
            },
        }
    }

    /// Notes that the object is there.
    pub fn verify(&mut self) -> (r: Result<(), GitError>)
        requires
            old(self).wf(),
            old(self).course().stage is Verify,
        ensures
            match verified(old(self).course(), old(self).pointer_limit()) {
                Ok(d) => {
                    &&& r is Ok
                    &&& final(self).wf()
                    &&& final(self).course() == d
                    &&& final(self).pointer_limit() == old(self).pointer_limit()
                    &&& final(self).commit_names() == old(self).commit_names()
                },
                Err(e) => r matches Err(GitError::Number(x)) && x == e,
            },
    {
        let ghost before = self.course();
        match &self.task {
            LfsTask::Verify { oid, size } => {
                let oid = oid.clone();
                let size: u64 = *size;
                let ghost one = (oid@, size);
                self.checked.insert_object(oid, size);
                assert forall|i: int| 0 <= i < self.found@.len() implies self.course().objects.contains(
                    #[trigger] self.found@[i],
                ) by {
                    let f = before.found[i];
                    let now = self.course().objects;
                    if before.objects.contains(f) {
                        let k = choose|k: int|
                            0 <= k < before.objects.len() && before.objects[k] == f;
                        assert(now[k] == f);
                    } else {
                        assert(now[now.len() - 1] == f);
                    }
                }
            },
            _ => {},
        }
        self.advance()
    }

    /// Ends the check: every pointer that was read is one of an object that is there.
    pub fn finish(self) -> (r: Checked)
        requires
            self.wf(),
            self.course().stage is Done,
        ensures
            r.object_names() == self.course().objects,
            r.commit_names() == self.commit_names(),
            forall|i: int|
                0 <= i < self.course().found.len() ==> r.holds(
                    (#[trigger] self.course().found[i]).0,
                    self.course().found[i].1,
                ),
    {
        assert forall|i: int| 0 <= i < self.course().found.len() implies self.checked.holds(
            (#[trigger] self.course().found[i]).0,
            self.course().found[i].1,
        ) by {
            assert(self.course().objects.contains(self.course().found[i]));
        }
        self.checked
    }
}

/// The name and the size of an object, seen through the name's characters.
pub open spec fn pointer_view(pointer: Option<(String, u64)>) -> Option<(Seq<char>, u64)> {
    match pointer {
        Some(p) => Some((p.0@, p.1)),
        None => None,
    }
}

// ---------------------------------------------------------------------------
// Laws of pushes
// ---------------------------------------------------------------------------

/// The hexadecimal digit of a number below sixteen, in lower case.
pub open spec fn hex_byte(n: nat) -> u8 {
    if n < 10 {
        (48 + n) as u8
    } else {
        (87 + n) as u8
    }
}

/// The packet with a content: its length in four hexadecimal digits, these counted, and the
/// content.
pub open spec fn packet(content: Seq<u8>) -> Seq<u8> {
    let n = content.len() + 4;
    seq![hex_byte(n / 4096), hex_byte(n / 256 % 16), hex_byte(n / 16 % 16), hex_byte(n % 16)]
        + content
}

/// The packets with contents, one after another.
pub open spec fn packets(contents: Seq<Seq<u8>>) -> Seq<u8>
    decreases contents.len(),
{
    if contents.len() == 0 {
        Seq::empty()
    } else {
        packet(contents[0]) + packets(contents.skip(1))
    }
}

/// The contents of the packets that declare commits shallow.
pub open spec fn shallow_contents(names: Seq<Seq<char>>) -> Seq<Seq<u8>> {
    Seq::new(
        names.len(),
        |i: int|
            seq![115u8, 104, 97, 108, 108, 111, 119, 32] + encode_utf8(names[i].push('\n')),
    )
}

/// The commands of a push as a client sends them: commits declared shallow, updates, and four
/// zeros; behind them comes what they are about.
pub open spec fn push_bytes(
    names: Seq<Seq<char>>,
    commands: Seq<Seq<u8>>,
    rest: Seq<u8>,
) -> Seq<u8> {
    packets(shallow_contents(names)) + (packets(commands) + (seq![48u8, 48, 48, 48] + rest))
}

/// Whether a content is that of an update that fits into a packet.
pub open spec fn is_command(content: Seq<u8>) -> bool {
    content.len() + 4 <= 65520 && !seq![115u8, 104, 97, 108, 108, 111, 119, 32].is_prefix_of(
        content,
    )
}

/// Whether one of the words behind the first zero byte of a content is `atomic`, wherever it
/// stands among them.
pub open spec fn asks_for_atomicity(content: Seq<u8>) -> bool {
    exists|i: int, k: int|
        {
            &&& 0 <= i < content.len()
            &&& content[i] == 0
            &&& forall|j: int| 0 <= j < i ==> content[j] != 0
            &&& 0 <= k < words(decode_utf8(content.skip(i + 1))).len()
            &&& #[trigger] words(decode_utf8(content.skip(i + 1)))[k] == "atomic"@
        }
}

/// Whether what stands behind the first zero byte of a content, if there is one, is UTF-8.
pub open spec fn has_readable_words(content: Seq<u8>) -> bool {
    forall|i: int|
        0 <= i < content.len() && content[i] == 0 && (forall|j: int|
            0 <= j < i ==> content[j] != 0) ==> valid_utf8(#[trigger] content.skip(i + 1))
}

/// A push is accepted exactly where it updates at most one reference, or its first update asks for
/// all of them to be made together, by a word at any place among those that it adds; and where
/// every commit that it declares shallow has a commit's name.
pub proof fn law_pushes_are_accepted(
    names: Seq<Seq<char>>,
    commands: Seq<Seq<u8>>,
    rest: Seq<u8>,
    is_event_id: Seq<bool>,
)
    requires
        names.len() <= 1024,
        forall|i: int|
            0 <= i < names.len() ==> encode_utf8((#[trigger] names[i]).push('\n')).len() + 12
                <= 65520 && (names[i].len() == 0 || !is_white(names[i].last())),
        commands.len() <= 1024,
        forall|i: int| 0 <= i < commands.len() ==> is_command(#[trigger] commands[i]),
        commands.len() > 0 ==> has_readable_words(commands[0]),
        is_event_id.len() == names.len(),
    ensures
        declared_shallow(push_bytes(names, commands, rest)) == names,
        push_fault(push_bytes(names, commands, rest), is_event_id) is None <==> {
            &&& forall|i: int| 0 <= i < names.len() ==> is_event_id[i]
            &&& commands.len() <= 1 || asks_for_atomicity(commands[0])
        },
        (forall|i: int| 0 <= i < names.len() ==> is_event_id[i]) && commands.len() > 1
            && !asks_for_atomicity(commands[0]) ==> push_fault(
            push_bytes(names, commands, rest),
            is_event_id,
        ) == Some(PushFault::Rule(GitError::NotAtomic)),
{
    let input = push_bytes(names, commands, rest);
    let behind = packets(commands) + (seq![48u8, 48, 48, 48] + rest);
    lemma_scan_shallow(push_start(), names, behind);
    let p = PushProgress { count: 0, shallow: push_start().shallow + names, atomic: false };
    assert(push_start().shallow + names == names);
    lemma_scan_commands(p, commands, rest);
    assert(is_event_id.contains(false) == exists|i: int|
        0 <= i < names.len() && !#[trigger] is_event_id[i]) by {
        if exists|i: int| 0 <= i < names.len() && !#[trigger] is_event_id[i] {
            let i = choose|i: int| 0 <= i < names.len() && !#[trigger] is_event_id[i];
            assert(is_event_id[i] == false);
        }
    }
}

/// The length of a packet is read from its digits, in lower or upper case.
pub proof fn law_packet_lengths(a: nat, b: nat, c: nat, d: nat)
    requires
        a < 16,
        b < 16,
        c < 16,
        d < 16,
    ensures
        packet_length(seq![hex_byte(a), hex_byte(b), hex_byte(c), hex_byte(d)]) == Some(
            a * 4096 + b * 256 + c * 16 + d,
        ),
        forall|n: nat|
            10 <= n < 16 ==> hex_value((55 + n) as u8) == #[trigger] hex_value(hex_byte(n)),
{
    lemma_hex_byte(a);
    lemma_hex_byte(b);
    lemma_hex_byte(c);
    lemma_hex_byte(d);
    let all = seq![hex_byte(a), hex_byte(b), hex_byte(c), hex_byte(d)];
    let three = seq![hex_byte(a), hex_byte(b), hex_byte(c)];
    let two = seq![hex_byte(a), hex_byte(b)];
    let one = seq![hex_byte(a)];
    assert(all.drop_last() == three);
    assert(three.drop_last() == two);
    assert(two.drop_last() == one);
    assert(one.drop_last() == Seq::<u8>::empty());
    assert(hex_number(Seq::<u8>::empty()) == Some(0nat));
    assert(hex_number(one) == Some(a));
    assert(hex_number(two) == Some(a * 16 + b));
    assert(hex_number(three) == Some((a * 16 + b) * 16 + c));
    assert forall|n: nat| 10 <= n < 16 implies hex_value((55 + n) as u8) == #[trigger] hex_value(
        hex_byte(n),
    ) by {
        lemma_hex_byte(n);
    }
}

proof fn lemma_hex_byte(n: nat)
    requires
        n < 16,
    ensures
        hex_value(hex_byte(n)) == Some(n),
        hex_byte(n) != 43,
        n == 0 <==> hex_byte(n) == 48,
{
}

proof fn lemma_packet(content: Seq<u8>, tail: Seq<u8>)
    requires
        content.len() + 4 <= 65520,
    ensures
        packet_length((packet(content) + tail).take(4)) == Some(content.len() + 4),
        (packet(content) + tail).subrange(4, content.len() as int + 4) == content,
        (packet(content) + tail).skip(content.len() as int + 4) == tail,
        (packet(content) + tail).len() == content.len() + 4 + tail.len(),
{
    let n = content.len() + 4;
    lemma_four_digits(n);
    law_packet_lengths(n / 4096, n / 256 % 16, n / 16 % 16, n % 16);
    let prefix = seq![
        hex_byte(n / 4096),
        hex_byte(n / 256 % 16),
        hex_byte(n / 16 % 16),
        hex_byte(n % 16),
    ];
    assert((packet(content) + tail).take(4) == prefix);
    assert((packet(content) + tail).subrange(4, content.len() as int + 4) == content);
    assert((packet(content) + tail).skip(content.len() as int + 4) == tail);
}

proof fn lemma_four_digits(n: nat)
    requires
        n < 65536,
    ensures
        n / 4096 < 16,
        n / 4096 * 4096 + n / 256 % 16 * 256 + n / 16 % 16 * 16 + n % 16 == n,
{
    let a = n / 16;
    let b = a / 16;
    let c = b / 16;
    assert(n / 256 == b);
    assert(n / 4096 == c);
    assert(n == a * 16 + n % 16);
    assert(a == b * 16 + a % 16);
    assert(b == c * 16 + b % 16);
    assert(b < 256 && c < 16);
}

proof fn lemma_scan_packet(p: PushProgress, content: Seq<u8>, tail: Seq<u8>)
    requires
        content.len() + 4 <= 65520,
        push_packet(p, content) is Ok,
    ensures
        push_scan(p, packet(content) + tail) == push_scan(push_packet(p, content)->Ok_0, tail),
{
    lemma_packet(content, tail);
}

proof fn lemma_scan_shallow(p: PushProgress, names: Seq<Seq<char>>, tail: Seq<u8>)
    requires
        p.count == 0,
        p.shallow.len() + names.len() <= 1024,
        forall|i: int|
            0 <= i < names.len() ==> encode_utf8((#[trigger] names[i]).push('\n')).len() + 12
                <= 65520 && (names[i].len() == 0 || !is_white(names[i].last())),
    ensures
        push_scan(p, packets(shallow_contents(names)) + tail) == push_scan(
            PushProgress { shallow: p.shallow + names, ..p },
            tail,
        ),
    decreases names.len(),
{
    broadcast use vstd::utf8::encode_utf8_valid_utf8;
    broadcast use vstd::utf8::encode_utf8_decode_utf8;

    let contents = shallow_contents(names);
    if names.len() == 0 {
        assert(packets(contents) + tail == tail);
        assert(p.shallow + names == p.shallow);
    } else {
        let text = names[0].push('\n');
        let content = contents[0];
        let rest = names.skip(1);
        assert(content.skip(8) == encode_utf8(text));
        assert(shallow_mark().is_prefix_of(content));
        assert(is_white('\n'));
        assert(text.drop_last() == names[0]);
        assert(trim_end(text) == trim_end(names[0]));
        assert(trim_end(names[0]) == names[0]);
        let q = PushProgress { shallow: p.shallow.push(names[0]), ..p };
        assert(push_packet(p, content) == Ok::<PushProgress, PushFault>(q));
        assert(contents.skip(1) == shallow_contents(rest));
        let more = packets(shallow_contents(rest)) + tail;
        assert(packets(contents) + tail == packet(content) + more);
        lemma_scan_packet(p, content, more);
        assert forall|i: int| 0 <= i < rest.len() implies encode_utf8(
            (#[trigger] rest[i]).push('\n'),
        ).len() + 12 <= 65520 && (rest[i].len() == 0 || !is_white(rest[i].last())) by {
            assert(rest[i] == names[i + 1]);
        }
        lemma_scan_shallow(q, rest, tail);
        assert(q.shallow + rest == p.shallow + names);
    }
}

proof fn lemma_capabilities(content: Seq<u8>)
    ensures
        match capabilities(content) {
            Some(c) => exists|i: int|
                {
                    &&& 0 <= i < content.len()
                    &&& content[i] == 0
                    &&& forall|j: int| 0 <= j < i ==> content[j] != 0
                    &&& c == #[trigger] content.skip(i + 1)
                },
            None => forall|i: int| 0 <= i < content.len() ==> content[i] != 0,
        },
    decreases content.len(),
{
    if content.len() > 0 && content[0] != 0 {
        let rest = content.skip(1);
        lemma_capabilities(rest);
        match capabilities(rest) {
            Some(c) => {
                let i = choose|i: int|
                    {
                        &&& 0 <= i < rest.len()
                        &&& rest[i] == 0
                        &&& forall|j: int| 0 <= j < i ==> rest[j] != 0
                        &&& c == #[trigger] rest.skip(i + 1)
                    };
                assert(content.skip(i + 1 + 1) == rest.skip(i + 1));
                assert(content[i + 1] == rest[i]);
                assert forall|j: int| 0 <= j < i + 1 implies content[j] != 0 by {
                    if j > 0 {
                        assert(rest[j - 1] != 0);
                    }
                }
            },
            None => {
                assert forall|i: int| 0 <= i < content.len() implies content[i] != 0 by {
                    if i > 0 {
                        assert(rest[i - 1] != 0);
                    }
                }
            },
        }
    } else if content.len() > 0 {
        assert(content.skip(0int + 1) == content.skip(1));
    }
}

proof fn lemma_first_command(p: PushProgress, content: Seq<u8>)
    requires
        p.count == 0,
        !p.atomic,
        is_command(content),
        has_readable_words(content),
    ensures
        push_packet(p, content) == Ok::<PushProgress, PushFault>(
            PushProgress { count: 1, atomic: asks_for_atomicity(content), ..p },
        ),
{
    lemma_capabilities(content);
    assert(shallow_mark() == seq![115u8, 104, 97, 108, 108, 111, 119, 32]);
    match capabilities(content) {
        Some(c) => {
            let i = choose|i: int|
                {
                    &&& 0 <= i < content.len()
                    &&& content[i] == 0
                    &&& forall|j: int| 0 <= j < i ==> content[j] != 0
                    &&& c == #[trigger] content.skip(i + 1)
                };
            assert(valid_utf8(content.skip(i + 1)));
            let w = words(decode_utf8(c));
            if w.contains("atomic"@) {
                let k = choose|k: int| 0 <= k < w.len() && w[k] == "atomic"@;
                assert(words(decode_utf8(content.skip(i + 1)))[k] == "atomic"@);
                assert(asks_for_atomicity(content));
            }
            if asks_for_atomicity(content) {
                let (a, k) = choose|a: int, k: int|
                    {
                        &&& 0 <= a < content.len()
                        &&& content[a] == 0
                        &&& forall|j: int| 0 <= j < a ==> content[j] != 0
                        &&& 0 <= k < words(decode_utf8(content.skip(a + 1))).len()
                        &&& #[trigger] words(decode_utf8(content.skip(a + 1)))[k] == "atomic"@
                    };
                assert(a == i);
                assert(w.contains("atomic"@));
            }
        },
        None => {
            assert(!asks_for_atomicity(content));
        },
    }
}

proof fn lemma_later_commands(p: PushProgress, commands: Seq<Seq<u8>>, rest: Seq<u8>)
    requires
        p.count > 0,
        p.count + commands.len() <= 1024,
        forall|i: int| 0 <= i < commands.len() ==> is_command(#[trigger] commands[i]),
    ensures
        push_scan(p, packets(commands) + (seq![48u8, 48, 48, 48] + rest)) == (
            p.shallow,
            if p.count + commands.len() <= 1 || p.atomic {
                None::<PushFault>
            } else {
                Some(PushFault::Rule(GitError::NotAtomic))
            },
        ),
    decreases commands.len(),
{
    let end = seq![48u8, 48, 48, 48] + rest;
    assert(shallow_mark() == seq![115u8, 104, 97, 108, 108, 111, 119, 32]);
    if commands.len() == 0 {
        assert(packets(commands) + end == end);
        lemma_scan_end(p, rest);
    } else {
        let content = commands[0];
        let q = PushProgress { count: p.count + 1, ..p };
        assert(push_packet(p, content) == Ok::<PushProgress, PushFault>(q));
        let more = packets(commands.skip(1)) + end;
        assert(packets(commands) + end == packet(content) + more);
        lemma_scan_packet(p, content, more);
        assert forall|i: int| 0 <= i < commands.skip(1).len() implies is_command(
            #[trigger] commands.skip(1)[i],
        ) by {
            assert(commands.skip(1)[i] == commands[i + 1]);
        }
        lemma_later_commands(q, commands.skip(1), rest);
    }
}

proof fn lemma_scan_end(p: PushProgress, rest: Seq<u8>)
    ensures
        push_scan(p, seq![48u8, 48, 48, 48] + rest) == (
            p.shallow,
            if p.count <= 1 || p.atomic {
                None::<PushFault>
            } else {
                Some(PushFault::Rule(GitError::NotAtomic))
            },
        ),
{
    let input = seq![48u8, 48, 48, 48] + rest;
    law_packet_lengths(0, 0, 0, 0);
    assert(input.take(4) == seq![hex_byte(0), hex_byte(0), hex_byte(0), hex_byte(0)]);
}

proof fn lemma_scan_commands(p: PushProgress, commands: Seq<Seq<u8>>, rest: Seq<u8>)
    requires
        p.count == 0,
        !p.atomic,
        commands.len() <= 1024,
        forall|i: int| 0 <= i < commands.len() ==> is_command(#[trigger] commands[i]),
        commands.len() > 0 ==> has_readable_words(commands[0]),
    ensures
        push_scan(p, packets(commands) + (seq![48u8, 48, 48, 48] + rest)) == (
            p.shallow,
            if commands.len() <= 1 || asks_for_atomicity(commands[0]) {
                None::<PushFault>
            } else {
                Some(PushFault::Rule(GitError::NotAtomic))
            },
        ),
{
    let end = seq![48u8, 48, 48, 48] + rest;
    if commands.len() == 0 {
        assert(packets(commands) + end == end);
        lemma_scan_end(p, rest);
    } else {
        let content = commands[0];
        lemma_first_command(p, content);
        let q = PushProgress { count: 1, atomic: asks_for_atomicity(content), ..p };
        let more = packets(commands.skip(1)) + end;
        assert(packets(commands) + end == packet(content) + more);
        lemma_scan_packet(p, content, more);
        assert forall|i: int| 0 <= i < commands.skip(1).len() implies is_command(
            #[trigger] commands.skip(1)[i],
        ) by {
            assert(commands.skip(1)[i] == commands[i + 1]);
        }
        lemma_later_commands(q, commands.skip(1), rest);
    }
}

// ---------------------------------------------------------------------------
// Laws of updates, snapshots and attachments
// ---------------------------------------------------------------------------

/// A line of the hook's input is an update: what the reference names before, what it names after,
/// and the reference. Both names have to be commits'.
pub proof fn law_hook_lines_are_updates(
    before: Seq<char>,
    after: Seq<char>,
    name: Seq<char>,
    is_event_id: (bool, bool),
)
    requires
        before.len() > 0 && forall|i: int| 0 <= i < before.len() ==> !is_white(#[trigger] before[i]),
        after.len() > 0 && forall|i: int| 0 <= i < after.len() ==> !is_white(#[trigger] after[i]),
        name.len() > 0 && forall|i: int| 0 <= i < name.len() ==> !is_white(#[trigger] name[i]),
    ensures
        update_of(before + " "@ + after + " "@ + name, is_event_id) == if is_event_id == (true, true) {
            Some(RefUpdateView { before, after, name })
        } else {
            None
        },
{
    lemma_three_words(before, after, name);
}

/// The updates of a push are those of its lines, each in its place.
pub proof fn law_updates_are_the_lines(rows: Seq<Seq<char>>, is_event_id: Seq<(bool, bool)>)
    ensures
        match updates_of(rows, is_event_id) {
            Some(updates) => updates.len() == rows.len() && forall|i: int|
                0 <= i < rows.len() ==> update_of(#[trigger] rows[i], is_event_id[i]) == Some(
                    updates[i],
                ),
            None => exists|i: int|
                0 <= i < rows.len() && update_of(#[trigger] rows[i], is_event_id[i]) is None,
        },
    decreases rows.len(),
{
    if rows.len() > 0 {
        let init = rows.drop_last();
        law_updates_are_the_lines(init, is_event_id);
        assert(rows[rows.len() - 1] == rows.last());
        match updates_of(init, is_event_id) {
            Some(past) => {
                if updates_of(rows, is_event_id) is Some {
                    let all = updates_of(rows, is_event_id)->0;
                    assert forall|i: int| 0 <= i < rows.len() implies update_of(
                        #[trigger] rows[i],
                        is_event_id[i],
                    ) == Some(all[i]) by {
                        if i < init.len() {
                            assert(init[i] == rows[i]);
                            assert(all[i] == past[i]);
                        }
                    }
                }
            },
            None => {
                let i = choose|i: int|
                    0 <= i < init.len() && update_of(#[trigger] init[i], is_event_id[i]) is None;
                assert(rows[i] == init[i]);
            },
        }
    }
}

/// Which updates are accepted. A branch may be created, and may move on to a descendant of the
/// same line and, where it has one, the same session. A tag may be created and set to what it
/// names already; one of a version names its commit. Nothing may be deleted, and there are no
/// other references. Forty zeros stand for no commit.
pub proof fn law_which_updates_are_accepted(
    u: RefUpdateView,
    commit: Seq<char>,
    current: SnapshotMeta,
    ancestor: Option<SnapshotMeta>,
    zeros: Seq<char>,
    rest: Seq<char>,
)
    requires
        zeros.len() == 40,
        forall|i: int| 0 <= i < 40 ==> zeros[i] == '0',
    ensures
        ({
            let accepted = name_refusal(u) is None && update_refusal(u, commit, current, ancestor)
                is None;
            &&& u.after == zeros ==> !accepted
            &&& accepted ==> "refs/heads/"@.is_prefix_of(u.name) || "refs/tags/"@.is_prefix_of(
                u.name,
            )
            &&& u.after != zeros && u.name == "refs/heads/"@ + rest ==> (accepted <==> u.before
                == zeros || (ancestor is Some && ancestor->0.line@ == current.line@ && (
            ancestor->0.session@ == Seq::<char>::empty() || ancestor->0.session@
                == current.session@)))
            &&& u.after != zeros && u.name == "refs/tags/"@ + rest && !"agit-"@.is_prefix_of(rest)
                ==> (accepted <==> u.before == zeros || u.before == u.after)
            &&& u.after != zeros && u.name == "refs/tags/"@ + ("agit-"@ + rest) ==> (accepted <==> (
            u.before == zeros || u.before == u.after) && rest == commit)
        }),
{
    reveal_strlit("0000000000000000000000000000000000000000");
    reveal_strlit("refs/heads/");
    reveal_strlit("refs/tags/");
    reveal_strlit("refs/tags/agit-");
    reveal_strlit("agit-");
    lemma_no_commit(zeros);
    if u.name == "refs/heads/"@ + rest {
        assert("refs/heads/"@.is_prefix_of(u.name));
        assert(u.name[5] == 'h');
        assert(!"refs/tags/"@.is_prefix_of(u.name)) by {
            if "refs/tags/"@.is_prefix_of(u.name) {
                assert(u.name.subrange(0, "refs/tags/"@.len() as int)[5] == 't');
            }
        }
        if ancestor is Some && ancestor->0.session@.len() == 0 {
            assert(ancestor->0.session@ =~= Seq::<char>::empty());
        }
    }
    if u.name == "refs/tags/"@ + rest {
        assert("refs/tags/"@.is_prefix_of(u.name));
        if "refs/tags/agit-"@.is_prefix_of(u.name) {
            let start = u.name.subrange(0, "refs/tags/agit-"@.len() as int);
            assert forall|i: int| 0 <= i < 5 implies rest[i] == "agit-"@[i] by {
                assert(rest[i] == start[10 + i]);
                assert("refs/tags/agit-"@[10 + i] == "agit-"@[i]) by {
                    assert(i == 0 || i == 1 || i == 2 || i == 3 || i == 4);
                }
            }
            assert("agit-"@ =~= rest.subrange(0, "agit-"@.len() as int));
            assert("agit-"@.is_prefix_of(rest));
        }
    }
    if u.name == "refs/tags/"@ + ("agit-"@ + rest) {
        assert("refs/tags/"@.is_prefix_of(u.name));
        assert("refs/tags/"@ + "agit-"@ =~= "refs/tags/agit-"@) by {
            let both = "refs/tags/"@ + "agit-"@;
            assert(both.len() == 15);
            assert(both[0] == 'r' && both[9] == '/' && both[10] == 'a' && both[14] == '-');
        }
        assert(u.name =~= "refs/tags/agit-"@ + rest);
        assert("refs/tags/agit-"@.is_prefix_of(u.name));
        if u.name == "refs/tags/agit-"@ + commit {
            assert(rest =~= u.name.skip(15));
            assert(commit =~= u.name.skip(15));
        }
    }
}

/// Forty zeros stand for no commit.
pub proof fn lemma_no_commit(zeros: Seq<char>)
    requires
        zeros.len() == 40,
        forall|i: int| 0 <= i < 40 ==> zeros[i] == '0',
    ensures
        zeros == no_commit(),
{
    reveal_strlit("0000000000000000000000000000000000000000");
    assert(no_commit().len() == 40);
    assert forall|i: int| 0 <= i < 40 implies no_commit()[i] == '0' by {
        lemma_forty(i);
    }
}

proof fn lemma_forty(i: int)
    requires
        0 <= i < 40,
    ensures
        "0000000000000000000000000000000000000000"@[i] == '0',
{
    reveal_strlit("0000000000000000000000000000000000000000");
    assert(i == 0 || i == 1 || i == 2 || i == 3 || i == 4 || i == 5 || i == 6 || i == 7 || i == 8
        || i == 9 || i == 10 || i == 11 || i == 12 || i == 13 || i == 14 || i == 15 || i == 16 || i
        == 17 || i == 18 || i == 19 || i == 20 || i == 21 || i == 22 || i == 23 || i == 24 || i
        == 25 || i == 26 || i == 27 || i == 28 || i == 29 || i == 30 || i == 31 || i == 32 || i
        == 33 || i == 34 || i == 35 || i == 36 || i == 37 || i == 38 || i == 39);
}

/// A snapshot is accepted exactly where its log holds everything that its view shows, no merge
/// marker is left over, and the runtime of every record is known.
pub proof fn law_which_snapshots_are_accepted(
    log: Seq<Seq<char>>,
    view: Seq<Seq<char>>,
    unmatched: nat,
    known: Seq<bool>,
)
    ensures
        snapshot_fault(log, view, unmatched, known) is None <==> {
            &&& forall|i: int| 0 <= i < view.len() ==> log.contains(#[trigger] view[i])
            &&& unmatched == 0
            &&& forall|i: int| 0 <= i < known.len() ==> #[trigger] known[i]
        },
{
    if known.contains(false) {
        let i = choose|i: int| 0 <= i < known.len() && known[i] == false;
        assert(!known[i]);
    }
    if exists|i: int| 0 <= i < known.len() && !#[trigger] known[i] {
        let i = choose|i: int| 0 <= i < known.len() && !#[trigger] known[i];
        assert(known[i] == false);
    }
}

/// A file of a snapshot may be an LFS pointer where it is no larger than one; what is no file is
/// none.
pub proof fn law_which_files_may_be_pointers(
    kind: Seq<char>,
    name: Seq<char>,
    size: nat,
    limit: nat,
)
    requires
        size <= usize::MAX,
        kind.len() > 0 && forall|i: int| 0 <= i < kind.len() ==> !is_white(#[trigger] kind[i]),
        name.len() > 0 && forall|i: int| 0 <= i < name.len() ==> !is_white(#[trigger] name[i]),
    ensures
        pointer_candidate(kind + " "@ + name + " "@ + decimal(size), limit) == Ok::<
            Option<Seq<char>>,
            NumberError,
        >(
            if kind == "blob"@ && size <= limit {
                Some(name)
            } else {
                None
            },
        ),
{
    law_decimal_text(size);
    assert forall|i: int| 0 <= i < decimal(size).len() implies !is_white(
        #[trigger] decimal(size)[i],
    ) by {
        assert(is_digit(decimal(size)[i]));
    }
    lemma_three_words(kind, name, decimal(size));
    law_decimal_text_is_read_back(size, usize::MAX as nat);
}

/// No file that may be an LFS pointer is passed over: the check goes on with the first one that is
/// left, and ends only where none is.
pub proof fn law_no_pointer_is_passed_over(c: LfsCourse, limit: nat)
    ensures
        next_pointer(c, limit) matches Ok(d) ==> exists|n: int|
            {
                &&& 0 <= n <= c.left.len()
                &&& d.left == #[trigger] c.left.skip(n)
                &&& match d.stage {
                    LfsStage::Inspect(name) => n > 0 && pointer_candidate(c.left[n - 1], limit)
                        == Ok::<Option<Seq<char>>, NumberError>(Some(name)) && forall|k: int|
                        0 <= k < n - 1 ==> pointer_candidate(#[trigger] c.left[k], limit) == Ok::<
                            Option<Seq<char>>,
                            NumberError,
                        >(None),
                    LfsStage::Done => n == c.left.len() && forall|k: int|
                        0 <= k < n ==> pointer_candidate(#[trigger] c.left[k], limit) == Ok::<
                            Option<Seq<char>>,
                            NumberError,
                        >(None),
                    LfsStage::Verify(_, _) => false,
                }
            },
    decreases c.left.len(),
{
    if c.left.len() == 0 {
        assert(c.left.skip(0) =~= c.left);
    } else {
        let rest = LfsCourse { left: c.left.skip(1), ..c };
        match pointer_candidate(c.left[0], limit) {
            Ok(None) => {
                law_no_pointer_is_passed_over(rest, limit);
                if next_pointer(rest, limit) is Ok {
                    let d = next_pointer(rest, limit)->Ok_0;
                    let n = choose|n: int|
                        {
                            &&& 0 <= n <= rest.left.len()
                            &&& d.left == #[trigger] rest.left.skip(n)
                            &&& match d.stage {
                                LfsStage::Inspect(name) => n > 0 && pointer_candidate(
                                    rest.left[n - 1],
                                    limit,
                                ) == Ok::<Option<Seq<char>>, NumberError>(Some(name)) && forall|
                                    k: int,
                                |
                                    0 <= k < n - 1 ==> pointer_candidate(
                                        #[trigger] rest.left[k],
                                        limit,
                                    ) == Ok::<Option<Seq<char>>, NumberError>(None),
                                LfsStage::Done => n == rest.left.len() && forall|k: int|
                                    0 <= k < n ==> pointer_candidate(
                                        #[trigger] rest.left[k],
                                        limit,
                                    ) == Ok::<Option<Seq<char>>, NumberError>(None),
                                LfsStage::Verify(_, _) => false,
                            }
                        };
                    assert(c.left.skip(n + 1) =~= rest.left.skip(n));
                    assert forall|k: int| 0 < k < c.left.len() implies #[trigger] c.left[k]
                        == rest.left[k - 1] by {}
                    let m = n + 1;
                    assert(d.left == c.left.skip(m));
                    match d.stage {
                        LfsStage::Inspect(name) => {
                            assert(c.left[m - 1] == rest.left[n - 1]);
                            assert forall|k: int| 0 <= k < m - 1 implies pointer_candidate(
                                #[trigger] c.left[k],
                                limit,
                            ) == Ok::<Option<Seq<char>>, NumberError>(None) by {
                                if k > 0 {
                                    assert(c.left[k] == rest.left[k - 1]);
                                }
                            }
                        },
                        _ => {
                            assert forall|k: int| 0 <= k < m implies pointer_candidate(
                                #[trigger] c.left[k],
                                limit,
                            ) == Ok::<Option<Seq<char>>, NumberError>(None) by {
                                if k > 0 {
                                    assert(c.left[k] == rest.left[k - 1]);
                                }
                            }
                        },
                    }
                }
            },
            Ok(Some(name)) => {
                assert(c.left.skip(1) =~= rest.left);
            },
            Err(_) => {},
        }
    }
}

/// An object is verified unless it has been already, and counts as there once it is verified.
pub proof fn law_objects_are_verified_once(c: LfsCourse, oid: Seq<char>, size: u64, limit: nat)
    ensures
        !c.objects.contains((oid, size)) ==> (inspected(c, Some((oid, size)), limit) matches Ok(d)
            && d.stage == LfsStage::Verify(oid, size) && d.left == c.left && d.objects
            == c.objects),
        c.objects.contains((oid, size)) ==> (inspected(c, Some((oid, size)), limit) matches Ok(d)
            ==> !(d.stage is Verify)),
        inspected(c, None, limit) == next_pointer(c, limit),
        c.stage == LfsStage::Verify(oid, size) ==> (verified(c, limit) matches Ok(d)
            ==> d.objects.contains((oid, size))),
{
    let found = LfsCourse { found: c.found.push((oid, size)), ..c };
    law_no_pointer_is_passed_over(found, limit);
    let there = LfsCourse { objects: c.objects.push((oid, size)), ..c };
    lemma_objects_stay(there, limit);
    assert(there.objects[there.objects.len() - 1] == (oid, size));
}

proof fn lemma_objects_stay(c: LfsCourse, limit: nat)
    ensures
        next_pointer(c, limit) matches Ok(d) ==> d.objects == c.objects,
    decreases c.left.len(),
{
    if c.left.len() > 0 && pointer_candidate(c.left[0], limit) == Ok::<
        Option<Seq<char>>,
        NumberError,
    >(None) {
        lemma_objects_stay(LfsCourse { left: c.left.skip(1), ..c }, limit);
    }
}

/// A reference may be given to Git exactly where it is a short text on one line that cannot pass
/// for an option; the name of a commit may.
pub proof fn law_which_references_are_given_to_git(reference: Seq<char>)
    ensures
        is_reference(reference) ==> reference.len() > 0 && reference[0] != '-' && forall|i: int|
            0 <= i < reference.len() ==> #[trigger] reference[i] != '\n' && reference[i] != '\r'
                && reference[i] != '\0',
        1 <= reference.len() <= 64 && reference[0] != '-' && (forall|i: int|
            0 <= i < reference.len() ==> #[trigger] reference[i] != '\n' && reference[i] != '\r'
                && reference[i] != '\0') ==> is_reference(reference),
        is_reference(reference) ==> encode_utf8(reference).len() <= 256,
{
    reveal_strlit("-");
    lemma_encoded_len_bound(reference);
    if reference.len() > 0 {
        assert("-"@.is_prefix_of(reference) == (reference[0] == '-')) by {
            if reference[0] == '-' {
                assert("-"@ =~= reference.subrange(0, 1));
            }
            if "-"@.is_prefix_of(reference) {
                assert(reference.subrange(0, 1)[0] == '-');
            }
        }
    }
    if is_reference(reference) {
        assert forall|i: int| 0 <= i < reference.len() implies #[trigger] reference[i] != '\n'
            && reference[i] != '\r' && reference[i] != '\0' by {}
    }
}

/// The size that Git prints is read, and refused beyond the limit.
pub proof fn law_printed_sizes_are_read(size: nat, limit: nat)
    requires
        size <= usize::MAX,
    ensures
        printed_size(decimal(size) + "\n"@, limit) == if size <= limit {
            Ok::<nat, GitError>(size)
        } else {
            Err(GitError::BlobTooLarge)
        },
{
    reveal_strlit("\n");
    law_decimal_text(size);
    law_decimal_text_is_read_back(size, usize::MAX as nat);
    let d = decimal(size);
    assert(is_digit(d[0]) && is_digit(d[d.len() - 1]));
    lemma_trim_line(d);
}

/// The commit of a reference is what Git prints, without the end of the line. It is given out
/// exactly where it has a commit's name and something that is published holds it.
pub proof fn law_which_commits_are_given_out(
    commit: Seq<char>,
    is_event_id: bool,
    reachable: Seq<char>,
)
    requires
        commit.len() > 0,
        !is_white(commit[0]),
        !is_white(commit.last()),
    ensures
        resolved(commit + "\n"@, is_event_id, reachable) is Ok <==> is_event_id && exists|i: int|
            0 <= i < reachable.len() && !is_white(#[trigger] reachable[i]),
        resolved(commit + "\n"@, is_event_id, reachable) matches Ok(c) ==> c == commit,
{
    reveal_strlit("\n");
    lemma_trim_line(commit);
    law_trimming_takes_white_space_off(reachable);
    let (i, j) = choose|i: int, j: int|
        {
            &&& 0 <= i <= j <= reachable.len()
            &&& trim(reachable) == #[trigger] reachable.subrange(i, j)
            &&& forall|k: int| 0 <= k < i ==> is_white(#[trigger] reachable[k])
            &&& forall|k: int| j <= k < reachable.len() ==> is_white(#[trigger] reachable[k])
        };
    if trim(reachable).len() > 0 {
        assert(reachable[i] == trim(reachable)[0]);
    }
}

/// Of what the hook is given no more is read than shows that it is too much.
pub proof fn law_how_many_lines_are_read(rows: Seq<Seq<char>>)
    ensures
        read_lines(rows).is_prefix_of(rows),
        read_lines(rows).len() == if rows.len() <= 1024 {
            rows.len()
        } else {
            1025
        },
{
}

/// Git is called in one repository, reads no configuration but that of the repository, and neither
/// asks nor fetches.
pub proof fn law_how_git_is_called(repo: &str, windows: bool, r: Invocation)
    requires
        call_ensures(command, (repo, windows), r),
    ensures
        r.program@ == "git"@,
        texts(r.args@) == seq!["-C"@, repo@],
        value_of(pairs_of(r.env@), "GIT_CONFIG_NOSYSTEM"@) == Some("1"@),
        value_of(pairs_of(r.env@), "GIT_CONFIG_GLOBAL"@) == Some(
            if windows {
                "NUL"@
            } else {
                "/dev/null"@
            },
        ),
        value_of(pairs_of(r.env@), "GIT_TERMINAL_PROMPT"@) == Some("0"@),
        value_of(pairs_of(r.env@), "GIT_NO_LAZY_FETCH"@) == Some("1"@),
        r.env@.len() == 4,
{
    reveal_strlit("GIT_CONFIG_NOSYSTEM");
    reveal_strlit("GIT_CONFIG_GLOBAL");
    reveal_strlit("GIT_TERMINAL_PROMPT");
    reveal_strlit("GIT_NO_LAZY_FETCH");
    let env = pairs_of(r.env@);
    assert(env.len() == 4);
    assert(env[0].0.len() == 19 && env[1].0.len() == 17 && env[2].0.len() == 19 && env[3].0.len()
        == 17);
    assert(env[0].0[4] == 'C' && env[2].0[4] == 'T');
    assert(env[1].0[4] == 'C' && env[3].0[4] == 'N');
    lemma_value_of(env, 0);
    lemma_value_of(env, 1);
    lemma_value_of(env, 2);
    lemma_value_of(env, 3);
}

/// What Git printed is what is read, where Git succeeded; where it failed, what it complained of
/// is told.
pub proof fn law_what_git_printed_is_read(
    args: Vec<String>,
    stdout: &[u8],
    stderr: &str,
    printed: Seq<char>,
    r: Result<String, GitError>,
)
    ensures
        call_ensures(output, (&args, true, stdout, stderr), r) && stdout@ == encode_utf8(printed)
            ==> r is Ok && r->Ok_0@ == printed,
        call_ensures(output, (&args, true, stdout, stderr), r) && r is Ok ==> encode_utf8(
            r->Ok_0@,
        ) == stdout@,
        call_ensures(output, (&args, false, stdout, stderr), r) ==> (r matches Err(
            GitError::Failed(m),
        ) && trim(stderr@).is_suffix_of(m@)),
{
    vstd::utf8::encode_utf8_valid_utf8(printed);
    vstd::utf8::encode_utf8_decode_utf8(printed);
    if valid_utf8(stdout@) {
        vstd::utf8::decode_utf8_encode_utf8(stdout@);
    }
}

/// A file is asked for by the name of a commit alone, and then by its path in it.
pub proof fn law_how_a_file_is_asked_for(
    oid: &str,
    is_event_id: bool,
    path: &str,
    r: Result<String, GitError>,
)
    requires
        call_ensures(blob_name, (oid, is_event_id, path), r),
    ensures
        r is Ok <==> is_event_id,
        r is Ok && !oid@.contains(':') ==> halves(r->Ok_0@, ':') == Some((oid@, path@)),
{
    reveal_strlit(":");
    if r is Ok && !oid@.contains(':') {
        assert(oid@ + ":"@ + path@ =~= oid@.push(':') + path@);
        law_first_separator_parts_a_text(oid@, ':', path@);
    }
}

/// The bytes of a file are given out whole or not at all.
pub proof fn law_files_are_read_whole(
    bytes: Vec<u8>,
    size: usize,
    success: bool,
    r: Result<Vec<u8>, GitError>,
)
    requires
        call_ensures(blob, (bytes, size, success), r),
    ensures
        r matches Ok(b) ==> success && b@ == bytes@,
        success && bytes@.len() == size ==> r is Ok,
        bytes@.len() != size ==> r is Err,
{
}

/// A reference is never taken for an option, and what is asked for is the commit that it names.
pub proof fn law_references_are_no_options(reference: &str, r: Result<Vec<String>, GitError>)
    requires
        call_ensures(resolve_args, (reference,), r),
    ensures
        r is Ok <==> is_reference(reference@),
        r matches Ok(args) ==> {
            let given = texts(args@);
            &&& given.len() == 4
            &&& given[0] == "rev-parse"@
            &&& given[1] == "--verify"@
            &&& given[2] == "--end-of-options"@
            &&& given[3].len() == reference@.len() + 9
            &&& reference@.is_prefix_of(given[3])
            &&& "^{commit}"@.is_suffix_of(given[3])
        },
{
    reveal_strlit("^{commit}");
}

/// A commit counts as published where a branch or a tag holds it, and nothing else is looked at.
pub proof fn law_what_holds_a_commit(oid: &str, r: Vec<String>)
    requires
        call_ensures(reachable_args, (oid,), r),
    ensures
        ({
            let given = texts(r@);
            &&& given.len() == 6
            &&& given[0] == "for-each-ref"@
            &&& given[1] == "--contains"@ && given[2] == oid@
            &&& given[4] == "refs/heads"@ && given[5] == "refs/tags"@
        }),
{
}

/// The new commits of a push are the lines that Git printed, up to ten thousand of them.
pub proof fn law_how_many_commits_are_new(listing: &str, r: Result<Vec<String>, GitError>)
    requires
        call_ensures(new_commits, (listing,), r),
    ensures
        r is Ok <==> lines(listing@).len() <= 10000,
        r matches Ok(commits) ==> texts(commits@) == lines(listing@),
        r matches Err(e) ==> e is TooManyCommits,
{
}

/// A push of up to 1024 lines that are updates is read line by line.
pub proof fn law_how_many_updates_are_read(
    rows: Vec<String>,
    is_event_id: Vec<(bool, bool)>,
    r: Result<Vec<RefUpdate>, GitError>,
)
    requires
        call_ensures(receive_updates, (&rows, &is_event_id), r),
    ensures
        r matches Ok(updates) ==> updates@.len() <= 1024 && updates_of(
            read_lines(texts(rows@)),
            is_event_id@,
        ) == Some(update_views(updates@)),
        updates_of(read_lines(texts(rows@)), is_event_id@) is None ==> (r matches Err(e)
            && e is InvalidUpdate),
        updates_of(read_lines(texts(rows@)), is_event_id@) matches Some(u) && u.len() <= 1024
            ==> r is Ok,
{
}

/// A new repository is set up bare and once: it takes atomic pushes over HTTP, checks what it
/// takes, keeps what was published, and runs the hub on each push.
pub proof fn law_how_a_repository_is_set_up(
    state: State,
    repo: Repository,
    executable: &str,
    exists: bool,
    r: Result<RepositorySetup, GitError>,
    key: Seq<char>,
)
    requires
        call_ensures(initialize, (&state, &repo, executable, exists), r),
    ensures
        r is Ok <==> !exists,
        r matches Ok(s) ==> {
            let set = pairs_of(s.settings@);
            &&& texts(s.init_args@).contains("--bare"@)
            &&& s.hook_path@ == "hooks/pre-receive"@
            &&& s.path@.len() == repo.id@.len() + 10 && "repos/"@.is_prefix_of(s.path@)
            &&& set.contains(("http.receivepack"@, "true"@))
            &&& set.contains(("receive.denyNonFastForwards"@, "true"@))
            &&& set.contains(("receive.denyDeletes"@, "true"@))
            &&& set.contains(("receive.fsckObjects"@, "true"@))
            &&& set.contains(("transfer.fsckObjects"@, "true"@))
            &&& set.contains(("receive.advertiseAtomic"@, "true"@))
            &&& set.contains(("core.logAllRefUpdates"@, "true"@))
            &&& !set.contains((key, "false"@))
            &&& runs_the_hub(s.hook@, executable@, state.root@)
        },
{
    reveal_strlit("repos/");
    reveal_strlit(".git");
    reveal_strlit("true");
    reveal_strlit("false");
    assert("true"@.len() == 4 && "false"@.len() == 5);
    if r is Ok {
        let s = r->Ok_0;
        let set = pairs_of(s.settings@);
        let n = repository_settings();
        assert(set == n);
        assert(n[0] == ("http.receivepack"@, "true"@));
        assert(n[1] == ("receive.denyNonFastForwards"@, "true"@));
        assert(n[2] == ("receive.denyDeletes"@, "true"@));
        assert(n[3] == ("receive.fsckObjects"@, "true"@));
        assert(n[4] == ("transfer.fsckObjects"@, "true"@));
        assert(n[5] == ("receive.advertiseAtomic"@, "true"@));
        assert(n[6] == ("core.logAllRefUpdates"@, "true"@));
        assert(texts(s.init_args@)[1] == "--bare"@);
        law_shell_reads_the_path_back(executable@);
        law_shell_reads_the_path_back(state.root@);
        assert(hook_of(quoted(executable@), quoted(state.root@)) =~= s.hook@);
    }
}

/// The hook that runs one word, with another as the data directory.
pub open spec fn hook_of(program: Seq<char>, root: Seq<char>) -> Seq<char> {
    "#!/bin/sh\nexec "@ + program + " --data "@ + root + " validate-receive\n"@
}

/// The hook runs the executable on the data directory, both as the shell reads them.
pub open spec fn runs_the_hub(hook: Seq<char>, executable: Seq<char>, root: Seq<char>) -> bool {
    exists|program: Seq<char>, data: Seq<char>|
        hook == #[trigger] hook_of(program, data) && shell_scan(program) == (
            Quoting::Bare,
            replace_char(executable, '\\', "/"@),
        ) && shell_scan(data) == (Quoting::Bare, replace_char(root, '\\', "/"@))
}

/// A broken rule is told as it is, and no two rules in the same way.
pub proof fn law_faults_are_told(a: PushFault, b: PushFault, e: GitError)
    requires
        a.told_by(e),
        b.told_by(e),
        a is Rule,
        b is Rule,
    ensures
        a == b,
        a == PushFault::Rule(e),
{
}

} // verus!
