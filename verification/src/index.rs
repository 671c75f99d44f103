//! The search index: what is saved of each snapshot.
use crate::json::{encoded, jsons, list, optional_text, text, text_list, text_or_null, texts_to_json,
    Json};
use crate::outside::{date_exists, is_date, optional, pairs_of};
use crate::state::{by_name, digest, digest_of, repository_views, Repository, State};
use crate::text::{append, copy_optional, copy_texts, decimal, fitting, halves, is_digit,
    law_decimal_text, law_newline_ends_a_line, law_signed_text_is_read_back,
    law_text_without_newline_is_a_line, law_texts_are_cut_to_bytes, lemma_halves, lines, lowercase,
    lowercase_of, parse_signed, prefix_bytes, signed_number, split_lines, split_once, texts,
    utf8_len, NumberError};
use vstd::prelude::*;
use vstd::utf8::encode_utf8;

verus! {

/// Why indexing, a search or a read fails.
#[derive(Clone, Copy, Debug, PartialEq, Eq, Structural)]
pub enum IndexError {
    RefListing,
    HistoryLimit,
    MissingTime,
    Number(NumberError),
    SavedRange,
    Incomplete,
    Rebuild,
    TimeFilter,
    UnsupportedFilter,
    OrganizationScope,
    Pagination,
    UnsupportedSort,
    MissingReference,
    RangeOverflow,
    Range,
    SessionMismatch,
    NoSourceLine,
    Unordered,
    TurnTooLarge,
}

impl IndexError {
    /// The message of the failure.
    pub open spec fn text(self) -> Seq<char> {
        match self {
            IndexError::RefListing => "Invalid Git ref listing"@,
            IndexError::HistoryLimit => "History exceeds the indexing limit"@,
            IndexError::MissingTime => "Missing saved time"@,
            IndexError::Number(e) => e.text(),
            IndexError::SavedRange => "Saved timestamp is outside the supported range"@,
            IndexError::Incomplete =>
                "Search index remains incomplete; valid history is searchable and original Git data is retained"@,
            IndexError::Rebuild =>
                "Rebuild completed with incomplete indexes; inspect the diagnostics"@,
            IndexError::TimeFilter => "Time filters must be RFC3339 timestamps"@,
            IndexError::UnsupportedFilter => "Unsupported category, state or fork filter"@,
            IndexError::OrganizationScope => "Organization scope is unsupported"@,
            IndexError::Pagination => "Invalid pagination"@,
            IndexError::UnsupportedSort => "Unsupported sort"@,
            IndexError::MissingReference => "A saved reference is required"@,
            IndexError::RangeOverflow => "Turn range overflow"@,
            IndexError::Range => "Request between 1 and 50 turns, using an exclusive to bound"@,
            IndexError::SessionMismatch => "Session does not match saved reference"@,
            IndexError::NoSourceLine => "Turn has no source line"@,
            IndexError::Unordered => "Turn source lines are not ordered"@,
            IndexError::TurnTooLarge =>
                "A turn exceeds the remote read limit; clone this snapshot for full restoration"@,
        }
    }

    /// Tells the message of the failure.
    pub fn message(&self) -> (r: String)
        ensures
            r@ == self.text(),
    {
        match self {
            IndexError::RefListing => "Invalid Git ref listing".to_owned(),
            IndexError::HistoryLimit => "History exceeds the indexing limit".to_owned(),
            IndexError::MissingTime => "Missing saved time".to_owned(),
            IndexError::Number(e) => e.message(),
            IndexError::SavedRange =>
                "Saved timestamp is outside the supported range".to_owned(),
            IndexError::Incomplete =>
                "Search index remains incomplete; valid history is searchable and original Git data is retained".to_owned(),
            IndexError::Rebuild =>
                "Rebuild completed with incomplete indexes; inspect the diagnostics".to_owned(),
            IndexError::TimeFilter => "Time filters must be RFC3339 timestamps".to_owned(),
            IndexError::UnsupportedFilter =>
                "Unsupported category, state or fork filter".to_owned(),
            IndexError::OrganizationScope => "Organization scope is unsupported".to_owned(),
            IndexError::Pagination => "Invalid pagination".to_owned(),
            IndexError::UnsupportedSort => "Unsupported sort".to_owned(),
            IndexError::MissingReference => "A saved reference is required".to_owned(),
            IndexError::RangeOverflow => "Turn range overflow".to_owned(),
            IndexError::Range =>
                "Request between 1 and 50 turns, using an exclusive to bound".to_owned(),
            IndexError::SessionMismatch => "Session does not match saved reference".to_owned(),
            IndexError::NoSourceLine => "Turn has no source line".to_owned(),
            IndexError::Unordered => "Turn source lines are not ordered".to_owned(),
            IndexError::TurnTooLarge =>
                "A turn exceeds the remote read limit; clone this snapshot for full restoration".to_owned(),
        }
    }
}

// ---------------------------------------------------------------------------
// Scopes
// ---------------------------------------------------------------------------

/// What an event of a session is.
#[derive(Clone, Copy, Debug, PartialEq, Eq, Structural)]
pub enum EventKind {
    UserPrompt,
    UserInterjection,
    AssistantReply,
    ToolUse,
    ToolResult,
    FileEdit,
    CompactFiltered,
    CompactSummary,
    /// Anything that is not searched.
    Other,
}

/// Where a search finds an event.
#[derive(Clone, Copy, Debug, PartialEq, Eq, Structural)]
pub enum EventScope {
    Prompt,
    Reply,
    Tool,
    Output,
    Edit,
    Summary,
}

/// The scope of an event; `None` for an event that is not searched.
pub open spec fn scope_of(kind: EventKind) -> Option<EventScope> {
    match kind {
        EventKind::UserPrompt => Some(EventScope::Prompt),
        EventKind::UserInterjection => Some(EventScope::Prompt),
        EventKind::AssistantReply => Some(EventScope::Reply),
        EventKind::ToolUse => Some(EventScope::Tool),
        EventKind::ToolResult => Some(EventScope::Output),
        EventKind::FileEdit => Some(EventScope::Edit),
        EventKind::CompactFiltered => Some(EventScope::Summary),
        EventKind::CompactSummary => Some(EventScope::Summary),
        EventKind::Other => None,
    }
}

/// The scope of an event.
pub fn scope(kind: EventKind) -> (r: Option<EventScope>)
    ensures
        r == scope_of(kind),
{
    match kind {
        EventKind::UserPrompt => Some(EventScope::Prompt),
        EventKind::UserInterjection => Some(EventScope::Prompt),
        EventKind::AssistantReply => Some(EventScope::Reply),
        EventKind::ToolUse => Some(EventScope::Tool),
        EventKind::ToolResult => Some(EventScope::Output),
        EventKind::FileEdit => Some(EventScope::Edit),
        EventKind::CompactFiltered => Some(EventScope::Summary),
        EventKind::CompactSummary => Some(EventScope::Summary),
        EventKind::Other => None,
    }
}

/// What a scope is called, and whether its text repeats what was said elsewhere.
pub struct ScopeLabel {
    pub name: String,
    pub secondhand: bool,
}

/// What the scopes are called.
pub struct ScopeLabels {
    pub prompt: ScopeLabel,
    pub reply: ScopeLabel,
    pub tool: ScopeLabel,
    pub output: ScopeLabel,
    pub edit: ScopeLabel,
    pub summary: ScopeLabel,
}

impl ScopeLabels {
    /// The label of a scope.
    pub open spec fn of(self, scope: EventScope) -> ScopeLabel {
        match scope {
            EventScope::Prompt => self.prompt,
            EventScope::Reply => self.reply,
            EventScope::Tool => self.tool,
            EventScope::Output => self.output,
            EventScope::Edit => self.edit,
            EventScope::Summary => self.summary,
        }
    }

    fn get(&self, scope: EventScope) -> (r: &ScopeLabel)
        ensures
            *r == self.of(scope),
    {
        match scope {
            EventScope::Prompt => &self.prompt,
            EventScope::Reply => &self.reply,
            EventScope::Tool => &self.tool,
            EventScope::Output => &self.output,
            EventScope::Edit => &self.edit,
            EventScope::Summary => &self.summary,
        }
    }
}

// ---------------------------------------------------------------------------
// What Git tells of a repository
// ---------------------------------------------------------------------------

/// The published references that Git lists, one per line: the name, a space and the commit;
/// `None` where a line has no space.
pub open spec fn refs_of(listing: Seq<Seq<char>>) -> Option<Seq<(Seq<char>, Seq<char>)>>
    decreases listing.len(),
{
    if listing.len() == 0 {
        Some(Seq::empty())
    } else {
        match (refs_of(listing.drop_last()), halves(listing.last(), ' ')) {
            (Some(refs), Some(last)) => Some(refs.push(last)),
            _ => None,
        }
    }
}

proof fn lemma_refs_prefix(listing: Seq<Seq<char>>, n: int)
    requires
        0 <= n <= listing.len(),
        refs_of(listing.take(n)) is None,
    ensures
        refs_of(listing) is None,
    decreases listing.len(),
{
    if n == listing.len() {
        assert(listing.take(n) == listing);
    } else {
        assert(listing.drop_last().take(n) == listing.take(n));
        lemma_refs_prefix(listing.drop_last(), n);
    }
}

/// Reads the published references that Git lists.
pub fn published_refs(listing: &str) -> (r: Result<Vec<(String, String)>, IndexError>)
    ensures
        match refs_of(lines(listing@)) {
            Some(refs) => r is Ok && pairs_of(r->Ok_0@) == refs,
            None => r == Err::<Vec<(String, String)>, _>(IndexError::RefListing),
        },
{
    let rows = split_lines(listing);
    let ghost all = texts(rows@);
    let mut refs: Vec<(String, String)> = Vec::new();
    let mut i: usize = 0;
    assert(pairs_of(refs@) == Seq::<(Seq<char>, Seq<char>)>::empty());
    while i < rows.len()
        invariant
            i <= rows@.len(),
            all == texts(rows@),
            all == lines(listing@),
            refs_of(all.take(i as int)) == Some(pairs_of(refs@)),
        decreases rows@.len() - i,
    {
        assert(all.take(i + 1).drop_last() == all.take(i as int));
        assert(all.take(i + 1).last() == rows@[i as int]@);
        match split_once(rows[i].as_str(), ' ') {
            Some(one) => {
                let ghost before = refs@;
                refs.push(one);
                assert(pairs_of(refs@) == pairs_of(before).push((one.0@, one.1@)));
            },
            None => {
                proof {
                    lemma_refs_prefix(all, i + 1);
                }
                return Err(IndexError::RefListing);
            },
        }
        i = i + 1;
    }
    assert(all.take(i as int) == all);
    Ok(refs)
}

/// How many commits of a repository are indexed.
pub const MAX_HISTORY: usize = 100000;

/// The commits that Git lists, one per line, if they are not too many.
pub open spec fn listed_commits(listing: Seq<char>) -> Option<Seq<Seq<char>>> {
    if lines(listing).len() <= MAX_HISTORY {
        Some(lines(listing))
    } else {
        None
    }
}

/// Reads the commits that Git lists, if they are not too many.
pub fn history(listing: &str) -> (r: Result<Vec<String>, IndexError>)
    ensures
        match listed_commits(listing@) {
            Some(commits) => r is Ok && texts(r->Ok_0@) == commits,
            None => r == Err::<Vec<String>, _>(IndexError::HistoryLimit),
        },
{
    let all = split_lines(listing);
    assert(texts(all@).len() == all@.len());
    if all.len() <= MAX_HISTORY {
        Ok(all)
    } else {
        Err(IndexError::HistoryLimit)
    }
}

/// When and by whom a snapshot was saved.
pub struct Saved {
    pub at: i64,
    pub author: String,
    pub email: String,
}

/// The line of a listing, or nothing where it has no such line.
pub open spec fn line_or_nothing(rows: Seq<Seq<char>>, i: int) -> Seq<char> {
    if i < rows.len() {
        rows[i]
    } else {
        Seq::empty()
    }
}

/// The time at which a snapshot was saved, from what Git prints of its commit.
pub open spec fn saved_time(rows: Seq<Seq<char>>) -> Result<int, IndexError> {
    if rows.len() == 0 {
        Err(IndexError::MissingTime)
    } else {
        match signed_number(rows[0]) {
            Err(e) => Err(IndexError::Number(e)),
            Ok(n) => if is_date(n) {
                Ok(n)
            } else {
                Err(IndexError::SavedRange)
            },
        }
    }
}

/// When and by whom a snapshot was saved, from what Git prints of its commit.
pub open spec fn saved_of(printed: Seq<char>) -> Result<(int, Seq<char>, Seq<char>), IndexError> {
    match saved_time(lines(printed)) {
        Ok(n) => Ok(
            (n, line_or_nothing(lines(printed), 1), line_or_nothing(lines(printed), 2)),
        ),
        Err(e) => Err(e),
    }
}

/// Reads what Git prints of a commit: the time, the author's name and the author's address, one
/// per line.
pub fn saved(printed: &str) -> (r: Result<Saved, IndexError>)
    ensures
        match saved_of(printed@) {
            Ok((at, author, email)) => {
                &&& r is Ok
                &&& r->Ok_0.at == at
                &&& r->Ok_0.author@ == author
                &&& r->Ok_0.email@ == email
            },
            Err(e) => r == Err::<Saved, _>(e),
        },
{
    let rows = split_lines(printed);
    assert(texts(rows@) == lines(printed@));
    if rows.len() == 0 {
        return Err(IndexError::MissingTime);
    }
    assert(texts(rows@)[0] == rows@[0]@);
    match parse_signed(rows[0].as_str()) {
        Err(e) => Err(IndexError::Number(e)),
        Ok(at) => {
            if !date_exists(at) {
                return Err(IndexError::SavedRange);
            }
            Ok(Saved { at, author: row_or_nothing(&rows, 1), email: row_or_nothing(&rows, 2) })
        },
    }
}

fn row_or_nothing(rows: &Vec<String>, i: usize) -> (r: String)
    ensures
        r@ == line_or_nothing(texts(rows@), i as int),
{
    if i < rows.len() {
        rows[i].clone()
    } else {
        let r = String::new();
        assert(r@ == Seq::<char>::empty());
        r
    }
}

/// Tells whether a snapshot holds a session to index.
pub fn holds_session(file_line: bool, session: &str) -> (r: bool)
    ensures
        r == (!file_line && session@.len() != 0),
{
    !file_line && !session.is_empty()
}

// ---------------------------------------------------------------------------
// Turns
// ---------------------------------------------------------------------------

/// The events of each turn, by their positions in the session.
pub open spec fn turns_view(turns: Seq<Vec<usize>>) -> Seq<Seq<usize>> {
    Seq::new(turns.len(), |i: int| turns[i]@)
}

/// The turn of an event, counted from one: the last one that holds it, or zero where none does.
pub open spec fn turn_of(turns: Seq<Seq<usize>>, event: int) -> nat
    decreases turns.len(),
{
    if turns.len() == 0 {
        0
    } else if exists|k: int| 0 <= k < turns.last().len() && #[trigger] turns.last()[k] == event {
        turns.len()
    } else {
        turn_of(turns.drop_last(), event)
    }
}

/// The turn of each of the first `count` events.
fn event_turns(turns: &Vec<Vec<usize>>, count: usize) -> (r: Vec<usize>)
    ensures
        r@.len() == count,
        forall|e: int| 0 <= e < count ==> #[trigger] r@[e] == turn_of(turns_view(turns@), e),
{
    let ghost all = turns_view(turns@);
    let mut r: Vec<usize> = Vec::new();
    let mut n: usize = 0;
    while n < count
        invariant
            n <= count,
            r@.len() == n,
            forall|e: int| 0 <= e < n ==> r@[e] == 0,
        decreases count - n,
    {
        r.push(0);
        n = n + 1;
    }
    let mut t: usize = 0;
    while t < turns.len()
        invariant
            t <= turns@.len(),
            all == turns_view(turns@),
            r@.len() == count,
            forall|e: int| 0 <= e < count ==> #[trigger] r@[e] == turn_of(all.take(t as int), e),
        decreases turns@.len() - t,
    {
        let ghost here = all.take(t + 1);
        assert(here.drop_last() == all.take(t as int));
        assert(here.last() == turns@[t as int]@);
        let events = &turns[t];
        let mut k: usize = 0;
        while k < events.len()
            invariant
                k <= events@.len(),
                t < turns.len(),
                r@.len() == count,
                here == all.take(t + 1),
                here.len() == t + 1,
                here.last() == events@,
                forall|e: int|
                    0 <= e < count ==> #[trigger] r@[e] == (if exists|j: int|
                        0 <= j < k && #[trigger] events@[j] == e {
                        (t + 1) as nat
                    } else {
                        turn_of(here.drop_last(), e)
                    }),
            decreases events@.len() - k,
        {
            let ghost before = r@;
            let e: usize = events[k];
            if e < count {
                r.set(e, t + 1);
            }
            assert forall|x: int| 0 <= x < count implies #[trigger] r@[x] == (if exists|j: int|
                0 <= j < k + 1 && #[trigger] events@[j] == x {
                (t + 1) as nat
            } else {
                turn_of(here.drop_last(), x)
            }) by {
                assert(before[x] == (if exists|j: int| 0 <= j < k && #[trigger] events@[j] == x {
                    (t + 1) as nat
                } else {
                    turn_of(here.drop_last(), x)
                }));
                if x == e {
                    assert(events@[k as int] == x);
                } else {
                    assert(r@[x] == before[x]);
                    assert((exists|j: int| 0 <= j < k + 1 && #[trigger] events@[j] == x) == (exists|
                        j: int,
                    |
                        0 <= j < k && #[trigger] events@[j] == x));
                }
            }
            k = k + 1;
        }
        t = t + 1;
    }
    assert(all.take(t as int) == all);
    r
}

// ---------------------------------------------------------------------------
// What is saved of a snapshot
// ---------------------------------------------------------------------------

/// How many bytes of an event's text are indexed.
pub const MAX_TEXT: usize = 1048576;

/// An event of a session.
pub struct Event {
    pub kind: EventKind,
    pub text: Option<String>,
    /// The line of the raw transcript that the event comes from, counted from zero.
    pub line: Option<usize>,
    pub tool: Option<String>,
    pub paths: Vec<String>,
}

/// An event, seen through its characters.
#[verifier::ext_equal]
pub struct EventView {
    pub kind: EventKind,
    pub text: Option<Seq<char>>,
    pub line: Option<usize>,
    pub tool: Option<Seq<char>>,
    pub paths: Seq<Seq<char>>,
}

impl View for Event {
    type V = EventView;

    open spec fn view(&self) -> EventView {
        EventView {
            kind: self.kind,
            text: optional(self.text),
            line: self.line,
            tool: optional(self.tool),
            paths: texts(self.paths@),
        }
    }
}

/// What is saved of an event.
pub struct EventRow {
    /// The name under which the event's text is shared among snapshots.
    pub key: String,
    pub scope: String,
    pub text: String,
    pub search_text: String,
    pub tool: Option<String>,
    pub paths: Vec<String>,
    pub secondhand: bool,
    /// The event's position in the session.
    pub ordinal: usize,
    /// The line of the raw transcript, counted from one; zero where there is none.
    pub line: usize,
    pub turn: usize,
}

/// What is saved of an event, seen through its characters.
#[verifier::ext_equal]
pub struct EventRowView {
    pub key: Seq<char>,
    pub scope: Seq<char>,
    pub text: Seq<char>,
    pub search_text: Seq<char>,
    pub tool: Option<Seq<char>>,
    pub paths: Seq<Seq<char>>,
    pub secondhand: bool,
    pub ordinal: nat,
    pub line: nat,
    pub turn: nat,
}

impl View for EventRow {
    type V = EventRowView;

    open spec fn view(&self) -> EventRowView {
        EventRowView {
            key: self.key@,
            scope: self.scope@,
            text: self.text@,
            search_text: self.search_text@,
            tool: optional(self.tool),
            paths: texts(self.paths@),
            secondhand: self.secondhand,
            ordinal: self.ordinal as nat,
            line: self.line as nat,
            turn: self.turn as nat,
        }
    }
}

/// The text of an event: what it says, and the line of the raw transcript that it comes from.
pub open spec fn full_text(e: EventView, raw: Seq<Seq<char>>) -> Seq<char> {
    (match e.text {
        Some(t) => t,
        None => Seq::empty(),
    }) + "\n"@ + (match e.line {
        Some(n) => line_or_nothing(raw, n as int),
        None => Seq::empty(),
    })
}

/// The name under which an event's text is saved: the hash of its scope, text, tool and paths.
pub open spec fn event_key(
    scope: Seq<char>,
    text: Seq<char>,
    tool: Option<Seq<char>>,
    paths: Seq<Seq<char>>,
) -> Seq<char> {
    digest_of(
        encoded(
            Json::List(
                seq![Json::Text(scope), Json::Text(text), text_or_null(tool), text_list(paths)],
            ),
        ),
    )
}

/// What is saved of an event that has a label.
pub open spec fn row_of(
    e: EventView,
    label: ScopeLabel,
    ordinal: nat,
    raw: Seq<Seq<char>>,
    turns: Seq<Seq<usize>>,
) -> EventRowView {
    let full = full_text(e, raw);
    let text = fitting(full, MAX_TEXT as nat);
    EventRowView {
        key: event_key(label.name@, full, e.tool, e.paths),
        scope: label.name@,
        text,
        search_text: lowercase(text),
        tool: e.tool,
        paths: e.paths,
        secondhand: label.secondhand,
        ordinal,
        line: match e.line {
            Some(n) => (n + 1) as nat,
            None => 0,
        },
        turn: turn_of(turns, ordinal as int),
    }
}

/// What is saved of the events of a session: those with a scope, in order.
pub open spec fn rows_of(
    events: Seq<EventView>,
    labels: ScopeLabels,
    raw: Seq<Seq<char>>,
    turns: Seq<Seq<usize>>,
) -> Seq<EventRowView>
    decreases events.len(),
{
    if events.len() == 0 {
        Seq::empty()
    } else {
        let rows = rows_of(events.drop_last(), labels, raw, turns);
        match scope_of(events.last().kind) {
            Some(scope) => rows.push(
                row_of(
                    events.last(),
                    labels.of(scope),
                    (events.len() - 1) as nat,
                    raw,
                    turns,
                ),
            ),
            None => rows,
        }
    }
}

/// Whether an event's text is saved whole.
pub open spec fn saved_whole(e: EventView, raw: Seq<Seq<char>>) -> bool {
    scope_of(e.kind) is Some ==> encode_utf8(full_text(e, raw)).len() <= MAX_TEXT
}

/// The events, seen through their characters.
pub open spec fn event_views(v: Seq<Event>) -> Seq<EventView> {
    Seq::new(v.len(), |i: int| v[i]@)
}

/// The rows, seen through their characters.
pub open spec fn row_views(v: Seq<EventRow>) -> Seq<EventRowView> {
    Seq::new(v.len(), |i: int| v[i]@)
}

/// What is saved of a snapshot.
pub struct SnapshotRows {
    pub rows: Vec<EventRow>,
    /// Whether every event's text is saved whole.
    pub complete: bool,
}

fn make_row(
    event: &Event,
    label: &ScopeLabel,
    ordinal: usize,
    turn: usize,
    raw: &Vec<String>,
) -> (r: (EventRow, bool))
    requires
        event.line matches Some(n) ==> n < usize::MAX,
    ensures
        forall|turns: Seq<Seq<usize>>|
            turn_of(turns, ordinal as int) == turn ==> r.0@ == #[trigger] row_of(
                event@,
                *label,
                ordinal as nat,
                texts(raw@),
                turns,
            ),
        r.1 == (encode_utf8(full_text(event@, texts(raw@))).len() <= MAX_TEXT),
{
    let mut full = match &event.text {
        Some(t) => t.clone(),
        None => {
            let t = String::new();
            assert(t@ == Seq::<char>::empty());
            t
        },
    };
    append(&mut full, "\n");
    match event.line {
        Some(n) => {
            let row = row_or_nothing(raw, n);
            append(&mut full, row.as_str());
        },
        None => {
            assert(full@ + Seq::<char>::empty() == full@);
        },
    }
    assert(full@ == full_text(event@, texts(raw@)));
    let parts = vec![
        text(label.name.as_str()),
        text(full.as_str()),
        optional_text(&event.tool),
        texts_to_json(&event.paths),
    ];
    assert(jsons(parts@) == seq![
        Json::Text(label.name@),
        Json::Text(full@),
        text_or_null(event@.tool),
        text_list(event@.paths),
    ]);
    let bytes = crate::json::encode(&list(parts));
    let key = digest(bytes.as_slice());
    let whole = utf8_len(full.as_str()) <= MAX_TEXT;
    let kept = prefix_bytes(full.as_str(), MAX_TEXT);
    let search_text = lowercase_of(kept.as_str());
    let line: usize = match event.line {
        Some(n) => n + 1,
        None => 0,
    };
    let row = EventRow {
        key,
        scope: label.name.clone(),
        text: kept,
        search_text,
        tool: copy_optional(&event.tool),
        paths: copy_texts(&event.paths),
        secondhand: label.secondhand,
        ordinal,
        line,
        turn,
    };
    (row, whole)
}

/// Makes what is saved of a snapshot: its events with a scope, each with a bounded text, the line
/// it comes from and its turn.
pub fn index_snapshot(
    events: &Vec<Event>,
    labels: &ScopeLabels,
    raw: &Vec<String>,
    turns: &Vec<Vec<usize>>,
) -> (r: SnapshotRows)
    requires
        forall|i: int| 0 <= i < events@.len() ==> ((#[trigger] events@[i]).line matches Some(n)
            ==> n < usize::MAX),
    ensures
        row_views(r.rows@) == rows_of(
            event_views(events@),
            *labels,
            texts(raw@),
            turns_view(turns@),
        ),
        r.complete == (forall|i: int|
            0 <= i < events@.len() ==> saved_whole((#[trigger] events@[i])@, texts(raw@))),
{
    let ghost all = event_views(events@);
    let of_event = event_turns(turns, events.len());
    let mut rows: Vec<EventRow> = Vec::new();
    let mut complete = true;
    let mut i: usize = 0;
    assert(row_views(rows@) == Seq::<EventRowView>::empty());
    while i < events.len()
        invariant
            i <= events@.len(),
            all == event_views(events@),
            of_event@.len() == events@.len(),
            forall|e: int|
                0 <= e < events@.len() ==> #[trigger] of_event@[e] == turn_of(
                    turns_view(turns@),
                    e,
                ),
            forall|k: int| 0 <= k < events@.len() ==> ((#[trigger] events@[k]).line matches Some(n)
                ==> n < usize::MAX),
            row_views(rows@) == rows_of(
                all.take(i as int),
                *labels,
                texts(raw@),
                turns_view(turns@),
            ),
            complete == (forall|k: int|
                0 <= k < i ==> saved_whole((#[trigger] events@[k])@, texts(raw@))),
        decreases events@.len() - i,
    {
        let ghost here = all.take(i + 1);
        assert(here.drop_last() == all.take(i as int));
        assert(here.last() == events@[i as int]@);
        let event = &events[i];
        match scope(event.kind) {
            Some(s) => {
                let label = labels.get(s);
                let (row, whole) = make_row(event, label, i, of_event[i], raw);
                assert(row@ == row_of(event@, *label, i as nat, texts(raw@), turns_view(turns@)));
                let ghost before = rows@;
                rows.push(row);
                assert(row_views(rows@) == row_views(before).push(row@));
                complete = complete && whole;
            },
            None => {},
        }
        i = i + 1;
    }
    assert(all.take(i as int) == all);
    SnapshotRows { rows, complete }
}

proof fn lemma_one_more_result(past: Seq<bool>, indexed: bool)
    ensures
        past.push(indexed).contains(false) == (past.contains(false) || !indexed),
{
    let now = past.push(indexed);
    if past.contains(false) {
        let k = choose|k: int| 0 <= k < past.len() && past[k] == false;
        assert(now[k] == false);
    }
    if !indexed {
        assert(now[past.len() as int] == false);
    }
    if now.contains(false) && indexed {
        let k = choose|k: int| 0 <= k < now.len() && now[k] == false;
        assert(past[k] == false);
    }
}

/// A pass over the commits of a repository, each of which is indexed on its own.
pub struct IndexPass {
    pub commits: Vec<String>,
    pub at: usize,
    pub failed: bool,
    pub results: Ghost<Seq<bool>>,
}

impl IndexPass {
    /// The pass has a result for each commit before the next one, and notes a failure.
    pub open spec fn wf(self) -> bool {
        &&& self.at <= self.commits@.len()
        &&& self.results@.len() == self.at
        &&& self.failed == self.results@.contains(false)
    }

    /// Starts a pass.
    pub fn start(commits: Vec<String>) -> (r: Self)
        ensures
            r.wf(),
            r.commits == commits,
            r.at == 0,
    {
        IndexPass { commits, at: 0, failed: false, results: Ghost(Seq::empty()) }
    }

    /// The commit to index next, if one is left.
    pub fn next(&self) -> (r: Option<String>)
        requires
            self.wf(),
        ensures
            if self.at < self.commits@.len() {
                r is Some && r->0@ == self.commits@[self.at as int]@
            } else {
                r is None
            },
    {
        if self.at < self.commits.len() {
            Some(self.commits[self.at].clone())
        } else {
            None
        }
    }

    /// Notes whether the commit could be indexed. Whether or not it could, the pass goes on.
    pub fn record(&mut self, indexed: bool)
        requires
            old(self).wf(),
            old(self).at < old(self).commits.len(),
        ensures
            final(self).wf(),
            final(self).commits == old(self).commits,
            final(self).at == old(self).at + 1,
            final(self).results@ == old(self).results@.push(indexed),
    {
        let ghost past = self.results@;
        let ghost now = past.push(indexed);
        self.at = self.at + 1;
        self.results = Ghost(now);
        if !indexed {
            self.failed = true;
        }
        proof {
            lemma_one_more_result(past, indexed);
        }
    }
}

/// Ends a pass: whether the repository stays marked as indexed incompletely, and what the pass comes
/// to. It succeeds where every commit could be indexed and none is indexed in part; `partial` tells
/// of the latter.
pub fn reindex(pass: IndexPass, partial: bool) -> (r: (bool, Result<(), IndexError>))
    requires
        pass.wf(),
        pass.at == pass.commits@.len(),
    ensures
        r.0 == (pass.results@.contains(false) || partial),
        r.0 ==> r.1 == Err::<(), _>(IndexError::Incomplete),
        !r.0 ==> r.1 is Ok,
{
    if pass.failed || partial {
        (true, Err(IndexError::Incomplete))
    } else {
        (false, Ok(()))
    }
}

/// A rebuild of the search index: every repository is indexed anew.
pub struct Rebuild {
    pub repos: Vec<Repository>,
    pub at: usize,
    pub failed: bool,
    pub results: Ghost<Seq<bool>>,
}

impl Rebuild {
    /// The rebuild has a result for each repository before the next one, and notes a failure.
    pub open spec fn wf(self) -> bool {
        &&& self.at <= self.repos@.len()
        &&& self.results@.len() == self.at
        &&& self.failed == self.results@.contains(false)
    }

    /// Starts a rebuild: the repositories are taken by name.
    pub fn start(state: &State) -> (r: Self)
        ensures
            r.wf(),
            r.at == 0,
            repository_views(r.repos@) == by_name(state@.records),
    {
        Rebuild { repos: state.repositories(), at: 0, failed: false, results: Ghost(Seq::empty()) }
    }

    /// The repository to index next, if one is left.
    pub fn next(&self) -> (r: Option<Repository>)
        requires
            self.wf(),
        ensures
            if self.at < self.repos@.len() {
                r is Some && r->0@ == self.repos@[self.at as int]@
            } else {
                r is None
            },
    {
        if self.at < self.repos.len() {
            let repo = &self.repos[self.at];
            Some(
                Repository {
                    id: repo.id.clone(),
                    owner: repo.owner.clone(),
                    name: repo.name.clone(),
                },
            )
        } else {
            None
        }
    }

    /// Notes whether the repository could be indexed. Whether or not it could, the rebuild goes on.
    pub fn record(&mut self, indexed: bool)
        requires
            old(self).wf(),
            old(self).at < old(self).repos.len(),
        ensures
            final(self).wf(),
            final(self).repos == old(self).repos,
            final(self).at == old(self).at + 1,
            final(self).results@ == old(self).results@.push(indexed),
    {
        let ghost past = self.results@;
        self.at = self.at + 1;
        self.results = Ghost(past.push(indexed));
        if !indexed {
            self.failed = true;
        }
        proof {
            lemma_one_more_result(past, indexed);
        }
    }

    /// Ends a rebuild, which fails where a repository could not be indexed.
    pub fn finish(self) -> (r: Result<(), IndexError>)
        requires
            self.wf(),
            self.at == self.repos@.len(),
        ensures
            r is Ok <==> !self.results@.contains(false),
            r is Err ==> r == Err::<(), _>(IndexError::Rebuild),
    {
        if self.failed {
            Err(IndexError::Rebuild)
        } else {
            Ok(())
        }
    }
}

proof fn lemma_rows(
    events: Seq<EventView>,
    labels: ScopeLabels,
    raw: Seq<Seq<char>>,
    turns: Seq<Seq<usize>>,
)
    ensures
        forall|i: int|
            0 <= i < events.len() && scope_of((#[trigger] events[i]).kind) is Some ==> rows_of(
                events,
                labels,
                raw,
                turns,
            ).contains(
                row_of(
                    events[i],
                    labels.of(scope_of(events[i].kind)->0),
                    i as nat,
                    raw,
                    turns,
                ),
            ),
        forall|k: int|
            0 <= k < rows_of(events, labels, raw, turns).len() ==> (#[trigger] rows_of(
                events,
                labels,
                raw,
                turns,
            )[k]).ordinal < events.len(),
    decreases events.len(),
{
    if events.len() > 0 {
        let init = events.drop_last();
        lemma_rows(init, labels, raw, turns);
        let rows = rows_of(init, labels, raw, turns);
        let all = rows_of(events, labels, raw, turns);
        assert forall|i: int|
            0 <= i < events.len() && scope_of(
                (#[trigger] events[i]).kind,
            ) is Some implies all.contains(
            row_of(events[i], labels.of(scope_of(events[i].kind)->0), i as nat, raw, turns),
        ) by {
            let row = row_of(
                events[i],
                labels.of(scope_of(events[i].kind)->0),
                i as nat,
                raw,
                turns,
            );
            if i < init.len() {
                assert(init[i] == events[i]);
                assert(rows.contains(row));
                let k = choose|k: int| 0 <= k < rows.len() && rows[k] == row;
                assert(all[k] == row);
            } else {
                assert(all[all.len() - 1] == row);
            }
        }
        assert forall|k: int| 0 <= k < all.len() implies (#[trigger] all[k]).ordinal
            < events.len() by {
            if k < rows.len() {
                assert(all[k] == rows[k]);
            }
        }
    }
}

/// Every event with a scope is indexed, also behind one whose text is too long: a too long text
/// is cut, and nothing behind it is lost.
pub proof fn law_every_event_is_indexed(
    events: Seq<EventView>,
    labels: ScopeLabels,
    raw: Seq<Seq<char>>,
    turns: Seq<Seq<usize>>,
    i: int,
)
    requires
        0 <= i < events.len(),
        scope_of(events[i].kind) is Some,
    ensures
        rows_of(events, labels, raw, turns).contains(
            row_of(events[i], labels.of(scope_of(events[i].kind)->0), i as nat, raw, turns),
        ),
{
    lemma_rows(events, labels, raw, turns);
}

/// The saved text of an event is a prefix of its text within the limit, and the whole text where
/// that is within the limit.
pub proof fn law_saved_text_is_bounded(full: Seq<char>)
    ensures
        fitting(full, MAX_TEXT as nat).is_prefix_of(full),
        encode_utf8(fitting(full, MAX_TEXT as nat)).len() <= MAX_TEXT,
        encode_utf8(full).len() <= MAX_TEXT ==> fitting(full, MAX_TEXT as nat) == full,
    decreases full.len(),
{
    if encode_utf8(full).len() > MAX_TEXT {
        law_saved_text_is_bounded(full.drop_last());
        let short = fitting(full.drop_last(), MAX_TEXT as nat);
        assert(full.take(short.len() as int) == full.drop_last().take(short.len() as int));
    }
}

/// The text that is indexed of an event: its own, and behind a newline its line of the transcript.
pub open spec fn indexed_text(own: Option<Seq<char>>, line: Option<Seq<char>>) -> Seq<char> {
    let first = match own {
        Some(t) => t,
        None => Seq::<char>::empty(),
    };
    let second = match line {
        Some(t) => t,
        None => Seq::<char>::empty(),
    };
    first.push('\n') + second
}

/// Whether a row saves an event under a name: all it says is the event's, its text is a beginning
/// of at most one MiB of what is indexed of the event, and its key is the hash of the name, that
/// whole text, the tool and the paths.
pub open spec fn saves(
    row: EventRowView,
    e: EventView,
    ordinal: nat,
    name: Seq<char>,
    secondhand: bool,
    raw: Seq<Seq<char>>,
) -> bool {
    let whole = indexed_text(
        e.text,
        match e.line {
            Some(n) => if n < raw.len() {
                Some(raw[n as int])
            } else {
                None
            },
            None => None,
        },
    );
    &&& row.ordinal == ordinal
    &&& row.scope == name
    &&& row.secondhand == secondhand
    &&& row.key == digest_of(
        encoded(
            Json::List(
                seq![
                    Json::Text(name),
                    Json::Text(whole),
                    match e.tool {
                        Some(tool) => Json::Text(tool),
                        None => Json::Null,
                    },
                    Json::List(Seq::new(e.paths.len(), |i: int| Json::Text(e.paths[i]))),
                ],
            ),
        ),
    )
    &&& row.tool == e.tool
    &&& row.paths == e.paths
    &&& row.text.is_prefix_of(whole)
    &&& encode_utf8(row.text).len() <= 1048576
    &&& encode_utf8(whole).len() <= 1048576 ==> row.text == whole
    &&& row.text.len() < whole.len() ==> encode_utf8(whole.take(row.text.len() as int + 1)).len()
        > 1048576
    &&& row.search_text == lowercase(row.text)
    &&& row.line == match e.line {
        Some(n) => n as nat + 1,
        None => 0,
    }
}

proof fn lemma_row_saves(
    e: EventView,
    label: ScopeLabel,
    ordinal: nat,
    raw: Seq<Seq<char>>,
    turns: Seq<Seq<usize>>,
)
    ensures
        saves(row_of(e, label, ordinal, raw, turns), e, ordinal, label.name@, label.secondhand, raw),
{
    reveal_strlit("\n");
    let row = row_of(e, label, ordinal, raw, turns);
    let full = full_text(e, raw);
    let whole = indexed_text(
        e.text,
        match e.line {
            Some(n) => if n < raw.len() {
                Some(raw[n as int])
            } else {
                None
            },
            None => None,
        },
    );
    assert(full == whole);
    law_texts_are_cut_to_bytes(full, MAX_TEXT as nat);
    law_saved_text_is_bounded(full);
    let paths = Seq::new(e.paths.len(), |i: int| Json::Text(e.paths[i]));
    assert(text_list(e.paths)->List_0 == paths);
    assert(seq![
        Json::Text(label.name@),
        Json::Text(full),
        text_or_null(e.tool),
        text_list(e.paths),
    ] == seq![
        Json::Text(label.name@),
        Json::Text(whole),
        match e.tool {
            Some(tool) => Json::Text(tool),
            None => Json::Null,
        },
        Json::List(paths),
    ]);
}

/// Every event that is searched has a row, and the row has the name of the event's own scope:
/// what a user says is a prompt, what an assistant says a reply, what is asked of a tool a tool
/// event, what the tool gives back an output, a change of a file an edit, and what stands for
/// earlier parts of the session a summary.
pub proof fn law_rows_name_the_scope_of_their_event(
    events: Seq<EventView>,
    labels: ScopeLabels,
    raw: Seq<Seq<char>>,
    turns: Seq<Seq<usize>>,
    i: int,
)
    requires
        0 <= i < events.len(),
    ensures
        ({
            let rows = rows_of(events, labels, raw, turns);
            let e = events[i];
            &&& e.kind == EventKind::UserPrompt || e.kind == EventKind::UserInterjection
                ==> exists|k: int|
                0 <= k < rows.len() && saves(
                    #[trigger] rows[k],
                    e,
                    i as nat,
                    labels.prompt.name@,
                    labels.prompt.secondhand,
                    raw,
                )
            &&& e.kind == EventKind::AssistantReply ==> exists|k: int|
                0 <= k < rows.len() && saves(
                    #[trigger] rows[k],
                    e,
                    i as nat,
                    labels.reply.name@,
                    labels.reply.secondhand,
                    raw,
                )
            &&& e.kind == EventKind::ToolUse ==> exists|k: int|
                0 <= k < rows.len() && saves(
                    #[trigger] rows[k],
                    e,
                    i as nat,
                    labels.tool.name@,
                    labels.tool.secondhand,
                    raw,
                )
            &&& e.kind == EventKind::ToolResult ==> exists|k: int|
                0 <= k < rows.len() && saves(
                    #[trigger] rows[k],
                    e,
                    i as nat,
                    labels.output.name@,
                    labels.output.secondhand,
                    raw,
                )
            &&& e.kind == EventKind::FileEdit ==> exists|k: int|
                0 <= k < rows.len() && saves(
                    #[trigger] rows[k],
                    e,
                    i as nat,
                    labels.edit.name@,
                    labels.edit.secondhand,
                    raw,
                )
            &&& e.kind == EventKind::CompactFiltered || e.kind == EventKind::CompactSummary
                ==> exists|k: int|
                0 <= k < rows.len() && saves(
                    #[trigger] rows[k],
                    e,
                    i as nat,
                    labels.summary.name@,
                    labels.summary.secondhand,
                    raw,
                )
            &&& e.kind == EventKind::Other ==> forall|k: int|
                0 <= k < rows.len() ==> (#[trigger] rows[k]).ordinal != i
        }),
{
    let rows = rows_of(events, labels, raw, turns);
    lemma_rows_are_ordered(events, labels, raw, turns);
    if scope_of(events[i].kind) is Some {
        let label = labels.of(scope_of(events[i].kind)->0);
        let row = row_of(events[i], label, i as nat, raw, turns);
        lemma_rows(events, labels, raw, turns);
        lemma_row_saves(events[i], label, i as nat, raw, turns);
        assert(rows.contains(row));
        let k = choose|k: int| 0 <= k < rows.len() && rows[k] == row;
        assert(rows[k] == row);
    }
}

proof fn lemma_rows_are_ordered(
    events: Seq<EventView>,
    labels: ScopeLabels,
    raw: Seq<Seq<char>>,
    turns: Seq<Seq<usize>>,
)
    ensures
        ({
            let rows = rows_of(events, labels, raw, turns);
            &&& forall|j: int, k: int|
                0 <= j < k < rows.len() ==> (#[trigger] rows[j]).ordinal < (
                #[trigger] rows[k]).ordinal
            &&& forall|k: int|
                0 <= k < rows.len() ==> (#[trigger] rows[k]).ordinal < events.len() && scope_of(
                    events[rows[k].ordinal as int].kind,
                ) is Some && rows[k].turn == turn_of(turns, rows[k].ordinal as int)
        }),
    decreases events.len(),
{
    if events.len() > 0 {
        let init = events.drop_last();
        lemma_rows_are_ordered(init, labels, raw, turns);
        let past = rows_of(init, labels, raw, turns);
        let rows = rows_of(events, labels, raw, turns);
        assert forall|k: int| 0 <= k < rows.len() implies (#[trigger] rows[k]).ordinal
            < events.len() && scope_of(events[rows[k].ordinal as int].kind) is Some && rows[k].turn
            == turn_of(turns, rows[k].ordinal as int) by {
            if k < past.len() {
                assert(rows[k] == past[k]);
                assert(init[past[k].ordinal as int] == events[past[k].ordinal as int]);
            }
        }
        assert forall|j: int, k: int| 0 <= j < k < rows.len() implies (#[trigger] rows[j]).ordinal
            < (#[trigger] rows[k]).ordinal by {
            assert(rows[j] == past[j]);
            if k < past.len() {
                assert(rows[k] == past[k]);
            }
        }
    }
}

/// The rows of a snapshot are those of its events, in their order and each once, and each tells
/// the turn that its event stands in.
pub proof fn law_rows_follow_the_events(
    events: Seq<EventView>,
    labels: ScopeLabels,
    raw: Seq<Seq<char>>,
    turns: Seq<Seq<usize>>,
    k: int,
)
    requires
        0 <= k < rows_of(events, labels, raw, turns).len(),
    ensures
        ({
            let rows = rows_of(events, labels, raw, turns);
            let event = rows[k].ordinal as int;
            &&& event < events.len()
            &&& k > 0 ==> rows[k - 1].ordinal < event
            &&& rows[k].turn <= turns.len()
            &&& rows[k].turn > 0 ==> exists|j: int|
                0 <= j < turns[rows[k].turn - 1].len() && #[trigger] turns[rows[k].turn - 1][j]
                    == event
            &&& forall|t: int, j: int|
                rows[k].turn <= t < turns.len() && 0 <= j < turns[t].len()
                    ==> #[trigger] turns[t][j] != event
        }),
{
    lemma_rows_are_ordered(events, labels, raw, turns);
    lemma_turn_of(turns, rows_of(events, labels, raw, turns)[k].ordinal as int);
}

proof fn lemma_turn_of(turns: Seq<Seq<usize>>, event: int)
    ensures
        ({
            let n = turn_of(turns, event);
            &&& n <= turns.len()
            &&& n > 0 ==> exists|j: int|
                0 <= j < turns[n - 1].len() && #[trigger] turns[n - 1][j] == event
            &&& forall|t: int, j: int|
                n <= t < turns.len() && 0 <= j < turns[t].len() ==> #[trigger] turns[t][j] != event
        }),
    decreases turns.len(),
{
    if turns.len() > 0 {
        let init = turns.drop_last();
        lemma_turn_of(init, event);
        assert(turns[turns.len() - 1] == turns.last());
        let n = turn_of(turns, event);
        if n < turns.len() {
            assert(n == turn_of(init, event));
            assert forall|t: int, j: int|
                n <= t < turns.len() && 0 <= j < turns[t].len() implies #[trigger] turns[t][j]
                != event by {
                if t < init.len() {
                    assert(init[t] == turns[t]);
                    assert(init[t][j] != event);
                }
            }
            if n > 0 {
                assert(init[n - 1] == turns[n - 1]);
            }
        }
    }
}

/// The references of a listing are its lines, parted at the first space; one line without a space
/// spoils it.
pub proof fn law_references_are_the_lines(listing: Seq<Seq<char>>)
    ensures
        match refs_of(listing) {
            Some(refs) => {
                &&& refs.len() == listing.len()
                &&& forall|i: int|
                    0 <= i < listing.len() ==> #[trigger] listing[i] == refs[i].0.push(' ')
                        + refs[i].1 && !refs[i].0.contains(' ')
            },
            None => exists|i: int| 0 <= i < listing.len() && !(#[trigger] listing[i]).contains(' '),
        },
    decreases listing.len(),
{
    if listing.len() > 0 {
        let init = listing.drop_last();
        law_references_are_the_lines(init);
        lemma_halves(listing.last(), ' ');
        assert(listing[listing.len() - 1] == listing.last());
        match refs_of(init) {
            Some(past) => {
                if refs_of(listing) is Some {
                    let refs = refs_of(listing)->0;
                    assert forall|i: int| 0 <= i < listing.len() implies #[trigger] listing[i]
                        == refs[i].0.push(' ') + refs[i].1 && !refs[i].0.contains(' ') by {
                        if i < init.len() {
                            assert(init[i] == listing[i]);
                            assert(refs[i] == past[i]);
                        }
                    }
                }
            },
            None => {
                let i = choose|i: int|
                    0 <= i < init.len() && !(#[trigger] init[i]).contains(' ');
                assert(listing[i] == init[i]);
            },
        }
    }
}

/// What Git prints of a commit is read line by line: when it was saved, by whom, and under which
/// address.
pub proof fn law_saved_lines_are_read(at: nat, author: Seq<char>, email: Seq<char>)
    requires
        at <= 8210266876799,
        !author.contains('\n'),
        author.len() == 0 || author.last() != '\r',
        !email.contains('\n'),
        email.len() > 0,
        email.last() != '\r',
    ensures
        ({
            let printed = decimal(at).push('\n') + (author.push('\n') + email.push('\n'));
            saved_of(printed) == Ok::<(int, Seq<char>, Seq<char>), IndexError>(
                (at as int, author, email),
            )
        }),
{
    let rest = author.push('\n') + email.push('\n');
    law_decimal_text(at);
    let d = decimal(at);
    assert(d.len() > 0);
    assert forall|i: int| 0 <= i < d.len() implies d[i] != '\n' && d[i] != '\r' by {
        assert(is_digit(d[i]));
    }
    law_newline_ends_a_line(d, rest);
    law_newline_ends_a_line(author, email.push('\n'));
    law_newline_ends_a_line(email, Seq::<char>::empty());
    assert(email.push('\n') + Seq::<char>::empty() == email.push('\n'));
    law_text_without_newline_is_a_line(Seq::<char>::empty());
    assert(seq![d] + (seq![author] + (seq![email] + Seq::<Seq<char>>::empty())) == seq![
        d,
        author,
        email,
    ]);
    law_signed_text_is_read_back(at);
}

/// The commits that are indexed are the lines that Git lists, up to a hundred thousand of them.
pub proof fn law_listed_commits_are_the_lines(commit: Seq<char>, rest: Seq<char>, listing: Seq<char>)
    requires
        !commit.contains('\n'),
        commit.len() > 0,
        commit.last() != '\r',
    ensures
        listed_commits(listing) is Some <==> lines(listing).len() <= 100000,
        listed_commits(commit.push('\n') + rest) matches Some(commits) ==> commits == seq![commit]
            + lines(rest),
{
    law_newline_ends_a_line(commit, rest);
}

/// An event is saved whole exactly where it is not searched, or where all that is indexed of it
/// has at most one MiB.
pub proof fn law_which_events_are_saved_whole(e: EventView, raw: Seq<Seq<char>>)
    ensures
        e.kind == EventKind::Other ==> saved_whole(e, raw),
        e.kind != EventKind::Other ==> (saved_whole(e, raw) <==> encode_utf8(
            indexed_text(
                e.text,
                match e.line {
                    Some(n) => if n < raw.len() {
                        Some(raw[n as int])
                    } else {
                        None
                    },
                    None => None,
                },
            ),
        ).len() <= 1048576),
{
    reveal_strlit("\n");
    let whole = indexed_text(
        e.text,
        match e.line {
            Some(n) => if n < raw.len() {
                Some(raw[n as int])
            } else {
                None
            },
            None => None,
        },
    );
    assert(full_text(e, raw) =~= whole);
}

/// A snapshot is indexed where it is no plain file and names its session.
pub proof fn law_which_snapshots_hold_a_session(file_line: bool, session: &str, r: bool)
    requires
        call_ensures(holds_session, (file_line, session), r),
    ensures
        file_line ==> !r,
        session@.len() == 0 ==> !r,
        !file_line && session@.len() > 0 ==> r,
{
}

/// A repository stays marked for indexing as long as one commit was not indexed, or not all were
/// listed, and that is told.
pub proof fn law_when_a_repository_is_indexed(
    pass: IndexPass,
    partial: bool,
    r: (bool, Result<(), IndexError>),
    i: int,
)
    requires
        call_ensures(reindex, (pass, partial), r),
    ensures
        0 <= i < pass.results@.len() && !pass.results@[i] ==> r.0,
        partial ==> r.0,
        !partial && (forall|k: int| 0 <= k < pass.results@.len() ==> #[trigger] pass.results@[k])
            ==> !r.0,
        r.1 is Ok <==> !r.0,
{
    if 0 <= i < pass.results@.len() && !pass.results@[i] {
        assert(pass.results@.contains(pass.results@[i]));
    }
}

/// A rebuild fails where one repository could not be indexed, and only there.
pub proof fn law_when_a_rebuild_fails(rebuild: Rebuild, r: Result<(), IndexError>, i: int)
    requires
        call_ensures(Rebuild::finish, (rebuild,), r),
    ensures
        0 <= i < rebuild.results@.len() && !rebuild.results@[i] ==> r is Err,
        (forall|k: int| 0 <= k < rebuild.results@.len() ==> #[trigger] rebuild.results@[k])
            ==> r is Ok,
{
    if 0 <= i < rebuild.results@.len() && !rebuild.results@[i] {
        assert(rebuild.results@.contains(rebuild.results@[i]));
    }
}

} // verus!
