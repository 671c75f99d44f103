//! Reading a saved session in bounded parts.
use crate::index::{turns_view, IndexError};
use crate::json::{all_items, copy, encode, encoded, flag, items_under, json_of, jsons,
    lemma_object_of, list, member, members, natural, null, object, object_of, optional_text, pair,
    text, text_or_null, Json};
use crate::outside::{optional, pairs_of};
use crate::params::{law_last_parameter_counts, parameter, value_of};
use crate::text::{append, decimal, law_decimal_text_is_read_back, number, parse_number, same};
use serde_json::Value;
use vstd::prelude::*;

verus! {

// ---------------------------------------------------------------------------
// Requests
// ---------------------------------------------------------------------------

/// How many turns one read may ask for.
pub const MAX_TURNS: usize = 50;

/// Which turns of which snapshot are to be read: from `from` up to, not including, `to`.
pub struct ReadRequest {
    pub reference: String,
    pub from: usize,
    pub to: usize,
}

/// The first turn that a request asks for.
pub open spec fn from_turn(params: Seq<(Seq<char>, Seq<char>)>) -> Result<nat, IndexError> {
    match value_of(params, "from"@) {
        None => Ok(1),
        Some(v) => match number(v, usize::MAX as nat) {
            Ok(n) => Ok(n),
            Err(e) => Err(IndexError::Number(e)),
        },
    }
}

/// The turn before which a request ends: ten turns behind the first one, if it does not say.
pub open spec fn to_turn(params: Seq<(Seq<char>, Seq<char>)>, from: nat) -> Result<
    nat,
    IndexError,
> {
    match value_of(params, "to"@) {
        None => if from + 10 <= usize::MAX {
            Ok(from + 10)
        } else {
            Err(IndexError::RangeOverflow)
        },
        Some(v) => match number(v, usize::MAX as nat) {
            Ok(n) => Ok(n),
            Err(e) => Err(IndexError::Number(e)),
        },
    }
}

/// The reference, the first turn and the end that a request asks for, or why it is refused.
pub open spec fn read_request(params: Seq<(Seq<char>, Seq<char>)>) -> Result<
    (Seq<char>, nat, nat),
    IndexError,
> {
    match value_of(params, "ref"@) {
        None => Err(IndexError::MissingReference),
        Some(reference) => match from_turn(params) {
            Err(e) => Err(e),
            Ok(from) => match to_turn(params, from) {
                Err(e) => Err(e),
                Ok(to) => if from > 0 && to > from && to - from <= MAX_TURNS {
                    Ok((reference, from, to))
                } else {
                    Err(IndexError::Range)
                },
            },
        },
    }
}

impl ReadRequest {
    /// Whether the request asks for between one and fifty turns.
    pub open spec fn wf(self) -> bool {
        self.from > 0 && self.to > self.from && self.to - self.from <= MAX_TURNS
    }

    /// Reads the parameters of a request.
    pub fn parse(params: &Vec<(String, String)>) -> (r: Result<ReadRequest, IndexError>)
        ensures
            match read_request(pairs_of(params@)) {
                Ok((reference, from, to)) => {
                    &&& r is Ok
                    &&& r->Ok_0.reference@ == reference
                    &&& r->Ok_0.from == from
                    &&& r->Ok_0.to == to
                    &&& r->Ok_0.wf()
                },
                Err(e) => r == Err::<ReadRequest, _>(e),
            },
    {
        let reference = match parameter(params, "ref") {
            Some(v) => v,
            None => {
                return Err(IndexError::MissingReference);
            },
        };
        let from: usize = match parameter(params, "from") {
            None => 1,
            Some(v) => match parse_number(v.as_str(), usize::MAX as u64) {
                Ok(n) => n as usize,
                Err(e) => {
                    return Err(IndexError::Number(e));
                },
            },
        };
        let to: usize = match parameter(params, "to") {
            None => match from.checked_add(10) {
                Some(n) => n,
                None => {
                    return Err(IndexError::RangeOverflow);
                },
            },
            Some(v) => match parse_number(v.as_str(), usize::MAX as u64) {
                Ok(n) => n as usize,
                Err(e) => {
                    return Err(IndexError::Number(e));
                },
            },
        };
        if from > 0 && to > from && to - from <= MAX_TURNS {
            Ok(ReadRequest { reference, from, to })
        } else {
            Err(IndexError::Range)
        }
    }
}

/// Checks that a snapshot holds the session that is to be read.
pub fn check_session(saved: &str, wanted: &str) -> (r: Result<(), IndexError>)
    ensures
        r is Ok <==> saved@ == wanted@,
        r is Err ==> r == Err::<(), _>(IndexError::SessionMismatch),
{
    if same(saved, wanted) {
        Ok(())
    } else {
        Err(IndexError::SessionMismatch)
    }
}

// ---------------------------------------------------------------------------
// Where turns begin
// ---------------------------------------------------------------------------

/// The first line of the events of a turn; `None` where no event of the turn has a line.
pub open spec fn first_line(events: Seq<usize>, event_lines: Seq<Option<usize>>) -> Option<usize>
    decreases events.len(),
{
    if events.len() == 0 {
        None
    } else {
        match (first_line(events.drop_last(), event_lines), event_lines[events.last() as int]) {
            (None, line) => line,
            (first, None) => first,
            (Some(a), Some(b)) => Some(
                if b < a {
                    b
                } else {
                    a
                },
            ),
        }
    }
}

/// The line at which a turn begins. The first turn begins with the transcript.
pub open spec fn turn_start(
    turns: Seq<Seq<usize>>,
    event_lines: Seq<Option<usize>>,
    turn: int,
) -> int {
    if turn == 0 {
        0
    } else {
        first_line(turns[turn], event_lines)->0 as int
    }
}

/// Where the turns begin, and behind them the end of the transcript.
pub open spec fn bounds(
    turns: Seq<Seq<usize>>,
    event_lines: Seq<Option<usize>>,
    total: nat,
) -> Seq<int> {
    Seq::new(
        turns.len() + 1,
        |t: int|
            if t < turns.len() {
                turn_start(turns, event_lines, t)
            } else {
                total as int
            },
    )
}

/// Whether every turn has a line.
pub open spec fn turns_have_lines(
    turns: Seq<Seq<usize>>,
    event_lines: Seq<Option<usize>>,
) -> bool {
    forall|t: int| 0 <= t < turns.len() ==> first_line(#[trigger] turns[t], event_lines) is Some
}

/// Whether each number is at most the one behind it.
pub open spec fn ascending(s: Seq<int>) -> bool {
    forall|i: int| 0 <= i < s.len() - 1 ==> #[trigger] s[i] <= s[i + 1]
}

/// The numbers as integers.
pub open spec fn ints(v: Seq<usize>) -> Seq<int> {
    Seq::new(v.len(), |i: int| v[i] as int)
}

fn least_line(events: &Vec<usize>, event_lines: &Vec<Option<usize>>) -> (r: Option<usize>)
    requires
        forall|i: int| 0 <= i < events@.len() ==> #[trigger] events@[i] < event_lines@.len(),
    ensures
        r == first_line(events@, event_lines@),
{
    let mut least: Option<usize> = None;
    let mut i: usize = 0;
    while i < events.len()
        invariant
            i <= events@.len(),
            forall|k: int| 0 <= k < events@.len() ==> #[trigger] events@[k] < event_lines@.len(),
            least == first_line(events@.take(i as int), event_lines@),
        decreases events@.len() - i,
    {
        assert(events@.take(i + 1).drop_last() == events@.take(i as int));
        let line = event_lines[events[i]];
        least = match (least, line) {
            (None, l) => l,
            (first, None) => first,
            (Some(a), Some(b)) => Some(
                if b < a {
                    b
                } else {
                    a
                },
            ),
        };
        i = i + 1;
    }
    assert(events@.take(i as int) == events@);
    least
}

/// Finds where the turns of a session begin in its transcript of `total` lines. `turns` lists the
/// events of each turn, `event_lines` the line of each event.
pub fn turn_bounds(turns: &Vec<Vec<usize>>, event_lines: &Vec<Option<usize>>, total: usize) -> (r:
    Result<Vec<usize>, IndexError>)
    requires
        forall|t: int, i: int|
            0 <= t < turns@.len() && 0 <= i < turns@[t]@.len() ==> #[trigger] turns@[t]@[i]
                < event_lines@.len(),
    ensures
        ({
            let all = turns_view(turns@);
            if !turns_have_lines(all, event_lines@) {
                r == Err::<Vec<usize>, _>(IndexError::NoSourceLine)
            } else if !ascending(bounds(all, event_lines@, total as nat)) {
                r == Err::<Vec<usize>, _>(IndexError::Unordered)
            } else {
                r is Ok && ints(r->Ok_0@) == bounds(all, event_lines@, total as nat)
            }
        }),
{
    let ghost all = turns_view(turns@);
    let mut starts: Vec<usize> = Vec::new();
    let mut t: usize = 0;
    while t < turns.len()
        invariant
            t <= turns@.len(),
            all == turns_view(turns@),
            starts@.len() == t,
            forall|a: int, i: int|
                0 <= a < turns@.len() && 0 <= i < turns@[a]@.len() ==> #[trigger] turns@[a]@[i]
                    < event_lines@.len(),
            forall|a: int| 0 <= a < t ==> first_line(#[trigger] all[a], event_lines@) is Some,
            forall|a: int|
                0 <= a < t ==> #[trigger] starts@[a] == turn_start(all, event_lines@, a),
        decreases turns@.len() - t,
    {
        assert(all[t as int] == turns@[t as int]@);
        match least_line(&turns[t], event_lines) {
            Some(line) => {
                starts.push(
                    if t == 0 {
                        0
                    } else {
                        line
                    },
                );
            },
            None => {
                assert(first_line(all[t as int], event_lines@) is None);
                return Err(IndexError::NoSourceLine);
            },
        }
        t = t + 1;
    }
    starts.push(total);
    let ghost want = bounds(all, event_lines@, total as nat);
    assert(ints(starts@) == want);
    let mut i: usize = 0;
    while i < starts.len() - 1
        invariant
            i < starts.len(),
            starts@.len() == want.len(),
            ints(starts@) == want,
            turns_have_lines(all, event_lines@),
            all == turns_view(turns@),
            want == bounds(all, event_lines@, total as nat),
            forall|k: int| 0 <= k < i ==> #[trigger] want[k] <= want[k + 1],
        decreases starts@.len() - i,
    {
        assert(want[i as int] == starts@[i as int]);
        assert(want[i + 1] == starts@[i + 1]);
        if starts[i] > starts[i + 1] {
            return Err(IndexError::Unordered);
        }
        i = i + 1;
    }
    Ok(starts)
}

proof fn lemma_ascending(s: Seq<int>, i: int, j: int)
    requires
        ascending(s),
        0 <= i <= j < s.len(),
    ensures
        s[i] <= s[j],
    decreases j - i,
{
    if i < j {
        lemma_ascending(s, i, j - 1);
        assert(s[j - 1] <= s[j - 1 + 1]);
    }
}

proof fn lemma_turn_exists(s: Seq<int>, line: int) -> (t: int)
    requires
        s.len() >= 2,
        s[0] <= line,
        line < s[s.len() - 1],
    ensures
        0 <= t < s.len() - 1,
        s[t] <= line < s[t + 1],
    decreases s.len(),
{
    let last = s.len() - 2;
    if s[last] <= line {
        last
    } else {
        let shorter = s.drop_last();
        lemma_turn_exists(shorter, line)
    }
}

/// The turns share the transcript out: every line belongs to exactly one turn.
pub proof fn law_turns_share_out_the_transcript(
    turns: Seq<Seq<usize>>,
    event_lines: Seq<Option<usize>>,
    total: nat,
    line: int,
)
    requires
        turns.len() > 0,
        ascending(bounds(turns, event_lines, total)),
        0 <= line < total,
    ensures
        exists|t: int|
            0 <= t < turns.len() && #[trigger] bounds(turns, event_lines, total)[t] <= line
                < bounds(turns, event_lines, total)[t + 1],
        forall|a: int, b: int|
            0 <= a < turns.len() && 0 <= b < turns.len() && #[trigger] bounds(
                turns,
                event_lines,
                total,
            )[a] <= line < bounds(turns, event_lines, total)[a + 1] && #[trigger] bounds(
                turns,
                event_lines,
                total,
            )[b] <= line < bounds(turns, event_lines, total)[b + 1] ==> a == b,
{
    let s = bounds(turns, event_lines, total);
    let t = lemma_turn_exists(s, line);
    assert(s[t] <= line < s[t + 1]);
    assert forall|a: int, b: int|
        0 <= a < turns.len() && 0 <= b < turns.len() && #[trigger] s[a] <= line < s[a + 1]
            && #[trigger] s[b] <= line < s[b + 1] implies a == b by {
        if a < b {
            lemma_ascending(s, a + 1, b);
        }
        if b < a {
            lemma_ascending(s, b + 1, a);
        }
    }
}

// ---------------------------------------------------------------------------
// Selected turns
// ---------------------------------------------------------------------------

/// How many bytes of JSON one read returns at most for its turns.
pub const MAX_READ: usize = 4194304;

/// A record of the transcript.
pub struct Envelope {
    pub source: String,
    pub session_id: Value,
    pub content: Value,
}

/// A record of the transcript, seen through what it holds.
#[verifier::ext_equal]
pub struct EnvelopeView {
    pub source: Seq<char>,
    pub session_id: Json,
    pub content: Json,
}

impl View for Envelope {
    type V = EnvelopeView;

    open spec fn view(&self) -> EnvelopeView {
        EnvelopeView {
            source: self.source@,
            session_id: json_of(self.session_id),
            content: json_of(self.content),
        }
    }
}

/// The records, seen through what they hold.
pub open spec fn envelope_views(v: Seq<Envelope>) -> Seq<EnvelopeView> {
    Seq::new(v.len(), |i: int| v[i]@)
}

/// The JSON form of a record.
pub open spec fn envelope_json(e: EnvelopeView, line: int) -> Json {
    Json::Object(
        object_of(
            seq![
                ("line"@, Json::Natural((line + 1) as u64)),
                ("source"@, Json::Text(e.source)),
                ("source_session_id"@, e.session_id),
                ("content"@, e.content),
            ],
        ),
    )
}

/// The JSON form of a turn: its number, and the records from where it begins up to where the next
/// one does.
pub open spec fn turn_json(envelopes: Seq<EnvelopeView>, starts: Seq<int>, turn: int) -> Json {
    Json::Object(
        object_of(
            seq![
                ("turn"@, Json::Natural((turn + 1) as u64)),
                (
                    "events"@,
                    Json::List(
                        Seq::new(
                            (starts[turn + 1] - starts[turn]) as nat,
                            |k: int|
                                envelope_json(envelopes[starts[turn] + k], starts[turn] + k),
                        ),
                    ),
                ),
            ],
        ),
    )
}

/// The size of a turn in a reply.
pub open spec fn turn_size(envelopes: Seq<EnvelopeView>, starts: Seq<int>, turn: int) -> nat {
    encoded(turn_json(envelopes, starts, turn)).len()
}

/// Where a read that starts at a turn stops: at the end, or at the first turn that no longer fits
/// beside the `used` bytes of those before it; `None` where it meets a turn that fits into no
/// reply.
pub open spec fn read_stop(
    envelopes: Seq<EnvelopeView>,
    starts: Seq<int>,
    turn: int,
    end: int,
    used: nat,
) -> Option<int>
    decreases end - turn,
{
    if turn >= end {
        Some(turn)
    } else {
        let size = turn_size(envelopes, starts, turn);
        if size > MAX_READ {
            None
        } else if used + size > MAX_READ {
            Some(turn)
        } else {
            read_stop(envelopes, starts, turn + 1, end, used + size)
        }
    }
}

fn write_envelope(envelope: &Envelope, line: usize) -> (r: Value)
    requires
        line < u64::MAX,
    ensures
        json_of(r) == envelope_json(envelope@, line as int),
{
    let pairs = vec![
        pair("line", natural(line as u64 + 1)),
        pair("source", text(envelope.source.as_str())),
        pair("source_session_id", copy(&envelope.session_id)),
        pair("content", copy(&envelope.content)),
    ];
    assert(members(pairs@) == seq![
        ("line"@, Json::Natural((line + 1) as u64)),
        ("source"@, Json::Text(envelope@.source)),
        ("source_session_id"@, envelope@.session_id),
        ("content"@, envelope@.content),
    ]);
    object(pairs)
}

fn write_turn(envelopes: &Vec<Envelope>, starts: &Vec<usize>, turn: usize) -> (r: Value)
    requires
        turn + 1 < starts.len(),
        starts@[turn as int] <= starts@[turn + 1] <= envelopes@.len(),
    ensures
        json_of(r) == turn_json(envelope_views(envelopes@), ints(starts@), turn as int),
{
    let first: usize = starts[turn];
    let end: usize = starts[turn + 1];
    let ghost all = envelope_views(envelopes@);
    let mut events: Vec<Value> = Vec::new();
    let mut line: usize = first;
    while line < end
        invariant
            first <= line <= end,
            end <= envelopes.len(),
            all == envelope_views(envelopes@),
            events@.len() == line - first,
            forall|k: int|
                0 <= k < events@.len() ==> json_of(#[trigger] events@[k]) == envelope_json(
                    all[first + k],
                    first + k,
                ),
        decreases end - line,
    {
        events.push(write_envelope(&envelopes[line], line));
        line = line + 1;
    }
    let ghost starts_view = ints(starts@);
    let pairs = vec![
        pair("turn", natural(turn as u64 + 1)),
        pair("events", list(events)),
    ];
    assert(jsons(events@) == Seq::new(
        (starts_view[turn + 1] - starts_view[turn as int]) as nat,
        |k: int|
            envelope_json(all[starts_view[turn as int] + k], starts_view[turn as int] + k),
    ));
    assert(members(pairs@) == seq![
        ("turn"@, Json::Natural((turn + 1) as u64)),
        ("events"@, Json::List(jsons(events@))),
    ]);
    object(pairs)
}

/// What a read is about.
pub struct ReadSubject {
    pub owner: String,
    pub name: String,
    pub session_id: String,
    pub runtime: String,
    pub commit: String,
    /// What the Hub warns of, where its storage runs out.
    pub storage_warning: Option<String>,
}

/// The turn before which a read ends, counted from zero: the requested end, or that of the session.
pub open spec fn read_end(to: nat, turns: nat) -> int {
    if to - 1 < turns {
        to - 1
    } else {
        turns as int
    }
}

/// The turn to go on with, counted from one, where the read stopped at a turn, counted from zero.
pub open spec fn next_turn(to: nat, turns: nat, stop: int) -> Option<int> {
    if stop < read_end(to, turns) {
        Some(stop + 1)
    } else if to <= turns {
        Some(to as int)
    } else {
        None
    }
}

/// The JSON form of an optional number.
pub open spec fn number_or_null(n: Option<int>) -> Json {
    match n {
        Some(n) => Json::Natural(n as u64),
        None => Json::Null,
    }
}

/// The reply to a read that stopped at a turn, counted from zero.
pub open spec fn read_json(
    subject: ReadSubject,
    from: nat,
    to: nat,
    envelopes: Seq<EnvelopeView>,
    starts: Seq<int>,
    stop: int,
) -> Json {
    let turns = (starts.len() - 1) as nat;
    let next = next_turn(to, turns, stop);
    let selected = if stop > from - 1 {
        (stop - (from - 1)) as nat
    } else {
        0
    };
    Json::Object(
        object_of(
            seq![
                ("schema"@, Json::Text("agit-selfhost-transcript"@)),
                ("schema_version"@, Json::Natural(1)),
                ("agent"@, Json::Text(subject.owner@ + "/"@ + subject.name@)),
                ("session_id"@, Json::Text(subject.session_id@)),
                ("runtime"@, Json::Text(subject.runtime@)),
                ("commit"@, Json::Text(subject.commit@)),
                ("from"@, Json::Natural(from as u64)),
                ("to"@, Json::Natural(to as u64)),
                ("total_turns"@, Json::Natural(turns as u64)),
                (
                    "turns"@,
                    Json::List(
                        Seq::new(
                            selected,
                            |k: int| turn_json(envelopes, starts, from - 1 + k),
                        ),
                    ),
                ),
                ("next_from"@, number_or_null(next)),
                ("truncated"@, Json::Flag(next is Some)),
                ("storage_warning"@, text_or_null(optional(subject.storage_warning))),
            ],
        ),
    )
}

/// Reads turns of a session. `starts` tells where the turns begin, and behind them where the
/// transcript ends. A turn that fits into no reply is an error; where the turns do not fit
/// together, the reply says with which one to go on.
pub fn read_remote(
    subject: &ReadSubject,
    request: &ReadRequest,
    envelopes: &Vec<Envelope>,
    starts: &Vec<usize>,
) -> (r: Result<Value, IndexError>)
    requires
        request.wf(),
        starts@.len() > 0,
        ascending(ints(starts@)),
        starts@.last() == envelopes@.len(),
    ensures
        ({
            let views = envelope_views(envelopes@);
            let begins = ints(starts@);
            let end = read_end(request.to as nat, (starts@.len() - 1) as nat);
            match read_stop(views, begins, request.from - 1, end, 0) {
                Some(stop) => r is Ok && json_of(r->Ok_0) == read_json(
                    *subject,
                    request.from as nat,
                    request.to as nat,
                    views,
                    begins,
                    stop,
                ),
                None => r == Err::<Value, _>(IndexError::TurnTooLarge),
            }
        }),
{
    let ghost views = envelope_views(envelopes@);
    let ghost begins = ints(starts@);
    let total: usize = starts.len() - 1;
    let end: usize = if request.to - 1 < total {
        request.to - 1
    } else {
        total
    };
    let first: usize = request.from - 1;
    let mut turn: usize = first;
    let mut used: usize = 0;
    let mut selected: Vec<Value> = Vec::new();
    let mut cut = false;
    while turn < end && !cut
        invariant
            request.wf(),
            first == request.from - 1,
            end == read_end(request.to as nat, (starts@.len() - 1) as nat),
            first <= turn,
            turn <= end || turn == first,
            end < starts.len(),
            starts@.len() > 0,
            ascending(ints(starts@)),
            starts@.last() == envelopes@.len(),
            views == envelope_views(envelopes@),
            begins == ints(starts@),
            used <= MAX_READ,
            selected@.len() == turn - first,
            forall|k: int|
                0 <= k < selected@.len() ==> json_of(#[trigger] selected@[k]) == turn_json(
                    views,
                    begins,
                    first + k,
                ),
            cut ==> turn < end && read_stop(views, begins, first as int, end as int, 0) == Some(
                turn as int,
            ),
            !cut ==> read_stop(views, begins, first as int, end as int, 0) == read_stop(
                views,
                begins,
                turn as int,
                end as int,
                used as nat,
            ),
        decreases
                end - turn,
                (if cut {
                    0int
                } else {
                    1int
                }),
    {
        proof {
            lemma_ascending(begins, turn + 1, begins.len() - 1);
            assert(begins[turn as int] <= begins[turn + 1]);
            assert(begins[begins.len() - 1] == starts@.last());
        }
        let item = write_turn(envelopes, starts, turn);
        let size: usize = encode(&item).len();
        assert(size == turn_size(views, begins, turn as int));
        if size > MAX_READ {
            return Err(IndexError::TurnTooLarge);
        }
        if size > MAX_READ - used {
            cut = true;
        } else {
            used = used + size;
            selected.push(item);
            turn = turn + 1;
        }
    }
    let next: Option<usize> = if cut {
        Some(turn + 1)
    } else if request.to <= total {
        Some(request.to)
    } else {
        None
    };
    let ghost stop = turn as int;
    let mut agent = subject.owner.clone();
    append(&mut agent, "/");
    append(&mut agent, subject.name.as_str());
    let next_value = match next {
        Some(n) => natural(n as u64),
        None => null(),
    };
    let pairs = vec![
        pair("schema", text("agit-selfhost-transcript")),
        pair("schema_version", natural(1)),
        pair("agent", text(agent.as_str())),
        pair("session_id", text(subject.session_id.as_str())),
        pair("runtime", text(subject.runtime.as_str())),
        pair("commit", text(subject.commit.as_str())),
        pair("from", natural(request.from as u64)),
        pair("to", natural(request.to as u64)),
        pair("total_turns", natural(total as u64)),
        pair("turns", list(selected)),
        pair("next_from", next_value),
        pair("truncated", flag(next.is_some())),
        pair("storage_warning", optional_text(&subject.storage_warning)),
    ];
    proof {
        let from = request.from as nat;
        let to = request.to as nat;
        let count = if stop > from - 1 {
            (stop - (from - 1)) as nat
        } else {
            0
        };
        let expected = next_turn(to, total as nat, stop);
        assert(jsons(selected@) == Seq::new(
            count,
            |k: int| turn_json(views, begins, from - 1 + k),
        ));
        assert(json_of(next_value) == number_or_null(expected));
        assert(next is Some == expected is Some);
        assert(members(pairs@) == seq![
            ("schema"@, Json::Text("agit-selfhost-transcript"@)),
            ("schema_version"@, Json::Natural(1)),
            ("agent"@, Json::Text(subject.owner@ + "/"@ + subject.name@)),
            ("session_id"@, Json::Text(subject.session_id@)),
            ("runtime"@, Json::Text(subject.runtime@)),
            ("commit"@, Json::Text(subject.commit@)),
            ("from"@, Json::Natural(from as u64)),
            ("to"@, Json::Natural(to as u64)),
            ("total_turns"@, Json::Natural(total as u64)),
            ("turns"@, Json::List(jsons(selected@))),
            ("next_from"@, number_or_null(expected)),
            ("truncated"@, Json::Flag(expected is Some)),
            ("storage_warning"@, text_or_null(optional(subject.storage_warning))),
        ]);
    }
    Ok(object(pairs))
}

proof fn lemma_read_stop(
    envelopes: Seq<EnvelopeView>,
    starts: Seq<int>,
    turn: int,
    end: int,
    used: nat,
)
    requires
        read_stop(envelopes, starts, turn, end, used) is Some,
        turn <= end,
    ensures
        turn <= read_stop(envelopes, starts, turn, end, used)->0 <= end,
        used == 0 && turn < end ==> turn < read_stop(envelopes, starts, turn, end, used)->0,
    decreases end - turn,
{
    if turn < end {
        let size = turn_size(envelopes, starts, turn);
        if used + size <= MAX_READ {
            lemma_read_stop(envelopes, starts, turn + 1, end, used + size);
        }
    }
}

/// Reading goes on without a gap and comes to an end. A successful read that starts within a
/// session returns at least one turn. What it returns reaches up to the turn that it names to go
/// on with, or up to the end of the session where it names none; and that turn is a later one.
pub proof fn law_reading_on_covers_the_session(
    envelopes: Seq<EnvelopeView>,
    starts: Seq<int>,
    from: nat,
    to: nat,
)
    requires
        starts.len() > 0,
        1 <= from < to,
        from <= starts.len() - 1,
        read_stop(envelopes, starts, from - 1, read_end(to, (starts.len() - 1) as nat), 0) is Some,
    ensures
        ({
            let turns = (starts.len() - 1) as nat;
            let stop = read_stop(envelopes, starts, from - 1, read_end(to, turns), 0)->0;
            &&& from <= stop <= turns
            &&& match next_turn(to, turns, stop) {
                Some(next) => from < next <= turns && stop == next - 1,
                None => stop == turns,
            }
        }),
{
    lemma_read_stop(envelopes, starts, from - 1, read_end(to, (starts.len() - 1) as nat), 0);
}

/// A read that starts behind the session returns no turn and names none to go on with.
pub proof fn law_reading_ends_behind_the_session(
    envelopes: Seq<EnvelopeView>,
    starts: Seq<int>,
    from: nat,
    to: nat,
)
    requires
        starts.len() > 0,
        1 <= from < to,
        from > starts.len() - 1,
    ensures
        ({
            let turns = (starts.len() - 1) as nat;
            let stop = read_stop(envelopes, starts, from - 1, read_end(to, turns), 0);
            stop == Some(from - 1) && next_turn(to, turns, stop->0) is None
        }),
{
}

proof fn lemma_read_size(
    envelopes: Seq<EnvelopeView>,
    starts: Seq<int>,
    turn: int,
    end: int,
    used: nat,
)
    requires
        read_stop(envelopes, starts, turn, end, used) is Some,
        turn <= end,
        used <= MAX_READ,
    ensures
        used + size_of_turns(
            envelopes,
            starts,
            turn,
            read_stop(envelopes, starts, turn, end, used)->0,
        ) <= MAX_READ,
    decreases end - turn,
{
    let stop = read_stop(envelopes, starts, turn, end, used)->0;
    if turn < end {
        let size = turn_size(envelopes, starts, turn);
        if used + size <= MAX_READ {
            lemma_read_size(envelopes, starts, turn + 1, end, used + size);
            lemma_read_stop(envelopes, starts, turn + 1, end, used + size);
        }
    }
}

/// The bytes of JSON of the turns from one up to another.
pub open spec fn size_of_turns(
    envelopes: Seq<EnvelopeView>,
    starts: Seq<int>,
    from: int,
    to: int,
) -> nat
    decreases to - from,
{
    if from >= to {
        0
    } else {
        turn_size(envelopes, starts, from) + size_of_turns(envelopes, starts, from + 1, to)
    }
}

/// The turns that one read returns stay within the limit of a read.
pub proof fn law_reads_are_bounded(
    envelopes: Seq<EnvelopeView>,
    starts: Seq<int>,
    from: nat,
    to: nat,
)
    requires
        starts.len() > 0,
        1 <= from < to,
        from <= starts.len() - 1,
        read_stop(envelopes, starts, from - 1, read_end(to, (starts.len() - 1) as nat), 0) is Some,
    ensures
        size_of_turns(
            envelopes,
            starts,
            from - 1,
            read_stop(envelopes, starts, from - 1, read_end(to, (starts.len() - 1) as nat), 0)->0,
        ) <= MAX_READ,
{
    lemma_read_size(envelopes, starts, from - 1, read_end(to, (starts.len() - 1) as nat), 0);
}

// ---------------------------------------------------------------------------
// Reading a whole session
// ---------------------------------------------------------------------------

/// The replies to reading on from a turn: each read asks for the turn that the one before named to
/// go on with, and the last one names none. `ends` tells the end that a read from a turn asks for,
/// and `subjects` what it is about: what the Hub warns of may change between two reads.
pub open spec fn reads_on(
    subjects: spec_fn(nat) -> ReadSubject,
    ends: spec_fn(nat) -> nat,
    envelopes: Seq<EnvelopeView>,
    starts: Seq<int>,
    from: nat,
) -> Result<Seq<Json>, IndexError>
    decreases starts.len() - from,
{
    let turns = (starts.len() - 1) as nat;
    let to = ends(from);
    match read_stop(envelopes, starts, from - 1, read_end(to, turns), 0) {
        None => Err(IndexError::TurnTooLarge),
        Some(stop) => {
            let reply = read_json(subjects(from), from, to, envelopes, starts, stop);
            match next_turn(to, turns, stop) {
                Some(next) => if from < next < starts.len() {
                    match reads_on(subjects, ends, envelopes, starts, next as nat) {
                        Ok(rest) => Ok(seq![reply] + rest),
                        Err(e) => Err(e),
                    }
                } else {
                    Ok(seq![reply])
                },
                None => Ok(seq![reply]),
            }
        },
    }
}

/// The turns from one, counted from zero, up to the last one.
pub open spec fn turns_from(envelopes: Seq<EnvelopeView>, starts: Seq<int>, turn: int) -> Seq<Json> {
    Seq::new(
        (starts.len() - 1 - turn) as nat,
        |k: int| turn_json(envelopes, starts, turn + k),
    )
}

/// The records from a line, counted from zero, up to the last one.
pub open spec fn records_from(envelopes: Seq<EnvelopeView>, line: int) -> Seq<Json> {
    Seq::new((envelopes.len() - line) as nat, |k: int| envelope_json(envelopes[line + k], line + k))
}

/// Whether replies follow on one another from a turn: the first one begins there, each names the
/// turn that the next one begins with, and the last one names none.
pub open spec fn is_chain(replies: Seq<Json>, from: nat) -> bool {
    &&& replies.len() > 0
    &&& member(replies[0], "from"@) == Some(Json::Natural(from as u64))
    &&& forall|i: int|
        0 <= i < replies.len() - 1 ==> (#[trigger] member(replies[i], "next_from"@)) == member(
            replies[i + 1],
            "from"@,
        )
    &&& member(replies.last(), "next_from"@) == Some(Json::Null)
}

proof fn lemma_read_json(
    subject: ReadSubject,
    from: nat,
    to: nat,
    envelopes: Seq<EnvelopeView>,
    starts: Seq<int>,
    stop: int,
)
    requires
        from - 1 <= stop,
    ensures
        ({
            let reply = read_json(subject, from, to, envelopes, starts, stop);
            &&& member(reply, "from"@) == Some(Json::Natural(from as u64))
            &&& items_under(reply, "turns"@) == Seq::new(
                (stop - (from - 1)) as nat,
                |k: int| turn_json(envelopes, starts, from - 1 + k),
            )
            &&& member(reply, "next_from"@) == Some(
                number_or_null(next_turn(to, (starts.len() - 1) as nat, stop)),
            )
        }),
{
    reveal_strlit("from");
    reveal_strlit("to");
    reveal_strlit("total_turns");
    reveal_strlit("turns");
    reveal_strlit("next_from");
    reveal_strlit("truncated");
    reveal_strlit("storage_warning");
    let turns = (starts.len() - 1) as nat;
    let next = next_turn(to, turns, stop);
    let items = Seq::new(
        (stop - (from - 1)) as nat,
        |k: int| turn_json(envelopes, starts, from - 1 + k),
    );
    let selected = if stop > from - 1 {
        (stop - (from - 1)) as nat
    } else {
        0
    };
    assert(Seq::new(selected, |k: int| turn_json(envelopes, starts, from - 1 + k)) == items);
    let pairs = seq![
        ("schema"@, Json::Text("agit-selfhost-transcript"@)),
        ("schema_version"@, Json::Natural(1)),
        ("agent"@, Json::Text(subject.owner@ + "/"@ + subject.name@)),
        ("session_id"@, Json::Text(subject.session_id@)),
        ("runtime"@, Json::Text(subject.runtime@)),
        ("commit"@, Json::Text(subject.commit@)),
        ("from"@, Json::Natural(from as u64)),
        ("to"@, Json::Natural(to as u64)),
        ("total_turns"@, Json::Natural(turns as u64)),
        ("turns"@, Json::List(items)),
        ("next_from"@, number_or_null(next)),
        ("truncated"@, Json::Flag(next is Some)),
        ("storage_warning"@, text_or_null(optional(subject.storage_warning))),
    ];
    assert(read_json(subject, from, to, envelopes, starts, stop) == Json::Object(
        object_of(pairs),
    ));
    assert(pairs[6].0.len() == 4);
    assert(pairs[7].0.len() == 2);
    assert(pairs[8].0.len() == 11);
    assert(pairs[9].0.len() == 5);
    assert(pairs[10].0.len() == 9);
    assert(pairs[11].0.len() == 9);
    assert(pairs[12].0.len() == 15);
    assert(pairs[10].0[0] != pairs[11].0[0]);
    lemma_object_of(pairs, 6);
    lemma_object_of(pairs, 9);
    lemma_object_of(pairs, 10);
}

proof fn lemma_turn_json(envelopes: Seq<EnvelopeView>, starts: Seq<int>, turn: int)
    ensures
        ({
            let item = turn_json(envelopes, starts, turn);
            &&& member(item, "turn"@) == Some(Json::Natural((turn + 1) as u64))
            &&& items_under(item, "events"@) == Seq::new(
                (starts[turn + 1] - starts[turn]) as nat,
                |k: int| envelope_json(envelopes[starts[turn] + k], starts[turn] + k),
            )
        }),
{
    reveal_strlit("turn");
    reveal_strlit("events");
    let events = Seq::new(
        (starts[turn + 1] - starts[turn]) as nat,
        |k: int| envelope_json(envelopes[starts[turn] + k], starts[turn] + k),
    );
    let pairs = seq![
        ("turn"@, Json::Natural((turn + 1) as u64)),
        ("events"@, Json::List(events)),
    ];
    assert(turn_json(envelopes, starts, turn) == Json::Object(object_of(pairs)));
    assert(pairs[0].0.len() == 4);
    assert(pairs[1].0.len() == 6);
    lemma_object_of(pairs, 0);
    lemma_object_of(pairs, 1);
}

proof fn lemma_read_fits(
    envelopes: Seq<EnvelopeView>,
    starts: Seq<int>,
    turn: int,
    end: int,
    used: nat,
)
    ensures
        match read_stop(envelopes, starts, turn, end, used) {
            Some(stop) => forall|t: int|
                turn <= t < stop ==> #[trigger] turn_size(envelopes, starts, t) <= MAX_READ,
            None => exists|t: int|
                turn <= t < end && #[trigger] turn_size(envelopes, starts, t) > MAX_READ,
        },
    decreases end - turn,
{
    if turn < end {
        let size = turn_size(envelopes, starts, turn);
        if used + size <= MAX_READ {
            lemma_read_fits(envelopes, starts, turn + 1, end, used + size);
        }
    }
}

proof fn lemma_turns_hold_the_records(
    envelopes: Seq<EnvelopeView>,
    starts: Seq<int>,
    turn: int,
)
    requires
        0 <= turn < starts.len(),
        ascending(starts),
        starts.last() == envelopes.len(),
    ensures
        all_items(turns_from(envelopes, starts, turn), "events"@) == records_from(
            envelopes,
            starts[turn],
        ),
    decreases starts.len() - turn,
{
    let list = turns_from(envelopes, starts, turn);
    if turn < starts.len() - 1 {
        lemma_ascending(starts, turn, turn + 1);
        lemma_ascending(starts, turn + 1, starts.len() - 1);
        lemma_turns_hold_the_records(envelopes, starts, turn + 1);
        lemma_turn_json(envelopes, starts, turn);
        assert(list[0] == turn_json(envelopes, starts, turn));
        assert(list.skip(1) == turns_from(envelopes, starts, turn + 1));
        let first = items_under(list[0], "events"@);
        assert(first + records_from(envelopes, starts[turn + 1]) == records_from(
            envelopes,
            starts[turn],
        ));
    } else {
        assert(starts[turn] == starts.last());
        assert(list.len() == 0);
        assert(records_from(envelopes, starts[turn]).len() == 0);
    }
}

proof fn lemma_longer_chain(reply: Json, rest: Seq<Json>, from: nat, next: nat)
    requires
        member(reply, "from"@) == Some(Json::Natural(from as u64)),
        member(reply, "next_from"@) == Some(Json::Natural(next as u64)),
        is_chain(rest, next),
    ensures
        is_chain(seq![reply] + rest, from),
        all_items(seq![reply] + rest, "turns"@) == items_under(reply, "turns"@) + all_items(
            rest,
            "turns"@,
        ),
{
    let replies = seq![reply] + rest;
    assert(replies.skip(1) == rest);
    assert(replies.last() == rest.last());
    assert forall|i: int| 0 <= i < replies.len() - 1 implies (#[trigger] member(
        replies[i],
        "next_from"@,
    )) == member(replies[i + 1], "from"@) by {
        if i > 0 {
            assert(replies[i] == rest[i - 1]);
            assert(member(rest[i - 1], "next_from"@) == member(rest[i - 1 + 1], "from"@));
        }
    }
}

proof fn lemma_shortest_chain(reply: Json, from: nat)
    requires
        member(reply, "from"@) == Some(Json::Natural(from as u64)),
        member(reply, "next_from"@) == Some(Json::Null),
    ensures
        is_chain(seq![reply], from),
        all_items(seq![reply], "turns"@) == items_under(reply, "turns"@),
{
    let replies = seq![reply];
    let items = items_under(reply, "turns"@);
    assert(all_items(replies.skip(1), "turns"@) == Seq::<Json>::empty());
    assert(items + Seq::<Json>::empty() == items);
}

proof fn lemma_reads_on(
    subjects: spec_fn(nat) -> ReadSubject,
    ends: spec_fn(nat) -> nat,
    envelopes: Seq<EnvelopeView>,
    starts: Seq<int>,
    from: nat,
)
    requires
        1 <= from <= starts.len() - 1,
        forall|n: nat| n >= 1 ==> n < #[trigger] ends(n),
    ensures
        match reads_on(subjects, ends, envelopes, starts, from) {
            Ok(replies) => {
                &&& is_chain(replies, from)
                &&& replies.len() <= starts.len() - from
                &&& all_items(replies, "turns"@) == turns_from(envelopes, starts, from - 1)
                &&& forall|t: int|
                    from - 1 <= t < starts.len() - 1 ==> #[trigger] turn_size(
                        envelopes,
                        starts,
                        t,
                    ) <= MAX_READ
            },
            Err(e) => e is TurnTooLarge && exists|t: int|
                from - 1 <= t < starts.len() - 1 && #[trigger] turn_size(envelopes, starts, t)
                    > MAX_READ,
        },
    decreases starts.len() - from,
{
    let turns = (starts.len() - 1) as nat;
    let to = ends(from);
    let end = read_end(to, turns);
    lemma_read_fits(envelopes, starts, from - 1, end, 0);
    match read_stop(envelopes, starts, from - 1, end, 0) {
        None => {},
        Some(stop) => {
            law_reading_on_covers_the_session(envelopes, starts, from, to);
            lemma_read_json(subjects(from), from, to, envelopes, starts, stop);
            let reply = read_json(subjects(from), from, to, envelopes, starts, stop);
            let here = turns_from(envelopes, starts, from - 1);
            match next_turn(to, turns, stop) {
                Some(next) => {
                    lemma_reads_on(subjects, ends, envelopes, starts, next as nat);
                    match reads_on(subjects, ends, envelopes, starts, next as nat) {
                        Ok(rest) => {
                            lemma_longer_chain(reply, rest, from, next as nat);
                            assert(items_under(reply, "turns"@) + turns_from(
                                envelopes,
                                starts,
                                next - 1,
                            ) == here);
                        },
                        Err(_) => {},
                    }
                },
                None => {
                    lemma_shortest_chain(reply, from);
                    assert(items_under(reply, "turns"@) == here);
                },
            }
        },
    }
}

/// Reading on from the first turn comes to an end and restores the session. It fails only where a
/// turn fits into no reply. The turns of the replies, put together, are those of the session, from
/// the first to the last, each once and in order; and their events are the records of the
/// transcript, from the first line to the last, each once and in order, as they were saved.
pub proof fn law_reading_on_restores_the_session(
    subjects: spec_fn(nat) -> ReadSubject,
    ends: spec_fn(nat) -> nat,
    envelopes: Seq<EnvelopeView>,
    starts: Seq<int>,
)
    requires
        starts.len() > 1,
        starts[0] == 0,
        ascending(starts),
        starts.last() == envelopes.len(),
        forall|n: nat| n >= 1 ==> n < #[trigger] ends(n) <= n + MAX_TURNS,
    ensures
        ({
            let turns = starts.len() - 1;
            let result = reads_on(subjects, ends, envelopes, starts, 1);
            &&& result is Ok <==> forall|t: int|
                0 <= t < turns ==> #[trigger] turn_size(envelopes, starts, t) <= MAX_READ
            &&& result matches Err(e) ==> e is TurnTooLarge
            &&& result matches Ok(replies) ==> {
                let read = all_items(replies, "turns"@);
                &&& is_chain(replies, 1)
                &&& replies.len() <= turns
                &&& read.len() == turns
                &&& forall|t: int|
                    0 <= t < turns ==> {
                        &&& #[trigger] read[t] == turn_json(envelopes, starts, t)
                        &&& member(read[t], "turn"@) == Some(Json::Natural((t + 1) as u64))
                    }
                &&& all_items(read, "events"@) == Seq::new(
                    envelopes.len(),
                    |line: int| envelope_json(envelopes[line], line),
                )
            }
        }),
{
    lemma_reads_on(subjects, ends, envelopes, starts, 1);
    lemma_turns_hold_the_records(envelopes, starts, 0);
    assert(records_from(envelopes, 0) == Seq::new(
        envelopes.len(),
        |line: int| envelope_json(envelopes[line], line),
    ));
    assert forall|t: int| 0 <= t < starts.len() - 1 implies member(
        #[trigger] turn_json(envelopes, starts, t),
        "turn"@,
    ) == Some(Json::Natural((t + 1) as u64)) by {
        lemma_turn_json(envelopes, starts, t);
    }
}

// ---------------------------------------------------------------------------
// Laws of requests and of where turns begin
// ---------------------------------------------------------------------------

/// A request is served exactly where it asks for between one and fifty turns, counted from one.
/// It asks for what it says; where it names no end, for ten turns, and where it names no first
/// turn, from the first one on.
pub proof fn law_requests_ask_for_turns(reference: Seq<char>, from: nat, to: nat)
    requires
        from <= usize::MAX,
        to <= usize::MAX,
    ensures
        ({
            let asked = seq![("ref"@, reference), ("from"@, decimal(from)), ("to"@, decimal(to))];
            if 1 <= from < to && to - from <= 50 {
                read_request(asked) == Ok::<(Seq<char>, nat, nat), IndexError>(
                    (reference, from, to),
                )
            } else {
                read_request(asked) == Err::<(Seq<char>, nat, nat), _>(IndexError::Range)
            }
        }),
        1 <= from && from + 10 <= usize::MAX ==> read_request(
            seq![("ref"@, reference), ("from"@, decimal(from))],
        ) == Ok::<(Seq<char>, nat, nat), IndexError>((reference, from, from + 10)),
        read_request(seq![("ref"@, reference)]) == Ok::<(Seq<char>, nat, nat), IndexError>(
            (reference, 1, 11),
        ),
        read_request(seq![("from"@, decimal(from)), ("to"@, decimal(to))]) == Err::<
            (Seq<char>, nat, nat),
            _,
        >(IndexError::MissingReference),
{
    reveal_strlit("ref");
    reveal_strlit("from");
    reveal_strlit("to");
    law_decimal_text_is_read_back(from, usize::MAX as nat);
    law_decimal_text_is_read_back(to, usize::MAX as nat);
    let none = Seq::<(Seq<char>, Seq<char>)>::empty();
    let one = seq![("ref"@, reference)];
    let two = seq![("ref"@, reference), ("from"@, decimal(from))];
    let three = seq![("ref"@, reference), ("from"@, decimal(from)), ("to"@, decimal(to))];
    let start = seq![("from"@, decimal(from))];
    let plain = seq![("from"@, decimal(from)), ("to"@, decimal(to))];
    assert(none.push(("ref"@, reference)) == one);
    assert(one.push(("from"@, decimal(from))) == two);
    assert(two.push(("to"@, decimal(to))) == three);
    assert(none.push(("from"@, decimal(from))) == start);
    assert(start.push(("to"@, decimal(to))) == plain);
    assert("ref"@.len() == 3 && "from"@.len() == 4 && "to"@.len() == 2);
    law_last_parameter_counts(none, "ref"@, reference);
    law_last_parameter_counts(one, "from"@, decimal(from));
    law_last_parameter_counts(two, "to"@, decimal(to));
    law_last_parameter_counts(none, "from"@, decimal(from));
    law_last_parameter_counts(start, "to"@, decimal(to));
    assert(value_of(none, "ref"@) is None);
    assert(value_of(none, "from"@) is None);
    assert(value_of(none, "to"@) is None);
}

/// The first line of a turn's events is a line of one of them, and none has a smaller one; there
/// is none only where no event has a line.
pub proof fn law_first_line_is_the_least(events: Seq<usize>, event_lines: Seq<Option<usize>>)
    ensures
        match first_line(events, event_lines) {
            Some(n) => {
                &&& exists|i: int|
                    0 <= i < events.len() && event_lines[(#[trigger] events[i]) as int] == Some(n)
                &&& forall|i: int|
                    0 <= i < events.len() ==> (event_lines[(#[trigger] events[i]) as int] matches Some(
                        m,
                    ) ==> n <= m)
            },
            None => forall|i: int|
                0 <= i < events.len() ==> event_lines[(#[trigger] events[i]) as int] is None,
        },
    decreases events.len(),
{
    if events.len() > 0 {
        let init = events.drop_last();
        law_first_line_is_the_least(init, event_lines);
        assert forall|i: int| 0 <= i < init.len() implies #[trigger] events[i] == init[i] by {}
        assert(events[events.len() - 1] == events.last());
        match first_line(init, event_lines) {
            Some(n) => {
                let k = choose|k: int|
                    0 <= k < init.len() && event_lines[(#[trigger] init[k]) as int] == Some(n);
                assert(event_lines[events[k] as int] == Some(n));
            },
            None => {},
        }
    }
}

/// Every event stands in the part of the transcript that belongs to its turn: not before the
/// turn begins, and, where the events of the next turn come later, before that one begins. A
/// turn but the first one begins with one of its events.
pub proof fn law_events_stand_in_their_turns(
    turns: Seq<Seq<usize>>,
    event_lines: Seq<Option<usize>>,
    total: nat,
    t: int,
    i: int,
)
    requires
        turns_have_lines(turns, event_lines),
        0 <= t < turns.len(),
        0 <= i < turns[t].len(),
        event_lines[turns[t][i] as int] is Some,
    ensures
        ({
            let starts = bounds(turns, event_lines, total);
            let line = event_lines[turns[t][i] as int]->0 as int;
            &&& starts[t] <= line
            &&& t + 1 == turns.len() ==> starts[t + 1] == total
            &&& t + 1 < turns.len() && (forall|k: int|
                0 <= k < turns[t + 1].len() ==> (event_lines[(
                #[trigger] turns[t + 1][k]) as int] matches Some(m) ==> line < m)) ==> line
                < starts[t + 1]
            &&& t > 0 ==> exists|k: int|
                0 <= k < turns[t].len() && event_lines[(#[trigger] turns[t][k]) as int] is Some
                    && event_lines[turns[t][k] as int]->0 == starts[t]
            &&& t == 0 ==> starts[t] == 0
        }),
{
    assert(first_line(turns[t], event_lines) is Some);
    law_first_line_is_the_least(turns[t], event_lines);
    if t + 1 < turns.len() {
        assert(first_line(turns[t + 1], event_lines) is Some);
        law_first_line_is_the_least(turns[t + 1], event_lines);
    }
}

/// A read returns as many turns as fit into four MiB of JSON: where it stops short of its end, one
/// turn more would not have fitted.
pub proof fn law_reads_return_what_fits(
    envelopes: Seq<EnvelopeView>,
    starts: Seq<int>,
    from: nat,
    to: nat,
)
    requires
        starts.len() > 0,
        1 <= from < to,
        from <= starts.len() - 1,
        read_stop(envelopes, starts, from - 1, read_end(to, (starts.len() - 1) as nat), 0) is Some,
    ensures
        ({
            let turns = starts.len() - 1;
            let stop = read_stop(envelopes, starts, from - 1, read_end(to, turns as nat), 0)->0;
            &&& stop < to - 1 && stop < turns ==> size_of_turns(
                envelopes,
                starts,
                from - 1,
                stop + 1,
            ) > 4194304
            &&& stop <= to - 1 && stop <= turns
            &&& size_of_turns(envelopes, starts, from - 1, stop) <= 4194304
        }),
{
    let end = read_end(to, (starts.len() - 1) as nat);
    lemma_read_stop(envelopes, starts, from - 1, end, 0);
    lemma_read_size(envelopes, starts, from - 1, end, 0);
    if read_stop(envelopes, starts, from - 1, end, 0)->0 < end {
        lemma_stop_is_full(envelopes, starts, from - 1, end, 0);
    }
}

proof fn lemma_stop_is_full(
    envelopes: Seq<EnvelopeView>,
    starts: Seq<int>,
    turn: int,
    end: int,
    used: nat,
)
    requires
        turn <= end,
        used <= MAX_READ,
        read_stop(envelopes, starts, turn, end, used) is Some,
        read_stop(envelopes, starts, turn, end, used)->0 < end,
    ensures
        used + size_of_turns(
            envelopes,
            starts,
            turn,
            read_stop(envelopes, starts, turn, end, used)->0 + 1,
        ) > MAX_READ,
    decreases end - turn,
{
    if turn < end {
        let size = turn_size(envelopes, starts, turn);
        if used + size <= MAX_READ {
            lemma_stop_is_full(envelopes, starts, turn + 1, end, used + size);
            lemma_read_stop(envelopes, starts, turn + 1, end, used + size);
        } else {
            assert(size_of_turns(envelopes, starts, turn + 1, turn + 1) == 0);
        }
    }
}

/// What a reply says of a read: which session of which repository and commit, which turns were
/// asked for and how many there are.
pub proof fn law_replies_say_what_was_read(
    subject: ReadSubject,
    from: nat,
    to: nat,
    envelopes: Seq<EnvelopeView>,
    starts: Seq<int>,
    stop: int,
)
    ensures
        ({
            let reply = read_json(subject, from, to, envelopes, starts, stop);
            let next = member(reply, "next_from"@);
            &&& member(reply, "agent"@) == Some(Json::Text(subject.owner@ + "/"@ + subject.name@))
            &&& member(reply, "session_id"@) == Some(Json::Text(subject.session_id@))
            &&& member(reply, "runtime"@) == Some(Json::Text(subject.runtime@))
            &&& member(reply, "commit"@) == Some(Json::Text(subject.commit@))
            &&& member(reply, "to"@) == Some(Json::Natural(to as u64))
            &&& member(reply, "total_turns"@) == Some(
                Json::Natural((starts.len() - 1) as nat as u64),
            )
            &&& member(reply, "truncated"@) == Some(Json::Flag(next != Some(Json::Null)))
            &&& member(reply, "storage_warning"@) == Some(
                match subject.storage_warning {
                    Some(w) => Json::Text(w@),
                    None => Json::Null,
                },
            )
        }),
{
    reveal_strlit("agent");
    reveal_strlit("session_id");
    reveal_strlit("runtime");
    reveal_strlit("commit");
    reveal_strlit("from");
    reveal_strlit("to");
    reveal_strlit("total_turns");
    reveal_strlit("turns");
    reveal_strlit("next_from");
    reveal_strlit("truncated");
    reveal_strlit("storage_warning");
    let turns = (starts.len() - 1) as nat;
    let next = next_turn(to, turns, stop);
    let selected = if stop > from - 1 {
        (stop - (from - 1)) as nat
    } else {
        0
    };
    let pairs = seq![
        ("schema"@, Json::Text("agit-selfhost-transcript"@)),
        ("schema_version"@, Json::Natural(1)),
        ("agent"@, Json::Text(subject.owner@ + "/"@ + subject.name@)),
        ("session_id"@, Json::Text(subject.session_id@)),
        ("runtime"@, Json::Text(subject.runtime@)),
        ("commit"@, Json::Text(subject.commit@)),
        ("from"@, Json::Natural(from as u64)),
        ("to"@, Json::Natural(to as u64)),
        ("total_turns"@, Json::Natural(turns as u64)),
        (
            "turns"@,
            Json::List(
                Seq::new(selected, |k: int| turn_json(envelopes, starts, from - 1 + k)),
            ),
        ),
        ("next_from"@, number_or_null(next)),
        ("truncated"@, Json::Flag(next is Some)),
        ("storage_warning"@, text_or_null(optional(subject.storage_warning))),
    ];
    assert(read_json(subject, from, to, envelopes, starts, stop) == Json::Object(
        object_of(pairs),
    ));
    assert(pairs[2].0.len() == 5);
    assert(pairs[3].0.len() == 10);
    assert(pairs[4].0.len() == 7);
    assert(pairs[5].0.len() == 6);
    assert(pairs[6].0.len() == 4);
    assert(pairs[7].0.len() == 2);
    assert(pairs[8].0.len() == 11);
    assert(pairs[9].0.len() == 5);
    assert(pairs[10].0.len() == 9);
    assert(pairs[11].0.len() == 9);
    assert(pairs[12].0.len() == 15);
    assert(pairs[2].0[0] != pairs[9].0[0]);
    assert(pairs[10].0[0] != pairs[11].0[0]);
    lemma_object_of(pairs, 2);
    lemma_object_of(pairs, 3);
    lemma_object_of(pairs, 4);
    lemma_object_of(pairs, 5);
    lemma_object_of(pairs, 7);
    lemma_object_of(pairs, 8);
    lemma_object_of(pairs, 10);
    lemma_object_of(pairs, 11);
    lemma_object_of(pairs, 12);
}

/// What a record's reply holds: its line, counted from one, and what was saved of it.
pub proof fn law_records_are_returned_as_saved(e: EnvelopeView, line: int)
    ensures
        member(envelope_json(e, line), "line"@) == Some(Json::Natural((line + 1) as u64)),
        member(envelope_json(e, line), "source"@) == Some(Json::Text(e.source)),
        member(envelope_json(e, line), "source_session_id"@) == Some(e.session_id),
        member(envelope_json(e, line), "content"@) == Some(e.content),
{
    reveal_strlit("line");
    reveal_strlit("source");
    reveal_strlit("source_session_id");
    reveal_strlit("content");
    let pairs = seq![
        ("line"@, Json::Natural((line + 1) as u64)),
        ("source"@, Json::Text(e.source)),
        ("source_session_id"@, e.session_id),
        ("content"@, e.content),
    ];
    assert(pairs[0].0.len() == 4);
    assert(pairs[1].0.len() == 6);
    assert(pairs[2].0.len() == 17);
    assert(pairs[3].0.len() == 7);
    lemma_object_of(pairs, 0);
    lemma_object_of(pairs, 1);
    lemma_object_of(pairs, 2);
    lemma_object_of(pairs, 3);
}

/// A session is read under its own name alone.
pub proof fn law_sessions_are_read_by_name(saved: &str, wanted: &str, r: Result<(), IndexError>)
    requires
        call_ensures(check_session, (saved, wanted), r),
    ensures
        saved@ == wanted@ ==> r is Ok,
        saved@ != wanted@ ==> (r matches Err(e) && e is SessionMismatch),
{
}

} // verus!
