//! JSON values of `serde_json`, seen through what they hold.
use crate::text::texts;
use serde_json::Value;
use vstd::prelude::*;

verus! {

/// The JSON value type of `serde_json`.
#[verifier::external_type_specification]
#[verifier::external_body]
pub struct ExValue(serde_json::Value);

/// What a JSON value holds. A number that is no `u64` is kept by its text.
#[verifier::ext_equal]
pub enum Json {
    Null,
    Flag(bool),
    Natural(u64),
    Number(Seq<char>),
    Text(Seq<char>),
    List(Seq<Json>),
    Object(Map<Seq<char>, Json>),
}

/// The contents of a JSON value.
pub uninterp spec fn json_of(v: Value) -> Json;

/// The contents of a sequence of JSON values.
pub open spec fn jsons(v: Seq<Value>) -> Seq<Json> {
    Seq::new(v.len(), |i: int| json_of(v[i]))
}

/// The member of an object.
pub open spec fn member(j: Json, key: Seq<char>) -> Option<Json> {
    match j {
        Json::Object(m) => if m.contains_key(key) {
            Some(m[key])
        } else {
            None
        },
        _ => None,
    }
}

/// The text that a value is, if it is one.
pub open spec fn as_text(j: Option<Json>) -> Option<Seq<char>> {
    match j {
        Some(Json::Text(s)) => Some(s),
        _ => None,
    }
}

/// The natural number that a value is, if it is one of at most 64 bits.
pub open spec fn as_natural(j: Option<Json>) -> Option<u64> {
    match j {
        Some(Json::Natural(n)) => Some(n),
        _ => None,
    }
}

/// The object with the given members; of two members with one key the later one counts.
pub open spec fn object_of(pairs: Seq<(Seq<char>, Json)>) -> Map<Seq<char>, Json>
    decreases pairs.len(),
{
    if pairs.len() == 0 {
        Map::empty()
    } else {
        object_of(pairs.drop_last()).insert(pairs.last().0, pairs.last().1)
    }
}

/// The members of an object, seen through what they hold.
pub open spec fn members(pairs: Seq<(String, Value)>) -> Seq<(Seq<char>, Json)> {
    Seq::new(pairs.len(), |i: int| (pairs[i].0@, json_of(pairs[i].1)))
}

/// The items that a value lists under a key.
pub open spec fn items_under(j: Json, key: Seq<char>) -> Seq<Json> {
    match member(j, key) {
        Some(Json::List(items)) => items,
        _ => Seq::empty(),
    }
}

/// The items that values list under a key, put together in order.
pub open spec fn all_items(values: Seq<Json>, key: Seq<char>) -> Seq<Json>
    decreases values.len(),
{
    if values.len() == 0 {
        Seq::empty()
    } else {
        items_under(values[0], key) + all_items(values.skip(1), key)
    }
}

/// A member is in the object that is made of it, unless a later one has its key.
pub proof fn lemma_object_of(pairs: Seq<(Seq<char>, Json)>, i: int)
    requires
        0 <= i < pairs.len(),
        forall|j: int| i < j < pairs.len() ==> (#[trigger] pairs[j]).0 != pairs[i].0,
    ensures
        member(Json::Object(object_of(pairs)), pairs[i].0) == Some(pairs[i].1),
    decreases pairs.len(),
{
    if i < pairs.len() - 1 {
        let init = pairs.drop_last();
        lemma_object_of(init, i);
        assert(pairs[pairs.len() - 1] == pairs.last());
    }
}

/// What is no member is not in the object.
pub proof fn lemma_not_in_object(pairs: Seq<(Seq<char>, Json)>, key: Seq<char>)
    requires
        forall|j: int| 0 <= j < pairs.len() ==> (#[trigger] pairs[j]).0 != key,
    ensures
        member(Json::Object(object_of(pairs)), key) is None,
    decreases pairs.len(),
{
    if pairs.len() > 0 {
        let init = pairs.drop_last();
        assert forall|j: int| 0 <= j < init.len() implies (#[trigger] init[j]).0 != key by {
            assert(init[j] == pairs[j]);
        }
        lemma_not_in_object(init, key);
        assert(pairs[pairs.len() - 1] == pairs.last());
    }
}

// ---------------------------------------------------------------------------
// Reading
// ---------------------------------------------------------------------------

/// Calls `Value::get` with a key: the member of an object, and nothing of any other value.
#[verifier::external_body]
pub(crate) fn get<'a>(v: &'a Value, key: &str) -> (r: Option<&'a Value>)
    ensures
        match r {
            Some(x) => member(json_of(*v), key@) == Some(json_of(*x)),
            None => member(json_of(*v), key@) is None,
        },
{
    v.get(key)
}

/// Calls `Value::as_str`: the text of a text value.
#[verifier::external_body]
pub(crate) fn text_in(v: &Value) -> (r: Option<&str>)
    ensures
        match r {
            Some(s) => json_of(*v) == Json::Text(s@),
            None => !(json_of(*v) is Text),
        },
{
    v.as_str()
}

/// Calls `Value::as_u64`: the number of a value that is a natural number of at most 64 bits.
#[verifier::external_body]
pub(crate) fn natural_in(v: &Value) -> (r: Option<u64>)
    ensures
        match r {
            Some(n) => json_of(*v) == Json::Natural(n),
            None => !(json_of(*v) is Natural),
        },
{
    v.as_u64()
}

/// Calls `Value::as_bool`: the truth value of a Boolean.
#[verifier::external_body]
pub(crate) fn flag_in(v: &Value) -> (r: Option<bool>)
    ensures
        match r {
            Some(b) => json_of(*v) == Json::Flag(b),
            None => !(json_of(*v) is Flag),
        },
{
    v.as_bool()
}

/// Calls `Value::is_null`.
#[verifier::external_body]
pub(crate) fn is_null(v: &Value) -> (r: bool)
    ensures
        r == (json_of(*v) is Null),
{
    v.is_null()
}

/// Calls `Value::as_array`: the items of a list, in order.
#[verifier::external_body]
pub(crate) fn items_in(v: &Value) -> (r: Option<&Vec<Value>>)
    ensures
        match r {
            Some(items) => json_of(*v) == Json::List(jsons(items@)),
            None => !(json_of(*v) is List),
        },
{
    v.as_array()
}

/// Calls `Value::as_object` and `Map::keys`: the keys of an object, each once.
#[verifier::external_body]
pub(crate) fn keys_in(v: &Value) -> (r: Option<Vec<String>>)
    ensures
        match r {
            Some(keys) => json_of(*v) is Object && texts(keys@).no_duplicates() && forall|
                key: Seq<char>,
            | #[trigger]
                texts(keys@).contains(key) == (json_of(*v)->Object_0).contains_key(key),
            None => !(json_of(*v) is Object),
        },
{
    v.as_object().map(|m| m.keys().cloned().collect())
}

// ---------------------------------------------------------------------------
// Building
// ---------------------------------------------------------------------------

/// Makes `Value::Null`.
#[verifier::external_body]
pub(crate) fn null() -> (r: Value)
    ensures
        json_of(r) is Null,
{
    Value::Null
}

/// Makes a `Value::Bool`.
#[verifier::external_body]
pub(crate) fn flag(b: bool) -> (r: Value)
    ensures
        json_of(r) == Json::Flag(b),
{
    Value::Bool(b)
}

/// Makes a `Value::Number` by `Value::from`.
#[verifier::external_body]
pub(crate) fn natural(n: u64) -> (r: Value)
    ensures
        json_of(r) == Json::Natural(n),
{
    Value::from(n)
}

/// Makes a `Value::String`.
#[verifier::external_body]
pub(crate) fn text(s: &str) -> (r: Value)
    ensures
        json_of(r) == Json::Text(s@),
{
    Value::String(s.to_owned())
}

/// Makes a `Value::Array`.
#[verifier::external_body]
pub(crate) fn list(items: Vec<Value>) -> (r: Value)
    ensures
        json_of(r) == Json::List(jsons(items@)),
{
    Value::Array(items)
}

/// Makes a `Value::Object` of `serde_json::Map::new`: an object without members.
#[verifier::external_body]
fn empty_object() -> (r: Value)
    ensures
        json_of(r) == Json::Object(Map::empty()),
{
    Value::Object(serde_json::Map::new())
}

/// Calls `Value::as_object_mut` and `serde_json::Map::insert`: afterwards the object has the value
/// under the key, and its other members are as before.
#[verifier::external_body]
fn put(object: &mut Value, key: String, value: Value)
    requires
        json_of(*old(object)) is Object,
    ensures
        json_of(*final(object)) == Json::Object(
            (json_of(*old(object))->Object_0).insert(key@, json_of(value)),
        ),
{
    object.as_object_mut().expect("an object").insert(key, value);
}

/// An object with the given members; of two members with one key the later one counts.
pub(crate) fn object(pairs: Vec<(String, Value)>) -> (r: Value)
    ensures
        json_of(r) == Json::Object(object_of(members(pairs@))),
{
    let ghost all = members(pairs@);
    let mut r = empty_object();
    assert(all.take(0).len() == 0);
    for pair in it: pairs
        invariant
            all == members(it.seq()),
            json_of(r) == Json::Object(object_of(all.take(it.index() as int))),
    {
        let ghost k = it.index() as int;
        assert(all.take(k + 1).drop_last() == all.take(k));
        assert(all.take(k + 1).last() == (pair.0@, json_of(pair.1)));
        let (key, value) = pair;
        put(&mut r, key, value);
    }
    assert(all.take(all.len() as int) == all);
    r
}

/// A member of an object.
pub(crate) fn pair(key: &str, value: Value) -> (r: (String, Value))
    ensures
        r.0@ == key@,
        r.1 == value,
{
    (key.to_owned(), value)
}

/// A text, or null where there is none.
pub(crate) fn optional_text(s: &Option<String>) -> (r: Value)
    ensures
        json_of(r) == text_or_null(crate::outside::optional(*s)),
{
    match s {
        Some(t) => text(t.as_str()),
        None => null(),
    }
}

/// The JSON form of an optional text.
pub open spec fn text_or_null(s: Option<Seq<char>>) -> Json {
    match s {
        Some(t) => Json::Text(t),
        None => Json::Null,
    }
}

/// The JSON form of a list of texts.
pub open spec fn text_list(v: Seq<Seq<char>>) -> Json {
    Json::List(Seq::new(v.len(), |i: int| Json::Text(v[i])))
}

/// Writes a list of texts as JSON.
pub(crate) fn texts_to_json(v: &Vec<String>) -> (r: Value)
    ensures
        json_of(r) == text_list(texts(v@)),
{
    let mut items: Vec<Value> = Vec::new();
    let mut i: usize = 0;
    while i < v.len()
        invariant
            i <= v@.len(),
            items@.len() == i,
            forall|k: int| 0 <= k < i ==> json_of(#[trigger] items@[k]) == Json::Text(v@[k]@),
        decreases v@.len() - i,
    {
        items.push(text(v[i].as_str()));
        i += 1;
    }
    assert(jsons(items@) == Seq::new(texts(v@).len(), |k: int| Json::Text(texts(v@)[k])));
    list(items)
}

/// Calls `Value::clone`.
#[verifier::external_body]
pub(crate) fn copy(v: &Value) -> (r: Value)
    ensures
        json_of(r) == json_of(*v),
{
    v.clone()
}

// ---------------------------------------------------------------------------
// Bytes
// ---------------------------------------------------------------------------

/// The value that a JSON document writes, if the bytes are one.
pub uninterp spec fn decoded(bytes: Seq<u8>) -> Option<Json>;

/// Calls `serde_json::from_slice`. The result depends on the bytes alone.
#[verifier::external_body]
pub(crate) fn decode(bytes: &[u8]) -> (r: Option<Value>)
    ensures
        match r {
            Some(v) => decoded(bytes@) == Some(json_of(v)),
            None => decoded(bytes@) is None,
        },
{
    serde_json::from_slice(bytes).ok()
}

/// The compact JSON document of a value.
pub uninterp spec fn encoded(j: Json) -> Seq<u8>;

/// Calls `serde_json::to_vec`, which cannot fail on a `Value`. The result depends on what the
/// value holds alone: objects are written in the order of their keys. A list of texts is read back
/// as it was written.
#[verifier::external_body]
pub(crate) fn encode(v: &Value) -> (r: Vec<u8>)
    ensures
        r@ == encoded(json_of(*v)),
        text_items(Some(json_of(*v))) is Some ==> decoded(r@) == Some(json_of(*v)),
{
    serde_json::to_vec(v).expect("serializable JSON")
}

// ---------------------------------------------------------------------------
// Lists of texts
// ---------------------------------------------------------------------------

/// The texts that a value lists, if it is a list of texts.
pub open spec fn text_items(j: Option<Json>) -> Option<Seq<Seq<char>>> {
    match j {
        Some(Json::List(items)) => if forall|i: int|
            0 <= i < items.len() ==> #[trigger] items[i] is Text {
            Some(Seq::new(items.len(), |i: int| items[i]->Text_0))
        } else {
            None
        },
        _ => None,
    }
}

/// The message that says why bytes write no list of texts.
pub uninterp spec fn texts_fault(bytes: Seq<u8>) -> Seq<char>;

/// Calls `serde_json::from_slice` for a `Vec<String>`, and tells the message of the error; there
/// is none where the bytes write a list of texts. The message depends on the bytes alone.
#[verifier::external_body]
fn texts_message(bytes: &[u8]) -> (r: String)
    ensures
        r@ == texts_fault(bytes@),
{
    serde_json::from_slice::<Vec<String>>(bytes).err().map(|e| e.to_string()).unwrap_or_default()
}

/// The texts that a JSON document lists, or why it lists none.
pub open spec fn saved_texts(bytes: Seq<u8>) -> Result<Seq<Seq<char>>, Seq<char>> {
    match text_items(decoded(bytes)) {
        Some(v) => Ok(v),
        None => Err(texts_fault(bytes)),
    }
}

fn list_in(v: &Value) -> (r: Option<Vec<String>>)
    ensures
        match text_items(Some(json_of(*v))) {
            Some(all) => r is Some && texts(r->0@) == all,
            None => r is None,
        },
{
    let items = match items_in(v) {
        Some(items) => items,
        None => {
            return None;
        },
    };
    let ghost all = jsons(items@);
    let mut found: Vec<String> = Vec::new();
    let mut i: usize = 0;
    while i < items.len()
        invariant
            i <= items@.len(),
            all == jsons(items@),
            json_of(*v) == Json::List(all),
            found@.len() == i,
            forall|k: int| 0 <= k < i ==> #[trigger] all[k] == Json::Text(found@[k]@),
        decreases items@.len() - i,
    {
        match text_in(&items[i]) {
            Some(s) => {
                assert(all[i as int] == Json::Text(s@));
                found.push(s.to_owned());
            },
            None => {
                assert(!(all[i as int] is Text));
                return None;
            },
        }
        i += 1;
    }
    assert(texts(found@) == Seq::new(all.len(), |k: int| all[k]->Text_0));
    Some(found)
}

/// Reads a list of texts from a JSON document.
pub fn texts_in(bytes: &[u8]) -> (r: Result<Vec<String>, String>)
    ensures
        match saved_texts(bytes@) {
            Ok(v) => r is Ok && texts(r->Ok_0@) == v,
            Err(message) => r is Err && r->Err_0@ == message,
        },
{
    match decode(bytes) {
        Some(v) => match list_in(&v) {
            Some(found) => Ok(found),
            None => Err(texts_message(bytes)),
        },
        None => Err(texts_message(bytes)),
    }
}

/// Writes a list of texts as a JSON document, from which it is read back.
pub fn texts_out(v: &Vec<String>) -> (r: Vec<u8>)
    ensures
        r@ == encoded(text_list(texts(v@))),
        saved_texts(r@) == Ok::<Seq<Seq<char>>, Seq<char>>(texts(v@)),
{
    let value = texts_to_json(v);
    assert(Seq::new(texts(v@).len(), |i: int| (json_of(value)->List_0)[i]->Text_0) == texts(v@));
    encode(&value)
}

} // verus!
