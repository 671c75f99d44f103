//! The parameters of a request's query.
use crate::outside::{optional, pairs_of};
use crate::text::same;
use vstd::prelude::*;

verus! {

/// The value of a parameter: the last one that the query gives.
pub open spec fn value_of(params: Seq<(Seq<char>, Seq<char>)>, key: Seq<char>) -> Option<Seq<char>>
    decreases params.len(),
{
    if params.len() == 0 {
        None
    } else if params.last().0 == key {
        Some(params.last().1)
    } else {
        value_of(params.drop_last(), key)
    }
}

/// Looks a parameter up.
pub fn parameter(params: &Vec<(String, String)>, key: &str) -> (r: Option<String>)
    ensures
        optional(r) == value_of(pairs_of(params@), key@),
{
    let ghost all = pairs_of(params@);
    let mut i: usize = params.len();
    assert(all.take(all.len() as int) == all);
    while i > 0
        invariant
            i <= params@.len(),
            all == pairs_of(params@),
            value_of(all, key@) == value_of(all.take(i as int), key@),
        decreases i,
    {
        assert(all.take(i as int).last() == all[i - 1]);
        assert(all.take(i as int).drop_last() == all.take(i - 1));
        i = i - 1;
        if same(params[i].0.as_str(), key) {
            return Some(params[i].1.clone());
        }
    }
    None
}

/// A parameter that stands behind all others with its key is the one that counts.
pub proof fn law_last_parameter_counts(
    params: Seq<(Seq<char>, Seq<char>)>,
    key: Seq<char>,
    value: Seq<char>,
)
    ensures
        value_of(params.push((key, value)), key) == Some(value),
        forall|other: Seq<char>|
            other != key ==> value_of(params.push((key, value)), other) == value_of(params, other),
{
    let more = params.push((key, value));
    assert(more.drop_last() == params);
    assert(more.last() == (key, value));
}

/// The value of a parameter is that of the last one with its name.
pub proof fn lemma_value_of(params: Seq<(Seq<char>, Seq<char>)>, i: int)
    requires
        0 <= i < params.len(),
        forall|j: int| i < j < params.len() ==> (#[trigger] params[j]).0 != params[i].0,
    ensures
        value_of(params, params[i].0) == Some(params[i].1),
    decreases params.len(),
{
    if i < params.len() - 1 {
        assert(params[params.len() - 1] == params.last());
        lemma_value_of(params.drop_last(), i);
    }
}

/// There is a value exactly where a parameter has the name.
pub proof fn law_parameters_are_found(params: Seq<(Seq<char>, Seq<char>)>, key: Seq<char>)
    ensures
        value_of(params, key) is None <==> forall|i: int|
            0 <= i < params.len() ==> (#[trigger] params[i]).0 != key,
    decreases params.len(),
{
    if params.len() > 0 {
        let init = params.drop_last();
        law_parameters_are_found(init, key);
        assert(params[params.len() - 1] == params.last());
        assert forall|i: int| 0 <= i < init.len() implies init[i] == #[trigger] params[i] by {}
        if value_of(params, key) is Some && params.last().0 != key {
            let i = choose|i: int| 0 <= i < init.len() && (#[trigger] init[i]).0 == key;
            assert(params[i].0 == key);
        }
    }
}

} // verus!
