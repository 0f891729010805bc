use vstd::prelude::*;

verus! {

/// The key-value mapping that a JSON text denotes when it parses as an
/// object of string keys and unsigned 32-bit values; `None` otherwise.
pub uninterp spec fn json_map_of(t: Seq<char>) -> Option<Map<Seq<char>, u32>>;

/// The pretty-printed JSON text for a mapping of string keys to
/// unsigned 32-bit values.
pub uninterp spec fn json_text_of(m: Map<Seq<char>, u32>) -> Seq<char>;

/// The views of a sequence of owned key-value pairs.
pub open spec fn pairs_view(s: Seq<(String, u32)>) -> Seq<(Seq<char>, u32)> {
    s.map_values(|p: (String, u32)| (p.0@, p.1))
}

/// The mapping denoted by a sequence of key-value pairs, later pairs
/// overriding earlier ones.
pub open spec fn map_of_pairs(s: Seq<(Seq<char>, u32)>) -> Map<Seq<char>, u32>
    decreases s.len(),
{
    if s.len() == 0 {
        Map::empty()
    } else {
        map_of_pairs(s.drop_last()).insert(s.last().0, s.last().1)
    }
}

/// Relies on `serde_json::from_str` applied to an ordered string-keyed
/// map type: a deterministic parse that yields the object's key-value
/// pairs, and fails exactly when the text is not a JSON object of
/// string keys and unsigned 32-bit values.
#[verifier::external_body]
pub(crate) fn parse_json_pairs(text: &str) -> (r: Option<Vec<(String, u32)>>)
    ensures
        match r {
            Some(v) => json_map_of(text@) == Some(map_of_pairs(pairs_view(v@))),
            None => json_map_of(text@) is None,
        },
{
    match serde_json::from_str::<std::collections::BTreeMap<String, u32>>(text) {
        Ok(m) => Some(m.into_iter().collect()),
        Err(_) => None,
    }
}

/// Relies on `serde_json::to_string_pretty` applied to an ordered
/// string-keyed map: the emitted text depends only on the key-value
/// mapping the argument holds. Its documentation names only two
/// failure causes - a failing `Serialize` implementation, or a map
/// with non-string keys - and neither arises for string keys and
/// unsigned integers, so the call succeeds.
#[verifier::external_body]
pub(crate) fn pairs_to_json(entries: &Vec<(String, u32)>) -> (r: Option<String>)
    ensures
        r is Some,
        (r matches Some(t) ==> t@ == json_text_of(map_of_pairs(pairs_view(entries@)))),
{
    let m: std::collections::BTreeMap<String, u32> = entries.iter().cloned().collect();
    serde_json::to_string_pretty(&m).ok()
}

} // verus!
