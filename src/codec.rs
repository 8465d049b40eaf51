//! The text of intermediate files: a JSON array of `[key, value]` pairs,
//! written and read by serde_json.
use crate::shuffle::{lemma_records_view_take, records_view};
use crate::worker::{KVPair, WorkerError};
use vstd::prelude::*;

verus! {

#[verifier::external_type_specification]
#[verifier::external_body]
pub struct ExJsonError(serde_json::Error);

/// The JSON text that serde_json writes for a list of `(key, value)` pairs.
pub uninterp spec fn json_of_pairs(pairs: Seq<(Seq<char>, u64)>) -> Seq<char>;

/// The list of `(key, value)` pairs that serde_json reads from a text, or
/// `None` where the text is not a JSON array of `[string, unsigned 64-bit
/// integer]` pairs.
pub uninterp spec fn pairs_of_json(text: Seq<char>) -> Option<Seq<(Seq<char>, u64)>>;

pub open spec fn pairs_view(v: Seq<(String, u64)>) -> Seq<(Seq<char>, u64)> {
    v.map_values(|p: (String, u64)| (p.0@, p.1))
}

/// Relies on `serde_json::to_string` for a `Vec<(String, u64)>`: the JSON
/// text of the list, each pair written as a two-element array. It fails only
/// where a value's `Serialize` fails or a map has non-string keys, neither of
/// which a list of strings and integers written to memory can do; and
/// `serde_json::from_str` reads the same list back from that text.
#[verifier::external_body]
fn pairs_to_json(pairs: &Vec<(String, u64)>) -> (r: Result<String, serde_json::Error>)
    ensures
        r is Ok,
        r matches Ok(t) ==> t@ == json_of_pairs(pairs_view(pairs@)),
        r matches Ok(t) ==> pairs_of_json(t@) == Some(pairs_view(pairs@)),
{
    serde_json::to_string(pairs)
}

/// Relies on `serde_json::from_str` for a `Vec<(String, u64)>`: the pairs
/// that the text holds, or an error where it is not such a list.
#[verifier::external_body]
fn pairs_from_json(text: &str) -> (r: Result<Vec<(String, u64)>, serde_json::Error>)
    ensures
        match r {
            Ok(v) => pairs_of_json(text@) == Some(pairs_view(v@)),
            Err(_) => pairs_of_json(text@) is None,
        },
{
    serde_json::from_str(text)
}

/// The text of an intermediate file holding `records`, in their order; it
/// reads back as the same records.
pub fn encode_records(records: &Vec<KVPair>) -> (t: String)
    ensures
        t@ == json_of_pairs(records_view(records@)),
        pairs_of_json(t@) == Some(records_view(records@)),
{
    let mut pairs: Vec<(String, u64)> = Vec::new();
    let mut i: usize = 0;
    while i < records.len()
        invariant
            i <= records@.len(),
            pairs_view(pairs@) == records_view(records@.take(i as int)),
        decreases records.len() - i,
    {
        let ghost before = pairs@;
        pairs.push((records[i].key.clone(), records[i].val));
        proof {
            lemma_records_view_take(records@, i as int);
            assert(pairs_view(pairs@) =~= pairs_view(before).push((records@[i as int].key@, records@[i as int].val)));
        }
        i = i + 1;
    }
    assert(records@.take(records@.len() as int) =~= records@);
    match pairs_to_json(&pairs) {
        Ok(t) => t,
        Err(_) => String::new(),
    }
}

/// The records that the text of an intermediate file holds, in their order.
pub fn decode_records(text: &str) -> (r: Result<Vec<KVPair>, WorkerError>)
    ensures
        match r {
            Ok(v) => pairs_of_json(text@) == Some(records_view(v@)),
            Err(e) => e == WorkerError::MalformedIntermediate && pairs_of_json(text@) is None,
        },
{
    match pairs_from_json(text) {
        Ok(pairs) => {
            let mut records: Vec<KVPair> = Vec::new();
            let mut i: usize = 0;
            while i < pairs.len()
                invariant
                    i <= pairs@.len(),
                    records_view(records@) == pairs_view(pairs@.take(i as int)),
                decreases pairs.len() - i,
            {
                let ghost before = records@;
                records.push(KVPair { key: pairs[i].0.clone(), val: pairs[i].1 });
                proof {
                    assert(records_view(records@) =~= records_view(before).push((pairs@[i as int].0@, pairs@[i as int].1)));
                    assert(pairs_view(pairs@.take(i + 1)) =~= pairs_view(pairs@.take(i as int)).push((pairs@[i as int].0@, pairs@[i as int].1)));
                }
                i = i + 1;
            }
            assert(pairs@.take(pairs@.len() as int) =~= pairs@);
            Ok(records)
        },
        Err(_) => Err(WorkerError::MalformedIntermediate),
    }
}

} // verus!
