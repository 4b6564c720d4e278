//! What is read out of JSON text, and written as JSON text.

use std::collections::BTreeMap;

use vstd::prelude::*;

use crate::model::opt_text;
use crate::order::str_lt;
use crate::text::texts;

verus! {

/// Whether `text` is a JSON value.
pub uninterp spec fn is_json(text: Seq<char>) -> bool;

/// The string that stands under `name` in the JSON object that `text` is;
/// none where `text` is no object, has no such member, or another value there.
pub uninterp spec fn json_member(text: Seq<char>, name: Seq<char>) -> Option<Seq<char>>;

/// `serde_json::from_str` into a `serde_json::Value`, then `Value::get` and
/// `Value::as_str`: the string member of an object. It fails just where the
/// text is no JSON value; whether it is, and what stands there, depends on the
/// text and the name alone.
#[verifier::external_body]
pub(crate) fn member_string(text: &str, name: &str) -> (r: Result<
    Option<String>,
    serde_json::Error,
>)
    ensures
        r is Ok <==> is_json(text@),
        r matches Ok(s) ==> opt_text(s) == json_member(text@, name@),
{
    let value: serde_json::Value = serde_json::from_str(text)?;
    Ok(value.get(name).and_then(serde_json::Value::as_str).map(String::from))
}

/// The strings of the JSON list that `bytes` are; none where they are none.
pub uninterp spec fn json_strings(bytes: Seq<u8>) -> Option<Seq<Seq<char>>>;

/// `serde_json::from_slice` into a `Vec<String>`: a list of strings. What it
/// gives, and whether it fails, depends on the bytes alone.
#[verifier::external_body]
pub(crate) fn strings_of_json(bytes: &[u8]) -> (r: Result<Vec<String>, serde_json::Error>)
    ensures
        match r {
            Ok(v) => json_strings(bytes@) == Some(texts(v@)),
            Err(_) => json_strings(bytes@) is None,
        },
{
    serde_json::from_slice::<Vec<String>>(bytes)
}

/// A count under a name.
pub type CountView = (Seq<char>, u64);

/// Counts under names.
pub open spec fn count_views(v: Seq<(String, u64)>) -> Seq<CountView> {
    v.map_values(|e: (String, u64)| (e.0@, e.1))
}

/// Ordered by name, no name twice.
pub open spec fn sorted_counts(v: Seq<CountView>) -> bool {
    forall|i: int, j: int| 0 <= i < j < v.len() ==> str_lt(#[trigger] v[i].0, #[trigger] v[j].0)
}

/// The counts of the JSON object that `bytes` are; none where they are none.
pub uninterp spec fn json_counts(bytes: Seq<u8>) -> Option<Seq<CountView>>;

/// `serde_json::from_slice` into a `BTreeMap<String, u64>`: an object whose
/// members are counts, in the order of their names. What it gives, and whether
/// it fails, depends on the bytes alone.
#[verifier::external_body]
pub(crate) fn counts_of_json(bytes: &[u8]) -> (r: Result<Vec<(String, u64)>, serde_json::Error>)
    ensures
        match r {
            Ok(v) => json_counts(bytes@) == Some(count_views(v@)) && sorted_counts(count_views(v@)),
            Err(_) => json_counts(bytes@) is None,
        },
{
    let counts: BTreeMap<String, u64> = serde_json::from_slice(bytes)?;
    Ok(counts.into_iter().collect())
}

/// `serde_json::to_vec` of a `BTreeMap<String, u64>`: an object whose members
/// are counts. Names and counts can always be written, and what is written is
/// read back as the same counts.
#[verifier::external_body]
pub(crate) fn json_of_counts(counts: Vec<(String, u64)>) -> (r: Result<Vec<u8>, serde_json::Error>)
    requires
        sorted_counts(count_views(counts@)),
    ensures
        r is Ok,
        r matches Ok(b) ==> json_counts(b@) == Some(count_views(counts@)),
{
    serde_json::to_vec(&counts.into_iter().collect::<BTreeMap<String, u64>>())
}

/// `s` as a JSON string, in quotes.
pub uninterp spec fn json_quoted(s: Seq<char>) -> Seq<char>;

/// `serde_json::Value::from` a string, displayed: the string in quotes, with
/// what JSON escapes escaped, line ends among it. It depends on the string alone.
#[verifier::external_body]
pub(crate) fn quote(s: &str) -> (r: String)
    ensures
        r@ == json_quoted(s@),
        !r@.contains('\n'),
{
    serde_json::Value::from(s).to_string()
}

/// Counts have their names and numbers, in order.
pub proof fn law_count_views_hold_every_field(v: Seq<(String, u64)>, i: int)
    ensures
        count_views(v).len() == v.len(),
        0 <= i < v.len() ==> count_views(v)[i].0 == v[i].0@ && count_views(v)[i].1 == v[i].1,
{
}

} // verus!
