//! The stored list encoding.
//!
//! Author and subject lists are persisted as JSON arrays of strings inside
//! a single text column. Encoding and decoding are done by serde_json
//! behind trusted wrappers; the library's own logic only needs that the
//! encoding is a function of the list and that decoding recovers a list or
//! fails. A malformed stored value always degrades to the empty list —
//! corrupt auxiliary data must never block retrieval of a primary record.

use vstd::prelude::*;

use crate::text::views;

verus! {

/// The JSON array encoding of a list of strings.
pub uninterp spec fn json_of_list(l: Seq<Seq<char>>) -> Seq<char>;

/// The list of strings a text parses to as a JSON string array, if any.
pub uninterp spec fn json_parsed_strings(s: Seq<char>) -> Option<Seq<Seq<char>>>;

/// Relies on serde_json::to_string: the encoding of a vector of strings is
/// a function of the vector alone. Serializing strings cannot fail: the
/// serializer only errors when a value's own serialize implementation
/// errors or a map key is not a string, and neither can happen here.
#[verifier::external_body]
pub(crate) fn json_encode_strings(v: &Vec<String>) -> (r: String)
    ensures
        r@ == json_of_list(views(v@)),
{
    serde_json::to_string(v).unwrap_or_default()
}

/// Relies on serde_json::from_str: parsing a text as a JSON string array
/// is a function of the text alone; it returns the parsed list or an error.
#[verifier::external_body]
pub(crate) fn json_decode_strings(s: &str) -> (r: Option<Vec<String>>)
    ensures
        match r {
            Some(v) => json_parsed_strings(s@) == Some(views(v@)),
            None => json_parsed_strings(s@) is None,
        },
{
    serde_json::from_str::<Vec<String>>(s).ok()
}

/// The list a stored text stands for: the parsed list, or the empty list
/// when the text does not parse.
pub open spec fn list_of_json(s: Seq<char>) -> Seq<Seq<char>> {
    match json_parsed_strings(s) {
        Some(l) => l,
        None => Seq::empty(),
    }
}

/// Parses a stored JSON array text into a list of strings; malformed text
/// degrades to the empty list rather than failing the read.
pub fn parse_json_array(json: String) -> (r: Vec<String>)
    ensures
        views(r@) == list_of_json(json@),
{
    match json_decode_strings(json.as_str()) {
        Some(v) => v,
        None => {
            let r: Vec<String> = Vec::new();
            proof {
                assert(views(r@) =~= Seq::<Seq<char>>::empty());
            }
            r
        },
    }
}

/// Parses an optional stored text; an absent value is the empty list.
pub fn parse_optional_json_array(json: Option<String>) -> (r: Vec<String>)
    ensures
        views(r@) == match crate::types::view_opt(json) {
            Some(s) => list_of_json(s),
            None => Seq::empty(),
        },
{
    match json {
        Some(s) => parse_json_array(s),
        None => {
            let r: Vec<String> = Vec::new();
            proof {
                assert(views(r@) =~= Seq::<Seq<char>>::empty());
            }
            r
        },
    }
}

} // verus!
