//! Text forms of coefficient lists: the `Debug` rendering of a `Vec<u64>`,
//! and its JSON text through `serde_json`.
use vstd::prelude::*;

verus! {

/// The text that `format!("{:?}", v)` produces for a `Vec<u64>` holding `v`.
pub uninterp spec fn debug_list(v: Seq<u64>) -> Seq<char>;

/// The JSON text that `serde_json::to_string` produces for a `Vec<u64>`
/// holding `v`.
pub uninterp spec fn json_list(v: Seq<u64>) -> Seq<char>;

/// What `serde_json::from_str::<Vec<u64>>` gives for the text `s`: the list
/// when it succeeds, `None` when it returns an error.
pub uninterp spec fn parsed_json_list(s: Seq<char>) -> Option<Seq<u64>>;

/// Renders `v` with std's `Debug` formatting (`format!("{:?}", v)`).
///
/// Trusted: the result is the named text `debug_list(v@)`, and
/// `serde_json::from_str::<Vec<u64>>` reads that text back as `v`: std's
/// `Debug` for a list writes `[`, the entries separated by `, `, and `]`, and
/// `Debug` for `u64` writes its decimal digits, which is a JSON array of
/// integers that `serde_json` reads as `u64`. Nothing more is claimed about
/// the text.
#[verifier::external_body]
pub(crate) fn debug_list_text(v: &Vec<u64>) -> (s: String)
    ensures
        s@ == debug_list(v@),
        parsed_json_list(s@) == Some(v@),
{
    format!("{:?}", v)
}

/// Renders `v` as JSON with `serde_json::to_string`.
///
/// Trusted: the result is the named text `json_list(v@)`, and
/// `serde_json::from_str::<Vec<u64>>` reads that text back as `v`.
/// Serializing a `Vec<u64>` cannot fail (every element is a plain integer),
/// so the `Ok` value is taken.
#[verifier::external_body]
pub(crate) fn json_list_text(v: &Vec<u64>) -> (s: String)
    ensures
        s@ == json_list(v@),
        parsed_json_list(s@) == Some(v@),
{
    serde_json::to_string(v).unwrap()
}

/// Parses `s` as a JSON array of `u64` with `serde_json::from_str`.
///
/// Trusted: the result is the named outcome `parsed_json_list(s@)`, with an
/// error mapped to `None`.
#[verifier::external_body]
pub(crate) fn parse_json_list(s: &str) -> (r: Option<Vec<u64>>)
    ensures
        r is None <==> parsed_json_list(s@) is None,
        r matches Some(v) ==> parsed_json_list(s@) == Some(v@),
{
    match serde_json::from_str::<Vec<u64>>(s) {
        Ok(v) => Some(v),
        Err(_) => None,
    }
}

} // verus!
