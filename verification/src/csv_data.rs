//! The boundary to the CSV decoder: raw comma-separated text in, a
//! sequence of records (each a sequence of fields) out.

use vstd::prelude::*;

verus! {

/// The records that parsing `text` as CSV yields, each a sequence of
/// fields; the first record is the header row. The parse is a function of
/// the text alone.
pub uninterp spec fn csv_rows_of(text: Seq<char>) -> Seq<Seq<Seq<char>>>;

/// Relies on `csv::ReaderBuilder` and `csv::Reader`: parses the text as
/// comma-separated records with backslash escapes, quote handling
/// disabled, and ragged rows tolerated, yielding every record's fields in
/// order.
#[verifier::external_body]
pub(crate) fn csv_parse_rows(text: &str) -> (r: Vec<Vec<String>>)
    ensures
        r.deep_view() == csv_rows_of(text@),
{
    let mut reader = csv::ReaderBuilder::new()
        .double_quote(false)
        .escape(Some(b'\\'))
        .flexible(true)
        .has_headers(false)
        .from_reader(text.as_bytes());
    reader
        .records()
        .map(|rec| rec.unwrap_or_default().iter().map(|f| f.to_string()).collect())
        .collect()
}

} // verus!
