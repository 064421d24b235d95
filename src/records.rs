//! Reading text as CSV records: the rows of a frame and the lines of a
//! playback script.
use vstd::prelude::*;
use crate::text::row_view;

verus! {

/// The records that the CSV reader finds in a frame's text.
pub uninterp spec fn csv_records_of(text: Seq<char>) -> Seq<Option<Seq<Seq<char>>>>;

/// The records that the CSV reader finds in a script, `#` lines skipped.
pub uninterp spec fn csv_script_records_of(text: Seq<char>) -> Seq<Option<Seq<Seq<char>>>>;

pub open spec fn record_view(r: Option<Vec<String>>) -> Option<Seq<Seq<char>>> {
    match r {
        Some(v) => Some(row_view(v@)),
        None => None,
    }
}

pub open spec fn records_view(x: Seq<Option<Vec<String>>>) -> Seq<Option<Seq<Seq<char>>>> {
    x.map_values(|r: Option<Vec<String>>| record_view(r))
}

/// Relies on `csv::Reader` (no header row, records of any length): each
/// record of `text` in order, as its fields; a record the reader reports an
/// error for is `None`.
#[verifier::external_body]
pub fn read_records(text: &str) -> (r: Vec<Option<Vec<String>>>)
    ensures
        records_view(r@) == csv_records_of(text@),
{
    let mut reader = csv::ReaderBuilder::new().has_headers(false).flexible(true).from_reader(
        text.as_bytes(),
    );
    reader.records().map(|rec| rec.ok().map(|f| f.iter().map(|x| x.to_string()).collect())).collect()
}

/// Relies on `csv::Reader` (no header row, records of any length, lines
/// starting with `#` skipped): each record of `text` in order, as its
/// fields; a record the reader reports an error for is `None`.
#[verifier::external_body]
pub fn read_script_records(text: &str) -> (r: Vec<Option<Vec<String>>>)
    ensures
        records_view(r@) == csv_script_records_of(text@),
{
    let mut reader = csv::ReaderBuilder::new().has_headers(false).flexible(true).comment(
        Some(b'#'),
    ).from_reader(text.as_bytes());
    reader.records().map(|rec| rec.ok().map(|f| f.iter().map(|x| x.to_string()).collect())).collect()
}

} // verus!
