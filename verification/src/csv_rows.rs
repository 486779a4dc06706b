//! Splitting the bytes of a log into rows of fields.

use vstd::prelude::*;

verus! {

/// What can go wrong while a log is split into rows.
#[verifier::external_type_specification]
#[verifier::external_body]
pub struct ExCsvError(csv::Error);

/// The rows that the `csv` crate reads from the bytes of a file, the header
/// row first, each row as its fields and each field as its characters with
/// the white space around it removed; `None` where the crate reports an
/// error.
pub uninterp spec fn csv_rows(bytes: Seq<u8>) -> Option<Seq<Seq<Seq<char>>>>;

/// Reads all rows of a file with a `csv::Reader` that trims headers and
/// fields (`Trim::All`), yields the header row as a row like any other
/// (`has_headers(false)`) and keeps the crate's other defaults: comma as the
/// delimiter, double quotes, and an error for a row whose number of fields
/// differs from that of the first. The reader works on memory, so its result
/// depends on the bytes alone; the contract gives that result its name and
/// says that the first error ends the reading.
#[verifier::external_body]
pub(crate) fn read_rows(bytes: &[u8]) -> (r: Result<Vec<Vec<String>>, csv::Error>)
    ensures
        match r {
            Ok(rows) => csv_rows(bytes@) == Some(rows.deep_view()),
            Err(_) => csv_rows(bytes@).is_none(),
        },
{
    let mut reader =
        csv::ReaderBuilder::new().has_headers(false).trim(csv::Trim::All).from_reader(bytes);
    reader.records().map(|row| row.map(|fields| fields.iter().map(String::from).collect())).collect()
}

/// The number of the row at which a `csv::Error` arose, as
/// `csv::Error::position` and `Position::record` give it; zero where the
/// error carries no position. Nothing is claimed of the number.
#[verifier::external_body]
pub(crate) fn error_row(error: &csv::Error) -> (row: usize) {
    match error.position() {
        Some(position) => position.record() as usize,
        None => 0,
    }
}

} // verus!
