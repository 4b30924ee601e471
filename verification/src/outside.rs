//! What this crate takes on trust from the crates it builds on.

use chrono::Datelike;
use vstd::prelude::*;

verus! {

/// A record of a delimited text file, as the `csv` crate hands it out.
#[verifier::external_type_specification]
#[verifier::external_body]
pub struct ExStringRecord(csv::StringRecord);

/// The fields that a record holds, in their order.
pub uninterp spec fn record_fields(record: csv::StringRecord) -> Seq<Seq<char>>;

/// The year, month and day that `chrono` reads out of a text that is
/// written in the given format, if it reads a date out of it.
pub uninterp spec fn date_of(text: Seq<char>, format: Seq<char>) -> Option<(i32, u32, u32)>;

/// Calls `csv::StringRecord::get`. Claimed: the result is the field of the
/// record at index `i`, and nothing if the record has no such field.
#[verifier::external_body]
pub(crate) fn field_at<'a>(record: &'a csv::StringRecord, i: usize) -> (r: Option<&'a str>)
    ensures
        i < record_fields(*record).len() ==> r is Some && r->0@ == record_fields(*record)[i as int],
        i >= record_fields(*record).len() ==> r is None,
{
    record.get(i)
}

/// Calls `chrono::NaiveDate::parse_from_str`, and takes year, month and day
/// out of the date that comes back. Claimed, for the format of year, month
/// and day in digits: the result depends on the text and the format alone.
#[verifier::external_body]
pub(crate) fn read_date(text: &str, format: &str) -> (r: Option<(i32, u32, u32)>)
    requires
        format@ == "%Y%m%d"@,
    ensures
        r == date_of(text@, format@),
{
    match chrono::NaiveDate::parse_from_str(text, format) {
        Ok(date) => Some((date.year(), date.month(), date.day())),
        Err(_) => None,
    }
}

} // verus!
