use vstd::prelude::*;
use crate::item::valid_date;

verus! {

/// The ISO-style text (`YYYY-MM-DD`) of a calendar date.
pub uninterp spec fn date_text(year: int, month: int, day: int) -> Seq<char>;

/// Relies on `time::Date::from_calendar_date`, which accepts every valid date
/// of the years -9999 to 9999, and on `Display` for `time::Date`, which writes
/// the date in ISO form.
#[verifier::external_body]
pub(crate) fn format_date(year: i32, month: u8, day: u8) -> (r: String)
    requires
        valid_date(year as int, month as int, day as int),
    ensures
        r@ == date_text(year as int, month as int, day as int),
{
    let month = time::Month::try_from(month).unwrap();
    time::Date::from_calendar_date(year, month, day).unwrap().to_string()
}

} // verus!
