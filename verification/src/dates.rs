//! Calendar text for row timestamps, through chrono.
use vstd::prelude::*;

verus! {

/// The calendar text of a Unix timestamp under the fixed pattern
/// `%Y-%m-%d %H:%M:%S`, in the naive UTC calendar: a function of the
/// timestamp alone.
pub uninterp spec fn date_text_of(t: i64) -> Seq<char>;

/// The timestamps the formatter is used on: the years 1970 through 9999.
pub open spec fn formattable(t: i64) -> bool {
    0 <= t <= 253402300799
}

/// Relies on chrono's `DateTime::from_timestamp` and its strftime
/// formatting: defined on every timestamp of the accepted range, and a
/// function of the timestamp alone (the naive UTC calendar involves no
/// time zone, locale or clock).
#[verifier::external_body]
pub fn format_timestamp(t: i64) -> (r: String)
    requires
        formattable(t),
    ensures
        r@ == date_text_of(t),
{
    match chrono::DateTime::from_timestamp(t, 0) {
        Some(d) => d.naive_utc().format("%Y-%m-%d %H:%M:%S").to_string(),
        None => String::new(),
    }
}

} // verus!
