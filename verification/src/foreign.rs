//! Calls into other crates and into the parts of the standard library that have no
//! specification of their own. Every item here is believed, not proved.

use crate::text::{digit_char, opt_view, views};
use std::collections::BTreeMap;
use std::fmt::Write;
use vstd::prelude::*;
use vstd::utf8::is_ascii_chars;

verus! {

/// What `str::to_lowercase` makes of a text.
pub uninterp spec fn unicode_lowercase(s: Seq<char>) -> Seq<char>;

/// `str::to_lowercase`: the lower case of a text in the sense of Unicode. The contract says only
/// that the result depends on nothing but the text.
#[verifier::external_body]
pub(crate) fn to_unicode_lowercase(s: &str) -> (r: String)
    ensures
        r@ == unicode_lowercase(s@),
{
    s.to_lowercase()
}

/// The list of strings that a JSON text holds, if it is a list of strings.
pub uninterp spec fn json_list_in(s: Seq<char>) -> Option<Seq<Seq<char>>>;

/// The views of an optional list of strings.
pub open spec fn opt_views(list: Option<Vec<String>>) -> Option<Seq<Seq<char>>> {
    match list {
        Some(v) => Some(views(v@)),
        None => None,
    }
}

/// `serde_json::from_str` into a list of strings. The contract says only that the outcome depends
/// on nothing but the text.
#[verifier::external_body]
pub(crate) fn parse_json_list(s: &str) -> (r: Option<Vec<String>>)
    ensures
        opt_views(r) == json_list_in(s@),
{
    serde_json::from_str::<Vec<String>>(s).ok()
}

/// The counts by name that a JSON text holds, if it is an object whose values are all `i64`.
pub uninterp spec fn json_counts_in(s: Seq<char>) -> Option<Map<Seq<char>, int>>;

/// The pairs hold what the map holds, each name once.
pub open spec fn pairs_of(pairs: Seq<(String, i64)>, m: Map<Seq<char>, int>) -> bool {
    &&& forall|i: int, j: int|
        0 <= i < j < pairs.len() ==> (#[trigger] pairs[i]).0@ != (#[trigger] pairs[j]).0@
    &&& forall|i: int|
        0 <= i < pairs.len() ==> m.contains_key((#[trigger] pairs[i]).0@) && m[pairs[i].0@]
            == pairs[i].1
    &&& forall|k: Seq<char>| #[trigger]
        m.contains_key(k) ==> exists|i: int| 0 <= i < pairs.len() && (#[trigger] pairs[i]).0@ == k
}

/// `serde_json::from_str` into a map from names to `i64`, handed out as pairs with each name once.
/// The contract says only that the outcome depends on nothing but the text.
#[verifier::external_body]
pub(crate) fn parse_json_counts(s: &str) -> (r: Option<Vec<(String, i64)>>)
    ensures
        match r {
            Some(pairs) => json_counts_in(s@) is Some && pairs_of(pairs@, json_counts_in(s@)->0),
            None => json_counts_in(s@) is None,
        },
{
    let map = serde_json::from_str::<BTreeMap<String, i64>>(s).ok()?;
    Some(map.into_iter().collect())
}

/// A moment as a local clock shows it, in the given format of `strftime`. There is no value where
/// the moment, the offset or the format is not one that can be shown.
pub uninterp spec fn local_text_in(
    timestamp: i64,
    utc_offset: i32,
    format: Seq<char>,
) -> Option<Seq<char>>;

/// The ISO 8601 week of a moment on a local clock. There is no value where the moment or the
/// offset is not one that can be shown.
pub uninterp spec fn iso_week_in(timestamp: i64, utc_offset: i32) -> Option<u32>;

/// The moments from 1970 to 9999 on a clock less than a day away from UTC.
pub open spec fn common_moment(timestamp: i64, utc_offset: i32) -> bool {
    0 <= timestamp <= 253_402_214_399 && -86_400 < utc_offset < 86_400
}

/// The formats of a day, of a day in its year, and of an hour.
pub open spec fn plain_format(format: Seq<char>) -> bool {
    format == "%Y-%m-%d"@ || format == "%m-%d"@ || format == "%H"@
}

/// The day of a moment on a local clock, counted from 1 January of the year 1, which is day 1.
pub open spec fn local_day(timestamp: i64, utc_offset: i32) -> int {
    (timestamp + utc_offset) / 86_400 + 719_163
}

/// The text has ten ASCII characters, and `NaiveDate::parse_from_str` reads it as the day.
pub open spec fn names_day(text: Option<Seq<char>>, day: int) -> bool {
    match text {
        Some(s) => s.len() == 10 && is_ascii_chars(s) && parsed_day_in(s, "%Y-%m-%d"@) == Some(
            day as i32,
        ),
        None => false,
    }
}

/// The hour of a moment on a local clock, in two digits.
pub open spec fn hour_digits(timestamp: i64, utc_offset: i32) -> Seq<char> {
    let hour = (timestamp + utc_offset) % 86_400 / 3_600;
    seq![digit_char(hour / 10), digit_char(hour % 10)]
}

/// `chrono::DateTime::format` of the moment `timestamp` (in seconds since 1970, in UTC) at
/// `chrono::FixedOffset::east_opt(utc_offset)`. The contract says that the outcome depends on
/// nothing but the arguments, and of a moment from 1970 to 9999 that it can be shown in a plain
/// format, that its day takes ten ASCII characters which `NaiveDate::parse_from_str` reads as that
/// day again, and that its hour is shown in two digits.
#[verifier::external_body]
pub(crate) fn local_text(timestamp: i64, utc_offset: i32, format: &str) -> (r: Option<String>)
    ensures
        opt_view(r) == local_text_in(timestamp, utc_offset, format@),
        common_moment(timestamp, utc_offset) && plain_format(format@) ==> r is Some,
        common_moment(timestamp, utc_offset) && format@ == "%Y-%m-%d"@ ==> names_day(
            opt_view(r),
            local_day(timestamp, utc_offset),
        ),
        common_moment(timestamp, utc_offset) && format@ == "%H"@ ==> opt_view(r) == Some(
            hour_digits(timestamp, utc_offset),
        ),
{
    let zone = chrono::FixedOffset::east_opt(utc_offset)?;
    let moment = chrono::DateTime::from_timestamp(timestamp, 0)?.with_timezone(&zone);
    let mut text = String::new();
    write!(text, "{}", moment.format(format)).ok()?;
    Some(text)
}

/// `chrono::Datelike::iso_week` of the moment `timestamp` (in seconds since 1970, in UTC) at
/// `chrono::FixedOffset::east_opt(utc_offset)`. The contract says that the outcome depends on
/// nothing but the arguments, that a week has a number from 1 to 53, and that a moment from 1970
/// to 9999 has one.
#[verifier::external_body]
pub(crate) fn iso_week(timestamp: i64, utc_offset: i32) -> (r: Option<u32>)
    ensures
        r == iso_week_in(timestamp, utc_offset),
        r matches Some(w) ==> 1 <= w <= 53,
        common_moment(timestamp, utc_offset) ==> r is Some,
{
    let zone = chrono::FixedOffset::east_opt(utc_offset)?;
    let moment = chrono::DateTime::from_timestamp(timestamp, 0)?.with_timezone(&zone);
    Some(chrono::Datelike::iso_week(&moment).week())
}

/// The day that a text names in the given format of `strftime`, counted from 1 January of the
/// year 1, which is day 1.
pub uninterp spec fn parsed_day_in(s: Seq<char>, format: Seq<char>) -> Option<i32>;

/// `chrono::NaiveDate::parse_from_str`, with the date as `Datelike::num_days_from_ce` counts it.
/// The contract says only that the outcome depends on nothing but the arguments.
#[verifier::external_body]
pub(crate) fn parse_day(s: &str, format: &str) -> (r: Option<i32>)
    ensures
        r == parsed_day_in(s@, format@),
{
    let date = chrono::NaiveDate::parse_from_str(s, format).ok()?;
    Some(chrono::Datelike::num_days_from_ce(&date))
}

} // verus!
