//! Moments on a local clock.

use crate::foreign::{
    common_moment, hour_digits, iso_week, iso_week_in, local_day, local_text, local_text_in,
    names_day, parse_day, parsed_day_in,
};
use crate::text::{byte_len, opt_view, utf8_len};
use vstd::prelude::*;
use vstd::string::StringExecFns;
use vstd::utf8::{
    decode_utf8, encode_utf8, encode_utf8_decode_utf8, encode_utf8_valid_utf8, is_ascii_chars,
    is_ascii_chars_encode_utf8, is_char_boundary, is_char_boundary_iff_not_is_continuation_byte,
};

verus! {

/// A moment and the offset of the local clock at that moment.
#[derive(Clone, Copy, Debug)]
pub struct LocalTime {
    /// Seconds since 1970, in UTC.
    pub timestamp: i64,
    /// How many seconds the local clock is ahead of UTC.
    pub utc_offset: i32,
}

/// The day on the local clock, such as `2026-06-18`.
pub open spec fn date_of(t: LocalTime) -> Option<Seq<char>> {
    local_text_in(t.timestamp, t.utc_offset, "%Y-%m-%d"@)
}

/// The day without its year, such as `06-18`.
pub open spec fn short_date_of(t: LocalTime) -> Option<Seq<char>> {
    local_text_in(t.timestamp, t.utc_offset, "%m-%d"@)
}

/// The hour under which usage is filed, such as `2026-06-18 19:00`.
pub open spec fn hour_of(t: LocalTime) -> Option<Seq<char>> {
    match (date_of(t), local_text_in(t.timestamp, t.utc_offset, "%H"@)) {
        (Some(date), Some(hour)) => Some(date + " "@ + hour + ":00"@),
        _ => None,
    }
}

/// The day on the local clock, counted from 1 January of the year 1, which is day 1.
pub open spec fn day_of(t: LocalTime) -> int {
    local_day(t.timestamp, t.utc_offset)
}

/// The text of the first ten bytes.
pub open spec fn ten_bytes(s: Seq<char>) -> Seq<char> {
    decode_utf8(encode_utf8(s).take(10))
}

/// The first ten bytes are a text, where there are as many.
pub open spec fn has_ten_bytes_or_less(s: Seq<char>) -> bool {
    byte_len(s) >= 10 ==> is_char_boundary(encode_utf8(s), 10)
}

/// The day that an hour lies on, counted from 1 January of the year 1; none where the first ten
/// bytes are no date.
pub open spec fn day_in(hour: Seq<char>) -> Option<i32> {
    if byte_len(hour) >= 10 {
        parsed_day_in(ten_bytes(hour), "%Y-%m-%d"@)
    } else {
        None
    }
}

/// The day that an hour lies on.
pub(crate) fn day_of_hour(hour: &str) -> (r: Option<i32>)
    requires
        has_ten_bytes_or_less(hour@),
    ensures
        r == day_in(hour@),
{
    if utf8_len(hour) < 10 {
        return None;
    }
    let (head, _) = hour.split_at(10);
    proof {
        encode_utf8_decode_utf8(head@);
        assert(encode_utf8(hour@).subrange(0, 10) =~= encode_utf8(hour@).take(10));
    }
    parse_day(head, "%Y-%m-%d")
}

/// The day is read from an hour whatever stands after the ten ASCII characters of its day.
pub proof fn day_is_read_from_hour(date: Seq<char>, rest: Seq<char>)
    requires
        date.len() == 10,
        is_ascii_chars(date),
        is_ascii_chars(rest),
    ensures
        has_ten_bytes_or_less(date + rest),
        day_in(date + rest) == parsed_day_in(date, "%Y-%m-%d"@),
{
    let hour = date + rest;
    let bytes = encode_utf8(hour);
    assert(is_ascii_chars(hour));
    is_ascii_chars_encode_utf8(hour);
    is_ascii_chars_encode_utf8(date);
    assert(bytes.take(10) =~= encode_utf8(date)) by {
        assert forall|i: int| 0 <= i < 10 implies bytes.take(10)[i] == encode_utf8(date)[i] by {
            assert(hour[i] == date[i]);
        }
    }
    encode_utf8_decode_utf8(date);
    encode_utf8_valid_utf8(hour);
    if bytes.len() > 10 {
        assert(hour[10] as u8 == bytes[10]);
        is_char_boundary_iff_not_is_continuation_byte(bytes, 10);
    } else {
        vstd::utf8::is_char_boundary_start_end_of_seq(bytes);
    }
}

/// The week that a day lies in. Weeks begin on Monday, and day 1 is one.
pub open spec fn week_of(day: int) -> int {
    (day - 1) / 7
}

/// The day is a Monday.
pub open spec fn is_monday(day: int) -> bool {
    day % 7 == 1
}

/// Another week begins on every Monday and on no other day.
pub proof fn weeks_begin_on_monday(day: int)
    ensures
        week_of(day) == week_of(day - 1) + if is_monday(day) {
            1int
        } else {
            0
        },
{
}

/// The week that a day lies in.
pub fn week_index(day: i64) -> (r: i64)
    ensures
        r == week_of(day as int),
{
    let n: i128 = day as i128 - 1;
    let q: i128 = if n >= 0 {
        n / 7
    } else {
        -((-n + 6) / 7)
    };
    q as i64
}

impl LocalTime {
    /// Whether the moment lies in the years 1970 to 9999 and the offset is less than a day.
    pub open spec fn common(self) -> bool {
        common_moment(self.timestamp, self.utc_offset)
    }

    /// The day on the local clock; it can be read again.
    pub fn date(&self) -> (r: Option<String>)
        ensures
            opt_view(r) == date_of(*self),
            self.common() ==> names_day(opt_view(r), day_of(*self)),
    {
        local_text(self.timestamp, self.utc_offset, "%Y-%m-%d")
    }

    /// The day without its year.
    pub fn short_date(&self) -> (r: Option<String>)
        ensures
            opt_view(r) == short_date_of(*self),
            self.common() ==> r is Some,
    {
        local_text(self.timestamp, self.utc_offset, "%m-%d")
    }

    /// The hour under which usage is filed; it lies on the day of the moment.
    pub fn hour(&self) -> (r: Option<String>)
        ensures
            opt_view(r) == hour_of(*self),
            self.common() ==> match (r, date_of(*self)) {
                (Some(hour), Some(date)) => {
                    &&& hour@ == date + " "@ + hour_digits(self.timestamp, self.utc_offset)
                        + ":00"@
                    &&& has_ten_bytes_or_less(hour@)
                    &&& day_in(hour@) == Some(day_of(*self) as i32)
                },
                _ => false,
            },
    {
        match self.date() {
            None => None,
            Some(date) => match local_text(self.timestamp, self.utc_offset, "%H") {
                None => None,
                Some(hour) => {
                    let ghost day = date@;
                    let r = date.concat(" ").concat(hour.as_str()).concat(":00");
                    proof {
                        if self.common() {
                            reveal_strlit(" ");
                            reveal_strlit(":00");
                            let rest = " "@ + hour@ + ":00"@;
                            assert(r@ =~= day + rest);
                            assert(is_ascii_chars(rest));
                            day_is_read_from_hour(day, rest);
                        }
                    }
                    Some(r)
                },
            },
        }
    }

    /// The ISO 8601 week on the local clock.
    pub fn week(&self) -> (r: Option<i32>)
        ensures
            match r {
                Some(w) => 1 <= w <= 53 && iso_week_in(self.timestamp, self.utc_offset) == Some(
                    w as u32,
                ),
                None => iso_week_in(self.timestamp, self.utc_offset) is None,
            },
            self.common() ==> r is Some,
    {
        match iso_week(self.timestamp, self.utc_offset) {
            Some(w) => Some(w as i32),
            None => None,
        }
    }

    /// The day on the local clock, counted from 1 January of the year 1.
    pub fn day(&self) -> (r: i64)
        ensures
            r == day_of(*self),
    {
        let n: i128 = self.timestamp as i128 + self.utc_offset as i128;
        let q: i128 = if n >= 0 {
            n / 86_400
        } else {
            -((-n + 86_399) / 86_400)
        };
        (q + 719_163) as i64
    }
}

/// An hour is filed under the date and the hour of its moment, with no minutes; there is none where
/// either cannot be shown.
pub proof fn hours_are_filed_under_their_date(t: LocalTime)
    ensures
        ({
            let date = local_text_in(t.timestamp, t.utc_offset, "%Y-%m-%d"@);
            let hour = local_text_in(t.timestamp, t.utc_offset, "%H"@);
            &&& date_of(t) == date
            &&& short_date_of(t) == local_text_in(t.timestamp, t.utc_offset, "%m-%d"@)
            &&& date is Some && hour is Some ==> hour_of(t) == Some(
                date->0 + " "@ + hour->0 + ":00"@,
            )
            &&& date is None || hour is None ==> hour_of(t) is None
        }),
{
}

/// The days of one week are the seven from a Monday on.
pub proof fn weeks_have_seven_days(monday: int, k: int)
    requires
        monday % 7 == 1,
        0 <= k < 7,
    ensures
        week_of(monday + k) == week_of(monday),
        week_of(monday + 7) == week_of(monday) + 1,
        week_of(monday - 1) == week_of(monday) - 1,
{
}

} // verus!
