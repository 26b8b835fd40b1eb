use vstd::prelude::*;
use chrono::TimeZone;
use crate::text::{digit_char, digit_of, push_char};

verus! {

/// The offset of Beijing time (UTC+8) from UTC, in seconds.
pub const BEIJING_OFFSET_SECS: i32 = 8 * 3600;

/// Timestamps above this are taken to be in milliseconds, those up to it in
/// seconds.
pub const MILLIS_THRESHOLD: u64 = 10_000_000_000;

/// The text that chrono gives for the instant `secs` seconds after the Unix
/// epoch, seen at the fixed offset `offset_secs` east of UTC, in the layout
/// `%Y-%m-%d %H:%M:%S`; nothing where chrono has no such instant.
pub uninterp spec fn offset_clock_text(secs: i64, offset_secs: i32) -> Option<Seq<char>>;

/// The characters of a text that may be absent.
pub open spec fn optional_text(t: Option<String>) -> Option<Seq<char>> {
    match t {
        Some(s) => Some(s@),
        None => None,
    }
}

/// chrono: `Utc.timestamp_opt(secs, 0)`, then `with_timezone` at
/// `FixedOffset::east_opt(offset_secs)`, then `format("%Y-%m-%d %H:%M:%S")`.
/// Claimed: the result is the named text [`offset_clock_text`] of the two
/// arguments, absent exactly where `timestamp_opt` gives no single instant.
/// Which calendar text that is for a given instant is not stated.
#[verifier::external_body]
pub(crate) fn clock_text(secs: i64, offset_secs: i32) -> (r: Option<String>)
    requires
        -86_400 < offset_secs < 86_400,
    ensures
        optional_text(r) == offset_clock_text(secs, offset_secs),
{
    let offset = chrono::FixedOffset::east_opt(offset_secs).unwrap();
    match chrono::Utc.timestamp_opt(secs, 0) {
        chrono::LocalResult::Single(dt) => Some(
            dt.with_timezone(&offset).format("%Y-%m-%d %H:%M:%S").to_string(),
        ),
        _ => None,
    }
}

/// The seconds part of a timestamp given in seconds or milliseconds.
pub open spec fn seconds_of(timestamp: u64) -> int {
    if timestamp > MILLIS_THRESHOLD {
        (timestamp / 1000) as int
    } else {
        timestamp as int
    }
}

/// The milliseconds part of a timestamp (zero for one given in seconds).
pub open spec fn millis_of(timestamp: u64) -> nat {
    if timestamp > MILLIS_THRESHOLD {
        (timestamp % 1000) as nat
    } else {
        0
    }
}

/// A value below 1000 as exactly three digits (`{:03}`).
pub open spec fn three_digits(n: nat) -> Seq<char> {
    seq![digit_char(n / 100), digit_char((n / 10) % 10), digit_char(n % 10)]
}

/// What is shown for a draw time: the clock text, followed by `.` and three
/// digits of milliseconds when there are any; a notice where there is no
/// clock text.
pub open spec fn shown_time(clock: Option<Seq<char>>, millis: nat) -> Seq<char> {
    match clock {
        Some(t) => if millis > 0 {
            t + seq!['.'] + three_digits(millis)
        } else {
            t
        },
        None => "時間格式錯誤"@,
    }
}

/// A draw time in Beijing time, as shown.
pub open spec fn beijing_time(timestamp: u64) -> Seq<char> {
    shown_time(
        offset_clock_text(seconds_of(timestamp) as i64, BEIJING_OFFSET_SECS),
        millis_of(timestamp),
    )
}

/// The shown time from a clock text (if any) and a number of milliseconds
/// below 1000.
pub fn time_with_millis(clock: Option<String>, millis: u64) -> (r: String)
    requires
        millis < 1000,
    ensures
        r@ == shown_time(optional_text(clock), millis as nat),
{
    match clock {
        Some(t) => {
            let mut s = t;
            if millis > 0 {
                push_char(&mut s, '.');
                push_char(&mut s, digit_of(millis / 100));
                push_char(&mut s, digit_of((millis / 10) % 10));
                push_char(&mut s, digit_of(millis % 10));
                assert(s@ =~= t@ + seq!['.'] + three_digits(millis as nat));
            }
            s
        },
        None => String::from_str("時間格式錯誤"),
    }
}

} // verus!
