//! What the crossing of bearings tells a driver: which way to drive, and how
//! long ago each finder last reported.
use vstd::prelude::*;
use crate::text::{chars_of, decimal, push_decimal, push_str, string_of};

verus! {

/// How the guidance asks to be followed: across the bearings, or straight
/// at the estimate.
#[derive(Clone, Copy, Debug, PartialEq, Eq, Structural)]
pub enum GuidanceMode {
    Cross,
    Approach,
}

/// The words for a guidance mode.
pub open spec fn guidance_of(mode: GuidanceMode) -> Seq<char> {
    match mode {
        GuidanceMode::Cross => "Drive across"@,
        GuidanceMode::Approach => "Drive at it"@,
    }
}

/// The words for a guidance mode.
pub fn guidance_text(mode: GuidanceMode) -> (text: &'static str)
    ensures
        text@ == guidance_of(mode),
{
    match mode {
        GuidanceMode::Cross => "Drive across",
        GuidanceMode::Approach => "Drive at it",
    }
}

/// The instant that `jiff` reads from a text as a `Timestamp`, in whole
/// milliseconds since the Unix epoch, or `None` where it reads none. What
/// the parser accepts takes pages to state, so it is named here.
pub uninterp spec fn timestamp_millis(text: Seq<char>) -> Option<i64>;

/// Reads `text` with `jiff`'s `Timestamp` parser (`str::parse::<Timestamp>`)
/// and takes `Timestamp::as_millisecond` of what it reads. The result is a
/// function of the text alone.
#[verifier::external_body]
fn parse_millis(text: &str) -> (ms: Option<i64>)
    ensures
        ms == timestamp_millis(text@),
{
    text.parse::<jiff::Timestamp>().ok().map(|at| at.as_millisecond())
}

/// How long ago a report seen at `seen` (milliseconds, if its time could be
/// read) was at `now`: to the nearest second, "just now" under five seconds
/// or when the time is unknown, in seconds under ninety, and otherwise in
/// minutes to the nearest minute, halves rounded up.
pub open spec fn age_text(seen: Option<i64>, now: i64) -> Seq<char> {
    match seen {
        None => "just now"@,
        Some(at) => {
            let ms = if now - at > 0 {
                now - at
            } else {
                0
            };
            let seconds = (ms + 500) / 1000;
            if seconds < 5 {
                "just now"@
            } else if seconds < 90 {
                decimal(seconds as nat) + "s ago"@
            } else {
                decimal(((seconds + 30) / 60) as nat) + "m ago"@
            }
        },
    }
}

/// How long ago a report seen at `seen` was at `now`, both in milliseconds
/// since the Unix epoch.
pub fn age_label(seen: Option<i64>, now: i64) -> (text: String)
    ensures
        text@ == age_text(seen, now),
{
    match seen {
        None => string_of(chars_of("just now").as_slice()),
        Some(at) => {
            let gap: i128 = now as i128 - at as i128;
            let ms: i128 = if gap > 0 {
                gap
            } else {
                0
            };
            let seconds: i128 = (ms + 500) / 1000;
            if seconds < 5 {
                return string_of(chars_of("just now").as_slice());
            }
            let mut out: Vec<char> = Vec::new();
            if seconds < 90 {
                push_decimal(&mut out, seconds as u64);
                push_str(&mut out, "s ago");
            } else {
                push_decimal(&mut out, ((seconds + 30) / 60) as u64);
                push_str(&mut out, "m ago");
            }
            string_of(out.as_slice())
        },
    }
}

/// How long ago a finder last reported, its time given as the text it sent
/// and `now` in milliseconds since the Unix epoch. A time that cannot be
/// read counts as just now.
pub fn station_age(last_seen: &str, now: i64) -> (text: String)
    ensures
        text@ == age_text(timestamp_millis(last_seen@), now),
{
    age_label(parse_millis(last_seen), now)
}

} // verus!
