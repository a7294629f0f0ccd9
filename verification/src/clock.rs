use vstd::prelude::*;

verus! {

/// `std::time::SystemTime`, carried as an opaque value.
#[verifier::external_type_specification]
#[verifier::external_body]
pub struct ExSystemTime(std::time::SystemTime);

/// `SystemTime::now`: the system clock's current reading. Nothing is known of it.
pub assume_specification[ std::time::SystemTime::now ]() -> std::time::SystemTime;

/// `SystemTime::duration_since(UNIX_EPOCH)`: how long after 1970-01-01 00:00:00 UTC
/// the time `t` is, as whole seconds and the nanoseconds beyond them, or `None` for
/// a time before it. A `Duration` keeps its nanoseconds below one second.
#[verifier::external_body]
fn since_epoch(t: &std::time::SystemTime) -> (r: Option<(u64, u32)>)
    ensures
        r matches Some(d) ==> d.1 < 1_000_000_000,
{
    match t.duration_since(std::time::UNIX_EPOCH) {
        Ok(d) => Some((d.as_secs(), d.subsec_nanos())),
        Err(_) => None,
    }
}

/// The largest number of seconds after 1970 for which the calendar functions
/// below are sure to give a date: it lies near the year 192 000, well within
/// what chrono represents.
pub const MAX_CALENDAR_SECS: i64 = 6_000_000_000_000;

/// The RFC 3339 text that chrono writes for the UTC time `secs` seconds and
/// `nanos` nanoseconds after 1970, or `None` where chrono has no such time.
pub uninterp spec fn rfc3339_text(secs: i64, nanos: u32) -> Option<Seq<char>>;

/// The `%Y-%m-%d` text that chrono writes for the UTC date `secs` seconds after
/// 1970, or `None` where chrono has no such time.
pub uninterp spec fn utc_date_text(secs: i64) -> Option<Seq<char>>;

/// `DateTime::<Utc>::from_timestamp(secs, nanos)`, then `to_rfc3339` on the time it
/// gives. `from_timestamp` gives a time whenever the day fits chrono's calendar
/// and `nanos` is below one second, which holds from 1970 to `MAX_CALENDAR_SECS`;
/// the text itself is named, not stated.
#[verifier::external_body]
pub(crate) fn rfc3339_of(secs: i64, nanos: u32) -> (r: Option<String>)
    ensures
        match r {
            Some(s) => rfc3339_text(secs, nanos) == Some(s@),
            None => rfc3339_text(secs, nanos) is None,
        },
        0 <= secs <= MAX_CALENDAR_SECS && nanos < 1_000_000_000 ==> r is Some,
{
    match chrono::DateTime::<chrono::Utc>::from_timestamp(secs, nanos) {
        Some(t) => Some(t.to_rfc3339()),
        None => None,
    }
}

/// `DateTime::<Utc>::from_timestamp(secs, 0)`, then `format("%Y-%m-%d")` written
/// out as text. `from_timestamp` gives a time from 1970 to `MAX_CALENDAR_SECS`; the
/// text itself is named, not stated.
#[verifier::external_body]
fn utc_date_of(secs: i64) -> (r: Option<String>)
    ensures
        match r {
            Some(s) => utc_date_text(secs) == Some(s@),
            None => utc_date_text(secs) is None,
        },
        0 <= secs <= MAX_CALENDAR_SECS ==> r is Some,
{
    match chrono::DateTime::<chrono::Utc>::from_timestamp(secs, 0) {
        Some(t) => Some(t.format("%Y-%m-%d").to_string()),
        None => None,
    }
}

/// The current time as seconds and nanoseconds after 1970, from the system
/// clock; `None` when the clock stands before 1970 or too far on for an `i64`.
pub fn now_unix() -> (r: Option<(i64, u32)>)
    ensures
        r matches Some(t) ==> 0 <= t.0 && t.1 < 1_000_000_000,
{
    let t = std::time::SystemTime::now();
    match since_epoch(&t) {
        Some((secs, nanos)) => {
            if secs > i64::MAX as u64 {
                None
            } else {
                Some((secs as i64, nanos))
            }
        }
        None => None,
    }
}

/// The UTC date, as `YYYY-MM-DD`, of the time `secs` seconds after 1970.
pub fn date_at(secs: i64) -> (r: Option<String>)
    ensures
        match r {
            Some(s) => utc_date_text(secs) == Some(s@),
            None => utc_date_text(secs) is None,
        },
        0 <= secs <= MAX_CALENDAR_SECS ==> r is Some,
{
    utc_date_of(secs)
}

/// Today's UTC date as `YYYY-MM-DD`, by the system clock; `None` when the clock
/// gives no usable time.
pub fn today_utc() -> (r: Option<String>)
    ensures
        r matches Some(s) ==> exists|t: i64| 0 <= t && #[trigger] utc_date_text(t) == Some(s@),
{
    match now_unix() {
        Some((secs, _)) => date_at(secs),
        None => None,
    }
}

} // verus!
