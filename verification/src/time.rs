//! Timestamps as counts of UTC epoch seconds, their RFC 3339 text, and the
//! session-duration arithmetic built on them.

use vstd::prelude::*;
use crate::num::dec;
use crate::num::u64_chars;

verus! {

/// The largest epoch-second count the tracker formats: 9999-12-31T23:59:59Z.
pub const MAX_EPOCH_SECS: i64 = 253_402_300_799;

/// The RFC 3339 rendering of an in-range count of UTC epoch seconds, as
/// chrono produces it; determined by the count alone.
pub uninterp spec fn rfc3339_of(t: i64) -> Seq<char>;

/// What parsing a character sequence as an RFC 3339 timestamp yields (the
/// instant as epoch seconds), determined by the text alone.
pub uninterp spec fn rfc3339_secs(s: Seq<char>) -> Option<i64>;

/// Relies on chrono's `DateTime::from_timestamp` (which accepts every
/// in-range second count) and `DateTime::<Utc>::to_rfc3339` (whose text
/// depends on the instant alone).
#[verifier::external_body]
pub(crate) fn format_rfc3339(t: i64) -> (r: String)
    requires
        0 <= t <= MAX_EPOCH_SECS,
    ensures
        r@ == rfc3339_of(t),
{
    chrono::DateTime::<chrono::Utc>::from_timestamp(t, 0).unwrap().to_rfc3339()
}

/// Relies on chrono's `DateTime::parse_from_rfc3339` and
/// `DateTime::timestamp`: the outcome depends on the text alone, and text
/// that `to_rfc3339` produced for an instant parses back to that instant.
#[verifier::external_body]
pub(crate) fn parse_rfc3339(s: &str) -> (r: Option<i64>)
    ensures
        r == rfc3339_secs(s@),
        forall|t: i64| 0 <= t <= MAX_EPOCH_SECS && s@ == rfc3339_of(t) ==> r == Some(t),
{
    match chrono::DateTime::parse_from_rfc3339(s) {
        Ok(dt) => Some(dt.timestamp()),
        Err(_) => None,
    }
}

/// Relies on chrono's `Utc::now`: nothing is assumed of the clock reading.
#[verifier::external_body]
fn clock_epoch_secs() -> i64 {
    chrono::Utc::now().timestamp()
}

/// The current UTC time as epoch seconds, clamped into the range the
/// tracker's timestamp text can represent.
pub(crate) fn current_epoch_secs() -> (r: i64)
    ensures
        0 <= r <= MAX_EPOCH_SECS,
{
    let t = clock_epoch_secs();
    if t < 0 {
        0
    } else if t > MAX_EPOCH_SECS {
        MAX_EPOCH_SECS
    } else {
        t
    }
}

/// The length of a session in whole seconds: never negative (the clock is
/// not assumed monotonic), and capped at what an `i64` holds.
pub open spec fn elapsed_spec(started: int, now: int) -> int {
    if now <= started {
        0
    } else if now - started > i64::MAX {
        i64::MAX as int
    } else {
        now - started
    }
}

pub fn elapsed_secs(started: i64, now: i64) -> (r: i64)
    ensures
        r == elapsed_spec(started as int, now as int),
{
    if now <= started {
        0
    } else {
        match now.checked_sub(started) {
            Some(d) => d,
            None => i64::MAX,
        }
    }
}

/// The display breakdown of a nonnegative second count: hours, then minutes
/// and seconds below sixty, as in `0h 1m 30s`.
pub open spec fn hms_text(secs: int) -> Seq<char>
    recommends
        secs >= 0,
{
    dec((secs / 3600) as nat) + "h "@ + dec(((secs / 60) % 60) as nat) + "m "@ + dec(
        (secs % 60) as nat,
    ) + "s"@
}

pub fn format_hms(secs: i64) -> (r: Vec<char>)
    requires
        secs >= 0,
    ensures
        r@ == hms_text(secs as int),
{
    let mut out = u64_chars((secs / 3600) as u64);
    let mut part = crate::strings::str_chars("h ");
    out.append(&mut part);
    let mut mid = u64_chars(((secs / 60) % 60) as u64);
    out.append(&mut mid);
    let mut part2 = crate::strings::str_chars("m ");
    out.append(&mut part2);
    let mut low = u64_chars((secs % 60) as u64);
    out.append(&mut low);
    let mut part3 = crate::strings::str_chars("s");
    out.append(&mut part3);
    proof {
        assert(out@ =~= hms_text(secs as int));
    }
    out
}

} // verus!
