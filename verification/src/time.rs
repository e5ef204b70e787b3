use vstd::prelude::*;

verus! {

/// An instant, in microseconds since the Unix epoch (UTC).
pub type Timestamp = i64;

/// The length of one hour, as a difference of two [`Timestamp`]s.
pub const MICROS_PER_HOUR: i64 = 3_600_000_000;

/// The earliest representable instant in the clock hour that holds `t`.
///
/// This is the start of that hour for every instant but those of the one hour that is cut
/// off by the lower end of the range, which share the lowest instant.
pub open spec fn hour_start(t: Timestamp) -> Timestamp {
    let start = t as int - (t as int) % (MICROS_PER_HOUR as int);
    if start < i64::MIN {
        i64::MIN
    } else {
        start as i64
    }
}

/// Truncates an instant to its hour.
pub fn hour_floor(t: Timestamp) -> (h: Timestamp)
    ensures
        h == hour_start(t),
        h <= t < h + MICROS_PER_HOUR,
{
    let r = t % MICROS_PER_HOUR;
    let into_hour = if r < 0 {
        r + MICROS_PER_HOUR
    } else {
        r
    };
    assert(into_hour == (t as int) % (MICROS_PER_HOUR as int));
    if t < i64::MIN + into_hour {
        i64::MIN
    } else {
        t - into_hour
    }
}

/// Whether a heartbeat is older than `now - timeout`. The difference is taken over the
/// integers, so no pair of instants wraps.
pub open spec fn lapsed(heartbeat: Timestamp, now: Timestamp, timeout: i64) -> bool {
    heartbeat < now - timeout
}

/// Decides [`lapsed`].
pub fn has_lapsed(heartbeat: Timestamp, now: Timestamp, timeout: i64) -> (b: bool)
    ensures
        b == lapsed(heartbeat, now, timeout),
{
    (heartbeat as i128) < (now as i128) - (timeout as i128)
}

/// Reads the system clock through `chrono::Utc::now` and converts the instant with
/// `DateTime::timestamp_micros`. Nothing is claimed of the instant that comes back.
///
/// `Utc::now` panics where the system clock stands before the Unix epoch.
#[verifier::external_body]
pub(crate) fn utc_now() -> Timestamp {
    chrono::Utc::now().timestamp_micros()
}

} // verus!
