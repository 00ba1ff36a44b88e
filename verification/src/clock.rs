use std::time::{Duration, SystemTime, SystemTimeError};
use vstd::prelude::*;

verus! {

/// `std::time::SystemTime`: an instant of the wall clock. Nothing is assumed of its contents.
#[verifier::external_type_specification]
#[verifier::external_body]
pub struct ExSystemTime(SystemTime);

/// `std::time::SystemTimeError`: what `SystemTime::duration_since` reports when the
/// second instant is the later one. Nothing is assumed of its contents.
#[verifier::external_type_specification]
#[verifier::external_body]
pub struct ExSystemTimeError(SystemTimeError);

/// `SystemTime::now`: reads the wall clock. The instant depends on the machine and the
/// moment of the call, so nothing is promised of it.
pub assume_specification[ SystemTime::now ]() -> SystemTime;

/// `SystemTime::duration_since`, applied to `UNIX_EPOCH`: the time from the epoch to `now`,
/// or an error when `now` lies before the epoch. Which of the two comes back depends on the
/// machine's clock, so nothing is promised of it.
#[verifier::external_body]
fn since_epoch(now: SystemTime) -> Result<Duration, SystemTimeError> {
    now.duration_since(SystemTime::UNIX_EPOCH)
}

/// `Duration::as_nanos`: the length of `span` in whole nanoseconds. A `Duration` is opaque
/// here, so nothing is promised of the number.
pub assume_specification[ Duration::as_nanos ](span: &Duration) -> u128;

/// The timestamp that stands for a reading of the clock: the nanoseconds since the epoch,
/// kept to 64 bits, or 0 when the clock stands before the epoch.
pub open spec fn timestamp_of(nanos: Option<u128>) -> int {
    match nanos {
        Some(n) => n as int % 0x1_0000_0000_0000_0000,
        None => 0,
    }
}

/// Turns a reading of the clock into a 64-bit timestamp.
pub fn timestamp(nanos: Option<u128>) -> (ns: u64)
    ensures
        ns == timestamp_of(nanos),
{
    match nanos {
        Some(n) => (n % 0x1_0000_0000_0000_0000u128) as u64,
        None => 0,
    }
}

/// `nanos` is what one reading of the clock came to: the nanoseconds since the epoch, or
/// `None` where the clock stood before it.
pub closed spec fn clock_reads(nanos: Option<u128>) -> bool {
    exists|now: SystemTime, read: Result<Duration, SystemTimeError>|
        {
            &&& #[trigger] call_ensures(since_epoch, (now,), read)
            &&& call_ensures(SystemTime::now, (), now)
            &&& match read {
                Ok(span) => nanos is Some && call_ensures(Duration::as_nanos, (&span,), nanos->0),
                Err(_) => nanos is None,
            }
        }
}

/// Nanoseconds since the Unix epoch, as the wall clock has it now: the timestamp of the
/// reading that this call makes. Which instant that is depends on the clock alone.
pub fn now_ns() -> (ns: u64)
    ensures
        exists|nanos: Option<u128>| #[trigger] clock_reads(nanos) && ns == timestamp_of(nanos),
{
    let now = SystemTime::now();
    let ghost instant = now;
    let read = since_epoch(now);
    let ghost outcome = read;
    let nanos = match read {
        Ok(span) => Some(span.as_nanos()),
        Err(_) => None,
    };
    assert(call_ensures(since_epoch, (instant,), outcome));
    assert(clock_reads(nanos));
    timestamp(nanos)
}

/// Up to 2^64 nanoseconds since the epoch, some 584 years, a timestamp is that number; from
/// there on it starts again at 0. Before the epoch it is 0.
pub proof fn law_timestamp_counts_nanoseconds(nanos: u128, ns: u64)
    ensures
        call_ensures(timestamp, (Some(nanos),), ns) ==> {
            &&& nanos < 0x1_0000_0000_0000_0000 ==> ns == nanos
            &&& nanos >= 0x1_0000_0000_0000_0000 ==> exists|laps: int|
                laps >= 1 && nanos == ns + #[trigger] (laps * 0x1_0000_0000_0000_0000)
        },
        call_ensures(timestamp, (None,), ns) ==> ns == 0,
{
    let laps = nanos as int / 0x1_0000_0000_0000_0000;
    if call_ensures(timestamp, (Some(nanos),), ns) {
        assert(nanos == ns + laps * 0x1_0000_0000_0000_0000);
    }
}

/// The time now comes from the clock: from an instant that the clock gave, the span from the
/// epoch to it, and that span in nanoseconds.
proof fn law_time_comes_from_the_clock(ns: u64)
    requires
        call_ensures(now_ns, (), ns),
    ensures
        exists|now: SystemTime, read: Result<Duration, SystemTimeError>|
            {
                &&& call_ensures(SystemTime::now, (), now)
                &&& #[trigger] call_ensures(since_epoch, (now,), read)
                &&& match read {
                    Ok(span) => exists|n: u128|
                        #[trigger] call_ensures(Duration::as_nanos, (&span,), n) && ns == n as int
                            % 0x1_0000_0000_0000_0000,
                    Err(_) => ns == 0,
                }
            },
{
    let nanos = choose|nanos: Option<u128>| #[trigger]
        clock_reads(nanos) && ns == timestamp_of(nanos);
    let (now, read) = choose|now: SystemTime, read: Result<Duration, SystemTimeError>|
        {
            &&& #[trigger] call_ensures(since_epoch, (now,), read)
            &&& call_ensures(SystemTime::now, (), now)
            &&& match read {
                Ok(span) => nanos is Some && call_ensures(Duration::as_nanos, (&span,), nanos->0),
                Err(_) => nanos is None,
            }
        };
    assert(call_ensures(since_epoch, (now,), read));
}

} // verus!
