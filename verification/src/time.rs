//! Timestamps: the periods that metrics are collected over, and how they are written.
use vstd::prelude::*;

verus! {

/// Seconds since the Unix epoch.
pub type Timestamp = u64;

/// The last second of the year 262142, the last one that has a date.
pub const LAST_TIMESTAMP: Timestamp = 8_210_266_876_799;

/// How long a period metrics are collected over.
#[derive(Clone, Copy, Debug, PartialEq, Eq)]
pub enum Resolution {
    Second,
    Minute,
}

/// The seconds in a period.
pub open spec fn period(resolution: Resolution) -> nat {
    match resolution {
        Resolution::Second => 1,
        Resolution::Minute => 60,
    }
}

/// The first second of the period that a timestamp falls into.
pub open spec fn period_start(timestamp: Timestamp, resolution: Resolution) -> int {
    timestamp - timestamp as int % period(resolution) as int
}

impl Resolution {
    /// The seconds in a period.
    pub fn as_secs(self) -> (seconds: i64)
        ensures
            seconds == period(self),
    {
        match self {
            Self::Second => 1,
            Self::Minute => 60,
        }
    }
}

/// The first second of the period that a timestamp falls into.
pub fn time_key(timestamp: Timestamp, resolution: Resolution) -> (key: Timestamp)
    ensures
        key == period_start(timestamp, resolution),
{
    match resolution {
        Resolution::Second => timestamp,
        Resolution::Minute => timestamp - (timestamp % 60),
    }
}

/// The time that a regular send at `now` takes as its limit: only what was collected before it is
/// sent.
pub fn send_limit(now: Timestamp, resolution: Resolution) -> (limit: Timestamp)
    requires
        period_start(now, resolution) >= 1,
    ensures
        limit == period_start(now, resolution) - 1,
{
    time_key(now, resolution) - 1
}

/// What the system's clock has been seen to show, reading after reading. Nothing of it is kept when
/// the program runs: it serves to say which reading a result goes back to.
pub struct Clock {
    log: Ghost<Seq<Option<Timestamp>>>,
}

impl Clock {
    /// What the clock showed, each time that it was read: the seconds since the Unix epoch, or nothing
    /// if it stood before the epoch.
    pub closed spec fn readings(self) -> Seq<Option<Timestamp>> {
        self.log@
    }

    /// A clock that has not been read.
    pub fn new() -> (clock: Clock)
        ensures
            clock.readings() == Seq::<Option<Timestamp>>::empty(),
    {
        Clock { log: Ghost(Seq::empty()) }
    }
}

/// The system's clock, as `std::time::SystemTime::elapsed` reads it from the Unix epoch: the whole
/// seconds that have passed, or nothing if the clock stands before the epoch. What the clock shows
/// is up to the machine, so nothing is claimed of it but that it is the next of the readings.
#[verifier::external_body]
#[allow(unused_variables)]
pub(crate) fn current_timestamp(clock: &mut Clock) -> (now: Option<Timestamp>)
    ensures
        final(clock).readings() == old(clock).readings().push(now),
{
    match std::time::UNIX_EPOCH.elapsed() {
        Ok(elapsed) => Some(elapsed.as_secs()),
        Err(_) => None,
    }
}

/// A timestamp, written by `chrono` as an RFC 3339 date and time in UTC with milliseconds and a
/// trailing `Z`.
pub uninterp spec fn rfc3339_millis(timestamp: Timestamp) -> Seq<char>;

/// Writes a timestamp as `chrono::DateTime::to_rfc3339_opts` does for a date and time in UTC, with
/// `SecondsFormat::Millis` and `use_z`. The claim is that the text depends on the timestamp alone,
/// under the name [`rfc3339_millis`]. `chrono::DateTime::from_timestamp`, which gives the date and
/// time, has one for every second up to the end of the year 262142 and for none after it.
#[verifier::external_body]
pub(crate) fn timestamp_string(timestamp: Timestamp) -> (text: String)
    requires
        timestamp <= LAST_TIMESTAMP,
    ensures
        text@ == rfc3339_millis(timestamp),
{
    let moment = chrono::DateTime::from_timestamp(timestamp as i64, 0).unwrap();
    moment.to_rfc3339_opts(chrono::SecondsFormat::Millis, true)
}

/// A timestamp falls into the period that its time key starts: not before it, and less than a
/// period after it.
pub proof fn law_time_key_starts_the_period(timestamp: Timestamp, resolution: Resolution)
    ensures
        period_start(timestamp, resolution) % period(resolution) as int == 0,
        period_start(timestamp, resolution) <= timestamp,
        timestamp < period_start(timestamp, resolution) + period(resolution),
{
}

/// A period is a second or a minute, and minutes start where they do on the clock: a timestamp is its
/// own second, and its minute starts at the last multiple of sixty seconds.
pub proof fn law_periods_are_seconds_and_minutes(timestamp: Timestamp, resolution: Resolution)
    ensures
        resolution is Second ==> period(resolution) == 1 && period_start(timestamp, resolution) == timestamp,
        resolution is Minute ==> {
            &&& period(resolution) == 60
            &&& period_start(timestamp, resolution) % 60 == 0
            &&& 0 <= period_start(timestamp, resolution) <= timestamp < period_start(timestamp, resolution) + 60
        },
{
}

/// A time key is its own time key, and a later timestamp has no earlier one.
pub proof fn law_time_key_is_stable(earlier: Timestamp, later: Timestamp, resolution: Resolution)
    requires
        earlier <= later,
    ensures
        period_start(period_start(earlier, resolution) as Timestamp, resolution) == period_start(
            earlier,
            resolution,
        ),
        period_start(earlier, resolution) <= period_start(later, resolution),
{
}

/// A regular send takes nothing of the period it happens in, nor of a later one.
pub proof fn law_send_limit_spares_the_current_period(now: Timestamp, timestamp: Timestamp, resolution: Resolution)
    requires
        period_start(now, resolution) >= 1,
        now <= timestamp,
    ensures
        period_start(timestamp, resolution) >= period_start(now, resolution) - 1,
{
    law_time_key_is_stable(now, timestamp, resolution);
}

/// A regular send takes every earlier period of a minute, and every earlier period of a second but
/// the last.
pub proof fn law_send_limit_takes_past_periods(now: Timestamp, timestamp: Timestamp, resolution: Resolution)
    requires
        period_start(now, resolution) >= 1,
        period_start(timestamp, resolution) < period_start(now, resolution),
    ensures
        resolution is Minute ==> period_start(timestamp, resolution) < period_start(now, resolution) - 1,
        resolution is Second ==> (period_start(timestamp, resolution) < period_start(now, resolution) - 1 <==> timestamp
            + 1 < now),
{
}

} // verus!
