//! Readings of the clocks, and what the router does with them.
use crate::text;
use std::time::{Duration, Instant, SystemTime, SystemTimeError};
use vstd::prelude::*;

verus! {

#[verifier::external_type_specification]
#[verifier::external_body]
pub struct ExInstant(std::time::Instant);

#[verifier::external_type_specification]
#[verifier::external_body]
pub struct ExSystemTimeError(std::time::SystemTimeError);

/// Where an instant lies on the monotonic clock, in nanoseconds.
pub uninterp spec fn instant_nanos(at: Instant) -> int;

/// `Instant::now`: the monotonic clock. Nothing is said of the reading.
#[verifier::external_body]
pub(crate) fn instant_now() -> Instant {
    Instant::now()
}

/// `Instant::gt`: whether one instant lies after another.
#[verifier::external_body]
pub(crate) fn instant_after(at: Instant, other: Instant) -> (after: bool)
    ensures
        after == (instant_nanos(at) > instant_nanos(other)),
{
    at > other
}

/// How long a duration is, in nanoseconds.
pub uninterp spec fn duration_nanos(duration: Duration) -> int;

/// `Instant::saturating_duration_since`: the time from one instant to another,
/// zero where the first lies after the second.
#[verifier::external_body]
fn instant_since(at: Instant, since: Instant) -> (duration: Duration)
    ensures
        duration_nanos(duration) == if instant_nanos(at) > instant_nanos(since) {
            instant_nanos(at) - instant_nanos(since)
        } else {
            0
        },
{
    at.saturating_duration_since(since)
}

/// `Duration::as_secs`: the whole seconds of a duration.
#[verifier::external_body]
fn duration_secs(duration: Duration) -> (secs: u64)
    ensures
        secs == duration_nanos(duration) / 1_000_000_000,
{
    duration.as_secs()
}

/// `Duration::as_millis`: the whole milliseconds of a duration.
#[verifier::external_body]
fn duration_millis(duration: Duration) -> (millis: u128)
    ensures
        millis == duration_nanos(duration) / 1_000_000,
{
    duration.as_millis()
}

/// Whole seconds from `since` to `at`.
pub open spec fn secs_between(since: Instant, at: Instant) -> int {
    if instant_nanos(at) > instant_nanos(since) {
        (instant_nanos(at) - instant_nanos(since)) / 1_000_000_000
    } else {
        0
    }
}

/// The whole seconds from one instant to another, zero where the first lies
/// after the second.
pub fn instant_secs_since(at: Instant, since: Instant) -> (secs: u64)
    ensures
        secs == secs_between(since, at),
{
    duration_secs(instant_since(at, since))
}

/// `SystemTime::elapsed` on the Unix epoch: the wall clock. Nothing is said of
/// the reading.
#[verifier::external_body]
fn unix_elapsed() -> Result<Duration, SystemTimeError> {
    SystemTime::UNIX_EPOCH.elapsed()
}

/// How an error of the wall clock reads.
pub uninterp spec fn clock_error_debug(error: SystemTimeError) -> Seq<char>;

/// `SystemTimeError::fmt`, as `Debug` has it: the error as text, which depends
/// on the error alone.
#[verifier::external_body]
fn clock_error_text(error: SystemTimeError) -> (text: String)
    ensures
        text@ == clock_error_debug(error),
{
    format!("{error:?}")
}

/// The text that stands for a reading of the wall clock: the milliseconds since
/// the Unix epoch, or what went wrong.
pub open spec fn spec_time_text(reading: Result<u128, String>) -> Seq<char> {
    match reading {
        Ok(millis) => text::digits(millis as nat),
        Err(error) => "Time error = "@ + error@,
    }
}

pub fn time_text(reading: Result<u128, String>) -> (time: String)
    ensures
        time@ == spec_time_text(reading),
{
    match reading {
        Ok(millis) => text::decimal(millis),
        Err(error) => text::join("Time error = ", error.as_str()),
    }
}

/// The text that stands for what the wall clock said.
pub open spec fn spec_wall_time(elapsed: Result<Duration, SystemTimeError>) -> Seq<char> {
    match elapsed {
        Ok(elapsed) => text::digits((duration_nanos(elapsed) / 1_000_000) as nat),
        Err(error) => "Time error = "@ + clock_error_debug(error),
    }
}

/// What stands for what the wall clock said.
pub fn wall_time(elapsed: Result<Duration, SystemTimeError>) -> (time: String)
    ensures
        time@ == spec_wall_time(elapsed),
{
    match elapsed {
        Ok(elapsed) => time_text(Ok(duration_millis(elapsed))),
        Err(error) => time_text(Err(clock_error_text(error))),
    }
}

/// A reading of both clocks: the monotonic one, and the wall clock as text.
pub struct Moment {
    pub now: Instant,
    pub time: String,
}

impl Moment {
    /// Whether the text is what stands for something the wall clock can say.
    pub open spec fn is_reading(self) -> bool {
        exists|elapsed: Result<Duration, SystemTimeError>|
            self.time@ == #[trigger] spec_wall_time(elapsed)
    }

    /// Reads the clocks. What they show is not known in advance.
    pub fn now() -> (moment: Moment)
        ensures
            moment.is_reading(),
    {
        let now = instant_now();
        let time = wall_time(unix_elapsed());
        Moment { now, time }
    }
}

/// What stands for a reading of the wall clock are the digits of the whole
/// milliseconds; where it could not be read it says so, and why.
pub proof fn law_wall_time_is_in_milliseconds(
    elapsed: Result<Duration, SystemTimeError>,
    reading: Result<u128, String>,
)
    ensures
        elapsed matches Ok(elapsed) ==> {
            let millis = text::read_digits(spec_wall_time(Ok(elapsed)));
            duration_nanos(elapsed) >= 0 ==> millis * 1_000_000 <= duration_nanos(elapsed) < (
            millis + 1) * 1_000_000
        },
        elapsed matches Err(error) ==> "Time error = "@.is_prefix_of(spec_wall_time(Err(error)))
            && spec_wall_time(Err(error)).skip("Time error = "@.len() as int)
            == clock_error_debug(error),
        reading matches Ok(millis) ==> text::read_digits(spec_time_text(Ok(millis))) == millis,
        reading matches Err(error) ==> "Time error = "@.is_prefix_of(
            spec_time_text(Err(error)),
        ) && spec_time_text(Err(error)).skip("Time error = "@.len() as int) == error@,
{
    if let Ok(elapsed) = elapsed {
        if duration_nanos(elapsed) >= 0 {
            text::law_digits_stand_for_the_number((duration_nanos(elapsed) / 1_000_000) as nat);
        }
    }
    if let Err(error) = elapsed {
        let said = spec_wall_time(Err(error));
        let n = "Time error = "@.len() as int;
        assert(said.take(n) =~= "Time error = "@);
        assert(said.skip(n) =~= clock_error_debug(error));
    }
    if let Ok(millis) = reading {
        text::law_digits_stand_for_the_number(millis as nat);
    }
    if let Err(error) = reading {
        let said = spec_time_text(Err(error));
        let n = "Time error = "@.len() as int;
        assert(said.take(n) =~= "Time error = "@);
        assert(said.skip(n) =~= error@);
    }
}

} // verus!
