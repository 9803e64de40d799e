//! The time of day, from the system's clock.

use std::time::{Duration, SystemTime, SystemTimeError};

use vstd::prelude::*;

use crate::text;
use crate::text::push_decimal;

verus! {

#[verifier::external_type_specification]
#[verifier::external_body]
pub struct ExSystemTime(std::time::SystemTime);

#[verifier::external_type_specification]
#[verifier::external_body]
pub struct ExSystemTimeError(std::time::SystemTimeError);

/// How long after the Unix epoch a time is; none where it is before.
pub uninterp spec fn elapsed_since_epoch(time: SystemTime) -> Option<Duration>;

/// The whole seconds of a duration.
pub uninterp spec fn whole_seconds(duration: Duration) -> u64;

/// `SystemTime::now`: the time that the system's clock shows. Nothing is stated of it.
#[verifier::external_body]
fn now() -> SystemTime {
    SystemTime::now()
}

/// `SystemTime::duration_since` the Unix epoch: how long ago that was, or an error
/// where the time is before it.
#[verifier::external_body]
fn since_epoch(time: SystemTime) -> (r: Result<Duration, SystemTimeError>)
    ensures
        match r {
            Ok(duration) => elapsed_since_epoch(time) == Some(duration),
            Err(_) => elapsed_since_epoch(time) is None,
        },
{
    time.duration_since(SystemTime::UNIX_EPOCH)
}

/// `Duration::as_secs`: the whole seconds of a duration.
#[verifier::external_body]
fn as_seconds(duration: Duration) -> (r: u64)
    ensures
        r == whole_seconds(duration),
{
    duration.as_secs()
}

/// The seconds since the Unix epoch; none before it.
pub open spec fn seconds_at(time: SystemTime) -> u64 {
    match elapsed_since_epoch(time) {
        Some(duration) => whole_seconds(duration),
        None => 0,
    }
}

/// The text of a time, given in seconds since the Unix epoch.
pub open spec fn timestamp(seconds: u64) -> Seq<char> {
    "UTC "@ + text::decimal(seconds as nat)
}

/// The text of a time, given in seconds since the Unix epoch.
pub fn timestamp_text(seconds: u64) -> (r: String)
    ensures
        r@ == timestamp(seconds),
{
    let mut out = "UTC ".to_owned();
    push_decimal(&mut out, seconds);
    out
}

/// The text of a time.
pub fn timestamp_of(time: SystemTime) -> (r: String)
    ensures
        r@ == timestamp(seconds_at(time)),
{
    let seconds: u64 = match since_epoch(time) {
        Ok(duration) => as_seconds(duration),
        Err(_) => 0,
    };
    timestamp_text(seconds)
}

/// The text of the present time. Which time that is rests on the system's clock.
pub fn chrono_lite_timestamp() -> (r: String)
    ensures
        exists|time: SystemTime| r@ == timestamp(#[trigger] seconds_at(time)),
{
    timestamp_of(now())
}

/// The text of a time tells its seconds, and different seconds have different texts.
pub proof fn a_timestamp_tells_its_seconds(a: u64, b: u64)
    ensures
        text::occurs(timestamp(a), text::decimal(a as nat)),
        timestamp(a) == timestamp(b) ==> a == b,
{
    text::a_sum_holds_its_parts();
    text::decimals_stand_for_their_number(a as nat);
    text::decimals_stand_for_their_number(b as nat);
    let start = "UTC "@.len() as int;
    assert(timestamp(a).skip(start) =~= text::decimal(a as nat));
    assert(timestamp(b).skip(start) =~= text::decimal(b as nat));
}

}
