//! What the library takes from the machine it runs on: the time and chance.

use std::collections::hash_map::{DefaultHasher, RandomState};
use std::hash::{BuildHasher, Hasher};
use std::time::{Duration, SystemTime, SystemTimeError};

use vstd::prelude::*;

use crate::calendar;

verus! {

/// A reading of the system's clock.
#[verifier::external_type_specification]
#[verifier::external_body]
pub struct ExSystemTime(SystemTime);

/// Says that one reading of the clock lies before another.
#[verifier::external_type_specification]
#[verifier::external_body]
pub struct ExSystemTimeError(SystemTimeError);

/// `SystemTime::now` reads the system's clock. Nothing is claimed of what it
/// shows.
pub assume_specification[ SystemTime::now ]() -> SystemTime;

/// `SystemTime::duration_since` gives the time from one reading to another, or
/// an error when they lie in the other order. Nothing is claimed of which.
pub assume_specification[ SystemTime::duration_since ](
    later: &SystemTime,
    earlier: SystemTime,
) -> Result<Duration, SystemTimeError>;

/// `Duration::as_nanos` gives a time in nanoseconds. Nothing is claimed of their
/// number.
pub assume_specification[ Duration::as_nanos ](elapsed: &Duration) -> u128;

/// `std::time::UNIX_EPOCH`, the start of 1970.
#[verifier::external_body]
fn unix_epoch() -> (epoch: SystemTime) {
    std::time::UNIX_EPOCH
}

/// The time in nanoseconds since 1970; zero when the clock stands before 1970.
pub(crate) fn now_nanos() -> (nanos: u128) {
    match SystemTime::now().duration_since(unix_epoch()) {
        Ok(elapsed) => elapsed.as_nanos(),
        Err(_) => 0,
    }
}

/// The time in whole seconds since 1970: the seconds of whatever the clock
/// shows.
pub(crate) fn now_secs() -> (secs: u64)
    ensures
        exists|nanos: u128| secs == #[trigger] calendar::seconds_in(nanos as nat),
{
    calendar::whole_seconds(now_nanos())
}

/// `RandomState::new` gives a state that is seeded at random. Nothing is claimed
/// of its seed.
pub assume_specification[ RandomState::new ]() -> RandomState;

/// `RandomState::build_hasher` gives a hasher with the seed of the state. Nothing
/// is claimed of what it hashes to.
#[verifier::external_body]
fn hasher_of(state: &RandomState) -> (hasher: DefaultHasher) {
    state.build_hasher()
}

/// A random number: what a hasher with a random seed makes of nothing.
pub(crate) fn rand_u64() -> (value: u64) {
    hasher_of(&RandomState::new()).finish()
}

} // verus!
