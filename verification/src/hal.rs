//! What the driver asks of its surroundings: pins, a clock and a serial link.
//!
//! These are the traits that a board implements. They promise nothing that the driver could
//! build on: what the driver takes the hardware to have done is written down in
//! [`crate::model`].

use vstd::prelude::*;

verus! {

/// A point in time, in microseconds since an origin that the clock chooses.
pub type Instant = u64;

/// A span of time, in microseconds.
pub type Duration = u64;

/// The instant that lies `duration` after `start`, or the last instant there is.
pub open spec fn spec_after(start: Instant, duration: Duration) -> Instant {
    if start + duration <= u64::MAX {
        (start + duration) as u64
    } else {
        u64::MAX
    }
}

/// The instant that lies `duration` after `start`. Time does not wrap: past the last instant
/// that the clock can show, the result is that last instant.
#[verifier::when_used_as_spec(spec_after)]
pub fn after(start: Instant, duration: Duration) -> (end: Instant)
    ensures
        end == spec_after(start, duration),
{
    start.saturating_add(duration)
}

/// The later of two instants.
pub open spec fn later(a: Instant, b: Instant) -> Instant {
    if a < b {
        b
    } else {
        a
    }
}

/// What gives a pin its error type.
pub trait ErrorType {
    /// What an operation on the pin reports when it fails.
    type Error;
}

/// Generic output pin
pub trait OutPin: ErrorType {
    /// Drives the pin low.
    fn set_low(&mut self) -> Result<(), Self::Error>;

    /// Drives the pin high.
    fn set_high(&mut self) -> Result<(), Self::Error>;

    /// Makes the pin an output.
    fn set_as_output(&mut self) -> Result<(), Self::Error>;
}

/// Generic input pin
pub trait InPin: ErrorType {
    /// Reads the pin: `true` where its wire is high.
    fn is_high(&mut self) -> Result<bool, Self::Error>;

    /// Makes the pin an input: it stops driving its wire.
    fn set_as_input(&mut self) -> Result<(), Self::Error>;
}

/// Generic input/output pin
pub trait IoPin: InPin + OutPin {

}

impl<T: InPin + OutPin> IoPin for T {

}

/// A source of time that can also wait.
pub trait Clock {
    /// The present instant.
    fn now(&mut self) -> Instant;

    /// Returns once the instant `end` has come.
    fn wait_until(&mut self, end: Instant);
}

/// A synchronous serial link that shifts bytes out to the display.
pub trait Link {
    /// What the link reports when it fails.
    type Error;

    /// Shifts `words` out, in order.
    fn write(&mut self, words: &[u8]) -> Result<(), Self::Error>;
}

} // verus!
