//! The devices as the driver takes them to be.
//!
//! A pin, a clock or a link of a board promises nothing. The driver's contracts are stated
//! over a model of each: a pin has an output latch, a direction, the list of the levels that
//! it was driven to and the list of the levels read from it; a clock has the latest instant
//! that it is known to have reached and the list of the instants that it was made to wait
//! for; a link has the bytes that went out; and a pin and a link have the list of the errors
//! that they have reported. The traits of this module are the devices with their models.
//! [`TracedPin`], [`TracedClock`] and [`TracedLink`] make one of any device of a board: the
//! model is then the record of what the device was asked and of what it answered, which is
//! as much as can be known of a device from this side of it.

use crate::hal;
use crate::hal::{after, spec_after, Duration, Instant};
use vstd::prelude::*;

verus! {

/// A source of time that can also wait.
pub trait Clock {
    /// The latest instant that the clock is known to have reached. It never goes back.
    spec fn time(&self) -> Instant;

    /// The instants that the clock was made to wait for, oldest first.
    spec fn waits(&self) -> Seq<Instant>;

    /// Reads the clock.
    fn now(&mut self) -> (t: Instant)
        ensures
            t == final(self).time(),
            old(self).time() <= t,
            final(self).waits() == old(self).waits(),
    ;

    /// Returns once the clock has reached `end`.
    fn wait_until(&mut self, end: Instant)
        ensures
            end <= final(self).time(),
            old(self).time() <= final(self).time(),
            final(self).waits() == old(self).waits().push(end),
    ;
}

/// Reads `clock`.
pub fn now<C: Clock>(clock: &mut C) -> (t: Instant)
    ensures
        t == final(clock).time(),
        old(clock).time() <= t,
        final(clock).waits() == old(clock).waits(),
{
    clock.now()
}

/// Whether a clock that was `before` is `after` once it has been waited on for `end`: it has
/// reached `end`, and it was made to wait at most once, for `end`, and not at all where it
/// was known to have reached `end` already.
pub open spec fn slept_until<C: Clock>(before: C, after: C, end: Instant) -> bool {
    &&& end <= after.time()
    &&& before.time() <= after.time()
    &&& end <= before.time() ==> after.waits() == before.waits()
    &&& after.waits() == before.waits() || after.waits() == before.waits().push(end)
}

/// Returns once `clock` has reached `end`. The clock is made to wait only where a reading of
/// it lies before `end`: where it is known to have reached `end` already, it is only read.
pub fn sleep_until<C: Clock>(clock: &mut C, end: Instant)
    ensures
        slept_until(*old(clock), *final(clock), end),
{
    let t = clock.now();
    if t < end {
        clock.wait_until(end);
    }
}

/// Of two waits for the same instant, one after the other, the second does not make the
/// clock wait.
pub proof fn lemma_second_wait_is_free<C: Clock>(first: C, second: C, third: C, end: Instant)
    requires
        slept_until(first, second, end),
        slept_until(second, third, end),
    ensures
        third.waits() == second.waits(),
{
}

/// Whether a clock that was `before` is `after` once it has been read and then waited on
/// until `duration` had passed since the reading: between the two the clock was `read`, with
/// a time not before that of `before` and without having been made to wait.
pub open spec fn slept<C: Clock>(before: C, read: C, after: C, duration: Duration) -> bool {
    &&& before.time() <= read.time()
    &&& read.waits() == before.waits()
    &&& slept_until(read, after, spec_after(read.time(), duration))
}

/// Returns once `duration` has passed on `clock`, counted from a reading taken at the call.
pub fn sleep<C: Clock>(clock: &mut C, duration: Duration)
    ensures
        exists|read: C| #[trigger] slept(*old(clock), read, *final(clock), duration),
        after(old(clock).time(), duration) <= final(clock).time(),
{
    let t = clock.now();
    let ghost read = *clock;
    sleep_until(clock, after(t, duration));
    assert(slept(*old(clock), read, *clock, duration));
}

/// The model that every pin has.
pub trait Pin: Sized {
    /// What an operation on the pin reports when it fails.
    type Error;

    /// The level of the pin's output latch: what the pin puts on its wire while it is an
    /// output.
    spec fn level(&self) -> bool;

    /// Whether the pin drives its wire.
    spec fn is_output(&self) -> bool;

    /// The levels read from the pin, oldest first.
    spec fn samples(&self) -> Seq<bool>;

    /// The levels that the pin was driven to, oldest first.
    spec fn driven(&self) -> Seq<bool>;

    /// The errors that the pin has reported, oldest first.
    spec fn faults(&self) -> Seq<Self::Error>;
}

/// Whether `after` is `before` followed by one or more errors, of which `error` is the last:
/// what devices have reported up to a failure with `error`, where `before` is what they had
/// reported when the operation began.
pub open spec fn raised<E>(before: Seq<E>, after: Seq<E>, error: E) -> bool {
    &&& before.len() < after.len()
    &&& forall|i: int| 0 <= i < before.len() ==> after[i] == before[i]
    &&& after.last() == error
}

/// How often `error` is among `errors`.
pub open spec fn occurrences<E>(errors: Seq<E>, error: E) -> nat
    decreases errors.len(),
{
    if errors.len() == 0 {
        0
    } else {
        occurrences(errors.drop_last(), error) + if errors.last() == error {
            1nat
        } else {
            0nat
        }
    }
}

/// Whether `after` begins with `before`.
pub open spec fn grown<E>(before: Seq<E>, after: Seq<E>) -> bool {
    &&& before.len() <= after.len()
    &&& forall|i: int| 0 <= i < before.len() ==> after[i] == before[i]
}

/// Among errors that have grown, every error is at least as often as it was.
pub proof fn lemma_occurrences_grown<E>(before: Seq<E>, after: Seq<E>, error: E)
    requires
        grown(before, after),
    ensures
        occurrences(before, error) <= occurrences(after, error),
    decreases after.len(),
{
    if before.len() == after.len() {
        assert(before =~= after);
    } else {
        lemma_occurrences_grown(before, after.drop_last(), error);
    }
}

/// Among errors that were raised, the last is more often than it was, and no error is less
/// often.
pub proof fn lemma_occurrences_raised<E>(before: Seq<E>, after: Seq<E>, error: E)
    requires
        raised(before, after, error),
    ensures
        occurrences(before, error) < occurrences(after, error),
        forall|other: E| occurrences(before, other) <= #[trigger] occurrences(after, other),
{
    lemma_occurrences_grown(before, after.drop_last(), error);
    assert forall|other: E| occurrences(before, other) <= #[trigger] occurrences(
        after,
        other,
    ) by {
        lemma_occurrences_grown(before, after, other);
    }
}

/// The levels of `count` pulses, one after the other: high and low, `count` times.
pub open spec fn pulses(count: nat) -> Seq<bool>
    decreases count,
{
    if count == 0 {
        Seq::empty()
    } else {
        pulses((count - 1) as nat).push(true).push(false)
    }
}

/// Some pulses and then others are as many pulses as both together.
pub proof fn lemma_pulses_both(first: nat, second: nat)
    ensures
        pulses(first) + pulses(second) == pulses(first + second),
    decreases second,
{
    if second == 0 {
        assert(pulses(first) + pulses(second) =~= pulses(first));
    } else {
        lemma_pulses_both(first, (second - 1) as nat);
        assert(pulses(first) + pulses(second) =~= (pulses(first) + pulses(
            (second - 1) as nat,
        )).push(true).push(false));
    }
}

/// Whether a pin that was `before` is `after` once an operation on it has failed with
/// `error`: the pin has reported `error`, and is else taken to be as it was.
pub open spec fn failed<P: Pin>(before: P, after: P, error: P::Error) -> bool {
    &&& after.faults() == before.faults().push(error)
    &&& after.level() == before.level()
    &&& after.is_output() == before.is_output()
    &&& after.samples() == before.samples()
    &&& after.driven() == before.driven()
}

/// Generic output pin
pub trait OutPin: Pin {
    /// Drives the pin low.
    fn set_low(&mut self) -> (r: Result<(), Self::Error>)
        ensures
            r is Ok ==> final(self).faults() == old(self).faults(),
            r matches Err(error) ==> failed(*old(self), *final(self), error),
            r is Ok ==> !final(self).level(),
            r is Ok ==> final(self).driven() == old(self).driven().push(false),
            r is Ok ==> (old(self).is_output() ==> final(self).is_output()),
            r is Ok ==> final(self).samples() == old(self).samples(),
    ;

    /// Drives the pin high.
    fn set_high(&mut self) -> (r: Result<(), Self::Error>)
        ensures
            r is Ok ==> final(self).faults() == old(self).faults(),
            r matches Err(error) ==> failed(*old(self), *final(self), error),
            r is Ok ==> final(self).level(),
            r is Ok ==> final(self).driven() == old(self).driven().push(true),
            r is Ok ==> (old(self).is_output() ==> final(self).is_output()),
            r is Ok ==> final(self).samples() == old(self).samples(),
    ;

    /// Drives the pin high or low.
    fn set_state(&mut self, high: bool) -> (r: Result<(), Self::Error>)
        ensures
            r is Ok ==> final(self).faults() == old(self).faults(),
            r matches Err(error) ==> failed(*old(self), *final(self), error),
            r is Ok ==> final(self).level() == high,
            r is Ok ==> final(self).driven() == old(self).driven().push(high),
            r is Ok ==> (old(self).is_output() ==> final(self).is_output()),
            r is Ok ==> final(self).samples() == old(self).samples(),
    {
        if high {
            self.set_high()
        } else {
            self.set_low()
        }
    }

    /// Makes the pin an output.
    fn set_as_output(&mut self) -> (r: Result<(), Self::Error>)
        ensures
            r is Ok ==> final(self).faults() == old(self).faults(),
            r matches Err(error) ==> failed(*old(self), *final(self), error),
            r is Ok ==> final(self).is_output(),
            r is Ok ==> final(self).samples() == old(self).samples(),
            r is Ok ==> final(self).driven() == old(self).driven(),
    ;
}

/// Generic input pin
pub trait InPin: Pin {
    /// Reads the pin: `true` where its wire is high.
    fn is_high(&mut self) -> (r: Result<bool, Self::Error>)
        ensures
            r is Ok ==> final(self).faults() == old(self).faults(),
            r matches Err(error) ==> failed(*old(self), *final(self), error),
            r matches Ok(high) ==> final(self).samples() == old(self).samples().push(high),
            r is Ok ==> (!old(self).is_output() ==> !final(self).is_output()),
            r is Ok ==> final(self).driven() == old(self).driven(),
    ;

    /// Reads the pin: `true` where its wire is low.
    fn is_low(&mut self) -> (r: Result<bool, Self::Error>)
        ensures
            r is Ok ==> final(self).faults() == old(self).faults(),
            r matches Err(error) ==> failed(*old(self), *final(self), error),
            r matches Ok(low) ==> final(self).samples() == old(self).samples().push(!low),
            r is Ok ==> (!old(self).is_output() ==> !final(self).is_output()),
            r is Ok ==> final(self).driven() == old(self).driven(),
    ;

    /// Makes the pin an input: it stops driving its wire.
    fn set_as_input(&mut self) -> (r: Result<(), Self::Error>)
        ensures
            r is Ok ==> final(self).faults() == old(self).faults(),
            r matches Err(error) ==> failed(*old(self), *final(self), error),
            r is Ok ==> !final(self).is_output(),
            r is Ok ==> final(self).samples() == old(self).samples(),
            r is Ok ==> final(self).driven() == old(self).driven(),
    ;
}

/// Generic input/output pin
pub trait IoPin: InPin + OutPin {

}

impl<T: InPin + OutPin> IoPin for T {

}

/// A synchronous serial link that shifts bytes out to the display.
pub trait Link {
    /// What the link reports when it fails.
    type Error;

    /// The bytes that went out on the link, oldest first. The bytes of a write that failed
    /// do not count.
    spec fn sent(&self) -> Seq<u8>;

    /// The errors that the link has reported, oldest first.
    spec fn faults(&self) -> Seq<Self::Error>;

    /// Shifts `words` out, in order.
    fn write(&mut self, words: &[u8]) -> (r: Result<(), Self::Error>)
        ensures
            r is Ok ==> final(self).sent() == old(self).sent() + words@,
            r is Ok ==> final(self).faults() == old(self).faults(),
            r matches Err(error) ==> final(self).faults() == old(self).faults().push(error),
            r is Err ==> final(self).sent() == old(self).sent(),
    ;
}


/// A pin of a board, with the record of what it was asked and what it answered: the levels it
/// was driven to, the direction it was last given, and the levels read from it.
pub struct TracedPin<P: hal::ErrorType> {
    pin: P,
    level: Ghost<bool>,
    output: Ghost<bool>,
    samples: Ghost<Seq<bool>>,
    driven: Ghost<Seq<bool>>,
    faults: Ghost<Seq<P::Error>>,
}

impl<P: hal::ErrorType> TracedPin<P> {
    /// The pin of the board.
    pub closed spec fn device(&self) -> P {
        self.pin
    }

    /// The pin `pin`, of which nothing is known yet and nothing was read.
    pub fn new(pin: P) -> (r: Self)
        ensures
            r.device() == pin,
            r.samples() == Seq::<bool>::empty(),
            r.driven() == Seq::<bool>::empty(),
            r.faults() == Seq::<P::Error>::empty(),
    {
        TracedPin {
            pin,
            level: Ghost(arbitrary()),
            output: Ghost(arbitrary()),
            samples: Ghost(Seq::empty()),
            driven: Ghost(Seq::empty()),
            faults: Ghost(Seq::empty()),
        }
    }

    /// Gives the pin back.
    pub fn release(self) -> (pin: P)
        ensures
            pin == self.device(),
    {
        self.pin
    }
}

impl<P: hal::ErrorType> Pin for TracedPin<P> {
    type Error = P::Error;

    closed spec fn level(&self) -> bool {
        self.level@
    }

    closed spec fn is_output(&self) -> bool {
        self.output@
    }

    closed spec fn samples(&self) -> Seq<bool> {
        self.samples@
    }

    closed spec fn driven(&self) -> Seq<bool> {
        self.driven@
    }

    closed spec fn faults(&self) -> Seq<P::Error> {
        self.faults@
    }
}

impl<P: hal::OutPin> OutPin for TracedPin<P> {
    /// Drives the pin of the board low, and notes the level, or the error that the pin
    /// reports.
    fn set_low(&mut self) -> (r: Result<(), Self::Error>) {
        match self.pin.set_low() {
            Ok(()) => {
                proof {
                    self.level@ = false;
                    self.driven@ = self.driven@.push(false);
                }
                Ok(())
            },
            Err(error) => {
                proof {
                    self.faults@ = self.faults@.push(error);
                }
                Err(error)
            },
        }
    }

    /// Drives the pin of the board high, and notes the level, or the error that the pin
    /// reports.
    fn set_high(&mut self) -> (r: Result<(), Self::Error>) {
        match self.pin.set_high() {
            Ok(()) => {
                proof {
                    self.level@ = true;
                    self.driven@ = self.driven@.push(true);
                }
                Ok(())
            },
            Err(error) => {
                proof {
                    self.faults@ = self.faults@.push(error);
                }
                Err(error)
            },
        }
    }

    /// Makes the pin of the board an output, and notes the direction, or the error that the
    /// pin reports.
    fn set_as_output(&mut self) -> (r: Result<(), Self::Error>) {
        match self.pin.set_as_output() {
            Ok(()) => {
                proof {
                    self.output@ = true;
                }
                Ok(())
            },
            Err(error) => {
                proof {
                    self.faults@ = self.faults@.push(error);
                }
                Err(error)
            },
        }
    }
}

impl<P: hal::InPin> InPin for TracedPin<P> {
    /// Reads the pin of the board, and notes the level that it answers with, or the error
    /// that it reports.
    fn is_high(&mut self) -> (r: Result<bool, Self::Error>) {
        match self.pin.is_high() {
            Ok(high) => {
                proof {
                    self.samples@ = self.samples@.push(high);
                }
                Ok(high)
            },
            Err(error) => {
                proof {
                    self.faults@ = self.faults@.push(error);
                }
                Err(error)
            },
        }
    }

    /// Reads the pin of the board, and notes the level that it answers with, or the error
    /// that it reports.
    fn is_low(&mut self) -> (r: Result<bool, Self::Error>) {
        match self.pin.is_high() {
            Ok(high) => {
                proof {
                    self.samples@ = self.samples@.push(high);
                }
                Ok(!high)
            },
            Err(error) => {
                proof {
                    self.faults@ = self.faults@.push(error);
                }
                Err(error)
            },
        }
    }

    /// Makes the pin of the board an input, and notes the direction, or the error that the
    /// pin reports.
    fn set_as_input(&mut self) -> (r: Result<(), Self::Error>) {
        match self.pin.set_as_input() {
            Ok(()) => {
                proof {
                    self.output@ = false;
                }
                Ok(())
            },
            Err(error) => {
                proof {
                    self.faults@ = self.faults@.push(error);
                }
                Err(error)
            },
        }
    }
}

/// A clock of a board, with the latest instant that it has shown or was made to wait for,
/// and the record of the instants that it was made to wait for. A reading that lies before
/// that latest instant is not handed on: time is taken never to go back.
pub struct TracedClock<C> {
    clock: C,
    reached: Instant,
    waits: Ghost<Seq<Instant>>,
}

impl<C: hal::Clock> TracedClock<C> {
    /// The clock of the board.
    pub closed spec fn device(&self) -> C {
        self.clock
    }

    /// The clock `clock`, which was not made to wait yet.
    pub fn new(clock: C) -> (r: Self)
        ensures
            r.device() == clock,
            r.waits() == Seq::<Instant>::empty(),
            r.time() == 0,
    {
        TracedClock { clock, reached: 0, waits: Ghost(Seq::empty()) }
    }

    /// Gives the clock back.
    pub fn release(self) -> (clock: C)
        ensures
            clock == self.device(),
    {
        self.clock
    }
}

impl<C: hal::Clock> Clock for TracedClock<C> {
    closed spec fn time(&self) -> Instant {
        self.reached
    }

    closed spec fn waits(&self) -> Seq<Instant> {
        self.waits@
    }

    /// Reads the clock of the board, and hands on the later of its reading and the latest
    /// instant reached so far.
    fn now(&mut self) -> (t: Instant) {
        let t = self.clock.now();
        if self.reached < t {
            self.reached = t;
        }
        self.reached
    }

    /// Makes the clock of the board wait until `end`, and takes it to have reached `end` when
    /// it returns.
    fn wait_until(&mut self, end: Instant) {
        self.clock.wait_until(end);
        if self.reached < end {
            self.reached = end;
        }
        proof {
            self.waits@ = self.waits@.push(end);
        }
    }
}

/// A link of a board, with the record of the bytes that it has taken.
pub struct TracedLink<L: hal::Link> {
    link: L,
    sent: Ghost<Seq<u8>>,
    faults: Ghost<Seq<L::Error>>,
}

impl<L: hal::Link> TracedLink<L> {
    /// The link of the board.
    pub closed spec fn device(&self) -> L {
        self.link
    }

    /// The link `link`, on which nothing went out yet.
    pub fn new(link: L) -> (r: Self)
        ensures
            r.device() == link,
            r.sent() == Seq::<u8>::empty(),
            r.faults() == Seq::<L::Error>::empty(),
    {
        TracedLink { link, sent: Ghost(Seq::empty()), faults: Ghost(Seq::empty()) }
    }

    /// Gives the link back.
    pub fn release(self) -> (link: L)
        ensures
            link == self.device(),
    {
        self.link
    }
}

impl<L: hal::Link> Link for TracedLink<L> {
    type Error = L::Error;

    closed spec fn sent(&self) -> Seq<u8> {
        self.sent@
    }

    closed spec fn faults(&self) -> Seq<L::Error> {
        self.faults@
    }

    /// Hands `words` to the link of the board, and notes them, or the error that the link
    /// reports.
    fn write(&mut self, words: &[u8]) -> (r: Result<(), Self::Error>) {
        match self.link.write(words) {
            Ok(()) => {
                proof {
                    self.sent@ = self.sent@ + words@;
                }
                Ok(())
            },
            Err(error) => {
                proof {
                    self.faults@ = self.faults@.push(error);
                }
                Err(error)
            },
        }
    }
}

} // verus!
