//! Driver core for the ST7920 dot-matrix LCD controller.
//!
//! The crate models the chip's instruction set, frames instructions for the parallel and the
//! serial bus, keeps the chip's timing contract with a deadline per enable line, and tracks the
//! instruction set that the chip has latched.
//!
//! - [`command`] and [`ext`] hold the instructions, their opcodes and their execution times,
//!   and the traits by which a display executes them.
//! - [`mode`] holds the three instruction sets and the way from one to another.
//! - [`schedule`] holds what is kept of each display on a bus: its deadline, its instruction
//!   set and its history.
//! - [`parallel`] and [`serial`] hold the two buses.
//! - [`hal`] holds what a board has to offer, and [`model`] what the driver takes a board to
//!   have done.
//! - [`pair`] drives two displays as one, and [`infallible`] drops the results of operations
//!   that cannot fail.
//!
//! Every contract is stated over what a bus has seen: the cycles of a parallel bus, the frames
//! of a serial bus, each with the instant at which it ended, and the history of each display.
//! The traits by which a display executes say of every operation what the display was put
//! through; what that means on the wires, for the clock and for the other displays of a bus,
//! each bus says in the predicates that it gives to [`Execute`] and [`ExecuteRead`].

pub mod command;
pub mod ext;
pub mod hal;
pub mod infallible;
pub mod mode;
pub mod model;
pub mod pair;
pub mod parallel;
pub mod schedule;
pub mod serial;

pub use command::{Command, Execute, ExecuteRead, Step};
pub use mode::Mode;
pub use pair::{Pair, PairError};

use vstd::prelude::*;

verus! {

/// The time that the chip takes after power-up before it can be sent anything, in
/// microseconds.
pub const POWER_UP_TIME: u32 = 80_000;

/// The time for which the chip is left alone after each of the first instructions of the
/// power-on sequence, in microseconds.
pub const SETTLE_TIME: u32 = 200;

/// The time for which the chip is left alone after the `Clear` of the power-on sequence, in
/// microseconds.
pub const CLEAR_SETTLE_TIME: u32 = 20_000;

/// What may have a display in use: a bus, or what drives several displays as one.
///
/// An instruction is for a display. Every operation that sends to a display or reads from
/// one asks that there is one, and leaves it there.
pub trait Attached {
    /// Whether there is a display in use. A bus made for no display has none: it can be
    /// made and asked for its displays, and nothing can be sent over it.
    spec fn attached(&self) -> bool;
}

/// A bus that several displays share, of which one is in use at a time.
pub trait SharedBus: Attached + Sized {
    /// The number of displays on the bus.
    spec fn displays(&self) -> nat;

    /// The display in use, by its place on the bus.
    spec fn in_use(&self) -> nat;

    /// The number of displays on the bus.
    fn num(&self) -> (n: usize)
        ensures
            n == self.displays(),
            n > 0 <==> self.attached(),
    ;

    /// The bus with display `idx` in use, where there is such a display. What is done to
    /// the display is done through the bus: no two displays are used at once.
    fn get(&mut self, idx: usize) -> (r: Option<&mut Self>)
        ensures
            r is Some <==> idx < old(self).displays(),
            r matches Some(display) ==> display.attached(),
            r matches Some(display) ==> display.in_use() == idx && display.displays() == old(
                self,
            ).displays() && *final(self) == *final(display),
            r is None ==> *final(self) == *old(self),
    ;
}

/// A display that can be left alone for a while.
pub trait Delay: Execute {
    /// Returns once `micros` microseconds have passed, with nothing sent to the display.
    fn delay(&mut self, micros: u32)
        requires
            old(self).attached(),
        ensures
            final(self).attached(),
            final(self).kept(old(self)),
            final(self).followed(old(self)),
            final(self).history() == old(self).history().push(Step::Pause(micros)),
            final(self).mode() == old(self).mode(),
            forall|error: Self::Error|
                #[trigger] final(self).failures(error) == old(self).failures(error),
    ;
}

/// What the power-on sequence puts a display through once it has selected the Basic set for
/// the first time.
pub open spec fn settling() -> Seq<Step> {
    seq![
        Step::Pause(SETTLE_TIME),
        Step::Command(Command::SelectBasic),
        Step::Pause(SETTLE_TIME),
        Step::Command(Command::DisplayOnOff { display: true, cursor: false, blink: false }),
        Step::Pause(SETTLE_TIME),
        Step::Command(Command::Clear),
        Step::Pause(CLEAR_SETTLE_TIME),
        Step::Command(Command::EntryMode { increment: true, shift: false }),
    ]
}

/// What the power-on sequence puts a display through that is taken to be in the set `mode`.
pub open spec fn power_on(mode: Mode) -> Seq<Step> {
    seq![Step::Pause(POWER_UP_TIME)] + command::steps(command::issued(mode, Command::SelectBasic))
        + settling()
}

/// The history that a display with the history `before`, taken to be in the set `mode`, has
/// once it was put through the first `count` steps of the power-on sequence.
pub open spec fn reached(before: Seq<Step>, mode: Mode, count: int) -> Seq<Step> {
    before + power_on(mode).take(count)
}

/// The power-on sequence begins with the wait for the chip, goes on with what selects the
/// Basic set, and ends with the eight steps that settle the display.
pub proof fn lemma_power_on_parts(before: Seq<Step>, mode: Mode, count: int)
    requires
        0 <= count <= command::issued(mode, Command::SelectBasic).len(),
    ensures
        power_on(mode).len() == 1 + command::issued(mode, Command::SelectBasic).len() + 8,
        before.push(Step::Pause(POWER_UP_TIME)) + command::steps(
            command::issued(mode, Command::SelectBasic),
        ).take(count) == reached(before, mode, 1 + count),
        reached(before, mode, power_on(mode).len() as int) == before + power_on(mode),
{
    let first = command::steps(command::issued(mode, Command::SelectBasic));
    assert(before.push(Step::Pause(POWER_UP_TIME)) + first.take(count) =~= reached(
        before,
        mode,
        1 + count,
    ));
    assert(power_on(mode).take(power_on(mode).len() as int) =~= power_on(mode));
}

/// One more of the eight steps that settle the display is one more step of the power-on
/// sequence.
pub proof fn lemma_power_on_next(before: Seq<Step>, mode: Mode, done: int)
    requires
        0 <= done < 8,
    ensures
        reached(
            before,
            mode,
            1 + command::issued(mode, Command::SelectBasic).len() + done,
        ).push(settling()[done]) == reached(
            before,
            mode,
            1 + command::issued(mode, Command::SelectBasic).len() + done + 1,
        ),
{
    let first = command::steps(command::issued(mode, Command::SelectBasic));
    let at = 1 + first.len() + done;
    assert(power_on(mode)[at] == settling()[done]);
    assert(power_on(mode).take(at + 1) =~= power_on(mode).take(at).push(settling()[done]));
    assert(reached(before, mode, at).push(settling()[done]) =~= reached(before, mode, at + 1));
}

/// A display that can be brought from power-up to use.
pub trait Init: Execute {
    /// Runs the power-on sequence: waits for the chip to come up, selects the Basic set
    /// twice, turns the display on with neither cursor nor blink, clears it, and sets the
    /// entry mode to increment without shift, each followed by a time to settle. Where it
    /// fails, the display is in no known state, and the sequence has to be run again from the
    /// start.
    fn init(&mut self) -> (r: Result<(), Self::Error>)
        requires
            old(self).attached(),
        ensures
            final(self).attached(),
            final(self).kept(old(self)),
            r is Ok ==> final(self).followed(old(self)),
            r is Ok ==> final(self).history() == old(self).history() + power_on(old(self).mode()),
            r is Ok ==> final(self).mode() == Mode::Basic,
            r is Err ==> old(self).history().is_prefix_of(final(self).history()),
            r is Ok ==> forall|error: Self::Error|
                #[trigger] final(self).failures(error) == old(self).failures(error),
            r matches Err(error) ==> old(self).failures(error) < final(self).failures(error),
            forall|error: Self::Error|
                old(self).failures(error) <= #[trigger] final(self).failures(error),
    ;
}

/// Whether a display with the history `before`, taken to be in the set `mode`, is left with
/// the history `after` by a power-on sequence that failed: it was put through the wait for
/// the chip and some of what follows, but not through the last instruction.
pub open spec fn power_on_failed(before: Seq<Step>, mode: Mode, after: Seq<Step>) -> bool {
    exists|count: int|
        1 <= count < power_on(mode).len() && after == #[trigger] reached(before, mode, count)
}

impl<T: Execute + Delay> Init for T {
    /// Runs the power-on sequence, up to the first instruction that fails.
    #[verifier::rlimit(40)]
    fn init(&mut self) -> (r: Result<(), Self::Error>)
        ensures
            r is Err ==> power_on_failed(
                old(self).history(),
                old(self).mode(),
                final(self).history(),
            ),
    {
        let ghost start = self.history();
        let ghost mode = self.mode();
        let ghost first = command::issued(mode, Command::SelectBasic).len() as int;
        let ghost begun = *self;
        self.delay(POWER_UP_TIME);
        let ghost h = self.history();
        let ghost paused = *self;
        let r = self.select_basic();
        proof {
            self.lemma_kept_twice(&begun, &paused);
            if r is Ok {
                self.lemma_followed_twice(&begun, &paused);
            }
        }
        proof {
            command::lemma_executed_done_or_failed(
                h,
                mode,
                Command::SelectBasic,
                r is Ok,
                self.history(),
                self.mode(),
            );
            if r is Err {
                let count = choose|count: int|
                    0 <= count < first && self.history() == h + #[trigger] command::steps(
                        command::issued(mode, Command::SelectBasic),
                    ).take(count);
                lemma_power_on_parts(start, mode, count);
                assert(self.history() == reached(start, mode, 1 + count));
            } else {
                lemma_power_on_parts(start, mode, first);
                assert(command::steps(command::issued(mode, Command::SelectBasic)).take(first)
                    =~= command::steps(command::issued(mode, Command::SelectBasic)));
                assert(self.history() == reached(start, mode, 1 + first));
            }
        }
        r?;
        let ghost done = *self;
        self.delay(SETTLE_TIME);
        proof {
            self.lemma_kept_twice(&begun, &done);
            self.lemma_followed_twice(&begun, &done);
        }
        proof {
            lemma_power_on_next(start, mode, 0);
        }
        let ghost h = self.history();
        let ghost paused = *self;
        let r = self.select_basic();
        proof {
            self.lemma_kept_twice(&begun, &paused);
            if r is Ok {
                self.lemma_followed_twice(&begun, &paused);
            }
        }
        proof {
            command::lemma_executed_done_or_failed(
                h,
                Mode::Basic,
                Command::SelectBasic,
                r is Ok,
                self.history(),
                self.mode(),
            );
            lemma_power_on_next(start, mode, 1);
            lemma_power_on_parts(start, mode, 0);
        }
        r?;
        let ghost done = *self;
        self.delay(SETTLE_TIME);
        proof {
            self.lemma_kept_twice(&begun, &done);
            self.lemma_followed_twice(&begun, &done);
        }
        proof {
            lemma_power_on_next(start, mode, 2);
        }
        let ghost h = self.history();
        let ghost paused = *self;
        let r = self.display_on_off(true, false, false);
        proof {
            self.lemma_kept_twice(&begun, &paused);
            if r is Ok {
                self.lemma_followed_twice(&begun, &paused);
            }
        }
        proof {
            command::lemma_executed_done_or_failed(
                h,
                Mode::Basic,
                (Command::DisplayOnOff { display: true, cursor: false, blink: false }),
                r is Ok,
                self.history(),
                self.mode(),
            );
            lemma_power_on_next(start, mode, 3);
        }
        r?;
        let ghost done = *self;
        self.delay(SETTLE_TIME);
        proof {
            self.lemma_kept_twice(&begun, &done);
            self.lemma_followed_twice(&begun, &done);
        }
        proof {
            lemma_power_on_next(start, mode, 4);
        }
        let ghost h = self.history();
        let ghost paused = *self;
        let r = self.clear();
        proof {
            self.lemma_kept_twice(&begun, &paused);
            if r is Ok {
                self.lemma_followed_twice(&begun, &paused);
            }
        }
        proof {
            command::lemma_executed_done_or_failed(
                h,
                Mode::Basic,
                Command::Clear,
                r is Ok,
                self.history(),
                self.mode(),
            );
            lemma_power_on_next(start, mode, 5);
        }
        r?;
        let ghost done = *self;
        self.delay(CLEAR_SETTLE_TIME);
        proof {
            self.lemma_kept_twice(&begun, &done);
            self.lemma_followed_twice(&begun, &done);
        }
        proof {
            lemma_power_on_next(start, mode, 6);
        }
        let ghost h = self.history();
        let ghost paused = *self;
        let r = self.entry_mode(true, false);
        proof {
            self.lemma_kept_twice(&begun, &paused);
            if r is Ok {
                self.lemma_followed_twice(&begun, &paused);
            }
        }
        proof {
            command::lemma_executed_done_or_failed(
                h,
                Mode::Basic,
                (Command::EntryMode { increment: true, shift: false }),
                r is Ok,
                self.history(),
                self.mode(),
            );
            lemma_power_on_next(start, mode, 7);
            lemma_power_on_parts(start, mode, 0);
        }
        r
    }
}

} // verus!
