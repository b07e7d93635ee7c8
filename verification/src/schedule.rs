//! What the driver keeps of each display on a bus: the instant before which the display must
//! be left alone, the instruction set that it is in, and what it was put through.
//!
//! An instruction is not waited for when it has been sent. The instant at which the chip will
//! have executed it is booked as the display's deadline, and it is the next access to that
//! display that waits, and only for what is left of the time.

use crate::command::{Command, Step};
use crate::hal::{after, Duration, Instant};
use crate::model::{sleep_until, slept_until, Clock};
use crate::mode::Mode;
use vstd::prelude::*;

verus! {

/// The records of the `PINS` displays of a bus, one of which is in use where there is one.
pub struct Lines<const PINS: usize> {
    current: usize,
    ends: [Instant; PINS],
    modes: [Mode; PINS],
    histories: Ghost<Seq<Seq<Step>>>,
}

impl<const PINS: usize> Lines<PINS> {
    #[verifier::type_invariant]
    spec fn well_formed(&self) -> bool {
        &&& PINS > 0 ==> self.current < PINS
        &&& self.histories@.len() == PINS
    }

    /// The display in use, by its place on the bus.
    pub closed spec fn line(&self) -> usize {
        self.current
    }

    /// For each display, the instant before which it must be left alone.
    pub closed spec fn deadlines(&self) -> Seq<Instant> {
        self.ends@
    }

    /// For each display, the instruction set that it is in.
    pub closed spec fn modes(&self) -> Seq<Mode> {
        self.modes@
    }

    /// For each display, what it was put through, oldest first.
    pub closed spec fn histories(&self) -> Seq<Seq<Step>> {
        Seq::new(PINS as nat, |i: int| self.histories@[i])
    }

    /// There is one record for each display.
    pub proof fn lemma_one_record_each(&self)
        ensures
            self.deadlines().len() == PINS,
            self.modes().len() == PINS,
            self.histories().len() == PINS,
    {
    }

    /// The deadline of the display in use.
    pub open spec fn deadline(&self) -> Instant {
        self.deadlines()[self.line() as int]
    }

    /// The instruction set that the display in use is in.
    pub open spec fn spec_mode(&self) -> Mode {
        self.modes()[self.line() as int]
    }

    /// What the display in use was put through.
    pub open spec fn history(&self) -> Seq<Step> {
        self.histories()[self.line() as int]
    }

    /// Whether the records are those of `other`, but for the deadline, the instruction set
    /// and the history of the display in use.
    pub open spec fn others_as_in(&self, other: &Self) -> bool {
        &&& self.line() == other.line()
        &&& forall|i: int|
            0 <= i < PINS && i != self.line() ==> {
                &&& #[trigger] self.deadlines()[i] == other.deadlines()[i]
                &&& self.modes()[i] == other.modes()[i]
                &&& self.histories()[i] == other.histories()[i]
            }
    }

    /// Records for displays that are all in the Basic set, free to be used from `now` on and
    /// with nothing behind them. Display 0 is in use, where there is a display at all.
    pub fn new(now: Instant) -> (r: Self)
        ensures
            r.line() == 0,
            r.deadlines() == Seq::new(PINS as nat, |i: int| now),
            r.modes() == Seq::new(PINS as nat, |i: int| Mode::Basic),
            r.histories() == Seq::new(PINS as nat, |i: int| Seq::<Step>::empty()),
    {
        let r = Lines {
            current: 0,
            ends: [now;PINS],
            modes: [Mode::Basic;PINS],
            histories: Ghost(Seq::new(PINS as nat, |i: int| Seq::<Step>::empty())),
        };
        assert(r.ends@ =~= Seq::new(PINS as nat, |i: int| now));
        assert(r.modes@ =~= Seq::new(PINS as nat, |i: int| Mode::Basic));
        r
    }

    /// The number of displays.
    pub fn num(&self) -> (n: usize)
        ensures
            n == PINS,
    {
        PINS
    }

    /// Puts display `idx` in use, where there is one, and says whether there is.
    pub fn choose_line(&mut self, idx: usize) -> (found: bool)
        ensures
            found <==> idx < PINS,
            found ==> final(self).line() == idx,
            !found ==> *final(self) == *old(self),
            final(self).deadlines() == old(self).deadlines(),
            final(self).modes() == old(self).modes(),
            final(self).histories() == old(self).histories(),
    {
        proof {
            use_type_invariant(&*self);
        }
        if idx < PINS {
            self.current = idx;
            true
        } else {
            false
        }
    }

    /// The place of the display in use.
    pub fn current(&self) -> (idx: usize)
        requires
            PINS > 0,
        ensures
            idx == self.line(),
            idx < PINS,
            self.deadlines().len() == PINS,
            self.modes().len() == PINS,
            self.histories().len() == PINS,
    {
        proof {
            use_type_invariant(self);
        }
        self.current
    }

    /// The instant before which the display in use must be left alone.
    pub fn not_before(&self) -> (end: Instant)
        requires
            PINS > 0,
        ensures
            end == self.deadline(),
    {
        proof {
            use_type_invariant(self);
        }
        self.ends[self.current]
    }

    /// How long the display in use must still be left alone at the instant `now`: nothing
    /// where its deadline has passed.
    pub fn remaining(&self, now: Instant) -> (left: Duration)
        requires
            PINS > 0,
        ensures
            left == if now < self.deadline() {
                self.deadline() - now
            } else {
                0
            },
    {
        let end = self.not_before();
        if now < end {
            end - now
        } else {
            0
        }
    }

    /// Returns once the deadline of the display in use has passed. The clock is made to wait
    /// only where it has not yet reached the deadline.
    pub fn wait<C: Clock>(&self, clock: &mut C)
        requires
            PINS > 0,
        ensures
            slept_until(*old(clock), *final(clock), self.deadline()),
    {
        sleep_until(clock, self.not_before());
    }

    /// Books the deadline of the display in use: `duration` after `now`. The other displays
    /// keep theirs.
    pub fn book(&mut self, now: Instant, duration: Duration)
        requires
            PINS > 0,
        ensures
            final(self).deadline() == after(now, duration),
            final(self).others_as_in(old(self)),
            final(self).spec_mode() == old(self).spec_mode(),
            final(self).history() == old(self).history(),
    {
        proof {
            use_type_invariant(&*self);
        }
        self.ends[self.current] = after(now, duration);
    }

    /// The instruction set that the display in use is in.
    #[verifier::when_used_as_spec(spec_mode)]
    pub fn mode(&self) -> (mode: Mode)
        requires
            PINS > 0,
        ensures
            mode == self.spec_mode(),
    {
        proof {
            use_type_invariant(self);
        }
        self.modes[self.current]
    }

    /// Records that the display in use has taken `command`: its history has the command as
    /// its last step, and it is in the set that the command leaves it in.
    pub fn took(&mut self, command: Command)
        requires
            PINS > 0,
        ensures
            final(self).history() == old(self).history().push(Step::Command(command)),
            final(self).spec_mode() == old(self).spec_mode().after(command),
            final(self).deadline() == old(self).deadline(),
            final(self).others_as_in(old(self)),
    {
        proof {
            use_type_invariant(&*self);
        }
        self.modes[self.current] = self.modes[self.current].after(command);
        proof {
            self.histories@ = self.histories@.update(
                self.current as int,
                self.histories@[self.current as int].push(Step::Command(command)),
            );
        }
    }

    /// Records that the display in use was left alone for `micros` microseconds.
    pub fn rested(&mut self, micros: u32)
        requires
            PINS > 0,
        ensures
            final(self).history() == old(self).history().push(Step::Pause(micros)),
            final(self).spec_mode() == old(self).spec_mode(),
            final(self).deadline() == old(self).deadline(),
            final(self).others_as_in(old(self)),
    {
        proof {
            use_type_invariant(&*self);
            self.histories@ = self.histories@.update(
                self.current as int,
                self.histories@[self.current as int].push(Step::Pause(micros)),
            );
        }
    }
}

/// What leaves the other displays alone twice leaves them alone.
pub proof fn lemma_others_chain<const PINS: usize>(
    first: Lines<PINS>,
    second: Lines<PINS>,
    third: Lines<PINS>,
)
    requires
        third.others_as_in(&second),
        second.others_as_in(&first),
    ensures
        third.others_as_in(&first),
{
    assert forall|i: int| 0 <= i < PINS && i != third.line() implies {
        &&& #[trigger] third.deadlines()[i] == first.deadlines()[i]
        &&& third.modes()[i] == first.modes()[i]
        &&& third.histories()[i] == first.histories()[i]
    } by {
        assert(second.deadlines()[i] == first.deadlines()[i]);
        assert(third.deadlines()[i] == second.deadlines()[i]);
    }
}

} // verus!
