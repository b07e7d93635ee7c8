//! Two displays that are put through the same, one after the other.

use crate::command::{executed, lemma_sent_none, lemma_sent_some, Command, Execute, Step};
use crate::mode::Mode;
use crate::{Attached, Init};
use vstd::prelude::*;

verus! {

/// Two displays, which execute each instruction one after the other: the second takes an
/// instruction once the first has executed it.
pub struct Pair<A, B>(pub A, pub B);

/// Which display of a [`Pair`] failed, and how.
#[derive(Debug)]
pub enum PairError<A, B> {
    /// The first display failed; the second was not touched.
    First(A),
    /// The second display failed, after the first had succeeded.
    Second(B),
}

impl<A: Execute, B: Execute> Attached for Pair<A, B> {
    /// Whether both displays are there.
    open spec fn attached(&self) -> bool {
        self.0.attached() && self.1.attached()
    }
}

impl<A: Execute, B: Execute> Execute for Pair<A, B> {
    type Error = PairError<A::Error, B::Error>;

    /// What both displays were put through: the history of the second.
    open spec fn history(&self) -> Seq<Step> {
        self.1.history()
    }

    /// The instruction set that the second display is in.
    open spec fn mode(&self) -> Mode {
        self.1.mode()
    }

    /// How often the display that `error` names has failed with the error that it holds.
    open spec fn failures(&self, error: Self::Error) -> nat {
        match error {
            PairError::First(first) => self.0.failures(first),
            PairError::Second(second) => self.1.failures(second),
        }
    }

    /// Whether both displays were kept; the second may be just as it was.
    open spec fn kept(&self, before: &Self) -> bool {
        self.0.kept(&before.0) && (self.1 == before.1 || self.1.kept(&before.1))
    }

    /// Whether both displays have followed.
    open spec fn followed(&self, before: &Self) -> bool {
        self.0.followed(&before.0) && self.1.followed(&before.1)
    }

    /// Whether the first display has stopped and the second is as it was, or the first has
    /// followed and the second has stopped.
    open spec fn stopped(&self, before: &Self, command: Command, error: Self::Error) -> bool {
        match error {
            PairError::First(first) => self.0.stopped(&before.0, command, first) && self.1
                == before.1,
            PairError::Second(second) => self.0.followed(&before.0) && self.1.stopped(
                &before.1,
                command,
                second,
            ),
        }
    }

    proof fn lemma_kept_twice(&self, first: &Self, second: &Self) {
        self.0.lemma_kept_twice(&first.0, &second.0);
        if self.1 != second.1 && second.1 != first.1 {
            self.1.lemma_kept_twice(&first.1, &second.1);
        }
    }

    proof fn lemma_followed_twice(&self, first: &Self, second: &Self) {
        self.0.lemma_followed_twice(&first.0, &second.0);
        self.1.lemma_followed_twice(&first.1, &second.1);
    }

    /// Makes the first display execute `command`, and then the second.
    fn execute(&mut self, command: Command) -> (r: Result<(), Self::Error>)
        ensures
            r is Ok ==> executed(
                old(self).0.history(),
                old(self).0.mode(),
                command,
                true,
                final(self).0.history(),
                final(self).0.mode(),
            ),
            r matches Err(PairError::First(_)) ==> final(self).1 == old(self).1 && executed(
                old(self).0.history(),
                old(self).0.mode(),
                command,
                false,
                final(self).0.history(),
                final(self).0.mode(),
            ),
            r matches Err(PairError::Second(_)) ==> executed(
                old(self).0.history(),
                old(self).0.mode(),
                command,
                true,
                final(self).0.history(),
                final(self).0.mode(),
            ),
    {
        match self.0.execute(command) {
            Ok(()) => {},
            Err(error) => {
                proof {
                    lemma_sent_none(self.1.history(), self.1.mode(), command);
                    lemma_sent_some(
                        self.1.history(),
                        self.1.mode(),
                        command,
                        0,
                        self.1.history(),
                        self.1.mode(),
                    );
                }
                return Err(PairError::First(error));
            },
        }
        match self.1.execute(command) {
            Ok(()) => Ok(()),
            Err(error) => Err(PairError::Second(error)),
        }
    }
}

impl<A: Init, B: Init> Init for Pair<A, B> {
    /// Runs the power-on sequence of the first display and, where that succeeds, that of the
    /// second.
    fn init(&mut self) -> (r: Result<(), Self::Error>)
        ensures
            r is Ok ==> final(self).0.history() == old(self).0.history() + crate::power_on(
                old(self).0.mode(),
            ),
            r is Ok ==> final(self).0.mode() == Mode::Basic,
            r matches Err(PairError::First(_)) ==> final(self).1 == old(self).1 && old(
                self,
            ).0.history().is_prefix_of(final(self).0.history()),
            r matches Err(PairError::Second(_)) ==> final(self).0.history() == old(
                self,
            ).0.history() + crate::power_on(old(self).0.mode()) && final(self).0.mode()
                == Mode::Basic,
    {
        match self.0.init() {
            Ok(()) => {},
            Err(error) => {
                proof {
                    assert(self.1.history().subrange(0, self.1.history().len() as int)
                        =~= self.1.history());
                }
                return Err(PairError::First(error));
            },
        }
        match self.1.init() {
            Ok(()) => Ok(()),
            Err(error) => Err(PairError::Second(error)),
        }
    }
}

} // verus!
