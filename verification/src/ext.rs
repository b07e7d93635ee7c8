//! The instructions of the Extended and the Graphic set, as a type of their own.

use crate::hal::Duration;
use vstd::prelude::*;

verus! {

/// One instruction of the Extended or the Graphic set.
#[derive(Clone, Copy, Debug, PartialEq, Eq, Structural)]
pub enum Command {
    /// Enter stand-by; any other instruction leaves it
    StandBy,
    /// Enable the [`ScrollOffset`](Command::ScrollOffset) command
    ///
    /// Instruction Set: **Extended**
    EnableScroll,
    /// Select the Character Generator RAM (CGRAM)
    ///
    /// Instruction Set: **Extended**
    EnableCgRam,
    /// Reverse the pixels of the given line
    ///
    /// Instruction Set: **Extended**
    ///
    /// Only one line at the time can be reversed.
    /// The first time this command is sent the given line
    /// is reversed, while the second time it returns to normal
    /// (no matter the given address).
    Reverse(u8),
    /// Select the _Extended instruction set_
    SelectExtended,
    /// Select the _Graphic instruction set_
    SelectGraphic,
    /// Set the vertical scroll offset
    ///
    /// Instruction Set: **Extended**
    ScrollOffset(u8),
    /// Set the Graphic RAM address
    ///
    /// Instruction Set: **Graphic**
    GraphicRamAddr { y: u8, x: u8 },
}

impl Command {
    /// The instruction as one of the whole instruction set.
    pub open spec fn spec_widen(self) -> crate::Command {
        match self {
            Command::StandBy => crate::Command::StandBy,
            Command::EnableScroll => crate::Command::EnableScroll,
            Command::EnableCgRam => crate::Command::EnableCgRam,
            Command::Reverse(line) => crate::Command::Reverse(line),
            Command::SelectExtended => crate::Command::SelectExtended,
            Command::SelectGraphic => crate::Command::SelectGraphic,
            Command::ScrollOffset(offset) => crate::Command::ScrollOffset(offset),
            Command::GraphicRamAddr { y, x } => crate::Command::GraphicRamAddr { y, x },
        }
    }

    /// The instruction as one of the whole instruction set.
    #[verifier::when_used_as_spec(spec_widen)]
    pub fn widen(self) -> (command: crate::Command)
        ensures
            command == self.spec_widen(),
            !(command is Write),
            !(command is Clear),
    {
        match self {
            Command::StandBy => crate::Command::StandBy,
            Command::EnableScroll => crate::Command::EnableScroll,
            Command::EnableCgRam => crate::Command::EnableCgRam,
            Command::Reverse(line) => crate::Command::Reverse(line),
            Command::SelectExtended => crate::Command::SelectExtended,
            Command::SelectGraphic => crate::Command::SelectGraphic,
            Command::ScrollOffset(offset) => crate::Command::ScrollOffset(offset),
            Command::GraphicRamAddr { y, x } => crate::Command::GraphicRamAddr { y, x },
        }
    }

    /// Execution time of the [`Command`]: 72 microseconds, whichever it is.
    pub fn execution_time(self) -> (t: Duration)
        ensures
            t == 72,
            t == self.spec_widen().spec_execution_time(),
    {
        self.widen().execution_time() as u64
    }

    /// The instruction as two bytes: its opcode, followed by `0` where the opcode is one byte.
    pub fn into_bytes(self) -> (r: [u8; 2])
        ensures
            r[0] == self.spec_widen().opcode()[0],
            self.spec_widen().opcode().len() == 2 ==> r[1] == self.spec_widen().opcode()[1]
                && r[1] != 0,
            self.spec_widen().opcode().len() == 1 ==> r[1] == 0,
    {
        self.widen().into_bytes()
    }
}

impl From<Command> for crate::Command {
    fn from(command: Command) -> (r: crate::Command)
    {
        command.widen()
    }
}

impl vstd::std_specs::convert::FromSpecImpl<Command> for crate::Command {
    open spec fn obeys_from_spec() -> bool {
        true
    }

    open spec fn from_spec(command: Command) -> crate::Command {
        command.spec_widen()
    }
}

/// A display that executes the instructions of the Extended and the Graphic set.
pub trait Execute: crate::Execute {
    /// Sends the display `command`, after the instructions that bring it to a set in which
    /// it takes `command`.
    fn execute_ext(&mut self, command: Command) -> (r: Result<(), Self::Error>)
        requires
            old(self).attached(),
        ensures
            final(self).attached(),
            final(self).kept(old(self)),
            r is Ok ==> final(self).followed(old(self)),
            r matches Err(error) ==> final(self).stopped(
                old(self),
                command.spec_widen(),
                error,
            ),
            r is Ok ==> forall|error: Self::Error|
                #[trigger] final(self).failures(error) == old(self).failures(error),
            r matches Err(error) ==> old(self).failures(error) < final(self).failures(error),
            forall|error: Self::Error|
                old(self).failures(error) <= #[trigger] final(self).failures(error),
            crate::command::executed(
                old(self).history(),
                old(self).mode(),
                command.spec_widen(),
                r is Ok,
                final(self).history(),
                final(self).mode(),
            ),
    {
        crate::Execute::execute(self, command.widen())
    }

    /// Enter stand-by
    fn stand_by(&mut self) -> (r: Result<(), Self::Error>)
        requires
            old(self).attached(),
        ensures
            final(self).attached(),
            final(self).kept(old(self)),
            r is Ok ==> final(self).followed(old(self)),
            r matches Err(error) ==> final(self).stopped(
                old(self),
                crate::Command::StandBy,
                error,
            ),
            r is Ok ==> forall|error: Self::Error|
                #[trigger] final(self).failures(error) == old(self).failures(error),
            r matches Err(error) ==> old(self).failures(error) < final(self).failures(error),
            forall|error: Self::Error|
                old(self).failures(error) <= #[trigger] final(self).failures(error),
            crate::command::executed(
                old(self).history(),
                old(self).mode(),
                crate::Command::StandBy,
                r is Ok,
                final(self).history(),
                final(self).mode(),
            ),
    {
        Execute::execute_ext(self, Command::StandBy)
    }

    /// Enable the vertical scroll
    fn enable_scroll(&mut self) -> (r: Result<(), Self::Error>)
        requires
            old(self).attached(),
        ensures
            final(self).attached(),
            final(self).kept(old(self)),
            r is Ok ==> final(self).followed(old(self)),
            r matches Err(error) ==> final(self).stopped(
                old(self),
                crate::Command::EnableScroll,
                error,
            ),
            r is Ok ==> forall|error: Self::Error|
                #[trigger] final(self).failures(error) == old(self).failures(error),
            r matches Err(error) ==> old(self).failures(error) < final(self).failures(error),
            forall|error: Self::Error|
                old(self).failures(error) <= #[trigger] final(self).failures(error),
            crate::command::executed(
                old(self).history(),
                old(self).mode(),
                crate::Command::EnableScroll,
                r is Ok,
                final(self).history(),
                final(self).mode(),
            ),
    {
        Execute::execute_ext(self, Command::EnableScroll)
    }

    /// Select the Character Generator RAM (CGRAM)
    fn enable_cgram(&mut self) -> (r: Result<(), Self::Error>)
        requires
            old(self).attached(),
        ensures
            final(self).attached(),
            final(self).kept(old(self)),
            r is Ok ==> final(self).followed(old(self)),
            r matches Err(error) ==> final(self).stopped(
                old(self),
                crate::Command::EnableCgRam,
                error,
            ),
            r is Ok ==> forall|error: Self::Error|
                #[trigger] final(self).failures(error) == old(self).failures(error),
            r matches Err(error) ==> old(self).failures(error) < final(self).failures(error),
            forall|error: Self::Error|
                old(self).failures(error) <= #[trigger] final(self).failures(error),
            crate::command::executed(
                old(self).history(),
                old(self).mode(),
                crate::Command::EnableCgRam,
                r is Ok,
                final(self).history(),
                final(self).mode(),
            ),
    {
        Execute::execute_ext(self, Command::EnableCgRam)
    }

    /// Reverse the pixels of the given line
    fn reverse(&mut self, line: u8) -> (r: Result<(), Self::Error>)
        requires
            old(self).attached(),
        ensures
            final(self).attached(),
            final(self).kept(old(self)),
            r is Ok ==> final(self).followed(old(self)),
            r matches Err(error) ==> final(self).stopped(
                old(self),
                crate::Command::Reverse(line),
                error,
            ),
            r is Ok ==> forall|error: Self::Error|
                #[trigger] final(self).failures(error) == old(self).failures(error),
            r matches Err(error) ==> old(self).failures(error) < final(self).failures(error),
            forall|error: Self::Error|
                old(self).failures(error) <= #[trigger] final(self).failures(error),
            crate::command::executed(
                old(self).history(),
                old(self).mode(),
                crate::Command::Reverse(line),
                r is Ok,
                final(self).history(),
                final(self).mode(),
            ),
    {
        Execute::execute_ext(self, Command::Reverse(line))
    }

    /// Select the _Extended instruction set_
    fn select_extended(&mut self) -> (r: Result<(), Self::Error>)
        requires
            old(self).attached(),
        ensures
            final(self).attached(),
            final(self).kept(old(self)),
            r is Ok ==> final(self).followed(old(self)),
            r matches Err(error) ==> final(self).stopped(
                old(self),
                crate::Command::SelectExtended,
                error,
            ),
            r is Ok ==> forall|error: Self::Error|
                #[trigger] final(self).failures(error) == old(self).failures(error),
            r matches Err(error) ==> old(self).failures(error) < final(self).failures(error),
            forall|error: Self::Error|
                old(self).failures(error) <= #[trigger] final(self).failures(error),
            crate::command::executed(
                old(self).history(),
                old(self).mode(),
                crate::Command::SelectExtended,
                r is Ok,
                final(self).history(),
                final(self).mode(),
            ),
    {
        Execute::execute_ext(self, Command::SelectExtended)
    }

    /// Select the _Graphic instruction set_
    fn select_graphic(&mut self) -> (r: Result<(), Self::Error>)
        requires
            old(self).attached(),
        ensures
            final(self).attached(),
            final(self).kept(old(self)),
            r is Ok ==> final(self).followed(old(self)),
            r matches Err(error) ==> final(self).stopped(
                old(self),
                crate::Command::SelectGraphic,
                error,
            ),
            r is Ok ==> forall|error: Self::Error|
                #[trigger] final(self).failures(error) == old(self).failures(error),
            r matches Err(error) ==> old(self).failures(error) < final(self).failures(error),
            forall|error: Self::Error|
                old(self).failures(error) <= #[trigger] final(self).failures(error),
            crate::command::executed(
                old(self).history(),
                old(self).mode(),
                crate::Command::SelectGraphic,
                r is Ok,
                final(self).history(),
                final(self).mode(),
            ),
    {
        Execute::execute_ext(self, Command::SelectGraphic)
    }

    /// Set the vertical scroll offset
    fn scroll_offset(&mut self, offset: u8) -> (r: Result<(), Self::Error>)
        requires
            old(self).attached(),
        ensures
            final(self).attached(),
            final(self).kept(old(self)),
            r is Ok ==> final(self).followed(old(self)),
            r matches Err(error) ==> final(self).stopped(
                old(self),
                crate::Command::ScrollOffset(offset),
                error,
            ),
            r is Ok ==> forall|error: Self::Error|
                #[trigger] final(self).failures(error) == old(self).failures(error),
            r matches Err(error) ==> old(self).failures(error) < final(self).failures(error),
            forall|error: Self::Error|
                old(self).failures(error) <= #[trigger] final(self).failures(error),
            crate::command::executed(
                old(self).history(),
                old(self).mode(),
                crate::Command::ScrollOffset(offset),
                r is Ok,
                final(self).history(),
                final(self).mode(),
            ),
    {
        Execute::execute_ext(self, Command::ScrollOffset(offset))
    }

    /// Set the Graphic RAM address
    fn graphic_ram_addr(&mut self, x: u8, y: u8) -> (r: Result<(), Self::Error>)
        requires
            old(self).attached(),
        ensures
            final(self).attached(),
            final(self).kept(old(self)),
            r is Ok ==> final(self).followed(old(self)),
            r matches Err(error) ==> final(self).stopped(
                old(self),
                (crate::Command::GraphicRamAddr { y, x }),
                error,
            ),
            r is Ok ==> forall|error: Self::Error|
                #[trigger] final(self).failures(error) == old(self).failures(error),
            r matches Err(error) ==> old(self).failures(error) < final(self).failures(error),
            forall|error: Self::Error|
                old(self).failures(error) <= #[trigger] final(self).failures(error),
            crate::command::executed(
                old(self).history(),
                old(self).mode(),
                (crate::Command::GraphicRamAddr { y, x }),
                r is Ok,
                final(self).history(),
                final(self).mode(),
            ),
    {
        Execute::execute_ext(self, Command::GraphicRamAddr { y, x })
    }
}

impl<T: crate::Execute> Execute for T {

}

} // verus!
