//! The display's operations for buses that cannot fail: each returns what the operation
//! of the same name returns when it succeeds.

use crate::command::executed;
use vstd::prelude::*;

verus! {

/// Whether `result` is `Ok` and holds `value`.
pub open spec fn holds<T, E>(result: Result<T, E>, value: T) -> bool {
    result matches Ok(held) && held == value
}

/// An error that cannot happen.
pub trait Infallible: Sized {
    /// The value of a result whose error cannot happen.
    fn settle<T>(result: Result<T, Self>) -> (value: T)
        ensures
            holds(result, value),
    ;
}

impl Infallible for core::convert::Infallible {
    fn settle<T>(result: Result<T, Self>) -> (value: T) {
        unwrap_never(result)
    }
}

/// `Result::unwrap`, on a result whose error is `core::convert::Infallible`. The standard
/// library documents that type as one of which no value can exist: every such result is `Ok`,
/// and `unwrap` hands out what it holds.
#[verifier::external_body]
fn unwrap_never<T>(result: Result<T, core::convert::Infallible>) -> (value: T)
    ensures
        holds(result, value),
{
    result.unwrap()
}

/// A display that executes the instructions of the Basic set and cannot fail.
pub trait Execute: crate::Execute where <Self as crate::Execute>::Error: Infallible {
    /// Sends the display `command`, after the instructions that bring it to a set in which
    /// it takes `command`.
    fn execute(&mut self, command: crate::Command)
        requires
            old(self).attached(),
        ensures
            final(self).attached(),
            final(self).kept(old(self)),
            final(self).followed(old(self)),
            executed(
                old(self).history(),
                old(self).mode(),
                command,
                true,
                final(self).history(),
                final(self).mode(),
            ),
    ;

    /// Write into the currently selected RAM
    fn write(&mut self, data: u16)
        requires
            old(self).attached(),
        ensures
            final(self).attached(),
            final(self).kept(old(self)),
            final(self).followed(old(self)),
            executed(
                old(self).history(),
                old(self).mode(),
                crate::Command::Write(data),
                true,
                final(self).history(),
                final(self).mode(),
            ),
    ;

    /// Clear the contents of the display.
    fn clear(&mut self)
        requires
            old(self).attached(),
        ensures
            final(self).attached(),
            final(self).kept(old(self)),
            final(self).followed(old(self)),
            executed(
                old(self).history(),
                old(self).mode(),
                crate::Command::Clear,
                true,
                final(self).history(),
                final(self).mode(),
            ),
    ;

    /// Reset the display shift and the Address Counter
    fn home(&mut self)
        requires
            old(self).attached(),
        ensures
            final(self).attached(),
            final(self).kept(old(self)),
            final(self).followed(old(self)),
            executed(
                old(self).history(),
                old(self).mode(),
                crate::Command::Home,
                true,
                final(self).history(),
                final(self).mode(),
            ),
    ;

    /// Chose the behaviour after a read or write operation
    fn entry_mode(&mut self, increment: bool, shift: bool)
        requires
            old(self).attached(),
        ensures
            final(self).attached(),
            final(self).kept(old(self)),
            final(self).followed(old(self)),
            executed(
                old(self).history(),
                old(self).mode(),
                (crate::Command::EntryMode { increment, shift }),
                true,
                final(self).history(),
                final(self).mode(),
            ),
    ;

    /// Enable or disable different parts of the LCD controller
    fn display_on_off(&mut self, display: bool, cursor: bool, blink: bool)
        requires
            old(self).attached(),
        ensures
            final(self).attached(),
            final(self).kept(old(self)),
            final(self).followed(old(self)),
            executed(
                old(self).history(),
                old(self).mode(),
                (crate::Command::DisplayOnOff { display, cursor, blink }),
                true,
                final(self).history(),
                final(self).mode(),
            ),
    ;

    /// Move either the cursor or the entire display contents by 1
    /// to the left or right
    fn cursor_display_ctrl(&mut self, sc: bool, rl: bool)
        requires
            old(self).attached(),
        ensures
            final(self).attached(),
            final(self).kept(old(self)),
            final(self).followed(old(self)),
            executed(
                old(self).history(),
                old(self).mode(),
                (crate::Command::CursorDisplayCtrl { sc, rl }),
                true,
                final(self).history(),
                final(self).mode(),
            ),
    ;

    /// Select the _Basic instruction set_
    fn select_basic(&mut self)
        requires
            old(self).attached(),
        ensures
            final(self).attached(),
            final(self).kept(old(self)),
            final(self).followed(old(self)),
            executed(
                old(self).history(),
                old(self).mode(),
                crate::Command::SelectBasic,
                true,
                final(self).history(),
                final(self).mode(),
            ),
    ;

    /// Set the Character Generator RAM (CGRAM) address
    fn cgram_addr(&mut self, addr: u8)
        requires
            old(self).attached(),
        ensures
            final(self).attached(),
            final(self).kept(old(self)),
            final(self).followed(old(self)),
            executed(
                old(self).history(),
                old(self).mode(),
                crate::Command::CgRamAddr(addr),
                true,
                final(self).history(),
                final(self).mode(),
            ),
    ;

    /// Set the Display Data RAM (DDRAM) address
    fn ddram_addr(&mut self, addr: u8)
        requires
            old(self).attached(),
        ensures
            final(self).attached(),
            final(self).kept(old(self)),
            final(self).followed(old(self)),
            executed(
                old(self).history(),
                old(self).mode(),
                crate::Command::DdRamAddr(addr),
                true,
                final(self).history(),
                final(self).mode(),
            ),
    ;
}

impl<E: crate::Execute> Execute for E where E::Error: Infallible {
    fn execute(&mut self, command: crate::Command) {
        E::Error::settle(crate::Execute::execute(self, command))
    }

    fn write(&mut self, data: u16) {
        E::Error::settle(crate::Execute::write(self, data))
    }

    fn clear(&mut self) {
        E::Error::settle(crate::Execute::clear(self))
    }

    fn home(&mut self) {
        E::Error::settle(crate::Execute::home(self))
    }

    fn entry_mode(&mut self, increment: bool, shift: bool) {
        E::Error::settle(crate::Execute::entry_mode(self, increment, shift))
    }

    fn display_on_off(&mut self, display: bool, cursor: bool, blink: bool) {
        E::Error::settle(crate::Execute::display_on_off(self, display, cursor, blink))
    }

    fn cursor_display_ctrl(&mut self, sc: bool, rl: bool) {
        E::Error::settle(crate::Execute::cursor_display_ctrl(self, sc, rl))
    }

    fn select_basic(&mut self) {
        E::Error::settle(crate::Execute::select_basic(self))
    }

    fn cgram_addr(&mut self, addr: u8) {
        E::Error::settle(crate::Execute::cgram_addr(self, addr))
    }

    fn ddram_addr(&mut self, addr: u8) {
        E::Error::settle(crate::Execute::ddram_addr(self, addr))
    }
}

/// A display that executes the instructions of the Extended and the Graphic set and cannot
/// fail.
pub trait ExecuteExt: crate::ext::Execute where <Self as crate::Execute>::Error: Infallible {
    /// Sends the display `command`, after the instructions that bring it to a set in which
    /// it takes `command`.
    fn execute(&mut self, command: crate::ext::Command)
        requires
            old(self).attached(),
        ensures
            final(self).attached(),
            final(self).kept(old(self)),
            final(self).followed(old(self)),
            executed(
                old(self).history(),
                old(self).mode(),
                command.spec_widen(),
                true,
                final(self).history(),
                final(self).mode(),
            ),
    ;

    /// Enter stand-by
    fn stand_by(&mut self)
        requires
            old(self).attached(),
        ensures
            final(self).attached(),
            final(self).kept(old(self)),
            final(self).followed(old(self)),
            executed(
                old(self).history(),
                old(self).mode(),
                crate::Command::StandBy,
                true,
                final(self).history(),
                final(self).mode(),
            ),
    ;

    /// Enable the vertical scroll
    fn enable_scroll(&mut self)
        requires
            old(self).attached(),
        ensures
            final(self).attached(),
            final(self).kept(old(self)),
            final(self).followed(old(self)),
            executed(
                old(self).history(),
                old(self).mode(),
                crate::Command::EnableScroll,
                true,
                final(self).history(),
                final(self).mode(),
            ),
    ;

    /// Select the Character Generator RAM (CGRAM)
    fn enable_cgram(&mut self)
        requires
            old(self).attached(),
        ensures
            final(self).attached(),
            final(self).kept(old(self)),
            final(self).followed(old(self)),
            executed(
                old(self).history(),
                old(self).mode(),
                crate::Command::EnableCgRam,
                true,
                final(self).history(),
                final(self).mode(),
            ),
    ;

    /// Reverse the pixels of the given line
    fn reverse(&mut self, line: u8)
        requires
            old(self).attached(),
        ensures
            final(self).attached(),
            final(self).kept(old(self)),
            final(self).followed(old(self)),
            executed(
                old(self).history(),
                old(self).mode(),
                crate::Command::Reverse(line),
                true,
                final(self).history(),
                final(self).mode(),
            ),
    ;

    /// Select the _Extended instruction set_
    fn select_extended(&mut self)
        requires
            old(self).attached(),
        ensures
            final(self).attached(),
            final(self).kept(old(self)),
            final(self).followed(old(self)),
            executed(
                old(self).history(),
                old(self).mode(),
                crate::Command::SelectExtended,
                true,
                final(self).history(),
                final(self).mode(),
            ),
    ;

    /// Select the _Graphic instruction set_
    fn select_graphic(&mut self)
        requires
            old(self).attached(),
        ensures
            final(self).attached(),
            final(self).kept(old(self)),
            final(self).followed(old(self)),
            executed(
                old(self).history(),
                old(self).mode(),
                crate::Command::SelectGraphic,
                true,
                final(self).history(),
                final(self).mode(),
            ),
    ;

    /// Set the vertical scroll offset
    fn scroll_offset(&mut self, offset: u8)
        requires
            old(self).attached(),
        ensures
            final(self).attached(),
            final(self).kept(old(self)),
            final(self).followed(old(self)),
            executed(
                old(self).history(),
                old(self).mode(),
                crate::Command::ScrollOffset(offset),
                true,
                final(self).history(),
                final(self).mode(),
            ),
    ;

    /// Set the Graphic RAM address
    fn graphic_ram_addr(&mut self, x: u8, y: u8)
        requires
            old(self).attached(),
        ensures
            final(self).attached(),
            final(self).kept(old(self)),
            final(self).followed(old(self)),
            executed(
                old(self).history(),
                old(self).mode(),
                (crate::Command::GraphicRamAddr { y, x }),
                true,
                final(self).history(),
                final(self).mode(),
            ),
    ;
}

impl<E: crate::ext::Execute> ExecuteExt for E where E::Error: Infallible {
    fn execute(&mut self, command: crate::ext::Command) {
        E::Error::settle(crate::ext::Execute::execute_ext(self, command))
    }

    fn stand_by(&mut self) {
        E::Error::settle(crate::ext::Execute::stand_by(self))
    }

    fn enable_scroll(&mut self) {
        E::Error::settle(crate::ext::Execute::enable_scroll(self))
    }

    fn enable_cgram(&mut self) {
        E::Error::settle(crate::ext::Execute::enable_cgram(self))
    }

    fn reverse(&mut self, line: u8) {
        E::Error::settle(crate::ext::Execute::reverse(self, line))
    }

    fn select_extended(&mut self) {
        E::Error::settle(crate::ext::Execute::select_extended(self))
    }

    fn select_graphic(&mut self) {
        E::Error::settle(crate::ext::Execute::select_graphic(self))
    }

    fn scroll_offset(&mut self, offset: u8) {
        E::Error::settle(crate::ext::Execute::scroll_offset(self, offset))
    }

    fn graphic_ram_addr(&mut self, x: u8, y: u8) {
        E::Error::settle(crate::ext::Execute::graphic_ram_addr(self, x, y))
    }
}

/// A display that can be read and cannot fail.
pub trait ExecuteRead: crate::Attached {
    /// The bytes that the display has answered with, oldest first.
    spec fn answers(&self) -> Seq<u8>;

    /// Whether the display, which was `before`, has since been left to itself or been read
    /// as its bus allows.
    spec fn spared(&self, before: &Self) -> bool;

    /// Whether the display, which was `before`, has since been read once, as its bus reads:
    /// its status register where `status` holds, and else a word of its RAM.
    spec fn answered(&self, before: &Self, status: bool) -> bool;

    /// Reads a word from the currently selected RAM.
    fn read(&mut self) -> (word: u16)
        requires
            old(self).attached(),
        ensures
            final(self).attached(),
            final(self).spared(old(self)),
            final(self).answered(old(self), false),
            final(self).answers() == old(self).answers().push((word >> 8) as u8).push(
                (word & 0xFF) as u8,
            ),
    ;

    /// Reads the busy flag and the address counter.
    fn read_bf_ac(&mut self) -> (read: (bool, u8))
        requires
            old(self).attached(),
        ensures
            final(self).attached(),
            final(self).spared(old(self)),
            final(self).answered(old(self), true),
            final(self).answers().len() == old(self).answers().len() + 1,
            final(self).answers().drop_last() == old(self).answers(),
            read == crate::command::spec_status(final(self).answers().last()),
    ;

    /// Reads the address counter.
    fn read_address_counter(&mut self) -> (counter: u8)
        requires
            old(self).attached(),
        ensures
            final(self).attached(),
            final(self).spared(old(self)),
            final(self).answered(old(self), true),
            final(self).answers().len() == old(self).answers().len() + 1,
            final(self).answers().drop_last() == old(self).answers(),
            counter == crate::command::spec_status(final(self).answers().last()).1,
    ;

    /// Reads the busy flag.
    fn read_busy_flag(&mut self) -> (busy: bool)
        requires
            old(self).attached(),
        ensures
            final(self).attached(),
            final(self).spared(old(self)),
            final(self).answered(old(self), true),
            final(self).answers().len() == old(self).answers().len() + 1,
            final(self).answers().drop_last() == old(self).answers(),
            busy == crate::command::spec_status(final(self).answers().last()).0,
    ;
}

impl<E: crate::ExecuteRead> ExecuteRead for E where E::Error: Infallible {
    open spec fn answers(&self) -> Seq<u8> {
        crate::ExecuteRead::answers(self)
    }

    open spec fn spared(&self, before: &Self) -> bool {
        crate::ExecuteRead::spared(self, before)
    }

    open spec fn answered(&self, before: &Self, status: bool) -> bool {
        crate::ExecuteRead::answered(self, before, status)
    }

    fn read(&mut self) -> (word: u16) {
        E::Error::settle(crate::ExecuteRead::read(self))
    }

    fn read_bf_ac(&mut self) -> (read: (bool, u8)) {
        E::Error::settle(crate::ExecuteRead::read_bf_ac(self))
    }

    fn read_address_counter(&mut self) -> (counter: u8) {
        E::Error::settle(crate::ExecuteRead::read_address_counter(self))
    }

    fn read_busy_flag(&mut self) -> (busy: bool) {
        E::Error::settle(crate::ExecuteRead::read_busy_flag(self))
    }
}

} // verus!
