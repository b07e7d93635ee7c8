//! The instruction set of the ST7920, with the wire encoding and the execution time of each
//! instruction.

use crate::mode::Mode;
use crate::Attached;
use vstd::prelude::*;

verus! {

/// Execution time of [`Command::Clear`], in microseconds.
pub const CLEAR_TIME: u32 = 1_600;

/// Execution time of every instruction but [`Command::Clear`], in microseconds.
pub const DEFAULT_TIME: u32 = 72;

/// The flag `v` as a single bit at position `at` of a byte.
pub open spec fn spec_bit(v: bool, at: u8) -> u8 {
    if v {
        1u8 << at
    } else {
        0u8
    }
}

/// Moves the flag `v` to position `at` of a byte.
pub fn bit(v: bool, at: u8) -> (r: u8)
    requires
        at < 8,
    ensures
        r == spec_bit(v, at),
{
    if v {
        1u8 << at
    } else {
        0u8
    }
}

/// One instruction of the ST7920.
#[derive(Clone, Copy, Debug, PartialEq, Eq, Structural)]
pub enum Command {
    /// Write into the currently selected RAM
    Write(u16),
    // - - - - - - -BASIC - - - - - - -
    /// Clear the contents of the display.
    ///
    /// Instruction Set: **Basic**
    ///
    /// This command sets all the DDRAM to `0x20` (ASCII space),
    /// resets the Address Counter to 0, and resets the
    /// currently applied display shift.
    Clear,
    /// Reset the display shift and the Address Counter
    ///
    /// Instruction Set: **Basic**
    Home,
    /// Chose the behaviour after a read or write operation
    ///
    /// Instruction Set: **Basic**
    EntryMode {
        /// Whether the Address Counter is incremented (`true`)
        /// or decremented (`false`) after each read or write operation.
        increment: bool,
        /// Whether the whole DDRAM display contents is shifted in
        /// the direction of the Address Counter.
        shift: bool,
    },
    /// Enable or disable different parts of the LCD controller
    ///
    /// Instruction Set: **Basic**
    DisplayOnOff { display: bool, cursor: bool, blink: bool },
    /// Move either the cursor or the entire display contents by 1
    /// to the left or right
    ///
    /// Instruction Set: **Basic**
    CursorDisplayCtrl {
        /// Shift by 1 the display (`true`) or the cursor (`false`)
        sc: bool,
        /// Right (`true`) or left (`false`)
        rl: bool,
    },
    /// Select the _Basic instruction set_
    SelectBasic,
    /// Set the Character Generator RAM (CGRAM) address
    ///
    /// Instruction Set: **Basic**
    CgRamAddr(u8),
    /// Set the Display Data RAM (DDRAM) address
    ///
    /// Instruction Set: **Basic**
    DdRamAddr(u8),
    // - - - - - - EXTENDED - - - - - -
    /// Enter stand-by; any other instruction leaves it
    ///
    /// Instruction Set: **Extended**
    StandBy,
    /// Enable the [`ScrollOffset`](Command::ScrollOffset) command
    ///
    /// Instruction Set: **Extended**
    EnableScroll,
    /// Select the Character Generator RAM (CGRAM)
    ///
    /// Instruction Set: **Extended**
    EnableCgRam,
    /// Reverse the pixels of the given line
    ///
    /// Instruction Set: **Extended**
    Reverse(u8),
    /// Select the _Extended instruction set_
    SelectExtended,
    /// Select the _Graphic instruction set_
    SelectGraphic,
    /// Set the vertical scroll offset
    ///
    /// Instruction Set: **Extended**
    ScrollOffset(u8),
    /// Set the Graphic RAM address
    ///
    /// Instruction Set: **Graphic**
    GraphicRamAddr { y: u8, x: u8 },
}

impl Command {
    /// Execution time in microseconds: 1600 for `Clear`, 72 for every other instruction.
    pub open spec fn spec_execution_time(self) -> u32 {
        if self is Clear {
            CLEAR_TIME
        } else {
            DEFAULT_TIME
        }
    }

    /// Execution time of the [`Command`] in microseconds
    #[verifier::when_used_as_spec(spec_execution_time)]
    pub fn execution_time(self) -> (t: u32)
        ensures
            t == self.spec_execution_time(),
    {
        match self {
            Command::Clear => CLEAR_TIME,
            _ => DEFAULT_TIME,
        }
    }

    /// The bytes that carry the instruction to the instruction register: the opcode with the
    /// parameter bits at their places. `GraphicRamAddr` takes two bytes, the vertical address
    /// first; every other instruction takes one. `Write` has no opcode: its sequence is empty.
    pub open spec fn opcode(self) -> Seq<u8> {
        match self {
            Command::Write(_) => seq![],
            Command::Clear => seq![0x01u8],
            Command::Home => seq![0x02u8],
            Command::EntryMode { increment, shift } => seq![
                0x04u8 | spec_bit(increment, 1) | spec_bit(shift, 0),
            ],
            Command::DisplayOnOff { display, cursor, blink } => seq![
                0x08u8 | spec_bit(display, 2) | spec_bit(cursor, 1) | spec_bit(blink, 0),
            ],
            Command::CursorDisplayCtrl { sc, rl } => seq![
                0x10u8 | spec_bit(sc, 3) | spec_bit(rl, 2),
            ],
            Command::SelectBasic => seq![0x20u8],
            Command::CgRamAddr(addr) => seq![0x40u8 | (addr & 0x3f)],
            Command::DdRamAddr(addr) => seq![0x80u8 | (addr & 0x7f)],
            Command::StandBy => seq![0x01u8],
            Command::EnableScroll => seq![0x03u8],
            Command::EnableCgRam => seq![0x02u8],
            Command::Reverse(line) => seq![0x04u8 | (line & 0x03)],
            Command::SelectExtended => seq![0x24u8],
            Command::SelectGraphic => seq![0x26u8],
            Command::ScrollOffset(offset) => seq![0x40u8 | (offset & 0x1f)],
            Command::GraphicRamAddr { y, x } => seq![0x80u8 | (y & 0x0f), 0x80u8 | (x & 0x3f)],
        }
    }

    /// The instruction as two bytes: its opcode, followed by `0` where the opcode is one byte.
    pub fn into_bytes(self) -> (r: [u8; 2])
        requires
            !(self is Write),
        ensures
            r[0] == self.opcode()[0],
            self.opcode().len() == 2 ==> r[1] == self.opcode()[1] && r[1] != 0,
            self.opcode().len() == 1 ==> r[1] == 0,
    {
        let byte: u8 = match self {
            Command::Write(_) => 0,
            Command::Clear => 0b1,
            Command::Home => 0b10,
            Command::EntryMode { increment: i, shift: s } => 0b0100 | bit(i, 1) | bit(s, 0),
            Command::DisplayOnOff { display: d, cursor: c, blink: b } => 0b1000 | bit(d, 2) | bit(
                c,
                1,
            ) | bit(b, 0),
            Command::CursorDisplayCtrl { sc, rl } => 0b10000 | bit(sc, 3) | bit(rl, 2),
            Command::SelectBasic => 0b100000,
            Command::CgRamAddr(addr) => 0b01000000 | (addr & 0b0111111),
            Command::DdRamAddr(addr) => 0b10000000 | (addr & 0b1111111),
            Command::StandBy => 0b1,
            Command::EnableScroll => 0b11,
            Command::EnableCgRam => 0b10,
            Command::Reverse(line) => 0b100 | (line & 0b11),
            Command::SelectExtended => 0b100100,
            Command::SelectGraphic => 0b100110,
            Command::ScrollOffset(offset) => 0b1000000 | (offset & 0b11111),
            Command::GraphicRamAddr { y, x } => {
                let second: u8 = 0b10000000 | (x & 0b111111);
                assert(second != 0) by (bit_vector)
                    requires
                        second == 0b10000000u8 | (x & 0b111111u8),
                ;
                return [0b10000000 | (y & 0b1111), second];
            },
        };
        [byte, 0]
    }
}

/// One thing that a display is put through.
#[derive(Clone, Copy, Debug, PartialEq, Eq, Structural)]
pub enum Step {
    /// The display was sent an instruction.
    Command(Command),
    /// The display was left alone for a number of microseconds.
    Pause(u32),
}

/// The instructions that a display in the set `mode` is sent for `command`: those that bring it
/// to a set in which it takes `command`, then `command` itself.
pub open spec fn issued(mode: Mode, command: Command) -> Seq<Command> {
    mode.route(command).push(command)
}

/// `commands` as steps.
pub open spec fn steps(commands: Seq<Command>) -> Seq<Step> {
    commands.map_values(|command: Command| Step::Command(command))
}

/// Whether a display with the history `before`, in the set `mode`, was sent `count` of the
/// instructions that `command` takes and is left with the history `after`, in the set `left`.
pub open spec fn sent_first(
    before: Seq<Step>,
    mode: Mode,
    command: Command,
    count: int,
    after: Seq<Step>,
    left: Mode,
) -> bool {
    &&& 0 <= count <= issued(mode, command).len()
    &&& after == before + steps(issued(mode, command).take(count))
    &&& left == mode.after_all(issued(mode, command).take(count))
}

/// A display that was sent nothing of what `command` takes is as it was.
pub proof fn lemma_sent_none(before: Seq<Step>, mode: Mode, command: Command)
    ensures
        sent_first(before, mode, command, 0, before, mode),
{
    let none = issued(mode, command).take(0);
    assert(none =~= Seq::<Command>::empty());
    assert(before + steps(none) =~= before);
    crate::mode::lemma_after_one_more(mode, none, command);
}

/// A display that was sent the first `count` of the instructions that `command` takes, and then
/// the next, was sent the first `count + 1`.
pub proof fn lemma_sent_next(
    before: Seq<Step>,
    mode: Mode,
    command: Command,
    count: int,
    after: Seq<Step>,
    left: Mode,
)
    requires
        sent_first(before, mode, command, count, after, left),
        count < issued(mode, command).len(),
    ensures
        sent_first(
            before,
            mode,
            command,
            count + 1,
            after.push(Step::Command(issued(mode, command)[count])),
            left.spec_after(issued(mode, command)[count]),
        ),
{
    let all = issued(mode, command);
    let next = all[count];
    assert(all.take(count + 1) =~= all.take(count).push(next));
    assert(steps(all.take(count).push(next)) =~= steps(all.take(count)).push(Step::Command(next)));
    assert(before + steps(all.take(count)).push(Step::Command(next)) =~= (before + steps(
        all.take(count),
    )).push(Step::Command(next)));
    crate::mode::lemma_after_one_more(mode, all.take(count), next);
}

/// A display that was sent all of the instructions that `command` takes has executed it.
pub proof fn lemma_sent_all(
    before: Seq<Step>,
    mode: Mode,
    command: Command,
    after: Seq<Step>,
    left: Mode,
)
    requires
        sent_first(before, mode, command, issued(mode, command).len() as int, after, left),
    ensures
        executed(before, mode, command, true, after, left),
        after == before + steps(issued(mode, command)),
        left == mode.settled(command),
{
    reveal(executed);
    let all = issued(mode, command);
    assert(all.take(all.len() as int) =~= all);
    lemma_settled(mode, command);
}

/// The instructions that lead to a set in which the chip takes `command`, followed by
/// `command`, leave the chip in the set that `command` selects or in the set in which the
/// chip took it; `Write` leaves it where it was.
pub proof fn lemma_settled(mode: Mode, command: Command)
    ensures
        mode.after_all(issued(mode, command)) == mode.settled(command),
{
    let route = mode.route(command);
    let all = issued(mode, command);
    reveal_with_fuel(Mode::after_all, 4);
    if route.len() == 0 {
        assert(all.drop_last() =~= seq![]);
    } else if route.len() == 1 {
        assert(all.drop_last() =~= seq![route[0]]);
        assert(all.drop_last().drop_last() =~= seq![]);
    } else {
        assert(all.drop_last() =~= seq![route[0], route[1]]);
        assert(all.drop_last().drop_last() =~= seq![route[0]]);
        assert(all.drop_last().drop_last().drop_last() =~= seq![]);
    }
}

/// Whether a display with the history `before`, in the set `mode`, is left by an execution of
/// `command` with the history `after`, in the set `left`. Where the execution succeeded
/// (`done`), the display was sent every instruction that `command` takes from the set it was
/// in. Where it failed, the display was sent some of them, but not the last.
#[verifier::opaque]
pub open spec fn executed(
    before: Seq<Step>,
    mode: Mode,
    command: Command,
    done: bool,
    after: Seq<Step>,
    left: Mode,
) -> bool {
    if done {
        sent_first(before, mode, command, issued(mode, command).len() as int, after, left)
    } else {
        exists|count: int|
            count < issued(mode, command).len() && #[trigger] sent_first(
                before,
                mode,
                command,
                count,
                after,
                left,
            )
    }
}

/// A display that was sent some, but not all, of the instructions that `command` takes has
/// failed to execute it.
pub proof fn lemma_sent_some(
    before: Seq<Step>,
    mode: Mode,
    command: Command,
    count: int,
    after: Seq<Step>,
    left: Mode,
)
    requires
        sent_first(before, mode, command, count, after, left),
        count < issued(mode, command).len(),
    ensures
        executed(before, mode, command, false, after, left),
{
    reveal(executed);
}

/// What an execution that succeeded has done: the display was sent the instructions that lead
/// to a set in which it takes `command`, and then `command`, and is in the set that `command`
/// selects or in which it took it.
pub proof fn lemma_executed_done(
    before: Seq<Step>,
    mode: Mode,
    command: Command,
    after: Seq<Step>,
    left: Mode,
)
    requires
        executed(before, mode, command, true, after, left),
    ensures
        after == before + steps(issued(mode, command)),
        left == mode.settled(command),
        mode.spec_bridge(command) is None ==> after == before.push(Step::Command(command)),
{
    reveal(executed);
    lemma_sent_all(before, mode, command, after, left);
    if mode.spec_bridge(command) is None {
        assert(steps(issued(mode, command)) =~= seq![Step::Command(command)]);
        assert(before + seq![Step::Command(command)] =~= before.push(Step::Command(command)));
    }
}

/// What an execution that failed has done: the display was sent some of the instructions that
/// `command` takes, but not the last, or none: none at all where `command` goes out alone.
pub proof fn lemma_executed_failed(
    before: Seq<Step>,
    mode: Mode,
    command: Command,
    after: Seq<Step>,
    left: Mode,
)
    requires
        executed(before, mode, command, false, after, left),
    ensures
        before.is_prefix_of(after),
        exists|count: int|
            0 <= count < issued(mode, command).len() && after == before + #[trigger] steps(
                issued(mode, command),
            ).take(count),
        mode.spec_bridge(command) is None ==> after == before && left == mode,
{
    reveal(executed);
    let count = choose|count: int|
        count < issued(mode, command).len() && #[trigger] sent_first(
            before,
            mode,
            command,
            count,
            after,
            left,
        );
    assert(after.subrange(0, before.len() as int) =~= before);
    assert(steps(issued(mode, command).take(count)) =~= steps(issued(mode, command)).take(count));
    if mode.spec_bridge(command) is None {
        assert(issued(mode, command).take(count) =~= Seq::<Command>::empty());
        assert(before + steps(issued(mode, command).take(count)) =~= before);
        crate::mode::lemma_after_one_more(mode, Seq::<Command>::empty(), command);
    }
}

/// What an execution has done, by whether it succeeded.
pub proof fn lemma_executed_done_or_failed(
    before: Seq<Step>,
    mode: Mode,
    command: Command,
    done: bool,
    after: Seq<Step>,
    left: Mode,
)
    requires
        executed(before, mode, command, done, after, left),
    ensures
        before.is_prefix_of(after),
        done ==> after == before + steps(issued(mode, command)) && left == mode.settled(command),
        done && mode.spec_bridge(command) is None ==> after == before.push(Step::Command(command)),
        !done ==> exists|count: int|
            0 <= count < issued(mode, command).len() && after == before + #[trigger] steps(
                issued(mode, command),
            ).take(count),
        !done && mode.spec_bridge(command) is None ==> after == before && left == mode,
{
    if done {
        lemma_executed_done(before, mode, command, after, left);
        assert(after.subrange(0, before.len() as int) =~= before);
    } else {
        lemma_executed_failed(before, mode, command, after, left);
    }
}

/// The instructions among `steps`, in order.
pub open spec fn commands(steps: Seq<Step>) -> Seq<Command>
    decreases steps.len(),
{
    if steps.len() == 0 {
        Seq::empty()
    } else {
        match steps.last() {
            Step::Command(command) => commands(steps.drop_last()).push(command),
            Step::Pause(_) => commands(steps.drop_last()),
        }
    }
}

/// The instructions among steps that are instructions are all of them.
pub proof fn lemma_commands_of_steps(sent: Seq<Command>)
    ensures
        commands(steps(sent)) == sent,
    decreases sent.len(),
{
    if sent.len() > 0 {
        lemma_commands_of_steps(sent.drop_last());
        assert(steps(sent).drop_last() =~= steps(sent.drop_last()));
        assert(commands(steps(sent)) =~= sent);
    } else {
        assert(commands(steps(sent)) =~= sent);
    }
}

/// The instructions among steps that follow other steps follow the instructions among
/// those.
pub proof fn lemma_commands_of_both(first: Seq<Step>, second: Seq<Step>)
    ensures
        commands(first + second) == commands(first) + commands(second),
    decreases second.len(),
{
    if second.len() == 0 {
        assert(first + second =~= first);
        assert(commands(first) + commands(second) =~= commands(first));
    } else {
        lemma_commands_of_both(first, second.drop_last());
        assert((first + second).drop_last() =~= first + second.drop_last());
        assert((first + second).last() == second.last());
        assert(commands(first + second) =~= commands(first) + commands(second));
    }
}

/// What a history has more than an earlier one.
pub open spec fn added(before: Seq<Step>, after: Seq<Step>) -> Seq<Step> {
    after.skip(before.len() as int)
}

/// What the histories of three states, one after the other, have more than each other: the
/// instructions added from the first to the third are those added from the first to the
/// second, followed by those added from the second to the third.
pub proof fn lemma_added_twice(first: Seq<Step>, second: Seq<Step>, third: Seq<Step>)
    requires
        first.is_prefix_of(second),
        second.is_prefix_of(third),
    ensures
        first.is_prefix_of(third),
        commands(added(first, third)) == commands(added(first, second)) + commands(
            added(second, third),
        ),
{
    assert(third.subrange(0, first.len() as int) =~= first);
    assert(added(first, third) =~= added(first, second) + added(second, third));
    lemma_commands_of_both(added(first, second), added(second, third));
}

/// A display that executes instructions.
///
/// The display is in one of three instruction sets. Before an instruction that it does not
/// take in the set it is in, it is sent what selects a set in which it does, one set at a
/// time.
pub trait Execute: Attached + Sized {
    type Error;

    /// What the display was put through, oldest first.
    spec fn history(&self) -> Seq<Step>;

    /// The instruction set that the display is in.
    spec fn mode(&self) -> Mode;

    /// How often the display has failed with `error`.
    spec fn failures(&self, error: Self::Error) -> nat;

    /// Whether the display, which was `before`, has since been left to itself or been used
    /// as its bus allows, whatever has come of it: what that is, each bus says of its wires,
    /// its clock and the displays that it shares them with.
    spec fn kept(&self, before: &Self) -> bool;

    /// Whether the display, which was `before`, has since been sent the instructions that
    /// its history has more than that of `before`, each as its bus carries it, and nothing
    /// else.
    spec fn followed(&self, before: &Self) -> bool;

    /// Whether the display, which was `before`, has since failed to execute `command`, with
    /// `error`: what has then gone over the bus and what the display is booked for, each bus
    /// says.
    spec fn stopped(&self, before: &Self, command: Command, error: Self::Error) -> bool;

    /// What was kept twice, one time after the other, was kept.
    proof fn lemma_kept_twice(&self, first: &Self, second: &Self)
        requires
            second.kept(first),
            self.kept(second),
        ensures
            self.kept(first),
    ;

    /// What was followed twice, one time after the other, was followed.
    proof fn lemma_followed_twice(&self, first: &Self, second: &Self)
        requires
            second.followed(first),
            self.followed(second),
        ensures
            self.followed(first),
    ;

    /// Sends the display `command`, after the instructions that bring it to a set in which
    /// it takes `command`.
    fn execute(&mut self, command: Command) -> (r: Result<(), Self::Error>)
        requires
            old(self).attached(),
        ensures
            final(self).attached(),
            final(self).kept(old(self)),
            r is Ok ==> final(self).followed(old(self)),
            r matches Err(error) ==> final(self).stopped(
                old(self),
                command,
                error,
            ),
            r is Ok ==> forall|error: Self::Error|
                #[trigger] final(self).failures(error) == old(self).failures(error),
            r matches Err(error) ==> old(self).failures(error) < final(self).failures(error),
            forall|error: Self::Error|
                old(self).failures(error) <= #[trigger] final(self).failures(error),
            executed(
                old(self).history(),
                old(self).mode(),
                command,
                r is Ok,
                final(self).history(),
                final(self).mode(),
            ),
    ;

    /// Write into the currently selected RAM
    fn write(&mut self, data: u16) -> (r: Result<(), Self::Error>)
        requires
            old(self).attached(),
        ensures
            final(self).attached(),
            final(self).kept(old(self)),
            r is Ok ==> final(self).followed(old(self)),
            r matches Err(error) ==> final(self).stopped(
                old(self),
                Command::Write(data),
                error,
            ),
            r is Ok ==> forall|error: Self::Error|
                #[trigger] final(self).failures(error) == old(self).failures(error),
            r matches Err(error) ==> old(self).failures(error) < final(self).failures(error),
            forall|error: Self::Error|
                old(self).failures(error) <= #[trigger] final(self).failures(error),
            executed(
                old(self).history(),
                old(self).mode(),
                Command::Write(data),
                r is Ok,
                final(self).history(),
                final(self).mode(),
            ),
    {
        self.execute(Command::Write(data))
    }

    /// Clear the contents of the display.
    fn clear(&mut self) -> (r: Result<(), Self::Error>)
        requires
            old(self).attached(),
        ensures
            final(self).attached(),
            final(self).kept(old(self)),
            r is Ok ==> final(self).followed(old(self)),
            r matches Err(error) ==> final(self).stopped(
                old(self),
                Command::Clear,
                error,
            ),
            r is Ok ==> forall|error: Self::Error|
                #[trigger] final(self).failures(error) == old(self).failures(error),
            r matches Err(error) ==> old(self).failures(error) < final(self).failures(error),
            forall|error: Self::Error|
                old(self).failures(error) <= #[trigger] final(self).failures(error),
            executed(
                old(self).history(),
                old(self).mode(),
                Command::Clear,
                r is Ok,
                final(self).history(),
                final(self).mode(),
            ),
    {
        self.execute(Command::Clear)
    }

    /// Reset the display shift and the Address Counter
    fn home(&mut self) -> (r: Result<(), Self::Error>)
        requires
            old(self).attached(),
        ensures
            final(self).attached(),
            final(self).kept(old(self)),
            r is Ok ==> final(self).followed(old(self)),
            r matches Err(error) ==> final(self).stopped(
                old(self),
                Command::Home,
                error,
            ),
            r is Ok ==> forall|error: Self::Error|
                #[trigger] final(self).failures(error) == old(self).failures(error),
            r matches Err(error) ==> old(self).failures(error) < final(self).failures(error),
            forall|error: Self::Error|
                old(self).failures(error) <= #[trigger] final(self).failures(error),
            executed(
                old(self).history(),
                old(self).mode(),
                Command::Home,
                r is Ok,
                final(self).history(),
                final(self).mode(),
            ),
    {
        self.execute(Command::Home)
    }

    /// Chose the behaviour after a read or write operation
    fn entry_mode(&mut self, increment: bool, shift: bool) -> (r: Result<(), Self::Error>)
        requires
            old(self).attached(),
        ensures
            final(self).attached(),
            final(self).kept(old(self)),
            r is Ok ==> final(self).followed(old(self)),
            r matches Err(error) ==> final(self).stopped(
                old(self),
                (Command::EntryMode { increment, shift }),
                error,
            ),
            r is Ok ==> forall|error: Self::Error|
                #[trigger] final(self).failures(error) == old(self).failures(error),
            r matches Err(error) ==> old(self).failures(error) < final(self).failures(error),
            forall|error: Self::Error|
                old(self).failures(error) <= #[trigger] final(self).failures(error),
            executed(
                old(self).history(),
                old(self).mode(),
                (Command::EntryMode { increment, shift }),
                r is Ok,
                final(self).history(),
                final(self).mode(),
            ),
    {
        self.execute(Command::EntryMode { increment, shift })
    }

    /// Enable or disable different parts of the LCD controller
    fn display_on_off(&mut self, display: bool, cursor: bool, blink: bool) -> (r: Result<
        (),
        Self::Error,
    >)
        requires
            old(self).attached(),
        ensures
            final(self).attached(),
            final(self).kept(old(self)),
            r is Ok ==> final(self).followed(old(self)),
            r matches Err(error) ==> final(self).stopped(
                old(self),
                (Command::DisplayOnOff { display, cursor, blink }),
                error,
            ),
            r is Ok ==> forall|error: Self::Error|
                #[trigger] final(self).failures(error) == old(self).failures(error),
            r matches Err(error) ==> old(self).failures(error) < final(self).failures(error),
            forall|error: Self::Error|
                old(self).failures(error) <= #[trigger] final(self).failures(error),
            executed(
                old(self).history(),
                old(self).mode(),
                (Command::DisplayOnOff { display, cursor, blink }),
                r is Ok,
                final(self).history(),
                final(self).mode(),
            ),
    {
        self.execute(Command::DisplayOnOff { display, cursor, blink })
    }

    /// Move either the cursor or the entire display contents by 1
    /// to the left or right
    fn cursor_display_ctrl(&mut self, sc: bool, rl: bool) -> (r: Result<(), Self::Error>)
        requires
            old(self).attached(),
        ensures
            final(self).attached(),
            final(self).kept(old(self)),
            r is Ok ==> final(self).followed(old(self)),
            r matches Err(error) ==> final(self).stopped(
                old(self),
                (Command::CursorDisplayCtrl { sc, rl }),
                error,
            ),
            r is Ok ==> forall|error: Self::Error|
                #[trigger] final(self).failures(error) == old(self).failures(error),
            r matches Err(error) ==> old(self).failures(error) < final(self).failures(error),
            forall|error: Self::Error|
                old(self).failures(error) <= #[trigger] final(self).failures(error),
            executed(
                old(self).history(),
                old(self).mode(),
                (Command::CursorDisplayCtrl { sc, rl }),
                r is Ok,
                final(self).history(),
                final(self).mode(),
            ),
    {
        self.execute(Command::CursorDisplayCtrl { sc, rl })
    }

    /// Select the _Basic instruction set_
    fn select_basic(&mut self) -> (r: Result<(), Self::Error>)
        requires
            old(self).attached(),
        ensures
            final(self).attached(),
            final(self).kept(old(self)),
            r is Ok ==> final(self).followed(old(self)),
            r matches Err(error) ==> final(self).stopped(
                old(self),
                Command::SelectBasic,
                error,
            ),
            r is Ok ==> forall|error: Self::Error|
                #[trigger] final(self).failures(error) == old(self).failures(error),
            r matches Err(error) ==> old(self).failures(error) < final(self).failures(error),
            forall|error: Self::Error|
                old(self).failures(error) <= #[trigger] final(self).failures(error),
            executed(
                old(self).history(),
                old(self).mode(),
                Command::SelectBasic,
                r is Ok,
                final(self).history(),
                final(self).mode(),
            ),
    {
        self.execute(Command::SelectBasic)
    }

    /// Set the Character Generator RAM (CGRAM) address
    fn cgram_addr(&mut self, addr: u8) -> (r: Result<(), Self::Error>)
        requires
            old(self).attached(),
        ensures
            final(self).attached(),
            final(self).kept(old(self)),
            r is Ok ==> final(self).followed(old(self)),
            r matches Err(error) ==> final(self).stopped(
                old(self),
                Command::CgRamAddr(addr),
                error,
            ),
            r is Ok ==> forall|error: Self::Error|
                #[trigger] final(self).failures(error) == old(self).failures(error),
            r matches Err(error) ==> old(self).failures(error) < final(self).failures(error),
            forall|error: Self::Error|
                old(self).failures(error) <= #[trigger] final(self).failures(error),
            executed(
                old(self).history(),
                old(self).mode(),
                Command::CgRamAddr(addr),
                r is Ok,
                final(self).history(),
                final(self).mode(),
            ),
    {
        self.execute(Command::CgRamAddr(addr))
    }

    /// Set the Display Data RAM (DDRAM) address
    fn ddram_addr(&mut self, addr: u8) -> (r: Result<(), Self::Error>)
        requires
            old(self).attached(),
        ensures
            final(self).attached(),
            final(self).kept(old(self)),
            r is Ok ==> final(self).followed(old(self)),
            r matches Err(error) ==> final(self).stopped(
                old(self),
                Command::DdRamAddr(addr),
                error,
            ),
            r is Ok ==> forall|error: Self::Error|
                #[trigger] final(self).failures(error) == old(self).failures(error),
            r matches Err(error) ==> old(self).failures(error) < final(self).failures(error),
            forall|error: Self::Error|
                old(self).failures(error) <= #[trigger] final(self).failures(error),
            executed(
                old(self).history(),
                old(self).mode(),
                Command::DdRamAddr(addr),
                r is Ok,
                final(self).history(),
                final(self).mode(),
            ),
    {
        self.execute(Command::DdRamAddr(addr))
    }
}

/// The busy flag and the address counter that the byte `raw` of the status register holds:
/// the flag is bit 7, the counter the seven bits below.
pub open spec fn spec_status(raw: u8) -> (bool, u8) {
    (raw & 0x80 != 0, raw & 0x7F)
}

/// Takes a byte of the status register apart into the busy flag and the address counter.
#[verifier::when_used_as_spec(spec_status)]
pub fn status(raw: u8) -> (r: (bool, u8))
    ensures
        r == spec_status(raw),
{
    (raw & 0x80 != 0, raw & 0x7F)
}

/// A display that can be read.
pub trait ExecuteRead: Attached + Sized {
    type Error;

    /// The bytes that the display has answered with, oldest first.
    spec fn answers(&self) -> Seq<u8>;

    /// The errors that the bus to the display has reported, oldest first.
    spec fn faults(&self) -> Seq<Self::Error>;

    /// Whether the display, which was `before`, has since been left to itself or been read
    /// as its bus allows, whatever has come of it: what that is, each bus says of its wires,
    /// its clock and the displays that it shares them with.
    spec fn spared(&self, before: &Self) -> bool;

    /// Whether the display, which was `before`, has since been read once, as its bus reads:
    /// its status register where `status` holds, and else a word of its RAM.
    spec fn answered(&self, before: &Self, status: bool) -> bool;

    /// Reads a word from the currently selected RAM.
    fn read(&mut self) -> (r: Result<u16, Self::Error>)
        requires
            old(self).attached(),
        ensures
            final(self).attached(),
            final(self).spared(old(self)),
            r is Ok ==> final(self).answered(old(self), false),
            r is Ok ==> final(self).faults() == old(self).faults(),
            r matches Err(error) ==> crate::model::raised(
                old(self).faults(),
                final(self).faults(),
                error,
            ),
            r matches Ok(word) ==> final(self).answers() == old(self).answers().push(
                (word >> 8) as u8,
            ).push((word & 0xFF) as u8),
            r is Err ==> old(self).answers().is_prefix_of(final(self).answers()),
    ;

    /// Reads the busy flag and the address counter.
    fn read_bf_ac(&mut self) -> (r: Result<(bool, u8), Self::Error>)
        requires
            old(self).attached(),
        ensures
            final(self).attached(),
            final(self).spared(old(self)),
            r is Ok ==> final(self).answered(old(self), true),
            r is Ok ==> final(self).faults() == old(self).faults(),
            r matches Err(error) ==> crate::model::raised(
                old(self).faults(),
                final(self).faults(),
                error,
            ),
            r matches Ok(read) ==> final(self).answers().len() == old(self).answers().len() + 1
                && final(self).answers().drop_last() == old(self).answers() && read == spec_status(
                final(self).answers().last(),
            ),
            r is Err ==> final(self).answers() == old(self).answers(),
    ;

    /// Reads the address counter.
    fn read_address_counter(&mut self) -> (r: Result<u8, Self::Error>)
        requires
            old(self).attached(),
        ensures
            final(self).attached(),
            final(self).spared(old(self)),
            r is Ok ==> final(self).answered(old(self), true),
            r is Ok ==> final(self).faults() == old(self).faults(),
            r matches Err(error) ==> crate::model::raised(
                old(self).faults(),
                final(self).faults(),
                error,
            ),
            r matches Ok(counter) ==> final(self).answers().len() == old(self).answers().len() + 1
                && final(self).answers().drop_last() == old(self).answers() && counter
                == spec_status(final(self).answers().last()).1,
            r is Err ==> final(self).answers() == old(self).answers(),
    {
        Ok(self.read_bf_ac()?.1)
    }

    /// Reads the busy flag.
    fn read_busy_flag(&mut self) -> (r: Result<bool, Self::Error>)
        requires
            old(self).attached(),
        ensures
            final(self).attached(),
            final(self).spared(old(self)),
            r is Ok ==> final(self).answered(old(self), true),
            r is Ok ==> final(self).faults() == old(self).faults(),
            r matches Err(error) ==> crate::model::raised(
                old(self).faults(),
                final(self).faults(),
                error,
            ),
            r matches Ok(busy) ==> final(self).answers().len() == old(self).answers().len() + 1
                && final(self).answers().drop_last() == old(self).answers() && busy == spec_status(
                final(self).answers().last(),
            ).0,
            r is Err ==> final(self).answers() == old(self).answers(),
    {
        Ok(self.read_bf_ac()?.0)
    }
}

} // verus!
