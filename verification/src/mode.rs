//! The instruction set that the chip has latched, and the way from one set to another.
//!
//! The chip takes an instruction by the set it is in: the instructions of the Basic set in
//! the Basic set, those of the Extended and of the Graphic set in either of these two. A set
//! is chosen by two bits of the "function set" instruction, of which one instruction may
//! change only one: Basic and Graphic are reached from each other through Extended, never
//! directly.

use crate::command::Command;
use vstd::prelude::*;

verus! {

/// One of the three instruction sets of the chip.
#[derive(Clone, Copy, Debug, PartialEq, Eq, Structural)]
pub enum Mode {
    Basic,
    Extended,
    Graphic,
}

impl Command {
    /// The set that a "select instruction set" instruction latches; `None` for every other
    /// instruction.
    pub open spec fn spec_selects(self) -> Option<Mode> {
        match self {
            Command::SelectBasic => Some(Mode::Basic),
            Command::SelectExtended => Some(Mode::Extended),
            Command::SelectGraphic => Some(Mode::Graphic),
            _ => None,
        }
    }

    /// The set that a "select instruction set" instruction latches; `None` for every other
    /// instruction.
    #[verifier::when_used_as_spec(spec_selects)]
    pub fn selects(self) -> (r: Option<Mode>)
        ensures
            r == self.spec_selects(),
    {
        match self {
            Command::SelectBasic => Some(Mode::Basic),
            Command::SelectExtended => Some(Mode::Extended),
            Command::SelectGraphic => Some(Mode::Graphic),
            _ => None,
        }
    }

    /// The set that the instruction belongs to. `None` for `Write`, which goes to the RAM in
    /// every set, and for the three "select instruction set" instructions.
    pub open spec fn spec_belongs_to(self) -> Option<Mode> {
        match self {
            Command::Clear
            | Command::Home
            | Command::EntryMode { .. }
            | Command::DisplayOnOff { .. }
            | Command::CursorDisplayCtrl { .. }
            | Command::CgRamAddr(_)
            | Command::DdRamAddr(_) => Some(Mode::Basic),
            Command::StandBy
            | Command::EnableScroll
            | Command::EnableCgRam
            | Command::Reverse(_)
            | Command::ScrollOffset(_) => Some(Mode::Extended),
            Command::GraphicRamAddr { .. } => Some(Mode::Graphic),
            Command::Write(_)
            | Command::SelectBasic
            | Command::SelectExtended
            | Command::SelectGraphic => None,
        }
    }

    /// The set that the instruction belongs to; `None` for `Write` and for the three "select
    /// instruction set" instructions.
    #[verifier::when_used_as_spec(spec_belongs_to)]
    pub fn belongs_to(self) -> (r: Option<Mode>)
        ensures
            r == self.spec_belongs_to(),
    {
        match self {
            Command::Clear
            | Command::Home
            | Command::EntryMode { .. }
            | Command::DisplayOnOff { .. }
            | Command::CursorDisplayCtrl { .. }
            | Command::CgRamAddr(_)
            | Command::DdRamAddr(_) => Some(Mode::Basic),
            Command::StandBy
            | Command::EnableScroll
            | Command::EnableCgRam
            | Command::Reverse(_)
            | Command::ScrollOffset(_) => Some(Mode::Extended),
            Command::GraphicRamAddr { .. } => Some(Mode::Graphic),
            Command::Write(_)
            | Command::SelectBasic
            | Command::SelectExtended
            | Command::SelectGraphic => None,
        }
    }
}

impl Mode {
    /// The place of the set on the line Basic, Extended, Graphic.
    pub open spec fn rank(self) -> int {
        match self {
            Mode::Basic => 0,
            Mode::Extended => 1,
            Mode::Graphic => 2,
        }
    }

    /// Whether one "function set" instruction leads from this set to `target`: the two are the
    /// same or next to each other.
    pub open spec fn reaches(self, target: Mode) -> bool {
        -1 <= self.rank() - target.rank() <= 1
    }

    /// The instruction that leads one set nearer to `target`; `None` where the chip is in
    /// `target`.
    pub open spec fn spec_toward(self, target: Mode) -> Option<Command> {
        if self == target {
            None
        } else if self == Mode::Extended && target == Mode::Basic {
            Some(Command::SelectBasic)
        } else if self == Mode::Extended && target == Mode::Graphic {
            Some(Command::SelectGraphic)
        } else {
            Some(Command::SelectExtended)
        }
    }

    /// The instruction that leads one set nearer to `target`; `None` where the chip is in
    /// `target`.
    #[verifier::when_used_as_spec(spec_toward)]
    pub fn toward(self, target: Mode) -> (r: Option<Command>)
        ensures
            r == self.spec_toward(target),
    {
        match (self, target) {
            (Mode::Basic, Mode::Basic) => None,
            (Mode::Extended, Mode::Extended) => None,
            (Mode::Graphic, Mode::Graphic) => None,
            (Mode::Extended, Mode::Basic) => Some(Command::SelectBasic),
            (Mode::Extended, Mode::Graphic) => Some(Command::SelectGraphic),
            _ => Some(Command::SelectExtended),
        }
    }

    /// The set that the chip is in once it has taken `command` in this set.
    pub open spec fn spec_after(self, command: Command) -> Mode {
        match command.spec_selects() {
            Some(mode) => mode,
            None => self,
        }
    }

    /// The set that the chip is in once it has taken `command` in this set.
    #[verifier::when_used_as_spec(spec_after)]
    pub fn after(self, command: Command) -> (r: Mode)
        ensures
            r == self.spec_after(command),
    {
        match command.selects() {
            Some(mode) => mode,
            None => self,
        }
    }

    /// Whether the chip, in this set, takes the instructions of `set` as they are meant: those
    /// of the Basic set in the Basic set, and those of the Extended and of the Graphic set in
    /// either of these two, which differ in the graphic display being on or off only.
    pub open spec fn spec_decodes(self, set: Mode) -> bool {
        (self == Mode::Basic) == (set == Mode::Basic)
    }

    /// Whether the chip, in this set, takes the instructions of `set` as they are meant.
    #[verifier::when_used_as_spec(spec_decodes)]
    pub fn decodes(self, set: Mode) -> (r: bool)
        ensures
            r == self.spec_decodes(set),
    {
        match (self, set) {
            (Mode::Basic, Mode::Basic) => true,
            (Mode::Basic, _) => false,
            (_, Mode::Basic) => false,
            _ => true,
        }
    }

    /// The instruction that has to go out next, in this set, before `command` can: the next
    /// step toward a set in which the chip takes `command` as it is meant or, for a "select
    /// instruction set" instruction, toward a set from which it changes one bit only. `None`
    /// where `command` can go out as the chip is.
    pub open spec fn spec_bridge(self, command: Command) -> Option<Command> {
        match command.spec_selects() {
            Some(target) => if self.reaches(target) {
                None
            } else {
                self.spec_toward(target)
            },
            None => match command.spec_belongs_to() {
                Some(set) => if self.spec_decodes(set) {
                    None
                } else {
                    self.spec_toward(set)
                },
                None => None,
            },
        }
    }

    /// The instruction that has to go out next, in this set, before `command` can; `None`
    /// where `command` can go out as the chip is.
    #[verifier::when_used_as_spec(spec_bridge)]
    pub fn bridge(self, command: Command) -> (r: Option<Command>)
        ensures
            r == self.spec_bridge(command),
    {
        match command.selects() {
            Some(target) => match (self, target) {
                (Mode::Basic, Mode::Graphic) => Some(Command::SelectExtended),
                (Mode::Graphic, Mode::Basic) => Some(Command::SelectExtended),
                _ => None,
            },
            None => match command.belongs_to() {
                Some(set) => if self.decodes(set) {
                    None
                } else {
                    self.toward(set)
                },
                None => None,
            },
        }
    }

    /// The set that the chip is in once `command` has been executed from this set: the one
    /// that `command` selects; this set, for `Write` and for an instruction that the chip
    /// takes in this set; and else the Basic set for an instruction of the Basic set and the
    /// Extended set for any other.
    pub open spec fn settled(self, command: Command) -> Mode {
        match command.spec_selects() {
            Some(target) => target,
            None => match command.spec_belongs_to() {
                Some(set) => if self.spec_decodes(set) {
                    self
                } else if set == Mode::Basic {
                    Mode::Basic
                } else {
                    Mode::Extended
                },
                None => self,
            },
        }
    }

    /// The instructions that go out before `command` when the chip is in this set, in order.
    pub open spec fn route(self, command: Command) -> Seq<Command> {
        match self.spec_bridge(command) {
            None => seq![],
            Some(first) => match self.spec_after(first).spec_bridge(command) {
                None => seq![first],
                Some(second) => seq![first, second],
            },
        }
    }

    /// The set that the chip is in once it has taken, from this set, each of `commands` in
    /// order.
    pub open spec fn after_all(self, commands: Seq<Command>) -> Mode
        decreases commands.len(),
    {
        if commands.len() == 0 {
            self
        } else {
            self.after_all(commands.drop_last()).spec_after(commands.last())
        }
    }

    /// Whether the chip, from this set, can take each of `commands` in order: each finds the
    /// chip in the set that it needs, and none changes both bits of the set at once.
    pub open spec fn admits_all(self, commands: Seq<Command>) -> bool
        decreases commands.len(),
    {
        if commands.len() == 0 {
            true
        } else {
            self.spec_bridge(commands[0]) is None && self.spec_after(commands[0]).admits_all(
                commands.skip(1),
            )
        }
    }
}

/// An instruction of the Extended or of the Graphic set, sent while the chip is in the Basic
/// set, is preceded by exactly one instruction, `SelectExtended`.
pub proof fn lemma_extended_from_basic(command: Command)
    requires
        command.spec_belongs_to() == Some(Mode::Extended) || command.spec_belongs_to() == Some(
            Mode::Graphic,
        ),
    ensures
        Mode::Basic.route(command) == seq![Command::SelectExtended],
{
}

/// An instruction of the Basic set, sent while the chip is in the Graphic set, is preceded
/// by `SelectExtended` and then `SelectBasic`.
pub proof fn lemma_basic_from_graphic(command: Command)
    requires
        command.spec_belongs_to() == Some(Mode::Basic),
    ensures
        Mode::Graphic.route(command) == seq![Command::SelectExtended, Command::SelectBasic],
{
}

/// Whatever the set and the instruction, the route followed by the instruction is a sequence
/// that the chip can take: no step of it leads from Basic to Graphic or back at once, and the
/// instruction finds the chip in its set.
pub proof fn lemma_route_is_admitted(mode: Mode, command: Command)
    ensures
        mode.admits_all(mode.route(command).push(command)),
        mode.after_all(mode.route(command)).spec_bridge(command) is None,
        mode.route(command).len() <= 2,
{
    let route = mode.route(command);
    let all = route.push(command);
    reveal_with_fuel(Mode::admits_all, 4);
    reveal_with_fuel(Mode::after_all, 4);
    if route.len() == 0 {
        assert(all.skip(1) =~= seq![]);
    } else if route.len() == 1 {
        assert(all.skip(1) =~= seq![command]);
        assert(all.skip(1).skip(1) =~= seq![]);
        assert(route.drop_last() =~= seq![]);
    } else {
        assert(all.skip(1) =~= seq![route[1], command]);
        assert(all.skip(1).skip(1) =~= seq![command]);
        assert(all.skip(1).skip(1).skip(1) =~= seq![]);
        assert(route.drop_last() =~= seq![route[0]]);
        assert(route.drop_last().drop_last() =~= seq![]);
    }
}

/// A "select instruction set" instruction never goes out where it would change both bits of
/// the set: `SelectGraphic` is not admitted in Basic, nor `SelectBasic` in Graphic.
pub proof fn lemma_no_direct_jump(mode: Mode, command: Command)
    requires
        mode.spec_bridge(command) is None,
    ensures
        !(mode == Mode::Basic && command == Command::SelectGraphic),
        !(mode == Mode::Graphic && command == Command::SelectBasic),
        mode.reaches(mode.spec_after(command)),
{
}

/// The chip is in the set that the last of the instructions it has taken leaves it in.
pub proof fn lemma_after_one_more(mode: Mode, commands: Seq<Command>, command: Command)
    ensures
        mode.after_all(commands.push(command)) == mode.after_all(commands).spec_after(command),
        mode.after_all(Seq::<Command>::empty()) == mode,
{
    assert(commands.push(command).drop_last() =~= commands);
}

} // verus!
