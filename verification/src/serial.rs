//! The serial bus: three wires, on which the chip takes what it would take from the parallel
//! bus, in frames.
//!
//! A frame starts with a byte of synchronisation, which also says which register the frame is
//! for. Each byte of the payload follows as two bytes: its high half, then its low half, each
//! in the high four bits of a byte whose low four bits are zero. The chip takes a frame while
//! its chip-select is high.

use crate::command::{
    added, commands, executed, issued, lemma_added_twice, lemma_commands_of_steps,
    lemma_sent_all, lemma_sent_next, lemma_sent_none, lemma_sent_some, sent_first, steps,
    Command, Execute, Step,
};
use crate::hal::{after, later, spec_after, Duration, Instant};
use crate::model::{
    grown, lemma_occurrences_grown, lemma_occurrences_raised, lemma_pulses_both, occurrences,
    pulses, sleep, slept_until, Clock, Link, OutPin,
};
use crate::mode::Mode;
use crate::parallel::{lemma_word_parts, spec_word, word};
use crate::{Attached, Delay, SharedBus};
use crate::schedule::{lemma_others_chain, Lines};
use vstd::prelude::*;

verus! {

/// The byte of synchronisation of a frame that writes to the register that `rs` selects:
/// five ones, RW (zero), RS, and a zero.
pub open spec fn spec_sync(rs: u8) -> u8 {
    0b11111000u8 | (rs << 1)
}

/// The byte of synchronisation of a frame that writes to the register that `rs` selects:
/// `0` for the instruction register, `1` for the RAM.
#[verifier::when_used_as_spec(spec_sync)]
pub fn sync(rs: u8) -> (r: u8)
    ensures
        r == spec_sync(rs),
        rs == 0 ==> r == 0xF8,
        rs == 1 ==> r == 0xFA,
{
    assert(0b11111000u8 | (0u8 << 1) == 0xF8) by (bit_vector);
    assert(0b11111000u8 | (1u8 << 1) == 0xFA) by (bit_vector);
    0b11111000 | rs << 1
}

/// The two bytes that carry `byte`: its high half and its low half, each in the high four
/// bits.
pub open spec fn halves(byte: u8) -> Seq<u8> {
    seq![byte & 0xF0, byte << 4]
}

/// The frame that carries one byte to the register that `rs` selects.
pub open spec fn spec_encode_u8(rs: u8, byte: u8) -> Seq<u8> {
    seq![spec_sync(rs)] + halves(byte)
}

/// The frame that carries one byte to the register that `rs` selects.
pub fn encode_u8(rs: u8, byte: u8) -> (r: [u8; 3])
    ensures
        r@ == spec_encode_u8(rs, byte),
{
    let r = [sync(rs), byte & 0xF0, byte << 4];
    assert(r@ =~= spec_encode_u8(rs, byte));
    r
}

/// The frame that carries one word to the register that `rs` selects, the high byte first.
pub open spec fn spec_encode_u16(rs: u8, data: u16) -> Seq<u8> {
    seq![spec_sync(rs)] + halves(crate::parallel::spec_high(data)) + halves(
        crate::parallel::spec_low(data),
    )
}

/// The frame that carries one word to the register that `rs` selects, the high byte first.
pub fn encode_u16(rs: u8, data: u16) -> (r: [u8; 5])
    ensures
        r@ == spec_encode_u16(rs, data),
{
    let a = crate::parallel::high(data);
    let b = crate::parallel::low(data);
    let r = [sync(rs), a & 0xF0, a << 4, b & 0xF0, b << 4];
    assert(r@ =~= spec_encode_u16(rs, data));
    r
}

/// What a display took from the bus while its chip-select was high.
pub struct Frame {
    /// The display, by the place of its chip-select pin among those of the bus.
    pub line: usize,
    /// The bytes that went out on the link, in order.
    pub bytes: Seq<u8>,
    /// The latest instant that the clock was known to have reached when the chip-select had
    /// risen, before the first byte went out.
    pub since: Instant,
    /// The latest instant that the clock was known to have reached when the last byte had
    /// gone out, before the chip-select was lowered.
    pub at: Instant,
}

/// Why a transaction on the serial bus failed.
#[derive(Debug)]
pub enum Error<L, P> {
    /// The link failed.
    Link(L),
    /// A chip-select pin failed.
    Pin(P),
}

/// A serial bus to `PINS` displays, which share the link and have a chip-select pin each.
pub struct Interface<S, Cs, C, const PINS: usize> {
    spi: S,
    cs: [Cs; PINS],
    clock: C,
    lines: Lines<PINS>,
    frames: Ghost<Seq<Frame>>,
}

impl<S, Cs, C, const PINS: usize> Interface<S, Cs, C, PINS> {
    /// What the driver keeps of each display.
    pub closed spec fn records(&self) -> Lines<PINS> {
        self.lines
    }

    /// The clock.
    pub closed spec fn clock(&self) -> C {
        self.clock
    }

    /// The link.
    pub closed spec fn link(&self) -> S {
        self.spi
    }

    /// The chip-select pins, one for each display.
    pub closed spec fn select_pins(&self) -> Seq<Cs> {
        self.cs@
    }

    /// The frames that the displays have taken, oldest first.
    pub closed spec fn framed(&self) -> Seq<Frame> {
        self.frames@
    }

    /// Whether two interfaces differ at most in what a transaction with the display in use
    /// touches: they agree in the chip-select pins of the other displays and in what is kept
    /// of the other displays.
    pub open spec fn same_but_display(&self, other: &Self) -> bool {
        &&& self.records().others_as_in(&other.records())
        &&& self.select_pins().len() == other.select_pins().len()
        &&& forall|i: int|
            0 <= i < self.select_pins().len() && i != self.records().line()
                ==> self.select_pins()[i] == other.select_pins()[i]
    }
}

impl<S: Link, Cs: OutPin, C: Clock, const PINS: usize> Interface<S, Cs, C, PINS> {
    /// A bus made of the given link and pins, with display 0 in use. Each display is taken to
    /// be in the Basic set and free to be used from now on. A bus may be made for no display:
    /// it has none in use, and nothing can be sent over it.
    pub fn new(spi: S, cs: [Cs; PINS], clock: C) -> (r: Self)
        ensures
            r.link() == spi,
            r.select_pins() == cs@,
            clock.time() <= r.clock().time(),
            r.clock().waits() == clock.waits(),
            r.records().line() == 0,
            r.records().deadlines() == Seq::new(PINS as nat, |i: int| r.clock().time()),
            r.records().modes() == Seq::new(PINS as nat, |i: int| Mode::Basic),
            r.records().histories() == Seq::new(PINS as nat, |i: int| Seq::<Step>::empty()),
            r.framed() == Seq::<Frame>::empty(),
    {
        let mut clock = clock;
        let end = clock.now();
        Interface { spi, cs, clock, lines: Lines::new(end), frames: Ghost(Seq::empty()) }
    }

    /// Whether the interface, which was `before`, has since held the chip-select of the
    /// display in use high once, and not before the display's deadline had passed: the
    /// display has taken one more frame, made of the bytes that went out on the link in
    /// between. The chip-select had risen, after the wait for the deadline, before the first
    /// of them went out.
    pub open spec fn selected(&self, before: &Self) -> bool {
        &&& self.framed() == before.framed().push(
            Frame {
                line: before.records().line(),
                bytes: self.link().sent().skip(before.link().sent().len() as int),
                since: self.framed().last().since,
                at: self.framed().last().at,
            },
        )
        &&& later(before.records().deadline(), before.clock().time())
            <= self.framed().last().since <= self.framed().last().at <= self.clock().time()
    }

    /// The chip-select pin of the display in use.
    pub open spec fn pin_in_use(&self) -> Cs {
        self.select_pins()[self.records().line() as int]
    }

    /// Whether the interface, which was `before`, has since made a transaction of `duration`
    /// with the display in use: the chip-select was driven high and then low, and is low; the
    /// display has taken one more frame, as [`Self::selected`] says; and its new deadline
    /// lies `duration` after the end of the transaction.
    pub open spec fn transacted(&self, before: &Self, duration: Duration) -> bool {
        &&& self.selected(before)
        &&& self.records().deadline() == after(self.clock().time(), duration)
        &&& !self.pin_in_use().level()
        &&& self.pin_in_use().driven() == before.pin_in_use().driven().push(true).push(false)
        &&& self.pin_in_use().faults() == before.pin_in_use().faults()
    }

    /// Whether the interface, which was `before`, has since failed to raise the chip-select
    /// of the display in use, with `error`: nothing has gone out on the link, no frame was
    /// taken, and the records are as they were.
    pub open spec fn refused(&self, before: &Self, error: Cs::Error) -> bool {
        &&& crate::model::failed(before.pin_in_use(), self.pin_in_use(), error)
        &&& self.link() == before.link()
        &&& self.framed() == before.framed()
        &&& self.records() == before.records()
    }

    /// Whether the interface, which was `before`, has since failed to lower the
    /// chip-select of the display in use, with `error`, once the display had taken a frame:
    /// the chip-select was driven high, and is high; and the records are as they were.
    pub open spec fn held(&self, before: &Self, error: Cs::Error) -> bool {
        &&& self.selected(before)
        &&& self.records() == before.records()
        &&& self.pin_in_use().level()
        &&& self.pin_in_use().driven() == before.pin_in_use().driven().push(true)
        &&& self.pin_in_use().faults() == before.pin_in_use().faults().push(error)
    }

    /// Every bus has one chip-select pin for each display.
    pub proof fn lemma_one_pin_each(&self)
        ensures
            self.select_pins().len() == PINS,
    {
    }

    /// Runs `run` on the link while the chip-select of the display in use is high: waits for
    /// the display's deadline, raises the chip-select, runs `run`, lowers the chip-select,
    /// and books the display's new deadline, `duration` after that. What `run` returns is
    /// handed on, its error as [`Error::Link`]. Where the chip-select fails, the result is
    /// its error as [`Error::Pin`], and the deadline stays as it was: `run` is not run where
    /// the chip-select has failed to rise, and the chip-select is left high where it has
    /// failed to fall.
    pub fn transaction<T, E, F: FnOnce(&mut S) -> Result<T, E>>(
        &mut self,
        duration: Duration,
        run: F,
    ) -> (r: Result<T, Error<E, Cs::Error>>)
        requires
            PINS > 0,
            forall|link: &mut S| *link == old(self).link() ==> call_requires(run, (link,)),
        ensures
            final(self).same_but_display(old(self)),
            slept_until(old(self).clock(), final(self).clock(), old(self).records().deadline()),
            final(self).records().history() == old(self).records().history(),
            final(self).records().spec_mode() == old(self).records().spec_mode(),
            taken(
                old(self).framed(),
                final(self).framed(),
                old(self).records().line(),
                later(old(self).records().deadline(), old(self).clock().time()),
                final(self).clock().time(),
            ),
            r matches Ok(out) ==> final(self).transacted(old(self), duration) && exists|
                link: &mut S,
            | #[trigger]
                call_ensures(run, (link,), Ok::<T, E>(out)) && *link == old(self).link()
                    && *final(link) == final(self).link(),
            r matches Err(Error::Link(error)) ==> final(self).transacted(old(self), duration)
                && exists|link: &mut S| #[trigger]
                call_ensures(run, (link,), Err::<T, E>(error)) && *link == old(self).link()
                    && *final(link) == final(self).link(),
            r matches Err(Error::Pin(error)) ==> final(self).refused(old(self), error)
                || final(self).held(old(self), error) && exists|
                link: &mut S,
                out: Result<T, E>,
            | #[trigger]
                call_ensures(run, (link,), out) && *link == old(self).link() && *final(link)
                    == final(self).link(),
            r matches Err(Error::Pin(_)) && !final(self).pin_in_use().level()
                ==> final(self).link() == old(self).link(),
    {
        self.lines.wait(&mut self.clock);
        let current = self.lines.current();
        match self.cs[current].set_high() {
            Ok(()) => {},
            Err(error) => {
                return Err(Error::Pin(error));
            },
        }
        let ghost since = self.clock.time();
        let ghost high = self.cs@[current as int].level();
        let result = run(&mut self.spi);
        proof {
            assert(high);
            self.frames@ = self.frames@.push(
                Frame {
                    line: current,
                    bytes: self.spi.sent().skip(old(self).spi.sent().len() as int),
                    since,
                    at: self.clock.time(),
                },
            );
        }
        match self.cs[current].set_low() {
            Ok(()) => {},
            Err(error) => {
                assert(exists|link: &mut S, out: Result<T, E>| #[trigger]
                    call_ensures(run, (link,), out) && *link == old(self).link() && *final(link)
                        == self.link());
                return Err(Error::Pin(error));
            },
        }
        let now = self.clock.now();
        self.lines.book(now, duration);
        let r: Result<T, Error<E, Cs::Error>> = match result {
            Ok(out) => Ok(out),
            Err(error) => Err(Error::Link(error)),
        };
        proof {
            if r is Ok {
                assert(result == Ok::<T, E>(r->Ok_0));
            } else {
                assert(result == Err::<T, E>(r->Err_0->Link_0));
            }
        }
        r
    }
}

/// The frame that carries `command`. A `Write` goes to the RAM as one word; every other
/// instruction goes to the instruction register, as one byte or, where its opcode has two,
/// as one word.
pub open spec fn frame(command: Command) -> Seq<u8> {
    match command {
        Command::Write(data) => spec_encode_u16(1, data),
        _ => if command.opcode().len() == 2 {
            spec_encode_u16(0, spec_word(command.opcode()[0], command.opcode()[1]))
        } else {
            spec_encode_u8(0, command.opcode()[0])
        },
    }
}

/// A frame is the byte of synchronisation and, for each byte that the instruction takes on
/// the parallel bus, its two halves: five bytes for a `Write`, and three or five for an
/// instruction, by the bytes of its opcode.
pub proof fn lemma_frame_bytes(command: Command)
    ensures
        command matches Command::Write(data) ==> frame(command) == seq![0xFAu8] + halves(
            crate::parallel::spec_high(data),
        ) + halves(crate::parallel::spec_low(data)),
        !(command is Write) && command.opcode().len() == 1 ==> frame(command) == seq![0xF8u8]
            + halves(command.opcode()[0]),
        !(command is Write) && command.opcode().len() == 2 ==> frame(command) == seq![0xF8u8]
            + halves(command.opcode()[0]) + halves(command.opcode()[1]),
{
    assert(0b11111000u8 | (0u8 << 1) == 0xF8) by (bit_vector);
    assert(0b11111000u8 | (1u8 << 1) == 0xFA) by (bit_vector);
    if !(command is Write) && command.opcode().len() == 2 {
        lemma_word_parts(command.opcode()[0], command.opcode()[1]);
    }
}

/// Whether `after` is `before` followed by frames that the display `line` took, and no other,
/// each begun and ended between `since` and `until`.
pub open spec fn taken(
    before: Seq<Frame>,
    after: Seq<Frame>,
    line: usize,
    since: Instant,
    until: Instant,
) -> bool {
    &&& before.is_prefix_of(after)
    &&& forall|i: int|
        before.len() <= i < after.len() ==> (#[trigger] after[i]).line == line && since
            <= after[i].since <= after[i].at <= until
}

/// What was taken in two parts, one after the other, was taken as a whole.
pub proof fn lemma_taken_twice(
    first: Seq<Frame>,
    second: Seq<Frame>,
    third: Seq<Frame>,
    line: usize,
    since: Instant,
    middle: Instant,
    later: Instant,
    until: Instant,
)
    requires
        taken(first, second, line, since, middle),
        taken(second, third, line, later, until),
        since <= later,
        middle <= until,
    ensures
        taken(first, third, line, since, until),
{
    crate::parallel::lemma_prefix_chain(first, second, third);
    assert forall|i: int| first.len() <= i < third.len() implies (#[trigger] third[i]).line == line
        && since <= third[i].since <= third[i].at <= until by {
        if i < second.len() {
            assert(third[i] == second[i]);
        }
    }
}

/// Frames that were taken for instructions were taken.
pub proof fn lemma_framed_is_taken(
    before: Seq<Frame>,
    after: Seq<Frame>,
    line: usize,
    commands: Seq<Command>,
    since: Instant,
    until: Instant,
)
    requires
        framed_all(before, after, line, commands, since, until),
    ensures
        taken(before, after, line, since, until),
{
    assert(after.subrange(0, before.len() as int) =~= before);
    assert forall|i: int| before.len() <= i < after.len() implies (#[trigger] after[i]).line == line
        && since <= after[i].since <= after[i].at <= until by {
        assert(after[i] == after[before.len() + (i - before.len())]);
    }
}

/// Whether `after` is `before` followed by one frame for each of `commands`, in order: each
/// taken by the display `line`, each the frame of its instruction, and each begun and ended
/// between `since` and `until`.
pub open spec fn framed_all(
    before: Seq<Frame>,
    after: Seq<Frame>,
    line: usize,
    commands: Seq<Command>,
    since: Instant,
    until: Instant,
) -> bool {
    &&& after.len() == before.len() + commands.len()
    &&& forall|i: int| 0 <= i < before.len() ==> after[i] == before[i]
    &&& forall|i: int|
        0 <= i < commands.len() ==> {
            let taken = #[trigger] after[before.len() + i];
            &&& taken.line == line
            &&& taken.bytes == frame(commands[i])
            &&& since <= taken.since <= taken.at <= until
        }
}

/// A display is left alone for the time that it was booked for: where its frames ended by
/// `booked` and it was booked for `duration` from then on, no frame that waited for that
/// deadline begins less than `duration` after one of the first has ended.
pub proof fn lemma_left_alone(
    first: Seq<Frame>,
    second: Seq<Frame>,
    third: Seq<Frame>,
    line: usize,
    head: Seq<Command>,
    tail: Seq<Command>,
    since: Instant,
    booked: Instant,
    duration: Duration,
    read: Instant,
    until: Instant,
)
    requires
        framed_all(first, second, line, head, since, booked),
        framed_all(second, third, line, tail, later(spec_after(booked, duration), read), until),
    ensures
        forall|i: int, j: int|
            0 <= i < head.len() && 0 <= j < tail.len() ==> spec_after(
                (#[trigger] second[first.len() + i]).at,
                duration,
            ) <= (#[trigger] third[second.len() + j]).since,
{
}

/// Frames that were taken for some instructions and then for others were taken for all of
/// them.
pub proof fn lemma_framed_twice(
    first: Seq<Frame>,
    second: Seq<Frame>,
    third: Seq<Frame>,
    line: usize,
    head: Seq<Command>,
    tail: Seq<Command>,
    since: Instant,
    middle: Instant,
    later: Instant,
    until: Instant,
)
    requires
        framed_all(first, second, line, head, since, middle),
        framed_all(second, third, line, tail, later, until),
        since <= later,
        middle <= until,
    ensures
        framed_all(first, third, line, head + tail, since, until),
{
    assert forall|i: int| 0 <= i < (head + tail).len() implies {
        let taken = #[trigger] third[first.len() + i];
        &&& taken.line == line
        &&& taken.bytes == frame((head + tail)[i])
        &&& since <= taken.since <= taken.at <= until
    } by {
        if i < head.len() {
            assert(third[first.len() + i] == second[first.len() + i]);
        } else {
            assert(third[first.len() + i] == third[second.len() + (i - head.len())]);
        }
    }
}

impl<S: Link, Cs: OutPin, C: Clock, const PINS: usize> Interface<S, Cs, C, PINS> {
    /// Sends `command` to the display in use as it is, whatever set the display is in, in
    /// one transaction that books the execution time of `command`.
    fn issue(&mut self, command: Command) -> (r: Result<(), Error<S::Error, Cs::Error>>)
        requires
            PINS > 0,
        ensures
            grown(old(self).link().faults(), final(self).link().faults()),
            r is Ok ==> final(self).link().faults() == old(self).link().faults(),
            r matches Err(Error::Link(error)) ==> final(self).link().faults() == old(
                self,
            ).link().faults().push(error) && final(self).link().sent() == old(self).link().sent(),
            r matches Err(Error::Pin(error)) ==> final(self).select_pins()[old(
                self,
            ).records().line() as int].faults() == old(self).select_pins()[old(
                self,
            ).records().line() as int].faults().push(error),
            !(r matches Err(Error::Pin(_))) ==> final(self).select_pins()[old(
                self,
            ).records().line() as int].faults() == old(self).select_pins()[old(
                self,
            ).records().line() as int].faults(),
            final(self).same_but_display(old(self)),
            slept_until(old(self).clock(), final(self).clock(), old(self).records().deadline()),
            taken(
                old(self).framed(),
                final(self).framed(),
                old(self).records().line(),
                later(old(self).records().deadline(), old(self).clock().time()),
                final(self).clock().time(),
            ),
            r is Ok ==> final(self).framed() == old(self).framed().push(
                (Frame {
                    line: old(self).records().line(),
                    bytes: frame(command),
                    since: final(self).framed().last().since,
                    at: final(self).framed().last().at,
                }),
            ),
            r is Ok ==> later(old(self).records().deadline(), old(self).clock().time())
                <= final(self).framed().last().since <= final(self).framed().last().at
                <= final(self).clock().time(),
            r is Ok ==> final(self).records().deadline() == after(
                final(self).clock().time(),
                command.spec_execution_time() as u64,
            ),
            r is Ok ==> final(self).records().history() == old(self).records().history().push(
                Step::Command(command),
            ),
            r is Ok ==> final(self).records().spec_mode() == old(
                self,
            ).records().spec_mode().spec_after(command),
            r is Err ==> final(self).records().history() == old(self).records().history(),
            r is Err ==> final(self).records().spec_mode() == old(self).records().spec_mode(),
            r matches Err(Error::Pin(_)) ==> final(self).records() == old(self).records(),
            r matches Err(Error::Link(_)) ==> final(self).records().deadline() == after(
                final(self).clock().time(),
                command.spec_execution_time() as u64,
            ),
            !(r matches Err(Error::Pin(_))) ==> !final(self).select_pins()[old(
                self,
            ).records().line() as int].level(),
            final(self).framed() == old(self).framed() ==> final(self).link() == old(self).link(),
            later(old(self).records().deadline(), old(self).clock().time()) <= later(
                final(self).records().deadline(),
                final(self).clock().time(),
            ),
            !(r matches Err(Error::Pin(_))) ==> final(self).select_pins()[old(
                self,
            ).records().line() as int].driven() == old(self).select_pins()[old(
                self,
            ).records().line() as int].driven().push(true).push(false),
    {
        let duration = command.execution_time() as u64;
        let ghost sent = self.spi.sent();
        let r = match command {
            Command::Write(data) => {
                let bytes = encode_u16(1, data);
                let run = |spi: &mut S| -> (r: Result<(), S::Error>)
                    ensures
                        r is Ok ==> final(spi).sent() == old(spi).sent() + bytes@,
                        grown(old(spi).faults(), final(spi).faults()),
                        r is Ok ==> final(spi).faults() == old(spi).faults(),
                        r matches Err(error) ==> final(spi).faults() == old(spi).faults().push(
                            error,
                        ) && final(spi).sent() == old(spi).sent(),
                    { spi.write(bytes.as_slice()) };
                self.transaction(duration, run)
            },
            _ => {
                let opcode = command.into_bytes();
                if opcode[1] != 0 {
                    let bytes = encode_u16(0, word(opcode[0], opcode[1]));
                    let run = |spi: &mut S| -> (r: Result<(), S::Error>)
                        ensures
                            r is Ok ==> final(spi).sent() == old(spi).sent() + bytes@,
                            grown(old(spi).faults(), final(spi).faults()),
                            r is Ok ==> final(spi).faults() == old(spi).faults(),
                            r matches Err(error) ==> final(spi).faults() == old(
                                spi,
                            ).faults().push(error) && final(spi).sent() == old(spi).sent(),
                        { spi.write(bytes.as_slice()) };
                    self.transaction(duration, run)
                } else {
                    let bytes = encode_u8(0, opcode[0]);
                    let run = |spi: &mut S| -> (r: Result<(), S::Error>)
                        ensures
                            r is Ok ==> final(spi).sent() == old(spi).sent() + bytes@,
                            grown(old(spi).faults(), final(spi).faults()),
                            r is Ok ==> final(spi).faults() == old(spi).faults(),
                            r matches Err(error) ==> final(spi).faults() == old(
                                spi,
                            ).faults().push(error) && final(spi).sent() == old(spi).sent(),
                        { spi.write(bytes.as_slice()) };
                    self.transaction(duration, run)
                }
            },
        };
        match r {
            Ok(()) => {
                proof {
                    assert(self.spi.sent().skip(sent.len() as int) =~= frame(command));
                }
                let ghost booked = self.lines;
                self.lines.took(command);
                proof {
                    lemma_others_chain(old(self).lines, booked, self.lines);
                }
                Ok(())
            },
            Err(error) => Err(error),
        }
    }
}

impl<S: Link, Cs: OutPin, C: Clock, const PINS: usize> Interface<S, Cs, C, PINS> {
    /// How often the bus has failed with `error` for the display in use: how often the link
    /// has reported it, or the chip-select pin of the display.
    pub open spec fn failed_times(&self, error: Error<S::Error, Cs::Error>) -> nat {
        match error {
            Error::Link(link) => occurrences(self.link().faults(), link),
            Error::Pin(pin) => occurrences(
                self.select_pins()[self.records().line() as int].faults(),
                pin,
            ),
        }
    }

    /// Whether the display in use is booked for the last instruction that its history has
    /// more than that of `before`: for the execution time of that instruction, from an
    /// instant between the end of the wait for the deadline of `before` and now. Where there
    /// is no such instruction, the deadline is that of `before`.
    pub open spec fn booked(&self, before: &Self) -> bool {
        let sent = commands(added(before.records().history(), self.records().history()));
        &&& before.records().history().is_prefix_of(self.records().history())
        &&& sent.len() == 0 ==> self.records().deadline() == before.records().deadline()
        &&& sent.len() > 0 ==> after(
            later(before.records().deadline(), before.clock().time()),
            sent.last().spec_execution_time() as u64,
        ) <= self.records().deadline() <= after(
            self.clock().time(),
            sent.last().spec_execution_time() as u64,
        )
    }

    /// Whether the interface, which was `before`, has since dealt with the display in use
    /// only, and not before its deadline had passed: the other displays are as they were,
    /// with their chip-select pins and their deadlines; the clock has not gone back; every
    /// frame since was taken by the display in use, after its deadline; and nothing has
    /// gone out on the link but in a frame.
    pub open spec fn dealt(&self, before: &Self) -> bool {
        &&& self.same_but_display(before)
        &&& before.clock().time() <= self.clock().time()
        &&& later(before.records().deadline(), before.clock().time()) <= later(
            self.records().deadline(),
            self.clock().time(),
        )
        &&& taken(
            before.framed(),
            self.framed(),
            before.records().line(),
            later(before.records().deadline(), before.clock().time()),
            self.clock().time(),
        )
        &&& self.framed() == before.framed() ==> self.link() == before.link()
    }

    /// Whether the interface, which was `before`, has since sent the display in use the
    /// instructions that its history has more than that of `before`, and nothing else: it
    /// has dealt with that display only; the display has taken one frame for each of the
    /// instructions, in order, each after the deadline that the one before it had booked;
    /// and the display is booked for the last of them, as [`Self::booked`] says, from an
    /// instant that is not before the end of its frame. The chip-select was driven high and
    /// low once for each frame.
    pub open spec fn served(&self, before: &Self) -> bool {
        let sent = commands(added(before.records().history(), self.records().history()));
        &&& self.dealt(before)
        &&& self.booked(before)
        &&& framed_all(
            before.framed(),
            self.framed(),
            before.records().line(),
            sent,
            later(before.records().deadline(), before.clock().time()),
            self.clock().time(),
        )
        &&& sent.len() > 0 ==> after(
            self.framed().last().at,
            sent.last().spec_execution_time() as u64,
        ) <= self.records().deadline()
        &&& self.pin_in_use().driven() == before.pin_in_use().driven() + pulses(sent.len())
    }

    /// Whether the interface, which was `before`, has since failed to send the display in use
    /// `command`, with `error`. Where the chip-select has failed, the display is booked for
    /// the last instruction that it was sent, as [`Self::booked`] says, and where `command`
    /// was the first to be sent, the records are as they were. Where the link has failed, the
    /// display is booked for the instruction in whose frame it failed, from now.
    pub open spec fn halted(
        &self,
        before: &Self,
        command: Command,
        error: Error<S::Error, Cs::Error>,
    ) -> bool {
        match error {
            Error::Pin(_) => {
                &&& self.booked(before)
                &&& before.records().spec_mode().spec_bridge(command) is None ==> self.records()
                    == before.records()
            },
            Error::Link(_) => self.records().deadline() == after(
                self.clock().time(),
                issued(before.records().spec_mode(), command)[commands(
                    added(before.records().history(), self.records().history()),
                ).len() as int].spec_execution_time() as u64,
            ),
        }
    }

    /// What the interface has dealt with twice, one time after the other, it has dealt with.
    pub proof fn lemma_dealt_twice(&self, first: &Self, second: &Self)
        requires
            second.dealt(first),
            self.dealt(second),
        ensures
            self.dealt(first),
    {
        lemma_others_chain(first.records(), second.records(), self.records());
        lemma_taken_twice(
            first.framed(),
            second.framed(),
            self.framed(),
            first.records().line(),
            later(first.records().deadline(), first.clock().time()),
            second.clock().time(),
            later(second.records().deadline(), second.clock().time()),
            self.clock().time(),
        );
        if self.framed() == first.framed() {
            assert(second.framed() =~= first.framed());
        }
    }

    /// What the interface has served twice, one time after the other, it has served.
    pub proof fn lemma_served_twice(&self, first: &Self, second: &Self)
        requires
            second.served(first),
            self.served(second),
        ensures
            self.served(first),
    {
        self.lemma_dealt_twice(first, second);
        lemma_added_twice(
            first.records().history(),
            second.records().history(),
            self.records().history(),
        );
        let head = commands(added(first.records().history(), second.records().history()));
        let tail = commands(added(second.records().history(), self.records().history()));
        lemma_framed_twice(
            first.framed(),
            second.framed(),
            self.framed(),
            first.records().line(),
            head,
            tail,
            later(first.records().deadline(), first.clock().time()),
            second.clock().time(),
            later(second.records().deadline(), second.clock().time()),
            self.clock().time(),
        );
        if tail.len() == 0 {
            assert(self.framed() =~= second.framed());
            assert(head + tail =~= head);
        } else {
            assert((head + tail).last() == tail.last());
        }
        lemma_pulses_both(head.len(), tail.len());
        assert(first.pin_in_use().driven() + pulses(head.len()) + pulses(tail.len())
            =~= first.pin_in_use().driven() + (pulses(head.len()) + pulses(tail.len())));
    }

    /// Whether the interface, which was `start`, has since sent the display in use the first
    /// `count` of the instructions that `command` takes, and nothing else: nothing has gone
    /// out on the link but in a frame.
    pub open spec fn progressed(&self, start: &Self, command: Command, count: int) -> bool {
        &&& self.same_but_display(start)
        &&& start.clock().time() <= self.clock().time()
        &&& later(start.records().deadline(), start.clock().time()) <= later(
            self.records().deadline(),
            self.clock().time(),
        )
        &&& sent_first(
            start.records().history(),
            start.records().spec_mode(),
            command,
            count,
            self.records().history(),
            self.records().spec_mode(),
        )
        &&& framed_all(
            start.framed(),
            self.framed(),
            start.records().line(),
            issued(start.records().spec_mode(), command).take(count),
            later(start.records().deadline(), start.clock().time()),
            self.clock().time(),
        )
        &&& self.framed() == start.framed() ==> self.link() == start.link()
        &&& self.booked(start)
        &&& self.pin_in_use().driven() == start.pin_in_use().driven() + pulses(count as nat)
    }

    /// Sends the display in use `next`, which is the instruction that follows the first
    /// `count` of those that `command` takes.
    fn advance(
        &mut self,
        command: Command,
        next: Command,
        Ghost(start): Ghost<Self>,
        Ghost(count): Ghost<int>,
    ) -> (r: Result<(), Error<S::Error, Cs::Error>>)
        requires
            PINS > 0,
            old(self).progressed(&start, command, count),
            count < issued(start.records().spec_mode(), command).len(),
            issued(start.records().spec_mode(), command)[count] == next,
        ensures
            r is Ok ==> forall|error: Error<S::Error, Cs::Error>|
                #[trigger] final(self).failed_times(error) == old(self).failed_times(error),
            r matches Err(error) ==> old(self).failed_times(error) < final(self).failed_times(
                error,
            ),
            forall|error: Error<S::Error, Cs::Error>|
                old(self).failed_times(error) <= #[trigger] final(self).failed_times(error),
            final(self).same_but_display(&start),
            taken(
                start.framed(),
                final(self).framed(),
                start.records().line(),
                later(start.records().deadline(), start.clock().time()),
                final(self).clock().time(),
            ),
            start.clock().time() <= final(self).clock().time(),
            r is Ok ==> final(self).progressed(&start, command, count + 1),
            r is Ok ==> final(self).records().deadline() == after(
                final(self).clock().time(),
                next.spec_execution_time() as u64,
            ),
            r is Err ==> executed(
                start.records().history(),
                start.records().spec_mode(),
                command,
                false,
                final(self).records().history(),
                final(self).records().spec_mode(),
            ),
            r matches Err(Error::Pin(_)) ==> final(self).records() == old(self).records(),
            r matches Err(Error::Link(_)) ==> final(self).records().deadline() == after(
                final(self).clock().time(),
                next.spec_execution_time() as u64,
            ) && final(self).records().history() == old(self).records().history()
                && final(self).records().spec_mode() == old(self).records().spec_mode(),
            !(r matches Err(Error::Link(_))) ==> final(self).booked(&start),
            r is Err ==> commands(
                added(start.records().history(), final(self).records().history()),
            ) == issued(start.records().spec_mode(), command).take(count),
            !(r matches Err(Error::Pin(_))) ==> !final(self).pin_in_use().level(),
            slept_until(old(self).clock(), final(self).clock(), old(self).records().deadline()),
            final(self).framed() == start.framed() ==> final(self).link() == start.link(),
            later(start.records().deadline(), start.clock().time()) <= later(
                final(self).records().deadline(),
                final(self).clock().time(),
            ),
    {
        let ghost mode = start.records().spec_mode();
        let r = self.issue(next);
        proof {
            let line = old(self).records().line() as int;
            assert(grown(old(self).select_pins()[line].faults(), self.select_pins()[line].faults()));
            assert forall|error: Error<S::Error, Cs::Error>|
                old(self).failed_times(error) <= #[trigger] self.failed_times(error) by {
                match error {
                    Error::Link(link) => {
                        lemma_occurrences_grown(
                            old(self).link().faults(),
                            self.link().faults(),
                            link,
                        );
                    },
                    Error::Pin(pin) => {
                        lemma_occurrences_grown(
                            old(self).select_pins()[line].faults(),
                            self.select_pins()[line].faults(),
                            pin,
                        );
                    },
                }
            }
            if r is Err && r->Err_0 is Link {
                lemma_occurrences_raised(
                    old(self).link().faults(),
                    self.link().faults(),
                    r->Err_0->Link_0,
                );
            }
            if r is Err && r->Err_0 is Pin {
                lemma_occurrences_raised(
                    old(self).select_pins()[line].faults(),
                    self.select_pins()[line].faults(),
                    r->Err_0->Pin_0,
                );
            }
            lemma_others_chain(start.lines, old(self).lines, self.lines);
            lemma_framed_is_taken(
                start.framed(),
                old(self).framed(),
                start.records().line(),
                issued(mode, command).take(count),
                later(start.records().deadline(), start.clock().time()),
                old(self).clock().time(),
            );
            lemma_taken_twice(
                start.framed(),
                old(self).framed(),
                self.framed(),
                start.records().line(),
                later(start.records().deadline(), start.clock().time()),
                old(self).clock().time(),
                later(old(self).records().deadline(), old(self).clock().time()),
                self.clock().time(),
            );
            if r is Ok {
                lemma_sent_next(
                    start.records().history(),
                    mode,
                    command,
                    count,
                    old(self).records().history(),
                    old(self).records().spec_mode(),
                );
                assert(issued(mode, command).take(count + 1) =~= issued(mode, command).take(
                    count,
                ).push(next));
                let sent = issued(mode, command).take(count + 1);
                lemma_commands_of_steps(sent);
                assert(added(start.records().history(), self.records().history()) =~= steps(
                    sent,
                ));
                assert(start.records().history().is_prefix_of(self.records().history()));
                assert(sent.last() == next);
                assert(pulses((count + 1) as nat) == pulses(count as nat).push(true).push(
                    false,
                ));
                assert(self.pin_in_use().driven() =~= start.pin_in_use().driven() + pulses(
                    (count + 1) as nat,
                ));
            } else {
                let sent = issued(mode, command).take(count);
                lemma_commands_of_steps(sent);
                assert(added(start.records().history(), self.records().history()) =~= steps(
                    sent,
                ));
                lemma_sent_some(
                    start.records().history(),
                    mode,
                    command,
                    count,
                    self.records().history(),
                    self.records().spec_mode(),
                );
            }
        }
        r
    }
}

impl<S, Cs, C, const PINS: usize> Attached for Interface<S, Cs, C, PINS> {
    /// Whether the bus was made for one display or more.
    open spec fn attached(&self) -> bool {
        PINS > 0
    }
}

impl<S: Link, Cs: OutPin, C: Clock, const PINS: usize> Execute for Interface<S, Cs, C, PINS> {
    type Error = Error<S::Error, Cs::Error>;

    open spec fn history(&self) -> Seq<Step> {
        self.records().history()
    }

    open spec fn mode(&self) -> Mode {
        self.records().spec_mode()
    }

    open spec fn failures(&self, error: Self::Error) -> nat {
        self.failed_times(error)
    }

    open spec fn kept(&self, before: &Self) -> bool {
        self.dealt(before)
    }

    open spec fn followed(&self, before: &Self) -> bool {
        self.served(before)
    }

    open spec fn stopped(&self, before: &Self, command: Command, error: Self::Error) -> bool {
        self.halted(before, command, error)
    }

    proof fn lemma_kept_twice(&self, first: &Self, second: &Self) {
        self.lemma_dealt_twice(first, second);
    }

    proof fn lemma_followed_twice(&self, first: &Self, second: &Self) {
        self.lemma_served_twice(first, second);
    }

    /// Sends the display in use `command`, after the instructions that bring it to a set in
    /// which it takes `command`, each in a frame of its own. Each frame waits for the deadline
    /// that the one before it has booked: nothing goes out on the link before the deadline
    /// has passed, as [`Self::dealt`] says, whatever comes of it. A frame that the link has
    /// failed in books the execution time of its instruction like any other; one whose
    /// chip-select has failed books nothing.
    fn execute(&mut self, command: Command) -> (r: Result<(), Self::Error>)
        ensures
            r is Ok ==> framed_all(
                old(self).framed(),
                final(self).framed(),
                old(self).records().line(),
                issued(old(self).records().spec_mode(), command),
                later(old(self).records().deadline(), old(self).clock().time()),
                final(self).clock().time(),
            ),
            r is Ok ==> final(self).records().deadline() == after(
                final(self).clock().time(),
                command.spec_execution_time() as u64,
            ),
            !(r matches Err(Error::Pin(_))) ==> !final(self).pin_in_use().level(),
            old(self).records().spec_mode().spec_bridge(command) is None ==> slept_until(
                old(self).clock(),
                final(self).clock(),
                old(self).records().deadline(),
            ),
    {
        let ghost start = *self;
        let ghost mode = self.records().spec_mode();
        proof {
            lemma_sent_none(self.records().history(), mode, command);
            assert(issued(mode, command).take(0) =~= Seq::<Command>::empty());
            assert(added(self.records().history(), self.records().history()) =~= Seq::<
                Step,
            >::empty());
            assert(self.records().history().is_prefix_of(self.records().history()));
            assert(self.pin_in_use().driven() + pulses(0) =~= self.pin_in_use().driven());
        }
        let ghost mut count: int = 0;
        match self.lines.mode().bridge(command) {
            Some(first) => {
                self.advance(command, first, Ghost(start), Ghost(0))?;
                proof {
                    count = 1;
                }
                match self.lines.mode().bridge(command) {
                    Some(second) => {
                        self.advance(command, second, Ghost(start), Ghost(1))?;
                        proof {
                            count = 2;
                        }
                    },
                    None => {},
                }
            },
            None => {},
        }
        proof {
            crate::mode::lemma_route_is_admitted(mode, command);
        }
        let r = self.advance(command, command, Ghost(start), Ghost(count));
        proof {
            if r is Ok {
                assert(issued(mode, command).take(count + 1) =~= issued(mode, command));
                lemma_sent_all(
                    start.records().history(),
                    mode,
                    command,
                    self.records().history(),
                    self.records().spec_mode(),
                );
                let sent = issued(mode, command);
                lemma_commands_of_steps(sent);
                assert(added(start.records().history(), self.records().history()) =~= steps(
                    sent,
                ));
                assert(start.records().history().is_prefix_of(self.records().history()));
                assert(sent.last() == command);
                assert(self.framed().last() == self.framed()[start.framed().len() + (sent.len()
                    - 1)]);
            }
        }
        r
    }
}

impl<S: Link, Cs: OutPin, C: Clock, const PINS: usize> Delay for Interface<S, Cs, C, PINS> {
    /// Returns once `micros` microseconds have passed on the clock, with nothing sent.
    fn delay(&mut self, micros: u32)
        ensures
            final(self).framed() == old(self).framed(),
            final(self).link() == old(self).link(),
            final(self).select_pins() == old(self).select_pins(),
            final(self).records().deadline() == old(self).records().deadline(),
            after(old(self).clock().time(), micros as u64) <= final(self).clock().time(),
    {
        sleep(&mut self.clock, micros as u64);
        self.lines.rested(micros);
        proof {
            let rest = added(old(self).records().history(), self.records().history());
            assert(rest =~= seq![Step::Pause(micros)]);
            assert(rest.drop_last() =~= Seq::<Step>::empty());
            assert(commands(rest) =~= Seq::<Command>::empty()) by {
                reveal_with_fuel(commands, 2);
            }
            assert(old(self).records().history().is_prefix_of(self.records().history()));
            assert(self.pin_in_use().driven() + pulses(0) =~= self.pin_in_use().driven());
        }
    }
}

impl<S: Link, Cs: OutPin, C: Clock, const PINS: usize> SharedBus for Interface<S, Cs, C, PINS> {
    open spec fn displays(&self) -> nat {
        PINS as nat
    }

    open spec fn in_use(&self) -> nat {
        self.records().line() as nat
    }

    fn num(&self) -> (n: usize) {
        PINS
    }

    /// The bus with display `idx` in use, where there is such a display. The link, the
    /// pins, the clock and what is kept of each display stay as they are.
    fn get(&mut self, idx: usize) -> (r: Option<&mut Self>)
        ensures
            r matches Some(display) ==> display.records().deadlines() == old(
                self,
            ).records().deadlines() && display.records().modes() == old(self).records().modes()
                && display.records().histories() == old(self).records().histories()
                && display.link() == old(self).link() && display.select_pins() == old(
                self,
            ).select_pins() && display.clock() == old(self).clock() && display.framed() == old(
                self,
            ).framed(),
    {
        if self.lines.choose_line(idx) {
            Some(self)
        } else {
            None
        }
    }
}

} // verus!
