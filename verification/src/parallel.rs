//! Traits for handling the ST7920 through a parallel bus interface
//!
//! The parallel interface consists in a data bus, an enable signal and two additional
//! signals to select which _register_ to operate on
//! (check [`Control::select()`] for more informations).
//!
//! What goes over the bus is described by its _cycles_: a cycle is one pulse of the enable
//! signal, together with what the other wires showed when the pulse ended, which is when the
//! chip latches them.

use crate::command::Command;
use crate::hal::{after, later, spec_after, Duration, Instant};
use crate::model::{lemma_pulses_both, pulses, raised};
use crate::Attached;
use vstd::prelude::*;

pub mod interface;

pub use interface::{Interface, Interface4Bit, Interface8Bit};

verus! {

/// What the data wires show.
#[derive(Clone, Copy, Debug, PartialEq, Eq, Structural)]
pub enum Data {
    /// This side drives every wire; wire `i` has the level of bit `i` of the value.
    Driven(u8),
    /// This side drives no wire: the bus is left to the chip.
    Released,
    /// This side drives some of the wires only.
    Mixed,
}

/// What the wires of the bus show to a display: which register is addressed, in which
/// direction, and the data.
pub struct Signal {
    /// The level of the RS signal.
    pub rs: bool,
    /// The level of the RW signal.
    pub rw: bool,
    /// What the data wires show.
    pub data: Data,
}

/// One pulse of an enable signal, with what the wires showed when it ended.
pub struct Cycle {
    /// The enable signal that pulsed, by its place among the enable signals of the bus.
    pub line: usize,
    /// What the wires showed.
    pub signal: Signal,
    /// The latest instant that the clock was known to have reached when the pulse ended.
    pub at: Instant,
}

impl Cycle {
    /// Whether two cycles address the same register of the same display.
    pub open spec fn same_register(self, other: Cycle) -> bool {
        self.line == other.line && self.signal.rs == other.signal.rs && self.signal.rw
            == other.signal.rw
    }

    /// The cycle with `data` on the data wires in place of its own.
    pub open spec fn showing(self, data: Data) -> Cycle {
        Cycle {
            line: self.line,
            signal: Signal { rs: self.signal.rs, rw: self.signal.rw, data },
            at: self.at,
        }
    }

    /// The cycle with the levels `rs` and `rw` in place of its own.
    pub open spec fn addressing(self, rs: bool, rw: bool) -> Cycle {
        Cycle { line: self.line, signal: Signal { rs, rw, data: self.signal.data }, at: self.at }
    }
}

/// The data `data`, each on the register that the levels `rs` and `rw` address.
pub open spec fn to_register(rs: bool, rw: bool, data: Seq<Data>) -> Seq<Signal> {
    data.map_values(|d: Data| Signal { rs, rw, data: d })
}

/// The data `data`, each on the register that `wires` address.
pub open spec fn on(wires: Cycle, data: Seq<Data>) -> Seq<Signal> {
    to_register(wires.signal.rs, wires.signal.rw, data)
}

/// Whether `after` is `before` followed by one cycle for each element of `signals`, in order:
/// each on the enable signal `line`, each with the wires as `signals` says, and each ended
/// between `since` and `until`.
pub open spec fn carried(
    before: Seq<Cycle>,
    after: Seq<Cycle>,
    line: usize,
    signals: Seq<Signal>,
    since: Instant,
    until: Instant,
) -> bool {
    &&& after.len() == before.len() + signals.len()
    &&& forall|i: int| 0 <= i < before.len() ==> after[i] == before[i]
    &&& forall|i: int|
        0 <= i < signals.len() ==> {
            let cycle = #[trigger] after[before.len() + i];
            &&& cycle.line == line
            &&& cycle.signal == signals[i]
            &&& since <= cycle.at <= until
        }
}

/// Whether `after` is `before` followed by one cycle for each of the first of `signals`, or
/// for all of them: what a read that failed has left on the bus. The pulse in which a read
/// fails ends like any other.
pub open spec fn at_most(
    before: Seq<Cycle>,
    after: Seq<Cycle>,
    line: usize,
    signals: Seq<Signal>,
    since: Instant,
    until: Instant,
) -> bool {
    exists|count: int|
        0 <= count <= signals.len() && carried(
            before,
            after,
            line,
            #[trigger] signals.take(count),
            since,
            until,
        )
}

/// What has carried the first of some signals has carried the first of these signals
/// followed by others.
pub proof fn lemma_at_most_first(
    before: Seq<Cycle>,
    after: Seq<Cycle>,
    line: usize,
    head: Seq<Signal>,
    tail: Seq<Signal>,
    since: Instant,
    until: Instant,
)
    requires
        at_most(before, after, line, head, since, until),
    ensures
        at_most(before, after, line, head + tail, since, until),
{
    let count = choose|count: int|
        0 <= count <= head.len() && carried(
            before,
            after,
            line,
            #[trigger] head.take(count),
            since,
            until,
        );
    assert((head + tail).take(count) =~= head.take(count));
}

/// What has carried some signals and then the first of others has carried the first of the
/// ones followed by the others.
pub proof fn lemma_at_most_second(
    before: Seq<Cycle>,
    between: Seq<Cycle>,
    after: Seq<Cycle>,
    line: usize,
    head: Seq<Signal>,
    tail: Seq<Signal>,
    since: Instant,
    middle: Instant,
    later: Instant,
    until: Instant,
)
    requires
        carried(before, between, line, head, since, middle),
        at_most(between, after, line, tail, later, until),
        since <= later,
        middle <= until,
    ensures
        at_most(before, after, line, head + tail, since, until),
{
    let count = choose|count: int|
        0 <= count <= tail.len() && carried(
            between,
            after,
            line,
            #[trigger] tail.take(count),
            later,
            until,
        );
    lemma_carried_twice(
        before,
        between,
        after,
        line,
        head,
        tail.take(count),
        since,
        middle,
        later,
        until,
    );
    assert((head + tail).take(head.len() + count) =~= head + tail.take(count));
}

/// What has carried the first of some signals between two instants has done so between an
/// earlier and a later one.
pub proof fn lemma_at_most_within(
    before: Seq<Cycle>,
    after: Seq<Cycle>,
    line: usize,
    signals: Seq<Signal>,
    since: Instant,
    until: Instant,
    earlier: Instant,
    later: Instant,
)
    requires
        at_most(before, after, line, signals, since, until),
        earlier <= since,
        until <= later,
    ensures
        at_most(before, after, line, signals, earlier, later),
{
    let count = choose|count: int|
        0 <= count <= signals.len() && carried(
            before,
            after,
            line,
            #[trigger] signals.take(count),
            since,
            until,
        );
    assert(carried(before, after, line, signals.take(count), earlier, later));
}

/// What has carried nothing has carried the first of any signals.
pub proof fn lemma_at_most_none(
    before: Seq<Cycle>,
    line: usize,
    signals: Seq<Signal>,
    since: Instant,
    until: Instant,
)
    ensures
        at_most(before, before, line, signals, since, until),
{
    assert(signals.take(0).len() == 0);
    assert(carried(before, before, line, signals.take(0), since, until));
}

/// Data on a register, followed by other data on it, are the ones followed by the others.
pub proof fn lemma_on_both(wires: Cycle, head: Seq<Data>, tail: Seq<Data>)
    ensures
        on(wires, head + tail) == on(wires, head) + on(wires, tail),
{
    assert(on(wires, head + tail) =~= on(wires, head) + on(wires, tail));
}

/// Whether `after` is `before` followed by one cycle for each of the first of `signals`, but
/// not for all of them: what a transfer that failed has left on the bus.
pub open spec fn partly(
    before: Seq<Cycle>,
    after: Seq<Cycle>,
    line: usize,
    signals: Seq<Signal>,
    since: Instant,
    until: Instant,
) -> bool {
    exists|count: int|
        0 <= count < signals.len() && carried(
            before,
            after,
            line,
            #[trigger] signals.take(count),
            since,
            until,
        )
}

/// What has carried a part of some signals has carried a part of these signals followed by
/// others.
pub proof fn lemma_partly_first(
    before: Seq<Cycle>,
    after: Seq<Cycle>,
    line: usize,
    head: Seq<Signal>,
    tail: Seq<Signal>,
    since: Instant,
    until: Instant,
)
    requires
        partly(before, after, line, head, since, until),
    ensures
        partly(before, after, line, head + tail, since, until),
{
    let count = choose|count: int|
        0 <= count < head.len() && carried(
            before,
            after,
            line,
            #[trigger] head.take(count),
            since,
            until,
        );
    assert((head + tail).take(count) =~= head.take(count));
}

/// What has carried some signals and then a part of others has carried a part of the first
/// followed by the second.
pub proof fn lemma_partly_second(
    before: Seq<Cycle>,
    between: Seq<Cycle>,
    after: Seq<Cycle>,
    line: usize,
    head: Seq<Signal>,
    tail: Seq<Signal>,
    since: Instant,
    middle: Instant,
    later: Instant,
    until: Instant,
)
    requires
        carried(before, between, line, head, since, middle),
        partly(between, after, line, tail, later, until),
        since <= later,
        middle <= until,
    ensures
        partly(before, after, line, head + tail, since, until),
{
    let count = choose|count: int|
        0 <= count < tail.len() && carried(
            between,
            after,
            line,
            #[trigger] tail.take(count),
            later,
            until,
        );
    lemma_carried_twice(
        before,
        between,
        after,
        line,
        head,
        tail.take(count),
        since,
        middle,
        later,
        until,
    );
    assert((head + tail).take(head.len() + count) =~= head + tail.take(count));
}

/// What has carried a part of some signals between two instants has done so between an
/// earlier and a later one.
pub proof fn lemma_partly_within(
    before: Seq<Cycle>,
    after: Seq<Cycle>,
    line: usize,
    signals: Seq<Signal>,
    since: Instant,
    until: Instant,
    earlier: Instant,
    later: Instant,
)
    requires
        partly(before, after, line, signals, since, until),
        earlier <= since,
        until <= later,
    ensures
        partly(before, after, line, signals, earlier, later),
{
    let count = choose|count: int|
        0 <= count < signals.len() && carried(
            before,
            after,
            line,
            #[trigger] signals.take(count),
            since,
            until,
        );
    assert(carried(before, after, line, signals.take(count), earlier, later));
}

/// What has carried nothing has carried a part of any signals.
pub proof fn lemma_partly_none(
    before: Seq<Cycle>,
    line: usize,
    signals: Seq<Signal>,
    since: Instant,
    until: Instant,
)
    requires
        signals.len() > 0,
    ensures
        partly(before, before, line, signals, since, until),
{
    assert(signals.take(0).len() == 0);
    assert(carried(before, before, line, signals.take(0), since, until));
}

/// Whether `after` is `before` followed by cycles of the display `line` only, each ended
/// between `since` and `until`.
pub open spec fn pulsed(
    before: Seq<Cycle>,
    after: Seq<Cycle>,
    line: usize,
    since: Instant,
    until: Instant,
) -> bool {
    &&& before.is_prefix_of(after)
    &&& forall|i: int|
        before.len() <= i < after.len() ==> (#[trigger] after[i]).line == line && since
            <= after[i].at <= until
}

/// What was pulsed in two parts, one after the other, was pulsed as a whole.
pub proof fn lemma_pulsed_twice(
    first: Seq<Cycle>,
    second: Seq<Cycle>,
    third: Seq<Cycle>,
    line: usize,
    since: Instant,
    middle: Instant,
    later: Instant,
    until: Instant,
)
    requires
        pulsed(first, second, line, since, middle),
        pulsed(second, third, line, later, until),
        since <= later,
        middle <= until,
    ensures
        pulsed(first, third, line, since, until),
{
    lemma_prefix_chain(first, second, third);
    assert forall|i: int| first.len() <= i < third.len() implies (#[trigger] third[i]).line == line
        && since <= third[i].at <= until by {
        if i < second.len() {
            assert(third[i] == second[i]);
        }
    }
}

/// What was carried was pulsed.
pub proof fn lemma_carried_is_pulsed(
    before: Seq<Cycle>,
    after: Seq<Cycle>,
    line: usize,
    signals: Seq<Signal>,
    since: Instant,
    until: Instant,
)
    requires
        carried(before, after, line, signals, since, until),
    ensures
        pulsed(before, after, line, since, until),
{
    assert(after.subrange(0, before.len() as int) =~= before);
    assert forall|i: int| before.len() <= i < after.len() implies (#[trigger] after[i]).line == line
        && since <= after[i].at <= until by {
        assert(after[i] == after[before.len() + (i - before.len())]);
    }
}

/// Whether the bus rested for `rest` between cycle `i` and the cycle after it.
pub open spec fn rested(cycles: Seq<Cycle>, i: int, rest: Duration) -> bool {
    after(cycles[i].at, rest) <= cycles[i + 1].at
}

/// What was carried in two parts, one after the other, was carried as a whole.
pub proof fn lemma_carried_twice(
    before: Seq<Cycle>,
    between: Seq<Cycle>,
    after: Seq<Cycle>,
    line: usize,
    head: Seq<Signal>,
    tail: Seq<Signal>,
    since: Instant,
    middle: Instant,
    later: Instant,
    until: Instant,
)
    requires
        carried(before, between, line, head, since, middle),
        carried(between, after, line, tail, later, until),
        since <= later,
        middle <= until,
    ensures
        carried(before, after, line, head + tail, since, until),
{
    assert forall|i: int| 0 <= i < (head + tail).len() implies {
        let cycle = #[trigger] after[before.len() + i];
        &&& cycle.line == line
        &&& cycle.signal == (head + tail)[i]
        &&& since <= cycle.at <= until
    } by {
        if i < head.len() {
            assert(after[before.len() + i] == between[before.len() + i]);
        } else {
            assert(after[before.len() + i] == after[between.len() + (i - head.len())]);
        }
    }
}

/// A display is left alone for the time that it was booked for: where a transfer ended by
/// `booked` and the display was booked for `duration` from then on, no cycle of a transfer
/// that waited for that deadline ends less than `duration` after a cycle of the first.
pub proof fn lemma_left_alone(
    first: Seq<Cycle>,
    second: Seq<Cycle>,
    third: Seq<Cycle>,
    line: usize,
    head: Seq<Signal>,
    tail: Seq<Signal>,
    since: Instant,
    booked: Instant,
    duration: Duration,
    read: Instant,
    until: Instant,
)
    requires
        carried(first, second, line, head, since, booked),
        carried(second, third, line, tail, later(spec_after(booked, duration), read), until),
    ensures
        forall|i: int, j: int|
            0 <= i < head.len() && 0 <= j < tail.len() ==> spec_after(
                (#[trigger] second[first.len() + i]).at,
                duration,
            ) <= (#[trigger] third[second.len() + j]).at,
{
}

/// The values that the data wires of a bus of `width` wires take, one after the other, to
/// carry the byte `data`: the byte itself on eight wires, its high half and then its low half
/// on four.
pub open spec fn beats(width: nat, data: u8) -> Seq<Data> {
    if width == 4 {
        seq![Data::Driven(data >> 4), Data::Driven(data & 0xF)]
    } else {
        seq![Data::Driven(data)]
    }
}

/// The values that the data wires of a bus of `width` wires take, one after the other, to
/// carry `words`, each with its high byte first.
pub open spec fn beats_of_words(width: nat, words: Seq<u16>) -> Seq<Data>
    decreases words.len(),
{
    if words.len() == 0 {
        seq![]
    } else {
        beats_of_words(width, words.drop_last()) + beats(width, spec_high(words.last())) + beats(
            width,
            spec_low(words.last()),
        )
    }
}

/// What the data wires show, pulse after pulse, while a bus of `width` wires is read for one
/// byte: they are left to the chip, for one pulse on eight wires and for two on four.
pub open spec fn turns(width: nat) -> Seq<Data> {
    if width == 4 {
        seq![Data::Released, Data::Released]
    } else {
        seq![Data::Released]
    }
}

/// What the wires show, pulse after pulse, while `command` goes over a bus of `width` wires.
/// A `Write` goes to the RAM (RS high, RW low), the high byte of its word first; every other
/// instruction goes to the instruction register (RS low, RW low), as the one or two bytes of
/// its opcode.
pub open spec fn transfer(width: nat, command: Command) -> Seq<Signal> {
    match command {
        Command::Write(data) => to_register(
            true,
            false,
            beats(width, spec_high(data)) + beats(width, spec_low(data)),
        ),
        _ => if command.opcode().len() == 2 {
            to_register(
                false,
                false,
                beats(width, command.opcode()[0]) + beats(width, command.opcode()[1]),
            )
        } else {
            to_register(false, false, beats(width, command.opcode()[0]))
        },
    }
}

/// What the wires show, pulse after pulse, while `commands` go over a bus of `width` wires
/// one after the other.
pub open spec fn traffic(width: nat, commands: Seq<Command>) -> Seq<Signal>
    decreases commands.len(),
{
    if commands.len() == 0 {
        seq![]
    } else {
        traffic(width, commands.drop_last()) + transfer(width, commands.last())
    }
}

/// What goes over the bus for some instructions and then one more is what goes over it for
/// the first, followed by what goes over it for the last.
pub proof fn lemma_traffic_one_more(width: nat, commands: Seq<Command>, command: Command)
    ensures
        traffic(width, commands.push(command)) == traffic(width, commands) + transfer(
            width,
            command,
        ),
        traffic(width, Seq::<Command>::empty()) == Seq::<Signal>::empty(),
{
    assert(commands.push(command).drop_last() =~= commands);
}

/// What goes over the bus for some instructions and then for others is what goes over it for
/// the first, followed by what goes over it for the second.
pub proof fn lemma_traffic_both(width: nat, head: Seq<Command>, tail: Seq<Command>)
    ensures
        traffic(width, head + tail) == traffic(width, head) + traffic(width, tail),
    decreases tail.len(),
{
    if tail.len() == 0 {
        assert(head + tail =~= head);
        assert(traffic(width, head) + traffic(width, tail) =~= traffic(width, head));
    } else {
        lemma_traffic_both(width, head, tail.drop_last());
        assert((head + tail).drop_last() =~= head + tail.drop_last());
        assert((head + tail).last() == tail.last());
        assert(traffic(width, head + tail) =~= traffic(width, head) + traffic(width, tail));
    }
}

/// Every instruction takes a pulse: something goes over the bus for one or more
/// instructions.
pub proof fn lemma_traffic_is_some(width: nat, commands: Seq<Command>)
    requires
        commands.len() > 0,
    ensures
        traffic(width, commands).len() > 0,
{
    assert(transfer(width, commands.last()).len() > 0);
}

/// The high byte of a word.
pub open spec fn spec_high(word: u16) -> u8 {
    (word >> 8) as u8
}

/// The high byte of a word.
#[verifier::when_used_as_spec(spec_high)]
pub fn high(word: u16) -> (byte: u8)
    ensures
        byte == spec_high(word),
{
    assert(word >> 8 <= 0xFF) by (bit_vector);
    (word >> 8) as u8
}

/// The low byte of a word.
pub open spec fn spec_low(word: u16) -> u8 {
    (word & 0xFF) as u8
}

/// The low byte of a word.
#[verifier::when_used_as_spec(spec_low)]
pub fn low(word: u16) -> (byte: u8)
    ensures
        byte == spec_low(word),
{
    assert(word & 0xFF <= 0xFF) by (bit_vector);
    (word & 0xFF) as u8
}

/// The word made of a high and a low byte.
pub open spec fn spec_word(high: u8, low: u8) -> u16 {
    (high as u16) << 8 | (low as u16)
}

/// The word made of a high and a low byte.
#[verifier::when_used_as_spec(spec_word)]
pub fn word(high: u8, low: u8) -> (word: u16)
    ensures
        word == spec_word(high, low),
{
    (high as u16) << 8 | (low as u16)
}

/// A parallel bus interface to an ST7920 controlled LCD
pub trait Control: Attached + Sized {
    type Error;

    /// The cycles that the bus has seen, oldest first.
    spec fn cycles(&self) -> Seq<Cycle>;

    /// What a pulse of the enable signal would make the chip latch now: the enable signal that
    /// is in use, the levels of RS and RW, what the data wires show, and the clock.
    spec fn wires(&self) -> Cycle;

    /// Whether the enable signal is high.
    spec fn enabled(&self) -> bool;

    /// The levels that the enable signal was driven to, oldest first.
    spec fn strobed(&self) -> Seq<bool>;

    /// The number of data wires.
    spec fn width(&self) -> nat;

    /// The errors that the pins of the bus have reported, oldest first.
    spec fn faults(&self) -> Seq<Self::Error>;

    /// Set the enable signal high
    fn enable(&mut self) -> (r: Result<(), Self::Error>)
        requires
            old(self).attached(),
        ensures
            final(self).attached(),
            r is Ok ==> final(self).faults() == old(self).faults(),
            r matches Err(error) ==> final(self).faults() == old(self).faults().push(error)
                && final(self).wires() == old(self).wires() && final(self).enabled() == old(
                self,
            ).enabled(),
            final(self).cycles() == old(self).cycles(),
            final(self).width() == old(self).width(),
            final(self).wires().line == old(self).wires().line,
            old(self).wires().at <= final(self).wires().at,
            r is Ok ==> final(self).enabled(),
            r is Ok ==> final(self).strobed() == old(self).strobed().push(true),
            r is Err ==> final(self).strobed() == old(self).strobed(),
            r is Ok ==> final(self).wires() == old(self).wires(),
    ;

    /// Set the enable signal low. A cycle ends where the signal was high: the chip latches on
    /// the falling edge.
    fn disable(&mut self) -> (r: Result<(), Self::Error>)
        requires
            old(self).attached(),
        ensures
            final(self).attached(),
            r is Ok ==> final(self).faults() == old(self).faults(),
            r matches Err(error) ==> final(self).faults() == old(self).faults().push(error)
                && final(self).wires() == old(self).wires() && final(self).enabled() == old(
                self,
            ).enabled(),
            final(self).width() == old(self).width(),
            final(self).wires().line == old(self).wires().line,
            old(self).wires().at <= final(self).wires().at,
            r is Ok ==> !final(self).enabled(),
            r is Ok ==> final(self).strobed() == old(self).strobed().push(false),
            r is Err ==> final(self).strobed() == old(self).strobed(),
            r is Ok ==> final(self).wires() == old(self).wires(),
            r is Ok && old(self).enabled() ==> final(self).cycles() == old(self).cycles().push(
                old(self).wires(),
            ),
            r is Err || !old(self).enabled() ==> final(self).cycles() == old(self).cycles(),
    ;

    /// Send an impulse on the enable pin: high, then low
    fn latch(&mut self) -> (r: Result<(), Self::Error>)
        requires
            old(self).attached(),
        ensures
            final(self).attached(),
            r is Ok ==> final(self).faults() == old(self).faults(),
            r matches Err(error) ==> final(self).faults() == old(self).faults().push(error)
                && final(self).wires() == old(self).wires() && (final(self).enabled() || !old(
                self,
            ).enabled()),
            final(self).width() == old(self).width(),
            final(self).wires().line == old(self).wires().line,
            old(self).wires().at <= final(self).wires().at,
            r is Ok ==> !final(self).enabled(),
            r is Ok ==> final(self).strobed() == old(self).strobed().push(true).push(false),
            r is Err ==> final(self).strobed() == old(self).strobed() || final(self).strobed()
                == old(self).strobed().push(true),
            r is Ok ==> final(self).wires() == old(self).wires(),
            r is Ok ==> final(self).cycles() == old(self).cycles().push(old(self).wires()),
            r is Err ==> final(self).cycles() == old(self).cycles(),
    {
        self.enable()?;
        self.disable()
    }

    /// Run the given closure while the enable signal is high
    ///
    /// After the closure returns the enable signal is set to low
    fn latched<T, F: FnOnce(&mut Self) -> T>(&mut self, run: F) -> (r: Result<T, Self::Error>)
        requires
            old(self).attached(),
            forall|bus: &mut Self, out: T|
                bus.attached() && call_ensures(run, (bus,), out) ==> final(bus).attached(),
            forall|bus: &mut Self|
                bus.attached() && bus.enabled() && bus.strobed() == old(self).strobed().push(true)
                    && bus.cycles() == old(self).cycles() && bus.wires() == old(self).wires()
                    && bus.width() == old(self).width() && bus.faults() == old(self).faults()
                    ==> call_requires(run, (bus,)),
        ensures
            final(self).attached(),
            r matches Ok(out) ==> exists|bus: &mut Self| #[trigger]
                call_ensures(run, (bus,), out) && bus.enabled() && bus.cycles() == old(
                    self,
                ).cycles() && bus.wires() == old(self).wires() && bus.width() == old(self).width()
                    && bus.faults() == old(self).faults() && !final(self).enabled()
                    && bus.strobed() == old(self).strobed().push(true)
                    && final(self).strobed() == final(bus).strobed().push(false)
                    && final(self).width() == final(bus).width()
                    && final(self).wires() == final(bus).wires()
                    && final(self).faults() == final(bus).faults() && final(self).cycles() == (
                if final(bus).enabled() {
                    final(bus).cycles().push(final(bus).wires())
                } else {
                    final(bus).cycles()
                }),
            r matches Err(error) ==> final(self).faults().len() > 0 && final(self).faults().last()
                == error,
            r matches Err(error) ==> final(self).faults() == old(self).faults().push(error)
                && final(self).cycles() == old(self).cycles() && final(self).wires() == old(
                self,
            ).wires() || exists|bus: &mut Self, out: T| #[trigger]
                call_ensures(run, (bus,), out) && bus.enabled() && bus.cycles() == old(
                    self,
                ).cycles() && bus.wires() == old(self).wires() && bus.width() == old(self).width()
                    && bus.faults() == old(self).faults()
                    && final(self).wires() == final(bus).wires()
                    && final(self).cycles() == final(bus).cycles()
                    && final(self).faults() == final(bus).faults().push(error),
    {
        self.enable()?;
        let result = run(self);
        match self.disable() {
            Ok(()) => {
                let r: Result<T, Self::Error> = Ok(result);
                assert(r->Ok_0 == result);
                r
            },
            Err(error) => Err(error),
        }
    }

    /// Run the given closure while the enable signal is high, and hand on what it returns:
    /// its error, where it fails.
    fn try_latched<T, F: FnOnce(&mut Self) -> Result<T, Self::Error>>(&mut self, run: F) -> (r:
        Result<T, Self::Error>)
        requires
            old(self).attached(),
            forall|bus: &mut Self, out: Result<T, Self::Error>|
                bus.attached() && call_ensures(run, (bus,), out) ==> final(bus).attached(),
            forall|bus: &mut Self|
                bus.attached() && bus.enabled() && bus.strobed() == old(self).strobed().push(true)
                    && bus.cycles() == old(self).cycles() && bus.wires() == old(self).wires()
                    && bus.width() == old(self).width() && bus.faults() == old(self).faults()
                    ==> call_requires(run, (bus,)),
        ensures
            final(self).attached(),
            r matches Ok(out) ==> exists|bus: &mut Self| #[trigger]
                call_ensures(run, (bus,), Ok::<T, Self::Error>(out)) && bus.enabled()
                    && bus.cycles() == old(self).cycles() && bus.wires() == old(self).wires()
                    && bus.width() == old(self).width() && bus.faults() == old(self).faults()
                    && !final(self).enabled() && bus.strobed() == old(self).strobed().push(true)
                    && final(self).strobed() == final(bus).strobed().push(false)
                    && final(self).width() == final(bus).width()
                    && final(self).wires() == final(bus).wires()
                    && final(self).faults() == final(bus).faults() && final(self).cycles() == (
                if final(bus).enabled() {
                    final(bus).cycles().push(final(bus).wires())
                } else {
                    final(bus).cycles()
                }),
            r matches Err(error) ==> final(self).faults().len() > 0 && final(self).faults().last()
                == error || exists|bus: &mut Self| #[trigger]
                call_ensures(run, (bus,), Err::<T, Self::Error>(error)) && bus.enabled()
                    && bus.cycles() == old(self).cycles() && bus.wires() == old(self).wires()
                    && bus.width() == old(self).width() && bus.faults() == old(self).faults()
                    && !final(self).enabled() && bus.strobed() == old(self).strobed().push(true)
                    && final(self).strobed() == final(bus).strobed().push(false)
                    && final(self).width() == final(bus).width()
                    && final(self).wires() == final(bus).wires()
                    && final(self).faults() == final(bus).faults() && final(self).cycles() == (
                if final(bus).enabled() {
                    final(bus).cycles().push(final(bus).wires())
                } else {
                    final(bus).cycles()
                }),
    {
        match self.latched(run) {
            Ok(result) => {
                assert(result matches Ok(out) ==> result == Ok::<T, Self::Error>(out));
                assert(result matches Err(error) ==> result == Err::<T, Self::Error>(error));
                result
            },
            Err(error) => Err(error),
        }
    }

    /// Select between the RAM, instruction or busy flag registers
    ///
    /// | rs | rw | function               | Description                   |
    /// |----|----|------------------------|-------------------------------|
    /// | `0`| `0`| [`select_command()`]   | Instruction register          |
    /// | `0`| `1`| [`select_bf_ac()`]     | Busy flag and address counter |
    /// | `1`| `0`| [`select_ram_write()`] | RAM write                     |
    /// | `1`| `1`| [`select_ram_read()`]  | RAM read                      |
    ///
    /// [`select_command()`]: Control::select_command
    /// [`select_bf_ac()`]: Control::select_bf_ac
    /// [`select_ram_write()`]: Control::select_ram_write
    /// [`select_ram_read()`]: Control::select_ram_read
    fn select(&mut self, rs: bool, rw: bool) -> (r: Result<(), Self::Error>)
        requires
            old(self).attached(),
        ensures
            final(self).attached(),
            r is Ok ==> final(self).faults() == old(self).faults(),
            r matches Err(error) ==> final(self).faults() == old(self).faults().push(error)
                && final(self).enabled() == old(self).enabled() && (final(self).wires() == old(
                self,
            ).wires() || final(self).wires() == old(self).wires().addressing(
                rs,
                old(self).wires().signal.rw,
            )),
            final(self).cycles() == old(self).cycles(),
            final(self).strobed() == old(self).strobed(),
            final(self).width() == old(self).width(),
            final(self).wires().line == old(self).wires().line,
            old(self).wires().at <= final(self).wires().at,
            r is Ok ==> final(self).wires() == old(self).wires().addressing(rs, rw),
            r is Ok ==> final(self).enabled() == old(self).enabled(),
    ;

    /// Select the command register
    fn select_command(&mut self) -> (r: Result<(), Self::Error>)
        requires
            old(self).attached(),
        ensures
            final(self).attached(),
            r is Ok ==> final(self).faults() == old(self).faults(),
            r matches Err(error) ==> final(self).faults() == old(self).faults().push(error)
                && final(self).enabled() == old(self).enabled() && (final(self).wires() == old(
                self,
            ).wires() || final(self).wires() == old(self).wires().addressing(
                false,
                old(self).wires().signal.rw,
            )),
            final(self).cycles() == old(self).cycles(),
            final(self).strobed() == old(self).strobed(),
            final(self).width() == old(self).width(),
            final(self).wires().line == old(self).wires().line,
            old(self).wires().at <= final(self).wires().at,
            r is Ok ==> final(self).wires() == old(self).wires().addressing(false, false),
            r is Ok ==> final(self).enabled() == old(self).enabled(),
    {
        self.select(false, false)
    }

    /// Select the busy flag and address counter
    fn select_bf_ac(&mut self) -> (r: Result<(), Self::Error>)
        requires
            old(self).attached(),
        ensures
            final(self).attached(),
            r is Ok ==> final(self).faults() == old(self).faults(),
            r matches Err(error) ==> final(self).faults() == old(self).faults().push(error)
                && final(self).enabled() == old(self).enabled() && (final(self).wires() == old(
                self,
            ).wires() || final(self).wires() == old(self).wires().addressing(
                false,
                old(self).wires().signal.rw,
            )),
            final(self).cycles() == old(self).cycles(),
            final(self).strobed() == old(self).strobed(),
            final(self).width() == old(self).width(),
            final(self).wires().line == old(self).wires().line,
            old(self).wires().at <= final(self).wires().at,
            r is Ok ==> final(self).wires() == old(self).wires().addressing(false, true),
            r is Ok ==> final(self).enabled() == old(self).enabled(),
    {
        self.select(false, true)
    }

    /// Setup the RAM for writing
    fn select_ram_write(&mut self) -> (r: Result<(), Self::Error>)
        requires
            old(self).attached(),
        ensures
            final(self).attached(),
            r is Ok ==> final(self).faults() == old(self).faults(),
            r matches Err(error) ==> final(self).faults() == old(self).faults().push(error)
                && final(self).enabled() == old(self).enabled() && (final(self).wires() == old(
                self,
            ).wires() || final(self).wires() == old(self).wires().addressing(
                true,
                old(self).wires().signal.rw,
            )),
            final(self).cycles() == old(self).cycles(),
            final(self).strobed() == old(self).strobed(),
            final(self).width() == old(self).width(),
            final(self).wires().line == old(self).wires().line,
            old(self).wires().at <= final(self).wires().at,
            r is Ok ==> final(self).wires() == old(self).wires().addressing(true, false),
            r is Ok ==> final(self).enabled() == old(self).enabled(),
    {
        self.select(true, false)
    }

    /// Setup the RAM for reading
    fn select_ram_read(&mut self) -> (r: Result<(), Self::Error>)
        requires
            old(self).attached(),
        ensures
            final(self).attached(),
            r is Ok ==> final(self).faults() == old(self).faults(),
            r matches Err(error) ==> final(self).faults() == old(self).faults().push(error)
                && final(self).enabled() == old(self).enabled() && (final(self).wires() == old(
                self,
            ).wires() || final(self).wires() == old(self).wires().addressing(
                true,
                old(self).wires().signal.rw,
            )),
            final(self).cycles() == old(self).cycles(),
            final(self).strobed() == old(self).strobed(),
            final(self).width() == old(self).width(),
            final(self).wires().line == old(self).wires().line,
            old(self).wires().at <= final(self).wires().at,
            r is Ok ==> final(self).wires() == old(self).wires().addressing(true, true),
            r is Ok ==> final(self).enabled() == old(self).enabled(),
    {
        self.select(true, true)
    }
}

/// A parallel bus interface to an ST7920 controlled LCD
pub trait Output: Control {
    /// Write a byte to the data bus
    fn write_u8(&mut self, data: u8) -> (r: Result<(), Self::Error>)
        requires
            old(self).attached(),
        ensures
            final(self).attached(),
            r is Ok ==> final(self).faults() == old(self).faults(),
            r matches Err(error) ==> final(self).faults() == old(self).faults().push(error),
            final(self).width() == old(self).width(),
            final(self).wires().line == old(self).wires().line,
            old(self).wires().at <= final(self).wires().at,
            pulsed(
                old(self).cycles(),
                final(self).cycles(),
                old(self).wires().line,
                old(self).wires().at,
                final(self).wires().at,
            ),
            r is Ok ==> carried(
                old(self).cycles(),
                final(self).cycles(),
                old(self).wires().line,
                on(old(self).wires(), beats(old(self).width(), data)),
                old(self).wires().at,
                final(self).wires().at,
            ),
            r is Err ==> partly(
                old(self).cycles(),
                final(self).cycles(),
                old(self).wires().line,
                on(old(self).wires(), beats(old(self).width(), data)),
                old(self).wires().at,
                final(self).wires().at,
            ),
            r is Ok ==> final(self).strobed() == old(self).strobed() + pulses(
                beats(old(self).width(), data).len(),
            ),
            r is Ok ==> final(self).wires().same_register(old(self).wires()),
    ;

    /// Write two bytes to the data bus, the high byte first
    fn write_u16(&mut self, data: u16) -> (r: Result<(), Self::Error>)
        requires
            old(self).attached(),
        ensures
            final(self).attached(),
            r is Ok ==> final(self).faults() == old(self).faults(),
            r matches Err(error) ==> final(self).faults() == old(self).faults().push(error),
            final(self).width() == old(self).width(),
            final(self).wires().line == old(self).wires().line,
            old(self).wires().at <= final(self).wires().at,
            pulsed(
                old(self).cycles(),
                final(self).cycles(),
                old(self).wires().line,
                old(self).wires().at,
                final(self).wires().at,
            ),
            r is Ok ==> carried(
                old(self).cycles(),
                final(self).cycles(),
                old(self).wires().line,
                on(
                    old(self).wires(),
                    beats(old(self).width(), high(data)) + beats(old(self).width(), low(data)),
                ),
                old(self).wires().at,
                final(self).wires().at,
            ),
            r is Err ==> partly(
                old(self).cycles(),
                final(self).cycles(),
                old(self).wires().line,
                on(
                    old(self).wires(),
                    beats(old(self).width(), high(data)) + beats(old(self).width(), low(data)),
                ),
                old(self).wires().at,
                final(self).wires().at,
            ),
            r is Ok ==> final(self).strobed() == old(self).strobed() + pulses(
                (beats(old(self).width(), high(data)) + beats(old(self).width(), low(data))).len(),
            ),
            r is Ok ==> final(self).wires().same_register(old(self).wires()),
    {
        let ghost before = *self;
        let first = self.write_u8(high(data));
        proof {
            lemma_on_both(
                before.wires(),
                beats(before.width(), high(data)),
                beats(before.width(), low(data)),
            );
            if first is Err {
                lemma_partly_first(
                    before.cycles(),
                    self.cycles(),
                    before.wires().line,
                    on(before.wires(), beats(before.width(), high(data))),
                    on(before.wires(), beats(before.width(), low(data))),
                    before.wires().at,
                    self.wires().at,
                );
            }
        }
        first?;
        let ghost between = *self;
        let r = self.write_u8(low(data));
        proof {
            if r is Err {
                lemma_partly_second(
                    before.cycles(),
                    between.cycles(),
                    self.cycles(),
                    before.wires().line,
                    on(before.wires(), beats(before.width(), high(data))),
                    on(between.wires(), beats(before.width(), low(data))),
                    before.wires().at,
                    between.wires().at,
                    between.wires().at,
                    self.wires().at,
                );
                assert(on(between.wires(), beats(before.width(), low(data))) == on(
                    before.wires(),
                    beats(before.width(), low(data)),
                ));
            }
        }
        proof {
            lemma_pulsed_twice(
                before.cycles(),
                between.cycles(),
                self.cycles(),
                before.wires().line,
                before.wires().at,
                between.wires().at,
                between.wires().at,
                self.wires().at,
            );
            if r is Ok {
                lemma_pulses_both(
                    beats(before.width(), high(data)).len(),
                    beats(before.width(), low(data)).len(),
                );
                assert(self.strobed() =~= before.strobed() + (pulses(
                    beats(before.width(), high(data)).len(),
                ) + pulses(beats(before.width(), low(data)).len())));
                lemma_carried_twice(
                    before.cycles(),
                    between.cycles(),
                    self.cycles(),
                    before.wires().line,
                    on(before.wires(), beats(before.width(), high(data))),
                    on(between.wires(), beats(before.width(), low(data))),
                    before.wires().at,
                    between.wires().at,
                    between.wires().at,
                    self.wires().at,
                );
                assert(on(
                    before.wires(),
                    beats(before.width(), high(data)) + beats(before.width(), low(data)),
                ) =~= on(before.wires(), beats(before.width(), high(data))) + on(
                    between.wires(),
                    beats(before.width(), low(data)),
                ));
            }
        }
        r
    }

    /// Write each of `words` to the data bus, in order
    fn write_all_u16(&mut self, words: &[u16]) -> (r: Result<(), Self::Error>)
        requires
            old(self).attached(),
        ensures
            final(self).attached(),
            r is Ok ==> final(self).faults() == old(self).faults(),
            r matches Err(error) ==> final(self).faults() == old(self).faults().push(error),
            final(self).width() == old(self).width(),
            final(self).wires().line == old(self).wires().line,
            old(self).wires().at <= final(self).wires().at,
            pulsed(
                old(self).cycles(),
                final(self).cycles(),
                old(self).wires().line,
                old(self).wires().at,
                final(self).wires().at,
            ),
            r is Ok ==> carried(
                old(self).cycles(),
                final(self).cycles(),
                old(self).wires().line,
                on(old(self).wires(), beats_of_words(old(self).width(), words@)),
                old(self).wires().at,
                final(self).wires().at,
            ),
            r is Err ==> exists|count: int|
                0 < count <= words@.len() && partly(
                    old(self).cycles(),
                    final(self).cycles(),
                    old(self).wires().line,
                    on(
                        old(self).wires(),
                        beats_of_words(old(self).width(), #[trigger] words@.take(count)),
                    ),
                    old(self).wires().at,
                    final(self).wires().at,
                ),
            r is Ok ==> final(self).strobed() == old(self).strobed() + pulses(
                beats_of_words(old(self).width(), words@).len(),
            ),
            r is Ok ==> final(self).wires().same_register(old(self).wires()),
    {
        let ghost start = *self;
        let mut i: usize = 0;
        proof {
            assert(words@.take(0) =~= Seq::<u16>::empty());
            assert(on(start.wires(), beats_of_words(start.width(), words@.take(0)))
                =~= Seq::<Signal>::empty());
            assert(self.cycles().subrange(0, start.cycles().len() as int) =~= start.cycles());
            assert(self.strobed() + pulses(0) =~= self.strobed());
        }
        while i < words.len()
            invariant
                i <= words.len(),
                start == *old(self),
                self.attached(),
                self.strobed() == start.strobed() + pulses(
                    beats_of_words(start.width(), words@.take(i as int)).len(),
                ),
                self.width() == start.width(),
                self.faults() == start.faults(),
                pulsed(
                    start.cycles(),
                    self.cycles(),
                    start.wires().line,
                    start.wires().at,
                    self.wires().at,
                ),
                self.wires().same_register(start.wires()),
                start.wires().at <= self.wires().at,
                carried(
                    start.cycles(),
                    self.cycles(),
                    start.wires().line,
                    on(start.wires(), beats_of_words(start.width(), words@.take(i as int))),
                    start.wires().at,
                    self.wires().at,
                ),
            decreases words.len() - i,
        {
            let ghost before = *self;
            let r = self.write_u16(words[i]);
            proof {
                lemma_pulsed_twice(
                    start.cycles(),
                    before.cycles(),
                    self.cycles(),
                    start.wires().line,
                    start.wires().at,
                    before.wires().at,
                    before.wires().at,
                    self.wires().at,
                );
            }
            proof {
                let done = words@.take(i as int);
                let next = words@.take(i + 1);
                assert(next.drop_last() =~= done);
                assert(next.last() == words@[i as int]);
                if r is Err {
                    lemma_partly_second(
                        start.cycles(),
                        before.cycles(),
                        self.cycles(),
                        start.wires().line,
                        on(start.wires(), beats_of_words(start.width(), done)),
                        on(
                            before.wires(),
                            beats(start.width(), spec_high(words@[i as int])) + beats(
                                start.width(),
                                spec_low(words@[i as int]),
                            ),
                        ),
                        start.wires().at,
                        before.wires().at,
                        before.wires().at,
                        self.wires().at,
                    );
                    assert(on(start.wires(), beats_of_words(start.width(), next)) =~= on(
                        start.wires(),
                        beats_of_words(start.width(), done),
                    ) + on(
                        before.wires(),
                        beats(start.width(), spec_high(words@[i as int])) + beats(
                            start.width(),
                            spec_low(words@[i as int]),
                        ),
                    ));
                }
            }
            r?;
            proof {
                let done = words@.take(i as int);
                let next = words@.take(i + 1);
                let more = beats(start.width(), spec_high(words@[i as int])) + beats(
                    start.width(),
                    spec_low(words@[i as int]),
                );
                lemma_pulses_both(beats_of_words(start.width(), done).len(), more.len());
                assert(beats_of_words(start.width(), next) =~= beats_of_words(
                    start.width(),
                    done,
                ) + more);
                assert(self.strobed() =~= start.strobed() + (pulses(
                    beats_of_words(start.width(), done).len(),
                ) + pulses(more.len())));
                lemma_carried_twice(
                    start.cycles(),
                    before.cycles(),
                    self.cycles(),
                    start.wires().line,
                    on(start.wires(), beats_of_words(start.width(), done)),
                    on(
                        before.wires(),
                        beats(start.width(), spec_high(words@[i as int])) + beats(
                            start.width(),
                            spec_low(words@[i as int]),
                        ),
                    ),
                    start.wires().at,
                    before.wires().at,
                    before.wires().at,
                    self.wires().at,
                );
                assert(on(start.wires(), beats_of_words(start.width(), next)) =~= on(
                    start.wires(),
                    beats_of_words(start.width(), done),
                ) + on(
                    before.wires(),
                    beats(start.width(), spec_high(words@[i as int])) + beats(
                        start.width(),
                        spec_low(words@[i as int]),
                    ),
                ));
            }
            i += 1;
        }
        proof {
            assert(words@.take(words.len() as int) =~= words@);
        }
        Ok(())
    }
}

/// A sequence that begins with a sequence that begins with a third begins with the third.
pub proof fn lemma_prefix_chain<T>(first: Seq<T>, second: Seq<T>, third: Seq<T>)
    requires
        first.is_prefix_of(second),
        second.is_prefix_of(third),
    ensures
        first.is_prefix_of(third),
{
    assert(third.subrange(0, first.len() as int) =~= first);
}

/// A parallel bus interface to an ST7920 controlled LCD that
/// supports reading from the data buffer
pub trait Input: Control {
    /// The bytes read from the data bus, oldest first.
    spec fn received(&self) -> Seq<u8>;

    /// Read a byte from the data bus, which is left released
    fn read_u8(&mut self) -> (r: Result<u8, Self::Error>)
        requires
            old(self).attached(),
        ensures
            final(self).attached(),
            r is Ok ==> final(self).faults() == old(self).faults(),
            r matches Err(error) ==> raised(old(self).faults(), final(self).faults(), error),
            final(self).width() == old(self).width(),
            final(self).wires().line == old(self).wires().line,
            old(self).wires().at <= final(self).wires().at,
            pulsed(
                old(self).cycles(),
                final(self).cycles(),
                old(self).wires().line,
                old(self).wires().at,
                final(self).wires().at,
            ),
            r matches Ok(byte) ==> final(self).received() == old(self).received().push(byte),
            r is Ok ==> carried(
                old(self).cycles(),
                final(self).cycles(),
                old(self).wires().line,
                on(old(self).wires(), turns(old(self).width())),
                old(self).wires().at,
                final(self).wires().at,
            ),
            r is Ok ==> final(self).wires().same_register(old(self).wires()),
            r is Ok ==> final(self).wires().signal.data == Data::Released,
            r is Ok ==> final(self).strobed() == old(self).strobed() + pulses(
                turns(old(self).width()).len(),
            ),
            r is Err ==> final(self).received() == old(self).received(),
            r is Err ==> at_most(
                old(self).cycles(),
                final(self).cycles(),
                old(self).wires().line,
                on(old(self).wires(), turns(old(self).width())),
                old(self).wires().at,
                final(self).wires().at,
            ),
    ;

    /// Read two bytes from the data bus, the high byte first; the bus is left released
    fn read_u16(&mut self) -> (r: Result<u16, Self::Error>)
        requires
            old(self).attached(),
        ensures
            final(self).attached(),
            crate::model::grown(old(self).received(), final(self).received()),
            r is Ok ==> final(self).faults() == old(self).faults(),
            r matches Err(error) ==> raised(old(self).faults(), final(self).faults(), error),
            final(self).width() == old(self).width(),
            final(self).wires().line == old(self).wires().line,
            old(self).wires().at <= final(self).wires().at,
            pulsed(
                old(self).cycles(),
                final(self).cycles(),
                old(self).wires().line,
                old(self).wires().at,
                final(self).wires().at,
            ),
            r matches Ok(read) ==> final(self).received() == old(self).received().push(
                high(read),
            ).push(low(read)),
            r is Ok ==> carried(
                old(self).cycles(),
                final(self).cycles(),
                old(self).wires().line,
                on(old(self).wires(), turns(old(self).width()) + turns(old(self).width())),
                old(self).wires().at,
                final(self).wires().at,
            ),
            r is Ok ==> final(self).wires().same_register(old(self).wires()),
            r is Ok ==> final(self).wires().signal.data == Data::Released,
            r is Ok ==> final(self).strobed() == old(self).strobed() + pulses(
                (turns(old(self).width()) + turns(old(self).width())).len(),
            ),
            r is Err ==> at_most(
                old(self).cycles(),
                final(self).cycles(),
                old(self).wires().line,
                on(old(self).wires(), turns(old(self).width()) + turns(old(self).width())),
                old(self).wires().at,
                final(self).wires().at,
            ),
    {
        let ghost before = *self;
        let first = self.read_u8();
        proof {
            lemma_on_both(before.wires(), turns(before.width()), turns(before.width()));
            if first is Err {
                lemma_at_most_first(
                    before.cycles(),
                    self.cycles(),
                    before.wires().line,
                    on(before.wires(), turns(before.width())),
                    on(before.wires(), turns(before.width())),
                    before.wires().at,
                    self.wires().at,
                );
            }
        }
        let h = first?;
        let ghost between = *self;
        let r = self.read_u8();
        proof {
            if r is Err {
                lemma_at_most_second(
                    before.cycles(),
                    between.cycles(),
                    self.cycles(),
                    before.wires().line,
                    on(before.wires(), turns(before.width())),
                    on(between.wires(), turns(before.width())),
                    before.wires().at,
                    between.wires().at,
                    between.wires().at,
                    self.wires().at,
                );
                assert(on(between.wires(), turns(before.width())) == on(
                    before.wires(),
                    turns(before.width()),
                ));
            }
        }
        proof {
            lemma_pulsed_twice(
                before.cycles(),
                between.cycles(),
                self.cycles(),
                before.wires().line,
                before.wires().at,
                between.wires().at,
                between.wires().at,
                self.wires().at,
            );
        }
        let l = r?;
        proof {
            lemma_pulses_both(turns(before.width()).len(), turns(before.width()).len());
            assert(self.strobed() =~= before.strobed() + (pulses(turns(before.width()).len())
                + pulses(turns(before.width()).len())));
            lemma_carried_twice(
                before.cycles(),
                between.cycles(),
                self.cycles(),
                before.wires().line,
                on(before.wires(), turns(before.width())),
                on(between.wires(), turns(before.width())),
                before.wires().at,
                between.wires().at,
                between.wires().at,
                self.wires().at,
            );
            assert(on(before.wires(), turns(before.width()) + turns(before.width())) =~= on(
                before.wires(),
                turns(before.width()),
            ) + on(between.wires(), turns(before.width())));
            lemma_word_parts(h, l);
        }
        Ok(word(h, l))
    }
}

/// A word put together from two bytes has the first as its high and the second as its low
/// byte.
pub proof fn lemma_word_parts(high: u8, low: u8)
    ensures
        spec_high(spec_word(high, low)) == high,
        spec_low(spec_word(high, low)) == low,
{
    assert((((high as u16) << 8 | (low as u16)) >> 8) as u8 == high) by (bit_vector);
    assert((((high as u16) << 8 | (low as u16)) & 0xFF) as u8 == low) by (bit_vector);
}

} // verus!
