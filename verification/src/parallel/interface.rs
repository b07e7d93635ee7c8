//! The parallel bus, made of pins.
//!
//! One [`Interface`] owns the RS and RW pins, the data pins and a clock, and one enable pin
//! for each display on the bus. The displays share everything but their enable pin: at any
//! time one of them is in use, and [`SharedBus::get`] chooses which. For each display the
//! interface keeps the instant before which the display must be left alone, and the
//! instruction set that it is in.

use crate::command::{
    added, commands, executed, issued, lemma_added_twice, lemma_commands_of_steps,
    lemma_sent_all, lemma_sent_next, lemma_sent_none, lemma_sent_some, sent_first, status,
    steps, Command, Execute, ExecuteRead, Step, DEFAULT_TIME,
};
use crate::hal::{after, later, Duration, Instant};
use crate::model::{
    failed, lemma_occurrences_raised, lemma_pulses_both, occurrences, pulses, raised, sleep,
    Clock, IoPin, OutPin, Pin,
};
use crate::mode::Mode;
use crate::schedule::{lemma_others_chain, Lines};
use crate::parallel::{
    at_most, beats, carried, high, lemma_at_most_first, lemma_at_most_none,
    lemma_at_most_second, lemma_at_most_within, lemma_carried_is_pulsed, lemma_carried_twice,
    lemma_on_both, lemma_partly_first, lemma_partly_none, lemma_partly_second,
    lemma_partly_within, lemma_pulsed_twice, lemma_traffic_both, lemma_traffic_is_some,
    lemma_traffic_one_more, lemma_word_parts, low, on, partly, pulsed, rested, to_register,
    traffic, transfer, turns, word, Control, Cycle, Data, Input, Output, Signal,
};
use crate::{Attached, Delay, SharedBus};
use vstd::prelude::*;

verus! {

/// A parallel bus of `BITS` data wires to `PINS` displays, which share the wires and have an
/// enable pin each.
pub struct Interface<O: Pin, Io, C, const PINS: usize, const BITS: usize> {
    rs: O,
    rw: O,
    e: [O; PINS],
    bus: [Io; BITS],
    clock: C,
    lines: Lines<PINS>,
    width: Width<BITS>,
    cycles: Ghost<Seq<Cycle>>,
    received: Ghost<Seq<u8>>,
    faults: Ghost<Seq<O::Error>>,
}

/// The evidence that a bus has four or eight data wires.
struct Width<const BITS: usize> {
    checked: (),
}

impl<const BITS: usize> Width<BITS> {
    #[verifier::type_invariant]
    spec fn well_formed(&self) -> bool {
        BITS == 4 || BITS == 8
    }

    fn new() -> (r: Self)
        requires
            BITS == 4 || BITS == 8,
    {
        Width { checked: () }
    }
}

/// A parallel bus of four data wires.
pub type Interface4Bit<O, Io, C, const PINS: usize> = Interface<O, Io, C, PINS, 4>;

/// A parallel bus of eight data wires.
pub type Interface8Bit<O, Io, C, const PINS: usize> = Interface<O, Io, C, PINS, 8>;

/// Whether bit `i` of `value` is set.
pub open spec fn bit_of(value: u8, i: int) -> bool {
    0 <= i < 8 && value & (1u8 << (i as u8)) != 0
}

/// Whether every pin of `bus` is an output, and pin `i` has the level of bit `i` of `value`,
/// which has no other bit set.
pub open spec fn shows<P: Pin>(bus: Seq<P>, value: u8) -> bool {
    &&& forall|i: int| 0 <= i < bus.len() ==> (#[trigger] bus[i]).is_output()
    &&& forall|i: int| 0 <= i < bus.len() ==> (#[trigger] bus[i]).level() == bit_of(value, i)
    &&& forall|i: int| bus.len() <= i < 8 ==> !#[trigger] bit_of(value, i)
}

/// Whether no pin of `bus` is an output.
pub open spec fn released<P: Pin>(bus: Seq<P>) -> bool {
    forall|i: int| 0 <= i < bus.len() ==> !(#[trigger] bus[i]).is_output()
}

/// What the pins of `bus` put on the data wires.
pub open spec fn shown<P: Pin>(bus: Seq<P>) -> Data {
    if exists|value: u8| shows(bus, value) {
        Data::Driven(choose|value: u8| shows(bus, value))
    } else if released(bus) {
        Data::Released
    } else {
        Data::Mixed
    }
}

/// The part of `data` that a bus of `width` wires shows at once: the low half on four wires,
/// all of it on eight.
pub open spec fn fit(width: nat, data: u8) -> u8 {
    if width == 4 {
        data & 0xF
    } else {
        data
    }
}

/// The part of a byte that a bus shows has the bits of the byte that the bus has wires for,
/// and no other.
pub proof fn lemma_fit_bits(width: nat, data: u8)
    requires
        width == 4 || width == 8,
    ensures
        forall|i: int| 0 <= i < width ==> bit_of(fit(width, data), i) == bit_of(data, i),
        forall|i: int| width <= i < 8 ==> !bit_of(fit(width, data), i),
{
    assert forall|i: int| 0 <= i < 8 implies #[trigger] bit_of(fit(width, data), i) == (i < width
        && bit_of(data, i)) by {
        let k = i as u8;
        if width == 4 {
            assert(((data & 0xF) & (1u8 << k) != 0) == (k < 4 && data & (1u8 << k) != 0))
                by (bit_vector)
                requires
                    k < 8,
            ;
        }
    }
}

/// Whether each pin of `after` is the pin of `before` at its place, read once more, and
/// `value` is what was read: bit `i` is the level that pin `i` had, and no other bit is set.
pub open spec fn sampled<P: Pin>(before: Seq<P>, after: Seq<P>, value: u8) -> bool {
    &&& after.len() == before.len()
    &&& forall|i: int|
        0 <= i < before.len() ==> (#[trigger] after[i]).samples() == before[i].samples().push(
            bit_of(value, i),
        )
    &&& forall|i: int| before.len() <= i < 8 ==> !#[trigger] bit_of(value, i)
}

/// A byte with one more bit set has the bits that it had, and that one.
pub proof fn lemma_bit_set(value: u8, at: u8)
    requires
        at < 8,
    ensures
        forall|i: int|
            0 <= i < 8 ==> #[trigger] bit_of(value | (1u8 << at), i) == (bit_of(value, i) || i
                == at),
{
    assert forall|i: int| 0 <= i < 8 implies #[trigger] bit_of(value | (1u8 << at), i) == (bit_of(
        value,
        i,
    ) || i == at) by {
        let k = i as u8;
        assert(((value | (1u8 << at)) & (1u8 << k) != 0) == ((value & (1u8 << k) != 0) || k == at))
            by (bit_vector)
            requires
                k < 8,
                at < 8,
        ;
    }
}

/// A byte with none of its high four bits set is at most 15.
pub proof fn lemma_low_half(value: u8)
    requires
        forall|i: int| 4 <= i < 8 ==> !bit_of(value, i),
    ensures
        value <= 0xF,
{
    assert(!bit_of(value, 4) && !bit_of(value, 5) && !bit_of(value, 6) && !bit_of(value, 7));
    assert(value <= 0xF) by (bit_vector)
        requires
            value & (1u8 << 4u8) == 0,
            value & (1u8 << 5u8) == 0,
            value & (1u8 << 6u8) == 0,
            value & (1u8 << 7u8) == 0,
    ;
}

/// The byte made of two halves has the bits of the first as its high and the bits of the
/// second as its low bits.
pub proof fn lemma_halves(high: u8, low: u8)
    requires
        forall|i: int| 4 <= i < 8 ==> !bit_of(high, i),
        forall|i: int| 4 <= i < 8 ==> !bit_of(low, i),
    ensures
        forall|i: int| 0 <= i < 4 ==> #[trigger] bit_of(high << 4 | low, i) == bit_of(low, i),
        forall|i: int| 0 <= i < 4 ==> #[trigger] bit_of(high << 4 | low, i + 4) == bit_of(high, i),
        (high << 4 | low) >> 4 == high,
        (high << 4 | low) & 0xF == low,
{
    lemma_low_half(high);
    lemma_low_half(low);
    assert forall|i: int| 0 <= i < 4 implies #[trigger] bit_of(high << 4 | low, i) == bit_of(
        low,
        i,
    ) by {
        let k = i as u8;
        assert(((high << 4 | low) & (1u8 << k) != 0) == (low & (1u8 << k) != 0)) by (bit_vector)
            requires
                k < 4,
                high <= 0xF,
                low <= 0xF,
        ;
    }
    assert forall|i: int| 0 <= i < 4 implies #[trigger] bit_of(high << 4 | low, i + 4) == bit_of(
        high,
        i,
    ) by {
        let k = i as u8;
        assert(((high << 4 | low) & (1u8 << ((k + 4) as u8)) != 0) == (high & (1u8 << k) != 0))
            by (bit_vector)
            requires
                k < 4,
                high <= 0xF,
                low <= 0xF,
        ;
    }
    assert((high << 4 | low) >> 4 == high && (high << 4 | low) & 0xF == low) by (bit_vector)
        requires
            high <= 0xF,
            low <= 0xF,
    ;
}

/// The levels that pin `i` of a bus of `width` wires has, one after the other, while the bus
/// is read for `byte`: on eight wires that of bit `i`; on four wires that of bit `i + 4` and
/// then that of bit `i`.
pub open spec fn levels_of(width: nat, byte: u8, i: int) -> Seq<bool> {
    if width == 4 {
        seq![bit_of(byte, i + 4), bit_of(byte, i)]
    } else {
        seq![bit_of(byte, i)]
    }
}

/// The levels that pin `i` of a bus of `width` wires has, one after the other, while the bus
/// is read for each of `bytes` in turn.
pub open spec fn levels_of_all(width: nat, bytes: Seq<u8>, i: int) -> Seq<bool>
    decreases bytes.len(),
{
    if bytes.len() == 0 {
        seq![]
    } else {
        levels_of_all(width, bytes.drop_last(), i) + levels_of(width, bytes.last(), i)
    }
}

/// Whether each pin of `after` is the pin of `before` at its place, read as often as a bus of
/// `width` wires is read for `bytes`, and `bytes` is what was read: each pin had, read after
/// read, the levels of its bits of `bytes`.
pub open spec fn read_through<P: Pin>(
    before: Seq<P>,
    after: Seq<P>,
    width: nat,
    bytes: Seq<u8>,
) -> bool {
    &&& after.len() == before.len()
    &&& forall|i: int|
        0 <= i < before.len() ==> (#[trigger] after[i]).samples() == before[i].samples()
            + levels_of_all(width, bytes, i)
}

/// Pins that were read for some bytes and then for one more were read for all of them.
pub proof fn lemma_read_through_one_more<P: Pin>(
    before: Seq<P>,
    between: Seq<P>,
    after: Seq<P>,
    width: nat,
    bytes: Seq<u8>,
    byte: u8,
)
    requires
        read_through(before, between, width, bytes),
        read_through(between, after, width, seq![byte]),
    ensures
        read_through(before, after, width, bytes.push(byte)),
{
    assert forall|i: int| 0 <= i < before.len() implies (#[trigger] after[i]).samples()
        == before[i].samples() + levels_of_all(width, bytes.push(byte), i) by {
        assert(bytes.push(byte).drop_last() =~= bytes);
        assert(seq![byte].drop_last() =~= Seq::<u8>::empty());
        assert(levels_of_all(width, seq![byte], i) =~= levels_of(width, byte, i)) by {
            reveal_with_fuel(levels_of_all, 2);
        }
        assert(between[i].samples() == before[i].samples() + levels_of_all(width, bytes, i));
        assert(after[i].samples() =~= before[i].samples() + (levels_of_all(width, bytes, i)
            + levels_of(width, byte, i)));
    }
}

/// The halves of a byte are what a bus of four wires shows of them.
pub proof fn lemma_halves_fit(data: u8)
    ensures
        fit(4, data >> 4) == data >> 4,
        fit(4, data & 0xF) == data & 0xF,
{
    assert((data >> 4) & 0xF == data >> 4) by (bit_vector);
    assert((data & 0xF) & 0xF == data & 0xF) by (bit_vector);
}

/// Whether the pins `after` are the pins `before` once an operation that takes them one after
/// the other, the lowest first, has failed with `error` at the pin `at`: that pin has failed,
/// the pins above it are as they were, and the pins below it have reported no error.
pub open spec fn stopped_at<P: Pin>(before: Seq<P>, after: Seq<P>, at: int, error: P::Error) -> bool {
    &&& 0 <= at < before.len() == after.len()
    &&& failed(before[at], after[at], error)
    &&& forall|j: int| at < j < before.len() ==> after[j] == before[j]
    &&& forall|j: int| 0 <= j < at ==> (#[trigger] after[j]).faults() == before[j].faults()
}

/// Two bytes that agree in every bit are the same byte.
pub proof fn lemma_same_bits(a: u8, b: u8)
    requires
        forall|i: int| 0 <= i < 8 ==> bit_of(a, i) == bit_of(b, i),
    ensures
        a == b,
{
    assert(bit_of(a, 0) == bit_of(b, 0));
    assert(bit_of(a, 1) == bit_of(b, 1));
    assert(bit_of(a, 2) == bit_of(b, 2));
    assert(bit_of(a, 3) == bit_of(b, 3));
    assert(bit_of(a, 4) == bit_of(b, 4));
    assert(bit_of(a, 5) == bit_of(b, 5));
    assert(bit_of(a, 6) == bit_of(b, 6));
    assert(bit_of(a, 7) == bit_of(b, 7));
    assert(a == b) by (bit_vector)
        requires
            (a & (1u8 << 0u8) != 0) == (b & (1u8 << 0u8) != 0),
            (a & (1u8 << 1u8) != 0) == (b & (1u8 << 1u8) != 0),
            (a & (1u8 << 2u8) != 0) == (b & (1u8 << 2u8) != 0),
            (a & (1u8 << 3u8) != 0) == (b & (1u8 << 3u8) != 0),
            (a & (1u8 << 4u8) != 0) == (b & (1u8 << 4u8) != 0),
            (a & (1u8 << 5u8) != 0) == (b & (1u8 << 5u8) != 0),
            (a & (1u8 << 6u8) != 0) == (b & (1u8 << 6u8) != 0),
            (a & (1u8 << 7u8) != 0) == (b & (1u8 << 7u8) != 0),
    ;
}

/// Pins that show a value put that value, and no other, on the data wires.
pub proof fn lemma_shown<P: Pin>(bus: Seq<P>, value: u8)
    requires
        shows(bus, value),
    ensures
        shown(bus) == Data::Driven(value),
{
    let other = choose|other: u8| shows(bus, other);
    assert forall|i: int| 0 <= i < 8 implies bit_of(other, i) == bit_of(value, i) by {
        if i < bus.len() {
            assert(bus[i].level() == bit_of(value, i));
            assert(bus[i].level() == bit_of(other, i));
        }
    }
    lemma_same_bits(other, value);
}

/// Pins that are all inputs leave the data wires to the chip.
pub proof fn lemma_shown_released<P: Pin>(bus: Seq<P>)
    requires
        released(bus),
        bus.len() > 0,
    ensures
        shown(bus) == Data::Released,
{
    assert forall|value: u8| !shows(bus, value) by {
        assert(!bus[0].is_output());
    }
}

impl<O: Pin, Io, C, const PINS: usize, const BITS: usize> Interface<O, Io, C, PINS, BITS> {
    /// What the driver keeps of each display.
    pub closed spec fn records(&self) -> Lines<PINS> {
        self.lines
    }

    /// The clock.
    pub closed spec fn clock(&self) -> C {
        self.clock
    }

    /// The pin of the RS signal.
    pub closed spec fn rs_pin(&self) -> O {
        self.rs
    }

    /// The pin of the RW signal.
    pub closed spec fn rw_pin(&self) -> O {
        self.rw
    }

    /// The enable pins, one for each display.
    pub closed spec fn enable_pins(&self) -> Seq<O> {
        self.e@
    }

    /// The pins of the data wires, the lowest bit first.
    pub closed spec fn data_pins(&self) -> Seq<Io> {
        self.bus@
    }

    /// Every bus has one enable pin for each display, and one pin for each data wire.
    pub proof fn lemma_one_pin_each(&self)
        ensures
            self.enable_pins().len() == PINS,
            self.data_pins().len() == BITS,
    {
    }

    /// The cycles that the bus has seen, oldest first.
    pub closed spec fn seen(&self) -> Seq<Cycle> {
        self.cycles@
    }

    /// The bytes read from the bus, oldest first.
    pub closed spec fn read_so_far(&self) -> Seq<u8> {
        self.received@
    }

    /// The errors that the pins have reported to the bus, oldest first.
    pub closed spec fn reported(&self) -> Seq<O::Error> {
        self.faults@
    }

    /// Whether two interfaces differ at most in the enable pin of the display in use and in
    /// the cycles seen.
    pub open spec fn same_but_enable(&self, other: &Self) -> bool {
        &&& self.records() == other.records()
        &&& self.read_so_far() == other.read_so_far()
        &&& self.rs_pin() == other.rs_pin()
        &&& self.rw_pin() == other.rw_pin()
        &&& self.data_pins() == other.data_pins()
        &&& self.clock() == other.clock()
        &&& self.enable_pins().len() == other.enable_pins().len()
        &&& forall|i: int|
            0 <= i < self.enable_pins().len() && i != self.records().line()
                ==> self.enable_pins()[i] == other.enable_pins()[i]
    }

    /// Whether two interfaces differ at most in the pins of RS and RW.
    pub open spec fn same_but_select(&self, other: &Self) -> bool {
        &&& self.records() == other.records()
        &&& self.read_so_far() == other.read_so_far()
        &&& self.seen() == other.seen()
        &&& self.enable_pins() == other.enable_pins()
        &&& self.data_pins() == other.data_pins()
        &&& self.clock() == other.clock()
    }

    /// Whether two interfaces differ at most in the pins of the data wires.
    pub open spec fn same_but_data(&self, other: &Self) -> bool {
        &&& self.records() == other.records()
        &&& self.read_so_far() == other.read_so_far()
        &&& self.seen() == other.seen()
        &&& self.rs_pin() == other.rs_pin()
        &&& self.rw_pin() == other.rw_pin()
        &&& self.enable_pins() == other.enable_pins()
        &&& self.clock() == other.clock()
    }

    /// Whether two interfaces differ at most in the pins of the data wires, in the enable pin
    /// of the display in use and in the cycles seen.
    pub open spec fn same_but_beat(&self, other: &Self) -> bool {
        &&& self.records() == other.records()
        &&& self.read_so_far() == other.read_so_far()
        &&& self.rs_pin() == other.rs_pin()
        &&& self.rw_pin() == other.rw_pin()
        &&& self.clock() == other.clock()
        &&& self.enable_pins().len() == other.enable_pins().len()
        &&& forall|i: int|
            0 <= i < self.enable_pins().len() && i != self.records().line()
                ==> self.enable_pins()[i] == other.enable_pins()[i]
    }

    /// Whether two interfaces differ at most in what a transfer touches: the pins of the data
    /// wires, the enable pin of the display in use, the clock, the cycles seen and the bytes
    /// read.
    pub open spec fn same_but_transfer(&self, other: &Self) -> bool {
        &&& self.records() == other.records()
        &&& self.rs_pin() == other.rs_pin()
        &&& self.rw_pin() == other.rw_pin()
        &&& self.enable_pins().len() == other.enable_pins().len()
        &&& forall|i: int|
            0 <= i < self.enable_pins().len() && i != self.records().line()
                ==> self.enable_pins()[i] == other.enable_pins()[i]
    }

    /// Whether two interfaces differ at most in what the execution of an instruction by the
    /// display in use touches: they agree in the bytes read, in the enable pins of the other
    /// displays and in what is kept of the other displays.
    pub open spec fn same_but_display(&self, other: &Self) -> bool {
        &&& self.records().others_as_in(&other.records())
        &&& self.read_so_far() == other.read_so_far()
        &&& self.enable_pins().len() == other.enable_pins().len()
        &&& forall|i: int|
            0 <= i < self.enable_pins().len() && i != self.records().line()
                ==> self.enable_pins()[i] == other.enable_pins()[i]
    }

    /// Whether two interfaces differ at most in what a read by the display in use touches:
    /// they agree in the enable pins of the other displays and in what is kept of every
    /// display but the deadline of the one in use.
    pub open spec fn same_but_transfer_and_deadline(&self, other: &Self) -> bool {
        &&& self.records().others_as_in(&other.records())
        &&& self.records().history() == other.records().history()
        &&& self.records().spec_mode() == other.records().spec_mode()
        &&& self.enable_pins().len() == other.enable_pins().len()
        &&& forall|i: int|
            0 <= i < self.enable_pins().len() && i != self.records().line()
                ==> self.enable_pins()[i] == other.enable_pins()[i]
    }

}

impl<O: OutPin, Io: Pin, C: Clock, const PINS: usize, const BITS: usize> Interface<
    O,
    Io,
    C,
    PINS,
    BITS,
> {
    /// A bus made of the given pins, with display 0 in use. Each display is taken to be in
    /// the Basic set and free to be used from now on. A bus may be made for no display: it
    /// has none in use, and nothing can be sent over it.
    pub fn new(rs: O, rw: O, e: [O; PINS], bus: [Io; BITS], clock: C) -> (r: Self)
        requires
            BITS == 4 || BITS == 8,
        ensures
            r.rs_pin() == rs,
            r.rw_pin() == rw,
            r.enable_pins() == e@,
            r.data_pins() == bus@,
            clock.time() <= r.clock().time(),
            r.clock().waits() == clock.waits(),
            r.records().line() == 0,
            r.records().deadlines() == Seq::new(PINS as nat, |i: int| r.clock().time()),
            r.records().modes() == Seq::new(PINS as nat, |i: int| Mode::Basic),
            r.records().histories() == Seq::new(PINS as nat, |i: int| Seq::<Step>::empty()),
            r.seen() == Seq::<Cycle>::empty(),
            r.read_so_far() == Seq::<u8>::empty(),
            r.reported() == Seq::<O::Error>::empty(),
    {
        let mut clock = clock;
        let end = clock.now();
        Interface {
            rs,
            rw,
            e,
            bus,
            clock,
            lines: Lines::new(end),
            width: Width::new(),
            cycles: Ghost(Seq::empty()),
            received: Ghost(Seq::empty()),
            faults: Ghost(Seq::empty()),
        }
    }

    /// Whether two interfaces agree in their pins, their clock, and what they have seen.
    pub open spec fn same_bus(&self, other: &Self) -> bool {
        &&& self.rs_pin() == other.rs_pin()
        &&& self.rw_pin() == other.rw_pin()
        &&& self.enable_pins() == other.enable_pins()
        &&& self.data_pins() == other.data_pins()
        &&& self.clock() == other.clock()
        &&& self.seen() == other.seen()
        &&& self.read_so_far() == other.read_so_far()
    }
}

impl<O: Pin, Io, C, const PINS: usize, const BITS: usize> Attached for Interface<
    O,
    Io,
    C,
    PINS,
    BITS,
> {
    /// Whether the bus was made for one display or more.
    open spec fn attached(&self) -> bool {
        PINS > 0
    }
}

impl<O: OutPin, Io: Pin, C: Clock, const PINS: usize, const BITS: usize> Control for Interface<
    O,
    Io,
    C,
    PINS,
    BITS,
> {
    type Error = O::Error;

    open spec fn cycles(&self) -> Seq<Cycle> {
        self.seen()
    }

    open spec fn wires(&self) -> Cycle {
        Cycle {
            line: self.records().line(),
            signal: Signal {
                rs: self.rs_pin().level(),
                rw: self.rw_pin().level(),
                data: shown(self.data_pins()),
            },
            at: self.clock().time(),
        }
    }

    open spec fn enabled(&self) -> bool {
        self.enable_pins()[self.records().line() as int].level()
    }

    open spec fn strobed(&self) -> Seq<bool> {
        self.enable_pins()[self.records().line() as int].driven()
    }

    open spec fn width(&self) -> nat {
        BITS as nat
    }

    open spec fn faults(&self) -> Seq<Self::Error> {
        self.reported()
    }

    /// Drives the enable pin of the display in use high. Where the pin fails, its error is
    /// handed on, and nothing else has changed.
    fn enable(&mut self) -> (r: Result<(), Self::Error>)
        ensures
            final(self).same_but_enable(old(self)),
            r is Ok ==> final(self).enable_pins()[old(self).records().line() as int].faults()
                == old(self).enable_pins()[old(self).records().line() as int].faults(),
            r matches Err(error) ==> failed(
                old(self).enable_pins()[old(self).records().line() as int],
                final(self).enable_pins()[old(self).records().line() as int],
                error,
            ),
    {
        match self.e[self.lines.current()].set_high() {
            Ok(()) => Ok(()),
            Err(error) => {
                proof {
                    self.faults@ = self.faults@.push(error);
                }
                Err(error)
            },
        }
    }

    /// Drives the enable pin of the display in use low, which ends a cycle where the pin was
    /// high. Where the pin fails, its error is handed on, and nothing else has changed.
    fn disable(&mut self) -> (r: Result<(), Self::Error>)
        ensures
            final(self).same_but_enable(old(self)),
            r is Ok ==> final(self).enable_pins()[old(self).records().line() as int].faults()
                == old(self).enable_pins()[old(self).records().line() as int].faults(),
            r matches Err(error) ==> failed(
                old(self).enable_pins()[old(self).records().line() as int],
                final(self).enable_pins()[old(self).records().line() as int],
                error,
            ),
    {
        let ghost wires = self.wires();
        let ghost high = self.enabled();
        match self.e[self.lines.current()].set_low() {
            Ok(()) => {
                proof {
                    if high {
                        self.cycles@ = self.cycles@.push(wires);
                    }
                }
                Ok(())
            },
            Err(error) => {
                proof {
                    self.faults@ = self.faults@.push(error);
                }
                Err(error)
            },
        }
    }

    /// Pulses the enable pin of the display in use: drives it high and then low. Where the pin
    /// fails, its error is handed on, and no cycle has ended.
    fn latch(&mut self) -> (r: Result<(), Self::Error>)
        ensures
            final(self).same_but_enable(old(self)),
            r is Ok ==> final(self).enable_pins()[old(self).records().line() as int].faults()
                == old(self).enable_pins()[old(self).records().line() as int].faults(),
            r matches Err(error) ==> final(self).enable_pins()[old(
                self,
            ).records().line() as int].faults() == old(self).enable_pins()[old(
                self,
            ).records().line() as int].faults().push(error),
    {
        self.enable()?;
        self.disable()
    }

    /// Drives the RS pin and then the RW pin. Where one fails, its error is handed on; where
    /// it is the RS pin, the RW pin is not touched.
    fn select(&mut self, rs: bool, rw: bool) -> (r: Result<(), Self::Error>)
        ensures
            final(self).same_but_select(old(self)),
            r is Ok ==> final(self).rs_pin().faults() == old(self).rs_pin().faults()
                && final(self).rw_pin().faults() == old(self).rw_pin().faults(),
            r is Ok ==> final(self).rs_pin().driven() == old(self).rs_pin().driven().push(rs)
                && final(self).rw_pin().driven() == old(self).rw_pin().driven().push(rw),
            r matches Err(error) ==> failed(old(self).rs_pin(), final(self).rs_pin(), error)
                && final(self).rw_pin() == old(self).rw_pin() || final(self).rs_pin().faults()
                == old(self).rs_pin().faults() && final(self).rs_pin().level() == rs && failed(
                old(self).rw_pin(),
                final(self).rw_pin(),
                error,
            ),
    {
        match self.rs.set_state(rs) {
            Ok(()) => {},
            Err(error) => {
                proof {
                    self.faults@ = self.faults@.push(error);
                }
                return Err(error);
            },
        }
        match self.rw.set_state(rw) {
            Ok(()) => Ok(()),
            Err(error) => {
                proof {
                    self.faults@ = self.faults@.push(error);
                }
                Err(error)
            },
        }
    }
}

/// The time for which the enable signal rests between two pulses that carry one byte or one
/// word, in microseconds.
pub const ENABLE_CYCLE: Duration = 10;

/// The time after which a wait for the chip to be ready is given up, in microseconds.
pub const BUSY_CEILING: Duration = 1_000;

/// Whether `after` is `before` followed by one or more bytes of the status register, of
/// which each but the last says that the chip is busy, and the last says that it is ready
/// where `ready` holds and that it is busy where not.
pub open spec fn polled(before: Seq<u8>, after: Seq<u8>, ready: bool) -> bool {
    &&& before.len() < after.len()
    &&& before.is_prefix_of(after)
    &&& forall|i: int|
        before.len() <= i < after.len() - 1 ==> crate::command::spec_status(#[trigger] after[i]).0
    &&& crate::command::spec_status(after.last()).0 == !ready
}

/// Whether `after` is `before` followed by cycles that are all reads of the status register
/// of the display `line` (RS low, RW high, the data wires left to the chip), each ended
/// between `since` and `until`.
pub open spec fn status_reads(
    before: Seq<Cycle>,
    after: Seq<Cycle>,
    line: usize,
    since: Instant,
    until: Instant,
) -> bool {
    &&& before.is_prefix_of(after)
    &&& forall|i: int|
        before.len() <= i < after.len() ==> {
            let cycle = #[trigger] after[i];
            &&& cycle.line == line
            &&& cycle.signal == Signal { rs: false, rw: true, data: Data::Released }
            &&& since <= cycle.at <= until
        }
}

impl<O, Io, C, const PINS: usize, const BITS: usize> Interface<O, Io, C, PINS, BITS> where
    O: OutPin,
    Io: OutPin<Error = O::Error>,
    C: Clock,
 {
    /// Makes every data pin an output.
    pub fn set_as_output(&mut self) -> (r: Result<(), Io::Error>)
        ensures
            r is Ok ==> final(self).reported() == old(self).reported(),
            r matches Err(error) ==> final(self).reported() == old(self).reported().push(error),
            r is Ok ==> forall|i: int|
                0 <= i < BITS ==> (#[trigger] final(self).data_pins()[i]).faults() == old(
                    self,
                ).data_pins()[i].faults(),
            r matches Err(error) ==> exists|i: int| #[trigger]
                stopped_at(old(self).data_pins(), final(self).data_pins(), i, error) && forall|
                    j: int,
                |
                    0 <= j < i ==> (#[trigger] final(self).data_pins()[j]).is_output(),
            final(self).same_but_data(old(self)),
            final(self).data_pins().len() == BITS,
            r is Ok ==> forall|i: int|
                0 <= i < BITS ==> (#[trigger] final(self).data_pins()[i]).is_output(),
            r is Ok ==> forall|i: int|
                0 <= i < BITS ==> (#[trigger] final(self).data_pins()[i]).samples() == old(
                    self,
                ).data_pins()[i].samples(),
    {
        let mut i: usize = 0;
        while i < BITS
            invariant
                i <= BITS,
                self.same_but_data(old(self)),
                self.reported() == old(self).reported(),
                forall|j: int|
                    0 <= j < i ==> (#[trigger] self.bus[j]).faults() == old(self).bus[j].faults(),
                forall|j: int| 0 <= j < i ==> (#[trigger] self.bus[j]).is_output(),
                forall|j: int|
                    0 <= j < i ==> (#[trigger] self.bus[j]).samples() == old(
                        self,
                    ).bus[j].samples(),
                forall|j: int| i <= j < BITS ==> self.bus[j] == old(self).bus[j],
            decreases BITS - i,
        {
            match self.bus[i].set_as_output() {
                Ok(()) => {},
                Err(error) => {
                    proof {
                        self.faults@ = self.faults@.push(error);
                        assert(stopped_at(
                            old(self).data_pins(),
                            self.data_pins(),
                            i as int,
                            error,
                        ));
                    }
                    return Err(error);
                },
            }
            i += 1;
        }
        Ok(())
    }

    /// Puts `data` on the data pins: bit `i` on pin `i`, whichever way the pin is turned.
    fn write_bus(&mut self, data: u8) -> (r: Result<(), Io::Error>)
        ensures
            r is Ok ==> final(self).reported() == old(self).reported(),
            r matches Err(error) ==> final(self).reported() == old(self).reported().push(error),
            r is Ok ==> forall|i: int|
                0 <= i < BITS ==> (#[trigger] final(self).data_pins()[i]).faults() == old(
                    self,
                ).data_pins()[i].faults(),
            r matches Err(error) ==> exists|i: int| #[trigger]
                stopped_at(old(self).data_pins(), final(self).data_pins(), i, error) && forall|
                    j: int,
                |
                    0 <= j < i ==> (#[trigger] final(self).data_pins()[j]).level() == bit_of(data, j),
            final(self).same_but_data(old(self)),
            final(self).data_pins().len() == BITS,
            r is Ok ==> forall|i: int|
                0 <= i < BITS ==> (#[trigger] final(self).data_pins()[i]).level() == bit_of(
                    data,
                    i,
                ) && (old(self).data_pins()[i].is_output()
                    ==> final(self).data_pins()[i].is_output()),
            r is Ok ==> forall|i: int|
                0 <= i < BITS ==> (#[trigger] final(self).data_pins()[i]).driven() == old(
                    self,
                ).data_pins()[i].driven().push(bit_of(data, i)),
            r is Ok && (forall|i: int|
                0 <= i < BITS ==> (#[trigger] old(self).data_pins()[i]).is_output()) ==> shows(
                final(self).data_pins(),
                fit(BITS as nat, data),
            ),
            r is Ok ==> forall|i: int|
                0 <= i < BITS ==> (#[trigger] final(self).data_pins()[i]).samples() == old(
                    self,
                ).data_pins()[i].samples(),
    {
        proof {
            use_type_invariant(&self.width);
        }
        let mut i: usize = 0;
        while i < BITS
            invariant
                i <= BITS,
                BITS == 4 || BITS == 8,
                self.same_but_data(old(self)),
                self.reported() == old(self).reported(),
                forall|j: int|
                    0 <= j < i ==> (#[trigger] self.bus[j]).faults() == old(self).bus[j].faults(),
                forall|j: int| 0 <= j < i ==> (#[trigger] self.bus[j]).level() == bit_of(data, j),
                forall|j: int|
                    0 <= j < i ==> (#[trigger] self.bus[j]).driven() == old(
                        self,
                    ).bus[j].driven().push(bit_of(data, j)),
                forall|j: int|
                    0 <= j < i ==> (old(self).bus[j].is_output() ==> (#[trigger] self.bus[j]).is_output()),
                forall|j: int|
                    0 <= j < i ==> (#[trigger] self.bus[j]).samples() == old(
                        self,
                    ).bus[j].samples(),
                forall|j: int| i <= j < BITS ==> self.bus[j] == old(self).bus[j],
            decreases BITS - i,
        {
            let level = data & (1u8 << (i as u8)) != 0;
            match self.bus[i].set_state(level) {
                Ok(()) => {},
                Err(error) => {
                    proof {
                        self.faults@ = self.faults@.push(error);
                        assert(stopped_at(
                            old(self).data_pins(),
                            self.data_pins(),
                            i as int,
                            error,
                        ));
                    }
                    return Err(error);
                },
            }
            i += 1;
        }
        proof {
            lemma_fit_bits(BITS as nat, data);
            if forall|i: int| 0 <= i < BITS ==> (#[trigger] old(self).data_pins()[i]).is_output() {
                assert forall|j: int| 0 <= j < BITS implies (#[trigger] self.data_pins()[j]).is_output()
                    && self.data_pins()[j].level() == bit_of(fit(BITS as nat, data), j) by {
                    assert(old(self).data_pins()[j].is_output());
                    assert(self.bus[j].level() == bit_of(data, j));
                }
            }
        }
        Ok(())
    }

    /// Carries `value` to the display in use in one pulse of its enable pin: makes the data
    /// pins outputs, puts `value` on them, and pulses.
    fn beat(&mut self, value: u8) -> (r: Result<(), O::Error>)
        requires
            PINS > 0,
        ensures
            r is Ok ==> final(self).reported() == old(self).reported(),
            r matches Err(error) ==> final(self).reported() == old(self).reported().push(error),
            final(self).same_but_beat(old(self)),
            r is Ok ==> final(self).seen() == old(self).seen().push(
                old(self).wires().showing(Data::Driven(fit(BITS as nat, value))),
            ),
            r is Ok ==> final(self).wires() == old(self).wires().showing(
                Data::Driven(fit(BITS as nat, value)),
            ),
            r is Err ==> final(self).seen() == old(self).seen(),
            r is Ok ==> final(self).strobed() == old(self).strobed().push(true).push(false),
    {
        self.set_as_output()?;
        self.write_bus(value)?;
        proof {
            lemma_shown(self.data_pins(), fit(BITS as nat, value));
        }
        self.latch()
    }
}

impl<O, Io, C, const PINS: usize, const BITS: usize> Interface<O, Io, C, PINS, BITS> where
    O: OutPin,
    Io: IoPin<Error = O::Error>,
    C: Clock,
 {
    /// Makes every data pin an input.
    pub fn set_as_input(&mut self) -> (r: Result<(), Io::Error>)
        ensures
            r is Ok ==> final(self).reported() == old(self).reported(),
            r matches Err(error) ==> final(self).reported() == old(self).reported().push(error),
            r is Ok ==> forall|i: int|
                0 <= i < BITS ==> (#[trigger] final(self).data_pins()[i]).faults() == old(
                    self,
                ).data_pins()[i].faults(),
            r matches Err(error) ==> exists|i: int| #[trigger]
                stopped_at(old(self).data_pins(), final(self).data_pins(), i, error) && forall|
                    j: int,
                |
                    0 <= j < i ==> !(#[trigger] final(self).data_pins()[j]).is_output(),
            final(self).same_but_data(old(self)),
            final(self).data_pins().len() == BITS,
            r is Ok ==> released(final(self).data_pins()),
            r is Ok ==> forall|i: int|
                0 <= i < BITS ==> (#[trigger] final(self).data_pins()[i]).samples() == old(
                    self,
                ).data_pins()[i].samples(),
    {
        let mut i: usize = 0;
        while i < BITS
            invariant
                i <= BITS,
                self.same_but_data(old(self)),
                self.reported() == old(self).reported(),
                forall|j: int|
                    0 <= j < i ==> (#[trigger] self.bus[j]).faults() == old(self).bus[j].faults(),
                forall|j: int| 0 <= j < i ==> !(#[trigger] self.bus[j]).is_output(),
                forall|j: int|
                    0 <= j < i ==> (#[trigger] self.bus[j]).samples() == old(
                        self,
                    ).bus[j].samples(),
                forall|j: int| i <= j < BITS ==> self.bus[j] == old(self).bus[j],
            decreases BITS - i,
        {
            match self.bus[i].set_as_input() {
                Ok(()) => {},
                Err(error) => {
                    proof {
                        self.faults@ = self.faults@.push(error);
                        assert(stopped_at(
                            old(self).data_pins(),
                            self.data_pins(),
                            i as int,
                            error,
                        ));
                    }
                    return Err(error);
                },
            }
            i += 1;
        }
        Ok(())
    }

    /// Reads the data pins: bit `i` from pin `i`.
    fn read_bus(&mut self) -> (r: Result<u8, Io::Error>)
        ensures
            r is Ok ==> final(self).reported() == old(self).reported(),
            r matches Err(error) ==> final(self).reported() == old(self).reported().push(error),
            r is Ok ==> forall|i: int|
                0 <= i < BITS ==> (#[trigger] final(self).data_pins()[i]).faults() == old(
                    self,
                ).data_pins()[i].faults(),
            r matches Err(error) ==> exists|i: int| #[trigger]
                stopped_at(old(self).data_pins(), final(self).data_pins(), i, error) && forall|
                    j: int,
                |
                    0 <= j < i ==> (#[trigger] final(self).data_pins()[j]).samples().len() == old(
                        self,
                    ).data_pins()[j].samples().len() + 1,
            final(self).same_but_data(old(self)),
            r matches Ok(value) ==> sampled(old(self).data_pins(), final(self).data_pins(), value),
            released(old(self).data_pins()) ==> released(final(self).data_pins()),
    {
        proof {
            use_type_invariant(&self.width);
        }
        let mut value: u8 = 0;
        let mut i: usize = 0;
        assert forall|j: int| 0 <= j < 8 implies !#[trigger] bit_of(value, j) by {
            let k = j as u8;
            assert(0u8 & (1u8 << k) == 0) by (bit_vector);
        }
        while i < BITS
            invariant
                i <= BITS,
                BITS == 4 || BITS == 8,
                self.same_but_data(old(self)),
                self.reported() == old(self).reported(),
                forall|j: int|
                    0 <= j < i ==> (#[trigger] self.bus[j]).faults() == old(self).bus[j].faults(),
                forall|j: int|
                    0 <= j < i ==> (#[trigger] self.bus[j]).samples() == old(
                        self,
                    ).bus[j].samples().push(bit_of(value, j)),
                forall|j: int|
                    0 <= j < i ==> (!old(self).bus[j].is_output() ==> !(#[trigger] self.bus[j]).is_output()),
                forall|j: int| i <= j < 8 ==> !#[trigger] bit_of(value, j),
                forall|j: int| i <= j < BITS ==> self.bus[j] == old(self).bus[j],
            decreases BITS - i,
        {
            let high = match self.bus[i].is_high() {
                Ok(high) => high,
                Err(error) => {
                    proof {
                        self.faults@ = self.faults@.push(error);
                        if released(old(self).data_pins()) {
                            assert forall|j: int| 0 <= j < BITS implies !(
                            #[trigger] self.data_pins()[j]).is_output() by {
                                assert(!old(self).data_pins()[j].is_output());
                                assert(!self.bus[j].is_output());
                            }
                            assert(released(self.data_pins()));
                        }
                        assert(stopped_at(
                            old(self).data_pins(),
                            self.data_pins(),
                            i as int,
                            error,
                        ));
                    }
                    return Err(error);
                },
            };
            if high {
                proof {
                    lemma_bit_set(value, i as u8);
                }
                value = value | (1u8 << (i as u8));
            }
            i += 1;
        }
        proof {
            if released(old(self).data_pins()) {
                assert forall|j: int| 0 <= j < BITS implies !(#[trigger] self.data_pins()[j]).is_output() by {
                    assert(!old(self).data_pins()[j].is_output());
                    assert(!self.bus[j].is_output());
                }
            }
        }
        Ok(value)
    }

    /// Takes a value from the display in use in one pulse of its enable pin: makes the data
    /// pins inputs, raises the enable pin, reads the data pins, and lowers the enable pin,
    /// also where a data pin has failed to be read.
    fn turn(&mut self) -> (r: Result<u8, O::Error>)
        requires
            PINS > 0,
        ensures
            r is Ok ==> final(self).reported() == old(self).reported(),
            r matches Err(error) ==> raised(old(self).reported(), final(self).reported(), error),
            final(self).same_but_beat(old(self)),
            pulsed(
                old(self).seen(),
                final(self).seen(),
                old(self).records().line(),
                old(self).clock().time(),
                old(self).clock().time(),
            ),
            r is Ok ==> final(self).seen() == old(self).seen().push(
                old(self).wires().showing(Data::Released),
            ),
            r is Ok ==> final(self).wires() == old(self).wires().showing(Data::Released),
            r matches Ok(value) ==> sampled(old(self).data_pins(), final(self).data_pins(), value),
            r is Err ==> final(self).seen() == old(self).seen() || final(self).seen() == old(
                self,
            ).seen().push(old(self).wires().showing(Data::Released)),
            r is Ok ==> final(self).strobed() == old(self).strobed().push(true).push(false),
    {
        proof {
            use_type_invariant(&self.width);
            assert(self.seen().subrange(0, self.seen().len() as int) =~= self.seen());
        }
        self.set_as_input()?;
        let ghost inputs = self.data_pins();
        self.enable()?;
        let read = self.read_bus();
        proof {
            lemma_shown_released(self.data_pins());
            if let Ok(value) = read {
                assert forall|i: int| 0 <= i < BITS implies (#[trigger] self.data_pins()[
                    i
                ]).samples() == old(self).data_pins()[i].samples().push(bit_of(value, i)) by {
                    assert(inputs[i].samples() == old(self).data_pins()[i].samples());
                }
            }
        }
        let ghost raised = self.seen();
        self.disable()?;
        proof {
            assert(self.seen().subrange(0, raised.len() as int) =~= raised);
        }
        read
    }
}

impl<O, Io, C, const PINS: usize, const BITS: usize> Output for Interface<
    O,
    Io,
    C,
    PINS,
    BITS,
> where O: OutPin, Io: OutPin<Error = O::Error>, C: Clock {
    /// Write a byte to the data bus: in one pulse on eight wires; on four in two, the high
    /// half first, with a rest between them.
    fn write_u8(&mut self, data: u8) -> (r: Result<(), Self::Error>)
        ensures
            final(self).same_but_transfer(old(self)),
            final(self).read_so_far() == old(self).read_so_far(),
            old(self).clock().time() <= final(self).clock().time(),
            r is Ok && BITS == 4 ==> rested(
                final(self).seen(),
                old(self).seen().len() as int,
                ENABLE_CYCLE,
            ),
    {
        proof {
            use_type_invariant(&self.width);
            lemma_halves_fit(data);
        }
        let ghost signals = on(old(self).wires(), beats(BITS as nat, data));
        if BITS == 4 {
            let first = self.beat(data >> 4);
            proof {
                if first is Err {
                    lemma_partly_none(
                        old(self).seen(),
                        old(self).records().line(),
                        signals,
                        old(self).clock().time(),
                        self.clock().time(),
                    );
                }
            }
            first?;
            sleep(&mut self.clock, ENABLE_CYCLE);
            let r = self.beat(data & 0xF);
            proof {
                if r is Ok {
                    reveal_with_fuel(pulses, 3);
                    assert(self.strobed() =~= old(self).strobed() + pulses(2));
                }
                if r is Err {
                    assert(signals.take(1) =~= seq![signals[0]]);
                    assert(carried(
                        old(self).seen(),
                        self.seen(),
                        old(self).records().line(),
                        signals.take(1),
                        old(self).clock().time(),
                        self.clock().time(),
                    ));
                }
            }
            r
        } else {
            let r = self.beat(data);
            proof {
                if r is Ok {
                    reveal_with_fuel(pulses, 2);
                    assert(self.strobed() =~= old(self).strobed() + pulses(1));
                }
                if r is Err {
                    lemma_partly_none(
                        old(self).seen(),
                        old(self).records().line(),
                        signals,
                        old(self).clock().time(),
                        self.clock().time(),
                    );
                }
            }
            r
        }
    }

    /// Write two bytes to the data bus, the high byte first; on eight wires with a rest
    /// between them.
    fn write_u16(&mut self, data: u16) -> (r: Result<(), Self::Error>)
        ensures
            final(self).same_but_transfer(old(self)),
            final(self).read_so_far() == old(self).read_so_far(),
            old(self).clock().time() <= final(self).clock().time(),
            r is Ok ==> rested(final(self).seen(), old(self).seen().len() as int, ENABLE_CYCLE),
            r is Ok && BITS == 4 ==> rested(
                final(self).seen(),
                old(self).seen().len() as int + 2,
                ENABLE_CYCLE,
            ),
    {
        proof {
            use_type_invariant(&self.width);
        }
        let ghost before = *self;
        let first = self.write_u8(high(data));
        proof {
            lemma_on_both(
                before.wires(),
                beats(before.width(), high(data)),
                beats(before.width(), low(data)),
            );
            if first is Err {
                lemma_partly_first(
                    before.cycles(),
                    self.cycles(),
                    before.wires().line,
                    on(before.wires(), beats(before.width(), high(data))),
                    on(before.wires(), beats(before.width(), low(data))),
                    before.wires().at,
                    self.wires().at,
                );
            }
        }
        first?;
        let ghost between = *self;
        if BITS != 4 {
            sleep(&mut self.clock, ENABLE_CYCLE);
        }
        let ghost rested = *self;
        let r = self.write_u8(low(data));
        proof {
            if r is Err {
                lemma_partly_second(
                    before.cycles(),
                    between.cycles(),
                    self.cycles(),
                    before.wires().line,
                    on(before.wires(), beats(before.width(), high(data))),
                    on(rested.wires(), beats(before.width(), low(data))),
                    before.wires().at,
                    between.wires().at,
                    rested.wires().at,
                    self.wires().at,
                );
                assert(on(rested.wires(), beats(before.width(), low(data))) == on(
                    before.wires(),
                    beats(before.width(), low(data)),
                ));
            }
            if r is Ok {
                lemma_pulses_both(
                    beats(before.width(), high(data)).len(),
                    beats(before.width(), low(data)).len(),
                );
                assert(self.strobed() =~= before.strobed() + (pulses(
                    beats(before.width(), high(data)).len(),
                ) + pulses(beats(before.width(), low(data)).len())));
                lemma_carried_twice(
                    before.cycles(),
                    between.cycles(),
                    self.cycles(),
                    before.wires().line,
                    on(before.wires(), beats(before.width(), high(data))),
                    on(rested.wires(), beats(before.width(), low(data))),
                    before.wires().at,
                    between.wires().at,
                    rested.wires().at,
                    self.wires().at,
                );
                assert(on(
                    before.wires(),
                    beats(before.width(), high(data)) + beats(before.width(), low(data)),
                ) =~= on(before.wires(), beats(before.width(), high(data))) + on(
                    rested.wires(),
                    beats(before.width(), low(data)),
                ));
                let n = before.seen().len() as int;
                assert(self.seen()[n] == between.seen()[n]);
                assert(self.seen()[between.seen().len() as int + 0].at >= rested.wires().at);
                if BITS == 4 {
                    assert(self.seen()[n + 1] == between.seen()[n + 1]);
                } else {
                    assert(between.seen()[n + 0].at <= between.wires().at);
                }
            }
        }
        r
    }
}

impl<O, Io, C, const PINS: usize, const BITS: usize> Interface<O, Io, C, PINS, BITS> where
    O: OutPin,
    Io: IoPin<Error = O::Error>,
    C: Clock,
 {
    /// Takes a byte from the display in use: in one pulse on eight wires; on four in two, the
    /// high half first, with a rest between them.
    fn take_u8(&mut self) -> (r: Result<u8, O::Error>)
        requires
            PINS > 0,
        ensures
            r is Ok ==> final(self).reported() == old(self).reported(),
            r matches Err(error) ==> raised(old(self).reported(), final(self).reported(), error),
            final(self).same_but_transfer(old(self)),
            pulsed(
                old(self).seen(),
                final(self).seen(),
                old(self).records().line(),
                old(self).clock().time(),
                final(self).clock().time(),
            ),
            old(self).clock().time() <= final(self).clock().time(),
            r matches Ok(byte) ==> final(self).read_so_far() == old(self).read_so_far().push(byte),
            r matches Ok(byte) ==> read_through(
                old(self).data_pins(),
                final(self).data_pins(),
                BITS as nat,
                seq![byte],
            ),
            r is Ok ==> carried(
                old(self).seen(),
                final(self).seen(),
                old(self).wires().line,
                on(old(self).wires(), turns(BITS as nat)),
                old(self).wires().at,
                final(self).wires().at,
            ),
            r is Ok ==> final(self).wires().same_register(old(self).wires()),
            r is Ok ==> final(self).wires().signal.data == Data::Released,
            r is Ok && BITS == 4 ==> rested(
                final(self).seen(),
                old(self).seen().len() as int,
                ENABLE_CYCLE,
            ),
            r is Err ==> final(self).read_so_far() == old(self).read_so_far(),
            r is Err ==> at_most(
                old(self).seen(),
                final(self).seen(),
                old(self).wires().line,
                on(old(self).wires(), turns(BITS as nat)),
                old(self).wires().at,
                final(self).wires().at,
            ),
            r is Ok ==> final(self).strobed() == old(self).strobed() + pulses(
                turns(BITS as nat).len(),
            ),
    {
        proof {
            use_type_invariant(&self.width);
        }
        let ghost signals = on(old(self).wires(), turns(BITS as nat));
        let ghost line = old(self).wires().line;
        let ghost since = old(self).clock().time();
        let byte = if BITS == 4 {
            let one = self.turn();
            proof {
                if one is Err {
                    if self.seen() == old(self).seen() {
                        lemma_at_most_none(
                            old(self).seen(),
                            line,
                            signals,
                            since,
                            self.clock().time(),
                        );
                    } else {
                        assert(signals.take(1) =~= seq![signals[0]]);
                        assert(carried(
                            old(self).seen(),
                            self.seen(),
                            line,
                            signals.take(1),
                            since,
                            self.clock().time(),
                        ));
                    }
                }
            }
            let h = one?;
            let ghost between = self.data_pins();
            let ghost first = *self;
            sleep(&mut self.clock, ENABLE_CYCLE);
            let ghost rested = *self;
            let second = self.turn();
            proof {
                lemma_pulsed_twice(
                    old(self).seen(),
                    first.seen(),
                    self.seen(),
                    old(self).records().line(),
                    old(self).clock().time(),
                    old(self).clock().time(),
                    rested.clock().time(),
                    self.clock().time(),
                );
            }
            proof {
                if second is Err {
                    if self.seen() == rested.seen() {
                        assert(signals.take(1) =~= seq![signals[0]]);
                        assert(carried(
                            old(self).seen(),
                            self.seen(),
                            line,
                            signals.take(1),
                            since,
                            self.clock().time(),
                        ));
                    } else {
                        assert(signals.take(2) =~= signals);
                        assert(carried(
                            old(self).seen(),
                            self.seen(),
                            line,
                            signals.take(2),
                            since,
                            self.clock().time(),
                        ));
                    }
                }
            }
            let l = second?;
            proof {
                reveal_with_fuel(pulses, 3);
                assert(self.strobed() =~= old(self).strobed() + pulses(2));
                lemma_halves(h, l);
                assert forall|i: int| 0 <= i < 4 implies (#[trigger] self.data_pins()[i]).samples()
                    == old(self).data_pins()[i].samples() + levels_of_all(
                    4,
                    seq![h << 4 | l],
                    i,
                ) by {
                    reveal_with_fuel(levels_of_all, 2);
                    assert(seq![h << 4 | l].drop_last() =~= Seq::<u8>::empty());
                    assert(between[i].samples() == old(self).data_pins()[i].samples().push(
                        bit_of(h, i),
                    ));
                    assert(self.data_pins()[i].samples() =~= old(self).data_pins()[i].samples()
                        + levels_of(4, h << 4 | l, i));
                }
            }
            h << 4 | l
        } else {
            let one = self.turn();
            proof {
                if one is Err {
                    if self.seen() == old(self).seen() {
                        lemma_at_most_none(
                            old(self).seen(),
                            line,
                            signals,
                            since,
                            self.clock().time(),
                        );
                    } else {
                        assert(signals.take(1) =~= signals);
                        assert(carried(
                            old(self).seen(),
                            self.seen(),
                            line,
                            signals.take(1),
                            since,
                            self.clock().time(),
                        ));
                    }
                }
            }
            let byte = one?;
            proof {
                reveal_with_fuel(pulses, 2);
                assert(self.strobed() =~= old(self).strobed() + pulses(1));
                assert forall|i: int| 0 <= i < 8 implies (#[trigger] self.data_pins()[i]).samples()
                    == old(self).data_pins()[i].samples() + levels_of_all(8, seq![byte], i) by {
                    reveal_with_fuel(levels_of_all, 2);
                    assert(seq![byte].drop_last() =~= Seq::<u8>::empty());
                    assert(self.data_pins()[i].samples() =~= old(self).data_pins()[i].samples()
                        + levels_of(8, byte, i));
                }
            }
            byte
        };
        proof {
            self.received@ = self.received@.push(byte);
        }
        Ok(byte)
    }

    /// Takes two bytes from the display in use, the high byte first; on eight wires with a
    /// rest between them.
    fn take_u16(&mut self) -> (r: Result<u16, O::Error>)
        requires
            PINS > 0,
        ensures
            r is Ok ==> final(self).reported() == old(self).reported(),
            r matches Err(error) ==> raised(old(self).reported(), final(self).reported(), error),
            final(self).same_but_transfer(old(self)),
            pulsed(
                old(self).seen(),
                final(self).seen(),
                old(self).records().line(),
                old(self).clock().time(),
                final(self).clock().time(),
            ),
            old(self).clock().time() <= final(self).clock().time(),
            old(self).read_so_far().is_prefix_of(final(self).read_so_far()),
            r matches Ok(read) ==> final(self).read_so_far() == old(self).read_so_far().push(
                high(read),
            ).push(low(read)),
            r matches Ok(read) ==> read_through(
                old(self).data_pins(),
                final(self).data_pins(),
                BITS as nat,
                seq![high(read), low(read)],
            ),
            r is Ok ==> carried(
                old(self).seen(),
                final(self).seen(),
                old(self).wires().line,
                on(old(self).wires(), turns(BITS as nat) + turns(BITS as nat)),
                old(self).wires().at,
                final(self).wires().at,
            ),
            r is Ok ==> final(self).wires().same_register(old(self).wires()),
            r is Ok ==> final(self).wires().signal.data == Data::Released,
            r is Err ==> at_most(
                old(self).seen(),
                final(self).seen(),
                old(self).wires().line,
                on(old(self).wires(), turns(BITS as nat) + turns(BITS as nat)),
                old(self).wires().at,
                final(self).wires().at,
            ),
            r is Ok ==> final(self).strobed() == old(self).strobed() + pulses(
                (turns(BITS as nat) + turns(BITS as nat)).len(),
            ),
            r is Ok ==> rested(final(self).seen(), old(self).seen().len() as int, ENABLE_CYCLE),
            r is Ok && BITS == 4 ==> rested(
                final(self).seen(),
                old(self).seen().len() as int + 2,
                ENABLE_CYCLE,
            ),
    {
        proof {
            use_type_invariant(&self.width);
        }
        let ghost before = *self;
        let first = self.take_u8();
        proof {
            lemma_on_both(before.wires(), turns(BITS as nat), turns(BITS as nat));
            if first is Err {
                lemma_at_most_first(
                    before.seen(),
                    self.seen(),
                    before.wires().line,
                    on(before.wires(), turns(BITS as nat)),
                    on(before.wires(), turns(BITS as nat)),
                    before.wires().at,
                    self.wires().at,
                );
            }
        }
        let h = first?;
        let ghost between = *self;
        if BITS != 4 {
            sleep(&mut self.clock, ENABLE_CYCLE);
        }
        let ghost rested = *self;
        let r = self.take_u8();
        proof {
            if r is Err {
                lemma_at_most_second(
                    before.seen(),
                    between.seen(),
                    self.seen(),
                    before.wires().line,
                    on(before.wires(), turns(BITS as nat)),
                    on(rested.wires(), turns(BITS as nat)),
                    before.wires().at,
                    between.wires().at,
                    rested.wires().at,
                    self.wires().at,
                );
                assert(on(rested.wires(), turns(BITS as nat)) == on(
                    before.wires(),
                    turns(BITS as nat),
                ));
            }
            lemma_pulsed_twice(
                before.seen(),
                between.seen(),
                self.seen(),
                before.records().line(),
                before.clock().time(),
                between.clock().time(),
                rested.clock().time(),
                self.clock().time(),
            );
            assert(old(self).read_so_far().is_prefix_of(self.read_so_far())) by {
                assert(self.read_so_far().subrange(0, old(self).read_so_far().len() as int)
                    =~= old(self).read_so_far());
            }
        }
        let l = r?;
        proof {
            lemma_pulses_both(turns(BITS as nat).len(), turns(BITS as nat).len());
            assert(self.strobed() =~= before.strobed() + (pulses(turns(BITS as nat).len())
                + pulses(turns(BITS as nat).len())));
            lemma_carried_twice(
                before.seen(),
                between.seen(),
                self.seen(),
                before.wires().line,
                on(before.wires(), turns(BITS as nat)),
                on(rested.wires(), turns(BITS as nat)),
                before.wires().at,
                between.wires().at,
                rested.wires().at,
                self.wires().at,
            );
            assert(on(before.wires(), turns(BITS as nat) + turns(BITS as nat)) =~= on(
                before.wires(),
                turns(BITS as nat),
            ) + on(rested.wires(), turns(BITS as nat)));
            lemma_word_parts(h, l);
            lemma_read_through_one_more(
                before.data_pins(),
                between.data_pins(),
                self.data_pins(),
                BITS as nat,
                seq![h],
                l,
            );
            assert(seq![h].push(l) =~= seq![h, l]);
            let n = before.seen().len() as int;
            assert(self.seen()[n] == between.seen()[n]);
            assert(self.seen()[between.seen().len() as int + 0].at >= rested.wires().at);
            if BITS == 4 {
                assert(self.seen()[n + 1] == between.seen()[n + 1]);
            } else {
                assert(between.seen()[n + 0].at <= between.wires().at);
            }
        }
        Ok(word(h, l))
    }
}

impl<O, Io, C, const PINS: usize, const BITS: usize> Input for Interface<
    O,
    Io,
    C,
    PINS,
    BITS,
> where O: OutPin, Io: IoPin<Error = O::Error>, C: Clock {
    open spec fn received(&self) -> Seq<u8> {
        self.read_so_far()
    }

    /// Read a byte from the data bus: in one pulse on eight wires; on four in two, the high
    /// half first, with a rest between them.
    fn read_u8(&mut self) -> (r: Result<u8, Self::Error>)
        ensures
            final(self).same_but_transfer(old(self)),
            old(self).clock().time() <= final(self).clock().time(),
            r matches Ok(byte) ==> read_through(
                old(self).data_pins(),
                final(self).data_pins(),
                BITS as nat,
                seq![byte],
            ),
            r is Ok && BITS == 4 ==> rested(
                final(self).seen(),
                old(self).seen().len() as int,
                ENABLE_CYCLE,
            ),
    {
        self.take_u8()
    }

    /// Read two bytes from the data bus, the high byte first; on eight wires with a rest
    /// between them.
    fn read_u16(&mut self) -> (r: Result<u16, Self::Error>)
        ensures
            final(self).same_but_transfer(old(self)),
            old(self).clock().time() <= final(self).clock().time(),
            old(self).received().is_prefix_of(final(self).received()),
            r matches Ok(read) ==> read_through(
                old(self).data_pins(),
                final(self).data_pins(),
                BITS as nat,
                seq![high(read), low(read)],
            ),
            r is Ok ==> rested(final(self).seen(), old(self).seen().len() as int, ENABLE_CYCLE),
            r is Ok && BITS == 4 ==> rested(
                final(self).seen(),
                old(self).seen().len() as int + 2,
                ENABLE_CYCLE,
            ),
    {
        self.take_u16()
    }
}

impl<O, Io, C, const PINS: usize> Interface4Bit<O, Io, C, PINS> where
    O: OutPin,
    Io: OutPin<Error = O::Error>,
    C: Clock,
 {
    /// Carries the low half of `nibble` to the display in use, in one pulse.
    pub fn write_u4(&mut self, nibble: u8) -> (r: Result<(), O::Error>)
        requires
            PINS > 0,
        ensures
            r is Ok ==> final(self).reported() == old(self).reported(),
            r matches Err(error) ==> final(self).reported() == old(self).reported().push(error),
            final(self).same_but_beat(old(self)),
            r is Ok ==> final(self).seen() == old(self).seen().push(
                old(self).wires().showing(Data::Driven(nibble & 0xF)),
            ),
            r is Err ==> final(self).seen() == old(self).seen(),
    {
        self.beat(nibble)
    }
}

impl<O, Io, C, const PINS: usize> Interface4Bit<O, Io, C, PINS> where
    O: OutPin,
    Io: IoPin<Error = O::Error>,
    C: Clock,
 {
    /// Takes half a byte from the display in use, in one pulse.
    pub fn read_u4(&mut self) -> (r: Result<u8, O::Error>)
        requires
            PINS > 0,
        ensures
            r is Ok ==> final(self).reported() == old(self).reported(),
            r matches Err(error) ==> raised(old(self).reported(), final(self).reported(), error),
            final(self).same_but_beat(old(self)),
            r is Ok ==> final(self).seen() == old(self).seen().push(
                old(self).wires().showing(Data::Released),
            ),
            r matches Ok(nibble) ==> nibble <= 0xF && sampled(
                old(self).data_pins(),
                final(self).data_pins(),
                nibble,
            ),
            pulsed(
                old(self).seen(),
                final(self).seen(),
                old(self).records().line(),
                old(self).clock().time(),
                old(self).clock().time(),
            ),
    {
        let r = self.turn();
        proof {
            if let Ok(nibble) = r {
                lemma_low_half(nibble);
            }
        }
        r
    }
}

impl<O, Io, C, const PINS: usize, const BITS: usize> Interface<O, Io, C, PINS, BITS> where
    O: OutPin,
    Io: OutPin<Error = O::Error>,
    C: Clock,
 {
    /// Sends `command` to the display in use as it is, whatever set the display is in: waits
    /// for the display's deadline, addresses the register, carries the bytes, and books the
    /// new deadline, which lies the execution time of `command` after the end of the
    /// transfer.
    fn issue(&mut self, command: Command) -> (r: Result<(), O::Error>)
        requires
            PINS > 0,
        ensures
            r is Ok ==> final(self).reported() == old(self).reported(),
            r matches Err(error) ==> final(self).reported() == old(self).reported().push(error),
            final(self).same_but_display(old(self)),
            pulsed(
                old(self).seen(),
                final(self).seen(),
                old(self).records().line(),
                later(old(self).records().deadline(), old(self).clock().time()),
                final(self).clock().time(),
            ),
            old(self).clock().time() <= final(self).clock().time(),
            r is Ok ==> carried(
                old(self).seen(),
                final(self).seen(),
                old(self).records().line(),
                transfer(BITS as nat, command),
                later(old(self).records().deadline(), old(self).clock().time()),
                final(self).clock().time(),
            ),
            r is Ok ==> final(self).records().deadline() == after(
                final(self).clock().time(),
                command.spec_execution_time() as u64,
            ),
            r is Ok ==> final(self).records().history() == old(self).records().history().push(
                Step::Command(command),
            ),
            r is Ok ==> final(self).records().spec_mode() == old(
                self,
            ).records().spec_mode().spec_after(command),
            r is Ok ==> later(old(self).records().deadline(), old(self).clock().time())
                <= final(self).clock().time(),
            r is Err ==> final(self).records() == old(self).records(),
            later(old(self).records().deadline(), old(self).clock().time()) <= later(
                final(self).records().deadline(),
                final(self).clock().time(),
            ),
            r is Err ==> partly(
                old(self).seen(),
                final(self).seen(),
                old(self).records().line(),
                transfer(BITS as nat, command),
                later(old(self).records().deadline(), old(self).clock().time()),
                final(self).clock().time(),
            ),
            r is Ok ==> final(self).strobed() == old(self).strobed() + pulses(
                transfer(BITS as nat, command).len(),
            ),
    {
        let ghost line = self.records().line();
        let ghost since = later(self.records().deadline(), self.clock().time());
        self.lines.wait(&mut self.clock);
        match command {
            Command::Write(data) => {
                let chosen = self.select(true, false);
                proof {
                    if chosen is Err {
                        lemma_partly_none(
                            self.seen(),
                            line,
                            transfer(BITS as nat, command),
                            since,
                            self.clock().time(),
                        );
                    }
                }
                chosen?;
                let ghost selected = *self;
                let written = self.write_u16(data);
                proof {
                    if written is Err {
                        lemma_partly_within(
                            selected.seen(),
                            self.seen(),
                            line,
                            transfer(BITS as nat, command),
                            selected.clock().time(),
                            self.clock().time(),
                            since,
                            self.clock().time(),
                        );
                    }
                }
                written?;
            },
            _ => {
                let chosen = self.select(false, false);
                proof {
                    if chosen is Err {
                        lemma_partly_none(
                            self.seen(),
                            line,
                            transfer(BITS as nat, command),
                            since,
                            self.clock().time(),
                        );
                    }
                }
                chosen?;
                let ghost selected = *self;
                let bytes = command.into_bytes();
                let first = self.write_u8(bytes[0]);
                proof {
                    if first is Err {
                        lemma_on_both(
                            selected.wires(),
                            beats(BITS as nat, bytes[0]),
                            beats(BITS as nat, bytes[1]),
                        );
                        if bytes[1] != 0 {
                            lemma_partly_first(
                                selected.seen(),
                                self.seen(),
                                line,
                                on(selected.wires(), beats(BITS as nat, bytes[0])),
                                on(selected.wires(), beats(BITS as nat, bytes[1])),
                                selected.clock().time(),
                                self.clock().time(),
                            );
                        }
                        lemma_partly_within(
                            selected.seen(),
                            self.seen(),
                            line,
                            transfer(BITS as nat, command),
                            selected.clock().time(),
                            self.clock().time(),
                            since,
                            self.clock().time(),
                        );
                    }
                }
                first?;
                if bytes[1] != 0 {
                    let ghost between = *self;
                    let r = self.write_u8(bytes[1]);
                    proof {
                        if r is Err {
                            lemma_on_both(
                                selected.wires(),
                                beats(BITS as nat, bytes[0]),
                                beats(BITS as nat, bytes[1]),
                            );
                            lemma_partly_second(
                                selected.seen(),
                                between.seen(),
                                self.seen(),
                                line,
                                on(selected.wires(), beats(BITS as nat, bytes[0])),
                                on(between.wires(), beats(BITS as nat, bytes[1])),
                                selected.clock().time(),
                                between.clock().time(),
                                between.clock().time(),
                                self.clock().time(),
                            );
                            lemma_partly_within(
                                selected.seen(),
                                self.seen(),
                                line,
                                transfer(BITS as nat, command),
                                selected.clock().time(),
                                self.clock().time(),
                                since,
                                self.clock().time(),
                            );
                        }
                        lemma_pulsed_twice(
                            selected.cycles(),
                            between.cycles(),
                            self.cycles(),
                            selected.wires().line,
                            selected.wires().at,
                            between.wires().at,
                            between.wires().at,
                            self.wires().at,
                        );
                    }
                    r?;
                    proof {
                        lemma_pulses_both(
                            beats(BITS as nat, bytes[0]).len(),
                            beats(BITS as nat, bytes[1]).len(),
                        );
                        assert(self.strobed() =~= selected.strobed() + (pulses(
                            beats(BITS as nat, bytes[0]).len(),
                        ) + pulses(beats(BITS as nat, bytes[1]).len())));
                        lemma_carried_twice(
                            selected.cycles(),
                            between.cycles(),
                            self.cycles(),
                            selected.wires().line,
                            on(selected.wires(), beats(BITS as nat, bytes[0])),
                            on(between.wires(), beats(BITS as nat, bytes[1])),
                            selected.wires().at,
                            between.wires().at,
                            between.wires().at,
                            self.wires().at,
                        );
                        assert(to_register(
                            false,
                            false,
                            beats(BITS as nat, bytes[0]) + beats(BITS as nat, bytes[1]),
                        ) =~= on(selected.wires(), beats(BITS as nat, bytes[0])) + on(
                            between.wires(),
                            beats(BITS as nat, bytes[1]),
                        ));
                    }
                }
            },
        }
        let now = self.clock.now();
        self.lines.book(now, command.execution_time() as u64);
        let ghost booked = self.lines;
        self.lines.took(command);
        proof {
            lemma_others_chain(old(self).lines, booked, self.lines);
        }
        Ok(())
    }
}

impl<O, Io, C, const PINS: usize, const BITS: usize> Interface<O, Io, C, PINS, BITS> where
    O: OutPin,
    Io: OutPin<Error = O::Error>,
    C: Clock,
 {
    /// Whether the display in use is booked for the last instruction that its history has
    /// more than that of `before`: for the execution time of that instruction, from an
    /// instant between the end of the wait for the deadline of `before` and now. Where there
    /// is no such instruction, the deadline is that of `before`.
    pub open spec fn booked(&self, before: &Self) -> bool {
        let sent = commands(added(before.records().history(), self.records().history()));
        &&& before.records().history().is_prefix_of(self.records().history())
        &&& sent.len() == 0 ==> self.records().deadline() == before.records().deadline()
        &&& sent.len() > 0 ==> after(
            later(before.records().deadline(), before.clock().time()),
            sent.last().spec_execution_time() as u64,
        ) <= self.records().deadline() <= after(
            self.clock().time(),
            sent.last().spec_execution_time() as u64,
        )
    }

    /// Whether the interface, which was `before`, has since dealt with the display in use
    /// only, and not before its deadline had passed: the other displays are as they were,
    /// with their enable pins and their deadlines; the clock has not gone back; every cycle
    /// since was one of the display in use, after its deadline; and the display is booked
    /// for the last instruction that it was sent, as [`Self::booked`] says: an instruction
    /// that has failed has booked nothing.
    pub open spec fn dealt(&self, before: &Self) -> bool {
        &&& self.booked(before)
        &&& self.same_but_display(before)
        &&& before.clock().time() <= self.clock().time()
        &&& later(before.records().deadline(), before.clock().time()) <= later(
            self.records().deadline(),
            self.clock().time(),
        )
        &&& pulsed(
            before.seen(),
            self.seen(),
            before.records().line(),
            later(before.records().deadline(), before.clock().time()),
            self.clock().time(),
        )
    }

    /// Whether the interface, which was `before`, has since sent the display in use the
    /// instructions that its history has more than that of `before`, and nothing else: it
    /// has dealt with that display only; the bus has seen the cycles that carry these
    /// instructions on its wires, in order, each after the deadline that the instruction
    /// before it had booked; and the display is booked for the execution time of the last
    /// of them, from an instant that is not before the end of its last cycle. The enable pin
    /// was driven high and low once for each cycle.
    pub open spec fn served(&self, before: &Self) -> bool {
        let sent = commands(added(before.records().history(), self.records().history()));
        &&& self.dealt(before)
        &&& carried(
            before.seen(),
            self.seen(),
            before.records().line(),
            traffic(BITS as nat, sent),
            later(before.records().deadline(), before.clock().time()),
            self.clock().time(),
        )
        &&& sent.len() > 0 ==> after(
            self.seen().last().at,
            sent.last().spec_execution_time() as u64,
        ) <= self.records().deadline()
        &&& self.strobed() == before.strobed() + pulses(traffic(BITS as nat, sent).len())
    }

    /// Whether the interface, which was `before`, has since failed to send the display in use
    /// `command`: it has left on the bus the cycles that went before the failure, those of
    /// the instructions before the one that failed and the first of its own; and where
    /// `command` was the first to be sent, the records are as they were.
    pub open spec fn halted(&self, before: &Self, command: Command) -> bool {
        &&& before.records().spec_mode().spec_bridge(command) is None ==> self.records()
            == before.records()
        &&& exists|count: int|
            0 < count <= issued(before.records().spec_mode(), command).len() && partly(
                before.seen(),
                self.seen(),
                before.records().line(),
                traffic(
                    BITS as nat,
                    #[trigger] issued(before.records().spec_mode(), command).take(count),
                ),
                later(before.records().deadline(), before.clock().time()),
                self.clock().time(),
            )
    }

    /// What the interface has dealt with twice, one time after the other, it has dealt with.
    pub proof fn lemma_dealt_twice(&self, first: &Self, second: &Self)
        requires
            second.dealt(first),
            self.dealt(second),
        ensures
            self.dealt(first),
    {
        lemma_added_twice(
            first.records().history(),
            second.records().history(),
            self.records().history(),
        );
        let head = commands(added(first.records().history(), second.records().history()));
        let tail = commands(added(second.records().history(), self.records().history()));
        if tail.len() == 0 {
            assert(head + tail =~= head);
        } else {
            assert((head + tail).last() == tail.last());
        }
        lemma_others_chain(first.records(), second.records(), self.records());
        lemma_pulsed_twice(
            first.seen(),
            second.seen(),
            self.seen(),
            first.records().line(),
            later(first.records().deadline(), first.clock().time()),
            second.clock().time(),
            later(second.records().deadline(), second.clock().time()),
            self.clock().time(),
        );
    }

    /// What the interface has served twice, one time after the other, it has served.
    pub proof fn lemma_served_twice(&self, first: &Self, second: &Self)
        requires
            second.served(first),
            self.served(second),
        ensures
            self.served(first),
    {
        self.lemma_dealt_twice(first, second);
        lemma_added_twice(
            first.records().history(),
            second.records().history(),
            self.records().history(),
        );
        let head = commands(added(first.records().history(), second.records().history()));
        let tail = commands(added(second.records().history(), self.records().history()));
        lemma_traffic_both(BITS as nat, head, tail);
        lemma_carried_twice(
            first.seen(),
            second.seen(),
            self.seen(),
            first.records().line(),
            traffic(BITS as nat, head),
            traffic(BITS as nat, tail),
            later(first.records().deadline(), first.clock().time()),
            second.clock().time(),
            later(second.records().deadline(), second.clock().time()),
            self.clock().time(),
        );
        if tail.len() == 0 {
            assert(self.seen() =~= second.seen());
            assert(head + tail =~= head);
        } else {
            assert((head + tail).last() == tail.last());
        }
        lemma_pulses_both(traffic(BITS as nat, head).len(), traffic(BITS as nat, tail).len());
        assert(first.strobed() + pulses(traffic(BITS as nat, head).len()) + pulses(
            traffic(BITS as nat, tail).len(),
        ) =~= first.strobed() + (pulses(traffic(BITS as nat, head).len()) + pulses(
            traffic(BITS as nat, tail).len(),
        )));
    }

    /// Whether the interface, which was `start`, has since sent the display in use the first
    /// `count` of the instructions that `command` takes, and nothing else.
    pub open spec fn progressed(&self, start: &Self, command: Command, count: int) -> bool {
        &&& self.same_but_display(start)
        &&& start.clock().time() <= self.clock().time()
        &&& later(start.records().deadline(), start.clock().time()) <= later(
            self.records().deadline(),
            self.clock().time(),
        )
        &&& sent_first(
            start.records().history(),
            start.records().spec_mode(),
            command,
            count,
            self.records().history(),
            self.records().spec_mode(),
        )
        &&& carried(
            start.seen(),
            self.seen(),
            start.records().line(),
            traffic(BITS as nat, issued(start.records().spec_mode(), command).take(count)),
            later(start.records().deadline(), start.clock().time()),
            self.clock().time(),
        )
        &&& self.booked(start)
        &&& self.strobed() == start.strobed() + pulses(
            traffic(BITS as nat, issued(start.records().spec_mode(), command).take(count)).len(),
        )
    }

    /// Sends the display in use `next`, which is the instruction that follows the first
    /// `count` of those that `command` takes.
    fn advance(
        &mut self,
        command: Command,
        next: Command,
        Ghost(start): Ghost<Self>,
        Ghost(count): Ghost<int>,
    ) -> (r: Result<(), O::Error>)
        requires
            PINS > 0,
            old(self).progressed(&start, command, count),
            count < issued(start.records().spec_mode(), command).len(),
            issued(start.records().spec_mode(), command)[count] == next,
        ensures
            r matches Err(error) ==> occurrences(old(self).reported(), error) < occurrences(
                final(self).reported(),
                error,
            ),
            forall|other: O::Error|
                occurrences(old(self).reported(), other) <= #[trigger] occurrences(
                    final(self).reported(),
                    other,
                ),
            r is Ok ==> final(self).reported() == old(self).reported(),
            r matches Err(error) ==> final(self).reported() == old(self).reported().push(error),
            final(self).same_but_display(&start),
            pulsed(
                start.seen(),
                final(self).seen(),
                start.records().line(),
                later(start.records().deadline(), start.clock().time()),
                final(self).clock().time(),
            ),
            start.clock().time() <= final(self).clock().time(),
            r is Ok ==> final(self).progressed(&start, command, count + 1),
            r is Ok ==> final(self).records().deadline() == after(
                final(self).clock().time(),
                next.spec_execution_time() as u64,
            ),
            r is Err ==> executed(
                start.records().history(),
                start.records().spec_mode(),
                command,
                false,
                final(self).records().history(),
                final(self).records().spec_mode(),
            ),
            r is Err ==> final(self).records() == old(self).records(),
            later(start.records().deadline(), start.clock().time()) <= later(
                final(self).records().deadline(),
                final(self).clock().time(),
            ),
            final(self).booked(&start),
            r is Err ==> partly(
                start.seen(),
                final(self).seen(),
                start.records().line(),
                traffic(BITS as nat, issued(start.records().spec_mode(), command).take(count + 1)),
                later(start.records().deadline(), start.clock().time()),
                final(self).clock().time(),
            ),
    {
        let ghost mode = start.records().spec_mode();
        let ghost since = later(start.records().deadline(), start.clock().time());
        let r = self.issue(next);
        proof {
            if r is Err {
                lemma_occurrences_raised(old(self).reported(), self.reported(), r->Err_0);
            }
            lemma_others_chain(start.lines, old(self).lines, self.lines);
            lemma_carried_is_pulsed(
                start.seen(),
                old(self).seen(),
                start.records().line(),
                traffic(BITS as nat, issued(mode, command).take(count)),
                since,
                old(self).clock().time(),
            );
            lemma_pulsed_twice(
                start.seen(),
                old(self).seen(),
                self.seen(),
                start.records().line(),
                since,
                old(self).clock().time(),
                later(old(self).records().deadline(), old(self).clock().time()),
                self.clock().time(),
            );
            if r is Ok {
                lemma_sent_next(
                    start.records().history(),
                    mode,
                    command,
                    count,
                    old(self).records().history(),
                    old(self).records().spec_mode(),
                );
                lemma_traffic_one_more(BITS as nat, issued(mode, command).take(count), next);
                assert(issued(mode, command).take(count + 1) =~= issued(mode, command).take(
                    count,
                ).push(next));
                lemma_pulses_both(
                    traffic(BITS as nat, issued(mode, command).take(count)).len(),
                    transfer(BITS as nat, next).len(),
                );
                assert(self.strobed() =~= start.strobed() + (pulses(
                    traffic(BITS as nat, issued(mode, command).take(count)).len(),
                ) + pulses(transfer(BITS as nat, next).len())));
                let sent = issued(mode, command).take(count + 1);
                lemma_commands_of_steps(sent);
                assert(added(start.records().history(), self.records().history()) =~= steps(
                    sent,
                ));
                assert(start.records().history().is_prefix_of(self.records().history()));
                assert(sent.last() == next);
                lemma_carried_twice(
                    start.seen(),
                    old(self).seen(),
                    self.seen(),
                    start.records().line(),
                    traffic(BITS as nat, issued(mode, command).take(count)),
                    transfer(BITS as nat, next),
                    since,
                    old(self).clock().time(),
                    later(old(self).records().deadline(), old(self).clock().time()),
                    self.clock().time(),
                );
            } else {
                lemma_sent_some(
                    start.records().history(),
                    mode,
                    command,
                    count,
                    self.records().history(),
                    self.records().spec_mode(),
                );
                lemma_traffic_one_more(BITS as nat, issued(mode, command).take(count), next);
                assert(issued(mode, command).take(count + 1) =~= issued(mode, command).take(
                    count,
                ).push(next));
                lemma_partly_second(
                    start.seen(),
                    old(self).seen(),
                    self.seen(),
                    start.records().line(),
                    traffic(BITS as nat, issued(mode, command).take(count)),
                    transfer(BITS as nat, next),
                    since,
                    old(self).clock().time(),
                    later(old(self).records().deadline(), old(self).clock().time()),
                    self.clock().time(),
                );
            }
        }
        r
    }
}

impl<O, Io, C, const PINS: usize, const BITS: usize> Execute for Interface<
    O,
    Io,
    C,
    PINS,
    BITS,
> where O: OutPin, Io: OutPin<Error = O::Error>, C: Clock {
    type Error = O::Error;

    open spec fn history(&self) -> Seq<Step> {
        self.records().history()
    }

    open spec fn mode(&self) -> Mode {
        self.records().spec_mode()
    }

    open spec fn failures(&self, error: Self::Error) -> nat {
        occurrences(self.reported(), error)
    }

    open spec fn kept(&self, before: &Self) -> bool {
        self.dealt(before)
    }

    open spec fn followed(&self, before: &Self) -> bool {
        self.served(before)
    }

    open spec fn stopped(&self, before: &Self, command: Command, error: Self::Error) -> bool {
        self.halted(before, command)
    }

    proof fn lemma_kept_twice(&self, first: &Self, second: &Self) {
        self.lemma_dealt_twice(first, second);
    }

    proof fn lemma_followed_twice(&self, first: &Self, second: &Self) {
        self.lemma_served_twice(first, second);
    }

    /// Sends the display in use `command`, after the instructions that bring it to a set in
    /// which it takes `command`. Each instruction waits for the deadline that the one before it
    /// has booked: the display sees no pulse before its deadline has passed. An instruction
    /// that fails books nothing, and leaves on the bus the cycles that went before the
    /// failure: those of the instructions before it, and the first of its own.
    fn execute(&mut self, command: Command) -> (r: Result<(), Self::Error>)
        ensures
            r is Ok ==> final(self).reported() == old(self).reported(),
            r matches Err(error) ==> final(self).reported() == old(self).reported().push(error),
            r is Ok ==> carried(
                old(self).seen(),
                final(self).seen(),
                old(self).records().line(),
                traffic(BITS as nat, issued(old(self).records().spec_mode(), command)),
                later(old(self).records().deadline(), old(self).clock().time()),
                final(self).clock().time(),
            ),
            r is Ok ==> final(self).records().deadline() == after(
                final(self).clock().time(),
                command.spec_execution_time() as u64,
            ),
    {
        let ghost start = *self;
        let ghost mode = self.records().spec_mode();
        proof {
            lemma_sent_none(self.records().history(), mode, command);
            lemma_traffic_one_more(BITS as nat, Seq::empty(), command);
            assert(issued(mode, command).take(0) =~= Seq::<Command>::empty());
            assert(added(self.records().history(), self.records().history()) =~= Seq::<
                Step,
            >::empty());
            assert(self.records().history().is_prefix_of(self.records().history()));
            assert(self.strobed() + pulses(0) =~= self.strobed());
        }
        let ghost mut count: int = 0;
        match self.lines.mode().bridge(command) {
            Some(first) => {
                self.advance(command, first, Ghost(start), Ghost(0))?;
                proof {
                    count = 1;
                }
                match self.lines.mode().bridge(command) {
                    Some(second) => {
                        self.advance(command, second, Ghost(start), Ghost(1))?;
                        proof {
                            count = 2;
                        }
                    },
                    None => {},
                }
            },
            None => {},
        }
        proof {
            crate::mode::lemma_route_is_admitted(mode, command);
        }
        let r = self.advance(command, command, Ghost(start), Ghost(count));
        proof {
            if r is Ok {
                assert(issued(mode, command).take(count + 1) =~= issued(mode, command));
                lemma_sent_all(
                    start.records().history(),
                    mode,
                    command,
                    self.records().history(),
                    self.records().spec_mode(),
                );
                let sent = issued(mode, command);
                lemma_commands_of_steps(sent);
                assert(added(start.records().history(), self.records().history()) =~= steps(
                    sent,
                ));
                assert(start.records().history().is_prefix_of(self.records().history()));
                assert(sent.last() == command);
                lemma_traffic_is_some(BITS as nat, sent);
                assert(self.seen().last() == self.seen()[start.seen().len() + (traffic(
                    BITS as nat,
                    sent,
                ).len() - 1)]);
            }
        }
        r
    }
}

impl<O, Io, C, const PINS: usize, const BITS: usize> Delay for Interface<O, Io, C, PINS, BITS> where
    O: OutPin,
    Io: OutPin<Error = O::Error>,
    C: Clock,
 {
    /// Returns once `micros` microseconds have passed on the clock, with nothing sent.
    fn delay(&mut self, micros: u32)
        ensures
            final(self).seen() == old(self).seen(),
            final(self).reported() == old(self).reported(),
            final(self).records().deadline() == old(self).records().deadline(),
            after(old(self).clock().time(), micros as u64) <= final(self).clock().time(),
    {
        sleep(&mut self.clock, micros as u64);
        self.lines.rested(micros);
        proof {
            let rest = added(old(self).records().history(), self.records().history());
            assert(rest =~= seq![Step::Pause(micros)]);
            assert(rest.drop_last() =~= Seq::<Step>::empty());
            assert(commands(rest) =~= Seq::<Command>::empty()) by {
                reveal_with_fuel(commands, 2);
            }
            assert(old(self).records().history().is_prefix_of(self.records().history()));
            lemma_traffic_one_more(BITS as nat, Seq::empty(), Command::Clear);
            assert(self.strobed() + pulses(0) =~= self.strobed());
        }
    }
}

impl<O, Io, C, const PINS: usize, const BITS: usize> Interface<O, Io, C, PINS, BITS> where
    O: OutPin,
    Io: IoPin<Error = O::Error>,
    C: Clock,
 {
    /// Whether the interface, which was `before`, has since dealt with the display in use
    /// only, to read it, and not before its deadline had passed: the other displays are as
    /// they were, with their enable pins and their deadlines; the display in use has its
    /// history and is in the set that it was in; the clock has not gone back; and every cycle
    /// since was one of the display in use, after its deadline.
    pub open spec fn probed(&self, before: &Self) -> bool {
        &&& self.same_but_transfer_and_deadline(before)
        &&& before.clock().time() <= self.clock().time()
        &&& pulsed(
            before.seen(),
            self.seen(),
            before.records().line(),
            later(before.records().deadline(), before.clock().time()),
            self.clock().time(),
        )
    }

    /// Whether the interface, which was `before`, has since read the display in use once, and
    /// done nothing else: the bytes read since are what the data pins have answered with,
    /// while they were released. Where `status` holds, it has read the status register, in
    /// the cycles that take one byte with RS low and RW high, and the deadline is as it was.
    /// Else it has read the RAM, in the cycles that take two bytes with RS and RW high, and
    /// the display is booked for the time that a read takes, from now. The enable pin was
    /// driven high and low once for each cycle.
    pub open spec fn fetched(&self, before: &Self, status: bool) -> bool {
        &&& self.probed(before)
        &&& before.read_so_far().is_prefix_of(self.read_so_far())
        &&& read_through(
            before.data_pins(),
            self.data_pins(),
            BITS as nat,
            self.read_so_far().skip(before.read_so_far().len() as int),
        )
        &&& self.strobed() == before.strobed() + pulses(
            if status {
                turns(BITS as nat).len()
            } else {
                (turns(BITS as nat) + turns(BITS as nat)).len()
            },
        )
        &&& status ==> self.records() == before.records() && carried(
            before.seen(),
            self.seen(),
            before.records().line(),
            to_register(false, true, turns(BITS as nat)),
            later(before.records().deadline(), before.clock().time()),
            self.clock().time(),
        )
        &&& !status ==> self.records().deadline() == after(
            self.clock().time(),
            DEFAULT_TIME as u64,
        ) && carried(
            before.seen(),
            self.seen(),
            before.records().line(),
            to_register(true, true, turns(BITS as nat) + turns(BITS as nat)),
            later(before.records().deadline(), before.clock().time()),
            self.clock().time(),
        )
    }

    /// Reads the status register of the display in use: waits for the display's deadline,
    /// addresses the register (RS low, RW high), and takes one byte. The deadline stays as
    /// it is.
    fn poll(&mut self) -> (r: Result<u8, O::Error>)
        requires
            PINS > 0,
        ensures
            r is Ok ==> final(self).reported() == old(self).reported(),
            r matches Err(error) ==> raised(old(self).reported(), final(self).reported(), error),
            final(self).records() == old(self).records(),
            final(self).same_but_transfer_and_deadline(old(self)),
            pulsed(
                old(self).seen(),
                final(self).seen(),
                old(self).records().line(),
                later(old(self).records().deadline(), old(self).clock().time()),
                final(self).clock().time(),
            ),
            old(self).clock().time() <= final(self).clock().time(),
            r matches Ok(raw) ==> final(self).read_so_far() == old(self).read_so_far().push(raw),
            r is Ok ==> carried(
                old(self).seen(),
                final(self).seen(),
                old(self).records().line(),
                to_register(false, true, turns(BITS as nat)),
                later(old(self).records().deadline(), old(self).clock().time()),
                final(self).clock().time(),
            ),
            r matches Ok(raw) ==> read_through(
                old(self).data_pins(),
                final(self).data_pins(),
                BITS as nat,
                seq![raw],
            ),
            r is Err ==> final(self).read_so_far() == old(self).read_so_far(),
            r is Err ==> at_most(
                old(self).seen(),
                final(self).seen(),
                old(self).records().line(),
                to_register(false, true, turns(BITS as nat)),
                later(old(self).records().deadline(), old(self).clock().time()),
                final(self).clock().time(),
            ),
            r is Ok ==> final(self).strobed() == old(self).strobed() + pulses(
                turns(BITS as nat).len(),
            ),
    {
        let ghost line = self.records().line();
        let ghost since = later(self.records().deadline(), self.clock().time());
        self.lines.wait(&mut self.clock);
        let chosen = self.select(false, true);
        proof {
            if chosen is Err {
                lemma_at_most_none(
                    self.seen(),
                    line,
                    to_register(false, true, turns(BITS as nat)),
                    since,
                    self.clock().time(),
                );
            }
        }
        chosen?;
        let ghost selected = *self;
        let r = self.take_u8();
        proof {
            if r is Err {
                lemma_at_most_within(
                    selected.seen(),
                    self.seen(),
                    line,
                    to_register(false, true, turns(BITS as nat)),
                    selected.clock().time(),
                    self.clock().time(),
                    since,
                    self.clock().time(),
                );
            }
        }
        r
    }

    /// Reads the status register of the display in use until it says that the chip is
    /// ready, with a rest after each reading, and gives up once `BUSY_CEILING` has passed
    /// since the call. Returns whether the chip is ready. The deadline of the display stays
    /// as it is.
    pub fn wait_while_busy(&mut self) -> (r: Result<bool, O::Error>)
        requires
            PINS > 0,
        ensures
            r is Ok ==> final(self).reported() == old(self).reported(),
            r matches Err(error) ==> raised(old(self).reported(), final(self).reported(), error),
            final(self).records() == old(self).records(),
            final(self).same_but_transfer_and_deadline(old(self)),
            old(self).read_so_far().is_prefix_of(final(self).read_so_far()),
            old(self).clock().time() <= final(self).clock().time(),
            r matches Ok(ready) ==> polled(
                old(self).read_so_far(),
                final(self).read_so_far(),
                ready,
            ),
            status_reads(
                old(self).seen(),
                final(self).seen(),
                old(self).records().line(),
                later(old(self).records().deadline(), old(self).clock().time()),
                final(self).clock().time(),
            ),
            r is Ok ==> final(self).seen().len() - old(self).seen().len() == (
            final(self).read_so_far().len() - old(self).read_so_far().len()) * turns(
                BITS as nat,
            ).len(),
            r matches Ok(ready) ==> !ready ==> after(old(self).clock().time(), BUSY_CEILING)
                <= final(self).clock().time(),
    {
        let start = self.clock.now();
        let ceiling = after(start, BUSY_CEILING);
        let ghost since = later(old(self).records().deadline(), old(self).clock().time());
        proof {
            assert(self.seen().subrange(0, old(self).seen().len() as int) =~= old(self).seen());
            assert(self.read_so_far().subrange(0, old(self).read_so_far().len() as int)
                =~= old(self).read_so_far());
        }
        loop
            invariant
                self.records() == old(self).records(),
                self.reported() == old(self).reported(),
                self.same_but_transfer_and_deadline(old(self)),
                old(self).clock().time() <= start <= self.clock().time() <= ceiling,
                PINS > 0,
                ceiling == after(start, BUSY_CEILING),
                since == later(old(self).records().deadline(), old(self).clock().time()),
                old(self).read_so_far().is_prefix_of(self.read_so_far()),
                forall|i: int|
                    old(self).read_so_far().len() <= i < self.read_so_far().len()
                        ==> crate::command::spec_status(#[trigger] self.read_so_far()[i]).0,
                status_reads(
                    old(self).seen(),
                    self.seen(),
                    old(self).records().line(),
                    since,
                    self.clock().time(),
                ),
                self.seen().len() - old(self).seen().len() == (self.read_so_far().len() - old(
                    self,
                ).read_so_far().len()) * turns(BITS as nat).len(),
            decreases ceiling - self.clock().time(),
        {
            let ghost before = *self;
            let r = self.poll();
            proof {
                if r is Err {
                    let signals = to_register(false, true, turns(BITS as nat));
                    let count = choose|count: int|
                        0 <= count <= signals.len() && carried(
                            before.seen(),
                            self.seen(),
                            old(self).records().line(),
                            #[trigger] signals.take(count),
                            later(before.records().deadline(), before.clock().time()),
                            self.clock().time(),
                        );
                    assert(old(self).seen().is_prefix_of(self.seen()));
                    assert forall|i: int| old(self).seen().len() <= i < self.seen().len() implies {
                        let cycle = #[trigger] self.seen()[i];
                        &&& cycle.line == old(self).records().line()
                        &&& cycle.signal == Signal { rs: false, rw: true, data: Data::Released }
                        &&& since <= cycle.at <= self.clock().time()
                    } by {
                        if i < before.seen().len() {
                            assert(self.seen()[i] == before.seen()[i]);
                        } else {
                            assert(self.seen()[i] == self.seen()[before.seen().len() + (i
                                - before.seen().len())]);
                            assert(signals.take(count)[i - before.seen().len()] == signals[i
                                - before.seen().len()]);
                        }
                    }
                }
            }
            let raw = r?;
            proof {
                assert(old(self).read_so_far().is_prefix_of(self.read_so_far())) by {
                    assert(self.read_so_far().subrange(0, old(self).read_so_far().len() as int)
                        =~= old(self).read_so_far());
                }
                assert forall|i: int| old(self).seen().len() <= i < self.seen().len() implies {
                    let cycle = #[trigger] self.seen()[i];
                    &&& cycle.line == old(self).records().line()
                    &&& cycle.signal == Signal { rs: false, rw: true, data: Data::Released }
                    &&& since <= cycle.at <= self.clock().time()
                } by {
                    if i < before.seen().len() {
                        assert(self.seen()[i] == before.seen()[i]);
                    } else {
                        assert(self.seen()[i] == self.seen()[before.seen().len() + (i
                            - before.seen().len())]);
                    }
                }
                let polls = before.read_so_far().len() - old(self).read_so_far().len();
                let pulses = turns(BITS as nat).len() as int;
                assert((polls + 1) * pulses == polls * pulses + pulses) by (nonlinear_arith);
            }
            let (busy, _) = status(raw);
            if !busy {
                return Ok(true);
            }
            sleep(&mut self.clock, ENABLE_CYCLE);
            let now = self.clock.now();
            if now >= ceiling {
                return Ok(false);
            }
        }
    }
}

impl<O, Io, C, const PINS: usize, const BITS: usize> ExecuteRead for Interface<
    O,
    Io,
    C,
    PINS,
    BITS,
> where O: OutPin, Io: IoPin<Error = O::Error>, C: Clock {
    type Error = O::Error;

    open spec fn answers(&self) -> Seq<u8> {
        self.read_so_far()
    }

    open spec fn faults(&self) -> Seq<Self::Error> {
        self.reported()
    }

    open spec fn spared(&self, before: &Self) -> bool {
        self.probed(before)
    }

    open spec fn answered(&self, before: &Self, status: bool) -> bool {
        self.fetched(before, status)
    }

    /// Reads a word from the RAM of the display in use: waits for the display's deadline,
    /// addresses the RAM for reading (RS high, RW high), takes two bytes, and books the new
    /// deadline.
    fn read(&mut self) -> (r: Result<u16, Self::Error>)
        ensures
            r matches Ok(read) ==> read_through(
                old(self).data_pins(),
                final(self).data_pins(),
                BITS as nat,
                seq![high(read), low(read)],
            ),
            r is Err ==> final(self).records() == old(self).records(),
            r is Err ==> at_most(
                old(self).seen(),
                final(self).seen(),
                old(self).records().line(),
                to_register(true, true, turns(BITS as nat) + turns(BITS as nat)),
                later(old(self).records().deadline(), old(self).clock().time()),
                final(self).clock().time(),
            ),
    {
        let ghost line = self.records().line();
        let ghost since = later(self.records().deadline(), self.clock().time());
        self.lines.wait(&mut self.clock);
        let chosen = self.select(true, true);
        proof {
            if chosen is Err {
                lemma_at_most_none(
                    self.seen(),
                    line,
                    to_register(true, true, turns(BITS as nat) + turns(BITS as nat)),
                    since,
                    self.clock().time(),
                );
            }
        }
        chosen?;
        let ghost selected = *self;
        let taken = self.take_u16();
        proof {
            if taken is Err {
                lemma_at_most_within(
                    selected.seen(),
                    self.seen(),
                    line,
                    to_register(true, true, turns(BITS as nat) + turns(BITS as nat)),
                    selected.clock().time(),
                    self.clock().time(),
                    since,
                    self.clock().time(),
                );
            }
        }
        let read = taken?;
        let now = self.clock.now();
        self.lines.book(now, DEFAULT_TIME as u64);
        proof {
            assert(self.read_so_far().skip(old(self).read_so_far().len() as int) =~= seq![
                high(read),
                low(read),
            ]);
        }
        Ok(read)
    }

    /// Reads the busy flag and the address counter of the display in use: waits for the
    /// display's deadline, addresses the status register (RS low, RW high), and takes one
    /// byte. The deadline stays as it is.
    fn read_bf_ac(&mut self) -> (r: Result<(bool, u8), Self::Error>)
        ensures
            final(self).records() == old(self).records(),
            r is Err ==> at_most(
                old(self).seen(),
                final(self).seen(),
                old(self).records().line(),
                to_register(false, true, turns(BITS as nat)),
                later(old(self).records().deadline(), old(self).clock().time()),
                final(self).clock().time(),
            ),
            r is Ok ==> read_through(
                old(self).data_pins(),
                final(self).data_pins(),
                BITS as nat,
                seq![final(self).read_so_far().last()],
            ),
    {
        let read = self.poll()?;
        proof {
            assert(self.read_so_far().drop_last() =~= old(self).read_so_far());
            assert(self.read_so_far().skip(old(self).read_so_far().len() as int) =~= seq![
                self.read_so_far().last(),
            ]);
            assert(old(self).read_so_far().is_prefix_of(self.read_so_far()));
        }
        Ok(status(read))
    }
}

impl<O: OutPin, Io: Pin, C: Clock, const PINS: usize, const BITS: usize> SharedBus for Interface<
    O,
    Io,
    C,
    PINS,
    BITS,
> {
    open spec fn displays(&self) -> nat {
        PINS as nat
    }

    open spec fn in_use(&self) -> nat {
        self.records().line() as nat
    }

    fn num(&self) -> (n: usize) {
        PINS
    }

    /// The bus with display `idx` in use, where there is such a display. The pins, the
    /// clock and what is kept of each display stay as they are.
    fn get(&mut self, idx: usize) -> (r: Option<&mut Self>)
        ensures
            r matches Some(display) ==> display.records().deadlines() == old(
                self,
            ).records().deadlines() && display.records().modes() == old(self).records().modes()
                && display.records().histories() == old(self).records().histories()
                && display.same_bus(old(self)),
    {
        if self.lines.choose_line(idx) {
            Some(self)
        } else {
            None
        }
    }
}

} // verus!
