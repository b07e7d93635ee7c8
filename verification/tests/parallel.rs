use std::cell::RefCell;
use std::collections::VecDeque;
use std::rc::Rc;

use st7920::ext::Execute as ExecuteExt;
use st7920::hal::{Clock, ErrorType, InPin, OutPin};
use st7920::model::{TracedClock, TracedPin};
use st7920::parallel::{Control, Input, Interface, Output};
use st7920::{Command, Execute, ExecuteRead, Init, SharedBus};

#[derive(Clone, Copy, Debug, PartialEq, Eq)]
enum Wire {
    Rs,
    Rw,
    Enable(usize),
    Data(usize),
}

#[derive(Clone, Copy, Debug, PartialEq, Eq)]
enum Event {
    Level(Wire, bool),
    Output(Wire),
    Input(Wire),
    Read(Wire, bool),
    WaitUntil(u64),
}

#[derive(Clone, Copy, Debug, PartialEq, Eq)]
struct Fault(usize);

/// A board with a chip on it: the log of what was done to its wires, its clock, what the chip
/// puts on the data wires when it is read, and the pin operation that fails, if one does.
struct Board {
    log: Vec<Event>,
    time: u64,
    answers: VecDeque<u8>,
    answer: u8,
    rw: bool,
    operations: usize,
    fails_at: Option<usize>,
}

type Shared = Rc<RefCell<Board>>;

impl Board {
    fn operation(&mut self) -> Result<(), Fault> {
        let n = self.operations;
        self.operations += 1;
        if self.fails_at == Some(n) {
            Err(Fault(n))
        } else {
            Ok(())
        }
    }
}

struct TestPin {
    wire: Wire,
    board: Shared,
}

impl ErrorType for TestPin {
    type Error = Fault;
}

impl TestPin {
    fn level(&mut self, level: bool) -> Result<(), Fault> {
        let mut board = self.board.borrow_mut();
        board.operation()?;
        board.log.push(Event::Level(self.wire, level));
        if self.wire == Wire::Rw {
            board.rw = level;
        }
        if let (Wire::Enable(_), true, true) = (self.wire, level, board.rw) {
            board.answer = board.answers.pop_front().unwrap_or(0);
        }
        Ok(())
    }
}

impl OutPin for TestPin {
    fn set_low(&mut self) -> Result<(), Fault> {
        self.level(false)
    }

    fn set_high(&mut self) -> Result<(), Fault> {
        self.level(true)
    }

    fn set_as_output(&mut self) -> Result<(), Fault> {
        let mut board = self.board.borrow_mut();
        board.operation()?;
        board.log.push(Event::Output(self.wire));
        Ok(())
    }
}

impl InPin for TestPin {
    fn is_high(&mut self) -> Result<bool, Fault> {
        let mut board = self.board.borrow_mut();
        board.operation()?;
        let level = match self.wire {
            Wire::Data(i) => board.answer & (1 << i) != 0,
            _ => false,
        };
        board.log.push(Event::Read(self.wire, level));
        Ok(level)
    }

    fn set_as_input(&mut self) -> Result<(), Fault> {
        let mut board = self.board.borrow_mut();
        board.operation()?;
        board.log.push(Event::Input(self.wire));
        Ok(())
    }
}

struct TestClock {
    board: Shared,
}

impl Clock for TestClock {
    fn now(&mut self) -> u64 {
        self.board.borrow().time
    }

    fn wait_until(&mut self, end: u64) {
        let mut board = self.board.borrow_mut();
        board.log.push(Event::WaitUntil(end));
        if board.time < end {
            board.time = end;
        }
    }
}

type Pin = TracedPin<TestPin>;
type Bus<const PINS: usize, const BITS: usize> =
    Interface<Pin, Pin, TracedClock<TestClock>, PINS, BITS>;

fn board() -> Shared {
    Rc::new(RefCell::new(Board {
        log: Vec::new(),
        time: 0,
        answers: VecDeque::new(),
        answer: 0,
        rw: false,
        operations: 0,
        fails_at: None,
    }))
}

fn pin(wire: Wire, board: &Shared) -> Pin {
    TracedPin::new(TestPin { wire, board: board.clone() })
}

fn clock(board: &Shared) -> TracedClock<TestClock> {
    TracedClock::new(TestClock { board: board.clone() })
}

fn bus_4bit(board: &Shared) -> Bus<1, 4> {
    Interface::new(
        pin(Wire::Rs, board),
        pin(Wire::Rw, board),
        [pin(Wire::Enable(0), board)],
        [
            pin(Wire::Data(0), board),
            pin(Wire::Data(1), board),
            pin(Wire::Data(2), board),
            pin(Wire::Data(3), board),
        ],
        clock(board),
    )
}

fn bus_8bit(board: &Shared) -> Bus<1, 8> {
    Interface::new(
        pin(Wire::Rs, board),
        pin(Wire::Rw, board),
        [pin(Wire::Enable(0), board)],
        [
            pin(Wire::Data(0), board),
            pin(Wire::Data(1), board),
            pin(Wire::Data(2), board),
            pin(Wire::Data(3), board),
            pin(Wire::Data(4), board),
            pin(Wire::Data(5), board),
            pin(Wire::Data(6), board),
            pin(Wire::Data(7), board),
        ],
        clock(board),
    )
}

fn shared_4bit(board: &Shared) -> Bus<2, 4> {
    Interface::new(
        pin(Wire::Rs, board),
        pin(Wire::Rw, board),
        [pin(Wire::Enable(0), board), pin(Wire::Enable(1), board)],
        [
            pin(Wire::Data(0), board),
            pin(Wire::Data(1), board),
            pin(Wire::Data(2), board),
            pin(Wire::Data(3), board),
        ],
        clock(board),
    )
}

/// What the chip on enable wire `line` has latched: for each falling edge of that wire, the
/// levels of RS and RW and, for a write, the value on the data wires.
fn latched_on(board: &Shared, line: usize) -> Vec<(bool, bool, u8)> {
    let mut rs = false;
    let mut rw = false;
    let mut data = 0u8;
    let mut out = Vec::new();
    for event in board.borrow().log.iter() {
        match *event {
            Event::Level(Wire::Rs, level) => rs = level,
            Event::Level(Wire::Rw, level) => rw = level,
            Event::Level(Wire::Data(i), level) => {
                if level {
                    data |= 1 << i;
                } else {
                    data &= !(1 << i);
                }
            }
            Event::Level(Wire::Enable(e), false) if e == line => out.push((rs, rw, data)),
            _ => {}
        }
    }
    out
}

fn latched(board: &Shared) -> Vec<(bool, bool, u8)> {
    latched_on(board, 0)
}

fn waits(board: &Shared) -> Vec<u64> {
    let mut out = Vec::new();
    for event in board.borrow().log.iter() {
        if let Event::WaitUntil(end) = *event {
            out.push(end);
        }
    }
    out
}

fn instruction(byte: u8) -> Vec<(bool, bool, u8)> {
    vec![(false, false, byte >> 4), (false, false, byte & 0xF)]
}

#[test]
fn ddram_addr_then_write_on_4bit_bus() {
    let board = board();
    let mut lcd = bus_4bit(&board);
    lcd.ddram_addr(0x10).unwrap();
    lcd.write(0x4141).unwrap();
    assert_eq!(
        latched(&board),
        vec![
            (false, false, 0x9),
            (false, false, 0x0),
            (true, false, 0x4),
            (true, false, 0x1),
            (true, false, 0x4),
            (true, false, 0x1),
        ]
    );
}

#[test]
fn ddram_addr_on_4bit_bus_selects_then_pulses_each_nibble() {
    let board = board();
    let mut lcd = bus_4bit(&board);
    lcd.ddram_addr(0x10).unwrap();
    let d = Wire::Data;
    let e = Wire::Enable(0);
    assert_eq!(
        board.borrow().log,
        vec![
            Event::Level(Wire::Rs, false),
            Event::Level(Wire::Rw, false),
            Event::Output(d(0)),
            Event::Output(d(1)),
            Event::Output(d(2)),
            Event::Output(d(3)),
            Event::Level(d(0), true),
            Event::Level(d(1), false),
            Event::Level(d(2), false),
            Event::Level(d(3), true),
            Event::Level(e, true),
            Event::Level(e, false),
            Event::WaitUntil(10),
            Event::Output(d(0)),
            Event::Output(d(1)),
            Event::Output(d(2)),
            Event::Output(d(3)),
            Event::Level(d(0), false),
            Event::Level(d(1), false),
            Event::Level(d(2), false),
            Event::Level(d(3), false),
            Event::Level(e, true),
            Event::Level(e, false),
        ]
    );
}

#[test]
fn ddram_addr_then_write_on_8bit_bus() {
    let board = board();
    let mut lcd = bus_8bit(&board);
    lcd.ddram_addr(0x10).unwrap();
    lcd.write(0x4142).unwrap();
    assert_eq!(
        latched(&board),
        vec![(false, false, 0x90), (true, false, 0x41), (true, false, 0x42)]
    );
}

#[test]
fn scroll_offset_in_basic_mode_selects_extended_first() {
    let board = board();
    let mut lcd = bus_4bit(&board);
    lcd.execute(Command::ScrollOffset(5)).unwrap();
    let mut expected = instruction(0x24);
    expected.extend(instruction(0x45));
    assert_eq!(latched(&board), expected);
}

#[test]
fn extended_instruction_in_extended_mode_goes_out_alone() {
    let board = board();
    let mut lcd = bus_8bit(&board);
    lcd.select_extended().unwrap();
    lcd.enable_scroll().unwrap();
    lcd.scroll_offset(0x3F).unwrap();
    assert_eq!(
        latched(&board),
        vec![(false, false, 0x24), (false, false, 0x03), (false, false, 0x5F)]
    );
}

#[test]
fn basic_instruction_in_graphic_mode_goes_through_extended() {
    let board = board();
    let mut lcd = bus_8bit(&board);
    lcd.select_graphic().unwrap();
    lcd.clear().unwrap();
    assert_eq!(
        latched(&board),
        vec![
            (false, false, 0x24),
            (false, false, 0x26),
            (false, false, 0x24),
            (false, false, 0x20),
            (false, false, 0x01),
        ]
    );
}

#[test]
fn graphic_ram_addr_takes_two_bytes_after_select_extended() {
    let board = board();
    let mut lcd = bus_8bit(&board);
    lcd.graphic_ram_addr(0x05, 0x1F).unwrap();
    lcd.graphic_ram_addr(0x01, 0x02).unwrap();
    assert_eq!(
        latched(&board),
        vec![
            (false, false, 0x24),
            (false, false, 0x8F),
            (false, false, 0x85),
            (false, false, 0x82),
            (false, false, 0x81),
        ]
    );
}

#[test]
fn extended_instruction_in_graphic_mode_goes_out_alone() {
    let board = board();
    let mut lcd = bus_8bit(&board);
    lcd.select_graphic().unwrap();
    lcd.scroll_offset(3).unwrap();
    lcd.graphic_ram_addr(0, 0).unwrap();
    lcd.select_graphic().unwrap();
    assert_eq!(
        latched(&board),
        vec![
            (false, false, 0x24),
            (false, false, 0x26),
            (false, false, 0x43),
            (false, false, 0x80),
            (false, false, 0x80),
            (false, false, 0x26),
        ]
    );
}

#[test]
fn write_needs_no_instruction_set() {
    let board = board();
    let mut lcd = bus_8bit(&board);
    lcd.select_graphic().unwrap();
    board.borrow_mut().log.clear();
    lcd.write(0x1234).unwrap();
    assert_eq!(latched(&board), vec![(true, false, 0x12), (true, false, 0x34)]);
}

#[test]
fn status_read_on_4bit_bus_returns_flag_and_counter() {
    let board = board();
    board.borrow_mut().answers.extend([0x9, 0x0]);
    let mut lcd = bus_4bit(&board);
    assert_eq!(lcd.read_bf_ac(), Ok((true, 0x10)));
    let d = Wire::Data;
    let e = Wire::Enable(0);
    assert_eq!(
        board.borrow().log,
        vec![
            Event::Level(Wire::Rs, false),
            Event::Level(Wire::Rw, true),
            Event::Input(d(0)),
            Event::Input(d(1)),
            Event::Input(d(2)),
            Event::Input(d(3)),
            Event::Level(e, true),
            Event::Read(d(0), true),
            Event::Read(d(1), false),
            Event::Read(d(2), false),
            Event::Read(d(3), true),
            Event::Level(e, false),
            Event::WaitUntil(10),
            Event::Input(d(0)),
            Event::Input(d(1)),
            Event::Input(d(2)),
            Event::Input(d(3)),
            Event::Level(e, true),
            Event::Read(d(0), false),
            Event::Read(d(1), false),
            Event::Read(d(2), false),
            Event::Read(d(3), false),
            Event::Level(e, false),
        ]
    );
}

#[test]
fn status_read_on_8bit_bus_returns_flag_and_counter() {
    let board = board();
    board.borrow_mut().answers.extend([0x90]);
    let mut lcd = bus_8bit(&board);
    assert_eq!(lcd.read_bf_ac(), Ok((true, 0x10)));
    assert_eq!(latched(&board).len(), 1);
    assert_eq!(latched(&board)[0].0, false);
    assert_eq!(latched(&board)[0].1, true);
}

#[test]
fn address_counter_and_busy_flag_are_the_parts_of_the_status() {
    let board = board();
    board.borrow_mut().answers.extend([0x7F, 0x80]);
    let mut lcd = bus_8bit(&board);
    assert_eq!(lcd.read_address_counter(), Ok(0x7F));
    assert_eq!(lcd.read_busy_flag(), Ok(true));
}

#[test]
fn ram_read_on_4bit_bus_takes_four_pulses() {
    let board = board();
    board.borrow_mut().answers.extend([0x4, 0x1, 0x4, 0x2]);
    let mut lcd = bus_4bit(&board);
    assert_eq!(lcd.read(), Ok(0x4142));
    assert_eq!(
        latched(&board).iter().map(|c| (c.0, c.1)).collect::<Vec<_>>(),
        vec![(true, true); 4]
    );
}

#[test]
fn ram_read_on_8bit_bus_takes_two_pulses_with_a_rest() {
    let board = board();
    board.borrow_mut().answers.extend([0xAB, 0xCD]);
    let mut lcd = bus_8bit(&board);
    assert_eq!(lcd.read(), Ok(0xABCD));
    assert_eq!(latched(&board).len(), 2);
    assert_eq!(waits(&board), vec![10]);
}

#[test]
fn write_after_read_makes_the_data_pins_outputs_again() {
    let board = board();
    board.borrow_mut().answers.extend([0x00]);
    let mut lcd = bus_8bit(&board);
    lcd.read_bf_ac().unwrap();
    board.borrow_mut().log.clear();
    lcd.write(0x0102).unwrap();
    let log = board.borrow().log.clone();
    let first_level = log.iter().position(|e| matches!(e, Event::Level(Wire::Data(_), _)));
    let outputs = log.iter().filter(|e| matches!(e, Event::Output(_))).count();
    assert_eq!(outputs, 16);
    assert!(matches!(log[first_level.unwrap() - 1], Event::Output(Wire::Data(7))));
}

#[test]
fn next_instruction_waits_for_what_is_left_of_the_execution_time() {
    let board = board();
    let mut lcd = bus_8bit(&board);
    lcd.clear().unwrap();
    assert_eq!(waits(&board), Vec::<u64>::new());
    board.borrow_mut().time = 600;
    lcd.home().unwrap();
    assert_eq!(waits(&board), vec![1_600]);
    lcd.home().unwrap();
    assert_eq!(waits(&board), vec![1_600, 1_672]);
}

#[test]
fn instruction_after_the_deadline_does_not_wait() {
    let board = board();
    let mut lcd = bus_8bit(&board);
    lcd.home().unwrap();
    board.borrow_mut().time = 72;
    lcd.home().unwrap();
    board.borrow_mut().time = 1_000;
    lcd.home().unwrap();
    assert_eq!(waits(&board), Vec::<u64>::new());
}

#[test]
fn deadline_is_booked_from_the_end_of_the_transfer() {
    let board = board();
    let mut lcd = bus_4bit(&board);
    lcd.home().unwrap();
    assert_eq!(waits(&board), vec![10]);
    lcd.home().unwrap();
    assert_eq!(waits(&board), vec![10, 82, 92]);
}

#[test]
fn read_waits_for_the_deadline_and_books_a_new_one() {
    let board = board();
    board.borrow_mut().answers.extend([0x00, 0x00, 0x00]);
    let mut lcd = bus_8bit(&board);
    lcd.clear().unwrap();
    assert_eq!(lcd.read(), Ok(0));
    assert_eq!(waits(&board), vec![1_600, 1_610]);
    lcd.home().unwrap();
    assert_eq!(waits(&board), vec![1_600, 1_610, 1_682]);
}

#[test]
fn status_read_waits_for_the_deadline_and_leaves_it() {
    let board = board();
    board.borrow_mut().answers.extend([0x00]);
    let mut lcd = bus_8bit(&board);
    lcd.clear().unwrap();
    lcd.read_bf_ac().unwrap();
    assert_eq!(waits(&board), vec![1_600]);
    board.borrow_mut().time = 5_000;
    lcd.home().unwrap();
    assert_eq!(waits(&board), vec![1_600]);
}

#[test]
fn displays_on_a_shared_bus_have_their_own_enable_pin() {
    let board = board();
    let mut lcd = shared_4bit(&board);
    assert_eq!(lcd.num(), 2);
    lcd.get(0).unwrap().ddram_addr(0x01).unwrap();
    lcd.get(1).unwrap().ddram_addr(0x02).unwrap();
    assert_eq!(latched_on(&board, 0), instruction(0x81));
    assert_eq!(latched_on(&board, 1), instruction(0x82));
}

#[test]
fn shared_bus_has_no_display_past_its_last() {
    let board = board();
    let mut lcd = shared_4bit(&board);
    assert!(lcd.get(2).is_none());
    assert!(lcd.get(usize::MAX).is_none());
    lcd.home().unwrap();
    assert_eq!(latched_on(&board, 0), instruction(0x02));
    assert_eq!(latched_on(&board, 1), vec![]);
}

#[test]
fn displays_on_a_shared_bus_have_their_own_deadline() {
    let board = board();
    let mut lcd = shared_4bit(&board);
    lcd.get(0).unwrap().clear().unwrap();
    board.borrow_mut().log.clear();
    lcd.get(1).unwrap().home().unwrap();
    assert_eq!(waits(&board), vec![20]);
    board.borrow_mut().log.clear();
    lcd.get(0).unwrap().home().unwrap();
    assert_eq!(waits(&board), vec![1_610, 1_620]);
}

#[test]
fn displays_on_a_shared_bus_have_their_own_instruction_set() {
    let board = board();
    let mut lcd = shared_4bit(&board);
    lcd.get(0).unwrap().select_extended().unwrap();
    lcd.get(1).unwrap().clear().unwrap();
    lcd.get(0).unwrap().clear().unwrap();
    let mut first = instruction(0x24);
    first.extend(instruction(0x20));
    first.extend(instruction(0x01));
    assert_eq!(latched_on(&board, 0), first);
    assert_eq!(latched_on(&board, 1), instruction(0x01));
}

#[test]
fn pin_error_is_handed_on_and_ends_the_transfer() {
    for n in 0..14 {
        let board = board();
        let mut lcd = bus_8bit(&board);
        board.borrow_mut().fails_at = Some(n);
        assert_eq!(lcd.home(), Err(Fault(n)));
        assert_eq!(board.borrow().operations, n + 1);
        assert_eq!(board.borrow().log.len(), n);
    }
    let board = board();
    let mut lcd = bus_8bit(&board);
    board.borrow_mut().fails_at = Some(20);
    assert_eq!(lcd.home(), Ok(()));
    assert_eq!(board.borrow().operations, 20);
}

#[test]
fn failed_instruction_books_no_deadline() {
    let board = board();
    let mut lcd = bus_8bit(&board);
    board.borrow_mut().fails_at = Some(5);
    assert!(lcd.clear().is_err());
    board.borrow_mut().fails_at = None;
    lcd.home().unwrap();
    assert_eq!(waits(&board), Vec::<u64>::new());
}

#[test]
fn failed_route_leaves_the_display_in_the_set_it_reached() {
    let board = board();
    let mut lcd = bus_8bit(&board);
    board.borrow_mut().fails_at = Some(20 + 3);
    assert!(lcd.scroll_offset(1).is_err());
    board.borrow_mut().fails_at = None;
    board.borrow_mut().log.clear();
    lcd.scroll_offset(1).unwrap();
    assert_eq!(latched(&board), vec![(false, false, 0x41)]);
}

#[test]
fn power_on_sequence_on_8bit_bus() {
    let board = board();
    let mut lcd = bus_8bit(&board);
    lcd.init().unwrap();
    assert_eq!(
        latched(&board),
        vec![
            (false, false, 0x20),
            (false, false, 0x20),
            (false, false, 0x0C),
            (false, false, 0x01),
            (false, false, 0x06),
        ]
    );
    assert_eq!(waits(&board), vec![80_000, 80_200, 80_400, 80_600, 100_600]);
}

#[test]
fn power_on_sequence_starts_with_the_wait_for_the_chip() {
    let board = board();
    let mut lcd = bus_8bit(&board);
    lcd.init().unwrap();
    assert_eq!(board.borrow().log[0], Event::WaitUntil(80_000));
    assert_eq!(board.borrow().log[1], Event::Level(Wire::Rs, false));
}

#[test]
fn power_on_sequence_from_graphic_mode_goes_through_extended() {
    let board = board();
    let mut lcd = bus_8bit(&board);
    lcd.select_graphic().unwrap();
    board.borrow_mut().log.clear();
    lcd.init().unwrap();
    assert_eq!(
        latched(&board),
        vec![
            (false, false, 0x24),
            (false, false, 0x20),
            (false, false, 0x20),
            (false, false, 0x0C),
            (false, false, 0x01),
            (false, false, 0x06),
        ]
    );
}

#[test]
fn power_on_sequence_stops_at_the_first_error() {
    let board = board();
    let mut lcd = bus_8bit(&board);
    board.borrow_mut().fails_at = Some(25);
    assert_eq!(lcd.init(), Err(Fault(25)));
    assert_eq!(latched(&board), vec![(false, false, 0x20)]);
}

#[test]
fn write_u4_puts_the_low_half_on_the_wires() {
    let board = board();
    let mut lcd = bus_4bit(&board);
    lcd.select(true, false).unwrap();
    lcd.write_u4(0xA5).unwrap();
    assert_eq!(latched(&board), vec![(true, false, 0x5)]);
}

#[test]
fn read_u4_takes_one_pulse() {
    let board = board();
    board.borrow_mut().answers.extend([0xB]);
    let mut lcd = bus_4bit(&board);
    lcd.select(false, true).unwrap();
    assert_eq!(lcd.read_u4(), Ok(0xB));
    assert_eq!(latched(&board).len(), 1);
}

#[test]
fn output_writes_bytes_and_words() {
    let board = board();
    let mut lcd = bus_8bit(&board);
    lcd.select_ram_write().unwrap();
    lcd.write_u8(0x7E).unwrap();
    lcd.write_u16(0x1234).unwrap();
    lcd.write_all_u16(&[0xA1B2, 0xC3D4]).unwrap();
    lcd.write_all_u16(&[]).unwrap();
    assert_eq!(
        latched(&board).iter().map(|c| c.2).collect::<Vec<_>>(),
        vec![0x7E, 0x12, 0x34, 0xA1, 0xB2, 0xC3, 0xD4]
    );
}

#[test]
fn input_reads_bytes_and_words() {
    let board = board();
    board.borrow_mut().answers.extend([0x7E, 0x12, 0x34]);
    let mut lcd = bus_8bit(&board);
    lcd.select_ram_read().unwrap();
    assert_eq!(lcd.read_u8(), Ok(0x7E));
    assert_eq!(lcd.read_u16(), Ok(0x1234));
}

#[test]
fn select_sets_rs_and_rw_for_each_register() {
    let board = board();
    let mut lcd = bus_8bit(&board);
    lcd.select_command().unwrap();
    lcd.select_bf_ac().unwrap();
    lcd.select_ram_write().unwrap();
    lcd.select_ram_read().unwrap();
    let rs = Wire::Rs;
    let rw = Wire::Rw;
    assert_eq!(
        board.borrow().log,
        vec![
            Event::Level(rs, false),
            Event::Level(rw, false),
            Event::Level(rs, false),
            Event::Level(rw, true),
            Event::Level(rs, true),
            Event::Level(rw, false),
            Event::Level(rs, true),
            Event::Level(rw, true),
        ]
    );
}

#[test]
fn latch_pulses_the_enable_pin() {
    let board = board();
    let mut lcd = bus_8bit(&board);
    lcd.latch().unwrap();
    lcd.enable().unwrap();
    lcd.disable().unwrap();
    let e = Wire::Enable(0);
    assert_eq!(
        board.borrow().log,
        vec![
            Event::Level(e, true),
            Event::Level(e, false),
            Event::Level(e, true),
            Event::Level(e, false),
        ]
    );
}

#[test]
fn latched_runs_between_the_edges() {
    let board = board();
    let mut lcd = bus_8bit(&board);
    let out = lcd.latched(|bus| bus.select(true, true).is_ok());
    assert_eq!(out, Ok(true));
    let e = Wire::Enable(0);
    assert_eq!(
        board.borrow().log,
        vec![
            Event::Level(e, true),
            Event::Level(Wire::Rs, true),
            Event::Level(Wire::Rw, true),
            Event::Level(e, false),
        ]
    );
}

#[test]
fn try_latched_hands_on_the_error_of_what_it_runs() {
    let board = board();
    let mut lcd = bus_8bit(&board);
    let out: Result<u8, Fault> = lcd.try_latched(|_| Err(Fault(99)));
    assert_eq!(out, Err(Fault(99)));
    let out: Result<u8, Fault> = lcd.try_latched(|_| Ok(7));
    assert_eq!(out, Ok(7));
    assert_eq!(board.borrow().log.len(), 4);
}

#[test]
fn direction_of_every_data_pin_is_switched() {
    let board = board();
    let mut lcd = bus_4bit(&board);
    lcd.set_as_input().unwrap();
    lcd.set_as_output().unwrap();
    let d = Wire::Data;
    assert_eq!(
        board.borrow().log,
        vec![
            Event::Input(d(0)),
            Event::Input(d(1)),
            Event::Input(d(2)),
            Event::Input(d(3)),
            Event::Output(d(0)),
            Event::Output(d(1)),
            Event::Output(d(2)),
            Event::Output(d(3)),
        ]
    );
}

#[test]
fn wait_while_busy_returns_at_once_when_the_chip_is_ready() {
    let board = board();
    board.borrow_mut().answers.extend([0x10]);
    let mut lcd = bus_8bit(&board);
    assert_eq!(lcd.wait_while_busy(), Ok(true));
    assert_eq!(latched(&board).len(), 1);
    assert_eq!(waits(&board), Vec::<u64>::new());
}

#[test]
fn wait_while_busy_reads_until_the_chip_is_ready() {
    let board = board();
    board.borrow_mut().answers.extend([0x80, 0x90, 0xFF, 0x7F]);
    let mut lcd = bus_8bit(&board);
    assert_eq!(lcd.wait_while_busy(), Ok(true));
    assert_eq!(
        latched(&board).iter().map(|c| (c.0, c.1)).collect::<Vec<_>>(),
        vec![(false, true); 4]
    );
    assert_eq!(waits(&board), vec![10, 20, 30]);
}

#[test]
fn wait_while_busy_gives_up_after_a_millisecond() {
    let board = board();
    board.borrow_mut().answers.extend([0x80; 200]);
    let mut lcd = bus_8bit(&board);
    assert_eq!(lcd.wait_while_busy(), Ok(false));
    assert_eq!(latched(&board).len(), 100);
    assert_eq!(board.borrow().time, 1_000);
}

#[test]
fn wait_while_busy_on_4bit_bus_takes_two_pulses_for_each_reading() {
    let board = board();
    board.borrow_mut().answers.extend([0x8, 0x0].repeat(100));
    let mut lcd = bus_4bit(&board);
    assert_eq!(lcd.wait_while_busy(), Ok(false));
    assert_eq!(latched(&board).len(), 100);
    assert_eq!(board.borrow().time, 1_000);
}

#[test]
fn wait_while_busy_counts_the_millisecond_from_the_call() {
    let board = board();
    board.borrow_mut().answers.extend([0x80, 0x80]);
    let mut lcd = bus_8bit(&board);
    lcd.clear().unwrap();
    board.borrow_mut().log.clear();
    assert_eq!(lcd.wait_while_busy(), Ok(false));
    assert_eq!(latched(&board).len(), 1);
    assert_eq!(waits(&board), vec![1_600, 1_610]);
}

#[test]
fn wait_while_busy_hands_on_the_error_of_a_pin() {
    let board = board();
    board.borrow_mut().answers.extend([0x80, 0x80]);
    let mut lcd = bus_8bit(&board);
    board.borrow_mut().fails_at = Some(30);
    assert_eq!(lcd.wait_while_busy(), Err(Fault(30)));
}

#[test]
fn failed_read_still_lowers_the_enable_pin() {
    let board = board();
    board.borrow_mut().answers.extend([0xFF]);
    let mut lcd = bus_8bit(&board);
    board.borrow_mut().fails_at = Some(13);
    assert_eq!(lcd.read_bf_ac(), Err(Fault(13)));
    let log = board.borrow().log.clone();
    assert_eq!(log[log.len() - 1], Event::Level(Wire::Enable(0), false));
    assert_eq!(log[log.len() - 2], Event::Read(Wire::Data(1), true));
    assert_eq!(board.borrow().operations, 15);
}

#[test]
fn failed_write_does_not_raise_the_enable_pin() {
    let board = board();
    let mut lcd = bus_8bit(&board);
    board.borrow_mut().fails_at = Some(12);
    assert_eq!(lcd.home(), Err(Fault(12)));
    let raised = board
        .borrow()
        .log
        .iter()
        .filter(|e| matches!(e, Event::Level(Wire::Enable(_), _)))
        .count();
    assert_eq!(raised, 0);
}

#[test]
fn parallel_bus_of_no_display_has_none_to_get() {
    let board = board();
    let mut lcd: Bus<0, 4> = Interface::new(
        pin(Wire::Rs, &board),
        pin(Wire::Rw, &board),
        [],
        [
            pin(Wire::Data(0), &board),
            pin(Wire::Data(1), &board),
            pin(Wire::Data(2), &board),
            pin(Wire::Data(3), &board),
        ],
        clock(&board),
    );
    assert_eq!(lcd.num(), 0);
    assert!(lcd.get(0).is_none());
    assert!(board.borrow().log.is_empty());
}
