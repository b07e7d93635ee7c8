use std::cell::RefCell;
use std::rc::Rc;

use st7920::ext::Execute as ExecuteExt;
use st7920::hal::{Clock, ErrorType, Link, OutPin};
use st7920::model::{Link as TracedWrite, TracedClock, TracedLink, TracedPin};
use st7920::serial::{encode_u16, encode_u8, sync, Error, Interface};
use st7920::{Command, Execute, Init, SharedBus};

#[derive(Clone, Debug, PartialEq, Eq)]
enum Event {
    Select(usize, bool),
    Sent(Vec<u8>),
    WaitUntil(u64),
}

#[derive(Clone, Copy, Debug, PartialEq, Eq)]
struct PinFault;

#[derive(Clone, Copy, Debug, PartialEq, Eq)]
struct LinkFault;

struct Board {
    log: Vec<Event>,
    time: u64,
    operations: usize,
    pin_fails_at: Option<usize>,
    link_fails_at: Option<usize>,
}

type Shared = Rc<RefCell<Board>>;

struct ChipSelect {
    line: usize,
    board: Shared,
}

impl ErrorType for ChipSelect {
    type Error = PinFault;
}

impl ChipSelect {
    fn level(&mut self, level: bool) -> Result<(), PinFault> {
        let mut board = self.board.borrow_mut();
        let n = board.operations;
        board.operations += 1;
        if board.pin_fails_at == Some(n) {
            return Err(PinFault);
        }
        board.log.push(Event::Select(self.line, level));
        Ok(())
    }
}

impl OutPin for ChipSelect {
    fn set_low(&mut self) -> Result<(), PinFault> {
        self.level(false)
    }

    fn set_high(&mut self) -> Result<(), PinFault> {
        self.level(true)
    }

    fn set_as_output(&mut self) -> Result<(), PinFault> {
        Ok(())
    }
}

struct Spi {
    board: Shared,
}

impl Link for Spi {
    type Error = LinkFault;

    fn write(&mut self, words: &[u8]) -> Result<(), LinkFault> {
        let mut board = self.board.borrow_mut();
        let n = board.operations;
        board.operations += 1;
        if board.link_fails_at == Some(n) {
            return Err(LinkFault);
        }
        board.log.push(Event::Sent(words.to_vec()));
        Ok(())
    }
}

struct TestClock {
    board: Shared,
}

impl Clock for TestClock {
    fn now(&mut self) -> u64 {
        self.board.borrow().time
    }

    fn wait_until(&mut self, end: u64) {
        let mut board = self.board.borrow_mut();
        board.log.push(Event::WaitUntil(end));
        if board.time < end {
            board.time = end;
        }
    }
}

type Bus<const PINS: usize> =
    Interface<TracedLink<Spi>, TracedPin<ChipSelect>, TracedClock<TestClock>, PINS>;

fn board() -> Shared {
    Rc::new(RefCell::new(Board {
        log: Vec::new(),
        time: 0,
        operations: 0,
        pin_fails_at: None,
        link_fails_at: None,
    }))
}

fn chip_select(line: usize, board: &Shared) -> TracedPin<ChipSelect> {
    TracedPin::new(ChipSelect { line, board: board.clone() })
}

fn bus(board: &Shared) -> Bus<1> {
    Interface::new(
        TracedLink::new(Spi { board: board.clone() }),
        [chip_select(0, board)],
        TracedClock::new(TestClock { board: board.clone() }),
    )
}

fn shared_bus(board: &Shared) -> Bus<2> {
    Interface::new(
        TracedLink::new(Spi { board: board.clone() }),
        [chip_select(0, board), chip_select(1, board)],
        TracedClock::new(TestClock { board: board.clone() }),
    )
}

fn frame(line: usize, bytes: &[u8]) -> Vec<Event> {
    vec![Event::Select(line, true), Event::Sent(bytes.to_vec()), Event::Select(line, false)]
}

#[test]
fn sync_byte_selects_the_register() {
    assert_eq!(sync(0), 0xF8);
    assert_eq!(sync(1), 0xFA);
}

#[test]
fn byte_is_framed_as_sync_and_two_halves() {
    assert_eq!(encode_u8(0, 0x90), [0xF8, 0x90, 0x00]);
    assert_eq!(encode_u8(0, 0x45), [0xF8, 0x40, 0x50]);
    assert_eq!(encode_u8(1, 0xFF), [0xFA, 0xF0, 0xF0]);
    assert_eq!(encode_u8(0, 0x00), [0xF8, 0x00, 0x00]);
}

#[test]
fn word_is_framed_as_sync_and_four_halves() {
    assert_eq!(encode_u16(1, 0x1234), [0xFA, 0x10, 0x20, 0x30, 0x40]);
    assert_eq!(encode_u16(0, 0x8A91), [0xF8, 0x80, 0xA0, 0x90, 0x10]);
    assert_eq!(encode_u16(1, 0x0000), [0xFA, 0x00, 0x00, 0x00, 0x00]);
    assert_eq!(encode_u16(1, 0xFFFF), [0xFA, 0xF0, 0xF0, 0xF0, 0xF0]);
}

#[test]
fn halves_of_a_frame_hold_the_byte() {
    for byte in 0..=255u8 {
        let [_, high, low] = encode_u8(0, byte);
        assert_eq!(high & 0x0F, 0);
        assert_eq!(low & 0x0F, 0);
        assert_eq!(high | low >> 4, byte);
    }
}

#[test]
fn write_on_serial_bus_is_one_frame_of_five_bytes() {
    let board = board();
    let mut lcd = bus(&board);
    lcd.write(0x1234).unwrap();
    assert_eq!(board.borrow().log, frame(0, &[0xFA, 0x10, 0x20, 0x30, 0x40]));
}

#[test]
fn instruction_on_serial_bus_is_one_frame_of_three_bytes() {
    let board = board();
    let mut lcd = bus(&board);
    lcd.ddram_addr(0x10).unwrap();
    assert_eq!(board.borrow().log, frame(0, &[0xF8, 0x90, 0x00]));
}

#[test]
fn graphic_ram_addr_on_serial_bus_is_one_frame_of_five_bytes() {
    let board = board();
    let mut lcd = bus(&board);
    lcd.select_graphic().unwrap();
    board.borrow_mut().log.clear();
    board.borrow_mut().time = 1_000;
    lcd.graphic_ram_addr(0x21, 0x0A).unwrap();
    assert_eq!(board.borrow().log, frame(0, &[0xF8, 0x80, 0xA0, 0xA0, 0x10]));
}

#[test]
fn scroll_offset_on_serial_bus_selects_extended_first() {
    let board = board();
    let mut lcd = bus(&board);
    lcd.scroll_offset(5).unwrap();
    let mut expected = frame(0, &[0xF8, 0x20, 0x40]);
    expected.push(Event::WaitUntil(72));
    expected.extend(frame(0, &[0xF8, 0x40, 0x50]));
    assert_eq!(board.borrow().log, expected);
}

#[test]
fn serial_frame_waits_for_the_deadline_of_the_frame_before() {
    let board = board();
    let mut lcd = bus(&board);
    lcd.clear().unwrap();
    board.borrow_mut().time = 100;
    lcd.home().unwrap();
    board.borrow_mut().time = 5_000;
    lcd.home().unwrap();
    let log = board.borrow().log.clone();
    let waits: Vec<_> = log.iter().filter(|e| matches!(e, Event::WaitUntil(_))).collect();
    assert_eq!(waits, vec![&Event::WaitUntil(1_600)]);
    assert_eq!(log[3], Event::WaitUntil(1_600));
}

#[test]
fn transaction_runs_between_the_edges_of_chip_select_and_books_its_duration() {
    let board = board();
    let mut lcd = bus(&board);
    let out: Result<u8, Error<LinkFault, PinFault>> = lcd.transaction(500, |link| {
        link.write(&[1, 2])?;
        link.write(&[3])?;
        Ok(7)
    });
    assert_eq!(out.ok(), Some(7));
    lcd.home().unwrap();
    let mut expected = vec![
        Event::Select(0, true),
        Event::Sent(vec![1, 2]),
        Event::Sent(vec![3]),
        Event::Select(0, false),
        Event::WaitUntil(500),
    ];
    expected.extend(frame(0, &[0xF8, 0x00, 0x20]));
    assert_eq!(board.borrow().log, expected);
}

#[test]
fn link_error_is_told_from_pin_error() {
    let board = board();
    let mut lcd = bus(&board);
    board.borrow_mut().link_fails_at = Some(1);
    assert!(matches!(lcd.home(), Err(Error::Link(LinkFault))));
    assert_eq!(
        board.borrow().log,
        vec![Event::Select(0, true), Event::Select(0, false)]
    );

    let board = self::board();
    let mut lcd = bus(&board);
    board.borrow_mut().pin_fails_at = Some(0);
    assert!(matches!(lcd.home(), Err(Error::Pin(PinFault))));
    assert_eq!(board.borrow().log, vec![]);

    let board = self::board();
    let mut lcd = bus(&board);
    board.borrow_mut().pin_fails_at = Some(2);
    assert!(matches!(lcd.home(), Err(Error::Pin(PinFault))));
    assert_eq!(
        board.borrow().log,
        vec![Event::Select(0, true), Event::Sent(vec![0xF8, 0x00, 0x20])]
    );
}

#[test]
fn link_error_books_the_deadline_and_pin_error_does_not() {
    let board = board();
    let mut lcd = bus(&board);
    board.borrow_mut().link_fails_at = Some(1);
    assert!(lcd.clear().is_err());
    board.borrow_mut().link_fails_at = None;
    board.borrow_mut().log.clear();
    lcd.home().unwrap();
    assert_eq!(board.borrow().log[0], Event::WaitUntil(1_600));

    let board = self::board();
    let mut lcd = bus(&board);
    board.borrow_mut().pin_fails_at = Some(2);
    assert!(lcd.clear().is_err());
    board.borrow_mut().pin_fails_at = None;
    board.borrow_mut().log.clear();
    lcd.home().unwrap();
    assert_eq!(board.borrow().log[0], Event::Select(0, true));
}

#[test]
fn displays_on_a_shared_link_have_their_own_chip_select_and_deadline() {
    let board = board();
    let mut lcd = shared_bus(&board);
    assert_eq!(lcd.num(), 2);
    lcd.get(0).unwrap().clear().unwrap();
    lcd.get(1).unwrap().home().unwrap();
    lcd.get(0).unwrap().home().unwrap();
    let mut expected = frame(0, &[0xF8, 0x00, 0x10]);
    expected.extend(frame(1, &[0xF8, 0x00, 0x20]));
    expected.push(Event::WaitUntil(1_600));
    expected.extend(frame(0, &[0xF8, 0x00, 0x20]));
    assert_eq!(board.borrow().log, expected);
    assert!(lcd.get(2).is_none());
}

#[test]
fn power_on_sequence_on_serial_bus() {
    let board = board();
    let mut lcd = bus(&board);
    lcd.init().unwrap();
    let mut expected = vec![Event::WaitUntil(80_000)];
    expected.extend(frame(0, &[0xF8, 0x20, 0x00]));
    expected.push(Event::WaitUntil(80_200));
    expected.extend(frame(0, &[0xF8, 0x20, 0x00]));
    expected.push(Event::WaitUntil(80_400));
    expected.extend(frame(0, &[0xF8, 0x00, 0xC0]));
    expected.push(Event::WaitUntil(80_600));
    expected.extend(frame(0, &[0xF8, 0x00, 0x10]));
    expected.push(Event::WaitUntil(100_600));
    expected.extend(frame(0, &[0xF8, 0x00, 0x60]));
    assert_eq!(board.borrow().log, expected);
}

#[test]
fn execute_takes_every_instruction_on_serial_bus() {
    let board = board();
    let mut lcd = bus(&board);
    lcd.execute(Command::EntryMode { increment: true, shift: true }).unwrap();
    assert_eq!(board.borrow().log, frame(0, &[0xF8, 0x00, 0x70]));
}

#[test]
fn serial_bus_of_no_display_has_none_to_get() {
    let board = board();
    let mut lcd: Bus<0> = Interface::new(
        TracedLink::new(Spi { board: board.clone() }),
        [],
        TracedClock::new(TestClock { board: board.clone() }),
    );
    assert_eq!(lcd.num(), 0);
    assert!(lcd.get(0).is_none());
    assert_eq!(board.borrow().log, vec![]);
}

#[test]
fn chip_select_falls_after_the_link_has_failed_inside_a_transaction() {
    let board = board();
    let mut lcd = bus(&board);
    board.borrow_mut().link_fails_at = Some(2);
    let out: Result<(), Error<LinkFault, PinFault>> = lcd.transaction(100, |link| {
        link.write(&[9])?;
        link.write(&[8])
    });
    assert!(matches!(out, Err(Error::Link(LinkFault))));
    assert_eq!(
        board.borrow().log,
        vec![Event::Select(0, true), Event::Sent(vec![9]), Event::Select(0, false)]
    );
}
