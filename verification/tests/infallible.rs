use std::cell::RefCell;
use std::collections::VecDeque;
use std::convert::Infallible;
use std::rc::Rc;

use st7920::hal::{Clock, ErrorType, InPin, OutPin};
use st7920::infallible::{Execute, ExecuteExt, ExecuteRead};
use st7920::model::{TracedClock, TracedPin};
use st7920::parallel::Interface;
use st7920::{ext, Command};

/// A board whose pins cannot fail: what the chip has latched, and what it answers.
struct Board {
    rs: bool,
    rw: bool,
    data: u8,
    latched: Vec<(bool, bool, u8)>,
    answers: VecDeque<u8>,
    answer: u8,
}

type Shared = Rc<RefCell<Board>>;

#[derive(Clone, Copy)]
enum Wire {
    Rs,
    Rw,
    Enable,
    Data(u8),
}

struct SurePin {
    wire: Wire,
    board: Shared,
}

impl SurePin {
    fn level(&mut self, level: bool) {
        let mut board = self.board.borrow_mut();
        match self.wire {
            Wire::Rs => board.rs = level,
            Wire::Rw => board.rw = level,
            Wire::Data(i) => {
                if level {
                    board.data |= 1 << i;
                } else {
                    board.data &= !(1 << i);
                }
            }
            Wire::Enable => {
                if level {
                    if board.rw {
                        board.answer = board.answers.pop_front().unwrap_or(0);
                    }
                } else {
                    let cycle = (board.rs, board.rw, board.data);
                    board.latched.push(cycle);
                }
            }
        }
    }
}

impl ErrorType for SurePin {
    type Error = Infallible;
}

impl OutPin for SurePin {
    fn set_low(&mut self) -> Result<(), Infallible> {
        self.level(false);
        Ok(())
    }

    fn set_high(&mut self) -> Result<(), Infallible> {
        self.level(true);
        Ok(())
    }

    fn set_as_output(&mut self) -> Result<(), Infallible> {
        Ok(())
    }
}

impl InPin for SurePin {
    fn is_high(&mut self) -> Result<bool, Infallible> {
        match self.wire {
            Wire::Data(i) => Ok(self.board.borrow().answer & (1 << i) != 0),
            _ => Ok(false),
        }
    }

    fn set_as_input(&mut self) -> Result<(), Infallible> {
        Ok(())
    }
}

struct Still;

impl Clock for Still {
    fn now(&mut self) -> u64 {
        0
    }

    fn wait_until(&mut self, _end: u64) {}
}

type Bus = Interface<TracedPin<SurePin>, TracedPin<SurePin>, TracedClock<Still>, 1, 8>;

fn board(answers: &[u8]) -> Shared {
    Rc::new(RefCell::new(Board {
        rs: false,
        rw: false,
        data: 0,
        latched: Vec::new(),
        answers: answers.iter().copied().collect(),
        answer: 0,
    }))
}

fn bus(board: &Shared) -> Bus {
    let pin = |wire| TracedPin::new(SurePin { wire, board: board.clone() });
    Interface::new(
        pin(Wire::Rs),
        pin(Wire::Rw),
        [pin(Wire::Enable)],
        [
            pin(Wire::Data(0)),
            pin(Wire::Data(1)),
            pin(Wire::Data(2)),
            pin(Wire::Data(3)),
            pin(Wire::Data(4)),
            pin(Wire::Data(5)),
            pin(Wire::Data(6)),
            pin(Wire::Data(7)),
        ],
        TracedClock::new(Still),
    )
}

fn written(board: &Shared) -> Vec<(bool, u8)> {
    board.borrow().latched.iter().map(|c| (c.0, c.2)).collect()
}

#[test]
fn basic_instructions_without_a_result() {
    let board = board(&[]);
    let mut lcd = bus(&board);
    Execute::execute(&mut lcd, Command::Home);
    lcd.write(0x4142);
    lcd.clear();
    lcd.home();
    lcd.entry_mode(true, false);
    lcd.display_on_off(true, false, true);
    lcd.cursor_display_ctrl(true, false);
    lcd.select_basic();
    lcd.cgram_addr(0x2A);
    lcd.ddram_addr(0x10);
    assert_eq!(
        written(&board),
        vec![
            (false, 0x02),
            (true, 0x41),
            (true, 0x42),
            (false, 0x01),
            (false, 0x02),
            (false, 0x06),
            (false, 0x0D),
            (false, 0x18),
            (false, 0x20),
            (false, 0x6A),
            (false, 0x90),
        ]
    );
}

#[test]
fn extended_instructions_without_a_result() {
    let board = board(&[]);
    let mut lcd = bus(&board);
    ExecuteExt::execute(&mut lcd, ext::Command::SelectExtended);
    lcd.stand_by();
    lcd.enable_scroll();
    lcd.enable_cgram();
    lcd.reverse(2);
    lcd.select_extended();
    lcd.scroll_offset(5);
    lcd.select_graphic();
    lcd.graphic_ram_addr(0x21, 0x0A);
    assert_eq!(
        written(&board),
        vec![
            (false, 0x24),
            (false, 0x01),
            (false, 0x03),
            (false, 0x02),
            (false, 0x06),
            (false, 0x24),
            (false, 0x45),
            (false, 0x26),
            (false, 0x8A),
            (false, 0xA1),
        ]
    );
}

#[test]
fn reads_without_a_result() {
    let board = board(&[0x90, 0x91, 0x12, 0x12, 0x34]);
    let mut lcd = bus(&board);
    assert_eq!(lcd.read_bf_ac(), (true, 0x10));
    assert_eq!(lcd.read_address_counter(), 0x11);
    assert_eq!(lcd.read_busy_flag(), false);
    assert_eq!(lcd.read(), 0x1234);
}
