use st7920::hal::{Clock, ErrorType, Link, OutPin};
use st7920::model::{TracedClock, TracedLink, TracedPin};
use st7920::serial::{Error, Interface};
use st7920::{Execute, Init, Pair, PairError};

use std::cell::RefCell;
use std::rc::Rc;

type Sent = Rc<RefCell<Vec<Vec<u8>>>>;

struct Spi {
    sent: Sent,
    fails: bool,
}

impl Link for Spi {
    type Error = &'static str;

    fn write(&mut self, words: &[u8]) -> Result<(), &'static str> {
        if self.fails {
            return Err("link");
        }
        self.sent.borrow_mut().push(words.to_vec());
        Ok(())
    }
}

struct ChipSelect;

impl ErrorType for ChipSelect {
    type Error = ();
}

impl OutPin for ChipSelect {
    fn set_low(&mut self) -> Result<(), ()> {
        Ok(())
    }

    fn set_high(&mut self) -> Result<(), ()> {
        Ok(())
    }

    fn set_as_output(&mut self) -> Result<(), ()> {
        Ok(())
    }
}

struct Jumping(u64);

impl Clock for Jumping {
    fn now(&mut self) -> u64 {
        self.0
    }

    fn wait_until(&mut self, end: u64) {
        self.0 = self.0.max(end);
    }
}

type Bus = Interface<TracedLink<Spi>, TracedPin<ChipSelect>, TracedClock<Jumping>, 1>;

fn bus(sent: &Sent, fails: bool) -> Bus {
    Interface::new(
        TracedLink::new(Spi { sent: sent.clone(), fails }),
        [TracedPin::new(ChipSelect)],
        TracedClock::new(Jumping(0)),
    )
}

fn sent() -> Sent {
    Rc::new(RefCell::new(Vec::new()))
}

#[test]
fn pair_sends_each_instruction_to_both_displays() {
    let (first, second) = (sent(), sent());
    let mut pair = Pair(bus(&first, false), bus(&second, false));
    pair.ddram_addr(0x10).unwrap();
    pair.write(0x4141).unwrap();
    let expected = vec![vec![0xF8, 0x90, 0x00], vec![0xFA, 0x40, 0x10, 0x40, 0x10]];
    assert_eq!(*first.borrow(), expected);
    assert_eq!(*second.borrow(), expected);
}

#[test]
fn pair_does_not_touch_the_second_display_when_the_first_fails() {
    let (first, second) = (sent(), sent());
    let mut pair = Pair(bus(&first, true), bus(&second, false));
    assert!(matches!(pair.clear(), Err(PairError::First(Error::Link("link")))));
    assert_eq!(*second.borrow(), Vec::<Vec<u8>>::new());
}

#[test]
fn pair_tells_which_display_failed() {
    let (first, second) = (sent(), sent());
    let mut pair = Pair(bus(&first, false), bus(&second, true));
    assert!(matches!(pair.clear(), Err(PairError::Second(Error::Link("link")))));
    assert_eq!(*first.borrow(), vec![vec![0xF8, 0x00, 0x10]]);
}

#[test]
fn pair_runs_the_power_on_sequence_of_both_displays() {
    let (first, second) = (sent(), sent());
    let mut pair = Pair(bus(&first, false), bus(&second, false));
    pair.init().unwrap();
    let expected = vec![
        vec![0xF8, 0x20, 0x00],
        vec![0xF8, 0x20, 0x00],
        vec![0xF8, 0x00, 0xC0],
        vec![0xF8, 0x00, 0x10],
        vec![0xF8, 0x00, 0x60],
    ];
    assert_eq!(*first.borrow(), expected);
    assert_eq!(*second.borrow(), expected);
}

#[test]
fn pair_stops_the_power_on_sequence_at_the_display_that_fails() {
    let (first, second) = (sent(), sent());
    let mut pair = Pair(bus(&first, true), bus(&second, false));
    assert!(matches!(pair.init(), Err(PairError::First(_))));
    assert_eq!(*second.borrow(), Vec::<Vec<u8>>::new());
    let (first, second) = (sent(), sent());
    let mut pair = Pair(bus(&first, false), bus(&second, true));
    assert!(matches!(pair.init(), Err(PairError::Second(_))));
    assert_eq!(first.borrow().len(), 5);
}
