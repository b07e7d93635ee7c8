use st7920::hal::{ErrorType, InPin, Link, OutPin};
use st7920::model::{
    InPin as TracedIn, Link as TracedWrite, OutPin as TracedOut, TracedLink, TracedPin,
};

#[derive(Debug, Default, PartialEq, Eq)]
struct Pad {
    calls: Vec<&'static str>,
    level: bool,
    fails: bool,
}

impl ErrorType for Pad {
    type Error = u8;
}

impl Pad {
    fn call(&mut self, name: &'static str) -> Result<(), u8> {
        self.calls.push(name);
        if self.fails {
            Err(13)
        } else {
            Ok(())
        }
    }
}

impl OutPin for Pad {
    fn set_low(&mut self) -> Result<(), u8> {
        self.call("low")
    }

    fn set_high(&mut self) -> Result<(), u8> {
        self.call("high")
    }

    fn set_as_output(&mut self) -> Result<(), u8> {
        self.call("output")
    }
}

impl InPin for Pad {
    fn is_high(&mut self) -> Result<bool, u8> {
        self.call("read")?;
        Ok(self.level)
    }

    fn set_as_input(&mut self) -> Result<(), u8> {
        self.call("input")
    }
}

#[test]
fn traced_pin_asks_the_pin_for_each_operation() {
    let mut pin = TracedPin::new(Pad::default());
    assert_eq!(pin.set_as_output(), Ok(()));
    assert_eq!(pin.set_high(), Ok(()));
    assert_eq!(pin.set_low(), Ok(()));
    assert_eq!(pin.set_state(true), Ok(()));
    assert_eq!(pin.set_state(false), Ok(()));
    assert_eq!(pin.set_as_input(), Ok(()));
    assert_eq!(pin.is_high(), Ok(false));
    assert_eq!(pin.is_low(), Ok(true));
    assert_eq!(
        pin.release().calls,
        vec!["output", "high", "low", "high", "low", "input", "read", "read"]
    );
}

#[test]
fn traced_pin_reads_the_level_of_the_pin() {
    let mut pin = TracedPin::new(Pad { level: true, ..Pad::default() });
    assert_eq!(pin.is_high(), Ok(true));
    assert_eq!(pin.is_low(), Ok(false));
}

#[test]
fn traced_pin_hands_on_the_error_of_the_pin() {
    let mut pin = TracedPin::new(Pad { fails: true, ..Pad::default() });
    assert_eq!(pin.set_as_output(), Err(13));
    assert_eq!(pin.set_high(), Err(13));
    assert_eq!(pin.set_low(), Err(13));
    assert_eq!(pin.set_state(true), Err(13));
    assert_eq!(pin.set_as_input(), Err(13));
    assert_eq!(pin.is_high(), Err(13));
    assert_eq!(pin.is_low(), Err(13));
}

struct Wire {
    bytes: Vec<u8>,
    room: usize,
}

impl Link for Wire {
    type Error = usize;

    fn write(&mut self, words: &[u8]) -> Result<(), usize> {
        if self.bytes.len() + words.len() > self.room {
            return Err(self.room);
        }
        self.bytes.extend_from_slice(words);
        Ok(())
    }
}

#[test]
fn traced_link_hands_the_bytes_to_the_link() {
    let mut link = TracedLink::new(Wire { bytes: Vec::new(), room: 4 });
    assert_eq!(link.write(&[1, 2, 3]), Ok(()));
    assert_eq!(link.write(&[]), Ok(()));
    assert_eq!(link.write(&[4, 5]), Err(4));
    assert_eq!(link.write(&[4]), Ok(()));
    assert_eq!(link.release().bytes, vec![1, 2, 3, 4]);
}
