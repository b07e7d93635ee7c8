use st7920::hal::{after, Clock};
use st7920::model::{now, sleep, sleep_until, TracedClock};
use st7920::schedule::Lines;
use st7920::{Command, Mode};

/// A clock that shows the readings it is given, one after the other, and notes what it was
/// made to wait for.
struct Readings {
    readings: Vec<u64>,
    waits: Vec<u64>,
}

impl Clock for Readings {
    fn now(&mut self) -> u64 {
        if self.readings.len() > 1 {
            self.readings.remove(0)
        } else {
            self.readings[0]
        }
    }

    fn wait_until(&mut self, end: u64) {
        self.waits.push(end);
        self.readings = vec![end];
    }
}

fn clock(readings: &[u64]) -> TracedClock<Readings> {
    TracedClock::new(Readings { readings: readings.to_vec(), waits: Vec::new() })
}

#[test]
fn after_adds_and_stops_at_the_last_instant() {
    assert_eq!(after(0, 0), 0);
    assert_eq!(after(100, 72), 172);
    assert_eq!(after(u64::MAX - 72, 72), u64::MAX);
    assert_eq!(after(u64::MAX - 71, 72), u64::MAX);
    assert_eq!(after(u64::MAX, 1_600), u64::MAX);
    assert_eq!(after(7, u64::MAX), u64::MAX);
}

#[test]
fn new_lines_are_free_from_now_on_and_in_basic_mode() {
    let mut lines: Lines<3> = Lines::new(500);
    assert_eq!(lines.num(), 3);
    assert_eq!(lines.current(), 0);
    for idx in 0..3 {
        assert!(lines.choose_line(idx));
        assert_eq!(lines.current(), idx);
        assert_eq!(lines.not_before(), 500);
        assert_eq!(lines.mode(), Mode::Basic);
    }
}

#[test]
fn choose_line_knows_the_lines_there_are() {
    let mut lines: Lines<2> = Lines::new(0);
    assert!(lines.choose_line(1));
    assert!(!lines.choose_line(2));
    assert_eq!(lines.current(), 1);
    assert!(!lines.choose_line(usize::MAX));
    assert_eq!(lines.current(), 1);
    assert!(lines.choose_line(0));
    assert_eq!(lines.current(), 0);
}

#[test]
fn book_sets_the_deadline_of_the_line_in_use_only() {
    let mut lines: Lines<2> = Lines::new(10);
    lines.book(100, 1_600);
    assert_eq!(lines.not_before(), 1_700);
    assert!(lines.choose_line(1));
    assert_eq!(lines.not_before(), 10);
    lines.book(200, 72);
    assert_eq!(lines.not_before(), 272);
    assert!(lines.choose_line(0));
    assert_eq!(lines.not_before(), 1_700);
}

#[test]
fn book_stops_at_the_last_instant() {
    let mut lines: Lines<1> = Lines::new(0);
    lines.book(u64::MAX - 10, 72);
    assert_eq!(lines.not_before(), u64::MAX);
}

#[test]
fn remaining_is_what_is_left_until_the_deadline() {
    let mut lines: Lines<1> = Lines::new(0);
    lines.book(1_000, 72);
    assert_eq!(lines.remaining(1_000), 72);
    assert_eq!(lines.remaining(1_071), 1);
    assert_eq!(lines.remaining(1_072), 0);
    assert_eq!(lines.remaining(9_999), 0);
    assert_eq!(lines.remaining(0), 1_072);
}

#[test]
fn took_follows_the_instruction_set_of_the_line_in_use_only() {
    let mut lines: Lines<2> = Lines::new(0);
    lines.took(Command::SelectExtended);
    assert_eq!(lines.mode(), Mode::Extended);
    lines.took(Command::ScrollOffset(3));
    assert_eq!(lines.mode(), Mode::Extended);
    lines.took(Command::SelectGraphic);
    assert_eq!(lines.mode(), Mode::Graphic);
    lines.rested(200);
    assert_eq!(lines.mode(), Mode::Graphic);
    assert!(lines.choose_line(1));
    assert_eq!(lines.mode(), Mode::Basic);
}

#[test]
fn wait_makes_the_clock_wait_until_the_deadline() {
    let mut lines: Lines<1> = Lines::new(0);
    lines.book(1_000, 72);
    let mut clock = clock(&[1_010]);
    lines.wait(&mut clock);
    assert_eq!(clock.release().waits, vec![1_072]);
}

#[test]
fn second_wait_does_not_make_the_clock_wait() {
    let mut lines: Lines<1> = Lines::new(0);
    lines.book(1_000, 72);
    let mut clock = clock(&[1_010]);
    lines.wait(&mut clock);
    lines.wait(&mut clock);
    lines.wait(&mut clock);
    assert_eq!(clock.release().waits, vec![1_072]);
}

#[test]
fn wait_after_the_deadline_does_not_make_the_clock_wait() {
    let mut lines: Lines<1> = Lines::new(0);
    lines.book(1_000, 72);
    let mut at = clock(&[1_072]);
    lines.wait(&mut at);
    assert_eq!(at.release().waits, Vec::<u64>::new());
    let mut past = clock(&[2_000]);
    lines.wait(&mut past);
    assert_eq!(past.release().waits, Vec::<u64>::new());
}

#[test]
fn sleep_until_waits_only_for_an_instant_to_come() {
    let mut clock = clock(&[50]);
    sleep_until(&mut clock, 49);
    sleep_until(&mut clock, 50);
    sleep_until(&mut clock, 51);
    sleep_until(&mut clock, 51);
    assert_eq!(now(&mut clock), 51);
    assert_eq!(clock.release().waits, vec![51]);
}

#[test]
fn sleep_waits_for_a_duration_from_now() {
    let mut clock = clock(&[1_000]);
    sleep(&mut clock, 10);
    assert_eq!(now(&mut clock), 1_010);
    sleep(&mut clock, 0);
    assert_eq!(clock.release().waits, vec![1_010]);
}

#[test]
fn sleep_at_the_end_of_time_waits_for_the_last_instant() {
    let mut clock = clock(&[u64::MAX - 3]);
    sleep(&mut clock, 10);
    assert_eq!(clock.release().waits, vec![u64::MAX]);
}

#[test]
fn traced_clock_never_goes_back() {
    let mut clock = clock(&[100, 90, 95, 120, 110]);
    assert_eq!(now(&mut clock), 100);
    assert_eq!(now(&mut clock), 100);
    assert_eq!(now(&mut clock), 100);
    assert_eq!(now(&mut clock), 120);
    assert_eq!(now(&mut clock), 120);
}

#[test]
fn records_of_no_display_have_none_to_choose() {
    let mut lines: Lines<0> = Lines::new(5);
    assert_eq!(lines.num(), 0);
    assert!(!lines.choose_line(0));
}
