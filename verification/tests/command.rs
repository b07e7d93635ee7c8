use st7920::command::{bit, status, CLEAR_TIME, DEFAULT_TIME};
use st7920::parallel::{high, low, word};
use st7920::{ext, Command};

#[test]
fn opcode_of_every_instruction() {
    assert_eq!(Command::Clear.into_bytes(), [0x01, 0]);
    assert_eq!(Command::Home.into_bytes(), [0x02, 0]);
    assert_eq!(Command::SelectBasic.into_bytes(), [0x20, 0]);
    assert_eq!(Command::SelectExtended.into_bytes(), [0x24, 0]);
    assert_eq!(Command::SelectGraphic.into_bytes(), [0x26, 0]);
    assert_eq!(Command::StandBy.into_bytes(), [0x01, 0]);
    assert_eq!(Command::EnableScroll.into_bytes(), [0x03, 0]);
    assert_eq!(Command::EnableCgRam.into_bytes(), [0x02, 0]);
    assert_eq!(Command::CgRamAddr(0x15).into_bytes(), [0x55, 0]);
    assert_eq!(Command::DdRamAddr(0x10).into_bytes(), [0x90, 0]);
    assert_eq!(Command::Reverse(2).into_bytes(), [0x06, 0]);
    assert_eq!(Command::ScrollOffset(5).into_bytes(), [0x45, 0]);
    assert_eq!(Command::GraphicRamAddr { y: 0x0A, x: 0x21 }.into_bytes(), [0x8A, 0xA1]);
}

#[test]
fn opcode_of_entry_mode_for_every_flag() {
    let entry = |increment, shift| Command::EntryMode { increment, shift }.into_bytes();
    assert_eq!(entry(false, false), [0b0000_0100, 0]);
    assert_eq!(entry(false, true), [0b0000_0101, 0]);
    assert_eq!(entry(true, false), [0b0000_0110, 0]);
    assert_eq!(entry(true, true), [0b0000_0111, 0]);
}

#[test]
fn opcode_of_display_on_off_for_every_flag() {
    for n in 0u8..8 {
        let command = Command::DisplayOnOff {
            display: n & 4 != 0,
            cursor: n & 2 != 0,
            blink: n & 1 != 0,
        };
        assert_eq!(command.into_bytes(), [0b0000_1000 | n, 0]);
    }
}

#[test]
fn opcode_of_cursor_display_ctrl_for_every_flag() {
    let ctrl = |sc, rl| Command::CursorDisplayCtrl { sc, rl }.into_bytes();
    assert_eq!(ctrl(false, false), [0b0001_0000, 0]);
    assert_eq!(ctrl(false, true), [0b0001_0100, 0]);
    assert_eq!(ctrl(true, false), [0b0001_1000, 0]);
    assert_eq!(ctrl(true, true), [0b0001_1100, 0]);
}

#[test]
fn opcode_keeps_the_low_bits_of_a_parameter() {
    assert_eq!(Command::CgRamAddr(0xFF).into_bytes(), [0x7F, 0]);
    assert_eq!(Command::CgRamAddr(0x40).into_bytes(), [0x40, 0]);
    assert_eq!(Command::DdRamAddr(0xFF).into_bytes(), [0xFF, 0]);
    assert_eq!(Command::DdRamAddr(0x80).into_bytes(), [0x80, 0]);
    assert_eq!(Command::Reverse(0xFF).into_bytes(), [0x07, 0]);
    assert_eq!(Command::Reverse(4).into_bytes(), [0x04, 0]);
    assert_eq!(Command::ScrollOffset(0xFF).into_bytes(), [0x5F, 0]);
    assert_eq!(Command::ScrollOffset(0x20).into_bytes(), [0x40, 0]);
    assert_eq!(Command::GraphicRamAddr { y: 0xFF, x: 0xFF }.into_bytes(), [0x8F, 0xBF]);
    assert_eq!(Command::GraphicRamAddr { y: 0, x: 0 }.into_bytes(), [0x80, 0x80]);
}

#[test]
fn execution_time_is_1600_for_clear_and_72_otherwise() {
    assert_eq!(CLEAR_TIME, 1_600);
    assert_eq!(DEFAULT_TIME, 72);
    assert_eq!(Command::Clear.execution_time(), 1_600);
    let others = [
        Command::Write(0x4141),
        Command::Home,
        Command::EntryMode { increment: true, shift: false },
        Command::DisplayOnOff { display: true, cursor: true, blink: true },
        Command::CursorDisplayCtrl { sc: true, rl: true },
        Command::SelectBasic,
        Command::CgRamAddr(1),
        Command::DdRamAddr(1),
        Command::StandBy,
        Command::EnableScroll,
        Command::EnableCgRam,
        Command::Reverse(1),
        Command::SelectExtended,
        Command::SelectGraphic,
        Command::ScrollOffset(1),
        Command::GraphicRamAddr { y: 1, x: 1 },
    ];
    for command in others {
        assert_eq!(command.execution_time(), 72);
    }
}

#[test]
fn status_of_raw_byte() {
    assert_eq!(status(0x90), (true, 0x10));
    assert_eq!(status(0x10), (false, 0x10));
    assert_eq!(status(0xFF), (true, 0x7F));
    assert_eq!(status(0x80), (true, 0x00));
    assert_eq!(status(0x00), (false, 0x00));
}

#[test]
fn bit_moves_a_flag_to_its_place() {
    assert_eq!(bit(true, 0), 1);
    assert_eq!(bit(true, 3), 8);
    assert_eq!(bit(true, 7), 0x80);
    assert_eq!(bit(false, 0), 0);
    assert_eq!(bit(false, 7), 0);
}

#[test]
fn word_is_made_of_its_high_and_low_byte() {
    assert_eq!(high(0x1234), 0x12);
    assert_eq!(low(0x1234), 0x34);
    assert_eq!(word(0x12, 0x34), 0x1234);
    assert_eq!(high(0xFFFF), 0xFF);
    assert_eq!(low(0x00FF), 0xFF);
    assert_eq!(word(0, 0), 0);
    assert_eq!(word(0xFF, 0), 0xFF00);
}

#[test]
fn extended_instruction_has_the_opcode_of_the_whole_set() {
    let all = [
        ext::Command::StandBy,
        ext::Command::EnableScroll,
        ext::Command::EnableCgRam,
        ext::Command::Reverse(3),
        ext::Command::SelectExtended,
        ext::Command::SelectGraphic,
        ext::Command::ScrollOffset(0x1F),
        ext::Command::GraphicRamAddr { y: 3, x: 9 },
    ];
    let bytes = [
        [0x01, 0],
        [0x03, 0],
        [0x02, 0],
        [0x07, 0],
        [0x24, 0],
        [0x26, 0],
        [0x5F, 0],
        [0x83, 0x89],
    ];
    for (command, expected) in all.into_iter().zip(bytes) {
        assert_eq!(command.into_bytes(), expected);
        assert_eq!(command.widen().into_bytes(), expected);
        assert_eq!(Command::from(command), command.widen());
        assert_eq!(command.execution_time(), 72);
    }
}

#[test]
fn extended_instruction_widens_to_the_one_of_the_same_name() {
    assert_eq!(ext::Command::StandBy.widen(), Command::StandBy);
    assert_eq!(ext::Command::EnableScroll.widen(), Command::EnableScroll);
    assert_eq!(ext::Command::EnableCgRam.widen(), Command::EnableCgRam);
    assert_eq!(ext::Command::Reverse(1).widen(), Command::Reverse(1));
    assert_eq!(ext::Command::SelectExtended.widen(), Command::SelectExtended);
    assert_eq!(ext::Command::SelectGraphic.widen(), Command::SelectGraphic);
    assert_eq!(ext::Command::ScrollOffset(9).widen(), Command::ScrollOffset(9));
    assert_eq!(
        ext::Command::GraphicRamAddr { y: 1, x: 2 }.widen(),
        Command::GraphicRamAddr { y: 1, x: 2 }
    );
}
