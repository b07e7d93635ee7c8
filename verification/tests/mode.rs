use st7920::{Command, Mode};

const MODES: [Mode; 3] = [Mode::Basic, Mode::Extended, Mode::Graphic];

fn basic_set() -> Vec<Command> {
    vec![
        Command::Clear,
        Command::Home,
        Command::EntryMode { increment: true, shift: false },
        Command::DisplayOnOff { display: true, cursor: false, blink: false },
        Command::CursorDisplayCtrl { sc: false, rl: true },
        Command::CgRamAddr(3),
        Command::DdRamAddr(0x10),
    ]
}

fn extended_set() -> Vec<Command> {
    vec![
        Command::StandBy,
        Command::EnableScroll,
        Command::EnableCgRam,
        Command::Reverse(1),
        Command::ScrollOffset(5),
    ]
}

/// The instructions that go out before `command`, by the instruction that has to go out
/// next, taken until there is none.
fn route(mode: Mode, command: Command) -> Vec<Command> {
    let mut mode = mode;
    let mut out = Vec::new();
    while let Some(next) = mode.bridge(command) {
        out.push(next);
        mode = mode.after(next);
        assert!(out.len() <= 2);
    }
    out
}

#[test]
fn instruction_belongs_to_its_set() {
    for command in basic_set() {
        assert_eq!(command.belongs_to(), Some(Mode::Basic));
        assert_eq!(command.selects(), None);
    }
    for command in extended_set() {
        assert_eq!(command.belongs_to(), Some(Mode::Extended));
        assert_eq!(command.selects(), None);
    }
    assert_eq!(Command::GraphicRamAddr { y: 0, x: 0 }.belongs_to(), Some(Mode::Graphic));
    assert_eq!(Command::Write(7).belongs_to(), None);
    assert_eq!(Command::Write(7).selects(), None);
}

#[test]
fn select_instruction_selects_its_set() {
    assert_eq!(Command::SelectBasic.selects(), Some(Mode::Basic));
    assert_eq!(Command::SelectExtended.selects(), Some(Mode::Extended));
    assert_eq!(Command::SelectGraphic.selects(), Some(Mode::Graphic));
    assert_eq!(Command::SelectBasic.belongs_to(), None);
    assert_eq!(Command::SelectExtended.belongs_to(), None);
    assert_eq!(Command::SelectGraphic.belongs_to(), None);
}

#[test]
fn toward_leads_one_set_nearer() {
    let (basic, extended, graphic) = (Mode::Basic, Mode::Extended, Mode::Graphic);
    assert_eq!(basic.toward(basic), None);
    assert_eq!(basic.toward(extended), Some(Command::SelectExtended));
    assert_eq!(basic.toward(graphic), Some(Command::SelectExtended));
    assert_eq!(extended.toward(basic), Some(Command::SelectBasic));
    assert_eq!(extended.toward(extended), None);
    assert_eq!(extended.toward(graphic), Some(Command::SelectGraphic));
    assert_eq!(graphic.toward(basic), Some(Command::SelectExtended));
    assert_eq!(graphic.toward(extended), Some(Command::SelectExtended));
    assert_eq!(graphic.toward(graphic), None);
}

#[test]
fn after_follows_select_instructions_only() {
    for mode in MODES {
        assert_eq!(mode.after(Command::SelectBasic), Mode::Basic);
        assert_eq!(mode.after(Command::SelectExtended), Mode::Extended);
        assert_eq!(mode.after(Command::SelectGraphic), Mode::Graphic);
        assert_eq!(mode.after(Command::Clear), mode);
        assert_eq!(mode.after(Command::ScrollOffset(1)), mode);
        assert_eq!(mode.after(Command::Write(1)), mode);
    }
}

#[test]
fn extended_instruction_in_basic_takes_one_select_extended() {
    for command in extended_set() {
        assert_eq!(route(Mode::Basic, command), vec![Command::SelectExtended]);
        assert_eq!(route(Mode::Extended, command), vec![]);
        assert_eq!(route(Mode::Graphic, command), vec![]);
    }
}

#[test]
fn basic_instruction_in_graphic_takes_select_extended_then_select_basic() {
    for command in basic_set() {
        assert_eq!(
            route(Mode::Graphic, command),
            vec![Command::SelectExtended, Command::SelectBasic]
        );
        assert_eq!(route(Mode::Extended, command), vec![Command::SelectBasic]);
        assert_eq!(route(Mode::Basic, command), vec![]);
    }
}

#[test]
fn graphic_instruction_in_basic_takes_one_select_extended() {
    let command = Command::GraphicRamAddr { y: 1, x: 2 };
    assert_eq!(route(Mode::Basic, command), vec![Command::SelectExtended]);
    assert_eq!(route(Mode::Extended, command), vec![]);
    assert_eq!(route(Mode::Graphic, command), vec![]);
}

#[test]
fn extended_and_graphic_sets_are_taken_in_both_of_them() {
    let (basic, extended, graphic) = (Mode::Basic, Mode::Extended, Mode::Graphic);
    assert!(basic.decodes(basic));
    assert!(!basic.decodes(extended));
    assert!(!basic.decodes(graphic));
    assert!(!extended.decodes(basic));
    assert!(extended.decodes(extended));
    assert!(extended.decodes(graphic));
    assert!(!graphic.decodes(basic));
    assert!(graphic.decodes(extended));
    assert!(graphic.decodes(graphic));
}

#[test]
fn select_instruction_goes_out_from_a_set_next_to_its_own() {
    assert_eq!(route(Mode::Basic, Command::SelectGraphic), vec![Command::SelectExtended]);
    assert_eq!(route(Mode::Graphic, Command::SelectBasic), vec![Command::SelectExtended]);
    for mode in MODES {
        assert_eq!(route(mode, Command::SelectExtended), vec![]);
    }
    assert_eq!(route(Mode::Basic, Command::SelectBasic), vec![]);
    assert_eq!(route(Mode::Extended, Command::SelectBasic), vec![]);
    assert_eq!(route(Mode::Extended, Command::SelectGraphic), vec![]);
    assert_eq!(route(Mode::Graphic, Command::SelectGraphic), vec![]);
}

#[test]
fn write_goes_out_in_every_set() {
    for mode in MODES {
        assert_eq!(route(mode, Command::Write(0x4141)), vec![]);
    }
}

#[test]
fn no_route_jumps_between_basic_and_graphic() {
    let mut commands = basic_set();
    commands.extend(extended_set());
    commands.extend([
        Command::GraphicRamAddr { y: 0, x: 0 },
        Command::SelectBasic,
        Command::SelectExtended,
        Command::SelectGraphic,
        Command::Write(0),
    ]);
    for start in MODES {
        for &command in &commands {
            let mut mode = start;
            let mut all = route(start, command);
            all.push(command);
            for step in all {
                let next = mode.after(step);
                assert!(!(mode == Mode::Basic && next == Mode::Graphic));
                assert!(!(mode == Mode::Graphic && next == Mode::Basic));
                mode = next;
            }
            if let Some(set) = command.belongs_to() {
                assert!(mode.decodes(set));
            }
            if let Some(set) = command.selects() {
                assert_eq!(mode, set);
            }
        }
    }
}
