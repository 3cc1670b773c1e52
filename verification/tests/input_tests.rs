use celestial::game::{game_version, GameVersion};
use celestial::keybind::{InputEvent, KeyboardShortcut, Modifiers, Shortcut};
use celestial::selection::select_in;
use celestial::ui::{check_input, timer_text, InputAction, Keybinds};

const NONE: Modifiers = Modifiers { alt: false, ctrl: false, shift: false, mac_cmd: false, command: false };

fn key(code: u8, modifiers: Modifiers) -> Shortcut {
    Shortcut { keyboard: Some(KeyboardShortcut { modifiers, key: code }) }
}

fn press(code: u8, modifiers: Modifiers) -> InputEvent {
    InputEvent::Key { key: code, pressed: true, repeat: false, modifiers }
}

#[test]
fn shortcut_text() {
    let m = Modifiers { alt: true, ctrl: true, shift: false, mac_cmd: false, command: true };
    assert_eq!(key(19, m).to_string(), "alt+ctrl+command+19");
    assert_eq!(key(0, NONE).to_string(), "0");
    assert_eq!(key(255, NONE).to_string(), "255");
    assert_eq!(Shortcut { keyboard: None }.to_string(), "");
}

#[test]
fn shortcut_text_reads_back() {
    let m = Modifiers { alt: false, ctrl: true, shift: true, mac_cmd: true, command: false };
    for code in [0u8, 7, 31, 100, 255] {
        let s = key(code, m);
        assert_eq!(Shortcut::from_string(&s.to_string()).unwrap(), s);
    }
}

#[test]
fn shortcut_parsing() {
    assert_eq!(Shortcut::from_string("shift+31").unwrap(), key(31, Modifiers { shift: true, ..NONE }));
    assert_eq!(Shortcut::from_string("007").unwrap(), key(7, NONE));
    assert_eq!(Shortcut::from_string("hyper+12").unwrap(), key(12, NONE));
    assert_eq!(Shortcut::from_string("alt+alt+1").unwrap(), key(1, Modifiers { alt: true, ..NONE }));
    assert!(Shortcut::from_string("").is_err());
    assert!(Shortcut::from_string("256").is_err());
    assert!(Shortcut::from_string("alt+").is_err());
    assert!(Shortcut::from_string("12a").is_err());
    assert!(Shortcut::from_string("-1").is_err());
}

#[test]
fn keybind_fires_on_presses_only() {
    let s = key(19, NONE);
    assert!(s.compare_to_event(&press(19, NONE)));
    assert!(!s.compare_to_event(&press(19, Modifiers { alt: true, ..NONE })));
    assert!(!s.compare_to_event(&press(20, NONE)));
    assert!(!s.compare_to_event(&InputEvent::Key { key: 19, pressed: false, repeat: false, modifiers: NONE }));
    assert!(!s.compare_to_event(&InputEvent::Other));
    assert!(!Shortcut { keyboard: None }.compare_to_event(&press(19, NONE)));
}

fn binds() -> Keybinds {
    Keybinds {
        start: key(19, NONE),
        stop: key(31, NONE),
        reset: key(30, NONE),
        clear: key(10, NONE),
        teleport: [key(56, NONE), key(57, NONE)],
        spawn_teleport: [key(37, Modifiers { alt: true, shift: true, ..NONE }), key(38, NONE)],
    }
}

#[test]
fn input_becomes_actions() {
    let events = vec![press(19, NONE), InputEvent::Other, press(31, NONE), press(57, NONE), press(30, NONE)];
    let (m, actions) = check_input(&binds(), false, true, false, &events);
    assert_eq!(m, 1);
    assert_eq!(
        actions,
        vec![
            InputAction::SpawnTrigger { index: 0 },
            InputAction::SpawnTrigger { index: 1 },
            InputAction::Teleport { index: 1 },
            InputAction::ResetRecording,
        ]
    );
    let (m, actions) = check_input(&binds(), true, true, true, &events);
    assert_eq!(m, 2);
    assert_eq!(actions[0], InputAction::StartRecording);
    assert_eq!(actions[1], InputAction::StopRecording);
    let (m, actions) = check_input(&binds(), true, false, false, &vec![press(37, Modifiers { alt: true, shift: true, ..NONE }), press(10, NONE)]);
    assert_eq!(m, 0);
    assert_eq!(actions, vec![InputAction::SpawnTeleport { index: 0 }, InputAction::ClearTriggers]);
}

#[test]
fn timer_texts() {
    assert_eq!(timer_text(0), "00:00.000");
    assert_eq!(timer_text(61_234), "01:01.234");
    assert_eq!(timer_text(59_999), "00:59.999");
    assert_eq!(timer_text(6_000_000), "100:00.000");
    assert_eq!(timer_text(600_005), "10:00.005");
}

#[test]
fn game_versions_by_size() {
    assert_eq!(game_version(106266624), Some(GameVersion::V101));
    assert_eq!(game_version(26177536), Some(GameVersion::V102));
    assert_eq!(game_version(26476544), Some(GameVersion::BAG));
    assert_eq!(game_version(0), None);
}

#[test]
fn selection_rules() {
    let coll = vec![1u128, 2, 3, 4, 5];
    assert_eq!(select_in(vec![2, 3], &coll, 4, 0), vec![4]);
    assert_eq!(select_in(vec![2, 3], &coll, 3, 2), vec![2]);
    assert_eq!(select_in(vec![2], &coll, 5, 2), vec![2, 5]);
    // shift forwards: from the anchor (excluded) to the click (included)
    assert_eq!(select_in(vec![2], &coll, 4, 1), vec![2, 3, 4]);
    // shift with nothing selected toggles nothing
    assert_eq!(select_in(vec![], &coll, 3, 1), Vec::<u128>::new());
    // shift over selected paths toggles them off
    assert_eq!(select_in(vec![1, 3, 5], &coll, 2, 1), vec![1, 5, 2, 4]);
}
