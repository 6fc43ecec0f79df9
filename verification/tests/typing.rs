use evdev::{EventType, KeyCode, SynchronizationCode};
use pepperx_uinput_helper::chord::KeyChord;
use pepperx_uinput_helper::keyboard::{can_declare_keys, key_events, keyboard_keys, RawEvent};
use pepperx_uinput_helper::keymap::{scan_layout, KeyLevel};
use pepperx_uinput_helper::keys;
use pepperx_uinput_helper::mapper::{build_char_mapper, CharMapper};
use pepperx_uinput_helper::typing::{
    emit_chord, emit_key, emit_pause, emit_sequence, emit_unicode_hex, hex_digits_of, type_text,
    KeyAction,
};
use std::collections::HashSet;

fn down(code: u16) -> KeyAction {
    KeyAction::Key { code, value: 1 }
}

fn up(code: u16) -> KeyAction {
    KeyAction::Key { code, value: 0 }
}

fn wait(millis: u64) -> KeyAction {
    KeyAction::Pause { millis }
}

fn chord(keycode: u16, shift: bool, alt_gr: bool) -> KeyChord {
    KeyChord { keycode, shift, alt_gr }
}

/// A mapper with a plain `a`, a `é` with AltGr and Shift, and a composed `ê`.
fn sample() -> CharMapper {
    let none: Vec<KeyLevel> = Vec::new();
    let (mut mapper, _) = build_char_mapper(scan_layout(&none), None);
    mapper.map.insert('a' as u32, vec![chord(16, false, false)]);
    mapper.map.insert('é' as u32, vec![chord(3, true, true)]);
    mapper.map.insert('ê' as u32, vec![chord(26, false, false), chord(18, false, false)]);
    mapper
}

fn held_after(actions: &[KeyAction]) -> HashSet<u16> {
    let mut held = HashSet::new();
    for action in actions {
        if let KeyAction::Key { code, value } = action {
            if *value == 0 {
                held.remove(code);
            } else {
                held.insert(*code);
            }
        }
    }
    held
}

#[test]
fn chords_hold_their_modifiers() {
    let mut actions = Vec::new();
    emit_chord(&mut actions, chord(30, false, false));
    assert_eq!(actions, vec![down(30), wait(2), up(30)]);
    let mut actions = Vec::new();
    emit_chord(&mut actions, chord(30, true, true));
    assert_eq!(
        actions,
        vec![down(100), down(42), down(30), wait(2), up(30), up(42), up(100)]
    );
    let mut actions = Vec::new();
    emit_key(&mut actions, 5, 1);
    emit_pause(&mut actions, 9);
    assert_eq!(actions, vec![down(5), wait(9)]);
}

#[test]
fn dead_keys_get_a_longer_pause() {
    let plan = type_text("ê", &sample());
    assert_eq!(plan.error, None);
    assert_eq!(
        plan.actions,
        vec![down(26), wait(2), up(26), wait(8), down(18), wait(2), up(18), wait(1)]
    );
    let mut actions = Vec::new();
    emit_sequence(&mut actions, &vec![chord(26, false, false), chord(18, false, false)]);
    assert_eq!(actions, plan.actions);
}

#[test]
fn unmapped_characters_are_entered_in_hex() {
    let mapper = sample();
    let plan = type_text("¢", &mapper);
    assert_eq!(plan.error, None);
    let enter =
        vec![down(29), down(42), down(22), wait(2), up(22), up(42), up(29), wait(30)];
    let a = vec![down(30), wait(2), up(30), wait(1)];
    let two = vec![down(3), wait(2), up(3), wait(1)];
    let commit = vec![down(57), wait(2), up(57), wait(30)];
    let mut expected = [enter, a, two, commit].concat();
    let mut entry = Vec::new();
    assert_eq!(emit_unicode_hex(&mut entry, 0xa2, &mapper), Ok(()));
    assert_eq!(entry, expected);
    expected.push(wait(1));
    assert_eq!(plan.actions, expected);
}

#[test]
fn nothing_is_typed_for_want_of_a_hex_digit() {
    let mut mapper = sample();
    mapper.hex_digits.remove(&('2' as u32));
    let plan = type_text("a¢a", &mapper);
    assert_eq!(
        plan.error.as_deref(),
        Some("internal error: missing hex digit mapping for '2'")
    );
    // Not even the plain `a` before it.
    assert_eq!(plan.actions, vec![]);
    // The entry by itself stops at the digit that is missing, with no key held.
    let mut entry = Vec::new();
    assert_eq!(
        emit_unicode_hex(&mut entry, 0xa2, &mapper),
        Err("internal error: missing hex digit mapping for '2'".to_string())
    );
    assert_eq!(entry.len(), 8 + 4);
    assert!(held_after(&entry).is_empty());
    // A text that needs no such digit is typed.
    assert_eq!(type_text("aª", &mapper).error, None);
    mapper.hex_digits.remove(&('f' as u32));
    let plan = type_text("ÿ", &mapper);
    assert_eq!(
        plan.error.as_deref(),
        Some("internal error: missing hex digit mapping for 'f'")
    );
}

#[test]
fn hex_digits_are_lower_case_without_leading_zeros() {
    for n in [0u32, 9, 10, 15, 16, 0x20ac, 0x1f600, 0x10ffff, u32::MAX] {
        let text: String =
            hex_digits_of(n).into_iter().map(|d| char::from_u32(d).unwrap()).collect();
        assert_eq!(text, format!("{n:x}"));
    }
}

#[test]
fn texts_are_typed_piece_by_piece() {
    let mapper = sample();
    let whole = type_text("aé 😀ê", &mapper);
    let mut pieces = type_text("aé ", &mapper).actions;
    pieces.extend(type_text("😀ê", &mapper).actions);
    assert_eq!(whole.actions, pieces);
    assert_eq!(type_text("", &mapper).actions, vec![]);
}

#[test]
fn every_key_goes_up_again() {
    let plan = type_text("aéê\n\t 中😀", &sample());
    assert_eq!(plan.error, None);
    assert!(held_after(&plan.actions).is_empty());
}

#[test]
fn the_keyboard_declares_what_typing_presses() {
    let mapper = sample();
    assert!(can_declare_keys(&mapper));
    let declared = keyboard_keys(&mapper);
    for action in type_text("aéê\n\t 中😀", &mapper).actions {
        if let KeyAction::Key { code, value } = action {
            assert!(declared.contains(&code), "{code}");
            assert!(value == 0 || value == 1);
        }
    }
    assert_eq!(
        declared,
        vec![
            2, 3, 4, 5, 6, 7, 8, 9, 10, 11, 15, 16, 18, 22, 26, 28, 29, 30, 32, 33, 42, 46, 48, 54,
            57, 100
        ]
    );
}

#[test]
fn keys_beyond_the_range_cannot_be_declared() {
    let mut mapper = sample();
    mapper.map.insert('x' as u32, vec![chord(767, false, false)]);
    assert!(can_declare_keys(&mapper));
    assert_eq!(keyboard_keys(&mapper).last(), Some(&767));
    mapper.map.insert('y' as u32, vec![chord(1, false, false), chord(768, false, false)]);
    assert!(!can_declare_keys(&mapper));
    let mut mapper = sample();
    mapper.hex_digits.insert('0' as u32, chord(768, false, false));
    assert!(!can_declare_keys(&mapper));
}

#[test]
fn key_events_end_in_a_report() {
    assert_eq!(
        key_events(30, 1),
        [RawEvent { kind: 1, code: 30, value: 1 }, RawEvent { kind: 0, code: 0, value: 0 }]
    );
}

#[test]
fn codes_are_those_of_the_input_subsystem() {
    let pairs = [
        (keys::KEY_0, KeyCode::KEY_0),
        (keys::KEY_1, KeyCode::KEY_1),
        (keys::KEY_2, KeyCode::KEY_2),
        (keys::KEY_3, KeyCode::KEY_3),
        (keys::KEY_4, KeyCode::KEY_4),
        (keys::KEY_5, KeyCode::KEY_5),
        (keys::KEY_6, KeyCode::KEY_6),
        (keys::KEY_7, KeyCode::KEY_7),
        (keys::KEY_8, KeyCode::KEY_8),
        (keys::KEY_9, KeyCode::KEY_9),
        (keys::KEY_A, KeyCode::KEY_A),
        (keys::KEY_B, KeyCode::KEY_B),
        (keys::KEY_C, KeyCode::KEY_C),
        (keys::KEY_D, KeyCode::KEY_D),
        (keys::KEY_E, KeyCode::KEY_E),
        (keys::KEY_F, KeyCode::KEY_F),
        (keys::KEY_U, KeyCode::KEY_U),
        (keys::KEY_SPACE, KeyCode::KEY_SPACE),
        (keys::KEY_ENTER, KeyCode::KEY_ENTER),
        (keys::KEY_TAB, KeyCode::KEY_TAB),
        (keys::KEY_LEFTSHIFT, KeyCode::KEY_LEFTSHIFT),
        (keys::KEY_RIGHTSHIFT, KeyCode::KEY_RIGHTSHIFT),
        (keys::KEY_LEFTCTRL, KeyCode::KEY_LEFTCTRL),
        (keys::KEY_RIGHTALT, KeyCode::KEY_RIGHTALT),
    ];
    for (code, key) in pairs {
        assert_eq!(code, key.0);
    }
    assert_eq!(keys::EV_KEY, EventType::KEY.0);
    assert_eq!(keys::EV_SYN, EventType::SYNCHRONIZATION.0);
    assert_eq!(keys::SYN_REPORT, SynchronizationCode::SYN_REPORT.0);
}
