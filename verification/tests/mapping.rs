use pepperx_uinput_helper::chord::{
    accepts_sequence, insert_preferred_sequence, sequence_rank, KeyChord,
};
use pepperx_uinput_helper::compose::{
    composed_char, dead_key_pairs, expand_dead_keys, ComposeOutcome, ComposeStatus, DeadKeyPair,
};
use pepperx_uinput_helper::keyboard::can_declare_keys;
use pepperx_uinput_helper::keymap::{
    classify_key, keycodes_to_read, levels_to_read, mod_bit, mod_combos, scan_layout, KeyBinding,
    KeyLevel, KeyReading, KeyRole, LayoutScan, ModCombo, MOD_INVALID,
};
use pepperx_uinput_helper::mapper::{
    build_char_mapper, build_hex_digit_map, hex_digit, resolve_stroke, CharMapper, CharStroke,
};
use std::collections::HashMap;

type Levels = (u32, [&'static str; 4]);

/// The French AZERTY layout: each key with what it gives plain, with Shift, with
/// AltGr and with both.
const FR: [Levels; 49] = [
    (9, ["\u{1b}", "\u{1b}", "\u{1b}", "\u{1b}"]),
    (10, ["&", "1", "¹", "¡"]),
    (11, ["é", "2", "~", "⅛"]),
    (12, ["\"", "3", "#", "£"]),
    (13, ["'", "4", "{", "$"]),
    (14, ["(", "5", "[", "⅜"]),
    (15, ["-", "6", "|", "⅝"]),
    (16, ["è", "7", "`", "⅞"]),
    (17, ["_", "8", "\\", "™"]),
    (18, ["ç", "9", "^", "±"]),
    (19, ["à", "0", "@", "°"]),
    (20, [")", "°", "]", "¿"]),
    (21, ["=", "+", "}", "dead_ogonek"]),
    (23, ["\t", "", "\t", ""]),
    (24, ["a", "A", "æ", "Æ"]),
    (25, ["z", "Z", "«", "<"]),
    (26, ["e", "E", "€", "¢"]),
    (27, ["r", "R", "¶", "®"]),
    (28, ["t", "T", "ŧ", "Ŧ"]),
    (29, ["y", "Y", "←", "¥"]),
    (30, ["u", "U", "↓", "↑"]),
    (31, ["i", "I", "→", "ı"]),
    (32, ["o", "O", "ø", "Ø"]),
    (33, ["p", "P", "þ", "Þ"]),
    (34, ["dead_circumflex", "dead_diaeresis", "dead_diaeresis", "dead_abovering"]),
    (35, ["$", "£", "¤", "dead_macron"]),
    (36, ["\r", "\r", "\r", "\r"]),
    (38, ["q", "Q", "@", "Ω"]),
    (39, ["s", "S", "ß", "ẞ"]),
    (40, ["d", "D", "ð", "Ð"]),
    (41, ["f", "F", "đ", "ª"]),
    (42, ["g", "G", "ŋ", "Ŋ"]),
    (43, ["h", "H", "ħ", "Ħ"]),
    (44, ["j", "J", "dead_hook", "dead_horn"]),
    (45, ["k", "K", "ĸ", "&"]),
    (46, ["l", "L", "ł", "Ł"]),
    (47, ["m", "M", "µ", "º"]),
    (48, ["ù", "%", "dead_circumflex", "dead_caron"]),
    (49, ["²", "~", "¬", "¬"]),
    (51, ["*", "µ", "dead_grave", "dead_breve"]),
    (52, ["w", "W", "ł", "Ł"]),
    (53, ["x", "X", "»", ">"]),
    (54, ["c", "C", "¢", "©"]),
    (55, ["v", "V", "„", "‚"]),
    (56, ["b", "B", "“", "‘"]),
    (57, ["n", "N", "”", "’"]),
    (58, [",", "?", "dead_acute", "dead_doubleacute"]),
    (60, [":", "/", "·", "÷"]),
    (65, [" ", " ", "", ""]),
];

/// The letters and digits of the US layout.
const US: [Levels; 37] = [
    (10, ["1", "!", "", ""]),
    (11, ["2", "@", "", ""]),
    (12, ["3", "#", "", ""]),
    (13, ["4", "$", "", ""]),
    (14, ["5", "%", "", ""]),
    (15, ["6", "^", "", ""]),
    (16, ["7", "&", "", ""]),
    (17, ["8", "*", "", ""]),
    (18, ["9", "(", "", ""]),
    (19, ["0", ")", "", ""]),
    (24, ["q", "Q", "", ""]),
    (25, ["w", "W", "", ""]),
    (26, ["e", "E", "", ""]),
    (27, ["r", "R", "", ""]),
    (28, ["t", "T", "", ""]),
    (29, ["y", "Y", "", ""]),
    (30, ["u", "U", "", ""]),
    (31, ["i", "I", "", ""]),
    (32, ["o", "O", "", ""]),
    (33, ["p", "P", "", ""]),
    (38, ["a", "A", "", ""]),
    (39, ["s", "S", "", ""]),
    (40, ["d", "D", "", ""]),
    (41, ["f", "F", "", ""]),
    (42, ["g", "G", "", ""]),
    (43, ["h", "H", "", ""]),
    (44, ["j", "J", "", ""]),
    (45, ["k", "K", "", ""]),
    (46, ["l", "L", "", ""]),
    (52, ["z", "Z", "", ""]),
    (53, ["x", "X", "", ""]),
    (54, ["c", "C", "", ""]),
    (55, ["v", "V", "", ""]),
    (56, ["b", "B", "", ""]),
    (57, ["n", "N", "", ""]),
    (58, ["m", "M", "", ""]),
    (65, [" ", " ", "", ""]),
];

fn dead_keysym(name: &str) -> u32 {
    match name {
        "dead_grave" => 0xfe50,
        "dead_acute" => 0xfe51,
        "dead_circumflex" => 0xfe52,
        "dead_macron" => 0xfe54,
        "dead_breve" => 0xfe55,
        "dead_diaeresis" => 0xfe57,
        "dead_abovering" => 0xfe58,
        "dead_doubleacute" => 0xfe59,
        "dead_caron" => 0xfe5a,
        "dead_ogonek" => 0xfe5c,
        "dead_hook" => 0xfe61,
        "dead_horn" => 0xfe62,
        _ => panic!("unknown dead key {name}"),
    }
}

fn reading(keycode: u32, value: &str) -> KeyReading {
    if value.is_empty() {
        KeyReading { keycode, keysym: 0, name: "NoSymbol".to_string(), utf32: 0 }
    } else if value.starts_with("dead_") {
        KeyReading { keycode, keysym: dead_keysym(value), name: value.to_string(), utf32: 0 }
    } else {
        let c = value.chars().next().unwrap() as u32;
        let keysym = if c < 0x20 {
            0xff00 + c
        } else if c < 0x100 {
            c
        } else {
            0x0100_0000 + c
        };
        KeyReading { keycode, keysym, name: format!("U{c:04X}"), utf32: c }
    }
}

/// Shift is the first modifier of a keymap, and the level 3 shift the eighth.
fn levels_of(keys: &[Levels]) -> Vec<KeyLevel> {
    mod_combos(0, 7)
        .into_iter()
        .enumerate()
        .map(|(level, combo)| KeyLevel {
            combo,
            keys: keys.iter().map(|(keycode, values)| reading(*keycode, values[level])).collect(),
        })
        .collect()
}

fn composed(dead: u32, base: u32) -> Option<&'static str> {
    let base = char::from_u32(base)?;
    match (dead, base) {
        (0xfe52, 'a') => Some("â"),
        (0xfe52, 'e') => Some("ê"),
        (0xfe52, 'i') => Some("î"),
        (0xfe52, 'o') => Some("ô"),
        (0xfe52, 'u') => Some("û"),
        (0xfe57, 'e') => Some("ë"),
        (0xfe57, 'i') => Some("ï"),
        (0xfe57, 'u') => Some("ü"),
        (0xfe50, 'e') => Some("è"),
        (0xfe51, 'e') => Some("é"),
        _ => None,
    }
}

fn outcome_of(pair: &DeadKeyPair) -> ComposeOutcome {
    match composed(pair.dead.keysym, pair.base.keysym) {
        Some(text) => ComposeOutcome {
            after_dead: ComposeStatus::Composing,
            after_base: ComposeStatus::Composed,
            utf8: Some(text.to_string()),
        },
        None => ComposeOutcome {
            after_dead: ComposeStatus::Composing,
            after_base: ComposeStatus::Cancelled,
            utf8: None,
        },
    }
}

fn mapper_and_count(layout: &str) -> (CharMapper, usize) {
    let levels = match layout {
        "fr" => levels_of(&FR),
        "us" => levels_of(&US),
        _ => panic!("unknown layout {layout}"),
    };
    let scan = scan_layout(&levels);
    let outcomes: Vec<ComposeOutcome> =
        dead_key_pairs(&scan.dead_keys, &scan.base_keysyms).iter().map(outcome_of).collect();
    build_char_mapper(scan, Some(&outcomes))
}

fn mapper_for_layout(layout: &str) -> CharMapper {
    mapper_and_count(layout).0
}

fn chord(keycode: u16, shift: bool, alt_gr: bool) -> KeyChord {
    KeyChord { keycode, shift, alt_gr }
}

fn chords_of(mapper: &CharMapper, c: char) -> Vec<KeyChord> {
    match resolve_stroke(mapper, c) {
        CharStroke::Chords(seq) => seq,
        CharStroke::UnicodeHex(cp) => panic!("{c} is not mapped (U+{cp:04X})"),
    }
}

#[test]
fn french_layout_maps_circumflex_e() {
    let mapper = mapper_for_layout("fr");
    // ê must be reachable (dead key ^ + e on basic AZERTY).
    let stroke = resolve_stroke(&mapper, 'ê');
    match stroke {
        CharStroke::Chords(seq) => {
            assert!(seq.len() >= 1, "ê should map to at least one chord, got {seq:?}");
            // Prefer real layout sequence over unicode when possible.
            assert!(
                seq.len() <= 2,
                "ê sequence should be short (direct or dead+base), got len {}",
                seq.len()
            );
        }
        CharStroke::UnicodeHex(cp) => {
            panic!("ê should be layout-mappable on fr, got unicode fallback U+{cp:04X}");
        }
    }
}

#[test]
fn french_layout_maps_common_accents() {
    let mapper = mapper_for_layout("fr");
    for ch in ['é', 'è', 'à', 'ù', 'ç', 'â', 'ê', 'î', 'ô', 'û', 'ë', 'ï', 'ü'] {
        match resolve_stroke(&mapper, ch) {
            CharStroke::Chords(seq) => assert!(!seq.is_empty(), "{ch} empty sequence"),
            CharStroke::UnicodeHex(_) => {
                // Dead-key expand may miss some depending on compose locale;
                // unicode fallback still types them.
            }
        }
        // All must resolve without error.
        let _ = resolve_stroke(&mapper, ch);
    }
    // Direct AZERTY base letters with accent keys:
    assert!(mapper.map.contains_key(&('é' as u32)), "é should be direct on fr");
    assert!(mapper.map.contains_key(&('è' as u32)), "è should be direct on fr");
    assert!(mapper.map.contains_key(&('à' as u32)), "à should be direct on fr");
    assert!(mapper.map.contains_key(&('ç' as u32)), "ç should be direct on fr");
    assert!(
        mapper.map.contains_key(&('ê' as u32)),
        "ê should be in map via dead keys on fr (got {} chars)",
        mapper.map.len()
    );
}

#[test]
fn any_unicode_resolves_via_hex_fallback() {
    let mapper = mapper_for_layout("us");
    for ch in ['😀', '中', 'ß', 'œ', '€'] {
        match resolve_stroke(&mapper, ch) {
            CharStroke::Chords(_) => {}
            CharStroke::UnicodeHex(cp) => assert_eq!(cp, ch as u32),
        }
    }
}

#[test]
fn apostrophe_phrase_fully_resolves_on_fr() {
    let mapper = mapper_for_layout("fr");
    let text = "C'est peut-être bon";
    for ch in text.chars() {
        let _ = resolve_stroke(&mapper, ch);
        // Must not panic; layout or unicode covers everything.
        match resolve_stroke(&mapper, ch) {
            CharStroke::Chords(seq) => assert!(!seq.is_empty(), "empty for {ch:?}"),
            CharStroke::UnicodeHex(_) => {}
        }
    }
    assert!(
        matches!(resolve_stroke(&mapper, 'ê'), CharStroke::Chords(_)),
        "ê in sample phrase must use layout chords on fr"
    );
}

#[test]
fn unmapped_characters_give_their_code_point() {
    let mapper = mapper_for_layout("us");
    assert!(matches!(resolve_stroke(&mapper, '😀'), CharStroke::UnicodeHex(0x1f600)));
    assert!(matches!(resolve_stroke(&mapper, '€'), CharStroke::UnicodeHex(0x20ac)));
}

#[test]
fn french_chords_are_the_simplest() {
    let mapper = mapper_for_layout("fr");
    assert_eq!(chords_of(&mapper, 'é'), vec![chord(3, false, false)]);
    assert_eq!(chords_of(&mapper, '2'), vec![chord(3, true, false)]);
    assert_eq!(chords_of(&mapper, '€'), vec![chord(18, false, true)]);
    // Two keys give '@' with AltGr: the first one read is kept.
    assert_eq!(chords_of(&mapper, '@'), vec![chord(11, false, true)]);
    // '°' needs both modifiers on one key and only Shift on another.
    assert_eq!(chords_of(&mapper, '°'), vec![chord(12, true, false)]);
    // 'µ' needs one modifier either way: Shift is read before AltGr.
    assert_eq!(chords_of(&mapper, 'µ'), vec![chord(43, true, false)]);
    // A dead key and its base, both without a modifier.
    assert_eq!(chords_of(&mapper, 'ê'), vec![chord(26, false, false), chord(18, false, false)]);
    // Shift for the dead key.
    assert_eq!(chords_of(&mapper, 'ë'), vec![chord(26, true, false), chord(18, false, false)]);
}

#[test]
fn dead_key_count_leaves_out_what_is_typed_directly() {
    // é and è compose too, but a single key types them.
    assert_eq!(mapper_and_count("fr").1, 8);
    assert_eq!(mapper_and_count("us").1, 0);
}

#[test]
fn space_newline_and_tab_are_always_mapped() {
    let empty: Vec<KeyLevel> = Vec::new();
    let (mapper, added) = build_char_mapper(scan_layout(&empty), None);
    assert_eq!(added, 0);
    assert_eq!(mapper.map.len(), 3);
    assert_eq!(chords_of(&mapper, ' '), vec![chord(57, false, false)]);
    assert_eq!(chords_of(&mapper, '\n'), vec![chord(28, false, false)]);
    assert_eq!(chords_of(&mapper, '\t'), vec![chord(15, false, false)]);
    let french = mapper_for_layout("fr");
    // Return gives a carriage return, which is a control character.
    assert_eq!(chords_of(&french, '\n'), vec![chord(28, false, false)]);
    assert!(!french.map.contains_key(&('\r' as u32)));
    assert!(!french.map.contains_key(&0x1b));
}

#[test]
fn hex_digits_come_from_the_layout_or_from_fallbacks() {
    let empty: HashMap<u32, Vec<KeyChord>> = HashMap::new();
    let hex = build_hex_digit_map(&empty);
    assert_eq!(hex.len(), 16);
    let codes: Vec<u16> =
        "0123456789abcdef".chars().map(|c| hex[&(c as u32)].keycode).collect();
    assert_eq!(codes, vec![11, 2, 3, 4, 5, 6, 7, 8, 9, 10, 30, 48, 46, 32, 18, 33]);

    let mapper = mapper_for_layout("fr");
    assert_eq!(mapper.hex_digits[&('0' as u32)], chord(11, true, false));
    assert_eq!(mapper.hex_digits[&('a' as u32)], chord(16, false, false));

    // A digit that takes two chords is of no use.
    let mut map: HashMap<u32, Vec<KeyChord>> = HashMap::new();
    map.insert('7' as u32, vec![chord(40, false, false), chord(41, false, false)]);
    map.insert('8' as u32, vec![chord(42, true, true)]);
    let hex = build_hex_digit_map(&map);
    assert_eq!(hex[&('7' as u32)], chord(8, false, false));
    assert_eq!(hex[&('8' as u32)], chord(42, true, true));
    assert_eq!(hex_digit(0), '0' as u32);
    assert_eq!(hex_digit(15), 'f' as u32);
}

#[test]
fn ranks_count_chords_first() {
    assert_eq!(sequence_rank(&[]), (0, 0));
    assert_eq!(sequence_rank(&[chord(1, true, true)]), (1, 2));
    assert_eq!(sequence_rank(&[chord(1, false, true), chord(2, true, true)]), (2, 3));
    let mut map: HashMap<u32, Vec<KeyChord>> = HashMap::new();
    let pair = vec![chord(5, false, false), chord(6, false, false)];
    assert!(insert_preferred_sequence(&mut map, 97, pair.clone()));
    assert!(!accepts_sequence(&map, 97, &pair));
    assert!(insert_preferred_sequence(&mut map, 97, vec![chord(7, true, true)]));
    assert!(!insert_preferred_sequence(&mut map, 97, vec![chord(8, true, true)]));
    assert!(!insert_preferred_sequence(&mut map, 97, pair));
    assert_eq!(map[&97], vec![chord(7, true, true)]);
    assert!(insert_preferred_sequence(&mut map, 97, vec![chord(9, false, true)]));
    assert_eq!(map[&97], vec![chord(9, false, true)]);
}

#[test]
fn modifier_bits() {
    assert_eq!(mod_bit(0), 1);
    assert_eq!(mod_bit(7), 128);
    assert_eq!(mod_bit(30), 1 << 30);
    assert_eq!(mod_bit(31), 0);
    assert_eq!(mod_bit(MOD_INVALID), 0);
}

#[test]
fn combos_leave_out_missing_modifiers() {
    let plain = ModCombo { mask: 0, shift: false, alt_gr: false };
    let shift = ModCombo { mask: 1, shift: true, alt_gr: false };
    let level3 = ModCombo { mask: 128, shift: false, alt_gr: true };
    let both = ModCombo { mask: 129, shift: true, alt_gr: true };
    assert_eq!(mod_combos(0, 7), vec![plain, shift, level3, both]);
    assert_eq!(mod_combos(0, MOD_INVALID), vec![plain, shift]);
    assert_eq!(mod_combos(MOD_INVALID, 7), vec![plain, level3]);
    assert_eq!(mod_combos(MOD_INVALID, 40), vec![plain]);
}

#[test]
fn keycodes_without_an_evdev_code_are_not_read() {
    assert_eq!(keycodes_to_read(8, 12), vec![9, 10, 11, 12]);
    assert_eq!(keycodes_to_read(0, 8), Vec::<u32>::new());
    assert_eq!(keycodes_to_read(20, 10), Vec::<u32>::new());
    assert_eq!(keycodes_to_read(65542, u32::MAX), vec![65542, 65543]);
    assert_eq!(keycodes_to_read(u32::MAX, u32::MAX), Vec::<u32>::new());
    assert_eq!(keycodes_to_read(8, 255).len(), 247);
}

#[test]
fn levels_are_read_plain_first() {
    let levels = levels_to_read(0, 7, 8, 11);
    let combos: Vec<ModCombo> = levels.iter().map(|level| level.combo).collect();
    assert_eq!(combos, mod_combos(0, 7));
    for level in &levels {
        let keycodes: Vec<u32> = level.keys.iter().map(|key| key.keycode).collect();
        assert_eq!(keycodes, vec![9, 10, 11]);
        assert!(level.keys.iter().all(|key| key.keysym == 0 && key.utf32 == 0));
    }
    assert_eq!(levels_to_read(0, MOD_INVALID, 8, 11).len(), 2);
    assert!(scan_layout(&levels).map.is_empty());
}

#[test]
fn the_plainest_chord_is_kept() {
    // 'x' with every kind of chord but a plain one; 'y' with AltGr and with both.
    let keys = [(20, ["a", "", "x", "y"]), (30, ["b", "x", "y", "x"]), (31, ["c", "x", "y", "x"])];
    let (mapper, _) = build_char_mapper(scan_layout(&levels_of(&keys)), None);
    assert_eq!(chords_of(&mapper, 'x'), vec![chord(22, true, false)]);
    assert_eq!(chords_of(&mapper, 'y'), vec![chord(22, false, true)]);
}

#[test]
fn the_plainest_dead_key_is_kept() {
    let keys = [
        (20, ["e", "", "dead_circumflex", "dead_circumflex"]),
        (30, ["a", "dead_circumflex", "", ""]),
        (31, ["b", "dead_circumflex", "", ""]),
    ];
    let scan = scan_layout(&levels_of(&keys));
    assert_eq!(scan.dead_keys, vec![KeyBinding { keysym: 0xfe52, chord: chord(22, true, false) }]);
    let outcomes: Vec<ComposeOutcome> =
        dead_key_pairs(&scan.dead_keys, &scan.base_keysyms).iter().map(outcome_of).collect();
    let (mapper, added) = build_char_mapper(scan, Some(&outcomes));
    assert_eq!(added, 2);
    assert_eq!(chords_of(&mapper, 'ê'), vec![chord(22, true, false), chord(12, false, false)]);
    // One chord with both modifiers goes before a dead key and its base.
    let keys = [(20, ["e", "", "", "ê"]), (30, ["dead_circumflex", "", "", ""])];
    let scan = scan_layout(&levels_of(&keys));
    let outcomes: Vec<ComposeOutcome> =
        dead_key_pairs(&scan.dead_keys, &scan.base_keysyms).iter().map(outcome_of).collect();
    let (mapper, added) = build_char_mapper(scan, Some(&outcomes));
    assert_eq!(added, 0);
    assert_eq!(chords_of(&mapper, 'ê'), vec![chord(12, true, true)]);
}

#[test]
fn mappers_hold_only_what_can_be_typed() {
    // Without a level 3 shift no chord holds AltGr.
    let levels: Vec<KeyLevel> = levels_of(&FR).into_iter().take(2).collect();
    assert_eq!(levels.iter().map(|level| level.combo).collect::<Vec<_>>(), mod_combos(0, MOD_INVALID));
    let (mapper, _) = build_char_mapper(scan_layout(&levels), None);
    assert!(mapper.map.values().flatten().all(|c| !c.alt_gr && c.keycode >= 1));
    assert!(mapper.hex_digits.values().all(|c| !c.alt_gr && c.keycode >= 1));
    for layout in ["fr", "us"] {
        for &code_point in mapper_for_layout(layout).map.keys() {
            let c = char::from_u32(code_point).unwrap();
            assert!(!c.is_control() || c == '\n' || c == '\t', "{c:?}");
        }
    }
}

#[test]
fn keys_are_classified() {
    let combo = ModCombo { mask: 1, shift: true, alt_gr: false };
    let bound = |keysym: u32, keycode: u16| KeyBinding { keysym, chord: chord(keycode, true, false) };
    assert_eq!(classify_key(combo, &reading(38, "A")), KeyRole::Types(65, bound(65, 30)));
    assert_eq!(
        classify_key(combo, &reading(34, "dead_diaeresis")),
        KeyRole::Dead(bound(0xfe57, 26))
    );
    assert_eq!(classify_key(combo, &reading(8, "A")), KeyRole::Unused);
    assert_eq!(classify_key(combo, &reading(65544, "A")), KeyRole::Unused);
    assert_eq!(classify_key(combo, &reading(65543, "A")), KeyRole::Types(65, bound(65, 65535)));
    assert_eq!(classify_key(combo, &reading(38, "")), KeyRole::Unused);
    assert_eq!(classify_key(combo, &reading(38, "\r")), KeyRole::Unused);
    assert_eq!(classify_key(combo, &reading(38, "\u{85}")), KeyRole::Unused);
    let arrow = KeyReading { keycode: 111, keysym: 0xff52, name: "Up".to_string(), utf32: 0 };
    assert_eq!(classify_key(combo, &arrow), KeyRole::Unused);
    let surrogate = KeyReading { keycode: 38, keysym: 5, name: "x".to_string(), utf32: 0xd800 };
    assert_eq!(classify_key(combo, &surrogate), KeyRole::Unused);
    let beyond = KeyReading { keycode: 38, keysym: 5, name: "x".to_string(), utf32: 0x11_0000 };
    assert_eq!(classify_key(combo, &beyond), KeyRole::Unused);
}

#[test]
fn scan_keeps_the_first_binding_of_each_keysym() {
    let scan = scan_layout(&levels_of(&FR));
    // dead_circumflex is on one key plain and on another with AltGr.
    let circumflex: Vec<&KeyBinding> =
        scan.dead_keys.iter().filter(|b| b.keysym == 0xfe52).collect();
    assert_eq!(circumflex, vec![&KeyBinding { keysym: 0xfe52, chord: chord(26, false, false) }]);
    let diaeresis: Vec<&KeyBinding> =
        scan.dead_keys.iter().filter(|b| b.keysym == 0xfe57).collect();
    assert_eq!(diaeresis, vec![&KeyBinding { keysym: 0xfe57, chord: chord(26, true, false) }]);
    assert_eq!(scan.base_keysyms.iter().filter(|b| b.keysym == '@' as u32).count(), 1);
    assert!(scan.map.values().all(|seq| seq.len() == 1));
}

#[test]
fn pairs_go_dead_key_by_dead_key() {
    let b = |keysym: u32| KeyBinding { keysym, chord: chord(keysym as u16, false, false) };
    let pairs = dead_key_pairs(&vec![b(1), b(2)], &vec![b(3), b(4)]);
    let keysyms: Vec<(u32, u32)> = pairs.iter().map(|p| (p.dead.keysym, p.base.keysym)).collect();
    assert_eq!(keysyms, vec![(1, 3), (1, 4), (2, 3), (2, 4)]);
    assert!(dead_key_pairs(&vec![], &vec![b(3)]).is_empty());
    assert!(dead_key_pairs(&vec![b(1)], &vec![]).is_empty());
}

fn outcome(after_dead: ComposeStatus, after_base: ComposeStatus, text: Option<&str>) -> ComposeOutcome {
    ComposeOutcome { after_dead, after_base, utf8: text.map(str::to_string) }
}

#[test]
fn only_complete_single_characters_are_composed() {
    let composing = ComposeStatus::Composing;
    let done = ComposeStatus::Composed;
    assert_eq!(composed_char(&outcome(composing, done, Some("ê"))), Some('ê' as u32));
    assert_eq!(composed_char(&outcome(composing, done, Some("\n"))), Some(10));
    assert_eq!(composed_char(&outcome(composing, done, Some("\u{7}"))), None);
    assert_eq!(composed_char(&outcome(composing, done, Some("e\u{302}"))), None);
    assert_eq!(composed_char(&outcome(composing, done, Some(""))), None);
    assert_eq!(composed_char(&outcome(composing, done, None)), None);
    assert_eq!(composed_char(&outcome(composing, ComposeStatus::Cancelled, Some("ê"))), None);
    assert_eq!(composed_char(&outcome(composing, composing, Some("ê"))), None);
    assert_eq!(composed_char(&outcome(ComposeStatus::Nothing, done, Some("ê"))), None);
    assert_eq!(composed_char(&outcome(done, done, Some("ê"))), None);
}

#[test]
fn expansion_counts_what_it_adds() {
    let dead = KeyBinding { keysym: 1, chord: chord(26, false, false) };
    let shifted = KeyBinding { keysym: 2, chord: chord(26, true, false) };
    let base = KeyBinding { keysym: 3, chord: chord(18, false, false) };
    let mut map: HashMap<u32, Vec<KeyChord>> = HashMap::new();
    let yes = || outcome(ComposeStatus::Composing, ComposeStatus::Composed, Some("ê"));
    // The shifted dead key comes first, and the plain one improves on it.
    let added = expand_dead_keys(&vec![shifted, dead], &vec![base], &vec![yes(), yes()], &mut map);
    assert_eq!(added, 2);
    assert_eq!(map[&('ê' as u32)], vec![dead.chord, base.chord]);
    let again = expand_dead_keys(&vec![shifted, dead], &vec![base], &vec![yes(), yes()], &mut map);
    assert_eq!(again, 0);
}

#[test]
fn a_filled_table_keeps_what_no_offer_improves() {
    let dead = KeyBinding { keysym: 1, chord: chord(26, false, false) };
    let plain = KeyBinding { keysym: 3, chord: chord(18, false, false) };
    let shifted = KeyBinding { keysym: 4, chord: chord(18, true, false) };
    let yes = || outcome(ComposeStatus::Composing, ComposeStatus::Composed, Some("ê"));
    let bases = vec![shifted, plain];
    let expand = |kept: Vec<KeyChord>| {
        let mut map: HashMap<u32, Vec<KeyChord>> = HashMap::new();
        map.insert('ê' as u32, kept);
        let added = expand_dead_keys(&vec![dead], &bases, &vec![yes(), yes()], &mut map);
        (added, map.remove(&('ê' as u32)).unwrap())
    };
    // One chord, and two that rank with the best offer: both stay.
    assert_eq!(expand(vec![chord(9, true, true)]), (0, vec![chord(9, true, true)]));
    let pair = vec![chord(7, false, false), chord(8, false, false)];
    assert_eq!(expand(pair.clone()), (0, pair));
    // Two that rank with the first offer give way to the second alone.
    let costly = vec![chord(7, false, true), chord(8, false, false)];
    assert_eq!(expand(costly), (1, vec![dead.chord, plain.chord]));
}

#[test]
fn without_compositions_dead_keys_add_nothing() {
    let scan = scan_layout(&levels_of(&FR));
    let direct = scan.map.len();
    let LayoutScan { map, base_keysyms, dead_keys } = scan;
    assert!(!dead_keys.is_empty() && !base_keysyms.is_empty());
    let (mapper, added) = build_char_mapper(LayoutScan { map, base_keysyms, dead_keys }, None);
    assert_eq!(added, 0);
    // Newline is all that the layout itself lacks.
    assert_eq!(mapper.map.len(), direct + 1);
    assert!(matches!(resolve_stroke(&mapper, 'ê'), CharStroke::UnicodeHex(0xea)));
}

#[test]
fn ordinary_layouts_can_be_declared() {
    assert!(can_declare_keys(&mapper_for_layout("fr")));
    assert!(can_declare_keys(&mapper_for_layout("us")));
    // XKB keycode 775 is the last one with a key code that a device has.
    let (mapper, _) = build_char_mapper(scan_layout(&levels_of(&[(775, ["x", "", "", ""])])), None);
    assert!(can_declare_keys(&mapper));
    let (mapper, _) = build_char_mapper(scan_layout(&levels_of(&[(776, ["x", "", "", ""])])), None);
    assert!(!can_declare_keys(&mapper));
}

#[test]
fn built_mappers_have_short_sequences_only() {
    for layout in ["fr", "us"] {
        let mapper = mapper_for_layout(layout);
        assert!(mapper.map.values().all(|seq| seq.len() == 1 || seq.len() == 2));
        for c in [' ', '\n', '\t'] {
            assert!(mapper.map.contains_key(&(c as u32)));
        }
        assert_eq!(mapper.hex_digits.len(), 16);
    }
}
