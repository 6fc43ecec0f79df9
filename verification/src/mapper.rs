//! The mapper from characters to key strokes.

use std::collections::HashMap;
use vstd::prelude::*;

use crate::chord::{
    after_offers, has_short_sequences, is_best_offer, is_offered, lemma_best_offer_wins,
    lemma_offers_concat, lemma_short_sequences, offers_taken, sequences, KeyChord, Offer,
};
use crate::compose::{
    composed_offers, expand_dead_keys, key_pairs, lemma_composed_offers, ComposeOutcome,
};
use crate::keymap::{base_bindings, dead_bindings, direct_offers, scans, KeyRole, LayoutScan};
use crate::keys::{
    KEY_0, KEY_1, KEY_2, KEY_3, KEY_4, KEY_5, KEY_6, KEY_7, KEY_8, KEY_9, KEY_A, KEY_B, KEY_C,
    KEY_D, KEY_E, KEY_ENTER, KEY_F, KEY_SPACE, KEY_TAB,
};

verus! {

broadcast use vstd::std_specs::hash::group_hash_axioms;

/// How to emit one character: layout chord sequence, or Unicode hex entry.
#[derive(Debug, Clone)]
pub enum CharStroke {
    /// One or more chords (single key, or dead-key + base).
    Chords(Vec<KeyChord>),
    /// Ctrl+Shift+U hex codepoint entry (GNOME/IBus/GTK).
    UnicodeHex(u32),
}

/// The key strokes of a layout. Characters are given by their code points.
pub struct CharMapper {
    /// Preferred layout-based sequences (shortest wins at build time).
    pub map: HashMap<u32, Vec<KeyChord>>,
    /// Digits/letters needed for Unicode hex entry.
    pub hex_digits: HashMap<u32, KeyChord>,
}

/// The chord of a key with no modifier.
pub open spec fn plain_chord(keycode: u16) -> KeyChord {
    KeyChord { keycode, shift: false, alt_gr: false }
}

/// A table with the plain chord of a key for a character that it lacks.
pub open spec fn with_default(
    table: Map<u32, Seq<KeyChord>>,
    c: char,
    keycode: u16,
) -> Map<u32, Seq<KeyChord>> {
    if table.contains_key(c as u32) {
        table
    } else {
        table.insert(c as u32, seq![plain_chord(keycode)])
    }
}

/// A table with entries for space, newline and tab, whatever the layout has.
pub open spec fn with_essentials(table: Map<u32, Seq<KeyChord>>) -> Map<u32, Seq<KeyChord>> {
    with_default(
        with_default(with_default(table, ' ', KEY_SPACE), '\n', KEY_ENTER),
        '\t',
        KEY_TAB,
    )
}

/// Whether a code point is that of a lower-case hex digit.
pub open spec fn is_hex_digit(code_point: u32) -> bool {
    '0' as u32 <= code_point <= '9' as u32 || 'a' as u32 <= code_point <= 'f' as u32
}

/// The code point of the hex digit with a value below 16.
pub open spec fn hex_digit_spec(value: nat) -> u32 {
    if value < 10 {
        ('0' as u32 + value) as u32
    } else {
        ('a' as u32 + (value - 10)) as u32
    }
}

/// The key that types a hex digit on a plain keyboard.
pub open spec fn hex_key(code_point: u32) -> u16 {
    if code_point == '0' as u32 {
        KEY_0
    } else if '1' as u32 <= code_point <= '9' as u32 {
        (KEY_1 + (code_point - '1' as u32)) as u16
    } else if code_point == 'a' as u32 {
        KEY_A
    } else if code_point == 'b' as u32 {
        KEY_B
    } else if code_point == 'c' as u32 {
        KEY_C
    } else if code_point == 'd' as u32 {
        KEY_D
    } else if code_point == 'e' as u32 {
        KEY_E
    } else {
        KEY_F
    }
}

/// The chord for a hex digit: the layout's, where it takes one chord only, or else
/// that of a plain keyboard.
pub open spec fn hex_chord(table: Map<u32, Seq<KeyChord>>, code_point: u32) -> KeyChord {
    if table.contains_key(code_point) && table[code_point].len() == 1 {
        table[code_point][0]
    } else {
        plain_chord(hex_key(code_point))
    }
}

/// The chords for the sixteen hex digits.
pub open spec fn hex_chords(table: Map<u32, Seq<KeyChord>>) -> Map<u32, KeyChord> {
    Map::new(|code_point: u32| is_hex_digit(code_point), |code_point: u32| hex_chord(table, code_point))
}

/// What a table holds once the compositions are added, where they are known.
pub open spec fn with_compositions(scan: LayoutScan, outcomes: Option<&Vec<ComposeOutcome>>) -> Map<
    u32,
    Seq<KeyChord>,
> {
    match outcomes {
        Some(outcomes) => after_offers(sequences(scan.map@), scan_offers(scan, outcomes@)),
        None => sequences(scan.map@),
    }
}

/// What the compositions of the dead keys of a scan offer.
pub open spec fn scan_offers(scan: LayoutScan, outcomes: Seq<ComposeOutcome>) -> Seq<Offer> {
    composed_offers(key_pairs(scan.dead_keys@, scan.base_keysyms@), outcomes)
}

impl CharMapper {
    /// What the layout types, by code point.
    pub open spec fn table(self) -> Map<u32, Seq<KeyChord>> {
        sequences(self.map@)
    }

    /// Every sequence is a single chord or a dead key and its base; space, newline
    /// and tab can be typed; and so can every hex digit.
    pub open spec fn well_formed(self) -> bool {
        &&& has_short_sequences(self.table())
        &&& self.table().contains_key(' ' as u32)
        &&& self.table().contains_key('\n' as u32)
        &&& self.table().contains_key('\t' as u32)
        &&& forall|code_point: u32| #[trigger]
            self.hex_digits@.contains_key(code_point) == is_hex_digit(code_point)
    }
}

/// The code point of a hex digit.
pub fn hex_digit(value: u32) -> (code_point: u32)
    requires
        value < 16,
    ensures
        code_point == hex_digit_spec(value as nat),
        is_hex_digit(code_point),
{
    if value < 10 {
        '0' as u32 + value
    } else {
        'a' as u32 + (value - 10)
    }
}

/// The key of a hex digit on a plain keyboard.
fn fallback_key(value: u32) -> (keycode: u16)
    requires
        value < 16,
    ensures
        keycode == hex_key(hex_digit_spec(value as nat)),
{
    match value {
        0 => KEY_0,
        1 => KEY_1,
        2 => KEY_2,
        3 => KEY_3,
        4 => KEY_4,
        5 => KEY_5,
        6 => KEY_6,
        7 => KEY_7,
        8 => KEY_8,
        9 => KEY_9,
        10 => KEY_A,
        11 => KEY_B,
        12 => KEY_C,
        13 => KEY_D,
        14 => KEY_E,
        _ => KEY_F,
    }
}

/// The chords to type hex digits with: those of the layout, and hard fallbacks
/// where the layout has none that is a single chord.
pub fn build_hex_digit_map(map: &HashMap<u32, Vec<KeyChord>>) -> (hex: HashMap<u32, KeyChord>)
    ensures
        hex@ == hex_chords(sequences(map@)),
{
    let ghost table = sequences(map@);
    let mut hex: HashMap<u32, KeyChord> = HashMap::new();
    let mut value: u32 = 0;
    while value < 16
        invariant
            value <= 16,
            table == sequences(map@),
            forall|code_point: u32| #[trigger]
                hex@.contains_key(code_point) <==> exists|v: nat|
                    v < value && code_point == #[trigger] hex_digit_spec(v),
            forall|code_point: u32| #[trigger]
                hex@.contains_key(code_point) ==> hex@[code_point] == hex_chord(table, code_point),
        decreases 16 - value,
    {
        let code_point = hex_digit(value);
        let mut chord = KeyChord { keycode: fallback_key(value), shift: false, alt_gr: false };
        match map.get(&code_point) {
            Some(seq) => {
                if seq.len() == 1 {
                    chord = seq[0];
                }
            },
            None => {},
        }
        let ghost before = hex@;
        hex.insert(code_point, chord);
        proof {
            assert(chord == hex_chord(table, code_point));
            assert forall|c: u32| #[trigger] hex@.contains_key(c) <==> exists|v: nat|
                v < value + 1 && c == #[trigger] hex_digit_spec(v) by {
                if hex@.contains_key(c) {
                    if c == code_point {
                        assert(c == hex_digit_spec(value as nat));
                    } else {
                        assert(before.contains_key(c));
                    }
                }
                if exists|v: nat| v < value + 1 && c == #[trigger] hex_digit_spec(v) {
                    let v = choose|v: nat| v < value + 1 && c == #[trigger] hex_digit_spec(v);
                    if v < value {
                        assert(before.contains_key(c));
                    }
                }
            }
        }
        value = value + 1;
    }
    proof {
        assert forall|c: u32| #[trigger] hex@.contains_key(c) == is_hex_digit(c) by {
            if is_hex_digit(c) {
                let v = if c <= '9' as u32 {
                    (c - '0' as u32) as nat
                } else {
                    (c - 'a' as u32 + 10) as nat
                };
                assert(c == hex_digit_spec(v));
            }
        }
        assert(hex@ =~= hex_chords(table));
    }
    hex
}

/// Gives a character the plain chord of a key, where the table lacks it.
fn ensure_mapped(map: &mut HashMap<u32, Vec<KeyChord>>, c: char, keycode: u16)
    ensures
        sequences(final(map)@) == with_default(sequences(old(map)@), c, keycode),
{
    if !map.contains_key(&(c as u32)) {
        let mut seq: Vec<KeyChord> = Vec::new();
        seq.push(KeyChord { keycode, shift: false, alt_gr: false });
        map.insert(c as u32, seq);
        proof {
            assert(seq@ =~= seq![plain_chord(keycode)]);
            assert(sequences(map@) =~= sequences(old(map)@).insert(c as u32, seq@));
        }
    }
}

/// Builds the mapper of a layout, and counts the dead-key sequences in it.
///
/// `outcomes` holds what each dead key composes with each base key, in the order
/// of `dead_key_pairs`; `None` where no compose table is to be had.
pub fn build_char_mapper(scan: LayoutScan, outcomes: Option<&Vec<ComposeOutcome>>) -> (built: (
    CharMapper,
    usize,
))
    requires
        outcomes matches Some(outcomes) ==> outcomes@.len() == key_pairs(
            scan.dead_keys@,
            scan.base_keysyms@,
        ).len(),
    ensures
        built.0.table() == with_essentials(with_compositions(scan, outcomes)),
        built.0.hex_digits@ == hex_chords(built.0.table()),
        built.1 == match outcomes {
            Some(outcomes) => offers_taken(sequences(scan.map@), scan_offers(scan, outcomes@)),
            None => 0,
        },
        has_short_sequences(sequences(scan.map@)) ==> built.0.well_formed(),
{
    let LayoutScan { map, base_keysyms, dead_keys } = scan;
    let mut map = map;
    let added: usize = match outcomes {
        Some(outcomes) => expand_dead_keys(&dead_keys, &base_keysyms, outcomes, &mut map),
        None => 0,
    };
    ensure_mapped(&mut map, ' ', KEY_SPACE);
    ensure_mapped(&mut map, '\n', KEY_ENTER);
    ensure_mapped(&mut map, '\t', KEY_TAB);
    let hex_digits = build_hex_digit_map(&map);
    proof {
        if has_short_sequences(sequences(scan.map@)) {
            if let Some(outcomes) = outcomes {
                lemma_composed_offers(
                    key_pairs(scan.dead_keys@, scan.base_keysyms@),
                    outcomes@,
                );
                lemma_short_sequences(sequences(scan.map@), scan_offers(scan, outcomes@));
            }
        }
    }
    (CharMapper { map, hex_digits }, added)
}

/// How to type a character: with the layout's chords where it has any, and by
/// Unicode hex entry otherwise.
pub fn resolve_stroke(mapper: &CharMapper, ch: char) -> (stroke: CharStroke)
    ensures
        match stroke {
            CharStroke::Chords(seq) => mapper.table().contains_key(ch as u32) && seq@
                == mapper.table()[ch as u32],
            CharStroke::UnicodeHex(code_point) => !mapper.table().contains_key(ch as u32)
                && code_point == ch as u32,
        },
        match stroke {
            CharStroke::Chords(seq) => mapper.map@.contains_key(ch as u32) && seq@
                == mapper.map@[ch as u32]@,
            CharStroke::UnicodeHex(code_point) => !mapper.map@.contains_key(ch as u32)
                && code_point == ch as u32,
        },
        mapper.well_formed() ==> (stroke matches CharStroke::Chords(seq) ==> 1 <= seq@.len() <= 2),
{
    match mapper.map.get(&(ch as u32)) {
        Some(seq) => {
            let copy = seq.clone();
            proof {
                assert(copy@ =~= seq@);
            }
            CharStroke::Chords(copy)
        },
        None => CharStroke::UnicodeHex(ch as u32),
    }
}

/// What a layout offers for its characters: the single chords of its keys first,
/// then the compositions of its dead keys.
pub open spec fn layout_offers(roles: Seq<KeyRole>, outcomes: Option<&Vec<ComposeOutcome>>) -> Seq<
    Offer,
> {
    match outcomes {
        Some(outcomes) => direct_offers(roles) + composed_offers(
            key_pairs(dead_bindings(roles), base_bindings(roles)),
            outcomes@,
        ),
        None => direct_offers(roles),
    }
}

/// The key that types a character whatever the layout, where there is one.
pub open spec fn essential_key(code_point: u32) -> Option<u16> {
    if code_point == ' ' as u32 {
        Some(KEY_SPACE)
    } else if code_point == '\n' as u32 {
        Some(KEY_ENTER)
    } else if code_point == '\t' as u32 {
        Some(KEY_TAB)
    } else {
        None
    }
}

/// The simplest stroke wins: a character that the layout offers a sequence for is
/// typed with the earliest of those with the fewest chords and, of these, the
/// fewest modifiers. Of the others only space, newline and tab are mapped, each to
/// its own key.
pub proof fn lemma_simplest_stroke_wins(
    scan: LayoutScan,
    roles: Seq<KeyRole>,
    outcomes: Option<&Vec<ComposeOutcome>>,
    code_point: u32,
)
    requires
        scans(scan, roles),
    ensures
        ({
            let table = with_essentials(with_compositions(scan, outcomes));
            let offers = layout_offers(roles, outcomes);
            if is_offered(offers, code_point) {
                &&& table.contains_key(code_point)
                &&& exists|i: int| #[trigger]
                    is_best_offer(offers, code_point, i) && table[code_point] == offers[i].seq
            } else {
                match essential_key(code_point) {
                    Some(keycode) => table.contains_key(code_point) && table[code_point] == seq![
                        plain_chord(keycode),
                    ],
                    None => !table.contains_key(code_point),
                }
            }
        }),
{
    let offers = layout_offers(roles, outcomes);
    lemma_best_offer_wins(Map::empty(), offers, code_point);
    if let Some(outcomes) = outcomes {
        lemma_offers_concat(Map::empty(), direct_offers(roles), scan_offers(scan, outcomes@));
    }
    assert(with_compositions(scan, outcomes) == after_offers(Map::empty(), offers));
}

} // verus!
