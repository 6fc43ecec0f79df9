//! The virtual keyboard: the keys it declares and the events it sends.

use std::collections::HashMap;
use vstd::prelude::*;

use crate::chord::{sequences, KeyChord};
use crate::keys::{
    EV_KEY, EV_SYN, KEY_0, KEY_1, KEY_2, KEY_3, KEY_4, KEY_5, KEY_6, KEY_7, KEY_8, KEY_9, KEY_A,
    KEY_B, KEY_C, KEY_COUNT, KEY_D, KEY_E, KEY_ENTER, KEY_F, KEY_LEFTCTRL, KEY_LEFTSHIFT,
    KEY_RIGHTALT, KEY_RIGHTSHIFT, KEY_SPACE, KEY_TAB, KEY_U, SYN_REPORT,
};
use crate::mapper::CharMapper;

verus! {

broadcast use vstd::std_specs::hash::group_hash_axioms;

/// A set of key codes, as the device builder takes it.
#[verifier::external_body]
pub struct KeySet {
    keys: evdev::AttributeSet<evdev::KeyCode>,
}

/// The key codes that a set holds.
pub uninterp spec fn key_set_codes(set: KeySet) -> Set<u16>;

/// Calls `evdev::AttributeSet::new`, which makes a set that holds nothing.
#[verifier::external_body]
fn new_key_set() -> (set: KeySet)
    ensures
        key_set_codes(set) == Set::<u16>::empty(),
{
    KeySet { keys: evdev::AttributeSet::new() }
}

/// Calls `evdev::AttributeSetRef::insert`, which sets the bit of one key code and
/// leaves the others as they are. The set has a bit for each code below
/// `KEY_COUNT`, and inserting any other code panics.
#[verifier::external_body]
fn insert_key(set: &mut KeySet, code: u16)
    requires
        code < KEY_COUNT,
    ensures
        key_set_codes(*final(set)) == key_set_codes(*old(set)).insert(code),
{
    set.keys.insert(evdev::KeyCode::new(code));
}

/// Calls `evdev::AttributeSetRef::iter`, which goes through the bits that are set
/// from the lowest code to the highest.
#[verifier::external_body]
fn list_keys(set: &KeySet) -> (codes: Vec<u16>)
    ensures
        forall|i: int, j: int| 0 <= i < j < codes@.len() ==> codes@[i] < codes@[j],
        forall|code: u16| #[trigger] codes@.contains(code) == key_set_codes(*set).contains(code),
{
    set.keys.iter().map(|key| key.0).collect()
}

/// Whether a sequence presses a key, other than to hold a modifier.
pub open spec fn sequence_uses(seq: Seq<KeyChord>, code: u16) -> bool {
    exists|i: int| 0 <= i < seq.len() && (#[trigger] seq[i]).keycode == code
}

/// Whether a table of sequences uses a key.
pub open spec fn table_uses(table: Map<u32, Seq<KeyChord>>, code: u16) -> bool {
    exists|code_point: u32| #[trigger]
        table.contains_key(code_point) && sequence_uses(table[code_point], code)
}

/// Whether the chords for the hex digits use a key.
pub open spec fn hex_uses(hex: Map<u32, KeyChord>, code: u16) -> bool {
    exists|code_point: u32| #[trigger]
        hex.contains_key(code_point) && hex[code_point].keycode == code
}

/// Whether a key is declared whatever the layout: the modifiers, the keys of
/// Unicode entry, Enter and Tab, and the keys of the hex digits.
pub open spec fn is_standing_key(code: u16) -> bool {
    ||| code == KEY_LEFTSHIFT
    ||| code == KEY_RIGHTSHIFT
    ||| code == KEY_LEFTCTRL
    ||| code == KEY_RIGHTALT
    ||| code == KEY_U
    ||| code == KEY_SPACE
    ||| code == KEY_ENTER
    ||| code == KEY_TAB
    ||| KEY_1 <= code <= KEY_0
    ||| code == KEY_A
    ||| code == KEY_B
    ||| code == KEY_C
    ||| code == KEY_D
    ||| code == KEY_E
    ||| code == KEY_F
}

/// Whether the keyboard of a mapper declares a key.
pub open spec fn is_keyboard_key(mapper: CharMapper, code: u16) -> bool {
    ||| table_uses(mapper.table(), code)
    ||| hex_uses(mapper.hex_digits@, code)
    ||| is_standing_key(code)
}

/// Whether a device can declare all the keys that a mapper uses.
pub open spec fn keys_in_range(mapper: CharMapper) -> bool {
    &&& forall|code: u16| #[trigger] table_uses(mapper.table(), code) ==> code < KEY_COUNT
    &&& forall|code: u16| #[trigger] hex_uses(mapper.hex_digits@, code) ==> code < KEY_COUNT
}

/// An event as the input subsystem knows it.
#[derive(Debug, Clone, Copy, PartialEq, Eq, Structural)]
pub struct RawEvent {
    pub kind: u16,
    pub code: u16,
    pub value: i32,
}

/// The events to send for a key event: the event itself, and the end of the report.
pub fn key_events(key: u16, value: i32) -> (events: [RawEvent; 2])
    ensures
        events@ == seq![
            RawEvent { kind: EV_KEY, code: key, value },
            RawEvent { kind: EV_SYN, code: SYN_REPORT, value: 0 },
        ],
{
    let events = [
        RawEvent { kind: EV_KEY, code: key, value },
        RawEvent { kind: EV_SYN, code: SYN_REPORT, value: 0 },
    ];
    proof {
        assert(events@ =~= seq![
            RawEvent { kind: EV_KEY, code: key, value },
            RawEvent { kind: EV_SYN, code: SYN_REPORT, value: 0 },
        ]);
    }
    events
}

/// Adds the keys that a keyboard declares whatever the layout.
fn insert_standing_keys(set: &mut KeySet)
    ensures
        forall|code: u16| #[trigger]
            key_set_codes(*final(set)).contains(code) == (key_set_codes(*old(set)).contains(code)
                || is_standing_key(code)),
{
    // Modifiers + Unicode entry helpers
    insert_key(set, KEY_LEFTSHIFT);
    insert_key(set, KEY_RIGHTSHIFT);
    insert_key(set, KEY_LEFTCTRL);
    insert_key(set, KEY_RIGHTALT);
    insert_key(set, KEY_U);
    insert_key(set, KEY_SPACE);
    insert_key(set, KEY_ENTER);
    insert_key(set, KEY_TAB);

    // Full set of hex digits so Unicode entry works even if the layout map was sparse.
    insert_key(set, KEY_0);
    insert_key(set, KEY_1);
    insert_key(set, KEY_2);
    insert_key(set, KEY_3);
    insert_key(set, KEY_4);
    insert_key(set, KEY_5);
    insert_key(set, KEY_6);
    insert_key(set, KEY_7);
    insert_key(set, KEY_8);
    insert_key(set, KEY_9);
    insert_key(set, KEY_A);
    insert_key(set, KEY_B);
    insert_key(set, KEY_C);
    insert_key(set, KEY_D);
    insert_key(set, KEY_E);
    insert_key(set, KEY_F);
}

/// A list with one more item holds that item and what it held before.
proof fn lemma_push_contains(list: Seq<u16>, item: u16)
    ensures
        forall|code: u16| #[trigger]
            list.push(item).contains(code) == (list.contains(code) || code == item),
{
    let more = list.push(item);
    assert forall|code: u16| #[trigger] more.contains(code) == (list.contains(code) || code
        == item) by {
        assert(more[list.len() as int] == item);
        if list.contains(code) {
            let k = choose|k: int| 0 <= k < list.len() && list[k] == code;
            assert(more[k] == code);
        }
    }
}

/// Lists the keys of a chord sequence.
fn list_sequence_keys(codes: &mut Vec<u16>, seq: &Vec<KeyChord>)
    ensures
        forall|code: u16| #[trigger]
            final(codes)@.contains(code) == (old(codes)@.contains(code) || sequence_uses(seq@, code)),
{
    let mut i: usize = 0;
    while i < seq.len()
        invariant
            i <= seq@.len(),
            forall|code: u16| #[trigger]
                codes@.contains(code) == (old(codes)@.contains(code) || exists|k: int|
                    0 <= k < i && (#[trigger] seq@[k]).keycode == code),
        decreases seq@.len() - i,
    {
        proof {
            lemma_push_contains(codes@, seq@[i as int].keycode);
        }
        codes.push(seq[i].keycode);
        i = i + 1;
    }
}

/// Lists the keys that a table of sequences uses.
fn list_table_keys(codes: &mut Vec<u16>, map: &HashMap<u32, Vec<KeyChord>>)
    ensures
        forall|code: u16| #[trigger]
            final(codes)@.contains(code) == (old(codes)@.contains(code) || table_uses(
                sequences(map@),
                code,
            )),
{
    let ghost table = sequences(map@);
    let values = map.values();
    let ghost all = vstd::std_specs::iter::IteratorSpec::remaining(&values).unref();
    let ghost mut n: int = 0;
    for seq in it: values
        invariant
            it.seq().unref() == all,
            all.to_set() == map@.values(),
            n == it.index(),
            0 <= n <= all.len(),
            forall|code: u16| #[trigger]
                codes@.contains(code) == (old(codes)@.contains(code) || exists|k: int|
                    0 <= k < n && sequence_uses((#[trigger] all[k])@, code)),
    {
        let ghost before = codes@;
        proof {
            assert(it.seq().unref()[n] == *seq);
        }
        list_sequence_keys(codes, seq);
        proof {
            assert forall|code: u16| #[trigger]
                codes@.contains(code) == (old(codes)@.contains(code) || exists|k: int|
                    0 <= k < n + 1 && sequence_uses((#[trigger] all[k])@, code)) by {
                assert(before.contains(code) == (old(codes)@.contains(code) || exists|k: int|
                    0 <= k < n && sequence_uses((#[trigger] all[k])@, code)));
                if sequence_uses(seq@, code) {
                    assert(sequence_uses(all[n]@, code));
                }
            }
            n = n + 1;
        }
    }
    proof {
        assert(n == all.len());
        assert forall|code: u16| #[trigger] table_uses(table, code) == exists|k: int|
            0 <= k < all.len() && sequence_uses((#[trigger] all[k])@, code) by {
            if table_uses(table, code) {
                let code_point = choose|code_point: u32| #[trigger]
                    table.contains_key(code_point) && sequence_uses(table[code_point], code);
                assert(map@.contains_key(code_point));
                assert(map@.values().contains(map@[code_point]));
                let k = choose|k: int| 0 <= k < all.len() && all[k] == map@[code_point];
                assert(sequence_uses(all[k]@, code));
            }
            if exists|k: int| 0 <= k < all.len() && sequence_uses((#[trigger] all[k])@, code) {
                let k = choose|k: int|
                    0 <= k < all.len() && sequence_uses((#[trigger] all[k])@, code);
                assert(all.to_set().contains(all[k]));
                let code_point = choose|code_point: u32| #[trigger]
                    map@.contains_key(code_point) && map@[code_point] == all[k];
                assert(table.contains_key(code_point) && sequence_uses(table[code_point], code));
            }
        }
    }
}

/// Lists the keys that the chords for the hex digits use.
fn list_hex_keys(codes: &mut Vec<u16>, hex: &HashMap<u32, KeyChord>)
    ensures
        forall|code: u16| #[trigger]
            final(codes)@.contains(code) == (old(codes)@.contains(code) || hex_uses(hex@, code)),
{
    let values = hex.values();
    let ghost all = vstd::std_specs::iter::IteratorSpec::remaining(&values).unref();
    let ghost mut n: int = 0;
    for chord in it: values
        invariant
            it.seq().unref() == all,
            all.to_set() == hex@.values(),
            n == it.index(),
            0 <= n <= all.len(),
            forall|code: u16| #[trigger]
                codes@.contains(code) == (old(codes)@.contains(code) || exists|k: int|
                    0 <= k < n && (#[trigger] all[k]).keycode == code),
    {
        proof {
            assert(it.seq().unref()[n] == *chord);
            lemma_push_contains(codes@, chord.keycode);
        }
        codes.push(chord.keycode);
        proof {
            n = n + 1;
        }
    }
    proof {
        assert(n == all.len());
        assert forall|code: u16| #[trigger] hex_uses(hex@, code) == exists|k: int|
            0 <= k < all.len() && (#[trigger] all[k]).keycode == code by {
            if hex_uses(hex@, code) {
                let code_point = choose|code_point: u32| #[trigger]
                    hex@.contains_key(code_point) && hex@[code_point].keycode == code;
                assert(hex@.values().contains(hex@[code_point]));
                let k = choose|k: int| 0 <= k < all.len() && all[k] == hex@[code_point];
                assert(all[k].keycode == code);
            }
            if exists|k: int| 0 <= k < all.len() && (#[trigger] all[k]).keycode == code {
                let k = choose|k: int| 0 <= k < all.len() && (#[trigger] all[k]).keycode == code;
                assert(all.to_set().contains(all[k]));
                let code_point = choose|code_point: u32| #[trigger]
                    hex@.contains_key(code_point) && hex@[code_point] == all[k];
                assert(hex@[code_point].keycode == code);
            }
        }
    }
}

/// The keys that a mapper uses, some perhaps more than once.
fn used_keys(mapper: &CharMapper) -> (codes: Vec<u16>)
    ensures
        forall|code: u16| #[trigger]
            codes@.contains(code) == (table_uses(mapper.table(), code) || hex_uses(
                mapper.hex_digits@,
                code,
            )),
{
    let mut codes: Vec<u16> = Vec::new();
    list_table_keys(&mut codes, &mapper.map);
    list_hex_keys(&mut codes, &mapper.hex_digits);
    codes
}

/// Whether a device can declare all the keys that a mapper uses.
pub fn can_declare_keys(mapper: &CharMapper) -> (yes: bool)
    ensures
        yes == keys_in_range(*mapper),
{
    let codes = used_keys(mapper);
    let mut i: usize = 0;
    while i < codes.len()
        invariant
            i <= codes@.len(),
            forall|k: int| 0 <= k < i ==> codes@[k] < KEY_COUNT,
            forall|code: u16| #[trigger]
                codes@.contains(code) == (table_uses(mapper.table(), code) || hex_uses(
                    mapper.hex_digits@,
                    code,
                )),
        decreases codes@.len() - i,
    {
        if codes[i] >= KEY_COUNT {
            proof {
                assert(codes@.contains(codes@[i as int]));
            }
            return false;
        }
        i = i + 1;
    }
    proof {
        assert forall|code: u16| #[trigger] codes@.contains(code) implies code < KEY_COUNT by {}
        assert forall|code: u16| #[trigger] table_uses(mapper.table(), code) implies code
            < KEY_COUNT by {
            assert(codes@.contains(code));
        }
        assert forall|code: u16| #[trigger] hex_uses(mapper.hex_digits@, code) implies code
            < KEY_COUNT by {
            assert(codes@.contains(code));
        }
    }
    true
}

/// The keys for the virtual keyboard of a mapper to declare, in ascending order.
pub fn keyboard_keys(mapper: &CharMapper) -> (codes: Vec<u16>)
    requires
        keys_in_range(*mapper),
    ensures
        forall|code: u16| #[trigger] codes@.contains(code) == is_keyboard_key(*mapper, code),
        forall|i: int, j: int| 0 <= i < j < codes@.len() ==> codes@[i] < codes@[j],
{
    let used = used_keys(mapper);
    let mut set = new_key_set();
    let mut i: usize = 0;
    while i < used.len()
        invariant
            i <= used@.len(),
            keys_in_range(*mapper),
            forall|code: u16| #[trigger]
                used@.contains(code) == (table_uses(mapper.table(), code) || hex_uses(
                    mapper.hex_digits@,
                    code,
                )),
            forall|code: u16| #[trigger]
                key_set_codes(set).contains(code) == exists|k: int|
                    0 <= k < i && #[trigger] used@[k] == code,
        decreases used@.len() - i,
    {
        proof {
            assert(used@.contains(used@[i as int]));
        }
        insert_key(&mut set, used[i]);
        i = i + 1;
    }
    proof {
        assert forall|code: u16| #[trigger] key_set_codes(set).contains(code) == used@.contains(
            code,
        ) by {}
    }
    insert_standing_keys(&mut set);
    list_keys(&set)
}

/// The keyboard declares the keys of all chords of the mapper, those of the hex digits
/// among them, and besides these Left and Right Shift, Left Ctrl, Right Alt, U, Space,
/// Enter, Tab and the keys of the sixteen hex digits; and it declares no other.
pub proof fn lemma_declared_keys(mapper: CharMapper, code: u16)
    ensures
        is_keyboard_key(mapper, code) <==> {
            ||| exists|code_point: u32, i: int|
                mapper.map@.contains_key(code_point) && 0 <= i < mapper.map@[code_point]@.len() && (
                #[trigger] mapper.map@[code_point]@[i]).keycode == code
            ||| exists|code_point: u32| #[trigger]
                mapper.hex_digits@.contains_key(code_point)
                    && mapper.hex_digits@[code_point].keycode == code
            ||| seq![
                42u16, 54, 29, 100, 22, 57, 28, 15, 11, 2, 3, 4, 5, 6, 7, 8, 9, 10, 30, 48, 46, 32,
                18, 33,
            ].contains(code)
        },
{
    let table = mapper.table();
    let standing = seq![
        42u16, 54, 29, 100, 22, 57, 28, 15, 11, 2, 3, 4, 5, 6, 7, 8, 9, 10, 30, 48, 46, 32, 18, 33,
    ];
    assert(is_standing_key(code) == standing.contains(code)) by {
        assert(standing[0] == 42 && standing[1] == 54 && standing[2] == 29 && standing[3] == 100);
        assert(standing[4] == 22 && standing[5] == 57 && standing[6] == 28 && standing[7] == 15);
        assert(standing[8] == 11 && standing[9] == 2 && standing[10] == 3 && standing[11] == 4);
        assert(standing[12] == 5 && standing[13] == 6 && standing[14] == 7 && standing[15] == 8);
        assert(standing[16] == 9 && standing[17] == 10 && standing[18] == 30 && standing[19] == 48);
        assert(standing[20] == 46 && standing[21] == 32 && standing[22] == 18 && standing[23] == 33);
    }
    if table_uses(table, code) {
        let code_point = choose|code_point: u32| #[trigger]
            table.contains_key(code_point) && sequence_uses(table[code_point], code);
        let i = choose|i: int|
            0 <= i < table[code_point].len() && (#[trigger] table[code_point][i]).keycode == code;
        assert(mapper.map@.contains_key(code_point) && mapper.map@[code_point]@[i].keycode == code);
    }
    if exists|code_point: u32, i: int|
        mapper.map@.contains_key(code_point) && 0 <= i < mapper.map@[code_point]@.len() && (
        #[trigger] mapper.map@[code_point]@[i]).keycode == code {
        let (code_point, i) = choose|code_point: u32, i: int|
            mapper.map@.contains_key(code_point) && 0 <= i < mapper.map@[code_point]@.len() && (
            #[trigger] mapper.map@[code_point]@[i]).keycode == code;
        assert(table.contains_key(code_point) && table[code_point][i].keycode == code);
        assert(sequence_uses(table[code_point], code));
    }
}

/// A device can declare all the keys of a mapper where the codes of all its chords, those
/// of the hex digits among them, are below 768, and only there.
pub proof fn lemma_declarable_mappers(mapper: CharMapper)
    ensures
        keys_in_range(mapper) <==> {
            &&& forall|code_point: u32, i: int|
                mapper.map@.contains_key(code_point) && 0 <= i < mapper.map@[code_point]@.len()
                    ==> (#[trigger] mapper.map@[code_point]@[i]).keycode < 768
            &&& forall|code_point: u32| #[trigger]
                mapper.hex_digits@.contains_key(code_point)
                    ==> mapper.hex_digits@[code_point].keycode < 768
        },
{
    let table = mapper.table();
    if keys_in_range(mapper) {
        assert forall|code_point: u32, i: int|
            mapper.map@.contains_key(code_point) && 0 <= i
                < mapper.map@[code_point]@.len() implies (
        #[trigger] mapper.map@[code_point]@[i]).keycode < 768 by {
            let code = mapper.map@[code_point]@[i].keycode;
            assert(table.contains_key(code_point) && table[code_point][i].keycode == code);
            assert(sequence_uses(table[code_point], code));
            assert(table_uses(table, code));
        }
        assert forall|code_point: u32| #[trigger]
            mapper.hex_digits@.contains_key(code_point) implies
            mapper.hex_digits@[code_point].keycode < 768 by {
            assert(hex_uses(mapper.hex_digits@, mapper.hex_digits@[code_point].keycode));
        }
    }
    if (forall|code_point: u32, i: int|
        mapper.map@.contains_key(code_point) && 0 <= i < mapper.map@[code_point]@.len() ==> (
        #[trigger] mapper.map@[code_point]@[i]).keycode < 768) && (forall|code_point: u32|
     #[trigger]
        mapper.hex_digits@.contains_key(code_point) ==> mapper.hex_digits@[code_point].keycode
            < 768) {
        assert forall|code: u16| #[trigger] table_uses(table, code) implies code < KEY_COUNT by {
            let code_point = choose|code_point: u32| #[trigger]
                table.contains_key(code_point) && sequence_uses(table[code_point], code);
            let i = choose|i: int|
                0 <= i < table[code_point].len() && (#[trigger] table[code_point][i]).keycode
                    == code;
            assert(mapper.map@[code_point]@[i].keycode == code);
        }
    }
}

} // verus!
