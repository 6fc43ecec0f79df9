//! Reading a compiled XKB keymap: which modifier combinations to read it under,
//! what each key means, and which characters it types.

use std::collections::HashMap;
use vstd::prelude::*;

use crate::chord::{
    after_offers, has_short_sequences, insert_preferred_sequence, lemma_short_sequences,
    offers_short_sequences, sequences, KeyChord, Offer,
};
use crate::text::{has_prefix, is_typeable, starts_with, typeable};

verus! {

broadcast use vstd::std_specs::hash::group_hash_axioms;

/// Evdev keycodes start at 8 below XKB keycodes (XKB keycode = evdev keycode + 8).
pub const XKB_EVDEV_OFFSET: u32 = 8;

/// The index that a keymap reports for a modifier it does not have.
pub const MOD_INVALID: u32 = 0xffff_ffff;

/// A modifier combination under which a keymap is read.
#[derive(Debug, Clone, Copy, PartialEq, Eq, Structural)]
pub struct ModCombo {
    /// The modifiers to hold, as a mask.
    pub mask: u32,
    pub shift: bool,
    pub alt_gr: bool,
}

/// What a keymap says of one key under one modifier combination.
#[derive(Debug)]
pub struct KeyReading {
    /// XKB keycode of the key.
    pub keycode: u32,
    /// The keysym of the key; 0 where it has none.
    pub keysym: u32,
    /// The name of the keysym.
    pub name: String,
    /// The code point that the key types; 0 where it types none.
    pub utf32: u32,
}

/// The keys of a keymap under one modifier combination.
#[derive(Debug)]
pub struct KeyLevel {
    pub combo: ModCombo,
    pub keys: Vec<KeyReading>,
}

/// A keysym and the chord that produces it.
#[derive(Debug, Clone, Copy, PartialEq, Eq, Structural)]
pub struct KeyBinding {
    pub keysym: u32,
    pub chord: KeyChord,
}

/// What a key under a modifier combination is good for.
#[derive(Debug, Clone, Copy, PartialEq, Eq, Structural)]
pub enum KeyRole {
    /// Nothing that can be typed.
    Unused,
    /// A dead key: it types nothing before the key that follows.
    Dead(KeyBinding),
    /// It types the character with the code point given first.
    Types(u32, KeyBinding),
}

/// What a keymap types: the preferred single chord of each character, the
/// keysyms that a single chord produces, and the dead keys.
pub struct LayoutScan {
    pub map: HashMap<u32, Vec<KeyChord>>,
    pub base_keysyms: Vec<KeyBinding>,
    pub dead_keys: Vec<KeyBinding>,
}

/// The mask with the one bit that stands for a modifier; 0 where it has none.
pub open spec fn modifier_mask(index: u32) -> u32 {
    if index < 31 {
        1u32 << index
    } else {
        0
    }
}

/// The combinations of Shift and AltGr that a keymap has, plain first.
pub open spec fn combos(shift_index: u32, level3_index: u32) -> Seq<ModCombo> {
    let shift = modifier_mask(shift_index);
    let level3 = modifier_mask(level3_index);
    seq![ModCombo { mask: 0, shift: false, alt_gr: false }] + (if shift != 0 {
        seq![ModCombo { mask: shift, shift: true, alt_gr: false }]
    } else {
        seq![]
    }) + (if level3 != 0 {
        seq![ModCombo { mask: level3, shift: false, alt_gr: true }]
    } else {
        seq![]
    }) + (if shift != 0 && level3 != 0 {
        seq![ModCombo { mask: shift | level3, shift: true, alt_gr: true }]
    } else {
        seq![]
    })
}

/// Whether a key has an evdev code.
pub open spec fn has_evdev_code(keycode: u32) -> bool {
    1 <= keycode - XKB_EVDEV_OFFSET <= u16::MAX
}

/// The keysym of a key that has an evdev code, and the chord that produces it.
pub open spec fn binding(combo: ModCombo, key: KeyReading) -> KeyBinding {
    KeyBinding {
        keysym: key.keysym,
        chord: KeyChord {
            keycode: (key.keycode - XKB_EVDEV_OFFSET) as u16,
            shift: combo.shift,
            alt_gr: combo.alt_gr,
        },
    }
}

/// What a key is good for under a modifier combination.
pub open spec fn role(combo: ModCombo, key: KeyReading) -> KeyRole {
    if !has_evdev_code(key.keycode) || key.keysym == 0 {
        KeyRole::Unused
    } else if starts_with(key.name@, "dead_"@) {
        KeyRole::Dead(binding(combo, key))
    } else if is_typeable(key.utf32) {
        KeyRole::Types(key.utf32, binding(combo, key))
    } else {
        KeyRole::Unused
    }
}

/// The roles of the keys of one level, in order.
pub open spec fn level_roles(level: KeyLevel) -> Seq<KeyRole> {
    level.keys@.map_values(|key: KeyReading| role(level.combo, key))
}

/// The roles of the keys of all levels, level by level.
pub open spec fn layout_roles(levels: Seq<KeyLevel>) -> Seq<KeyRole>
    decreases levels.len(),
{
    if levels.len() == 0 {
        seq![]
    } else {
        layout_roles(levels.drop_last()) + level_roles(levels.last())
    }
}

/// Whether levels are the reading of a keymap that has Shift and the level 3 shift
/// under these indices: one level for each modifier combination, in order, and in
/// each of them the keys in ascending order.
pub open spec fn reads_keymap(levels: Seq<KeyLevel>, shift_index: u32, level3_index: u32) -> bool {
    &&& levels.len() == combos(shift_index, level3_index).len()
    &&& forall|l: int|
        0 <= l < levels.len() ==> (#[trigger] levels[l]).combo == combos(
            shift_index,
            level3_index,
        )[l]
    &&& forall|l: int| 0 <= l < levels.len() ==> keys_ascend(#[trigger] levels[l])
}

/// Whether the keys of a level come in ascending order.
pub open spec fn keys_ascend(level: KeyLevel) -> bool {
    forall|i: int, j: int|
        0 <= i < j < level.keys@.len() ==> (#[trigger] level.keys@[i]).keycode < (
        #[trigger] level.keys@[j]).keycode
}

/// Whether a list binds a keysym.
pub open spec fn binds(list: Seq<KeyBinding>, keysym: u32) -> bool {
    exists|i: int| 0 <= i < list.len() && (#[trigger] list[i]).keysym == keysym
}

/// A list with one more binding, where it does not bind that keysym yet.
pub open spec fn with_binding(list: Seq<KeyBinding>, b: KeyBinding) -> Seq<KeyBinding> {
    if binds(list, b.keysym) {
        list
    } else {
        list.push(b)
    }
}

/// The first binding of each keysym in a list, in order.
pub open spec fn first_of_each(list: Seq<KeyBinding>) -> Seq<KeyBinding>
    decreases list.len(),
{
    if list.len() == 0 {
        seq![]
    } else {
        with_binding(first_of_each(list.drop_last()), list.last())
    }
}

/// The bindings of the dead keys, in order.
pub open spec fn dead_key_list(roles: Seq<KeyRole>) -> Seq<KeyBinding>
    decreases roles.len(),
{
    if roles.len() == 0 {
        seq![]
    } else {
        let before = dead_key_list(roles.drop_last());
        match roles.last() {
            KeyRole::Dead(b) => before.push(b),
            _ => before,
        }
    }
}

/// The bindings of the keys that type a character, in order.
pub open spec fn base_key_list(roles: Seq<KeyRole>) -> Seq<KeyBinding>
    decreases roles.len(),
{
    if roles.len() == 0 {
        seq![]
    } else {
        let before = base_key_list(roles.drop_last());
        match roles.last() {
            KeyRole::Types(_, b) => before.push(b),
            _ => before,
        }
    }
}

/// The first binding of each keysym among the dead keys.
pub open spec fn dead_bindings(roles: Seq<KeyRole>) -> Seq<KeyBinding> {
    first_of_each(dead_key_list(roles))
}

/// The first binding of each keysym among the keys that type a character.
pub open spec fn base_bindings(roles: Seq<KeyRole>) -> Seq<KeyBinding> {
    first_of_each(base_key_list(roles))
}

/// The chords that the keys offer for the characters they type, in order.
pub open spec fn direct_offers(roles: Seq<KeyRole>) -> Seq<Offer>
    decreases roles.len(),
{
    if roles.len() == 0 {
        seq![]
    } else {
        let before = direct_offers(roles.drop_last());
        match roles.last() {
            KeyRole::Types(code_point, b) => before.push(Offer { code_point, seq: seq![b.chord] }),
            _ => before,
        }
    }
}

/// Whether a scan is the scan of keys with these roles.
pub open spec fn scans(scan: LayoutScan, roles: Seq<KeyRole>) -> bool {
    &&& sequences(scan.map@) == after_offers(Map::empty(), direct_offers(roles))
    &&& scan.base_keysyms@ == base_bindings(roles)
    &&& scan.dead_keys@ == dead_bindings(roles)
}

/// The mask bit of a modifier index; 0 for an index without one.
pub fn mod_bit(index: u32) -> (mask: u32)
    ensures
        mask == modifier_mask(index),
        (mask == 0) == (index >= 31),
{
    if index == MOD_INVALID || index >= 31 {
        0
    } else {
        proof {
            assert(index < 31 ==> (1u32 << index) != 0) by (bit_vector);
        }
        1u32 << index
    }
}

/// The modifier combinations under which a keymap is to be read.
pub fn mod_combos(shift_index: u32, level3_index: u32) -> (list: Vec<ModCombo>)
    ensures
        list@ == combos(shift_index, level3_index),
{
    let shift_mask = mod_bit(shift_index);
    let level3_mask = mod_bit(level3_index);
    let mut list: Vec<ModCombo> = Vec::new();
    list.push(ModCombo { mask: 0, shift: false, alt_gr: false });
    if shift_mask != 0 {
        list.push(ModCombo { mask: shift_mask, shift: true, alt_gr: false });
    }
    if level3_mask != 0 {
        list.push(ModCombo { mask: level3_mask, shift: false, alt_gr: true });
    }
    if shift_mask != 0 && level3_mask != 0 {
        list.push(ModCombo { mask: shift_mask | level3_mask, shift: true, alt_gr: true });
    }
    proof {
        assert(list@ =~= combos(shift_index, level3_index));
    }
    list
}

/// The keycodes to read of a keymap that reaches from `min_keycode` to
/// `max_keycode`: those that have an evdev code, in ascending order.
pub fn keycodes_to_read(min_keycode: u32, max_keycode: u32) -> (keycodes: Vec<u32>)
    ensures
        forall|keycode: u32| #[trigger]
            keycodes@.contains(keycode) == (min_keycode <= keycode <= max_keycode
                && has_evdev_code(keycode)),
        forall|i: int, j: int| 0 <= i < j < keycodes@.len() ==> keycodes@[i] < keycodes@[j],
{
    let first: u32 = if min_keycode <= XKB_EVDEV_OFFSET {
        XKB_EVDEV_OFFSET + 1
    } else {
        min_keycode
    };
    let highest: u32 = XKB_EVDEV_OFFSET + u16::MAX as u32;
    let last: u32 = if max_keycode > highest {
        highest
    } else {
        max_keycode
    };
    let mut keycodes: Vec<u32> = Vec::new();
    let mut keycode: u32 = first;
    while keycode <= last
        invariant
            last <= XKB_EVDEV_OFFSET + u16::MAX,
            first <= keycode,
            keycode <= last + 1 || keycode == first,
            keycodes@.len() == keycode - first,
            forall|i: int| 0 <= i < keycodes@.len() ==> keycodes@[i] == first + i,
        decreases last + 1 - keycode,
    {
        keycodes.push(keycode);
        keycode = keycode + 1;
    }
    proof {
        assert forall|k: u32| #[trigger] keycodes@.contains(k) == (min_keycode <= k <= max_keycode
            && has_evdev_code(k)) by {
            if min_keycode <= k <= max_keycode && has_evdev_code(k) {
                assert(keycodes@[k - first] == k);
            }
        }
    }
    keycodes
}

/// Whether a level has a key.
pub open spec fn has_key(level: KeyLevel, keycode: u32) -> bool {
    exists|k: int| 0 <= k < level.keys@.len() && (#[trigger] level.keys@[k]).keycode == keycode
}

/// Whether nothing has been read of a key yet.
pub open spec fn is_unread(key: KeyReading) -> bool {
    key.keysym == 0 && key.name@.len() == 0 && key.utf32 == 0
}

/// Keys of which nothing has been read yet.
fn unread_keys(keycodes: &Vec<u32>) -> (keys: Vec<KeyReading>)
    ensures
        keys@.len() == keycodes@.len(),
        forall|k: int|
            0 <= k < keys@.len() ==> (#[trigger] keys@[k]).keycode == keycodes@[k]
                && is_unread(keys@[k]),
{
    let mut keys: Vec<KeyReading> = Vec::new();
    let mut k: usize = 0;
    while k < keycodes.len()
        invariant
            k <= keycodes@.len(),
            keys@.len() == k,
            forall|i: int|
                0 <= i < k ==> (#[trigger] keys@[i]).keycode == keycodes@[i] && is_unread(
                    keys@[i],
                ),
        decreases keycodes@.len() - k,
    {
        keys.push(KeyReading { keycode: keycodes[k], keysym: 0, name: String::new(), utf32: 0 });
        k = k + 1;
    }
    keys
}

/// The levels of a keymap that has Shift and the level 3 shift under these indices and
/// reaches from `min_keycode` to `max_keycode`, in the order in which they are to be
/// read, with nothing read of their keys yet.
pub fn levels_to_read(
    shift_index: u32,
    level3_index: u32,
    min_keycode: u32,
    max_keycode: u32,
) -> (levels: Vec<KeyLevel>)
    ensures
        reads_keymap(levels@, shift_index, level3_index),
        forall|l: int, keycode: u32|
            0 <= l < levels@.len() ==> #[trigger] has_key(levels@[l], keycode) == (min_keycode
                <= keycode <= max_keycode && has_evdev_code(keycode)),
        forall|l: int, k: int|
            0 <= l < levels@.len() && 0 <= k < levels@[l].keys@.len() ==> is_unread(
                #[trigger] levels@[l].keys@[k],
            ),
{
    let list = mod_combos(shift_index, level3_index);
    let keycodes = keycodes_to_read(min_keycode, max_keycode);
    let mut levels: Vec<KeyLevel> = Vec::new();
    let mut l: usize = 0;
    while l < list.len()
        invariant
            l <= list@.len(),
            levels@.len() == l,
            forall|m: int| 0 <= m < l ==> (#[trigger] levels@[m]).combo == list@[m],
            forall|m: int|
                0 <= m < l ==> (#[trigger] levels@[m]).keys@.len() == keycodes@.len(),
            forall|m: int, k: int|
                0 <= m < l && 0 <= k < keycodes@.len() ==> (
                #[trigger] levels@[m].keys@[k]).keycode == keycodes@[k] && is_unread(
                    levels@[m].keys@[k],
                ),
        decreases list@.len() - l,
    {
        let keys = unread_keys(&keycodes);
        levels.push(KeyLevel { combo: list[l], keys });
        l = l + 1;
    }
    proof {
        assert forall|m: int| 0 <= m < levels@.len() implies keys_ascend(#[trigger] levels@[m]) by {
            let keys = levels@[m].keys@;
            assert forall|i: int, j: int| 0 <= i < j < keys.len() implies (
            #[trigger] keys[i]).keycode < (#[trigger] keys[j]).keycode by {
                assert(keys[i].keycode == keycodes@[i] && keys[j].keycode == keycodes@[j]);
            }
        }
        assert forall|m: int, keycode: u32| 0 <= m < levels@.len() implies #[trigger] has_key(
            levels@[m],
            keycode,
        ) == keycodes@.contains(keycode) by {
            let keys = levels@[m].keys@;
            if has_key(levels@[m], keycode) {
                let k = choose|k: int|
                    0 <= k < keys.len() && (#[trigger] keys[k]).keycode == keycode;
                assert(keycodes@[k] == keycode);
            }
            if keycodes@.contains(keycode) {
                let k = choose|k: int| 0 <= k < keycodes@.len() && keycodes@[k] == keycode;
                assert(keys[k].keycode == keycode);
            }
        }
    }
    levels
}

/// What a key is good for under a modifier combination.
pub fn classify_key(combo: ModCombo, key: &KeyReading) -> (found: KeyRole)
    ensures
        found == role(combo, *key),
{
    if key.keycode <= XKB_EVDEV_OFFSET || key.keycode - XKB_EVDEV_OFFSET > u16::MAX as u32 {
        return KeyRole::Unused;
    }
    if key.keysym == 0 {
        return KeyRole::Unused;
    }
    let chord = KeyChord {
        keycode: (key.keycode - XKB_EVDEV_OFFSET) as u16,
        shift: combo.shift,
        alt_gr: combo.alt_gr,
    };
    let bound = KeyBinding { keysym: key.keysym, chord };
    if has_prefix(key.name.as_str(), "dead_") {
        KeyRole::Dead(bound)
    } else if typeable(key.utf32) {
        KeyRole::Types(key.utf32, bound)
    } else {
        KeyRole::Unused
    }
}

/// Adds a binding to a list that does not bind its keysym yet.
fn add_binding(list: &mut Vec<KeyBinding>, b: KeyBinding)
    ensures
        final(list)@ == with_binding(old(list)@, b),
{
    let mut i: usize = 0;
    while i < list.len()
        invariant
            i <= list@.len(),
            list@ == old(list)@,
            forall|k: int| 0 <= k < i ==> (#[trigger] list@[k]).keysym != b.keysym,
        decreases list@.len() - i,
    {
        if list[i].keysym == b.keysym {
            return;
        }
        i = i + 1;
    }
    list.push(b);
}

/// Reads what the keys of a layout type, under each modifier combination in turn.
///
/// Of the chords that type a character the preferred one is kept, and of those
/// that produce a keysym the first.
pub fn scan_layout(levels: &Vec<KeyLevel>) -> (scan: LayoutScan)
    ensures
        scans(scan, layout_roles(levels@)),
        has_short_sequences(sequences(scan.map@)),
{
    let mut map: HashMap<u32, Vec<KeyChord>> = HashMap::new();
    let mut base_keysyms: Vec<KeyBinding> = Vec::new();
    let mut dead_keys: Vec<KeyBinding> = Vec::new();
    let ghost mut roles: Seq<KeyRole> = seq![];
    proof {
        assert(sequences(map@) =~= Map::empty());
    }
    let mut i: usize = 0;
    while i < levels.len()
        invariant
            i <= levels@.len(),
            roles == layout_roles(levels@.take(i as int)),
            sequences(map@) == after_offers(Map::empty(), direct_offers(roles)),
            base_keysyms@ == base_bindings(roles),
            dead_keys@ == dead_bindings(roles),
        decreases levels@.len() - i,
    {
        let level = &levels[i];
        let ghost before = roles;
        let ghost all = level_roles(*level);
        let mut k: usize = 0;
        proof {
            assert(before + all.take(0) =~= before);
        }
        while k < level.keys.len()
            invariant
                k <= level.keys@.len(),
                all == level_roles(*level),
                roles == before + all.take(k as int),
                sequences(map@) == after_offers(Map::empty(), direct_offers(roles)),
                base_keysyms@ == base_bindings(roles),
                dead_keys@ == dead_bindings(roles),
            decreases level.keys@.len() - k,
        {
            let found = classify_key(level.combo, &level.keys[k]);
            let ghost next = roles.push(found);
            proof {
                assert(all[k as int] == found);
                assert(next =~= before + all.take(k + 1));
                assert(next.drop_last() =~= roles);
            }
            match found {
                KeyRole::Unused => {},
                KeyRole::Dead(bound) => {
                    proof {
                        assert(dead_key_list(next).drop_last() =~= dead_key_list(roles));
                    }
                    add_binding(&mut dead_keys, bound);
                },
                KeyRole::Types(code_point, bound) => {
                    let mut seq: Vec<KeyChord> = Vec::new();
                    seq.push(bound.chord);
                    proof {
                        assert(seq@ =~= seq![bound.chord]);
                        let offers = direct_offers(next);
                        assert(offers.drop_last() =~= direct_offers(roles));
                        assert(base_key_list(next).drop_last() =~= base_key_list(roles));
                    }
                    insert_preferred_sequence(&mut map, code_point, seq);
                    add_binding(&mut base_keysyms, bound);
                },
            }
            proof {
                roles = next;
            }
            k = k + 1;
        }
        proof {
            assert(all.take(k as int) =~= all);
            assert(levels@.take(i + 1).drop_last() =~= levels@.take(i as int));
        }
        i = i + 1;
    }
    proof {
        assert(levels@.take(i as int) =~= levels@);
        lemma_direct_offers(roles);
        lemma_short_sequences(Map::empty(), direct_offers(roles));
    }
    LayoutScan { map, base_keysyms, dead_keys }
}

/// Whether position `k` of a list holds the first binding of its keysym.
pub open spec fn is_first_binding(list: Seq<KeyBinding>, k: int) -> bool {
    &&& 0 <= k < list.len()
    &&& forall|m: int| 0 <= m < k ==> (#[trigger] list[m]).keysym != list[k].keysym
}

/// The first binding of each keysym is kept, once, and nothing else is.
pub proof fn lemma_first_of_each(list: Seq<KeyBinding>)
    ensures
        forall|b: KeyBinding| #[trigger]
            first_of_each(list).contains(b) <==> exists|k: int| #[trigger]
                is_first_binding(list, k) && list[k] == b,
        forall|i: int, j: int|
            0 <= i < j < first_of_each(list).len() ==> (#[trigger] first_of_each(list)[i]).keysym != (
            #[trigger] first_of_each(list)[j]).keysym,
        forall|keysym: u32| binds(list, keysym) <==> #[trigger] binds(first_of_each(list), keysym),
    decreases list.len(),
{
    if list.len() > 0 {
        let front = list.drop_last();
        let last = list.last();
        let n = front.len() as int;
        let before = first_of_each(front);
        let after = first_of_each(list);
        lemma_first_of_each(front);
        assert forall|k: int| 0 <= k < n implies is_first_binding(list, k) == #[trigger]
            is_first_binding(front, k) by {
            if is_first_binding(front, k) {
                assert forall|m: int| 0 <= m < k implies (#[trigger] list[m]).keysym
                    != list[k].keysym by {
                    assert(front[m].keysym != front[k].keysym);
                }
            }
            if is_first_binding(list, k) {
                assert forall|m: int| 0 <= m < k implies (#[trigger] front[m]).keysym
                    != front[k].keysym by {
                    assert(list[m].keysym != list[k].keysym);
                }
            }
        }
        assert(binds(front, last.keysym) == binds(before, last.keysym));
        assert(is_first_binding(list, n) == !binds(front, last.keysym)) by {
            if binds(front, last.keysym) {
                let m = choose|m: int|
                    0 <= m < front.len() && (#[trigger] front[m]).keysym == last.keysym;
                assert(list[m].keysym == list[n].keysym);
            } else {
                assert forall|m: int| 0 <= m < n implies (#[trigger] list[m]).keysym
                    != list[n].keysym by {
                    assert(front[m].keysym != last.keysym);
                }
            }
        }
        assert forall|b: KeyBinding| #[trigger]
            after.contains(b) <==> exists|k: int| #[trigger]
                is_first_binding(list, k) && list[k] == b by {
            if after.contains(b) {
                if before.contains(b) {
                    let k = choose|k: int| #[trigger] is_first_binding(front, k) && front[k] == b;
                    assert(is_first_binding(list, k) && list[k] == b);
                } else {
                    let i = choose|i: int| 0 <= i < after.len() && after[i] == b;
                    if i < before.len() {
                        assert(before[i] == b);
                    }
                    assert(is_first_binding(list, n) && list[n] == b);
                }
            }
            if exists|k: int| #[trigger] is_first_binding(list, k) && list[k] == b {
                let k = choose|k: int| #[trigger] is_first_binding(list, k) && list[k] == b;
                if k < n {
                    assert(is_first_binding(front, k) && front[k] == b);
                    assert(before.contains(b));
                    let i = choose|i: int| 0 <= i < before.len() && before[i] == b;
                    assert(after[i] == b);
                } else {
                    assert(after[before.len() as int] == b);
                }
            }
        }
        assert forall|i: int, j: int| 0 <= i < j < after.len() implies (
        #[trigger] after[i]).keysym != (#[trigger] after[j]).keysym by {
            assert(after[i] == before[i]);
            if j < before.len() {
                assert(after[j] == before[j]);
            }
        }
        assert forall|keysym: u32| binds(list, keysym) <==> #[trigger] binds(after, keysym) by {
            assert(binds(front, keysym) <==> binds(before, keysym));
            if binds(list, keysym) {
                let m = choose|m: int| 0 <= m < list.len() && (#[trigger] list[m]).keysym == keysym;
                if m < n {
                    assert(front[m].keysym == keysym);
                }
                if binds(before, keysym) {
                    let i = choose|i: int|
                        0 <= i < before.len() && (#[trigger] before[i]).keysym == keysym;
                    assert(after[i].keysym == keysym);
                } else {
                    assert(after[before.len() as int].keysym == keysym);
                }
            }
            if binds(after, keysym) {
                let i = choose|i: int|
                    0 <= i < after.len() && (#[trigger] after[i]).keysym == keysym;
                if i < before.len() {
                    assert(before[i].keysym == keysym);
                    let m = choose|m: int|
                        0 <= m < front.len() && (#[trigger] front[m]).keysym == keysym;
                    assert(list[m].keysym == keysym);
                } else {
                    assert(list[n].keysym == keysym);
                }
            }
        }
    }
}

/// Every key that types a character offers a single chord for it.
pub proof fn lemma_direct_offers(roles: Seq<KeyRole>)
    ensures
        forall|i: int|
            0 <= i < direct_offers(roles).len() ==> (#[trigger] direct_offers(roles)[i]).seq.len()
                == 1,
        offers_short_sequences(direct_offers(roles)),
    decreases roles.len(),
{
    if roles.len() > 0 {
        lemma_direct_offers(roles.drop_last());
    }
}

} // verus!
