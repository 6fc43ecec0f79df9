//! What holds of typing as a whole, across the mapper, the keyboard and the plans.

use vstd::prelude::*;

use crate::chord::{after_offers, sequences, KeyChord, Offer};
use crate::compose::{
    composed_offers, key_pairs, lemma_pair_members, ComposeOutcome, DeadKeyPair,
};
use crate::keyboard::{
    hex_uses, is_keyboard_key, is_standing_key, keys_in_range, sequence_uses, table_uses,
};
use crate::keymap::{
    base_key_list, combos, dead_key_list, direct_offers, first_of_each, layout_roles, level_roles,
    modifier_mask, reads_keymap, role, scans, KeyBinding, KeyLevel, KeyRole, LayoutScan,
    XKB_EVDEV_OFFSET,
};
use crate::keys::{KEY_COUNT, KEY_ENTER, KEY_LEFTSHIFT, KEY_RIGHTALT, KEY_SPACE, KEY_TAB};
use crate::mapper::{
    hex_chord, hex_chords, hex_digit_spec, hex_key, is_hex_digit, plain_chord, scan_offers,
    with_compositions, with_essentials, CharMapper,
};
use crate::text::is_typeable;
use crate::typing::{
    chord_actions, commit_unicode, enter_unicode_mode, hex_text, lemma_hex_text_digits, pause,
    press, release, sequence_actions, type_char, type_chars, type_digits, type_hex,
    KeyAction, Typing, DEAD_KEY_DELAY, INTER_KEY_DELAY, KEY_HOLD_DELAY,
};

verus! {

/// The keys that are down after an action, given those that were down before it.
pub open spec fn keys_after_one(down: Set<u16>, action: KeyAction) -> Set<u16> {
    match action {
        KeyAction::Key { code, value } => if value == 0 {
            down.remove(code)
        } else {
            down.insert(code)
        },
        KeyAction::Pause { .. } => down,
    }
}

/// The keys that are down after a series of actions.
pub open spec fn keys_after(down: Set<u16>, actions: Seq<KeyAction>) -> Set<u16>
    decreases actions.len(),
{
    if actions.len() == 0 {
        down
    } else {
        keys_after(keys_after_one(down, actions[0]), actions.drop_first())
    }
}

proof fn lemma_keys_after_concat(down: Set<u16>, a: Seq<KeyAction>, b: Seq<KeyAction>)
    ensures
        keys_after(down, a + b) == keys_after(keys_after(down, a), b),
    decreases a.len(),
{
    if a.len() == 0 {
        assert(a + b =~= b);
    } else {
        assert((a + b).drop_first() =~= a.drop_first() + b);
        lemma_keys_after_concat(keys_after_one(down, a[0]), a.drop_first(), b);
    }
}

proof fn lemma_chord_lets_go(chord: KeyChord)
    ensures
        keys_after(Set::empty(), chord_actions(chord)) == Set::<u16>::empty(),
{
    reveal_with_fuel(keys_after, 8);
    let actions = chord_actions(chord);
    let code = chord.keycode;
    let tap = seq![press(code), pause(KEY_HOLD_DELAY), release(code)];
    if chord.alt_gr && chord.shift {
        assert(actions =~= seq![
            press(KEY_RIGHTALT),
            press(KEY_LEFTSHIFT),
            press(code),
            pause(KEY_HOLD_DELAY),
            release(code),
            release(KEY_LEFTSHIFT),
            release(KEY_RIGHTALT),
        ]);
    } else if chord.alt_gr {
        assert(actions =~= seq![
            press(KEY_RIGHTALT),
            press(code),
            pause(KEY_HOLD_DELAY),
            release(code),
            release(KEY_RIGHTALT),
        ]);
    } else if chord.shift {
        assert(actions =~= seq![
            press(KEY_LEFTSHIFT),
            press(code),
            pause(KEY_HOLD_DELAY),
            release(code),
            release(KEY_LEFTSHIFT),
        ]);
    } else {
        assert(actions =~= tap);
    }
    assert(keys_after(Set::empty(), actions) =~= Set::<u16>::empty());
}

proof fn lemma_pause_keeps(down: Set<u16>, millis: u64)
    ensures
        keys_after(down, seq![pause(millis)]) == down,
{
    reveal_with_fuel(keys_after, 2);
    assert(seq![pause(millis)].drop_first() =~= seq![]);
}

proof fn lemma_sequence_lets_go(seq: Seq<KeyChord>)
    ensures
        keys_after(Set::empty(), sequence_actions(seq)) == Set::<u16>::empty(),
    decreases seq.len(),
{
    if seq.len() > 0 {
        let millis = if seq.len() > 1 {
            DEAD_KEY_DELAY
        } else {
            INTER_KEY_DELAY
        };
        let chord = chord_actions(seq[0]);
        let rest = sequence_actions(seq.drop_first());
        lemma_chord_lets_go(seq[0]);
        lemma_pause_keeps(Set::empty(), millis);
        lemma_sequence_lets_go(seq.drop_first());
        lemma_keys_after_concat(Set::empty(), chord, seq![pause(millis)]);
        lemma_keys_after_concat(Set::empty(), chord + seq![pause(millis)], rest);
    }
}

proof fn lemma_digits_let_go(hex: Map<u32, KeyChord>, digits: Seq<u32>)
    ensures
        keys_after(Set::empty(), type_digits(hex, digits).actions) == Set::<u16>::empty(),
    decreases digits.len(),
{
    if digits.len() > 0 && hex.contains_key(digits[0]) {
        let chord = chord_actions(hex[digits[0]]);
        let rest = type_digits(hex, digits.drop_first()).actions;
        lemma_chord_lets_go(hex[digits[0]]);
        lemma_pause_keeps(Set::empty(), INTER_KEY_DELAY);
        lemma_digits_let_go(hex, digits.drop_first());
        lemma_keys_after_concat(Set::empty(), chord, seq![pause(INTER_KEY_DELAY)]);
        lemma_keys_after_concat(Set::empty(), chord + seq![pause(INTER_KEY_DELAY)], rest);
    }
}

proof fn lemma_hex_lets_go(hex: Map<u32, KeyChord>, code_point: u32)
    ensures
        keys_after(Set::empty(), type_hex(hex, code_point).actions) == Set::<u16>::empty(),
{
    let enter = enter_unicode_mode();
    let commit = commit_unicode();
    let digits = type_digits(hex, hex_text(code_point as nat)).actions;
    assert(keys_after(Set::empty(), enter) =~= Set::<u16>::empty()) by {
        reveal_with_fuel(keys_after, 9);
    }
    assert(keys_after(Set::empty(), commit) =~= Set::<u16>::empty()) by {
        reveal_with_fuel(keys_after, 5);
    }
    lemma_digits_let_go(hex, hex_text(code_point as nat));
    lemma_keys_after_concat(Set::empty(), enter, digits);
    lemma_keys_after_concat(Set::empty(), enter + digits, commit);
    assert(enter + digits + seq![] =~= enter + digits);
}

proof fn lemma_char_lets_go(mapper: CharMapper, c: char)
    ensures
        keys_after(Set::empty(), type_char(mapper, c).actions) == Set::<u16>::empty(),
{
    if mapper.table().contains_key(c as u32) {
        lemma_sequence_lets_go(mapper.table()[c as u32]);
    } else {
        let entry = type_hex(mapper.hex_digits@, c as u32);
        lemma_hex_lets_go(mapper.hex_digits@, c as u32);
        lemma_pause_keeps(Set::empty(), INTER_KEY_DELAY);
        lemma_keys_after_concat(Set::empty(), entry.actions, seq![pause(INTER_KEY_DELAY)]);
        assert(entry.actions + seq![] =~= entry.actions);
    }
}

/// No key is left down: once a text is typed, every key that was pressed has been
/// released. That holds of the actions up to a character that cannot be typed, too.
pub proof fn lemma_no_key_left_down(mapper: CharMapper, text: Seq<char>)
    ensures
        keys_after(Set::empty(), type_chars(mapper, text).actions) == Set::<u16>::empty(),
    decreases text.len(),
{
    if text.len() > 0 {
        let first = type_char(mapper, text[0]);
        lemma_char_lets_go(mapper, text[0]);
        lemma_no_key_left_down(mapper, text.drop_first());
        lemma_keys_after_concat(
            Set::empty(),
            first.actions,
            type_chars(mapper, text.drop_first()).actions,
        );
    }
}

/// Whether the key events among a series of actions are all presses and releases of
/// keys that the keyboard declares.
pub open spec fn uses_declared_keys(mapper: CharMapper, actions: Seq<KeyAction>) -> bool {
    forall|i: int|
        0 <= i < actions.len() ==> match #[trigger] actions[i] {
            KeyAction::Key { code, value } => is_keyboard_key(mapper, code) && (value == 0 || value
                == 1),
            KeyAction::Pause { .. } => true,
        }
}

proof fn lemma_chord_uses_declared_keys(mapper: CharMapper, chord: KeyChord)
    requires
        is_keyboard_key(mapper, chord.keycode),
    ensures
        uses_declared_keys(mapper, chord_actions(chord)),
{
    assert(is_standing_key(KEY_RIGHTALT) && is_standing_key(KEY_LEFTSHIFT));
}

proof fn lemma_sequence_uses_declared_keys(mapper: CharMapper, seq: Seq<KeyChord>)
    requires
        forall|i: int| 0 <= i < seq.len() ==> is_keyboard_key(mapper, (#[trigger] seq[i]).keycode),
    ensures
        uses_declared_keys(mapper, sequence_actions(seq)),
    decreases seq.len(),
{
    if seq.len() > 0 {
        lemma_chord_uses_declared_keys(mapper, seq[0]);
        assert forall|i: int| 0 <= i < seq.drop_first().len() implies is_keyboard_key(
            mapper,
            (#[trigger] seq.drop_first()[i]).keycode,
        ) by {
            assert(seq.drop_first()[i] == seq[i + 1]);
        }
        lemma_sequence_uses_declared_keys(mapper, seq.drop_first());
    }
}

proof fn lemma_digits_use_declared_keys(mapper: CharMapper, digits: Seq<u32>)
    ensures
        uses_declared_keys(mapper, type_digits(mapper.hex_digits@, digits).actions),
    decreases digits.len(),
{
    let hex = mapper.hex_digits@;
    if digits.len() > 0 && hex.contains_key(digits[0]) {
        assert(hex_uses(hex, hex[digits[0]].keycode));
        lemma_chord_uses_declared_keys(mapper, hex[digits[0]]);
        lemma_digits_use_declared_keys(mapper, digits.drop_first());
    }
}

/// The keyboard can type what the mapper maps: every key event of a typed text is a
/// press or a release of a key that the keyboard declares.
pub proof fn lemma_typing_uses_declared_keys(mapper: CharMapper, text: Seq<char>)
    ensures
        uses_declared_keys(mapper, type_chars(mapper, text).actions),
    decreases text.len(),
{
    if text.len() > 0 {
        let c = text[0];
        let table = mapper.table();
        if table.contains_key(c as u32) {
            let seq = table[c as u32];
            assert forall|i: int| 0 <= i < seq.len() implies is_keyboard_key(
                mapper,
                (#[trigger] seq[i]).keycode,
            ) by {
                assert(sequence_uses(seq, seq[i].keycode));
                assert(table_uses(table, seq[i].keycode));
            }
            lemma_sequence_uses_declared_keys(mapper, seq);
        } else {
            lemma_digits_use_declared_keys(mapper, hex_text(c as u32 as nat));
        }
        assert(uses_declared_keys(mapper, type_char(mapper, c).actions));
        lemma_typing_uses_declared_keys(mapper, text.drop_first());
    }
}

proof fn lemma_digits_all_typed(hex: Map<u32, KeyChord>, digits: Seq<u32>)
    requires
        forall|i: int| 0 <= i < digits.len() ==> hex.contains_key(#[trigger] digits[i]),
    ensures
        type_digits(hex, digits).missing is None,
    decreases digits.len(),
{
    if digits.len() > 0 {
        assert forall|i: int| 0 <= i < digits.drop_first().len() implies hex.contains_key(
            #[trigger] digits.drop_first()[i],
        ) by {
            assert(digits.drop_first()[i] == digits[i + 1]);
        }
        lemma_digits_all_typed(hex, digits.drop_first());
    }
}

/// Every text can be typed: with a well-formed mapper no character, whatever the
/// layout lacks, makes typing stop.
pub proof fn lemma_every_text_can_be_typed(mapper: CharMapper, text: Seq<char>)
    requires
        mapper.well_formed(),
    ensures
        type_chars(mapper, text).missing is None,
    decreases text.len(),
{
    if text.len() > 0 {
        let digits = hex_text(text[0] as u32 as nat);
        lemma_hex_text_digits(text[0] as u32 as nat);
        assert forall|i: int| 0 <= i < digits.len() implies mapper.hex_digits@.contains_key(
            #[trigger] digits[i],
        ) by {
            assert(is_hex_digit(digits[i]));
        }
        lemma_digits_all_typed(mapper.hex_digits@, digits);
        lemma_every_text_can_be_typed(mapper, text.drop_first());
    }
}

/// A text is typed piece by piece: typing two texts one after the other is typing
/// them as one, as long as the first can be typed to its end.
pub proof fn lemma_typing_concat(mapper: CharMapper, a: Seq<char>, b: Seq<char>)
    ensures
        type_chars(mapper, a + b) == (if type_chars(mapper, a).missing is Some {
            type_chars(mapper, a)
        } else {
            Typing {
                actions: type_chars(mapper, a).actions + type_chars(mapper, b).actions,
                missing: type_chars(mapper, b).missing,
            }
        }),
    decreases a.len(),
{
    if a.len() == 0 {
        assert(a + b =~= b);
        assert(type_chars(mapper, a).actions + type_chars(mapper, b).actions =~= type_chars(
            mapper,
            b,
        ).actions);
    } else {
        assert((a + b).drop_first() =~= a.drop_first() + b);
        lemma_typing_concat(mapper, a.drop_first(), b);
        let first = type_char(mapper, a[0]);
        let mid = type_chars(mapper, a.drop_first());
        let last = type_chars(mapper, b);
        assert(first.actions + (mid.actions + last.actions) =~= (first.actions + mid.actions)
            + last.actions);
    }
}

/// The number that a series of hex digits stands for.
pub open spec fn hex_value(digits: Seq<u32>) -> nat
    decreases digits.len(),
{
    if digits.len() == 0 {
        0
    } else {
        let last = digits.last();
        let value = if last <= '9' as u32 {
            (last - '0' as u32) as nat
        } else {
            (last - 'a' as u32 + 10) as nat
        };
        hex_value(digits.drop_last()) * 16 + value
    }
}

/// The hex digits typed for a code point stand for that code point, and they have no
/// leading zero but for the number zero itself.
pub proof fn lemma_hex_text_stands_for(n: nat)
    ensures
        hex_value(hex_text(n)) == n,
        hex_text(n).len() > 0,
        n > 0 ==> hex_text(n)[0] != '0' as u32,
    decreases n,
{
    if n >= 16 {
        lemma_hex_text_stands_for(n / 16);
        assert(hex_text(n).drop_last() =~= hex_text(n / 16));
    } else {
        assert(hex_text(n).drop_last() =~= seq![]);
        reveal_with_fuel(hex_value, 2);
        assert(hex_text(n).last() == hex_digit_spec(n));
    }
}

/// Whether all chords of a sequence are as `ok` says.
pub open spec fn sequence_is(seq: Seq<KeyChord>, ok: spec_fn(KeyChord) -> bool) -> bool {
    forall|i: int| 0 <= i < seq.len() ==> ok(#[trigger] seq[i])
}

/// Whether all chords of a table are as `ok` says.
pub open spec fn table_is(table: Map<u32, Seq<KeyChord>>, ok: spec_fn(KeyChord) -> bool) -> bool {
    forall|code_point: u32| #[trigger]
        table.contains_key(code_point) ==> sequence_is(table[code_point], ok)
}

/// Whether all chords of the hex digits are as `ok` says.
pub open spec fn hex_is(hex: Map<u32, KeyChord>, ok: spec_fn(KeyChord) -> bool) -> bool {
    forall|code_point: u32| #[trigger] hex.contains_key(code_point) ==> ok(hex[code_point])
}

/// Whether all characters offered can be typed, and all chords offered for them are as
/// `ok` says.
pub open spec fn offers_are(offers: Seq<Offer>, ok: spec_fn(KeyChord) -> bool) -> bool {
    forall|i: int|
        0 <= i < offers.len() ==> is_typeable((#[trigger] offers[i]).code_point) && sequence_is(
            offers[i].seq,
            ok,
        )
}

/// Whether all chords of a list of bindings are as `ok` says.
pub open spec fn bindings_are(list: Seq<KeyBinding>, ok: spec_fn(KeyChord) -> bool) -> bool {
    forall|i: int| 0 <= i < list.len() ==> ok((#[trigger] list[i]).chord)
}

/// Whether all chords of a list of pairs are as `ok` says.
pub open spec fn pairs_are(pairs: Seq<DeadKeyPair>, ok: spec_fn(KeyChord) -> bool) -> bool {
    forall|i: int|
        0 <= i < pairs.len() ==> ok((#[trigger] pairs[i]).dead.chord) && ok(pairs[i].base.chord)
}

/// Whether a key with this role types what can be typed, with a chord as `ok` says.
pub open spec fn role_is(r: KeyRole, ok: spec_fn(KeyChord) -> bool) -> bool {
    match r {
        KeyRole::Unused => true,
        KeyRole::Dead(b) => ok(b.chord),
        KeyRole::Types(code_point, b) => is_typeable(code_point) && ok(b.chord),
    }
}

/// Whether all keys with these roles are as `role_is` says.
pub open spec fn roles_are(roles: Seq<KeyRole>, ok: spec_fn(KeyChord) -> bool) -> bool {
    forall|i: int| 0 <= i < roles.len() ==> role_is(#[trigger] roles[i], ok)
}

proof fn lemma_layout_roles_are(levels: Seq<KeyLevel>, ok: spec_fn(KeyChord) -> bool)
    requires
        forall|l: int, k: int|
            0 <= l < levels.len() && 0 <= k < levels[l].keys@.len() ==> role_is(
                role(levels[l].combo, #[trigger] levels[l].keys@[k]),
                ok,
            ),
    ensures
        roles_are(layout_roles(levels), ok),
    decreases levels.len(),
{
    if levels.len() > 0 {
        let front = levels.drop_last();
        let n = front.len() as int;
        assert forall|l: int, k: int|
            0 <= l < front.len() && 0 <= k < front[l].keys@.len() implies role_is(
            role(front[l].combo, #[trigger] front[l].keys@[k]),
            ok,
        ) by {
            assert(role_is(role(levels[l].combo, levels[l].keys@[k]), ok));
        }
        lemma_layout_roles_are(front, ok);
        let last = level_roles(levels.last());
        assert forall|i: int| 0 <= i < last.len() implies role_is(#[trigger] last[i], ok) by {
            assert(last[i] == role(levels[n].combo, levels[n].keys@[i]));
        }
    }
}

proof fn lemma_direct_offers_are(roles: Seq<KeyRole>, ok: spec_fn(KeyChord) -> bool)
    requires
        roles_are(roles, ok),
    ensures
        offers_are(direct_offers(roles), ok),
        bindings_are(base_key_list(roles), ok),
        bindings_are(dead_key_list(roles), ok),
    decreases roles.len(),
{
    if roles.len() > 0 {
        let front = roles.drop_last();
        assert forall|i: int| 0 <= i < front.len() implies role_is(#[trigger] front[i], ok) by {
            assert(front[i] == roles[i]);
        }
        assert(role_is(roles[roles.len() - 1], ok));
        lemma_direct_offers_are(front, ok);
    }
}

proof fn lemma_first_of_each_is(list: Seq<KeyBinding>, ok: spec_fn(KeyChord) -> bool)
    requires
        bindings_are(list, ok),
    ensures
        bindings_are(first_of_each(list), ok),
    decreases list.len(),
{
    if list.len() > 0 {
        let front = list.drop_last();
        assert forall|i: int| 0 <= i < front.len() implies ok((#[trigger] front[i]).chord) by {
            assert(front[i] == list[i]);
        }
        assert(ok(list[list.len() - 1].chord));
        lemma_first_of_each_is(front, ok);
    }
}

proof fn lemma_pairs_are(
    dead_keys: Seq<KeyBinding>,
    base_keysyms: Seq<KeyBinding>,
    ok: spec_fn(KeyChord) -> bool,
)
    requires
        bindings_are(dead_keys, ok),
        bindings_are(base_keysyms, ok),
    ensures
        pairs_are(key_pairs(dead_keys, base_keysyms), ok),
{
    let pairs = key_pairs(dead_keys, base_keysyms);
    lemma_pair_members(dead_keys, base_keysyms);
    assert forall|p: int| 0 <= p < pairs.len() implies ok((#[trigger] pairs[p]).dead.chord) && ok(
        pairs[p].base.chord,
    ) by {
        let d = choose|d: int| 0 <= d < dead_keys.len() && dead_keys[d] == pairs[p].dead;
        let b = choose|b: int| 0 <= b < base_keysyms.len() && base_keysyms[b] == pairs[p].base;
        assert(ok(dead_keys[d].chord) && ok(base_keysyms[b].chord));
    }
}

proof fn lemma_composed_offers_are(
    pairs: Seq<DeadKeyPair>,
    outcomes: Seq<ComposeOutcome>,
    ok: spec_fn(KeyChord) -> bool,
)
    requires
        pairs_are(pairs, ok),
    ensures
        offers_are(composed_offers(pairs, outcomes), ok),
    decreases pairs.len(),
{
    if pairs.len() > 0 {
        let front = pairs.drop_last();
        assert forall|i: int| 0 <= i < front.len() implies ok((#[trigger] front[i]).dead.chord)
            && ok(front[i].base.chord) by {
            assert(front[i] == pairs[i]);
        }
        let last = pairs[pairs.len() - 1];
        assert(ok(last.dead.chord) && ok(last.base.chord));
        lemma_composed_offers_are(front, outcomes.drop_last(), ok);
    }
}

/// Whether all characters of a table can be typed.
pub open spec fn table_is_typeable(table: Map<u32, Seq<KeyChord>>) -> bool {
    forall|code_point: u32| #[trigger] table.contains_key(code_point) ==> is_typeable(code_point)
}

proof fn lemma_table_is(
    table: Map<u32, Seq<KeyChord>>,
    offers: Seq<Offer>,
    ok: spec_fn(KeyChord) -> bool,
)
    requires
        table_is_typeable(table),
        table_is(table, ok),
        offers_are(offers, ok),
    ensures
        table_is_typeable(after_offers(table, offers)),
        table_is(after_offers(table, offers), ok),
    decreases offers.len(),
{
    if offers.len() > 0 {
        let front = offers.drop_last();
        assert forall|i: int| 0 <= i < front.len() implies is_typeable(
            (#[trigger] front[i]).code_point,
        ) && sequence_is(front[i].seq, ok) by {
            assert(front[i] == offers[i]);
        }
        let last = offers[offers.len() - 1];
        assert(is_typeable(last.code_point) && sequence_is(last.seq, ok));
        lemma_table_is(table, front, ok);
    }
}

/// What holds of the chords of all keys of a keymap, and of the plain chords that a
/// mapper has by default, holds of all chords of the mapper built from the keymap.
proof fn lemma_mapper_is(
    levels: Seq<KeyLevel>,
    scan: LayoutScan,
    outcomes: Option<&Vec<ComposeOutcome>>,
    mapper: CharMapper,
    ok: spec_fn(KeyChord) -> bool,
)
    requires
        forall|l: int, k: int|
            0 <= l < levels.len() && 0 <= k < levels[l].keys@.len() ==> role_is(
                role(levels[l].combo, #[trigger] levels[l].keys@[k]),
                ok,
            ),
        forall|code: u16| #[trigger] is_standing_key(code) ==> ok(plain_chord(code)),
        scans(scan, layout_roles(levels)),
        mapper.table() == with_essentials(with_compositions(scan, outcomes)),
        mapper.hex_digits@ == hex_chords(mapper.table()),
    ensures
        table_is_typeable(mapper.table()),
        table_is(mapper.table(), ok),
        hex_is(mapper.hex_digits@, ok),
{
    let roles = layout_roles(levels);
    let table = mapper.table();
    let hex = mapper.hex_digits@;
    lemma_layout_roles_are(levels, ok);
    lemma_direct_offers_are(roles, ok);
    lemma_table_is(Map::empty(), direct_offers(roles), ok);
    if let Some(outcomes) = outcomes {
        lemma_first_of_each_is(dead_key_list(roles), ok);
        lemma_first_of_each_is(base_key_list(roles), ok);
        lemma_pairs_are(scan.dead_keys@, scan.base_keysyms@, ok);
        lemma_composed_offers_are(key_pairs(scan.dead_keys@, scan.base_keysyms@), outcomes@, ok);
        lemma_table_is(sequences(scan.map@), scan_offers(scan, outcomes@), ok);
    }
    assert(table_is(with_compositions(scan, outcomes), ok));
    assert(is_standing_key(KEY_SPACE) && is_standing_key(KEY_ENTER) && is_standing_key(KEY_TAB));
    assert(table_is(table, ok));
    assert forall|code_point: u32| #[trigger] hex.contains_key(code_point) implies ok(
        hex[code_point],
    ) by {
        assert(hex[code_point] == hex_chord(table, code_point));
        if table.contains_key(code_point) {
            assert(sequence_is(table[code_point], ok));
        }
        assert(is_standing_key(hex_key(code_point)));
    }
}

/// Whether a device can declare all the keys of a keymap.
pub open spec fn levels_fit(levels: Seq<KeyLevel>) -> bool {
    forall|l: int, k: int|
        0 <= l < levels.len() && 0 <= k < levels[l].keys@.len()
            ==> (#[trigger] levels[l].keys@[k]).keycode < KEY_COUNT + XKB_EVDEV_OFFSET
}

/// A keyboard can be made for a layout: where a device can declare all the keys of
/// the keymap, it can declare all that the mapper built from it uses.
pub proof fn lemma_layout_can_be_declared(
    levels: Seq<KeyLevel>,
    scan: LayoutScan,
    outcomes: Option<&Vec<ComposeOutcome>>,
    mapper: CharMapper,
)
    requires
        levels_fit(levels),
        scans(scan, layout_roles(levels)),
        mapper.table() == with_essentials(with_compositions(scan, outcomes)),
        mapper.hex_digits@ == hex_chords(mapper.table()),
    ensures
        keys_in_range(mapper),
{
    let ok = |chord: KeyChord| chord.keycode < KEY_COUNT;
    let table = mapper.table();
    lemma_mapper_is(levels, scan, outcomes, mapper, ok);
    assert forall|code: u16| #[trigger] table_uses(table, code) implies code < KEY_COUNT by {
        let code_point = choose|code_point: u32| #[trigger]
            table.contains_key(code_point) && sequence_uses(table[code_point], code);
        let i = choose|i: int|
            0 <= i < table[code_point].len() && (#[trigger] table[code_point][i]).keycode == code;
        assert(sequence_is(table[code_point], ok));
        assert(ok(table[code_point][i]));
    }
    assert forall|code: u16| #[trigger] hex_uses(mapper.hex_digits@, code) implies code
        < KEY_COUNT by {
        let code_point = choose|code_point: u32| #[trigger]
            mapper.hex_digits@.contains_key(code_point) && mapper.hex_digits@[code_point].keycode
                == code;
        assert(ok(mapper.hex_digits@[code_point]));
    }
}

/// Whether a keymap with these modifiers can have a chord: its key has a code, and it
/// holds Shift or AltGr only where the keymap has that modifier.
pub open spec fn is_keymap_chord(chord: KeyChord, shift_index: u32, level3_index: u32) -> bool {
    &&& 1 <= chord.keycode <= 65535
    &&& chord.shift ==> modifier_mask(shift_index) != 0
    &&& chord.alt_gr ==> modifier_mask(level3_index) != 0
}

/// A mapper holds nothing that cannot be typed: all its characters can be, none being a
/// control but newline and tab; all its chords, those of the hex digits among them, are
/// of keys that have a code; and none holds a modifier that the keymap lacks.
pub proof fn lemma_mapper_holds_what_can_be_typed(
    levels: Seq<KeyLevel>,
    shift_index: u32,
    level3_index: u32,
    scan: LayoutScan,
    outcomes: Option<&Vec<ComposeOutcome>>,
    mapper: CharMapper,
)
    requires
        reads_keymap(levels, shift_index, level3_index),
        scans(scan, layout_roles(levels)),
        mapper.table() == with_essentials(with_compositions(scan, outcomes)),
        mapper.hex_digits@ == hex_chords(mapper.table()),
    ensures
        forall|code_point: u32| #[trigger]
            mapper.table().contains_key(code_point) ==> is_typeable(code_point),
        forall|code_point: u32, i: int|
            mapper.table().contains_key(code_point) && 0 <= i < mapper.table()[code_point].len()
                ==> is_keymap_chord(
                #[trigger] mapper.table()[code_point][i],
                shift_index,
                level3_index,
            ),
        forall|code_point: u32| #[trigger]
            mapper.hex_digits@.contains_key(code_point) ==> is_keymap_chord(
                mapper.hex_digits@[code_point],
                shift_index,
                level3_index,
            ),
{
    let ok = |chord: KeyChord| is_keymap_chord(chord, shift_index, level3_index);
    let list = combos(shift_index, level3_index);
    assert forall|l: int, k: int|
        0 <= l < levels.len() && 0 <= k < levels[l].keys@.len() implies role_is(
        role(levels[l].combo, #[trigger] levels[l].keys@[k]),
        ok,
    ) by {
        assert(levels[l].combo == list[l]);
    }
    lemma_mapper_is(levels, scan, outcomes, mapper, ok);
    let table = mapper.table();
    assert forall|code_point: u32, i: int|
        table.contains_key(code_point) && 0 <= i < table[code_point].len() implies is_keymap_chord(
        #[trigger] table[code_point][i],
        shift_index,
        level3_index,
    ) by {
        assert(sequence_is(table[code_point], ok));
        assert(ok(table[code_point][i]));
    }
    assert forall|code_point: u32| #[trigger]
        mapper.hex_digits@.contains_key(code_point) implies is_keymap_chord(
        mapper.hex_digits@[code_point],
        shift_index,
        level3_index,
    ) by {
        assert(ok(mapper.hex_digits@[code_point]));
    }
}

} // verus!
