//! What a keymap reading means for the mapper, said of the readings themselves: which
//! characters can be typed, with which chords, and which of several is used.

use vstd::prelude::*;

use crate::choice::{
    lemma_base_keys_plainer_first, lemma_dead_keys_plainer_first, lemma_levels_plainer_first,
    lemma_one_chord_modifiers, modifier_order, plainer, plainer_first, roles_plainer_first,
};
use crate::chord::{
    accepts, after_offers, is_best_offer, is_improved, is_offered, lemma_best_offer_wins,
    offers_taken, ranks_before, sequence_modifiers, sequences, KeyChord, Offer,
};
use crate::compose::{
    composed_code_point, composed_offers, key_pairs, lemma_composed_offer_at,
    lemma_composed_offer_source, lemma_composed_offers, lemma_composed_offers_grow, lemma_pair_at,
    lemma_pair_count, ComposeOutcome, ComposeStatus,
};
use crate::keymap::{
    base_key_list, binds, combos, dead_key_list, direct_offers, first_of_each, has_evdev_code,
    is_first_binding, keys_ascend, layout_roles, lemma_direct_offers, lemma_first_of_each,
    level_roles, modifier_mask, reads_keymap, role, scans, KeyBinding, KeyLevel, KeyReading,
    KeyRole, LayoutScan, ModCombo,
};
use crate::mapper::{hex_chords, with_compositions, with_essentials, CharMapper};
use crate::text::{is_typeable, starts_with};

verus! {

/// Whether a code point is that of a character that can be typed, by the blocks that
/// the controls and the surrogates leave, and with tab and newline.
pub open spec fn is_character(code_point: u32) -> bool {
    ||| code_point == 9
    ||| code_point == 10
    ||| 0x20 <= code_point <= 0x7e
    ||| 0xa0 <= code_point <= 0xd7ff
    ||| 0xe000 <= code_point <= 0x10ffff
}

/// Whether a key has an evdev code and a keysym, so that it can be used at all.
pub open spec fn is_live(key: KeyReading) -> bool {
    9 <= key.keycode <= 65543 && key.keysym != 0
}

/// Whether the keysym of a key is named as those of dead keys are.
pub open spec fn is_named_dead(key: KeyReading) -> bool {
    seq!['d', 'e', 'a', 'd', '_'].is_prefix_of(key.name@)
}

/// Whether a key types the character with this code point by itself.
pub open spec fn key_types(key: KeyReading, code_point: u32) -> bool {
    is_live(key) && !is_named_dead(key) && is_character(code_point) && key.utf32 == code_point
}

/// Whether a key is a dead key.
pub open spec fn key_is_dead(key: KeyReading) -> bool {
    is_live(key) && is_named_dead(key)
}

/// Whether pressing a key under a modifier combination is this chord.
pub open spec fn is_pressed_as(combo: ModCombo, key: KeyReading, chord: KeyChord) -> bool {
    chord.keycode + 8 == key.keycode && chord.shift == combo.shift && chord.alt_gr == combo.alt_gr
}

/// Whether levels have a key at a place.
pub open spec fn has_place(levels: Seq<KeyLevel>, l: int, k: int) -> bool {
    0 <= l < levels.len() && 0 <= k < levels[l].keys@.len()
}

/// Controls and surrogates are all that cannot be typed, but for tab and newline.
pub proof fn lemma_typeable_characters(code_point: u32)
    ensures
        is_typeable(code_point) == is_character(code_point),
{
}

/// The keys that have an evdev code are those with XKB keycodes from 9 to 65543.
pub proof fn lemma_evdev_codes(keycode: u32)
    ensures
        has_evdev_code(keycode) == (9 <= keycode <= 65543),
{
}

/// A key is a dead key, or types the character that the keymap says it types, or is
/// good for nothing; and its chord is its evdev code with the modifiers in force.
pub proof fn lemma_role_of_reading(combo: ModCombo, key: KeyReading)
    ensures
        key_is_dead(key) <==> role(combo, key) is Dead,
        (exists|code_point: u32| key_types(key, code_point)) <==> role(combo, key) is Types,
        role(combo, key) matches KeyRole::Dead(b) ==> b.keysym == key.keysym && is_pressed_as(
            combo,
            key,
            b.chord,
        ),
        role(combo, key) matches KeyRole::Types(code_point, b) ==> code_point == key.utf32
            && b.keysym == key.keysym && is_pressed_as(combo, key, b.chord),
{
    reveal_strlit("dead_");
    assert("dead_"@ =~= seq!['d', 'e', 'a', 'd', '_']);
    assert(starts_with(key.name@, "dead_"@) == is_named_dead(key)) by {
        let prefix = seq!['d', 'e', 'a', 'd', '_'];
        if prefix.len() <= key.name@.len() {
            assert(key.name@.take(5) == key.name@.subrange(0, 5));
        }
    }
    lemma_typeable_characters(key.utf32);
    lemma_evdev_codes(key.keycode);
    if role(combo, key) is Types {
        assert(key_types(key, key.utf32));
    }
}

/// A modifier stands for one bit of a mask, that of its index, where it is below 31.
pub proof fn lemma_modifier_masks(index: u32)
    ensures
        index < 31 ==> modifier_mask(index) as nat == vstd::arithmetic::power2::pow2(
            index as nat,
        ),
        index >= 31 ==> modifier_mask(index) == 0,
{
    if index < 31 {
        vstd::bits::lemma_u32_pow2_no_overflow(index as nat);
        vstd::bits::lemma_u32_shl_is_mul(1, index);
    }
}

/// A keymap is read under every combination of the modifiers that it has, each with
/// the bits of its modifiers and no others, and under each once: plain, then with
/// Shift, then with AltGr, then with both.
pub proof fn lemma_combos(shift_index: u32, level3_index: u32)
    ensures
        forall|combo: ModCombo| #[trigger]
            combos(shift_index, level3_index).contains(combo) <==> {
                &&& combo.shift ==> shift_index < 31
                &&& combo.alt_gr ==> level3_index < 31
                &&& combo.mask == (if combo.shift {
                    1u32 << shift_index
                } else {
                    0
                }) | (if combo.alt_gr {
                    1u32 << level3_index
                } else {
                    0
                })
            },
        forall|i: int, j: int|
            0 <= i < j < combos(shift_index, level3_index).len() ==> {
                let a = #[trigger] combos(shift_index, level3_index)[i];
                let b = #[trigger] combos(shift_index, level3_index)[j];
                (if a.shift { 1int } else { 0 }) + (if a.alt_gr { 2int } else { 0 }) < (if b.shift {
                    1int
                } else {
                    0
                }) + (if b.alt_gr { 2int } else { 0 })
            },
{
    let list = combos(shift_index, level3_index);
    let s = shift_index;
    let l = level3_index;
    assert(s < 31 ==> 1u32 << s != 0) by (bit_vector);
    assert(l < 31 ==> 1u32 << l != 0) by (bit_vector);
    assert forall|x: u32| #[trigger] (x | 0) == x by {
        assert(x | 0 == x) by (bit_vector);
    }
    assert forall|x: u32| #[trigger] (0u32 | x) == x by {
        assert(0u32 | x == x) by (bit_vector);
    }
    assert forall|combo: ModCombo| #[trigger] list.contains(combo) <==> {
        &&& combo.shift ==> s < 31
        &&& combo.alt_gr ==> l < 31
        &&& combo.mask == (if combo.shift {
            1u32 << s
        } else {
            0
        }) | (if combo.alt_gr {
            1u32 << l
        } else {
            0
        })
    } by {
        let plain = ModCombo { mask: 0, shift: false, alt_gr: false };
        let both_at: int = list.len() - 1;
        let level3_at: int = if s < 31 { 2int } else { 1 };
        assert(list[0] == plain);
        if s < 31 {
            assert(list[1] == (ModCombo { mask: 1u32 << s, shift: true, alt_gr: false }));
        }
        if l < 31 {
            assert(list[level3_at] == (ModCombo { mask: 1u32 << l, shift: false, alt_gr: true }));
        }
        if s < 31 && l < 31 {
            assert(list[both_at] == (ModCombo {
                mask: 1u32 << s | 1u32 << l,
                shift: true,
                alt_gr: true,
            }));
        }
        assert(0u32 | 0u32 == 0u32) by (bit_vector);
    }
}

proof fn lemma_role_at(levels: Seq<KeyLevel>, l: int, k: int)
    requires
        has_place(levels, l, k),
    ensures
        layout_roles(levels).contains(role(levels[l].combo, levels[l].keys@[k])),
    decreases levels.len(),
{
    let front = levels.drop_last();
    let before = layout_roles(front);
    let all = layout_roles(levels);
    let r = role(levels[l].combo, levels[l].keys@[k]);
    if l < front.len() {
        lemma_role_at(front, l, k);
        let i = choose|i: int| 0 <= i < before.len() && before[i] == r;
        assert(all[i] == r);
    } else {
        assert(level_roles(levels.last())[k] == r);
        assert(all[before.len() + k] == r);
    }
}

proof fn lemma_role_source(levels: Seq<KeyLevel>, r: KeyRole) -> (at: (int, int))
    requires
        layout_roles(levels).contains(r),
    ensures
        has_place(levels, at.0, at.1),
        role(levels[at.0].combo, levels[at.0].keys@[at.1]) == r,
    decreases levels.len(),
{
    let all = layout_roles(levels);
    let i = choose|i: int| 0 <= i < all.len() && all[i] == r;
    let front = levels.drop_last();
    let before = layout_roles(front);
    if i < before.len() {
        assert(before[i] == r);
        lemma_role_source(front, r)
    } else {
        let k = i - before.len();
        assert(level_roles(levels.last())[k] == r);
        (levels.len() - 1, k)
    }
}

/// How many modifiers a chord holds.
pub open spec fn held(chord: KeyChord) -> int {
    (if chord.shift { 1int } else { 0 }) + (if chord.alt_gr { 1int } else { 0 })
}

/// Whether feeding a dead key and a base key began, and completed, the one character
/// with this code point.
pub open spec fn composes_to(outcome: ComposeOutcome, code_point: u32) -> bool {
    &&& outcome.after_dead == ComposeStatus::Composing
    &&& outcome.after_base == ComposeStatus::Composed
    &&& outcome.utf8 is Some
    &&& outcome.utf8->0@.len() == 1
    &&& outcome.utf8->0@[0] as u32 == code_point
    &&& is_character(code_point)
}

/// A composition is a single character that can be typed, begun by the dead key and
/// completed by the base key; anything else composes nothing.
pub proof fn lemma_compositions(outcome: ComposeOutcome, code_point: u32)
    ensures
        composed_code_point(outcome) == Some(code_point) <==> composes_to(outcome, code_point),
{
    if outcome.utf8 is Some && outcome.utf8->0@.len() == 1 {
        lemma_typeable_characters(outcome.utf8->0@[0] as u32);
    }
}

/// The dead key of the pair at `p`, where dead keys go row by row.
pub open spec fn dead_at(dead_keys: Seq<KeyBinding>, base_keysyms: Seq<KeyBinding>, p: int) -> KeyChord {
    dead_keys[p / (base_keysyms.len() as int)].chord
}

/// The base key of the pair at `p`, where base keys go column by column.
pub open spec fn base_at(dead_keys: Seq<KeyBinding>, base_keysyms: Seq<KeyBinding>, p: int) -> KeyChord {
    base_keysyms[p % (base_keysyms.len() as int)].chord
}

/// Whether the dead key and the base key of the pair at `p` compose a character.
pub open spec fn pair_composes(
    dead_keys: Seq<KeyBinding>,
    base_keysyms: Seq<KeyBinding>,
    outcomes: Seq<ComposeOutcome>,
    p: int,
    code_point: u32,
) -> bool {
    0 <= p < dead_keys.len() * base_keysyms.len() && composes_to(outcomes[p], code_point)
}

/// How many modifiers the chords of the pair at `p` hold.
pub open spec fn pair_held(dead_keys: Seq<KeyBinding>, base_keysyms: Seq<KeyBinding>, p: int) -> int {
    held(dead_at(dead_keys, base_keysyms, p)) + held(base_at(dead_keys, base_keysyms, p))
}

proof fn lemma_pair(dead_keys: Seq<KeyBinding>, base_keysyms: Seq<KeyBinding>, p: int)
    requires
        0 <= p < dead_keys.len() * base_keysyms.len(),
    ensures
        key_pairs(dead_keys, base_keysyms).len() == dead_keys.len() * base_keysyms.len(),
        key_pairs(dead_keys, base_keysyms)[p].dead.chord == dead_at(dead_keys, base_keysyms, p),
        key_pairs(dead_keys, base_keysyms)[p].base.chord == base_at(dead_keys, base_keysyms, p),
{
    let n = base_keysyms.len() as int;
    let rows = dead_keys.len() as int;
    assert(n > 0) by (nonlinear_arith)
        requires
            0 <= p < rows * n,
            0 <= n,
    ;
    assert(0 <= p / n < rows && 0 <= p % n < n && (p / n) * n + p % n == p) by (nonlinear_arith)
        requires
            0 <= p < rows * n,
            n > 0,
    ;
    lemma_pair_at(dead_keys, base_keysyms, p / n, p % n);
}

proof fn lemma_two_chord_modifiers(a: KeyChord, b: KeyChord)
    ensures
        sequence_modifiers(seq![a, b]) == held(a) + held(b),
{
    reveal_with_fuel(sequence_modifiers, 3);
    assert(seq![a, b].drop_last() =~= seq![a]);
    assert(seq![a].drop_last() =~= seq![]);
}

/// Whether the pair at `p` is the one to use for a character, among those that compose
/// it: none holds fewer modifiers, and those that hold as many come later.
pub open spec fn is_best_pair(
    dead_keys: Seq<KeyBinding>,
    base_keysyms: Seq<KeyBinding>,
    outcomes: Seq<ComposeOutcome>,
    p: int,
    code_point: u32,
) -> bool {
    &&& pair_composes(dead_keys, base_keysyms, outcomes, p, code_point)
    &&& forall|q: int| #[trigger]
        pair_composes(dead_keys, base_keysyms, outcomes, q, code_point) ==> {
            ||| pair_held(dead_keys, base_keysyms, p) < pair_held(dead_keys, base_keysyms, q)
            ||| pair_held(dead_keys, base_keysyms, p) == pair_held(dead_keys, base_keysyms, q) && p
                <= q
        }
}

/// Whether the chords of a pair are better than a sequence: fewer, or as many with
/// fewer modifiers.
pub open spec fn pair_beats(dead: KeyChord, base: KeyChord, seq: Seq<KeyChord>) -> bool {
    seq.len() > 2 || seq.len() == 2 && held(dead) + held(base) < held(seq[0]) + held(seq[1])
}

proof fn lemma_pair_beats(dead: KeyChord, base: KeyChord, seq: Seq<KeyChord>)
    ensures
        ranks_before(seq![dead, base], seq) == pair_beats(dead, base, seq),
{
    lemma_two_chord_modifiers(dead, base);
    if seq.len() == 2 {
        lemma_two_chord_modifiers(seq[0], seq[1]);
        assert(seq =~= seq![seq[0], seq[1]]);
    }
}

proof fn lemma_pair_offers(
    dead_keys: Seq<KeyBinding>,
    base_keysyms: Seq<KeyBinding>,
    outcomes: Seq<ComposeOutcome>,
    p: int,
    code_point: u32,
) -> (i: int)
    requires
        outcomes.len() == key_pairs(dead_keys, base_keysyms).len(),
        pair_composes(dead_keys, base_keysyms, outcomes, p, code_point),
    ensures
        ({
            let pairs = key_pairs(dead_keys, base_keysyms);
            let offers = composed_offers(pairs, outcomes);
            &&& i == composed_offers(pairs.take(p), outcomes.take(p)).len()
            &&& 0 <= i < offers.len()
            &&& offers[i].code_point == code_point
            &&& offers[i].seq == seq![
                dead_at(dead_keys, base_keysyms, p),
                base_at(dead_keys, base_keysyms, p),
            ]
        }),
{
    let pairs = key_pairs(dead_keys, base_keysyms);
    lemma_pair(dead_keys, base_keysyms, p);
    lemma_compositions(outcomes[p], code_point);
    lemma_composed_offer_at(pairs, outcomes, p);
    composed_offers(pairs.take(p), outcomes.take(p)).len() as int
}

proof fn lemma_offered_pair(
    dead_keys: Seq<KeyBinding>,
    base_keysyms: Seq<KeyBinding>,
    outcomes: Seq<ComposeOutcome>,
    i: int,
) -> (p: int)
    requires
        outcomes.len() == key_pairs(dead_keys, base_keysyms).len(),
        0 <= i < composed_offers(key_pairs(dead_keys, base_keysyms), outcomes).len(),
    ensures
        ({
            let pairs = key_pairs(dead_keys, base_keysyms);
            let offers = composed_offers(pairs, outcomes);
            &&& pair_composes(dead_keys, base_keysyms, outcomes, p, offers[i].code_point)
            &&& i == composed_offers(pairs.take(p), outcomes.take(p)).len()
            &&& offers[i].seq == seq![
                dead_at(dead_keys, base_keysyms, p),
                base_at(dead_keys, base_keysyms, p),
            ]
        }),
{
    let pairs = key_pairs(dead_keys, base_keysyms);
    let p = lemma_composed_offer_source(pairs, outcomes, i);
    lemma_pair_count(dead_keys, base_keysyms);
    lemma_pair(dead_keys, base_keysyms, p);
    lemma_compositions(outcomes[p], composed_offers(pairs, outcomes)[i].code_point);
    p
}

proof fn lemma_best_pair(
    dead_keys: Seq<KeyBinding>,
    base_keysyms: Seq<KeyBinding>,
    outcomes: Seq<ComposeOutcome>,
    code_point: u32,
    i: int,
) -> (p: int)
    requires
        outcomes.len() == key_pairs(dead_keys, base_keysyms).len(),
        is_best_offer(
            composed_offers(key_pairs(dead_keys, base_keysyms), outcomes),
            code_point,
            i,
        ),
    ensures
        is_best_pair(dead_keys, base_keysyms, outcomes, p, code_point),
        composed_offers(key_pairs(dead_keys, base_keysyms), outcomes)[i].seq == seq![
            dead_at(dead_keys, base_keysyms, p),
            base_at(dead_keys, base_keysyms, p),
        ],
{
    let pairs = key_pairs(dead_keys, base_keysyms);
    let offers = composed_offers(pairs, outcomes);
    let p = lemma_offered_pair(dead_keys, base_keysyms, outcomes, i);
    lemma_pair_count(dead_keys, base_keysyms);
    lemma_two_chord_modifiers(
        dead_at(dead_keys, base_keysyms, p),
        base_at(dead_keys, base_keysyms, p),
    );
    assert forall|q: int| #[trigger]
        pair_composes(dead_keys, base_keysyms, outcomes, q, code_point) implies pair_held(
        dead_keys,
        base_keysyms,
        p,
    ) < pair_held(dead_keys, base_keysyms, q) || pair_held(dead_keys, base_keysyms, p)
        == pair_held(dead_keys, base_keysyms, q) && p <= q by {
        let j = lemma_pair_offers(dead_keys, base_keysyms, outcomes, q, code_point);
        lemma_two_chord_modifiers(
            dead_at(dead_keys, base_keysyms, q),
            base_at(dead_keys, base_keysyms, q),
        );
        assert(offers[j].code_point == code_point);
        if q < p {
            lemma_composed_offer_at(pairs, outcomes, q);
            lemma_composed_offers_grow(pairs, outcomes, q + 1, p);
            lemma_compositions(outcomes[q], code_point);
            assert(j < i);
        }
    }
    p
}

/// Every composition counts: a character that a dead key and a base key compose has an
/// entry afterwards, and none that is worse than these two chords. And nothing else
/// does: an entry that has changed, or is new, is the pair to use for its character,
/// where that is better than what was there; all others are as they were.
pub proof fn lemma_expansion(
    table: Map<u32, Seq<KeyChord>>,
    dead_keys: Seq<KeyBinding>,
    base_keysyms: Seq<KeyBinding>,
    outcomes: Seq<ComposeOutcome>,
    code_point: u32,
)
    requires
        outcomes.len() == key_pairs(dead_keys, base_keysyms).len(),
    ensures
        ({
            let after = after_offers(
                table,
                composed_offers(key_pairs(dead_keys, base_keysyms), outcomes),
            );
            &&& forall|p: int| #[trigger]
                pair_composes(dead_keys, base_keysyms, outcomes, p, code_point) ==> {
                    &&& after.contains_key(code_point)
                    &&& !pair_beats(
                        dead_at(dead_keys, base_keysyms, p),
                        base_at(dead_keys, base_keysyms, p),
                        after[code_point],
                    )
                }
            &&& table.contains_key(code_point) ==> after.contains_key(code_point)
            &&& after.contains_key(code_point) ==> {
                ||| table.contains_key(code_point) && after[code_point] == table[code_point]
                ||| exists|p: int|
                    {
                        &&& #[trigger] is_best_pair(
                            dead_keys,
                            base_keysyms,
                            outcomes,
                            p,
                            code_point,
                        )
                        &&& after[code_point] == seq![
                            dead_at(dead_keys, base_keysyms, p),
                            base_at(dead_keys, base_keysyms, p),
                        ]
                        &&& table.contains_key(code_point) ==> pair_beats(
                            dead_at(dead_keys, base_keysyms, p),
                            base_at(dead_keys, base_keysyms, p),
                            table[code_point],
                        )
                    }
            }
        }),
{
    let pairs = key_pairs(dead_keys, base_keysyms);
    let offers = composed_offers(pairs, outcomes);
    let after = after_offers(table, offers);
    lemma_best_offer_wins(table, offers, code_point);
    if is_improved(table, offers, code_point) {
        let i = choose|i: int| #[trigger]
            is_best_offer(offers, code_point, i) && after[code_point] == offers[i].seq;
        let p = lemma_best_pair(dead_keys, base_keysyms, outcomes, code_point, i);
        let dead = dead_at(dead_keys, base_keysyms, p);
        let base = base_at(dead_keys, base_keysyms, p);
        if table.contains_key(code_point) {
            lemma_pair_beats(dead, base, table[code_point]);
            let w = choose|w: int|
                #![trigger offers[w]]
                0 <= w < offers.len() && offers[w].code_point == code_point && accepts(
                    table,
                    code_point,
                    offers[w].seq,
                );
            assert(!ranks_before(offers[w].seq, offers[i].seq));
            assert(ranks_before(offers[i].seq, table[code_point]));
        }
        assert(is_best_pair(dead_keys, base_keysyms, outcomes, p, code_point));
    }
    assert forall|p: int| #[trigger]
        pair_composes(dead_keys, base_keysyms, outcomes, p, code_point) implies after.contains_key(
        code_point,
    ) && !pair_beats(
        dead_at(dead_keys, base_keysyms, p),
        base_at(dead_keys, base_keysyms, p),
        after[code_point],
    ) by {
        let j = lemma_pair_offers(dead_keys, base_keysyms, outcomes, p, code_point);
        assert(offers[j].code_point == code_point);
        assert(is_offered(offers, code_point));
        lemma_pair_beats(
            dead_at(dead_keys, base_keysyms, p),
            base_at(dead_keys, base_keysyms, p),
            after[code_point],
        );
        if is_improved(table, offers, code_point) {
            let i = choose|i: int| #[trigger]
                is_best_offer(offers, code_point, i) && after[code_point] == offers[i].seq;
            assert(!ranks_before(offers[j].seq, offers[i].seq));
        } else {
            assert(!accepts(table, code_point, offers[j].seq));
        }
    }
}

proof fn lemma_prefix_offer(
    dead_keys: Seq<KeyBinding>,
    base_keysyms: Seq<KeyBinding>,
    outcomes: Seq<ComposeOutcome>,
    n: int,
    q: int,
    code_point: u32,
) -> (j: int)
    requires
        outcomes.len() == key_pairs(dead_keys, base_keysyms).len(),
        0 <= q < n <= outcomes.len(),
        pair_composes(dead_keys, base_keysyms, outcomes, q, code_point),
    ensures
        ({
            let offers = composed_offers(
                key_pairs(dead_keys, base_keysyms).take(n),
                outcomes.take(n),
            );
            &&& 0 <= j < offers.len()
            &&& offers[j].code_point == code_point
            &&& offers[j].seq == seq![
                dead_at(dead_keys, base_keysyms, q),
                base_at(dead_keys, base_keysyms, q),
            ]
        }),
{
    let pairs = key_pairs(dead_keys, base_keysyms).take(n);
    let some = outcomes.take(n);
    lemma_pair(dead_keys, base_keysyms, q);
    lemma_compositions(outcomes[q], code_point);
    lemma_composed_offer_at(pairs, some, q);
    composed_offers(pairs.take(q), some.take(q)).len() as int
}

proof fn lemma_prefix_source(
    dead_keys: Seq<KeyBinding>,
    base_keysyms: Seq<KeyBinding>,
    outcomes: Seq<ComposeOutcome>,
    n: int,
    j: int,
) -> (q: int)
    requires
        outcomes.len() == key_pairs(dead_keys, base_keysyms).len(),
        0 <= n <= outcomes.len(),
        0 <= j < composed_offers(
            key_pairs(dead_keys, base_keysyms).take(n),
            outcomes.take(n),
        ).len(),
    ensures
        ({
            let offers = composed_offers(
                key_pairs(dead_keys, base_keysyms).take(n),
                outcomes.take(n),
            );
            &&& 0 <= q < n
            &&& pair_composes(dead_keys, base_keysyms, outcomes, q, offers[j].code_point)
            &&& offers[j].seq == seq![
                dead_at(dead_keys, base_keysyms, q),
                base_at(dead_keys, base_keysyms, q),
            ]
        }),
{
    let pairs = key_pairs(dead_keys, base_keysyms).take(n);
    let some = outcomes.take(n);
    let q = lemma_composed_offer_source(pairs, some, j);
    lemma_pair_count(dead_keys, base_keysyms);
    lemma_pair(dead_keys, base_keysyms, q);
    lemma_compositions(outcomes[q], composed_offers(pairs, some)[j].code_point);
    q
}

/// Whether the pair at `p` composes a character, and its chords are better than what a
/// table has for it and than those of all pairs before it that compose it.
pub open spec fn is_gain(
    table: Map<u32, Seq<KeyChord>>,
    dead_keys: Seq<KeyBinding>,
    base_keysyms: Seq<KeyBinding>,
    outcomes: Seq<ComposeOutcome>,
    p: int,
) -> bool {
    exists|code_point: u32|
        {
            &&& #[trigger] pair_composes(dead_keys, base_keysyms, outcomes, p, code_point)
            &&& table.contains_key(code_point) ==> pair_beats(
                dead_at(dead_keys, base_keysyms, p),
                base_at(dead_keys, base_keysyms, p),
                table[code_point],
            )
            &&& forall|q: int|
                0 <= q < p && #[trigger] pair_composes(
                    dead_keys,
                    base_keysyms,
                    outcomes,
                    q,
                    code_point,
                ) ==> pair_held(dead_keys, base_keysyms, p) < pair_held(
                    dead_keys,
                    base_keysyms,
                    q,
                )
        }
}

proof fn lemma_gain(
    table: Map<u32, Seq<KeyChord>>,
    dead_keys: Seq<KeyBinding>,
    base_keysyms: Seq<KeyBinding>,
    outcomes: Seq<ComposeOutcome>,
    n: int,
    code_point: u32,
)
    requires
        outcomes.len() == key_pairs(dead_keys, base_keysyms).len(),
        pair_composes(dead_keys, base_keysyms, outcomes, n, code_point),
        n < outcomes.len(),
    ensures
        ({
            let before = composed_offers(
                key_pairs(dead_keys, base_keysyms).take(n),
                outcomes.take(n),
            );
            let seq = seq![
                dead_at(dead_keys, base_keysyms, n),
                base_at(dead_keys, base_keysyms, n),
            ];
            accepts(after_offers(table, before), code_point, seq) == is_gain(
                table,
                dead_keys,
                base_keysyms,
                outcomes,
                n,
            )
        }),
{
    let offers = composed_offers(key_pairs(dead_keys, base_keysyms).take(n), outcomes.take(n));
    let dead = dead_at(dead_keys, base_keysyms, n);
    let base = base_at(dead_keys, base_keysyms, n);
    let seq = seq![dead, base];
    let after = after_offers(table, offers);
    lemma_best_offer_wins(table, offers, code_point);
    lemma_two_chord_modifiers(dead, base);
    if table.contains_key(code_point) {
        lemma_pair_beats(dead, base, table[code_point]);
    }
    if is_gain(table, dead_keys, base_keysyms, outcomes, n) {
        if is_improved(table, offers, code_point) {
            let i = choose|i: int| #[trigger]
                is_best_offer(offers, code_point, i) && after[code_point] == offers[i].seq;
            let q = lemma_prefix_source(dead_keys, base_keysyms, outcomes, n, i);
            lemma_two_chord_modifiers(
                dead_at(dead_keys, base_keysyms, q),
                base_at(dead_keys, base_keysyms, q),
            );
            assert(pair_held(dead_keys, base_keysyms, n) < pair_held(dead_keys, base_keysyms, q));
        }
        assert(accepts(after, code_point, seq));
    }
    if accepts(after, code_point, seq) {
        assert forall|q: int|
            0 <= q < n && #[trigger] pair_composes(
                dead_keys,
                base_keysyms,
                outcomes,
                q,
                code_point,
            ) implies pair_held(dead_keys, base_keysyms, n) < pair_held(
            dead_keys,
            base_keysyms,
            q,
        ) by {
            let j = lemma_prefix_offer(dead_keys, base_keysyms, outcomes, n, q, code_point);
            lemma_two_chord_modifiers(
                dead_at(dead_keys, base_keysyms, q),
                base_at(dead_keys, base_keysyms, q),
            );
            assert(offers[j].code_point == code_point);
            assert(is_offered(offers, code_point));
            if is_improved(table, offers, code_point) {
                let i = choose|i: int| #[trigger]
                    is_best_offer(offers, code_point, i) && after[code_point] == offers[i].seq;
                assert(!ranks_before(offers[j].seq, offers[i].seq));
            } else {
                assert(!accepts(table, code_point, offers[j].seq));
            }
        }
        if table.contains_key(code_point) && is_improved(table, offers, code_point) {
            let i = choose|i: int| #[trigger]
                is_best_offer(offers, code_point, i) && after[code_point] == offers[i].seq;
            let w = choose|w: int|
                #![trigger offers[w]]
                0 <= w < offers.len() && offers[w].code_point == code_point && accepts(
                    table,
                    code_point,
                    offers[w].seq,
                );
            assert(!ranks_before(offers[w].seq, offers[i].seq));
        }
        assert(is_gain(table, dead_keys, base_keysyms, outcomes, n));
    }
}

/// The sequences added are counted: as many as there are pairs that bring a better
/// stroke for the character they compose than the table and the pairs before them do.
pub proof fn lemma_added_sequences(
    table: Map<u32, Seq<KeyChord>>,
    dead_keys: Seq<KeyBinding>,
    base_keysyms: Seq<KeyBinding>,
    outcomes: Seq<ComposeOutcome>,
)
    requires
        outcomes.len() == key_pairs(dead_keys, base_keysyms).len(),
    ensures
        offers_taken(table, composed_offers(key_pairs(dead_keys, base_keysyms), outcomes))
            == Seq::new(dead_keys.len() * base_keysyms.len(), |p: int| p).filter(
            |p: int| is_gain(table, dead_keys, base_keysyms, outcomes, p),
        ).len(),
{
    let pairs = key_pairs(dead_keys, base_keysyms);
    lemma_pair_count(dead_keys, base_keysyms);
    lemma_added_before(table, dead_keys, base_keysyms, outcomes, pairs.len());
    assert(pairs.take(pairs.len() as int) =~= pairs);
    assert(outcomes.take(pairs.len() as int) =~= outcomes);
}

proof fn lemma_added_before(
    table: Map<u32, Seq<KeyChord>>,
    dead_keys: Seq<KeyBinding>,
    base_keysyms: Seq<KeyBinding>,
    outcomes: Seq<ComposeOutcome>,
    n: nat,
)
    requires
        outcomes.len() == key_pairs(dead_keys, base_keysyms).len(),
        n <= outcomes.len(),
    ensures
        offers_taken(
            table,
            composed_offers(key_pairs(dead_keys, base_keysyms).take(n as int), outcomes.take(n as int)),
        ) == Seq::new(n, |p: int| p).filter(
            |p: int| is_gain(table, dead_keys, base_keysyms, outcomes, p),
        ).len(),
    decreases n,
{
    reveal(Seq::filter);
    let gains = |p: int| is_gain(table, dead_keys, base_keysyms, outcomes, p);
    let pairs = key_pairs(dead_keys, base_keysyms);
    let all = Seq::new(n, |p: int| p);
    if n > 0 {
        let p = n - 1;
        lemma_pair_count(dead_keys, base_keysyms);
        lemma_added_before(table, dead_keys, base_keysyms, outcomes, p as nat);
        assert(all.drop_last() =~= Seq::new(p as nat, |p: int| p));
        assert(pairs.take(n as int).drop_last() =~= pairs.take(p));
        assert(outcomes.take(n as int).drop_last() =~= outcomes.take(p));
        let before = composed_offers(pairs.take(p), outcomes.take(p));
        let after = composed_offers(pairs.take(n as int), outcomes.take(n as int));
        match composed_code_point(outcomes[p]) {
            Some(code_point) => {
                lemma_compositions(outcomes[p], code_point);
                lemma_pair(dead_keys, base_keysyms, p);
                lemma_gain(table, dead_keys, base_keysyms, outcomes, p, code_point);
                assert(after.drop_last() =~= before);
            },
            None => {
                if is_gain(table, dead_keys, base_keysyms, outcomes, p) {
                    let code_point = choose|code_point: u32| #[trigger]
                        pair_composes(dead_keys, base_keysyms, outcomes, p, code_point);
                    lemma_compositions(outcomes[p], code_point);
                }
            },
        }
    }
}

/// Whether levels are read with the plainer modifiers first, in the order none, Shift,
/// AltGr, both, and the keys of each in ascending order.
pub open spec fn is_read_in_order(levels: Seq<KeyLevel>) -> bool {
    &&& forall|l: int, m: int|
        0 <= l < m < levels.len() ==> {
            let a = (#[trigger] levels[l]).combo;
            let b = (#[trigger] levels[m]).combo;
            (if a.shift { 1int } else { 0 }) + (if a.alt_gr { 2int } else { 0 }) < (if b.shift {
                1int
            } else {
                0
            }) + (if b.alt_gr { 2int } else { 0 })
        }
    &&& forall|l: int, i: int, j: int|
        has_place(levels, l, i) && has_place(levels, l, j) && i < j ==> (
        #[trigger] levels[l].keys@[i]).keycode < (#[trigger] levels[l].keys@[j]).keycode
}

/// Whether some level is read with just these modifiers.
pub open spec fn is_read_with(levels: Seq<KeyLevel>, shift: bool, alt_gr: bool) -> bool {
    exists|l: int|
        0 <= l < levels.len() && (#[trigger] levels[l]).combo.shift == shift
            && levels[l].combo.alt_gr == alt_gr
}

/// The levels of a keymap are read in order, and under every combination of the
/// modifiers that it has.
pub proof fn lemma_reading_order(levels: Seq<KeyLevel>, shift_index: u32, level3_index: u32)
    requires
        reads_keymap(levels, shift_index, level3_index),
    ensures
        is_read_in_order(levels),
        forall|shift: bool, alt_gr: bool| #[trigger]
            is_read_with(levels, shift, alt_gr) <==> (shift ==> shift_index < 31) && (alt_gr
                ==> level3_index < 31),
        forall|l: int|
            0 <= l < levels.len() ==> (#[trigger] levels[l]).combo.mask == (if levels[l].combo.shift {
                1u32 << shift_index
            } else {
                0
            }) | (if levels[l].combo.alt_gr {
                1u32 << level3_index
            } else {
                0
            }),
{
    let list = combos(shift_index, level3_index);
    lemma_combos(shift_index, level3_index);
    assert forall|l: int| 0 <= l < levels.len() implies list.contains(
        (#[trigger] levels[l]).combo,
    ) by {
        assert(list[l] == levels[l].combo);
    }
    assert forall|l: int, m: int| 0 <= l < m < levels.len() implies ({
        let a = (#[trigger] levels[l]).combo;
        let b = (#[trigger] levels[m]).combo;
        (if a.shift { 1int } else { 0 }) + (if a.alt_gr { 2int } else { 0 }) < (if b.shift {
            1int
        } else {
            0
        }) + (if b.alt_gr { 2int } else { 0 })
    }) by {
        assert(list[l] == levels[l].combo && list[m] == levels[m].combo);
    }
    assert forall|l: int, i: int, j: int|
        has_place(levels, l, i) && has_place(levels, l, j) && i < j implies (
    #[trigger] levels[l].keys@[i]).keycode < (#[trigger] levels[l].keys@[j]).keycode by {
        assert(keys_ascend(levels[l]));
    }
    assert forall|shift: bool, alt_gr: bool| #[trigger]
        is_read_with(levels, shift, alt_gr) <==> (shift ==> shift_index < 31) && (alt_gr
            ==> level3_index < 31) by {
        if (shift ==> shift_index < 31) && (alt_gr ==> level3_index < 31) {
            let mask = (if shift {
                1u32 << shift_index
            } else {
                0
            }) | (if alt_gr {
                1u32 << level3_index
            } else {
                0
            });
            let combo = ModCombo { mask, shift, alt_gr };
            assert(list.contains(combo));
            let l = choose|l: int| 0 <= l < list.len() && list[l] == combo;
            assert(levels[l].combo == combo);
        }
    }
}

/// Whether `a` comes before `b`, or is `b`, in the order none, Shift, AltGr, both, and
/// with the same modifiers by the key code.
pub open spec fn is_no_later(a: KeyChord, b: KeyChord) -> bool {
    let x = (if a.shift { 1int } else { 0 }) + (if a.alt_gr { 2int } else { 0 });
    let y = (if b.shift { 1int } else { 0 }) + (if b.alt_gr { 2int } else { 0 });
    x < y || x == y && a.keycode <= b.keycode
}

proof fn lemma_in_order(levels: Seq<KeyLevel>)
    requires
        is_read_in_order(levels),
    ensures
        roles_plainer_first(layout_roles(levels)),
{
    assert forall|l: int| 0 <= l < levels.len() implies keys_ascend(#[trigger] levels[l]) by {
        assert forall|i: int, j: int| 0 <= i < j < levels[l].keys@.len() implies (
        #[trigger] levels[l].keys@[i]).keycode < (#[trigger] levels[l].keys@[j]).keycode by {
            assert(has_place(levels, l, i) && has_place(levels, l, j));
        }
    }
    lemma_levels_plainer_first(levels);
}

/// Whether the key at a place types a character by itself, with this chord.
pub open spec fn types_with(
    levels: Seq<KeyLevel>,
    l: int,
    k: int,
    code_point: u32,
    chord: KeyChord,
) -> bool {
    &&& has_place(levels, l, k)
    &&& key_types(levels[l].keys@[k], code_point)
    &&& is_pressed_as(levels[l].combo, levels[l].keys@[k], chord)
}

proof fn lemma_typing_role(
    levels: Seq<KeyLevel>,
    l: int,
    k: int,
    code_point: u32,
    chord: KeyChord,
) -> (b: KeyBinding)
    requires
        types_with(levels, l, k, code_point, chord),
    ensures
        layout_roles(levels).contains(KeyRole::Types(code_point, b)),
        b.chord == chord,
        b.keysym == levels[l].keys@[k].keysym,
{
    let key = levels[l].keys@[k];
    let combo = levels[l].combo;
    lemma_role_at(levels, l, k);
    lemma_role_of_reading(combo, key);
    match role(combo, key) {
        KeyRole::Types(_, b) => b,
        _ => KeyBinding { keysym: 0, chord },
    }
}

proof fn lemma_typing_key(levels: Seq<KeyLevel>, code_point: u32, b: KeyBinding) -> (at: (int, int))
    requires
        layout_roles(levels).contains(KeyRole::Types(code_point, b)),
    ensures
        types_with(levels, at.0, at.1, code_point, b.chord),
        levels[at.0].keys@[at.1].keysym == b.keysym,
{
    let at = lemma_role_source(levels, KeyRole::Types(code_point, b));
    lemma_role_of_reading(levels[at.0].combo, levels[at.0].keys@[at.1]);
    at
}

/// Keys type their own characters: a scan has an entry for exactly the characters that
/// some key types by itself. The entry is the chord of such a key, no other such chord
/// holds fewer modifiers, and where the levels are read in order none comes before it.
pub proof fn lemma_scanned_characters(
    levels: Seq<KeyLevel>,
    scan: LayoutScan,
    code_point: u32,
)
    requires
        scans(scan, layout_roles(levels)),
    ensures
        forall|l: int, k: int, chord: KeyChord| #[trigger]
            types_with(levels, l, k, code_point, chord) ==> {
                &&& scan.map@.contains_key(code_point)
                &&& scan.map@[code_point]@.len() == 1
                &&& held(scan.map@[code_point]@[0]) <= held(chord)
                &&& is_read_in_order(levels) ==> is_no_later(scan.map@[code_point]@[0], chord)
            },
        scan.map@.contains_key(code_point) ==> scan.map@[code_point]@.len() == 1 && exists|
            l: int,
            k: int,
        | #[trigger]
            types_with(levels, l, k, code_point, scan.map@[code_point]@[0]),
{
    let roles = layout_roles(levels);
    let offers = direct_offers(roles);
    let base = base_key_list(roles);
    let table = after_offers(Map::empty(), offers);
    lemma_best_offer_wins(Map::empty(), offers, code_point);
    lemma_base_keys_plainer_first(roles);
    lemma_direct_offers(roles);
    if is_read_in_order(levels) {
        lemma_in_order(levels);
    }
    assert(sequences(scan.map@) == table);
    assert(table.contains_key(code_point) == scan.map@.contains_key(code_point));
    if scan.map@.contains_key(code_point) {
        assert(table[code_point] == scan.map@[code_point]@);
        let i = choose|i: int| #[trigger]
            is_best_offer(offers, code_point, i) && table[code_point] == offers[i].seq;
        assert(roles.contains(KeyRole::Types(offers[i].code_point, base[i])));
        assert(offers[i].seq == seq![base[i].chord]);
        let at = lemma_typing_key(levels, code_point, base[i]);
        assert(types_with(levels, at.0, at.1, code_point, scan.map@[code_point]@[0]));
    }
    assert forall|l: int, k: int, chord: KeyChord| #[trigger]
        types_with(levels, l, k, code_point, chord) implies scan.map@.contains_key(code_point)
        && scan.map@[code_point]@.len() == 1 && held(scan.map@[code_point]@[0]) <= held(chord) && (
    is_read_in_order(levels) ==> is_no_later(scan.map@[code_point]@[0], chord)) by {
        let b = lemma_typing_role(levels, l, k, code_point, chord);
        let j = choose|j: int|
            0 <= j < base.len() && #[trigger] base[j] == b && offers[j].code_point == code_point;
        assert(offers[j].code_point == code_point);
        assert(is_offered(offers, code_point));
        let i = choose|i: int| #[trigger]
            is_best_offer(offers, code_point, i) && table[code_point] == offers[i].seq;
        assert(offers[i].seq == seq![base[i].chord]);
        lemma_one_chord_modifiers(base[i].chord);
        lemma_one_chord_modifiers(b.chord);
        if plainer_first(base) && j < i {
            assert(plainer(base[j].chord, base[i].chord));
        }
    }
}

proof fn lemma_first_of_each_in_order(list: Seq<KeyBinding>)
    requires
        plainer_first(list),
    ensures
        plainer_first(first_of_each(list)),
    decreases list.len(),
{
    if list.len() > 0 {
        let front = list.drop_last();
        let n = front.len() as int;
        let before = first_of_each(front);
        let after = first_of_each(list);
        assert forall|i: int, j: int| 0 <= i < j < front.len() implies plainer(
            (#[trigger] front[i]).chord,
            (#[trigger] front[j]).chord,
        ) by {
            assert(front[i] == list[i] && front[j] == list[j]);
        }
        lemma_first_of_each_in_order(front);
        lemma_first_of_each(front);
        assert forall|i: int, j: int| 0 <= i < j < after.len() implies plainer(
            (#[trigger] after[i]).chord,
            (#[trigger] after[j]).chord,
        ) by {
            assert(after[i] == before[i]);
            if j < before.len() {
                assert(after[j] == before[j]);
            } else {
                assert(before.contains(before[i]));
                let k = choose|k: int| #[trigger]
                    is_first_binding(front, k) && front[k] == before[i];
                assert(list[k] == after[i] && list[n] == after[j]);
            }
        }
    }
}

proof fn lemma_kept_key_is_listed(list: Seq<KeyBinding>, i: int) -> (m: int)
    requires
        0 <= i < first_of_each(list).len(),
    ensures
        0 <= m < list.len(),
        list[m] == first_of_each(list)[i],
{
    let kept = first_of_each(list);
    lemma_first_of_each(list);
    assert(kept.contains(kept[i]));
    choose|k: int| #[trigger] is_first_binding(list, k) && list[k] == kept[i]
}

proof fn lemma_listed_key_is_kept(list: Seq<KeyBinding>, m: int) -> (i: int)
    requires
        0 <= m < list.len(),
    ensures
        0 <= i < first_of_each(list).len(),
        first_of_each(list)[i].keysym == list[m].keysym,
        plainer_first(list) ==> first_of_each(list)[i].chord == list[m].chord || plainer(
            first_of_each(list)[i].chord,
            list[m].chord,
        ),
{
    let kept = first_of_each(list);
    lemma_first_of_each(list);
    assert(binds(list, list[m].keysym));
    assert(binds(kept, list[m].keysym));
    let i = choose|i: int| 0 <= i < kept.len() && (#[trigger] kept[i]).keysym == list[m].keysym;
    assert(kept.contains(kept[i]));
    let k = choose|k: int| #[trigger] is_first_binding(list, k) && list[k] == kept[i];
    assert(k <= m);
    i
}

proof fn lemma_each_kept_once(list: Seq<KeyBinding>)
    ensures
        has_each_once(first_of_each(list)),
{
    lemma_first_of_each(list);
}

/// Whether the key at a place produces the keysym of a binding with its chord.
pub open spec fn is_bound_at(levels: Seq<KeyLevel>, l: int, k: int, b: KeyBinding) -> bool {
    &&& has_place(levels, l, k)
    &&& levels[l].keys@[k].keysym == b.keysym
    &&& is_pressed_as(levels[l].combo, levels[l].keys@[k], b.chord)
}

/// Whether a list has each keysym once.
pub open spec fn has_each_once(list: Seq<KeyBinding>) -> bool {
    forall|i: int, j: int|
        0 <= i < j < list.len() ==> (#[trigger] list[i]).keysym != (#[trigger] list[j]).keysym
}

/// Whether the chords of a list come in the order none, Shift, AltGr, both, and with
/// the same modifiers by the key code.
pub open spec fn is_in_order(list: Seq<KeyBinding>) -> bool {
    forall|i: int, j: int|
        0 <= i < j < list.len() ==> is_no_later(
            (#[trigger] list[i]).chord,
            (#[trigger] list[j]).chord,
        )
}

/// Whether some dead key of the keymap produces the keysym of a binding with its chord.
pub open spec fn is_dead_binding(levels: Seq<KeyLevel>, b: KeyBinding) -> bool {
    exists|l: int, k: int| #[trigger]
        is_bound_at(levels, l, k, b) && key_is_dead(levels[l].keys@[k])
}

/// Whether some key of the keymap that types a character produces the keysym of a
/// binding with its chord.
pub open spec fn is_base_binding(levels: Seq<KeyLevel>, b: KeyBinding) -> bool {
    exists|l: int, k: int| #[trigger]
        is_bound_at(levels, l, k, b) && key_types(levels[l].keys@[k], levels[l].keys@[k].utf32)
}

/// Whether a list keeps the keysym of a binding, with a chord that is no later where
/// `in_order` says so.
pub open spec fn keeps(list: Seq<KeyBinding>, b: KeyBinding, in_order: bool) -> bool {
    exists|i: int|
        0 <= i < list.len() && (#[trigger] list[i]).keysym == b.keysym && (in_order
            ==> is_no_later(list[i].chord, b.chord))
}

/// The dead keys of a scan are those of the keymap: each keysym of a dead key once, with
/// a chord that produces it. Where the levels are read in order no dead key produces it
/// with an earlier chord, and the dead keys are in that order themselves.
pub proof fn lemma_scanned_dead_keys(levels: Seq<KeyLevel>, scan: LayoutScan)
    requires
        scans(scan, layout_roles(levels)),
    ensures
        has_each_once(scan.dead_keys@),
        is_read_in_order(levels) ==> is_in_order(scan.dead_keys@),
        forall|i: int|
            0 <= i < scan.dead_keys@.len() ==> is_dead_binding(levels, #[trigger] scan.dead_keys@[i]),
        forall|b: KeyBinding| #[trigger]
            is_dead_binding(levels, b) ==> keeps(scan.dead_keys@, b, is_read_in_order(levels)),
{
    let roles = layout_roles(levels);
    let list = dead_key_list(roles);
    let kept = scan.dead_keys@;
    lemma_dead_keys_plainer_first(roles);
    lemma_each_kept_once(list);
    if is_read_in_order(levels) {
        lemma_in_order(levels);
        lemma_first_of_each_in_order(list);
    }
    assert forall|i: int| 0 <= i < kept.len() implies is_dead_binding(levels, #[trigger] kept[i]) by {
        let m = lemma_kept_key_is_listed(list, i);
        assert(roles.contains(KeyRole::Dead(list[m])));
        let at = lemma_role_source(levels, KeyRole::Dead(kept[i]));
        lemma_role_of_reading(levels[at.0].combo, levels[at.0].keys@[at.1]);
        assert(is_bound_at(levels, at.0, at.1, kept[i]));
    }
    assert forall|b: KeyBinding| #[trigger] is_dead_binding(levels, b) implies keeps(
        kept,
        b,
        is_read_in_order(levels),
    ) by {
        let (l, k) = choose|l: int, k: int| #[trigger]
            is_bound_at(levels, l, k, b) && key_is_dead(levels[l].keys@[k]);
        lemma_role_at(levels, l, k);
        lemma_role_of_reading(levels[l].combo, levels[l].keys@[k]);
        assert(roles.contains(KeyRole::Dead(b)));
        assert(list.contains(b));
        let m = choose|m: int| 0 <= m < list.len() && list[m] == b;
        let i = lemma_listed_key_is_kept(list, m);
        assert(kept[i].keysym == b.keysym);
    }
}

/// The base keys of a scan are the keys of the keymap that type a character: each keysym
/// of such a key once, with a chord that produces it. Where the levels are read in order
/// no such key produces it with an earlier chord, and the base keys are in that order
/// themselves.
pub proof fn lemma_scanned_base_keys(levels: Seq<KeyLevel>, scan: LayoutScan)
    requires
        scans(scan, layout_roles(levels)),
    ensures
        has_each_once(scan.base_keysyms@),
        is_read_in_order(levels) ==> is_in_order(scan.base_keysyms@),
        forall|i: int|
            0 <= i < scan.base_keysyms@.len() ==> is_base_binding(levels, #[trigger] scan.base_keysyms@[i]),
        forall|b: KeyBinding| #[trigger]
            is_base_binding(levels, b) ==> keeps(scan.base_keysyms@, b, is_read_in_order(levels)),
{
    let roles = layout_roles(levels);
    let list = base_key_list(roles);
    let kept = scan.base_keysyms@;
    lemma_base_keys_plainer_first(roles);
    lemma_each_kept_once(list);
    if is_read_in_order(levels) {
        lemma_in_order(levels);
        lemma_first_of_each_in_order(list);
    }
    assert forall|i: int| 0 <= i < kept.len() implies is_base_binding(levels, #[trigger] kept[i]) by {
        let m = lemma_kept_key_is_listed(list, i);
        let code_point = direct_offers(roles)[m].code_point;
        assert(roles.contains(KeyRole::Types(code_point, list[m])));
        let at = lemma_typing_key(levels, code_point, kept[i]);
        assert(is_bound_at(levels, at.0, at.1, kept[i]));
    }
    assert forall|b: KeyBinding| #[trigger] is_base_binding(levels, b) implies keeps(
        kept,
        b,
        is_read_in_order(levels),
    ) by {
        let (l, k) = choose|l: int, k: int| #[trigger]
            is_bound_at(levels, l, k, b) && key_types(
            levels[l].keys@[k],
            levels[l].keys@[k].utf32,
        );
        let code_point = levels[l].keys@[k].utf32;
        assert(types_with(levels, l, k, code_point, b.chord));
        let same = lemma_typing_role(levels, l, k, code_point, b.chord);
        assert(same == b);
        let m = choose|m: int|
            0 <= m < list.len() && #[trigger] list[m] == b && direct_offers(roles)[m].code_point
                == code_point;
        let i = lemma_listed_key_is_kept(list, m);
        assert(kept[i].keysym == b.keysym);
    }
}

/// Whether a mapper is what `build_char_mapper` makes of the scan of these levels.
pub open spec fn is_built_from(
    mapper: CharMapper,
    levels: Seq<KeyLevel>,
    scan: LayoutScan,
    outcomes: Option<&Vec<ComposeOutcome>>,
) -> bool {
    &&& scans(scan, layout_roles(levels))
    &&& outcomes matches Some(outcomes) ==> outcomes@.len() == key_pairs(
        scan.dead_keys@,
        scan.base_keysyms@,
    ).len()
    &&& mapper.table() == with_essentials(with_compositions(scan, outcomes))
    &&& mapper.hex_digits@ == hex_chords(mapper.table())
}

/// Whether some key types a character by itself.
pub open spec fn some_key_types(levels: Seq<KeyLevel>, code_point: u32) -> bool {
    exists|l: int, k: int| #[trigger]
        has_place(levels, l, k) && key_types(levels[l].keys@[k], code_point)
}

/// Whether a dead key and a base key of a scan compose a character.
pub open spec fn some_pair_composes(
    scan: LayoutScan,
    outcomes: Option<&Vec<ComposeOutcome>>,
    code_point: u32,
) -> bool {
    outcomes is Some && exists|p: int| #[trigger]
        pair_composes(
            scan.dead_keys@,
            scan.base_keysyms@,
            outcomes->0@,
            p,
            code_point,
        )
}

/// How a mapper types a character. Where some key types it by itself: with a single
/// chord, that of such a key, which holds no more modifiers than any other and, where
/// the levels are read in order, comes before all others. Where none does but a dead key
/// and a base key compose it: with their two chords, those of the pair to use. Space,
/// newline and tab have a key of their own where neither holds. Nothing else is mapped.
pub proof fn lemma_stroke_of_a_character(
    mapper: CharMapper,
    levels: Seq<KeyLevel>,
    scan: LayoutScan,
    outcomes: Option<&Vec<ComposeOutcome>>,
    code_point: u32,
)
    requires
        is_built_from(mapper, levels, scan, outcomes),
    ensures
        some_key_types(levels, code_point) ==> {
            let seq = mapper.map@[code_point]@;
            &&& mapper.map@.contains_key(code_point)
            &&& seq.len() == 1
            &&& exists|l: int, k: int| #[trigger] types_with(levels, l, k, code_point, seq[0])
            &&& forall|l: int, k: int, chord: KeyChord| #[trigger]
                types_with(levels, l, k, code_point, chord) ==> held(seq[0]) <= held(chord) && (
                is_read_in_order(levels) ==> is_no_later(seq[0], chord))
        },
        !some_key_types(levels, code_point) && some_pair_composes(scan, outcomes, code_point) ==> {
            &&& mapper.map@.contains_key(code_point)
            &&& exists|p: int| #[trigger]
                is_best_pair(
                    scan.dead_keys@,
                    scan.base_keysyms@,
                    outcomes->0@,
                    p,
                    code_point,
                ) && mapper.map@[code_point]@ == seq![
                    dead_at(scan.dead_keys@, scan.base_keysyms@, p),
                    base_at(scan.dead_keys@, scan.base_keysyms@, p),
                ]
        },
        !some_key_types(levels, code_point) && !some_pair_composes(scan, outcomes, code_point)
            ==> {
            &&& mapper.map@.contains_key(code_point) == (code_point == 32 || code_point == 10
                || code_point == 9)
            &&& code_point == 32 || code_point == 10 || code_point == 9
                ==> mapper.map@[code_point]@ == seq![
                KeyChord {
                    keycode: if code_point == 32 {
                        57
                    } else if code_point == 10 {
                        28
                    } else {
                        15
                    },
                    shift: false,
                    alt_gr: false,
                },
            ]
        },
{
    let table = mapper.table();
    let direct = sequences(scan.map@);
    assert(table.contains_key(code_point) == mapper.map@.contains_key(code_point));
    assert(table.contains_key(code_point) ==> table[code_point] == mapper.map@[code_point]@);
    assert(direct.contains_key(code_point) == scan.map@.contains_key(code_point));
    assert(direct.contains_key(code_point) ==> direct[code_point] == scan.map@[code_point]@);
    lemma_scanned_characters(levels, scan, code_point);
    if some_key_types(levels, code_point) {
        let (l, k) = choose|l: int, k: int| #[trigger]
            has_place(levels, l, k) && key_types(levels[l].keys@[k], code_point);
        let chord = KeyChord {
            keycode: (levels[l].keys@[k].keycode - 8) as u16,
            shift: levels[l].combo.shift,
            alt_gr: levels[l].combo.alt_gr,
        };
        assert(types_with(levels, l, k, code_point, chord));
    } else if scan.map@.contains_key(code_point) {
        let (l, k) = choose|l: int, k: int| #[trigger]
            types_with(levels, l, k, code_point, scan.map@[code_point]@[0]);
        assert(has_place(levels, l, k));
    }
    if let Some(outcomes) = outcomes {
        lemma_expansion(direct, scan.dead_keys@, scan.base_keysyms@, outcomes@, code_point);
        if some_pair_composes(scan, Some(outcomes), code_point) {
            let p = choose|p: int| #[trigger]
                pair_composes(scan.dead_keys@, scan.base_keysyms@, outcomes@, p, code_point);
            assert(pair_composes(
                scan.dead_keys@,
                scan.base_keysyms@,
                outcomes@,
                p,
                code_point,
            ));
        }
    }
}

/// The hex digits are typed as the layout types them where it does so with one chord,
/// and otherwise with the keys that have them on a plain keyboard, with no modifier.
pub proof fn lemma_hex_digit_keys(table: Map<u32, Seq<KeyChord>>, value: int, code_point: u32)
    requires
        0 <= value < 16,
        code_point == (if value < 10 {
            48 + value
        } else {
            87 + value
        }),
    ensures
        hex_chords(table).contains_key(code_point),
        table.contains_key(code_point) && table[code_point].len() == 1 ==> hex_chords(
            table,
        )[code_point] == table[code_point][0],
        !(table.contains_key(code_point) && table[code_point].len() == 1) ==> hex_chords(
            table,
        )[code_point] == (KeyChord {
            keycode: seq![11u16, 2, 3, 4, 5, 6, 7, 8, 9, 10, 30, 48, 46, 32, 18, 33][value],
            shift: false,
            alt_gr: false,
        }),
{
}

/// Only the sixteen hex digits have chords for hex entry.
pub proof fn lemma_only_hex_digits(table: Map<u32, Seq<KeyChord>>, code_point: u32)
    ensures
        hex_chords(table).contains_key(code_point) ==> 48 <= code_point <= 57 || 97 <= code_point
            <= 102,
{
}

} // verus!
