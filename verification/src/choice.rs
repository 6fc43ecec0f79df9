//! Which stroke is kept where a keymap has several: the plainest chord for each
//! keysym and each character, and a dead key only where no single chord will do.

use vstd::prelude::*;

use crate::chord::{chord_modifiers, is_best_offer, is_offered, sequence_modifiers, KeyChord};
use crate::compose::{
    composed_offers, composes, key_pairs, lemma_composed_offer_source, lemma_composed_offers,
    lemma_pair_members, ComposeOutcome,
};
use crate::keymap::{
    base_bindings, base_key_list, combos, dead_bindings, dead_key_list, direct_offers,
    first_of_each, has_evdev_code, is_first_binding, keys_ascend, layout_roles,
    lemma_direct_offers, lemma_first_of_each, level_roles, reads_keymap, role, scans, KeyBinding,
    KeyLevel, KeyRole, LayoutScan,
};
use crate::mapper::{
    layout_offers, lemma_simplest_stroke_wins, with_compositions, with_essentials,
};

verus! {

/// The place of modifiers in the order none, Shift, AltGr, both.
pub open spec fn modifier_order(shift: bool, alt_gr: bool) -> nat {
    (if shift { 1nat } else { 0 }) + (if alt_gr { 2nat } else { 0 })
}

/// Whether `a` is plainer than `b`: by the modifiers first, in the order none, Shift,
/// AltGr, both, and then by the lower key code.
pub open spec fn plainer(a: KeyChord, b: KeyChord) -> bool {
    ||| modifier_order(a.shift, a.alt_gr) < modifier_order(b.shift, b.alt_gr)
    ||| modifier_order(a.shift, a.alt_gr) == modifier_order(b.shift, b.alt_gr) && a.keycode
        < b.keycode
}

/// Whether `a` is at least as plain as `b`.
pub open spec fn as_plain(a: KeyChord, b: KeyChord) -> bool {
    a == b || plainer(a, b)
}

/// Whether the chords of a list of bindings come plainer first.
pub open spec fn plainer_first(list: Seq<KeyBinding>) -> bool {
    forall|i: int, j: int|
        0 <= i < j < list.len() ==> plainer(
            (#[trigger] list[i]).chord,
            (#[trigger] list[j]).chord,
        )
}

/// The binding of a key that is good for something.
pub open spec fn role_binding(r: KeyRole) -> Option<KeyBinding> {
    match r {
        KeyRole::Unused => None,
        KeyRole::Dead(b) => Some(b),
        KeyRole::Types(_, b) => Some(b),
    }
}

/// Whether the chords of the keys with these roles come plainer first.
pub open spec fn roles_plainer_first(roles: Seq<KeyRole>) -> bool {
    forall|i: int, j: int|
        0 <= i < j < roles.len() && role_binding(#[trigger] roles[i]) is Some && role_binding(
            #[trigger] roles[j],
        ) is Some ==> plainer(role_binding(roles[i])->0.chord, role_binding(roles[j])->0.chord)
}

/// Whether `kept` is one of the dead keys, and none of those with its keysym has a
/// plainer chord.
pub open spec fn is_plainest_dead_key(roles: Seq<KeyRole>, kept: KeyBinding) -> bool {
    &&& roles.contains(KeyRole::Dead(kept))
    &&& forall|b: KeyBinding| #[trigger]
        roles.contains(KeyRole::Dead(b)) && b.keysym == kept.keysym ==> as_plain(
            kept.chord,
            b.chord,
        )
}

/// Whether `kept` is one of the keys that type a character, and none of those with its
/// keysym has a plainer chord.
pub open spec fn is_plainest_base_key(roles: Seq<KeyRole>, kept: KeyBinding) -> bool {
    &&& exists|code_point: u32| #[trigger] roles.contains(KeyRole::Types(code_point, kept))
    &&& forall|code_point: u32, b: KeyBinding| #[trigger]
        roles.contains(KeyRole::Types(code_point, b)) && b.keysym == kept.keysym ==> as_plain(
            kept.chord,
            b.chord,
        )
}

/// A chord that is at least as plain as another holds no more modifiers.
pub proof fn lemma_plain_chords_hold_fewest_modifiers(a: KeyChord, b: KeyChord)
    requires
        as_plain(a, b),
    ensures
        chord_modifiers(a) <= chord_modifiers(b),
{
}

proof fn lemma_level_plainer_first(level: KeyLevel)
    requires
        keys_ascend(level),
    ensures
        roles_plainer_first(level_roles(level)),
        forall|i: int|
            0 <= i < level_roles(level).len() && role_binding(#[trigger] level_roles(level)[i]) is Some
                ==> ({
                let chord = role_binding(level_roles(level)[i])->0.chord;
                chord.shift == level.combo.shift && chord.alt_gr == level.combo.alt_gr
            }),
{
    let roles = level_roles(level);
    assert forall|i: int| 0 <= i < roles.len() implies #[trigger] roles[i] == role(
        level.combo,
        level.keys@[i],
    ) by {}
    assert forall|i: int, j: int|
        0 <= i < j < roles.len() && role_binding(#[trigger] roles[i]) is Some && role_binding(
            #[trigger] roles[j],
        ) is Some implies plainer(
        role_binding(roles[i])->0.chord,
        role_binding(roles[j])->0.chord,
    ) by {
        assert(has_evdev_code(level.keys@[i].keycode) && has_evdev_code(level.keys@[j].keycode));
        assert(level.keys@[i].keycode < level.keys@[j].keycode);
    }
}

/// Levels that are read with the plainer modifiers first, and each in ascending order,
/// give the keys with the plainer chords first.
pub proof fn lemma_levels_plainer_first(levels: Seq<KeyLevel>)
    requires
        forall|l: int| 0 <= l < levels.len() ==> keys_ascend(#[trigger] levels[l]),
        forall|l: int, m: int|
            0 <= l < m < levels.len() ==> modifier_order(
                (#[trigger] levels[l]).combo.shift,
                levels[l].combo.alt_gr,
            ) < modifier_order((#[trigger] levels[m]).combo.shift, levels[m].combo.alt_gr),
    ensures
        roles_plainer_first(layout_roles(levels)),
        forall|i: int|
            0 <= i < layout_roles(levels).len() && role_binding(
                #[trigger] layout_roles(levels)[i],
            ) is Some ==> ({
                let chord = role_binding(layout_roles(levels)[i])->0.chord;
                let combo = levels.last().combo;
                modifier_order(chord.shift, chord.alt_gr) <= modifier_order(
                    combo.shift,
                    combo.alt_gr,
                )
            }),
    decreases levels.len(),
{
    if levels.len() > 0 {
        let front = levels.drop_last();
        let n = front.len() as int;
        assert forall|l: int| 0 <= l < front.len() implies keys_ascend(#[trigger] front[l]) by {
            assert(front[l] == levels[l]);
        }
        lemma_levels_plainer_first(front);
        assert(keys_ascend(levels[n]));
        lemma_level_plainer_first(levels[n]);
        let before = layout_roles(front);
        let last = level_roles(levels[n]);
        let all = layout_roles(levels);
        assert forall|i: int| 0 <= i < all.len() implies #[trigger] all[i] == (if i < before.len() {
            before[i]
        } else {
            last[i - before.len()]
        }) by {}
        if before.len() > 0 {
            assert(front.len() > 0);
            assert(front.last() == levels[n - 1]);
        }
    }
}

proof fn lemma_roles_plainer_first(levels: Seq<KeyLevel>, shift_index: u32, level3_index: u32)
    requires
        reads_keymap(levels, shift_index, level3_index),
    ensures
        roles_plainer_first(layout_roles(levels)),
{
    let list = combos(shift_index, level3_index);
    assert forall|l: int, m: int| 0 <= l < m < levels.len() implies modifier_order(
        (#[trigger] levels[l]).combo.shift,
        levels[l].combo.alt_gr,
    ) < modifier_order((#[trigger] levels[m]).combo.shift, levels[m].combo.alt_gr) by {
        assert(levels[l].combo == list[l] && levels[m].combo == list[m]);
    }
    lemma_levels_plainer_first(levels);
}

proof fn lemma_front_plainer_first(roles: Seq<KeyRole>)
    requires
        roles.len() > 0,
        roles_plainer_first(roles),
    ensures
        roles_plainer_first(roles.drop_last()),
{
    let front = roles.drop_last();
    assert forall|i: int, j: int|
        0 <= i < j < front.len() && role_binding(#[trigger] front[i]) is Some && role_binding(
            #[trigger] front[j],
        ) is Some implies plainer(
        role_binding(front[i])->0.chord,
        role_binding(front[j])->0.chord,
    ) by {
        assert(front[i] == roles[i] && front[j] == roles[j]);
    }
}

/// The list of the dead keys has them all, and keeps their order.
pub proof fn lemma_dead_keys_plainer_first(roles: Seq<KeyRole>)
    ensures
        forall|i: int|
            0 <= i < dead_key_list(roles).len() ==> roles.contains(
                KeyRole::Dead(#[trigger] dead_key_list(roles)[i]),
            ),
        forall|b: KeyBinding| #[trigger]
            roles.contains(KeyRole::Dead(b)) ==> dead_key_list(roles).contains(b),
        roles_plainer_first(roles) ==> plainer_first(dead_key_list(roles)),
    decreases roles.len(),
{
    if roles.len() > 0 {
        let front = roles.drop_last();
        let n = front.len() as int;
        let before = dead_key_list(front);
        let after = dead_key_list(roles);
        lemma_dead_keys_plainer_first(front);
        assert forall|i: int| 0 <= i < after.len() implies roles.contains(
            KeyRole::Dead(#[trigger] after[i]),
        ) by {
            if i < before.len() {
                assert(after[i] == before[i]);
                let p = choose|p: int| 0 <= p < n && front[p] == KeyRole::Dead(before[i]);
                assert(roles[p] == KeyRole::Dead(after[i]));
            } else {
                assert(roles[n] == KeyRole::Dead(after[i]));
            }
        }
        assert forall|b: KeyBinding| #[trigger]
            roles.contains(KeyRole::Dead(b)) implies after.contains(b) by {
            let p = choose|p: int| 0 <= p < roles.len() && roles[p] == KeyRole::Dead(b);
            if p < n {
                assert(front[p] == KeyRole::Dead(b));
                assert(front.contains(KeyRole::Dead(b)));
                let i = choose|i: int| 0 <= i < before.len() && before[i] == b;
                assert(after[i] == b);
            } else {
                assert(after[before.len() as int] == b);
            }
        }
        if roles_plainer_first(roles) {
            lemma_front_plainer_first(roles);
            assert forall|i: int, j: int| 0 <= i < j < after.len() implies plainer(
                (#[trigger] after[i]).chord,
                (#[trigger] after[j]).chord,
            ) by {
                assert(after[i] == before[i]);
                if j < before.len() {
                    assert(after[j] == before[j]);
                } else {
                    assert(front.contains(KeyRole::Dead(before[i])));
                    let p = choose|p: int| 0 <= p < n && front[p] == KeyRole::Dead(before[i]);
                    assert(roles[p] == KeyRole::Dead(after[i]) && roles[n] == KeyRole::Dead(
                        after[j],
                    ));
                }
            }
        }
    }
}

/// The list of the keys that type a character has them all, and keeps their order, and
/// so do the chords that they offer.
pub proof fn lemma_base_keys_plainer_first(roles: Seq<KeyRole>)
    ensures
        direct_offers(roles).len() == base_key_list(roles).len(),
        forall|i: int|
            #![trigger direct_offers(roles)[i]]
            #![trigger base_key_list(roles)[i]]
            0 <= i < base_key_list(roles).len() ==> {
                &&& roles.contains(
                    KeyRole::Types(direct_offers(roles)[i].code_point, base_key_list(roles)[i]),
                )
                &&& direct_offers(roles)[i].seq == seq![base_key_list(roles)[i].chord]
            },
        forall|code_point: u32, b: KeyBinding| #[trigger]
            roles.contains(KeyRole::Types(code_point, b)) ==> exists|i: int|
                0 <= i < base_key_list(roles).len() && #[trigger] base_key_list(roles)[i] == b
                    && direct_offers(roles)[i].code_point == code_point,
        roles_plainer_first(roles) ==> plainer_first(base_key_list(roles)),
    decreases roles.len(),
{
    if roles.len() > 0 {
        let front = roles.drop_last();
        let n = front.len() as int;
        let before = base_key_list(front);
        let after = base_key_list(roles);
        let offers = direct_offers(roles);
        lemma_base_keys_plainer_first(front);
        assert forall|i: int|
            #![trigger offers[i]]
            #![trigger after[i]]
            0 <= i < after.len() implies roles.contains(
            KeyRole::Types(offers[i].code_point, after[i]),
        ) && offers[i].seq == seq![after[i].chord] by {
            let r = KeyRole::Types(offers[i].code_point, after[i]);
            if i < before.len() {
                assert(after[i] == before[i] && offers[i] == direct_offers(front)[i]);
                let p = choose|p: int| 0 <= p < n && front[p] == r;
                assert(roles[p] == r);
            } else {
                assert(roles[n] == r);
            }
        }
        assert forall|code_point: u32, b: KeyBinding| #[trigger]
            roles.contains(KeyRole::Types(code_point, b)) implies exists|i: int|
            0 <= i < after.len() && #[trigger] after[i] == b && offers[i].code_point
                == code_point by {
            let r = KeyRole::Types(code_point, b);
            let p = choose|p: int| 0 <= p < roles.len() && roles[p] == r;
            if p < n {
                assert(front[p] == r);
                assert(front.contains(r));
                let i = choose|i: int|
                    0 <= i < before.len() && #[trigger] before[i] == b && direct_offers(
                        front,
                    )[i].code_point == code_point;
                assert(after[i] == b && offers[i] == direct_offers(front)[i]);
            } else {
                assert(after[before.len() as int] == b);
            }
        }
        if roles_plainer_first(roles) {
            lemma_front_plainer_first(roles);
            assert forall|i: int, j: int| 0 <= i < j < after.len() implies plainer(
                (#[trigger] after[i]).chord,
                (#[trigger] after[j]).chord,
            ) by {
                assert(after[i] == before[i]);
                if j < before.len() {
                    assert(after[j] == before[j]);
                } else {
                    let r = KeyRole::Types(direct_offers(front)[i].code_point, before[i]);
                    assert(front.contains(r));
                    let p = choose|p: int| 0 <= p < n && front[p] == r;
                    assert(roles[p] == r && roles[n] == roles.last());
                }
            }
        }
    }
}

proof fn lemma_first_is_plainest(list: Seq<KeyBinding>, kept: KeyBinding, b: KeyBinding)
    requires
        plainer_first(list),
        first_of_each(list).contains(kept),
        list.contains(b),
        b.keysym == kept.keysym,
    ensures
        as_plain(kept.chord, b.chord),
{
    lemma_first_of_each(list);
    let k = choose|k: int| #[trigger] is_first_binding(list, k) && list[k] == kept;
    let p = choose|p: int| 0 <= p < list.len() && list[p] == b;
    assert(k <= p);
}

/// The plainest chord is kept for each keysym: of the dead keys, and of the keys that
/// type a character, the one that is kept for a keysym is a key of the keymap, and no
/// other produces that keysym with fewer modifiers, nor with as many where they come
/// earlier in the order none, Shift, AltGr, both, nor with the same and a lower code.
pub proof fn lemma_plainest_keys_are_kept(
    levels: Seq<KeyLevel>,
    shift_index: u32,
    level3_index: u32,
    kept: KeyBinding,
)
    requires
        reads_keymap(levels, shift_index, level3_index),
    ensures
        dead_bindings(layout_roles(levels)).contains(kept) ==> is_plainest_dead_key(
            layout_roles(levels),
            kept,
        ),
        base_bindings(layout_roles(levels)).contains(kept) ==> is_plainest_base_key(
            layout_roles(levels),
            kept,
        ),
{
    let roles = layout_roles(levels);
    lemma_roles_plainer_first(levels, shift_index, level3_index);
    lemma_dead_keys_plainer_first(roles);
    lemma_base_keys_plainer_first(roles);
    let dead = dead_key_list(roles);
    let base = base_key_list(roles);
    if dead_bindings(roles).contains(kept) {
        lemma_first_of_each(dead);
        let k = choose|k: int| #[trigger] is_first_binding(dead, k) && dead[k] == kept;
        assert(roles.contains(KeyRole::Dead(dead[k])));
        assert forall|b: KeyBinding| #[trigger]
            roles.contains(KeyRole::Dead(b)) && b.keysym == kept.keysym implies as_plain(
            kept.chord,
            b.chord,
        ) by {
            lemma_first_is_plainest(dead, kept, b);
        }
    }
    if base_bindings(roles).contains(kept) {
        lemma_first_of_each(base);
        let k = choose|k: int| #[trigger] is_first_binding(base, k) && base[k] == kept;
        assert(roles.contains(KeyRole::Types(direct_offers(roles)[k].code_point, base[k])));
        assert forall|code_point: u32, b: KeyBinding| #[trigger]
            roles.contains(KeyRole::Types(code_point, b)) && b.keysym == kept.keysym implies as_plain(
            kept.chord,
            b.chord,
        ) by {
            lemma_first_is_plainest(base, kept, b);
        }
    }
}

/// A sequence of one chord holds the modifiers of that chord.
pub proof fn lemma_one_chord_modifiers(chord: KeyChord)
    ensures
        sequence_modifiers(seq![chord]) == chord_modifiers(chord),
{
    reveal_with_fuel(sequence_modifiers, 2);
    assert(seq![chord].drop_last() =~= seq![]);
}

/// The plainest chord is kept for each character: one that a key of the keymap types by
/// itself is typed with a single chord, that of a key which types it too and no less
/// plainly. Of chords with one modifier Shift goes before AltGr, and of chords with the
/// same modifiers the lowest key code goes first.
pub proof fn lemma_plainest_chord_is_kept(
    levels: Seq<KeyLevel>,
    shift_index: u32,
    level3_index: u32,
    scan: LayoutScan,
    outcomes: Option<&Vec<ComposeOutcome>>,
    code_point: u32,
    b: KeyBinding,
)
    requires
        reads_keymap(levels, shift_index, level3_index),
        scans(scan, layout_roles(levels)),
        layout_roles(levels).contains(KeyRole::Types(code_point, b)),
    ensures
        ({
            let table = with_essentials(with_compositions(scan, outcomes));
            &&& table.contains_key(code_point)
            &&& table[code_point].len() == 1
            &&& as_plain(table[code_point][0], b.chord)
            &&& exists|kept: KeyBinding| #[trigger]
                layout_roles(levels).contains(KeyRole::Types(code_point, kept))
                    && table[code_point] == seq![kept.chord]
        }),
{
    let roles = layout_roles(levels);
    let offers = layout_offers(roles, outcomes);
    let direct = direct_offers(roles);
    let base = base_key_list(roles);
    let table = with_essentials(with_compositions(scan, outcomes));
    lemma_roles_plainer_first(levels, shift_index, level3_index);
    lemma_base_keys_plainer_first(roles);
    lemma_simplest_stroke_wins(scan, roles, outcomes, code_point);
    let j = choose|j: int|
        0 <= j < base.len() && #[trigger] base[j] == b && direct[j].code_point == code_point;
    assert(offers[j] == direct[j]);
    assert(is_offered(offers, code_point));
    let i = choose|i: int| #[trigger]
        is_best_offer(offers, code_point, i) && table[code_point] == offers[i].seq;
    lemma_direct_offers(roles);
    if i >= direct.len() {
        let composed = composed_offers(
            key_pairs(dead_bindings(roles), base_bindings(roles)),
            outcomes->0@,
        );
        lemma_composed_offers(
            key_pairs(dead_bindings(roles), base_bindings(roles)),
            outcomes->0@,
        );
        assert(offers[i] == composed[i - direct.len()]);
    }
    assert(offers[i] == direct[i]);
    assert(roles.contains(KeyRole::Types(code_point, base[i])));
    lemma_one_chord_modifiers(base[i].chord);
    lemma_one_chord_modifiers(b.chord);
    if j < i {
        assert(plainer(base[j].chord, base[i].chord));
    }
}

/// Dead keys are the last resort, and plain ones are preferred: a character that is
/// typed with two chords is typed by no key of the keymap itself. The chords are those
/// of a dead key and a base key that compose it, and of the keys that produce the same
/// keysyms each of the two is the plainest.
pub proof fn lemma_dead_keys_are_a_last_resort(
    levels: Seq<KeyLevel>,
    shift_index: u32,
    level3_index: u32,
    scan: LayoutScan,
    outcomes: &Vec<ComposeOutcome>,
    code_point: u32,
)
    requires
        reads_keymap(levels, shift_index, level3_index),
        scans(scan, layout_roles(levels)),
        outcomes@.len() == key_pairs(scan.dead_keys@, scan.base_keysyms@).len(),
        with_essentials(with_compositions(scan, Some(outcomes))).contains_key(code_point),
        with_essentials(with_compositions(scan, Some(outcomes)))[code_point].len() == 2,
    ensures
        forall|b: KeyBinding|
            !(#[trigger] layout_roles(levels).contains(KeyRole::Types(code_point, b))),
        ({
            let roles = layout_roles(levels);
            let pairs = key_pairs(scan.dead_keys@, scan.base_keysyms@);
            let seq = with_essentials(with_compositions(scan, Some(outcomes)))[code_point];
            exists|p: int| #[trigger]
                composes(pairs, outcomes@, p, code_point) && seq == seq![
                    pairs[p].dead.chord,
                    pairs[p].base.chord,
                ] && is_plainest_dead_key(roles, pairs[p].dead) && is_plainest_base_key(
                    roles,
                    pairs[p].base,
                )
        }),
{
    let roles = layout_roles(levels);
    let direct = direct_offers(roles);
    let pairs = key_pairs(scan.dead_keys@, scan.base_keysyms@);
    let offers = layout_offers(roles, Some(outcomes));
    let table = with_essentials(with_compositions(scan, Some(outcomes)));
    assert forall|b: KeyBinding|
        !(#[trigger] roles.contains(KeyRole::Types(code_point, b))) by {
        if roles.contains(KeyRole::Types(code_point, b)) {
            lemma_plainest_chord_is_kept(
                levels,
                shift_index,
                level3_index,
                scan,
                Some(outcomes),
                code_point,
                b,
            );
        }
    }
    lemma_simplest_stroke_wins(scan, roles, Some(outcomes), code_point);
    let i = choose|i: int| #[trigger]
        is_best_offer(offers, code_point, i) && table[code_point] == offers[i].seq;
    lemma_direct_offers(roles);
    if i < direct.len() {
        assert(offers[i] == direct[i]);
    }
    let composed = composed_offers(pairs, outcomes@);
    assert(offers[i] == composed[i - direct.len()]);
    let p = lemma_composed_offer_source(pairs, outcomes@, i - direct.len());
    assert(composes(pairs, outcomes@, p, code_point));
    lemma_pair_members(scan.dead_keys@, scan.base_keysyms@);
    lemma_plainest_keys_are_kept(levels, shift_index, level3_index, pairs[p].dead);
    lemma_plainest_keys_are_kept(levels, shift_index, level3_index, pairs[p].base);
}

} // verus!
