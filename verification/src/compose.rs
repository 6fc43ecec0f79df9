//! Dead-key sequences: which pairs of keys to compose, and what the compositions
//! add to the table of characters.

use std::collections::HashMap;
use vstd::prelude::*;

use crate::chord::{
    after_offers, insert_preferred_sequence, offers_short_sequences, offers_taken, sequences,
    KeyChord, Offer,
};
use crate::keymap::KeyBinding;
use crate::text::{chars_of, has_prefix, is_typeable, same_text, starts_with, typeable};

verus! {

broadcast use vstd::std_specs::hash::group_hash_axioms;

/// How far a compose sequence has got.
#[derive(Debug, Clone, Copy, PartialEq, Eq, Structural)]
pub enum ComposeStatus {
    /// Nothing was composed.
    Nothing,
    /// A sequence has begun and is not complete.
    Composing,
    /// A sequence is complete.
    Composed,
    /// A sequence was broken off.
    Cancelled,
}

/// What came of feeding a dead key and then a base key to a fresh compose state.
#[derive(Debug)]
pub struct ComposeOutcome {
    /// The status after the dead key.
    pub after_dead: ComposeStatus,
    /// The status after the base key.
    pub after_base: ComposeStatus,
    /// The text composed, where there is any.
    pub utf8: Option<String>,
}

/// A dead key and the base key to follow it.
#[derive(Debug, Clone, Copy, PartialEq, Eq, Structural)]
pub struct DeadKeyPair {
    pub dead: KeyBinding,
    pub base: KeyBinding,
}

/// One dead key before each base key.
pub open spec fn pairs_with(dead: KeyBinding, base_keysyms: Seq<KeyBinding>) -> Seq<DeadKeyPair> {
    base_keysyms.map_values(|base: KeyBinding| DeadKeyPair { dead, base })
}

/// Each dead key before each base key, dead key by dead key.
pub open spec fn key_pairs(dead_keys: Seq<KeyBinding>, base_keysyms: Seq<KeyBinding>) -> Seq<DeadKeyPair>
    decreases dead_keys.len(),
{
    if dead_keys.len() == 0 {
        seq![]
    } else {
        key_pairs(dead_keys.drop_last(), base_keysyms) + pairs_with(dead_keys.last(), base_keysyms)
    }
}

/// The code point of the single character composed: the dead key begins a
/// sequence, the base key completes it, and the result can be typed.
pub open spec fn composed_code_point(outcome: ComposeOutcome) -> Option<u32> {
    if outcome.after_dead != ComposeStatus::Composing || outcome.after_base
        != ComposeStatus::Composed {
        None
    } else {
        match outcome.utf8 {
            Some(text) => if text@.len() == 1 && is_typeable(text@[0] as u32) {
                Some(text@[0] as u32)
            } else {
                None
            },
            None => None,
        }
    }
}

/// The chord sequences that the compositions offer, in order.
pub open spec fn composed_offers(pairs: Seq<DeadKeyPair>, outcomes: Seq<ComposeOutcome>) -> Seq<Offer>
    recommends
        pairs.len() == outcomes.len(),
    decreases pairs.len(),
{
    if pairs.len() == 0 {
        seq![]
    } else {
        let before = composed_offers(pairs.drop_last(), outcomes.drop_last());
        let pair = pairs.last();
        match composed_code_point(outcomes.last()) {
            Some(code_point) => before.push(
                Offer { code_point, seq: seq![pair.dead.chord, pair.base.chord] },
            ),
            None => before,
        }
    }
}

/// Whether a locale has a compose table of its own.
pub open spec fn is_usable_locale(locale: Seq<char>) -> bool {
    locale.len() > 0 && locale != "C"@ && !starts_with(locale, "C."@)
}

/// The locale that the environment selects: the first variable that is set decides,
/// and a default stands in for a locale without a compose table.
pub open spec fn selected_locale(lc_all: Option<&str>, lc_ctype: Option<&str>, lang: Option<&str>) -> Seq<
    char,
> {
    let set = if lc_all is Some {
        lc_all
    } else if lc_ctype is Some {
        lc_ctype
    } else {
        lang
    };
    match set {
        Some(locale) => if is_usable_locale(locale@) {
            locale@
        } else {
            "en_US.UTF-8"@
        },
        None => "en_US.UTF-8"@,
    }
}

/// The locale whose compose table to load, from the values of `LC_ALL`,
/// `LC_CTYPE` and `LANG`.
pub fn compose_locale(lc_all: Option<&str>, lc_ctype: Option<&str>, lang: Option<&str>) -> (locale: String)
    ensures
        locale@ == selected_locale(lc_all, lc_ctype, lang),
{
    let set = if lc_all.is_some() {
        lc_all
    } else if lc_ctype.is_some() {
        lc_ctype
    } else {
        lang
    };
    match set {
        Some(locale) => {
            if !locale.is_empty() && !same_text(locale, "C") && !has_prefix(locale, "C.") {
                locale.to_owned()
            } else {
                "en_US.UTF-8".to_owned()
            }
        },
        None => "en_US.UTF-8".to_owned(),
    }
}

/// The pairs of keys whose composition is to be found out.
pub fn dead_key_pairs(dead_keys: &Vec<KeyBinding>, base_keysyms: &Vec<KeyBinding>) -> (pairs: Vec<
    DeadKeyPair,
>)
    ensures
        pairs@ == key_pairs(dead_keys@, base_keysyms@),
{
    let mut pairs: Vec<DeadKeyPair> = Vec::new();
    let mut i: usize = 0;
    while i < dead_keys.len()
        invariant
            i <= dead_keys@.len(),
            pairs@ == key_pairs(dead_keys@.take(i as int), base_keysyms@),
        decreases dead_keys@.len() - i,
    {
        let ghost before = pairs@;
        let dead = dead_keys[i];
        let ghost row = pairs_with(dead, base_keysyms@);
        let mut k: usize = 0;
        while k < base_keysyms.len()
            invariant
                k <= base_keysyms@.len(),
                row == pairs_with(dead, base_keysyms@),
                pairs@ == before + row.take(k as int),
            decreases base_keysyms@.len() - k,
        {
            pairs.push(DeadKeyPair { dead, base: base_keysyms[k] });
            proof {
                assert(row.take(k + 1) =~= row.take(k as int).push(row[k as int]));
                assert(pairs@ =~= before + row.take(k + 1));
            }
            k = k + 1;
        }
        proof {
            assert(row.take(k as int) =~= row);
            assert(dead_keys@.take(i + 1).drop_last() =~= dead_keys@.take(i as int));
        }
        i = i + 1;
    }
    proof {
        assert(dead_keys@.take(i as int) =~= dead_keys@);
    }
    pairs
}

/// The code point of the single character that was composed, where one was.
pub fn composed_char(outcome: &ComposeOutcome) -> (code_point: Option<u32>)
    ensures
        code_point == composed_code_point(*outcome),
{
    if outcome.after_dead != ComposeStatus::Composing || outcome.after_base
        != ComposeStatus::Composed {
        return None;
    }
    match &outcome.utf8 {
        None => None,
        Some(text) => {
            let chars = chars_of(text.as_str());
            if chars.len() == 1 && typeable(chars[0] as u32) {
                Some(chars[0] as u32)
            } else {
                None
            }
        },
    }
}

/// Offers the table what each dead key composes with each base key (e.g.
/// dead_circumflex + e gives ê), and counts the sequences taken.
///
/// `outcomes` holds the outcome of each pair, in the order of `dead_key_pairs`.
pub fn expand_dead_keys(
    dead_keys: &Vec<KeyBinding>,
    base_keysyms: &Vec<KeyBinding>,
    outcomes: &Vec<ComposeOutcome>,
    map: &mut HashMap<u32, Vec<KeyChord>>,
) -> (added: usize)
    requires
        outcomes@.len() == key_pairs(dead_keys@, base_keysyms@).len(),
    ensures
        ({
            let offers = composed_offers(key_pairs(dead_keys@, base_keysyms@), outcomes@);
            &&& sequences(final(map)@) == after_offers(sequences(old(map)@), offers)
            &&& added == offers_taken(sequences(old(map)@), offers)
        }),
{
    let pairs = dead_key_pairs(dead_keys, base_keysyms);
    let ghost table = sequences(map@);
    let mut added: usize = 0;
    let mut i: usize = 0;
    while i < pairs.len()
        invariant
            i <= pairs@.len(),
            pairs@.len() == outcomes@.len(),
            added <= i,
            sequences(map@) == after_offers(
                table,
                composed_offers(pairs@.take(i as int), outcomes@.take(i as int)),
            ),
            added == offers_taken(
                table,
                composed_offers(pairs@.take(i as int), outcomes@.take(i as int)),
            ),
        decreases pairs@.len() - i,
    {
        let pair = pairs[i];
        let ghost before = composed_offers(pairs@.take(i as int), outcomes@.take(i as int));
        let ghost after = composed_offers(pairs@.take(i + 1), outcomes@.take(i + 1));
        proof {
            assert(pairs@.take(i + 1).drop_last() =~= pairs@.take(i as int));
            assert(outcomes@.take(i + 1).drop_last() =~= outcomes@.take(i as int));
        }
        match composed_char(&outcomes[i]) {
            Some(code_point) => {
                let mut seq: Vec<KeyChord> = Vec::new();
                seq.push(pair.dead.chord);
                seq.push(pair.base.chord);
                proof {
                    assert(seq@ =~= seq![pair.dead.chord, pair.base.chord]);
                    assert(after.drop_last() =~= before);
                }
                if insert_preferred_sequence(map, code_point, seq) {
                    added = added + 1;
                }
            },
            None => {},
        }
        i = i + 1;
    }
    proof {
        assert(pairs@.take(i as int) =~= pairs@);
        assert(outcomes@.take(i as int) =~= outcomes@);
    }
    added
}

/// Every composition offers two chords: the dead key, then the base key.
pub proof fn lemma_composed_offers(pairs: Seq<DeadKeyPair>, outcomes: Seq<ComposeOutcome>)
    ensures
        forall|i: int|
            0 <= i < composed_offers(pairs, outcomes).len() ==> (#[trigger] composed_offers(
                pairs,
                outcomes,
            )[i]).seq.len() == 2,
        offers_short_sequences(composed_offers(pairs, outcomes)),
    decreases pairs.len(),
{
    if pairs.len() > 0 {
        lemma_composed_offers(pairs.drop_last(), outcomes.drop_last());
    }
}

/// Every pair is made of one of the dead keys and one of the base keys.
pub proof fn lemma_pair_members(dead_keys: Seq<KeyBinding>, base_keysyms: Seq<KeyBinding>)
    ensures
        forall|p: int|
            0 <= p < key_pairs(dead_keys, base_keysyms).len() ==> {
                let pair = #[trigger] key_pairs(dead_keys, base_keysyms)[p];
                dead_keys.contains(pair.dead) && base_keysyms.contains(pair.base)
            },
    decreases dead_keys.len(),
{
    if dead_keys.len() > 0 {
        let front = dead_keys.drop_last();
        let before = key_pairs(front, base_keysyms);
        let row = pairs_with(dead_keys.last(), base_keysyms);
        let all = key_pairs(dead_keys, base_keysyms);
        lemma_pair_members(front, base_keysyms);
        assert forall|p: int| 0 <= p < all.len() implies dead_keys.contains(
            (#[trigger] all[p]).dead,
        ) && base_keysyms.contains(all[p].base) by {
            if p < before.len() {
                assert(all[p] == before[p]);
                let d = choose|d: int| 0 <= d < front.len() && front[d] == all[p].dead;
                assert(dead_keys[d] == all[p].dead);
            } else {
                assert(all[p] == row[p - before.len()]);
                assert(dead_keys[dead_keys.len() - 1] == all[p].dead);
                assert(base_keysyms[p - before.len()] == all[p].base);
            }
        }
    }
}

/// Whether the pair at position `p` composes a character.
pub open spec fn composes(
    pairs: Seq<DeadKeyPair>,
    outcomes: Seq<ComposeOutcome>,
    p: int,
    code_point: u32,
) -> bool {
    0 <= p < pairs.len() && composed_code_point(outcomes[p]) == Some(code_point)
}

/// The offer at position `i` is what a pair of keys composes.
pub proof fn lemma_composed_offer_source(
    pairs: Seq<DeadKeyPair>,
    outcomes: Seq<ComposeOutcome>,
    i: int,
) -> (p: int)
    requires
        pairs.len() == outcomes.len(),
        0 <= i < composed_offers(pairs, outcomes).len(),
    ensures
        composes(pairs, outcomes, p, composed_offers(pairs, outcomes)[i].code_point),
        composed_offers(pairs, outcomes)[i].seq == seq![pairs[p].dead.chord, pairs[p].base.chord],
        i == composed_offers(pairs.take(p), outcomes.take(p)).len(),
    decreases pairs.len(),
{
    let front = pairs.drop_last();
    let some = outcomes.drop_last();
    let before = composed_offers(front, some);
    if i < before.len() {
        let p = lemma_composed_offer_source(front, some, i);
        assert(front.take(p) =~= pairs.take(p) && some.take(p) =~= outcomes.take(p));
        p
    } else {
        assert(front =~= pairs.take(pairs.len() - 1) && some =~= outcomes.take(pairs.len() - 1));
        pairs.len() - 1
    }
}

/// The number of pairs is that of the dead keys times that of the base keys.
pub proof fn lemma_pair_count(dead_keys: Seq<KeyBinding>, base_keysyms: Seq<KeyBinding>)
    ensures
        key_pairs(dead_keys, base_keysyms).len() == dead_keys.len() * base_keysyms.len(),
    decreases dead_keys.len(),
{
    let n = base_keysyms.len() as int;
    if dead_keys.len() > 0 {
        let rows = dead_keys.len() - 1;
        lemma_pair_count(dead_keys.drop_last(), base_keysyms);
        assert((rows + 1) * n == rows * n + n) by (nonlinear_arith);
    } else {
        assert(0 * n == 0) by (nonlinear_arith);
    }
}

/// Dead keys are paired with base keys row by row: the pair of the dead key at `d` and
/// the base key at `b` stands at `d` times the number of base keys, plus `b`.
pub proof fn lemma_pair_at(
    dead_keys: Seq<KeyBinding>,
    base_keysyms: Seq<KeyBinding>,
    d: int,
    b: int,
)
    requires
        0 <= d < dead_keys.len(),
        0 <= b < base_keysyms.len(),
    ensures
        0 <= d * base_keysyms.len() + b < dead_keys.len() * base_keysyms.len(),
        key_pairs(dead_keys, base_keysyms).len() == dead_keys.len() * base_keysyms.len(),
        key_pairs(dead_keys, base_keysyms)[d * base_keysyms.len() + b] == (DeadKeyPair {
            dead: dead_keys[d],
            base: base_keysyms[b],
        }),
    decreases dead_keys.len(),
{
    let n = base_keysyms.len() as int;
    let front = dead_keys.drop_last();
    let rows = front.len() as int;
    let p = d * n + b;
    lemma_pair_count(dead_keys, base_keysyms);
    lemma_pair_count(front, base_keysyms);
    assert(0 <= p && (d < rows ==> p < rows * n) && p < (rows + 1) * n) by (nonlinear_arith)
        requires
            p == d * n + b,
            0 <= d <= rows,
            0 <= b < n,
    ;
    if d < rows {
        lemma_pair_at(front, base_keysyms, d, b);
    } else {
        assert(pairs_with(dead_keys.last(), base_keysyms)[b] == (DeadKeyPair {
            dead: dead_keys[d],
            base: base_keysyms[b],
        }));
    }
}

/// The offers of a series of pairs are those of the pairs before `p`, then that of the
/// pair at `p` where it composes a character, then those of the pairs after it.
pub proof fn lemma_composed_offer_at(pairs: Seq<DeadKeyPair>, outcomes: Seq<ComposeOutcome>, p: int)
    requires
        pairs.len() == outcomes.len(),
        0 <= p < pairs.len(),
    ensures
        ({
            let all = composed_offers(pairs, outcomes);
            let before = composed_offers(pairs.take(p), outcomes.take(p)).len() as int;
            let through = composed_offers(pairs.take(p + 1), outcomes.take(p + 1)).len() as int;
            &&& before <= through <= all.len()
            &&& match composed_code_point(outcomes[p]) {
                Some(code_point) => {
                    &&& through == before + 1
                    &&& all[before].code_point == code_point
                    &&& all[before].seq == seq![pairs[p].dead.chord, pairs[p].base.chord]
                },
                None => through == before,
            }
        }),
    decreases pairs.len(),
{
    let last = pairs.len() - 1;
    assert(pairs.take(p + 1).drop_last() =~= pairs.take(p));
    assert(outcomes.take(p + 1).drop_last() =~= outcomes.take(p));
    if p == last {
        assert(pairs.take(p + 1) =~= pairs);
        assert(outcomes.take(p + 1) =~= outcomes);
    } else {
        let front = pairs.drop_last();
        let some = outcomes.drop_last();
        assert(front.take(p) =~= pairs.take(p) && some.take(p) =~= outcomes.take(p));
        assert(front.take(p + 1) =~= pairs.take(p + 1) && some.take(p + 1) =~= outcomes.take(
            p + 1,
        ));
        lemma_composed_offer_at(front, some, p);
    }
}

/// Later pairs offer later.
pub proof fn lemma_composed_offers_grow(
    pairs: Seq<DeadKeyPair>,
    outcomes: Seq<ComposeOutcome>,
    p: int,
    q: int,
)
    requires
        pairs.len() == outcomes.len(),
        0 <= p <= q <= pairs.len(),
    ensures
        composed_offers(pairs.take(p), outcomes.take(p)).len() <= composed_offers(
            pairs.take(q),
            outcomes.take(q),
        ).len(),
    decreases q - p,
{
    if p < q {
        lemma_composed_offers_grow(pairs, outcomes, p, q - 1);
        assert(pairs.take(q).drop_last() =~= pairs.take(q - 1));
        assert(outcomes.take(q).drop_last() =~= outcomes.take(q - 1));
    }
}

/// The first of `LC_ALL`, `LC_CTYPE` and `LANG` that is set decides, and the others do
/// not matter. Its value is the locale unless it is empty, `C` or begins with `C.`; then,
/// and where none is set, the locale is `en_US.UTF-8`.
pub proof fn lemma_locale(
    lc_all: Option<&str>,
    lc_ctype: Option<&str>,
    lang: Option<&str>,
    deciding: Option<&str>,
)
    requires
        lc_all is Some ==> deciding == lc_all,
        lc_all is None && lc_ctype is Some ==> deciding == lc_ctype,
        lc_all is None && lc_ctype is None ==> deciding == lang,
    ensures
        deciding matches Some(value) ==> {
            let value = value@;
            let usable = value.len() > 0 && value != seq!['C'] && !(value.len() >= 2 && value[0]
                == 'C' && value[1] == '.');
            selected_locale(lc_all, lc_ctype, lang) == if usable {
                value
            } else {
                seq!['e', 'n', '_', 'U', 'S', '.', 'U', 'T', 'F', '-', '8']
            }
        },
        deciding is None ==> selected_locale(lc_all, lc_ctype, lang) == seq![
            'e',
            'n',
            '_',
            'U',
            'S',
            '.',
            'U',
            'T',
            'F',
            '-',
            '8',
        ],
{
    reveal_strlit("C");
    reveal_strlit("C.");
    reveal_strlit("en_US.UTF-8");
    assert("en_US.UTF-8"@ =~= seq!['e', 'n', '_', 'U', 'S', '.', 'U', 'T', 'F', '-', '8']);
    assert("C"@ =~= seq!['C']);
    if let Some(value) = deciding {
        let value = value@;
        assert(starts_with(value, "C."@) == (value.len() >= 2 && value[0] == 'C' && value[1]
            == '.')) by {
            assert("C."@ =~= seq!['C', '.']);
            if value.len() >= 2 {
                if value[0] == 'C' && value[1] == '.' {
                    assert(value.take(2) =~= "C."@);
                }
                assert(value.take(2)[0] == value[0] && value.take(2)[1] == value[1]);
            }
        }
    }
}

} // verus!
