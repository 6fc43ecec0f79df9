//! Key chords, the order of preference between chord sequences, and the table
//! that keeps the preferred sequence of each character.

use std::collections::HashMap;
use vstd::prelude::*;

verus! {

broadcast use vstd::std_specs::hash::group_hash_axioms;

/// One physical key press, optionally with Shift and/or AltGr (ISO Level3).
///
/// `keycode` is the evdev code of the key.
#[derive(Debug, Clone, Copy, PartialEq, Eq, Structural)]
pub struct KeyChord {
    pub keycode: u16,
    pub shift: bool,
    pub alt_gr: bool,
}

/// The number of modifiers that a chord holds.
pub open spec fn chord_modifiers(chord: KeyChord) -> nat {
    (if chord.shift { 1nat } else { 0 }) + (if chord.alt_gr { 1nat } else { 0 })
}

/// The number of modifiers that the chords of a sequence hold together.
pub open spec fn sequence_modifiers(seq: Seq<KeyChord>) -> nat
    decreases seq.len(),
{
    if seq.len() == 0 {
        0
    } else {
        sequence_modifiers(seq.drop_last()) + chord_modifiers(seq.last())
    }
}

/// Whether `a` is strictly preferred to `b`: fewer chords first, fewer modifiers next.
pub open spec fn ranks_before(a: Seq<KeyChord>, b: Seq<KeyChord>) -> bool {
    ||| a.len() < b.len()
    ||| a.len() == b.len() && sequence_modifiers(a) < sequence_modifiers(b)
}

/// A chord sequence offered for a character, given by its code point.
pub struct Offer {
    pub code_point: u32,
    pub seq: Seq<KeyChord>,
}

/// Whether a table takes `seq` for `code_point`: it has nothing there yet, or
/// something less preferred.
pub open spec fn accepts(table: Map<u32, Seq<KeyChord>>, code_point: u32, seq: Seq<KeyChord>) -> bool {
    table.contains_key(code_point) ==> ranks_before(seq, table[code_point])
}

/// The table after `seq` was offered to it for `code_point`.
pub open spec fn after_offer(
    table: Map<u32, Seq<KeyChord>>,
    code_point: u32,
    seq: Seq<KeyChord>,
) -> Map<u32, Seq<KeyChord>> {
    if accepts(table, code_point, seq) {
        table.insert(code_point, seq)
    } else {
        table
    }
}

/// The table after a series of offers, made in order.
pub open spec fn after_offers(
    table: Map<u32, Seq<KeyChord>>,
    offers: Seq<Offer>,
) -> Map<u32, Seq<KeyChord>>
    decreases offers.len(),
{
    if offers.len() == 0 {
        table
    } else {
        let before = after_offers(table, offers.drop_last());
        after_offer(before, offers.last().code_point, offers.last().seq)
    }
}

/// How many of a series of offers are taken.
pub open spec fn offers_taken(table: Map<u32, Seq<KeyChord>>, offers: Seq<Offer>) -> nat
    decreases offers.len(),
{
    if offers.len() == 0 {
        0
    } else {
        let before = after_offers(table, offers.drop_last());
        let last = offers.last();
        offers_taken(table, offers.drop_last()) + (if accepts(before, last.code_point, last.seq) {
            1nat
        } else {
            0
        })
    }
}

/// The chord sequences that a map holds, by code point.
pub open spec fn sequences(map: Map<u32, Vec<KeyChord>>) -> Map<u32, Seq<KeyChord>> {
    map.map_values(|seq: Vec<KeyChord>| seq@)
}

/// Lower is better: fewer chords, fewer modifiers.
pub fn sequence_rank(seq: &[KeyChord]) -> (rank: (usize, u128))
    ensures
        rank.0 == seq@.len(),
        rank.1 == sequence_modifiers(seq@),
{
    let mut cost: u128 = 0;
    let mut i: usize = 0;
    while i < seq.len()
        invariant
            i <= seq@.len(),
            cost == sequence_modifiers(seq@.take(i as int)),
            cost <= 2 * i,
        decreases seq@.len() - i,
    {
        proof {
            assert(seq@.take(i + 1).drop_last() =~= seq@.take(i as int));
        }
        if seq[i].shift {
            cost = cost + 1;
        }
        if seq[i].alt_gr {
            cost = cost + 1;
        }
        i = i + 1;
    }
    proof {
        assert(seq@.take(i as int) =~= seq@);
    }
    (seq.len(), cost)
}

/// Whether the table takes `seq` for the character with code point `code_point`.
pub fn accepts_sequence(map: &HashMap<u32, Vec<KeyChord>>, code_point: u32, seq: &[KeyChord]) -> (taken: bool)
    ensures
        taken == accepts(sequences(map@), code_point, seq@),
{
    match map.get(&code_point) {
        None => true,
        Some(existing) => {
            let (len, cost) = sequence_rank(seq);
            let (existing_len, existing_cost) = sequence_rank(existing.as_slice());
            len < existing_len || len == existing_len && cost < existing_cost
        },
    }
}

/// Offers `seq` to the table; it is kept when nothing as good is there.
pub fn insert_preferred_sequence(
    map: &mut HashMap<u32, Vec<KeyChord>>,
    code_point: u32,
    seq: Vec<KeyChord>,
) -> (taken: bool)
    ensures
        taken == accepts(sequences(old(map)@), code_point, seq@),
        sequences(final(map)@) == after_offer(sequences(old(map)@), code_point, seq@),
{
    let taken = accepts_sequence(map, code_point, seq.as_slice());
    if taken {
        map.insert(code_point, seq);
        proof {
            assert(sequences(map@) =~= sequences(old(map)@).insert(code_point, seq@));
        }
    }
    taken
}

/// Whether `offers[i]` is the offer for `code_point` that a table ends up with:
/// none ranks before it, and those that rank with it come later.
pub open spec fn is_best_offer(offers: Seq<Offer>, code_point: u32, i: int) -> bool {
    &&& 0 <= i < offers.len()
    &&& offers[i].code_point == code_point
    &&& forall|j: int|
        #![trigger offers[j]]
        0 <= j < offers.len() && offers[j].code_point == code_point ==> {
            &&& !ranks_before(offers[j].seq, offers[i].seq)
            &&& j < i ==> ranks_before(offers[i].seq, offers[j].seq)
        }
}

/// Whether a character was offered a sequence.
pub open spec fn is_offered(offers: Seq<Offer>, code_point: u32) -> bool {
    exists|i: int| #![trigger offers[i]] 0 <= i < offers.len() && offers[i].code_point == code_point
}

/// Whether a series of offers has one for a character that a table takes: it has
/// nothing there, or something less preferred.
pub open spec fn is_improved(
    table: Map<u32, Seq<KeyChord>>,
    offers: Seq<Offer>,
    code_point: u32,
) -> bool {
    exists|i: int|
        #![trigger offers[i]]
        0 <= i < offers.len() && offers[i].code_point == code_point && accepts(
            table,
            code_point,
            offers[i].seq,
        )
}

/// The best sequence wins: after a series of offers a table has an entry for the
/// characters that it had one for and for those that were offered one. Where an offer
/// is better than what the table had, the entry is the earliest among the offers with
/// the fewest chords and, of these, the fewest modifiers; where none is, the entry is
/// what it was.
pub proof fn lemma_best_offer_wins(
    table: Map<u32, Seq<KeyChord>>,
    offers: Seq<Offer>,
    code_point: u32,
)
    ensures
        after_offers(table, offers).contains_key(code_point) == (table.contains_key(code_point)
            || is_offered(offers, code_point)),
        is_improved(table, offers, code_point) ==> exists|i: int| #[trigger]
            is_best_offer(offers, code_point, i) && after_offers(table, offers)[code_point]
                == offers[i].seq,
        !is_improved(table, offers, code_point) && table.contains_key(code_point)
            ==> after_offers(table, offers)[code_point] == table[code_point],
        !table.contains_key(code_point) ==> is_improved(table, offers, code_point) == is_offered(
            offers,
            code_point,
        ),
    decreases offers.len(),
{
    if !table.contains_key(code_point) && is_offered(offers, code_point) {
        let w = choose|w: int|
            #![trigger offers[w]]
            0 <= w < offers.len() && offers[w].code_point == code_point;
        assert(accepts(table, code_point, offers[w].seq));
    }
    if offers.len() > 0 {
        let front = offers.drop_last();
        let last = offers.last();
        let n = front.len() as int;
        let before = after_offers(table, front);
        lemma_best_offer_wins(table, front, code_point);
        assert forall|j: int| #![trigger offers[j]] 0 <= j < n implies offers[j] == front[j] by {}
        assert(offers[n] == last);
        assert(is_offered(offers, code_point) == (is_offered(front, code_point) || last.code_point
            == code_point)) by {
            if is_offered(front, code_point) {
                let w = choose|w: int|
                    #![trigger front[w]]
                    0 <= w < n && front[w].code_point == code_point;
                assert(offers[w].code_point == code_point);
            }
            if is_offered(offers, code_point) {
                let w = choose|w: int|
                    #![trigger offers[w]]
                    0 <= w < offers.len() && offers[w].code_point == code_point;
                if w < n {
                    assert(front[w].code_point == code_point);
                }
            }
        }
        assert(is_improved(table, offers, code_point) == (is_improved(table, front, code_point)
            || last.code_point == code_point && accepts(table, code_point, last.seq))) by {
            if is_improved(table, front, code_point) {
                let w = choose|w: int|
                    #![trigger front[w]]
                    0 <= w < n && front[w].code_point == code_point && accepts(
                        table,
                        code_point,
                        front[w].seq,
                    );
                assert(offers[w].code_point == code_point);
            }
            if is_improved(table, offers, code_point) {
                let w = choose|w: int|
                    #![trigger offers[w]]
                    0 <= w < offers.len() && offers[w].code_point == code_point && accepts(
                        table,
                        code_point,
                        offers[w].seq,
                    );
                if w < n {
                    assert(front[w].code_point == code_point);
                }
            }
        }
        if is_improved(table, front, code_point) {
            let i = choose|i: int| #[trigger]
                is_best_offer(front, code_point, i) && before[code_point] == front[i].seq;
            assert forall|j: int|
                #![trigger offers[j]]
                0 <= j < n && offers[j].code_point == code_point implies !ranks_before(
                offers[j].seq,
                offers[i].seq,
            ) && (j < i ==> ranks_before(offers[i].seq, offers[j].seq)) by {
                assert(front[j].code_point == code_point);
            }
            if last.code_point == code_point && ranks_before(last.seq, offers[i].seq) {
                assert(is_best_offer(offers, code_point, n));
            } else {
                assert(is_best_offer(offers, code_point, i));
            }
        } else if last.code_point == code_point && accepts(table, code_point, last.seq) {
            assert forall|j: int|
                #![trigger offers[j]]
                0 <= j < n && offers[j].code_point == code_point implies ranks_before(
                last.seq,
                offers[j].seq,
            ) by {
                assert(!accepts(table, code_point, front[j].seq));
            }
            assert(is_best_offer(offers, code_point, n));
        }
    }
}

proof fn lemma_refused_offers(table: Map<u32, Seq<KeyChord>>, offers: Seq<Offer>)
    requires
        forall|i: int|
            0 <= i < offers.len() ==> !accepts(
                table,
                (#[trigger] offers[i]).code_point,
                offers[i].seq,
            ),
    ensures
        after_offers(table, offers) == table,
        offers_taken(table, offers) == 0,
    decreases offers.len(),
{
    if offers.len() > 0 {
        let front = offers.drop_last();
        assert forall|i: int| 0 <= i < front.len() implies !accepts(
            table,
            (#[trigger] front[i]).code_point,
            front[i].seq,
        ) by {
            assert(front[i] == offers[i]);
        }
        lemma_refused_offers(table, front);
        let last = offers[offers.len() - 1];
        assert(!accepts(table, last.code_point, last.seq));
    }
}

/// Offers are taken once: the same offers made again change nothing, and none of them
/// is taken.
pub proof fn lemma_second_round_adds_nothing(table: Map<u32, Seq<KeyChord>>, offers: Seq<Offer>)
    ensures
        after_offers(after_offers(table, offers), offers) == after_offers(table, offers),
        offers_taken(after_offers(table, offers), offers) == 0,
{
    let done = after_offers(table, offers);
    assert forall|k: int| 0 <= k < offers.len() implies !accepts(
        done,
        (#[trigger] offers[k]).code_point,
        offers[k].seq,
    ) by {
        let code_point = offers[k].code_point;
        lemma_best_offer_wins(table, offers, code_point);
        assert(is_offered(offers, code_point));
        if is_improved(table, offers, code_point) {
            let i = choose|i: int| #[trigger]
                is_best_offer(offers, code_point, i) && done[code_point] == offers[i].seq;
            assert(!ranks_before(offers[k].seq, offers[i].seq));
        }
    }
    lemma_refused_offers(done, offers);
}

/// Offers made in two rounds are the offers of one longer round.
pub proof fn lemma_offers_concat(table: Map<u32, Seq<KeyChord>>, first: Seq<Offer>, second: Seq<Offer>)
    ensures
        after_offers(table, first + second) == after_offers(after_offers(table, first), second),
    decreases second.len(),
{
    if second.len() == 0 {
        assert(first + second =~= first);
    } else {
        assert((first + second).drop_last() =~= first + second.drop_last());
        lemma_offers_concat(table, first, second.drop_last());
    }
}

/// Whether every sequence of a table has one or two chords.
pub open spec fn has_short_sequences(table: Map<u32, Seq<KeyChord>>) -> bool {
    forall|code_point: u32| #[trigger]
        table.contains_key(code_point) ==> 1 <= table[code_point].len() <= 2
}

/// Whether every sequence offered has one or two chords.
pub open spec fn offers_short_sequences(offers: Seq<Offer>) -> bool {
    forall|i: int| 0 <= i < offers.len() ==> 1 <= (#[trigger] offers[i]).seq.len() <= 2
}

/// A table of short sequences that is offered short sequences stays one.
pub proof fn lemma_short_sequences(table: Map<u32, Seq<KeyChord>>, offers: Seq<Offer>)
    requires
        has_short_sequences(table),
        offers_short_sequences(offers),
    ensures
        has_short_sequences(after_offers(table, offers)),
    decreases offers.len(),
{
    if offers.len() > 0 {
        let front = offers.drop_last();
        assert forall|i: int| 0 <= i < front.len() implies 1 <= (
        #[trigger] front[i]).seq.len() <= 2 by {
            assert(offers[i] == front[i]);
        }
        lemma_short_sequences(table, front);
        assert(offers[offers.len() - 1] == offers.last());
    }
}

/// Offers never take an entry away, and never make one worse.
pub proof fn lemma_offers_only_improve(
    table: Map<u32, Seq<KeyChord>>,
    offers: Seq<Offer>,
    code_point: u32,
)
    requires
        table.contains_key(code_point),
    ensures
        after_offers(table, offers).contains_key(code_point),
        after_offers(table, offers)[code_point] == table[code_point] || ranks_before(
            after_offers(table, offers)[code_point],
            table[code_point],
        ),
    decreases offers.len(),
{
    if offers.len() > 0 {
        lemma_offers_only_improve(table, offers.drop_last(), code_point);
    }
}

/// The modifiers of a sequence are counted one by one: Shift once for each chord that
/// holds it, and AltGr once for each that holds that.
pub proof fn lemma_modifiers_are_counted(seq: Seq<KeyChord>)
    ensures
        sequence_modifiers(seq) == seq.filter(|chord: KeyChord| chord.shift).len() + seq.filter(
            |chord: KeyChord| chord.alt_gr,
        ).len(),
    decreases seq.len(),
{
    reveal(Seq::filter);
    if seq.len() > 0 {
        lemma_modifiers_are_counted(seq.drop_last());
    }
}

/// Fewer chords are preferred, whatever they hold; and of as many chords, those with
/// fewer modifiers in all.
pub proof fn lemma_preference(a: Seq<KeyChord>, b: Seq<KeyChord>)
    ensures
        a.len() < b.len() ==> ranks_before(a, b),
        a.len() > b.len() ==> !ranks_before(a, b),
        a.len() == b.len() ==> ranks_before(a, b) == (a.filter(
            |chord: KeyChord| chord.shift,
        ).len() + a.filter(|chord: KeyChord| chord.alt_gr).len() < b.filter(
            |chord: KeyChord| chord.shift,
        ).len() + b.filter(|chord: KeyChord| chord.alt_gr).len()),
{
    lemma_modifiers_are_counted(a);
    lemma_modifiers_are_counted(b);
}

/// An offer touches the entry of its own character alone. It fills that entry where
/// there is none, takes its place where it ranks before it, and leaves it otherwise.
pub proof fn lemma_one_offer(
    table: Map<u32, Seq<KeyChord>>,
    code_point: u32,
    seq: Seq<KeyChord>,
    other: u32,
)
    ensures
        ({
            let after = after_offer(table, code_point, seq);
            &&& after.contains_key(code_point)
            &&& !table.contains_key(code_point) ==> after[code_point] == seq
            &&& table.contains_key(code_point) && ranks_before(seq, table[code_point])
                ==> after[code_point] == seq
            &&& table.contains_key(code_point) && !ranks_before(seq, table[code_point])
                ==> after[code_point] == table[code_point]
            &&& other != code_point ==> after.contains_key(other) == table.contains_key(other)
            &&& other != code_point && table.contains_key(other) ==> after[other] == table[other]
        }),
{
}

/// Offers are counted where they are taken: the count over two rounds is the sum of
/// both, and a single offer counts where the table has nothing or something less
/// preferred for its character.
pub proof fn lemma_taken_offers_add_up(
    table: Map<u32, Seq<KeyChord>>,
    first: Seq<Offer>,
    second: Seq<Offer>,
    one: Offer,
)
    ensures
        offers_taken(table, first + second) == offers_taken(table, first) + offers_taken(
            after_offers(table, first),
            second,
        ),
        offers_taken(table, seq![one]) == (if !table.contains_key(one.code_point) || ranks_before(
            one.seq,
            table[one.code_point],
        ) {
            1nat
        } else {
            0
        }),
        offers_taken(table, seq![]) == 0,
    decreases second.len(),
{
    reveal_with_fuel(offers_taken, 2);
    assert(seq![one].drop_last() =~= seq![]);
    if second.len() == 0 {
        assert(first + second =~= first);
    } else {
        assert((first + second).drop_last() =~= first + second.drop_last());
        lemma_taken_offers_add_up(table, first, second.drop_last(), one);
        lemma_offers_concat(table, first, second.drop_last());
    }
}

/// The sequences of a map are those that it holds, under the same code points.
pub proof fn lemma_sequences(map: Map<u32, Vec<KeyChord>>, code_point: u32)
    ensures
        sequences(map).contains_key(code_point) == map.contains_key(code_point),
        map.contains_key(code_point) ==> sequences(map)[code_point] == map[code_point]@,
{
}

} // verus!
