//! What typing amounts to for whoever reads the keyboard: which keys are tapped, with
//! which others held, for how long and after which wait.

use vstd::prelude::*;

use crate::chord::KeyChord;
use crate::laws::{hex_value, lemma_hex_text_stands_for, lemma_typing_concat};
use crate::mapper::CharMapper;
use crate::typing::{
    chord_actions, commit_unicode, enter_unicode_mode, hex_text, lemma_hex_text_digits,
    sequence_actions, type_char, type_chars, type_digits, type_hex, KeyAction,
};

verus! {

/// A key that was pressed and, before any other key event, released again.
pub struct Tap {
    pub code: u16,
    /// The keys that were down already.
    pub held: Set<u16>,
    /// How long nothing but modifiers had gone down or up, in milliseconds.
    pub wait: int,
    /// How long the key was down, in milliseconds.
    pub hold: int,
}

/// What a reader of key events keeps in mind.
pub struct Reader {
    /// The keys that are down.
    pub down: Set<u16>,
    /// The time since the last tap.
    pub wait: int,
    /// The last key event, where it was a press.
    pub pressed: Option<Tap>,
}

/// A reader that sees no key down, some time after the last tap.
pub open spec fn at_rest(wait: int) -> Reader {
    Reader { down: Set::empty(), wait, pressed: None }
}

/// What a reader keeps in mind after one more action.
pub open spec fn read_one(reader: Reader, action: KeyAction) -> Reader {
    match action {
        KeyAction::Pause { millis } => match reader.pressed {
            Some(tap) => Reader {
                pressed: Some(Tap { hold: tap.hold + millis, ..tap }),
                ..reader
            },
            None => Reader { wait: reader.wait + millis, ..reader },
        },
        KeyAction::Key { code, value } => if value == 0 {
            Reader {
                down: reader.down.remove(code),
                wait: if completes(reader, action) {
                    0
                } else {
                    reader.wait
                },
                pressed: None,
            }
        } else {
            Reader {
                down: reader.down.insert(code),
                wait: reader.wait,
                pressed: Some(Tap { code, held: reader.down, wait: reader.wait, hold: 0 }),
            }
        },
    }
}

/// Whether an action is the release of the key that was pressed last.
pub open spec fn completes(reader: Reader, action: KeyAction) -> bool {
    match action {
        KeyAction::Key { code, value } => value == 0 && reader.pressed is Some
            && reader.pressed->0.code == code,
        KeyAction::Pause { .. } => false,
    }
}

/// What a reader keeps in mind after a series of actions.
pub open spec fn read_all(reader: Reader, actions: Seq<KeyAction>) -> Reader
    decreases actions.len(),
{
    if actions.len() == 0 {
        reader
    } else {
        read_all(read_one(reader, actions[0]), actions.drop_first())
    }
}

/// The taps that a reader sees in a series of actions.
pub open spec fn taps(reader: Reader, actions: Seq<KeyAction>) -> Seq<Tap>
    decreases actions.len(),
{
    if actions.len() == 0 {
        seq![]
    } else {
        (if completes(reader, actions[0]) {
            seq![reader.pressed->0]
        } else {
            seq![]
        }) + taps(read_one(reader, actions[0]), actions.drop_first())
    }
}

/// The modifier keys of a chord: Left Shift for Shift, Right Alt for AltGr.
pub open spec fn modifier_keys(chord: KeyChord) -> Set<u16> {
    Set::new(|code: u16| code == 42 && chord.shift || code == 100 && chord.alt_gr)
}

/// The tap of a chord: its key, for two milliseconds, with exactly its modifiers held.
pub open spec fn chord_tap(chord: KeyChord, wait: int) -> Tap {
    Tap { code: chord.keycode, held: modifier_keys(chord), wait, hold: 2 }
}

proof fn lemma_taps_concat(reader: Reader, a: Seq<KeyAction>, b: Seq<KeyAction>)
    ensures
        read_all(reader, a + b) == read_all(read_all(reader, a), b),
        taps(reader, a + b) == taps(reader, a) + taps(read_all(reader, a), b),
    decreases a.len(),
{
    if a.len() == 0 {
        assert(a + b =~= b);
        assert(taps(reader, a) + taps(reader, b) =~= taps(reader, b));
    } else {
        assert((a + b).drop_first() =~= a.drop_first() + b);
        lemma_taps_concat(read_one(reader, a[0]), a.drop_first(), b);
        assert(taps(reader, a + b) =~= taps(reader, a) + taps(read_all(reader, a), b));
    }
}

proof fn lemma_pause(wait: int, millis: u64)
    ensures
        read_all(at_rest(wait), seq![KeyAction::Pause { millis }]) == at_rest(wait + millis),
        taps(at_rest(wait), seq![KeyAction::Pause { millis }]) == Seq::<Tap>::empty(),
{
    reveal_with_fuel(read_all, 2);
    reveal_with_fuel(taps, 2);
    let actions = seq![KeyAction::Pause { millis }];
    assert(actions.drop_first() =~= seq![]);
    assert(taps(at_rest(wait), actions) =~= Seq::<Tap>::empty());
}

/// A chord is one tap of its key, for two milliseconds, with Left Shift down where and
/// only where it holds Shift, Right Alt where and only where it holds AltGr, and no
/// other key; and afterwards every key is up.
pub proof fn lemma_chord_is_a_tap(chord: KeyChord, wait: int)
    ensures
        taps(at_rest(wait), chord_actions(chord)) == seq![chord_tap(chord, wait)],
        read_all(at_rest(wait), chord_actions(chord)) == at_rest(0),
{
    reveal_with_fuel(read_all, 8);
    reveal_with_fuel(taps, 8);
    let actions = chord_actions(chord);
    let code = chord.keycode;
    let down = |code: u16| KeyAction::Key { code, value: 1 };
    let up = |code: u16| KeyAction::Key { code, value: 0 };
    let hold = KeyAction::Pause { millis: 2 };
    if chord.alt_gr && chord.shift {
        assert(actions =~= seq![down(100), down(42), down(code), hold, up(code), up(42), up(100)]);
    } else if chord.alt_gr {
        assert(actions =~= seq![down(100), down(code), hold, up(code), up(100)]);
    } else if chord.shift {
        assert(actions =~= seq![down(42), down(code), hold, up(code), up(42)]);
    } else {
        assert(actions =~= seq![down(code), hold, up(code)]);
    }
    let seen = taps(at_rest(wait), actions);
    assert(seen.len() == 1);
    assert(seen[0].held =~= modifier_keys(chord));
    assert(seen =~= seq![chord_tap(chord, wait)]);
    assert(read_all(at_rest(wait), actions).down =~= Set::<u16>::empty());
}

/// A chord sequence is one tap for each chord, in order: the first at once, and each of
/// the others after eight milliseconds. One millisecond passes after the last.
pub proof fn lemma_sequence_is_its_taps(seq: Seq<KeyChord>, wait: int)
    ensures
        taps(at_rest(wait), sequence_actions(seq)).len() == seq.len(),
        forall|i: int|
            0 <= i < seq.len() ==> #[trigger] taps(at_rest(wait), sequence_actions(seq))[i]
                == chord_tap(
                seq[i],
                if i == 0 {
                    wait
                } else {
                    8
                },
            ),
        read_all(at_rest(wait), sequence_actions(seq)) == at_rest(
            if seq.len() == 0 {
                wait
            } else {
                1
            },
        ),
    decreases seq.len(),
{
    if seq.len() > 0 {
        let millis: u64 = if seq.len() > 1 {
            8
        } else {
            1
        };
        let rest = seq.drop_first();
        let chord = chord_actions(seq[0]);
        let gap = seq![KeyAction::Pause { millis }];
        let more = sequence_actions(rest);
        lemma_chord_is_a_tap(seq[0], wait);
        lemma_pause(0, millis);
        lemma_sequence_is_its_taps(rest, millis as int);
        lemma_taps_concat(at_rest(wait), chord, gap);
        lemma_taps_concat(at_rest(wait), chord + gap, more);
        let seen = taps(at_rest(wait), sequence_actions(seq));
        let later = taps(at_rest(millis as int), more);
        assert(seen =~= seq![chord_tap(seq[0], wait)] + later);
        assert forall|i: int| 0 <= i < seq.len() implies #[trigger] seen[i] == chord_tap(
            seq[i],
            if i == 0 {
                wait
            } else {
                8
            },
        ) by {
            if i > 0 {
                assert(seen[i] == later[i - 1]);
                assert(rest[i - 1] == seq[i]);
            }
        }
    }
}

/// Whether digits are those that a number is written with in lower-case hex, without
/// leading zeros.
pub open spec fn is_hex_of(digits: Seq<u32>, n: nat) -> bool {
    &&& digits.len() > 0
    &&& forall|i: int|
        0 <= i < digits.len() ==> 48 <= #[trigger] digits[i] <= 57 || 97 <= digits[i] <= 102
    &&& hex_value(digits) == n
    &&& n > 0 ==> digits[0] != 48
}

proof fn lemma_hex_text(n: nat)
    ensures
        is_hex_of(hex_text(n), n),
{
    lemma_hex_text_stands_for(n);
    lemma_hex_text_digits(n);
}

proof fn lemma_digits_are_taps(hex: Map<u32, KeyChord>, digits: Seq<u32>, wait: int)
    requires
        type_digits(hex, digits).missing is None,
    ensures
        forall|i: int| 0 <= i < digits.len() ==> hex.contains_key(#[trigger] digits[i]),
        taps(at_rest(wait), type_digits(hex, digits).actions).len() == digits.len(),
        forall|i: int|
            0 <= i < digits.len() ==> #[trigger] taps(
                at_rest(wait),
                type_digits(hex, digits).actions,
            )[i] == chord_tap(
                hex[digits[i]],
                if i == 0 {
                    wait
                } else {
                    1
                },
            ),
        read_all(at_rest(wait), type_digits(hex, digits).actions) == at_rest(
            if digits.len() == 0 {
                wait
            } else {
                1
            },
        ),
    decreases digits.len(),
{
    if digits.len() > 0 {
        let rest = digits.drop_first();
        let chord = chord_actions(hex[digits[0]]);
        let gap = seq![KeyAction::Pause { millis: 1 }];
        let more = type_digits(hex, rest).actions;
        lemma_chord_is_a_tap(hex[digits[0]], wait);
        lemma_pause(0, 1);
        lemma_digits_are_taps(hex, rest, 1);
        lemma_taps_concat(at_rest(wait), chord, gap);
        lemma_taps_concat(at_rest(wait), chord + gap, more);
        let seen = taps(at_rest(wait), type_digits(hex, digits).actions);
        let later = taps(at_rest(1), more);
        assert(seen =~= seq![chord_tap(hex[digits[0]], wait)] + later);
        assert forall|i: int| 0 <= i < digits.len() implies hex.contains_key(
            #[trigger] digits[i],
        ) by {
            if i > 0 {
                assert(rest[i - 1] == digits[i]);
            }
        }
        assert forall|i: int| 0 <= i < digits.len() implies #[trigger] seen[i] == chord_tap(
            hex[digits[i]],
            if i == 0 {
                wait
            } else {
                1
            },
        ) by {
            if i > 0 {
                assert(seen[i] == later[i - 1]);
                assert(rest[i - 1] == digits[i]);
            }
        }
    }
}

proof fn lemma_unicode_mode_taps(wait: int)
    ensures
        taps(at_rest(wait), enter_unicode_mode()) == seq![
            Tap { code: 22, held: set![29, 42], wait, hold: 2 },
        ],
        read_all(at_rest(wait), enter_unicode_mode()) == at_rest(30),
        taps(at_rest(wait), commit_unicode()) == seq![
            Tap { code: 57, held: Set::empty(), wait, hold: 2 },
        ],
        read_all(at_rest(wait), commit_unicode()) == at_rest(30),
{
    reveal_with_fuel(read_all, 9);
    reveal_with_fuel(taps, 9);
    let enter = taps(at_rest(wait), enter_unicode_mode());
    let commit = taps(at_rest(wait), commit_unicode());
    assert(enter.len() == 1);
    assert(enter[0].held =~= set![29, 42]);
    assert(enter =~= seq![Tap { code: 22, held: set![29, 42], wait, hold: 2 }]);
    assert(read_all(at_rest(wait), enter_unicode_mode()).down =~= Set::<u16>::empty());
    assert(commit =~= seq![Tap { code: 57, held: Set::empty(), wait, hold: 2 }]);
    assert(read_all(at_rest(wait), commit_unicode()).down =~= Set::<u16>::empty());
}

/// Whether taps enter a code point in hex: U with Left Ctrl and Left Shift; after thirty
/// milliseconds each of the digits, as the mapper types it; and Space alone.
pub open spec fn enters(
    seen: Seq<Tap>,
    hex: Map<u32, KeyChord>,
    digits: Seq<u32>,
    wait: int,
) -> bool {
    &&& seen.len() == digits.len() + 2
    &&& seen[0] == (Tap { code: 22, held: set![29, 42], wait, hold: 2 })
    &&& forall|i: int|
        0 <= i < digits.len() ==> hex.contains_key(#[trigger] digits[i]) && seen[i + 1]
            == chord_tap(
            hex[digits[i]],
            if i == 0 {
                30
            } else {
                1
            },
        )
    &&& seen[digits.len() as int + 1] == (Tap { code: 57, held: Set::empty(), wait: 1, hold: 2 })
}

/// Hex entry enters the code point: what is tapped between Ctrl+Shift+U and Space is the
/// digits of the whole number, in order. It fails for want of a digit of that number
/// only, namely the first that has no chord.
pub proof fn lemma_hex_entry_enters_the_code_point(
    hex: Map<u32, KeyChord>,
    code_point: u32,
    wait: int,
)
    ensures
        type_hex(hex, code_point).missing is None ==> {
            &&& exists|digits: Seq<u32>| #[trigger]
                is_hex_of(digits, code_point as nat) && enters(
                    taps(at_rest(wait), type_hex(hex, code_point).actions),
                    hex,
                    digits,
                    wait,
                )
            &&& read_all(at_rest(wait), type_hex(hex, code_point).actions) == at_rest(30)
        },
        type_hex(hex, code_point).missing matches Some(missing) ==> exists|digits: Seq<u32>|
            #[trigger]
            is_hex_of(digits, code_point as nat) && is_first_missing(hex, digits, missing),
{
    let digits = hex_text(code_point as nat);
    let typed = type_digits(hex, digits);
    lemma_hex_text(code_point as nat);
    lemma_first_missing(hex, digits);
    if typed.missing is None {
        let enter = enter_unicode_mode();
        let commit = commit_unicode();
        let seen = taps(at_rest(wait), type_hex(hex, code_point).actions);
        lemma_unicode_mode_taps(wait);
        lemma_digits_are_taps(hex, digits, 30);
        lemma_unicode_mode_taps(1);
        lemma_taps_concat(at_rest(wait), enter, typed.actions);
        lemma_taps_concat(at_rest(wait), enter + typed.actions, commit);
        let first = Tap { code: 22, held: set![29, 42], wait, hold: 2 };
        let last = Tap { code: 57, held: Set::empty(), wait: 1, hold: 2 };
        let middle = taps(at_rest(30), typed.actions);
        assert(seen =~= seq![first] + middle + seq![last]);
        assert forall|i: int| 0 <= i < digits.len() implies hex.contains_key(#[trigger] digits[i])
            && seen[i + 1] == chord_tap(
            hex[digits[i]],
            if i == 0 {
                30
            } else {
                1
            },
        ) by {
            assert(seen[i + 1] == middle[i]);
        }
        assert(enters(seen, hex, digits, wait));
    }
}

/// Whether a digit is the first of a series that has no chord.
pub open spec fn is_first_missing(hex: Map<u32, KeyChord>, digits: Seq<u32>, missing: u32) -> bool {
    exists|i: int|
        0 <= i < digits.len() && #[trigger] digits[i] == missing && !hex.contains_key(missing)
            && forall|j: int| 0 <= j < i ==> hex.contains_key(#[trigger] digits[j])
}

proof fn lemma_first_missing(hex: Map<u32, KeyChord>, digits: Seq<u32>)
    ensures
        type_digits(hex, digits).missing matches Some(missing) ==> is_first_missing(
            hex,
            digits,
            missing,
        ),
    decreases digits.len(),
{
    if digits.len() > 0 {
        let rest = digits.drop_first();
        lemma_first_missing(hex, rest);
        match type_digits(hex, digits).missing {
            Some(missing) => if !hex.contains_key(digits[0]) {
                assert(digits[0] == missing);
            } else {
                let i = choose|i: int|
                    0 <= i < rest.len() && #[trigger] rest[i] == missing && !hex.contains_key(
                        missing,
                    ) && forall|j: int| 0 <= j < i ==> hex.contains_key(#[trigger] rest[j]);
                assert(digits[i + 1] == missing);
                assert forall|j: int| 0 <= j < i + 1 implies hex.contains_key(
                    #[trigger] digits[j],
                ) by {
                    if j > 0 {
                        assert(rest[j - 1] == digits[j]);
                    }
                }
            },
            None => {},
        }
    }
}

/// How a text of one character is typed: with the taps of the chords that the mapper has
/// for it; and where it has none, by entering its code point, one more millisecond
/// passing at the end. Only the latter can fail.
pub proof fn lemma_typing_a_character(mapper: CharMapper, c: char, wait: int)
    ensures
        mapper.map@.contains_key(c as u32) ==> {
            let seq = mapper.map@[c as u32]@;
            let typing = type_chars(mapper, seq![c]);
            let seen = taps(at_rest(wait), typing.actions);
            &&& typing.missing is None
            &&& seen.len() == seq.len()
            &&& forall|i: int|
                0 <= i < seq.len() ==> #[trigger] seen[i] == chord_tap(
                    seq[i],
                    if i == 0 {
                        wait
                    } else {
                        8
                    },
                )
            &&& seq.len() > 0 ==> read_all(at_rest(wait), typing.actions) == at_rest(1)
        },
        !mapper.map@.contains_key(c as u32) && type_chars(mapper, seq![c]).missing is None ==> {
            let typing = type_chars(mapper, seq![c]);
            &&& exists|digits: Seq<u32>| #[trigger]
                is_hex_of(digits, c as nat) && enters(
                    taps(at_rest(wait), typing.actions),
                    mapper.hex_digits@,
                    digits,
                    wait,
                )
            &&& read_all(at_rest(wait), typing.actions) == at_rest(31)
        },
        type_chars(mapper, seq![c]).missing matches Some(missing) ==> {
            &&& !mapper.map@.contains_key(c as u32)
            &&& exists|digits: Seq<u32>| #[trigger]
                is_hex_of(digits, c as nat) && is_first_missing(
                    mapper.hex_digits@,
                    digits,
                    missing,
                )
        },
{
    let text = seq![c];
    let typing = type_chars(mapper, text);
    let one = type_char(mapper, c);
    assert(text.drop_first() =~= seq![]);
    reveal_with_fuel(type_chars, 2);
    assert(typing.actions =~= one.actions);
    assert(typing.missing == one.missing);
    assert(mapper.table().contains_key(c as u32) == mapper.map@.contains_key(c as u32));
    if mapper.map@.contains_key(c as u32) {
        assert(mapper.table()[c as u32] == mapper.map@[c as u32]@);
        lemma_sequence_is_its_taps(mapper.map@[c as u32]@, wait);
    } else {
        let entry = type_hex(mapper.hex_digits@, c as u32);
        lemma_hex_entry_enters_the_code_point(mapper.hex_digits@, c as u32, wait);
        if entry.missing is None {
            let gap = seq![KeyAction::Pause { millis: 1 }];
            lemma_taps_concat(at_rest(wait), entry.actions, gap);
            lemma_pause(30, 1);
            assert(one.actions =~= entry.actions + gap);
            assert(taps(at_rest(wait), one.actions) =~= taps(at_rest(wait), entry.actions));
        }
    }
}

/// A text is typed character by character: what is tapped for two texts, one after the
/// other, is what is tapped for the first and then what is tapped for the second.
pub proof fn lemma_taps_of_two_texts(mapper: CharMapper, a: Seq<char>, b: Seq<char>, wait: int)
    ensures
        type_chars(mapper, a).missing is None ==> {
            let first = type_chars(mapper, a);
            let second = type_chars(mapper, b);
            let both = type_chars(mapper, a + b);
            &&& both.missing == second.missing
            &&& taps(at_rest(wait), both.actions) == taps(at_rest(wait), first.actions) + taps(
                read_all(at_rest(wait), first.actions),
                second.actions,
            )
        },
        type_chars(mapper, a).missing is Some ==> type_chars(mapper, a + b).missing == type_chars(
            mapper,
            a,
        ).missing,
        type_chars(mapper, seq![]).actions.len() == 0,
        type_chars(mapper, seq![]).missing is None,
{
    lemma_typing_concat(mapper, a, b);
    lemma_taps_concat(
        at_rest(wait),
        type_chars(mapper, a).actions,
        type_chars(mapper, b).actions,
    );
}

} // verus!
