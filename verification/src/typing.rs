//! Typing text: the key actions that make up a chord, a Unicode hex entry and a
//! whole text.

use vstd::prelude::*;

use crate::chord::KeyChord;
use crate::keys::{KEY_LEFTCTRL, KEY_LEFTSHIFT, KEY_RIGHTALT, KEY_SPACE, KEY_U};
use crate::laws::lemma_every_text_can_be_typed;
use crate::mapper::{
    hex_digit, hex_digit_spec, is_hex_digit, resolve_stroke, CharMapper, CharStroke,
};
use crate::text::chars_of;

verus! {

broadcast use vstd::std_specs::hash::group_hash_axioms;

/// How long a key is held, in milliseconds.
pub const KEY_HOLD_DELAY: u64 = 2;

/// The pause between keys, in milliseconds.
pub const INTER_KEY_DELAY: u64 = 1;

/// The pause that a dead key needs for the client's compose state, in milliseconds.
pub const DEAD_KEY_DELAY: u64 = 8;

/// The pause after entering and after leaving Unicode entry, in milliseconds.
pub const UNICODE_MODE_DELAY: u64 = 30;

/// One step of typing.
#[derive(Debug, Clone, Copy, PartialEq, Eq, Structural)]
pub enum KeyAction {
    /// A key event: value 1 presses the key, value 0 releases it.
    Key { code: u16, value: i32 },
    /// Wait.
    Pause { millis: u64 },
}

/// The actions that type a text.
#[derive(Debug)]
pub struct TypingPlan {
    /// What to do; nothing where the text cannot be typed to its end.
    pub actions: Vec<KeyAction>,
    /// Why the text cannot be typed to its end.
    pub error: Option<String>,
}

/// What typing amounts to: the actions, and the hex digit that has no chord, where
/// typing stops for want of it.
pub struct Typing {
    pub actions: Seq<KeyAction>,
    pub missing: Option<u32>,
}

/// A key going down.
pub open spec fn press(code: u16) -> KeyAction {
    KeyAction::Key { code, value: 1 }
}

/// A key going up.
pub open spec fn release(code: u16) -> KeyAction {
    KeyAction::Key { code, value: 0 }
}

/// A wait.
pub open spec fn pause(millis: u64) -> KeyAction {
    KeyAction::Pause { millis }
}

/// `action` where it applies, and nothing otherwise.
pub open spec fn only_if(applies: bool, action: KeyAction) -> Seq<KeyAction> {
    if applies {
        seq![action]
    } else {
        seq![]
    }
}

/// The actions of a chord: AltGr and Shift go down, the key is pressed and
/// released, and they go up in the reverse order.
pub open spec fn chord_actions(chord: KeyChord) -> Seq<KeyAction> {
    only_if(chord.alt_gr, press(KEY_RIGHTALT)) + only_if(chord.shift, press(KEY_LEFTSHIFT)) + seq![
        press(chord.keycode),
        pause(KEY_HOLD_DELAY),
        release(chord.keycode),
    ] + only_if(chord.shift, release(KEY_LEFTSHIFT)) + only_if(chord.alt_gr, release(KEY_RIGHTALT))
}

/// The actions of a chord sequence: a longer pause follows each chord but the last.
pub open spec fn sequence_actions(seq: Seq<KeyChord>) -> Seq<KeyAction>
    decreases seq.len(),
{
    if seq.len() == 0 {
        seq![]
    } else {
        chord_actions(seq[0]) + seq![
            pause(
                if seq.len() > 1 {
                    DEAD_KEY_DELAY
                } else {
                    INTER_KEY_DELAY
                },
            ),
        ] + sequence_actions(seq.drop_first())
    }
}

/// The lower-case hex digits of a number, as code points, without leading zeros.
pub open spec fn hex_text(n: nat) -> Seq<u32>
    decreases n,
{
    if n < 16 {
        seq![hex_digit_spec(n)]
    } else {
        hex_text(n / 16).push(hex_digit_spec(n % 16))
    }
}

/// The actions that enter Unicode mode: Ctrl+Shift+U.
pub open spec fn enter_unicode_mode() -> Seq<KeyAction> {
    seq![
        press(KEY_LEFTCTRL),
        press(KEY_LEFTSHIFT),
        press(KEY_U),
        pause(KEY_HOLD_DELAY),
        release(KEY_U),
        release(KEY_LEFTSHIFT),
        release(KEY_LEFTCTRL),
        pause(UNICODE_MODE_DELAY),
    ]
}

/// The actions that commit a Unicode entry: Space.
pub open spec fn commit_unicode() -> Seq<KeyAction> {
    seq![
        press(KEY_SPACE),
        pause(KEY_HOLD_DELAY),
        release(KEY_SPACE),
        pause(UNICODE_MODE_DELAY),
    ]
}

/// Typing hex digits, up to the first that has no chord.
pub open spec fn type_digits(hex: Map<u32, KeyChord>, digits: Seq<u32>) -> Typing
    decreases digits.len(),
{
    if digits.len() == 0 {
        Typing { actions: seq![], missing: None }
    } else if !hex.contains_key(digits[0]) {
        Typing { actions: seq![], missing: Some(digits[0]) }
    } else {
        let rest = type_digits(hex, digits.drop_first());
        Typing {
            actions: chord_actions(hex[digits[0]]) + seq![pause(INTER_KEY_DELAY)] + rest.actions,
            missing: rest.missing,
        }
    }
}

/// Typing a code point by Unicode hex entry.
pub open spec fn type_hex(hex: Map<u32, KeyChord>, code_point: u32) -> Typing {
    let digits = type_digits(hex, hex_text(code_point as nat));
    Typing {
        actions: enter_unicode_mode() + digits.actions + (if digits.missing is None {
            commit_unicode()
        } else {
            seq![]
        }),
        missing: digits.missing,
    }
}

/// Typing one character.
pub open spec fn type_char(mapper: CharMapper, c: char) -> Typing {
    if mapper.table().contains_key(c as u32) {
        Typing { actions: sequence_actions(mapper.table()[c as u32]), missing: None }
    } else {
        let entry = type_hex(mapper.hex_digits@, c as u32);
        Typing {
            actions: entry.actions + only_if(entry.missing is None, pause(INTER_KEY_DELAY)),
            missing: entry.missing,
        }
    }
}

/// Typing a text, character by character, up to the first that cannot be typed.
pub open spec fn type_chars(mapper: CharMapper, text: Seq<char>) -> Typing
    decreases text.len(),
{
    if text.len() == 0 {
        Typing { actions: seq![], missing: None }
    } else {
        let first = type_char(mapper, text[0]);
        if first.missing is Some {
            first
        } else {
            let rest = type_chars(mapper, text.drop_first());
            Typing { actions: first.actions + rest.actions, missing: rest.missing }
        }
    }
}

/// The message for a hex digit that has no chord.
pub open spec fn missing_digit_message(digit: u32) -> Seq<char> {
    "internal error: missing hex digit mapping for '"@ + seq![digit as char] + "'"@
}

/// Whether an error reports the missing digit, and there is none without one.
pub open spec fn reports(error: Option<String>, missing: Option<u32>) -> bool {
    match missing {
        Some(digit) => error is Some && error->0@ == missing_digit_message(digit),
        None => error is None,
    }
}

/// Adds a key event.
pub fn emit_key(actions: &mut Vec<KeyAction>, key: u16, value: i32)
    ensures
        final(actions)@ == old(actions)@.push(KeyAction::Key { code: key, value }),
{
    actions.push(KeyAction::Key { code: key, value });
}

/// Adds a pause.
pub fn emit_pause(actions: &mut Vec<KeyAction>, millis: u64)
    ensures
        final(actions)@ == old(actions)@.push(pause(millis)),
{
    actions.push(KeyAction::Pause { millis });
}

/// Adds the actions of a chord.
pub fn emit_chord(actions: &mut Vec<KeyAction>, chord: KeyChord)
    ensures
        final(actions)@ == old(actions)@ + chord_actions(chord),
{
    if chord.alt_gr {
        emit_key(actions, KEY_RIGHTALT, 1);
    }
    if chord.shift {
        emit_key(actions, KEY_LEFTSHIFT, 1);
    }
    emit_key(actions, chord.keycode, 1);
    emit_pause(actions, KEY_HOLD_DELAY);
    emit_key(actions, chord.keycode, 0);
    if chord.shift {
        emit_key(actions, KEY_LEFTSHIFT, 0);
    }
    if chord.alt_gr {
        emit_key(actions, KEY_RIGHTALT, 0);
    }
    proof {
        assert(actions@ =~= old(actions)@ + chord_actions(chord));
    }
}

/// Adds the actions of a chord sequence.
pub fn emit_sequence(actions: &mut Vec<KeyAction>, seq: &Vec<KeyChord>)
    ensures
        final(actions)@ == old(actions)@ + sequence_actions(seq@),
{
    let mut i: usize = 0;
    proof {
        assert(seq@.skip(0) =~= seq@);
    }
    while i < seq.len()
        invariant
            i <= seq@.len(),
            actions@ + sequence_actions(seq@.skip(i as int)) == old(actions)@ + sequence_actions(
                seq@,
            ),
        decreases seq@.len() - i,
    {
        let ghost before = actions@;
        let ghost rest = seq@.skip(i as int);
        emit_chord(actions, seq[i]);
        // Dead-key sequences need a beat for the client compose state.
        let millis = if i + 1 < seq.len() {
            DEAD_KEY_DELAY
        } else {
            INTER_KEY_DELAY
        };
        emit_pause(actions, millis);
        proof {
            assert(rest.drop_first() =~= seq@.skip(i + 1));
            assert(before + sequence_actions(rest) =~= actions@ + sequence_actions(
                seq@.skip(i + 1),
            ));
        }
        i = i + 1;
    }
    proof {
        assert(actions@ + sequence_actions(seq@.skip(i as int)) =~= actions@);
    }
}

/// The lower-case hex digits of a number, as code points.
pub fn hex_digits_of(n: u32) -> (digits: Vec<u32>)
    ensures
        digits@ == hex_text(n as nat),
    decreases n,
{
    if n < 16 {
        let mut digits: Vec<u32> = Vec::new();
        digits.push(hex_digit(n));
        proof {
            assert(digits@ =~= seq![hex_digit_spec(n as nat)]);
        }
        digits
    } else {
        let mut digits = hex_digits_of(n / 16);
        digits.push(hex_digit(n % 16));
        digits
    }
}

/// The error for a hex digit that has no chord.
fn missing_digit_error(digit: u32) -> (message: String)
    requires
        is_hex_digit(digit),
    ensures
        message@ == missing_digit_message(digit),
{
    let names = "0123456789abcdef";
    proof {
        reveal_strlit("0123456789abcdef");
    }
    let value: usize = if digit <= '9' as u32 {
        (digit - '0' as u32) as usize
    } else {
        (digit - 'a' as u32 + 10) as usize
    };
    let mut message = "internal error: missing hex digit mapping for '".to_owned();
    message.append(names.substring_char(value, value + 1));
    message.append("'");
    proof {
        assert(names@.subrange(value as int, value + 1) =~= seq![digit as char]);
    }
    message
}

/// Every digit of a hex text is a hex digit.
pub proof fn lemma_hex_text_digits(n: nat)
    ensures
        forall|i: int| 0 <= i < hex_text(n).len() ==> is_hex_digit(#[trigger] hex_text(n)[i]),
    decreases n,
{
    if n >= 16 {
        let front = hex_text(n / 16);
        lemma_hex_text_digits(n / 16);
        assert forall|i: int| 0 <= i < hex_text(n).len() implies is_hex_digit(
            #[trigger] hex_text(n)[i],
        ) by {
            if i < front.len() {
                assert(hex_text(n)[i] == front[i]);
            } else {
                assert(hex_text(n)[i] == hex_digit_spec(n % 16));
            }
        }
    }
}

/// Adds a GNOME/IBus/GTK Unicode entry: Ctrl+Shift+U, hex digits, Space to commit.
///
/// Fails at the first digit that the mapper has no chord for.
pub fn emit_unicode_hex(actions: &mut Vec<KeyAction>, codepoint: u32, mapper: &CharMapper) -> (done: Result<
    (),
    String,
>)
    ensures
        final(actions)@ == old(actions)@ + type_hex(mapper.hex_digits@, codepoint).actions,
        reports(done.err(), type_hex(mapper.hex_digits@, codepoint).missing),
{
    // Enter unicode mode
    emit_key(actions, KEY_LEFTCTRL, 1);
    emit_key(actions, KEY_LEFTSHIFT, 1);
    emit_key(actions, KEY_U, 1);
    emit_pause(actions, KEY_HOLD_DELAY);
    emit_key(actions, KEY_U, 0);
    emit_key(actions, KEY_LEFTSHIFT, 0);
    emit_key(actions, KEY_LEFTCTRL, 0);
    emit_pause(actions, UNICODE_MODE_DELAY);

    let digits = hex_digits_of(codepoint);
    let ghost hex = mapper.hex_digits@;
    let ghost all = type_digits(hex, digits@);
    let ghost entered = old(actions)@ + enter_unicode_mode();
    proof {
        assert(actions@ =~= entered);
        assert(digits@.skip(0) =~= digits@);
        lemma_hex_text_digits(codepoint as nat);
    }
    let mut i: usize = 0;
    while i < digits.len()
        invariant
            i <= digits@.len(),
            digits@ == hex_text(codepoint as nat),
            forall|k: int| 0 <= k < digits@.len() ==> is_hex_digit(#[trigger] digits@[k]),
            hex == mapper.hex_digits@,
            all == type_digits(hex, digits@),
            entered == old(actions)@ + enter_unicode_mode(),
            actions@ + type_digits(hex, digits@.skip(i as int)).actions == entered + all.actions,
            type_digits(hex, digits@.skip(i as int)).missing == all.missing,
        decreases digits@.len() - i,
    {
        let ghost before = actions@;
        let ghost rest = digits@.skip(i as int);
        match mapper.hex_digits.get(&digits[i]) {
            None => {
                proof {
                    assert(actions@ + type_digits(hex, rest).actions =~= actions@);
                    assert(actions@ =~= old(actions)@ + type_hex(hex, codepoint).actions);
                }
                return Err(missing_digit_error(digits[i]));
            },
            Some(chord) => {
                emit_chord(actions, *chord);
                emit_pause(actions, INTER_KEY_DELAY);
                proof {
                    assert(rest.drop_first() =~= digits@.skip(i + 1));
                    assert(before + type_digits(hex, rest).actions =~= actions@ + type_digits(
                        hex,
                        digits@.skip(i + 1),
                    ).actions);
                }
            },
        }
        i = i + 1;
    }
    proof {
        assert(actions@ =~= entered + all.actions);
    }

    // Commit
    emit_key(actions, KEY_SPACE, 1);
    emit_pause(actions, KEY_HOLD_DELAY);
    emit_key(actions, KEY_SPACE, 0);
    emit_pause(actions, UNICODE_MODE_DELAY);
    proof {
        assert(actions@ =~= old(actions)@ + type_hex(hex, codepoint).actions);
    }
    Ok(())
}

/// Plans the typing of a text.
///
/// All of it is resolved first, so that nothing is typed of a text that cannot be
/// typed to its end.
pub fn type_text(text: &str, mapper: &CharMapper) -> (plan: TypingPlan)
    ensures
        type_chars(*mapper, text@).missing is None ==> plan.actions@ == type_chars(
            *mapper,
            text@,
        ).actions,
        type_chars(*mapper, text@).missing is Some ==> plan.actions@.len() == 0,
        reports(plan.error, type_chars(*mapper, text@).missing),
        mapper.well_formed() ==> plan.error is None,
{
    let chars = chars_of(text);
    let mut actions: Vec<KeyAction> = Vec::new();
    let ghost all = type_chars(*mapper, text@);
    let mut i: usize = 0;
    proof {
        if mapper.well_formed() {
            lemma_every_text_can_be_typed(*mapper, text@);
        }
        assert(text@.skip(0) =~= text@);
        assert(actions@ + all.actions =~= all.actions);
    }
    while i < chars.len()
        invariant
            i <= chars@.len(),
            chars@ == text@,
            all == type_chars(*mapper, text@),
            mapper.well_formed() ==> all.missing is None,
            actions@ + type_chars(*mapper, text@.skip(i as int)).actions == all.actions,
            type_chars(*mapper, text@.skip(i as int)).missing == all.missing,
        decreases chars@.len() - i,
    {
        let ghost before = actions@;
        let ghost rest = text@.skip(i as int);
        let ghost first = type_char(*mapper, rest[0]);
        match resolve_stroke(mapper, chars[i]) {
            CharStroke::Chords(seq) => {
                emit_sequence(&mut actions, &seq);
            },
            CharStroke::UnicodeHex(codepoint) => {
                match emit_unicode_hex(&mut actions, codepoint, mapper) {
                    Ok(()) => {},
                    Err(error) => {
                        return TypingPlan { actions: Vec::new(), error: Some(error) };
                    },
                }
                emit_pause(&mut actions, INTER_KEY_DELAY);
            },
        }
        proof {
            assert(actions@ =~= before + first.actions);
            assert(rest.drop_first() =~= text@.skip(i + 1));
            assert(before + type_chars(*mapper, rest).actions =~= actions@ + type_chars(
                *mapper,
                text@.skip(i + 1),
            ).actions);
        }
        i = i + 1;
    }
    proof {
        assert(actions@ + type_chars(*mapper, text@.skip(i as int)).actions =~= actions@);
    }
    TypingPlan { actions, error: None }
}

/// A digit that is missing is always reported, and nothing is where none is.
pub proof fn lemma_missing_digits_are_reported(error: Option<String>, missing: Option<u32>)
    requires
        reports(error, missing),
    ensures
        error is Some <==> missing is Some,
        missing matches Some(digit) ==> error->0@ == missing_digit_message(digit),
{
}

/// The message for a missing digit quotes that digit, between the two single quotes that
/// it ends with.
pub proof fn lemma_message_quotes_the_digit(digit: u32)
    requires
        is_hex_digit(digit),
    ensures
        ({
            let message = missing_digit_message(digit);
            &&& message.len() >= 3
            &&& message[message.len() - 3] == '\''
            &&& message[message.len() - 2] as u32 == digit
            &&& message[message.len() - 1] == '\''
        }),
{
    reveal_strlit("internal error: missing hex digit mapping for '");
    reveal_strlit("'");
}

} // verus!
