//! Character classes and the string operations that the parsers are built from.

use vstd::prelude::*;

verus! {

/// Whether a code point is in the general category Cc: the C0 and C1 controls and DEL.
pub open spec fn is_control(code_point: u32) -> bool {
    code_point <= 0x1f || 0x7f <= code_point <= 0x9f
}

/// Whether a character has the Unicode property White_Space.
pub open spec fn is_whitespace(c: char) -> bool {
    ||| '\u{9}' <= c <= '\u{d}'
    ||| c == ' '
    ||| c == '\u{85}'
    ||| c == '\u{a0}'
    ||| c == '\u{1680}'
    ||| '\u{2000}' <= c <= '\u{200a}'
    ||| c == '\u{2028}'
    ||| c == '\u{2029}'
    ||| c == '\u{202f}'
    ||| c == '\u{205f}'
    ||| c == '\u{3000}'
}

/// Whether a number is a Unicode scalar value, and so the code point of a `char`.
pub open spec fn is_scalar_value(code_point: u32) -> bool {
    code_point <= 0x10ffff && !(0xd800 <= code_point <= 0xdfff)
}

/// Whether a code point can be typed as a character: no control but newline and tab.
pub open spec fn is_typeable(code_point: u32) -> bool {
    is_scalar_value(code_point) && (is_control(code_point) ==> code_point == '\n' as u32
        || code_point == '\t' as u32)
}

/// Whether `text` begins with `prefix`.
pub open spec fn starts_with(text: Seq<char>, prefix: Seq<char>) -> bool {
    prefix.len() <= text.len() && text.take(prefix.len() as int) == prefix
}

/// The position of the first occurrence of `pattern` in `text`.
pub open spec fn first_index(text: Seq<char>, pattern: Seq<char>) -> Option<int>
    decreases text.len(),
{
    if starts_with(text, pattern) {
        Some(0)
    } else if text.len() == 0 {
        None
    } else {
        match first_index(text.drop_first(), pattern) {
            Some(i) => Some(i + 1),
            None => None,
        }
    }
}

/// What stands before the first occurrence of `c`; all of `text` where there is none.
pub open spec fn before_first(text: Seq<char>, c: char) -> Seq<char> {
    match first_index(text, seq![c]) {
        Some(i) => text.take(i),
        None => text,
    }
}

/// `text` without the leading characters that satisfy `p`.
pub open spec fn trim_start(text: Seq<char>, p: spec_fn(char) -> bool) -> Seq<char>
    decreases text.len(),
{
    if text.len() > 0 && p(text[0]) {
        trim_start(text.drop_first(), p)
    } else {
        text
    }
}

/// `text` without the trailing characters that satisfy `p`.
pub open spec fn trim_end(text: Seq<char>, p: spec_fn(char) -> bool) -> Seq<char>
    decreases text.len(),
{
    if text.len() > 0 && p(text.last()) {
        trim_end(text.drop_last(), p)
    } else {
        text
    }
}

/// `text` without the characters at either end that satisfy `p`.
pub open spec fn trim_both(text: Seq<char>, p: spec_fn(char) -> bool) -> Seq<char> {
    trim_end(trim_start(text, p), p)
}

/// A line without the carriage return before its line feed.
pub open spec fn strip_carriage_return(line: Seq<char>) -> Seq<char> {
    if line.len() > 0 && line.last() == '\r' {
        line.drop_last()
    } else {
        line
    }
}

/// The lines of `text`, each without its line ending; the last ending is optional.
pub open spec fn text_lines(text: Seq<char>) -> Seq<Seq<char>>
    decreases text.len(),
{
    if text.len() == 0 {
        seq![]
    } else {
        match first_index(text, seq!['\n']) {
            None => seq![text],
            Some(i) => if 0 <= i < text.len() {
                seq![strip_carriage_return(text.take(i))] + text_lines(text.skip(i + 1))
            } else {
                seq![]
            },
        }
    }
}

/// The characters of a string.
pub fn chars_of(text: &str) -> (chars: Vec<char>)
    ensures
        chars@ == text@,
{
    let mut chars: Vec<char> = Vec::new();
    for c in it: text.chars()
        invariant
            it.seq() == text@,
            chars@ == text@.take(it.index() as int),
    {
        chars.push(c);
        proof {
            assert(text@.take(it.index() as int).push(c) =~= text@.take(it.index() as int + 1));
        }
    }
    proof {
        assert(text@.take(text@.len() as int) =~= text@);
    }
    chars
}

/// Whether a code point can be typed as a character.
pub fn typeable(code_point: u32) -> (yes: bool)
    ensures
        yes == is_typeable(code_point),
{
    let scalar = code_point <= 0x10ffff && !(0xd800 <= code_point && code_point <= 0xdfff);
    let control = code_point <= 0x1f || (0x7f <= code_point && code_point <= 0x9f);
    scalar && (!control || code_point == '\n' as u32 || code_point == '\t' as u32)
}

/// Whether a character is white space.
pub fn whitespace(c: char) -> (yes: bool)
    ensures
        yes == is_whitespace(c),
{
    ('\u{9}' <= c && c <= '\u{d}') || c == ' ' || c == '\u{85}' || c == '\u{a0}' || c == '\u{1680}'
        || ('\u{2000}' <= c && c <= '\u{200a}') || c == '\u{2028}' || c == '\u{2029}'
        || c == '\u{202f}' || c == '\u{205f}' || c == '\u{3000}'
}

/// The first occurrence of a pattern is one, it lies within the text, and no
/// earlier position has one.
pub proof fn lemma_first_index(text: Seq<char>, pattern: Seq<char>)
    ensures
        match first_index(text, pattern) {
            Some(i) => {
                &&& 0 <= i
                &&& i + pattern.len() <= text.len()
                &&& text.subrange(i, i + pattern.len()) == pattern
                &&& forall|j: int| 0 <= j < i ==> !starts_with(#[trigger] text.skip(j), pattern)
            },
            None => forall|j: int|
                0 <= j <= text.len() ==> !starts_with(#[trigger] text.skip(j), pattern),
        },
    decreases text.len(),
{
    assert(text.skip(0) =~= text);
    if starts_with(text, pattern) {
        assert(text.subrange(0, pattern.len() as int) =~= text.take(pattern.len() as int));
    } else if text.len() > 0 {
        let rest = text.drop_first();
        lemma_first_index(rest, pattern);
        assert forall|j: int| 1 <= j <= text.len() implies #[trigger] text.skip(j) == rest.skip(
            j - 1,
        ) by {
            assert(text.skip(j) =~= rest.skip(j - 1));
        }
        match first_index(rest, pattern) {
            Some(i) => {
                assert(text.subrange(i + 1, i + 1 + pattern.len()) =~= rest.subrange(
                    i,
                    i + pattern.len(),
                ));
            },
            None => {},
        }
    }
}

/// Whether the characters from position `at` on begin with those of `prefix`.
fn prefix_at(chars: &Vec<char>, at: usize, prefix: &Vec<char>) -> (yes: bool)
    requires
        at <= chars@.len(),
    ensures
        yes == starts_with(chars@.skip(at as int), prefix@),
{
    let ghost rest = chars@.skip(at as int);
    if chars.len() - at < prefix.len() {
        return false;
    }
    let mut i: usize = 0;
    while i < prefix.len()
        invariant
            at + prefix.len() <= chars.len(),
            rest == chars@.skip(at as int),
            i <= prefix@.len(),
            rest.take(i as int) == prefix@.take(i as int),
        decreases prefix@.len() - i,
    {
        proof {
            assert(rest[i as int] == chars@[at + i]);
        }
        if chars[at + i] != prefix[i] {
            proof {
                assert(rest.take(prefix@.len() as int)[i as int] != prefix@[i as int]);
            }
            return false;
        }
        proof {
            assert(rest.take(i + 1) =~= rest.take(i as int).push(rest[i as int]));
            assert(prefix@.take(i + 1) =~= prefix@.take(i as int).push(prefix@[i as int]));
        }
        i = i + 1;
    }
    proof {
        assert(prefix@.take(i as int) =~= prefix@);
    }
    true
}

/// Whether `text` begins with `prefix`.
pub fn has_prefix(text: &str, prefix: &str) -> (yes: bool)
    ensures
        yes == starts_with(text@, prefix@),
{
    let chars = chars_of(text);
    let prefix = chars_of(prefix);
    proof {
        assert(text@.skip(0) =~= text@);
    }
    prefix_at(&chars, 0, &prefix)
}

/// Whether two strings hold the same characters.
pub fn same_text(a: &str, b: &str) -> (yes: bool)
    ensures
        yes == (a@ == b@),
{
    let yes = a.unicode_len() == b.unicode_len() && has_prefix(a, b);
    proof {
        assert(a@.take(a@.len() as int) =~= a@);
    }
    yes
}

/// The character position of the first occurrence of `pattern` in `text`.
pub fn find(text: &str, pattern: &str) -> (found: Option<usize>)
    ensures
        match found {
            Some(i) => first_index(text@, pattern@) == Some(i as int),
            None => first_index(text@, pattern@) is None,
        },
{
    let chars = chars_of(text);
    let pattern_chars = chars_of(pattern);
    let mut i: usize = 0;
    proof {
        assert(text@.skip(0) =~= text@);
    }
    while i < chars.len()
        invariant
            chars@ == text@,
            pattern_chars@ == pattern@,
            i <= chars@.len(),
            first_index(text@, pattern@) == match first_index(text@.skip(i as int), pattern@) {
                Some(k) => Some(k + i),
                None => None,
            },
        decreases chars@.len() - i,
    {
        if prefix_at(&chars, i, &pattern_chars) {
            return Some(i);
        }
        proof {
            assert(text@.skip(i as int).drop_first() =~= text@.skip(i + 1));
        }
        i = i + 1;
    }
    if prefix_at(&chars, i, &pattern_chars) {
        Some(i)
    } else {
        None
    }
}

/// The text before and after the first `c`, where there is one.
pub fn split_once<'a>(text: &'a str, c: char) -> (parts: Option<(&'a str, &'a str)>)
    ensures
        match parts {
            Some((before, after)) => first_index(text@, seq![c]) == Some(before@.len() as int)
                && before@ == text@.take(before@.len() as int) && after@ == text@.skip(
                before@.len() as int + 1,
            ),
            None => first_index(text@, seq![c]) is None,
        },
{
    let chars = chars_of(text);
    let mut i: usize = 0;
    proof {
        assert(text@.skip(0) =~= text@);
    }
    while i < chars.len()
        invariant
            chars@ == text@,
            i <= chars@.len(),
            first_index(text@, seq![c]) == match first_index(text@.skip(i as int), seq![c]) {
                Some(k) => Some(k + i),
                None => None,
            },
        decreases chars@.len() - i,
    {
        let ghost rest = text@.skip(i as int);
        if chars[i] == c {
            proof {
                assert(rest.take(1) =~= seq![c]);
                assert(starts_with(rest, seq![c]));
                assert(text@.subrange(0, i as int) =~= text@.take(i as int));
                assert(text@.subrange(i + 1, text@.len() as int) =~= text@.skip(i + 1));
            }
            return Some((text.substring_char(0, i), text.substring_char(i + 1, chars.len())));
        }
        proof {
            assert(rest.take(1)[0] != c);
            assert(!starts_with(rest, seq![c]));
            assert(rest.drop_first() =~= text@.skip(i + 1));
        }
        i = i + 1;
    }
    None
}

/// What stands before the first `c`; all of the text where there is none.
pub fn take_before(text: &str, c: char) -> (before: &str)
    ensures
        before@ == before_first(text@, c),
{
    match split_once(text, c) {
        Some((before, _)) => before,
        None => text,
    }
}

/// The text after `prefix`, where it begins with it.
pub fn strip_prefix<'a>(text: &'a str, prefix: &str) -> (rest: Option<&'a str>)
    ensures
        match rest {
            Some(rest) => starts_with(text@, prefix@) && rest@ == text@.skip(prefix@.len() as int),
            None => !starts_with(text@, prefix@),
        },
{
    if has_prefix(text, prefix) {
        let len = text.unicode_len();
        proof {
            assert(text@.subrange(prefix@.len() as int, len as int) =~= text@.skip(
                prefix@.len() as int,
            ));
        }
        Some(text.substring_char(prefix.unicode_len(), len))
    } else {
        None
    }
}

/// What a trim takes off the ends of a text.
#[derive(Clone, Copy)]
pub enum Trim {
    /// One given character.
    Char(char),
    /// White space.
    Whitespace,
}

impl Trim {
    /// Whether the trim takes a character off.
    pub open spec fn takes(self) -> spec_fn(char) -> bool {
        |c: char|
            match self {
                Trim::Char(d) => c == d,
                Trim::Whitespace => is_whitespace(c),
            }
    }

    fn takes_char(self, c: char) -> (yes: bool)
        ensures
            yes == (self.takes())(c),
    {
        match self {
            Trim::Char(d) => c == d,
            Trim::Whitespace => whitespace(c),
        }
    }
}

/// The text without what the trim takes off either end.
pub fn trim(text: &str, what: Trim) -> (trimmed: &str)
    ensures
        trimmed@ == trim_both(text@, what.takes()),
{
    let chars = chars_of(text);
    let ghost p = what.takes();
    let mut start: usize = 0;
    proof {
        assert(text@.skip(0) =~= text@);
    }
    while start < chars.len() && what.takes_char(chars[start])
        invariant
            chars@ == text@,
            p == what.takes(),
            start <= chars@.len(),
            trim_start(text@, p) == trim_start(text@.skip(start as int), p),
        decreases chars@.len() - start,
    {
        proof {
            assert(text@.skip(start as int).drop_first() =~= text@.skip(start + 1));
        }
        start = start + 1;
    }
    proof {
        assert(trim_start(text@, p) == text@.skip(start as int));
        assert(text@.subrange(start as int, chars@.len() as int) =~= text@.skip(start as int));
    }
    let mut end: usize = chars.len();
    while end > start && what.takes_char(chars[end - 1])
        invariant
            chars@ == text@,
            p == what.takes(),
            start <= end <= chars@.len(),
            trim_both(text@, p) == trim_end(text@.subrange(start as int, end as int), p),
        decreases end,
    {
        proof {
            assert(text@.subrange(start as int, end as int).drop_last() =~= text@.subrange(
                start as int,
                end - 1,
            ));
        }
        end = end - 1;
    }
    text.substring_char(start, end)
}

/// The lines of a text, each without its line ending; the last ending is optional.
pub fn lines<'a>(text: &'a str) -> (lines: Vec<&'a str>)
    ensures
        lines@.map_values(|line: &str| line@) == text_lines(text@),
{
    let mut lines: Vec<&'a str> = Vec::new();
    let ghost views = |line: &str| line@;
    let mut rest: &'a str = text;
    proof {
        assert(lines@.map_values(views) + text_lines(text@) =~= text_lines(text@));
    }
    while !rest.is_empty()
        invariant
            views == (|line: &str| line@),
            lines@.map_values(views) + text_lines(rest@) == text_lines(text@),
        decreases rest@.len(),
    {
        let ghost done = lines@;
        match split_once(rest, '\n') {
            None => {
                lines.push(rest);
                proof {
                    assert(lines@.map_values(views) =~= done.map_values(views).push(rest@));
                    assert(done.map_values(views) + seq![rest@] =~= lines@.map_values(views));
                }
                return lines;
            },
            Some((line, after)) => {
                let line = match strip_suffix(line, '\r') {
                    Some(line) => line,
                    None => line,
                };
                lines.push(line);
                proof {
                    lemma_first_index(rest@, seq!['\n']);
                    assert(lines@.map_values(views) =~= done.map_values(views).push(line@));
                    assert(done.map_values(views) + (seq![line@] + text_lines(after@))
                        =~= lines@.map_values(views) + text_lines(after@));
                }
                rest = after;
            },
        }
    }
    proof {
        assert(lines@.map_values(views) + text_lines(rest@) =~= lines@.map_values(views));
    }
    lines
}

/// The text before a final `c`, where it ends with it.
fn strip_suffix(text: &str, c: char) -> (rest: Option<&str>)
    ensures
        match rest {
            Some(rest) => text@.len() > 0 && text@.last() == c && rest@ == text@.drop_last(),
            None => text@.len() == 0 || text@.last() != c,
        },
{
    let len = text.unicode_len();
    if len > 0 && text.get_char(len - 1) == c {
        Some(text.substring_char(0, len - 1))
    } else {
        None
    }
}

/// To begin with a prefix is to have it at the front, character for character.
pub proof fn lemma_starts_with(text: Seq<char>, prefix: Seq<char>)
    ensures
        starts_with(text, prefix) == prefix.is_prefix_of(text),
        starts_with(text, prefix) == (prefix.len() <= text.len() && forall|i: int|
            0 <= i < prefix.len() ==> text[i] == #[trigger] prefix[i]),
{
    if prefix.len() <= text.len() {
        let front = text.take(prefix.len() as int);
        if forall|i: int| 0 <= i < prefix.len() ==> text[i] == #[trigger] prefix[i] {
            assert(front =~= prefix);
        }
        if front == prefix {
            assert forall|i: int| 0 <= i < prefix.len() implies text[i] == #[trigger] prefix[i] by {
                assert(front[i] == prefix[i]);
            }
        }
    }
}

/// The first occurrence of a pattern is where it stands and nothing before does.
pub proof fn lemma_first_index_at(text: Seq<char>, pattern: Seq<char>, at: int)
    requires
        0 <= at <= text.len(),
        pattern.is_prefix_of(text.skip(at)),
        forall|j: int| 0 <= j < at ==> !pattern.is_prefix_of(#[trigger] text.skip(j)),
    ensures
        first_index(text, pattern) == Some(at),
{
    lemma_first_index(text, pattern);
    lemma_starts_with(text.skip(at), pattern);
    assert(starts_with(text.skip(at), pattern));
    match first_index(text, pattern) {
        Some(i) => {
            if i < at {
                lemma_starts_with(text.skip(i), pattern);
                assert(text.skip(i).take(pattern.len() as int) =~= text.subrange(
                    i,
                    i + pattern.len(),
                ));
                assert(starts_with(text.skip(i), pattern));
            }
        },
        None => {},
    }
}

/// A pattern occurs nowhere where it is found nowhere.
pub proof fn lemma_no_index(text: Seq<char>, pattern: Seq<char>)
    requires
        forall|j: int| 0 <= j <= text.len() ==> !pattern.is_prefix_of(#[trigger] text.skip(j)),
    ensures
        first_index(text, pattern) is None,
{
    lemma_first_index(text, pattern);
    match first_index(text, pattern) {
        Some(i) => {
            lemma_starts_with(text.skip(i), pattern);
            assert(text.skip(i).take(pattern.len() as int) =~= text.subrange(
                i,
                i + pattern.len(),
            ));
        },
        None => {},
    }
}

/// The first occurrence of a character is at the end of what stands before it.
pub proof fn lemma_first_char(before: Seq<char>, c: char, after: Seq<char>)
    requires
        !before.contains(c),
    ensures
        first_index(before + seq![c] + after, seq![c]) == Some(before.len() as int),
        first_index(before, seq![c]) is None,
{
    let text = before + seq![c] + after;
    let at = before.len() as int;
    assert(seq![c].is_prefix_of(text.skip(at))) by {
        assert(text.skip(at).subrange(0, 1) =~= seq![c]);
    }
    assert forall|j: int| 0 <= j < at implies !seq![c].is_prefix_of(#[trigger] text.skip(j)) by {
        assert(text.skip(j)[0] == before[j]);
        if seq![c].is_prefix_of(text.skip(j)) {
            assert(text.skip(j).subrange(0, 1)[0] == c);
            assert(before.contains(before[j]));
        }
    }
    lemma_first_index_at(text, seq![c], at);
    assert forall|j: int| 0 <= j <= before.len() implies !seq![c].is_prefix_of(
        #[trigger] before.skip(j),
    ) by {
        if seq![c].is_prefix_of(before.skip(j)) {
            assert(before.skip(j).subrange(0, 1)[0] == c);
            assert(before[j] == c);
        }
    }
    lemma_no_index(before, seq![c]);
}

/// What stands before a character is what precedes its first occurrence, whatever
/// follows it; and all of a text that does not have the character.
pub proof fn lemma_before_first(before: Seq<char>, c: char, after: Seq<char>)
    requires
        !before.contains(c),
    ensures
        before_first(before + seq![c] + after, c) == before,
        before_first(before, c) == before,
{
    lemma_first_char(before, c, after);
    assert((before + seq![c] + after).take(before.len() as int) =~= before);
}

/// Whether all characters of a text satisfy `p`.
pub open spec fn all_are(text: Seq<char>, p: spec_fn(char) -> bool) -> bool {
    forall|i: int| 0 <= i < text.len() ==> p(#[trigger] text[i])
}

proof fn lemma_trim_start(left: Seq<char>, rest: Seq<char>, p: spec_fn(char) -> bool)
    requires
        all_are(left, p),
        rest.len() > 0 ==> !p(rest[0]),
    ensures
        trim_start(left + rest, p) == rest,
    decreases left.len(),
{
    if left.len() == 0 {
        assert(left + rest =~= rest);
    } else {
        assert((left + rest).drop_first() =~= left.drop_first() + rest);
        assert(p(left[0]));
        assert forall|i: int| 0 <= i < left.drop_first().len() implies p(
            #[trigger] left.drop_first()[i],
        ) by {
            assert(p(left[i + 1]));
        }
        lemma_trim_start(left.drop_first(), rest, p);
    }
}

proof fn lemma_trim_end(rest: Seq<char>, right: Seq<char>, p: spec_fn(char) -> bool)
    requires
        all_are(right, p),
        rest.len() > 0 ==> !p(rest.last()),
    ensures
        trim_end(rest + right, p) == rest,
    decreases right.len(),
{
    if right.len() == 0 {
        assert(rest + right =~= rest);
    } else {
        assert((rest + right).drop_last() =~= rest + right.drop_last());
        assert(p(right[right.len() - 1]));
        lemma_trim_end(rest, right.drop_last(), p);
    }
}

/// A trim takes off all that it takes at both ends, and no more: what is left is what
/// stands between, where that neither begins nor ends with anything to take.
pub proof fn lemma_trim(
    left: Seq<char>,
    middle: Seq<char>,
    right: Seq<char>,
    p: spec_fn(char) -> bool,
)
    requires
        all_are(left, p),
        all_are(right, p),
        middle.len() > 0 ==> !p(middle[0]) && !p(middle.last()),
    ensures
        trim_both(left + middle + right, p) == middle,
{
    if middle.len() == 0 {
        let all = left + middle + right;
        assert forall|i: int| 0 <= i < all.len() implies p(#[trigger] all[i]) by {
            if i < left.len() {
                assert(p(left[i]));
            } else {
                assert(p(right[i - left.len()]));
            }
        }
        lemma_trim_start(all, seq![], p);
        assert(all + seq![] =~= all);
        assert(middle =~= seq![]);
    } else {
        assert(left + middle + right =~= left + (middle + right));
        lemma_trim_start(left, middle + right, p);
        lemma_trim_end(middle, right, p);
    }
}

/// A text is cut into lines at its line feeds. A line that ends in one is there without
/// it, and without a carriage return right before it; what follows the last line feed
/// is a line as it is, where it is not empty; and an empty text has no lines.
pub proof fn lemma_lines(line: Seq<char>, rest: Seq<char>)
    requires
        !line.contains('\n'),
    ensures
        line.len() > 0 && line.last() == '\r' ==> text_lines(line + seq!['\n'] + rest) == seq![
            line.drop_last(),
        ] + text_lines(rest),
        !(line.len() > 0 && line.last() == '\r') ==> text_lines(line + seq!['\n'] + rest)
            == seq![line] + text_lines(rest),
        line.len() > 0 ==> text_lines(line) == seq![line],
        text_lines(seq![]) == Seq::<Seq<char>>::empty(),
{
    let text = line + seq!['\n'] + rest;
    lemma_first_char(line, '\n', rest);
    assert(text.take(line.len() as int) =~= line);
    assert(text.skip(line.len() as int + 1) =~= rest);
}

/// Lines that end do not run into the next: the lines of a text that is empty or ends in
/// a line feed, and of another behind it, are those of the one and then of the other.
pub proof fn lemma_lines_concat(a: Seq<char>, b: Seq<char>)
    requires
        a.len() > 0 ==> a.last() == '\n',
    ensures
        text_lines(a + b) == text_lines(a) + text_lines(b),
    decreases a.len(),
{
    if a.len() == 0 {
        assert(a + b =~= b);
        assert(text_lines(a) + text_lines(b) =~= text_lines(b));
    } else {
        lemma_first_index(a, seq!['\n']);
        assert(starts_with(a.skip(a.len() - 1), seq!['\n'])) by {
            assert(a.skip(a.len() - 1).take(1) =~= seq!['\n']);
        }
        let i = first_index(a, seq!['\n'])->0;
        let line = a.take(i);
        let rest = a.skip(i + 1);
        assert(a.subrange(i, i + 1)[0] == '\n');
        assert forall|j: int| 0 <= j < i implies line[j] != '\n' by {
            if a[j] == '\n' {
                assert(a.skip(j).take(1) =~= seq!['\n']);
                assert(starts_with(a.skip(j), seq!['\n']));
            }
        }
        assert(!line.contains('\n'));
        assert(a =~= line + seq!['\n'] + rest);
        assert(a + b =~= line + seq!['\n'] + (rest + b));
        lemma_lines(line, rest);
        lemma_lines(line, rest + b);
        lemma_lines_concat(rest, b);
        assert(text_lines(a + b) =~= text_lines(a) + text_lines(b));
    }
}

} // verus!
