//! Which keyboard layout to load: from the environment, the desktop settings or
//! the system's keyboard configuration.

use vstd::prelude::*;
use vstd::utf8::{
    decode_utf8, encode_utf8, encode_utf8_decode_utf8, encode_utf8_valid_utf8, valid_utf8,
};

use crate::text::{
    before_first, find, first_index, is_whitespace, lemma_before_first, lemma_first_char,
    lemma_first_index, lemma_first_index_at, lemma_starts_with, lemma_trim, lines, split_once,
    starts_with, strip_prefix, take_before, text_lines, trim, trim_both, Trim,
};

verus! {

/// Where a layout was found.
#[derive(Debug, Clone, Copy, PartialEq, Eq, Structural)]
pub enum LayoutSource {
    /// The input sources of the desktop.
    DesktopSettings,
    /// The system's keyboard configuration.
    KeyboardConfig,
    /// Nowhere: it is the default.
    Fallback,
}

/// A layout, and where it was found.
#[derive(Debug)]
pub struct DetectedLayout {
    pub layout: String,
    pub source: LayoutSource,
}

/// The layout and the variant that a request names: a separate variant is taken as
/// it is, and otherwise one may follow the layout after a plus sign.
pub open spec fn layout_and_variant(raw: Seq<char>, variant: Seq<char>) -> (Seq<char>, Seq<char>) {
    if variant.len() > 0 {
        (raw, variant)
    } else {
        match first_index(raw, seq!['+']) {
            Some(i) => (raw.take(i), raw.skip(i + 1)),
            None => (raw, seq![]),
        }
    }
}

/// The text from the first XKB source on, in a list such as
/// `[('xkb', 'us'), ('xkb', 'fr+mac')]`.
pub open spec fn from_first_source(sources: Seq<char>) -> Option<Seq<char>> {
    match first_index(sources, "'xkb', '"@) {
        Some(i) => Some(sources.skip(i + "'xkb', '"@.len())),
        None => None,
    }
}

/// The first XKB source in a list of input sources, where it is not empty.
pub open spec fn first_source(sources: Seq<char>) -> Option<Seq<char>> {
    match from_first_source(sources) {
        Some(rest) => match first_index(rest, seq!['\'']) {
            Some(end) => if end > 0 {
                Some(rest.take(end))
            } else {
                None
            },
            None => None,
        },
        None => None,
    }
}

/// The value that a line of the keyboard configuration gives for the layout:
/// without the quotes around it, then without the white space around it.
pub open spec fn config_value(line: Seq<char>) -> Seq<char> {
    trim_both(
        trim_both(line.skip("XKBLAYOUT="@.len() as int), Trim::Char('"').takes()),
        Trim::Whitespace.takes(),
    )
}

/// The first of the layouts that a line of the keyboard configuration sets.
pub open spec fn line_layout(line: Seq<char>) -> Option<Seq<char>> {
    if starts_with(line, "XKBLAYOUT="@) && config_value(line).len() > 0 {
        Some(before_first(config_value(line), ','))
    } else {
        None
    }
}

/// The layout that the first line to set one sets.
pub open spec fn config_layout(lines: Seq<Seq<char>>) -> Option<Seq<char>>
    decreases lines.len(),
{
    if lines.len() == 0 {
        None
    } else if line_layout(lines[0]) is Some {
        line_layout(lines[0])
    } else {
        config_layout(lines.drop_first())
    }
}

/// The text of an optional string.
pub open spec fn text_of(text: Option<String>) -> Option<Seq<char>> {
    match text {
        Some(text) => Some(text@),
        None => None,
    }
}

/// What the bytes of the desktop settings read as: the text that they encode, where
/// they are valid UTF-8.
pub open spec fn settings_text(bytes: Seq<u8>) -> Seq<char> {
    if valid_utf8(bytes) {
        decode_utf8(bytes)
    } else {
        lossy_text(bytes)
    }
}

/// The layout that the desktop settings give, where there are any.
pub open spec fn desktop_layout(sources: Option<&[u8]>) -> Option<Seq<char>> {
    match sources {
        Some(bytes) => first_source(settings_text(bytes@)),
        None => None,
    }
}

/// The layout that the keyboard configuration gives, where there is one.
pub open spec fn configured_layout(config: Option<&str>) -> Option<Seq<char>> {
    match config {
        Some(config) => config_layout(text_lines(config@)),
        None => None,
    }
}

/// What bytes read as UTF-8 text, with a replacement character for what is not.
pub uninterp spec fn lossy_text(bytes: Seq<u8>) -> Seq<char>;

/// Calls `String::from_utf8_lossy`, whose result depends on the bytes alone and is
/// the text that they encode where they are valid UTF-8. Where the replacement
/// characters stand in other cases is left unsaid.
#[verifier::external_body]
fn decode_lossy(bytes: &[u8]) -> (text: String)
    ensures
        text@ == lossy_text(bytes@),
        valid_utf8(bytes@) ==> encode_utf8(text@) == bytes@,
{
    String::from_utf8_lossy(bytes).into_owned()
}

/// Splits a layout request such as `fr+mac` into layout and variant; a variant that
/// is given separately goes before one in the request.
pub fn split_layout_variant<'a>(layout_raw: &'a str, variant_env: &'a str) -> (parts: (
    &'a str,
    &'a str,
))
    ensures
        (parts.0@, parts.1@) == layout_and_variant(layout_raw@, variant_env@),
{
    if !variant_env.is_empty() {
        return (layout_raw, variant_env);
    }
    match split_once(layout_raw, '+') {
        Some((layout, variant)) => (layout, variant),
        None => {
            proof {
                reveal_strlit("");
                assert(""@ =~= seq![]);
            }
            (layout_raw, "")
        },
    }
}

/// The layout and the variant to load, from what the environment asks for, where it
/// asks, and the layout that was detected: a layout that is asked for goes before the
/// one detected, and where no variant is asked for the layout may name one.
pub fn requested_layout<'a>(
    layout_env: Option<&'a str>,
    variant_env: Option<&'a str>,
    detected: &'a str,
) -> (parts: (&'a str, &'a str))
    ensures
        (parts.0@, parts.1@) == layout_and_variant(
            match layout_env {
                Some(layout) => layout@,
                None => detected@,
            },
            match variant_env {
                Some(variant) => variant@,
                None => seq![],
            },
        ),
{
    let layout_raw = match layout_env {
        Some(layout) => layout,
        None => detected,
    };
    let variant = match variant_env {
        Some(variant) => variant,
        None => {
            proof {
                reveal_strlit("");
                assert(""@ =~= seq![]);
            }
            ""
        },
    };
    split_layout_variant(layout_raw, variant)
}

/// What to report where no keymap can be had for a layout.
pub fn keymap_failure(layout: &str, variant: &str) -> (message: String)
    ensures
        message@ == "failed to compile XKB keymap for layout '"@ + layout@ + "', variant '"@
            + variant@ + "'"@,
{
    let mut message = "failed to compile XKB keymap for layout '".to_owned();
    message.append(layout);
    message.append("', variant '");
    message.append(variant);
    message.append("'");
    message
}

/// The first XKB layout in a list of input sources, as the desktop settings print
/// it: `[('xkb', 'us'), ('xkb', 'fr+mac')]`.
pub fn layout_from_sources(sources: &str) -> (layout: Option<String>)
    ensures
        text_of(layout) == first_source(sources@),
{
    let marker = "'xkb', '";
    match find(sources, marker) {
        None => None,
        Some(start) => {
            proof {
                lemma_first_index(sources@, marker@);
            }
            let len = sources.unicode_len();
            let rest = sources.substring_char(start + marker.unicode_len(), len);
            proof {
                assert(rest@ =~= sources@.skip(start + marker@.len()));
            }
            match split_once(rest, '\'') {
                Some((layout, _)) => {
                    if layout.is_empty() {
                        None
                    } else {
                        Some(layout.to_owned())
                    }
                },
                None => None,
            }
        },
    }
}

/// The layout that one line of the keyboard configuration sets.
fn layout_from_line(line: &str) -> (layout: Option<String>)
    ensures
        text_of(layout) == line_layout(line@),
{
    match strip_prefix(line, "XKBLAYOUT=") {
        None => None,
        Some(value) => {
            let value = trim(trim(value, Trim::Char('"')), Trim::Whitespace);
            if value.is_empty() {
                None
            } else {
                Some(take_before(value, ',').to_owned())
            }
        },
    }
}

/// The first layout in the system's keyboard configuration, from a line such as
/// `XKBLAYOUT="fr,us"`.
pub fn layout_from_config(config: &str) -> (layout: Option<String>)
    ensures
        text_of(layout) == config_layout(text_lines(config@)),
{
    let lines = lines(config);
    let ghost all = text_lines(config@);
    let mut i: usize = 0;
    proof {
        assert(all.skip(0) =~= all);
    }
    while i < lines.len()
        invariant
            i <= lines@.len(),
            all == text_lines(config@),
            lines@.map_values(|line: &str| line@) == all,
            config_layout(all) == config_layout(all.skip(i as int)),
        decreases lines@.len() - i,
    {
        proof {
            assert(all[i as int] == lines@[i as int]@);
            assert(all.skip(i as int)[0] == all[i as int]);
            assert(all.skip(i as int).drop_first() =~= all.skip(i + 1));
        }
        let layout = layout_from_line(lines[i]);
        if layout.is_some() {
            return layout;
        }
        i = i + 1;
    }
    None
}

/// The layout in use: what the desktop settings print, or else what the keyboard
/// configuration holds, or else `us`. Either is `None` where it cannot be read.
pub fn detect_layout(sources: Option<&[u8]>, config: Option<&str>) -> (detected: DetectedLayout)
    ensures
        match desktop_layout(sources) {
            Some(layout) => detected.layout@ == layout && detected.source
                == LayoutSource::DesktopSettings,
            None => match configured_layout(config) {
                Some(layout) => detected.layout@ == layout && detected.source
                    == LayoutSource::KeyboardConfig,
                None => detected.layout@ == "us"@ && detected.source == LayoutSource::Fallback,
            },
        },
{
    if let Some(bytes) = sources {
        let text = decode_lossy(bytes);
        proof {
            encode_utf8_decode_utf8(text@);
        }
        if let Some(layout) = layout_from_sources(text.as_str()) {
            return DetectedLayout { layout, source: LayoutSource::DesktopSettings };
        }
    }
    if let Some(config) = config {
        if let Some(layout) = layout_from_config(config) {
            return DetectedLayout { layout, source: LayoutSource::KeyboardConfig };
        }
    }
    DetectedLayout { layout: "us".to_owned(), source: LayoutSource::Fallback }
}

/// Splitting loses nothing: without a separate variant, a request with a plus sign
/// is its layout, a plus sign and its variant, and the layout holds no plus sign.
pub proof fn lemma_split_loses_nothing(raw: Seq<char>)
    requires
        raw.contains('+'),
    ensures
        ({
            let (layout, variant) = layout_and_variant(raw, seq![]);
            &&& layout + seq!['+'] + variant == raw
            &&& !layout.contains('+')
        }),
{
    lemma_first_index(raw, seq!['+']);
    let p = choose|p: int| 0 <= p < raw.len() && raw[p] == '+';
    assert(starts_with(raw.skip(p), seq!['+'])) by {
        assert(raw.skip(p).take(1) =~= seq!['+']);
    }
    let i = first_index(raw, seq!['+'])->0;
    assert(raw.subrange(i, i + 1)[0] == '+');
    assert(raw =~= raw.take(i) + seq!['+'] + raw.skip(i + 1));
    assert forall|j: int| 0 <= j < i implies raw.take(i)[j] != '+' by {
        if raw[j] == '+' {
            assert(raw.skip(j).take(1) =~= seq!['+']);
            assert(starts_with(raw.skip(j), seq!['+']));
        }
    }
}

/// A variant that is given separately is taken with the request as it is; and a request
/// without a plus sign names no variant.
pub proof fn lemma_separate_variant(raw: Seq<char>, variant: Seq<char>)
    ensures
        variant.len() > 0 ==> layout_and_variant(raw, variant) == (raw, variant),
        !raw.contains('+') ==> layout_and_variant(raw, seq![]) == (raw, Seq::<char>::empty()),
{
    if !raw.contains('+') {
        lemma_first_char(raw, '+', seq![]);
    }
}

/// The text of an optional string is there where the string is, and is the same.
pub proof fn lemma_text_of(text: Option<String>)
    ensures
        text_of(text) is Some <==> text is Some,
        text matches Some(text) ==> text_of(Some(text)) == Some(text@),
{
}

/// What comes before the name of an XKB source in a list of input sources.
pub open spec fn source_marker() -> Seq<char> {
    seq!['\'', 'x', 'k', 'b', '\'', ',', ' ', '\'']
}

/// Whether a list of input sources has its first XKB source behind `before`, with this
/// name, and the closing quote right after it.
pub open spec fn names_first(
    sources: Seq<char>,
    before: Seq<char>,
    name: Seq<char>,
    after: Seq<char>,
) -> bool {
    &&& sources == before + source_marker() + name + seq!['\''] + after
    &&& !name.contains('\'')
    &&& forall|j: int|
        0 <= j < before.len() ==> !source_marker().is_prefix_of(#[trigger] sources.skip(j))
}

proof fn lemma_marker()
    ensures
        "'xkb', '"@ == source_marker(),
{
    reveal_strlit("'xkb', '");
    assert("'xkb', '"@ =~= source_marker());
}

/// The desktop's first XKB source is found wherever it stands in the list and whatever it
/// is called, unless its name is empty.
pub proof fn lemma_first_source_is_found(
    sources: Seq<char>,
    before: Seq<char>,
    name: Seq<char>,
    after: Seq<char>,
)
    requires
        names_first(sources, before, name, after),
    ensures
        first_source(sources) == (if name.len() > 0 {
            Some(name)
        } else {
            None
        }),
{
    let marker = source_marker();
    let at = before.len() as int;
    lemma_marker();
    assert(marker.is_prefix_of(sources.skip(at))) by {
        assert(sources.skip(at).subrange(0, marker.len() as int) =~= marker);
    }
    lemma_first_index_at(sources, marker, at);
    let rest = sources.skip(at + marker.len());
    assert(rest =~= name + seq!['\''] + after);
    lemma_first_char(name, '\'', after);
    assert(rest.take(name.len() as int) =~= name);
}

/// Nothing is found that is not there: a layout that is found is the name of the first
/// XKB source in the list.
pub proof fn lemma_found_source_is_named(sources: Seq<char>)
    requires
        first_source(sources) is Some,
    ensures
        exists|before: Seq<char>, after: Seq<char>| #[trigger]
            names_first(sources, before, first_source(sources)->0, after),
{
    let marker = source_marker();
    lemma_marker();
    lemma_first_index(sources, marker);
    let at = first_index(sources, marker)->0;
    let before = sources.take(at);
    let rest = sources.skip(at + marker.len());
    lemma_first_index(rest, seq!['\'']);
    let end = first_index(rest, seq!['\''])->0;
    let name = rest.take(end);
    let after = rest.skip(end + 1);
    assert(rest.subrange(end, end + 1)[0] == '\'');
    assert(sources =~= before + sources.subrange(at, at + marker.len()) + rest);
    assert(rest =~= name + seq!['\''] + after);
    assert(sources =~= before + marker + name + seq!['\''] + after);
    assert forall|j: int| 0 <= j < end implies name[j] != '\'' by {
        if rest[j] == '\'' {
            assert(rest.skip(j).take(1) =~= seq!['\'']);
            assert(starts_with(rest.skip(j), seq!['\'']));
        }
    }
    assert forall|j: int| 0 <= j < before.len() implies !marker.is_prefix_of(
        #[trigger] sources.skip(j),
    ) by {
        lemma_starts_with(sources.skip(j), marker);
        assert(!starts_with(sources.skip(j), marker));
    }
    assert(first_source(sources) == Some(name));
    assert(names_first(sources, before, first_source(sources)->0, after));
}

/// Desktop settings are read as the text that their bytes encode, and without them the
/// desktop gives no layout.
pub proof fn lemma_desktop_settings_are_text(bytes: &[u8], text: Seq<char>)
    requires
        bytes@ == encode_utf8(text),
    ensures
        desktop_layout(Some(bytes)) == first_source(text),
        desktop_layout(None) is None,
{
    encode_utf8_valid_utf8(text);
    encode_utf8_decode_utf8(text);
}

/// The first line that sets a layout decides, whatever stands before and after it; and
/// none is set only where no line sets one.
pub proof fn lemma_first_setting_decides(lines: Seq<Seq<char>>)
    ensures
        forall|k: int|
            0 <= k < lines.len() && line_layout(#[trigger] lines[k]) is Some && (forall|j: int|
                0 <= j < k ==> line_layout(#[trigger] lines[j]) is None) ==> config_layout(lines)
                == line_layout(lines[k]),
        config_layout(lines) is None <==> forall|k: int|
            0 <= k < lines.len() ==> line_layout(#[trigger] lines[k]) is None,
    decreases lines.len(),
{
    if lines.len() > 0 {
        let rest = lines.drop_first();
        lemma_first_setting_decides(rest);
        assert forall|k: int|
            0 <= k < lines.len() && line_layout(#[trigger] lines[k]) is Some && (forall|j: int|
                0 <= j < k ==> line_layout(#[trigger] lines[j]) is None) implies config_layout(
            lines,
        ) == line_layout(lines[k]) by {
            if k > 0 {
                assert(line_layout(lines[0]) is None);
                assert(rest[k - 1] == lines[k]);
                assert forall|j: int| 0 <= j < k - 1 implies line_layout(
                    #[trigger] rest[j],
                ) is None by {
                    assert(rest[j] == lines[j + 1]);
                }
            }
        }
        if forall|k: int| 0 <= k < lines.len() ==> line_layout(#[trigger] lines[k]) is None {
            assert(line_layout(lines[0]) is None);
            assert forall|k: int| 0 <= k < rest.len() implies line_layout(
                #[trigger] rest[k],
            ) is None by {
                assert(rest[k] == lines[k + 1]);
            }
        }
        if config_layout(lines) is None {
            assert forall|k: int| 0 <= k < lines.len() implies line_layout(
                #[trigger] lines[k],
            ) is None by {
                if k > 0 {
                    assert(rest[k - 1] == lines[k]);
                }
            }
        }
    }
}

/// What a setting of the layout begins with.
pub open spec fn setting_marker() -> Seq<char> {
    seq!['X', 'K', 'B', 'L', 'A', 'Y', 'O', 'U', 'T', '=']
}

proof fn lemma_setting_marker()
    ensures
        "XKBLAYOUT="@ == setting_marker(),
{
    reveal_strlit("XKBLAYOUT=");
    assert("XKBLAYOUT="@ =~= setting_marker());
}

/// Whether all characters of a text are double quotes.
pub open spec fn is_all_quotes(text: Seq<char>) -> bool {
    forall|i: int| 0 <= i < text.len() ==> #[trigger] text[i] == '"'
}

/// Whether all characters of a text are white space.
pub open spec fn is_all_blank(text: Seq<char>) -> bool {
    forall|i: int| 0 <= i < text.len() ==> is_whitespace(#[trigger] text[i])
}

/// A line that does not begin with `XKBLAYOUT=` sets no layout.
pub proof fn lemma_other_lines_set_nothing(line: Seq<char>)
    requires
        !setting_marker().is_prefix_of(line),
    ensures
        line_layout(line) is None,
{
    lemma_setting_marker();
    lemma_starts_with(line, setting_marker());
}

/// A line sets what stands behind `XKBLAYOUT=`, without the quotes around it and then
/// without the white space around it, up to the first comma; and nothing where that is
/// empty before it is cut at the comma.
pub proof fn lemma_setting(
    open_quotes: Seq<char>,
    open_blank: Seq<char>,
    value: Seq<char>,
    close_blank: Seq<char>,
    close_quotes: Seq<char>,
)
    requires
        is_all_quotes(open_quotes),
        is_all_quotes(close_quotes),
        is_all_blank(open_blank),
        is_all_blank(close_blank),
        value.len() > 0 ==> !is_whitespace(value[0]) && !is_whitespace(value.last()),
        value.len() > 0 && open_blank.len() == 0 ==> value[0] != '"',
        value.len() > 0 && close_blank.len() == 0 ==> value.last() != '"',
    ensures
        ({
            let line = setting_marker() + open_quotes + open_blank + value + close_blank
                + close_quotes;
            &&& value.len() == 0 ==> line_layout(line) is None
            &&& value.len() > 0 && !value.contains(',') ==> line_layout(line) == Some(value)
            &&& forall|first: Seq<char>, others: Seq<char>|
                value.len() > 0 && !first.contains(',') && value == #[trigger] (first + seq![
                    ',',
                ] + others) ==> line_layout(line) == Some(first)
        }),
{
    let marker = setting_marker();
    let middle = open_blank + value + close_blank;
    let line = marker + open_quotes + open_blank + value + close_blank + close_quotes;
    let quotes = Trim::Char('"').takes();
    let blank = Trim::Whitespace.takes();
    lemma_setting_marker();
    assert(starts_with(line, marker)) by {
        assert(line.take(marker.len() as int) =~= marker);
    }
    assert(line.skip(marker.len() as int) =~= open_quotes + middle + close_quotes);
    assert(middle.len() > 0 ==> middle[0] != '"' && middle.last() != '"') by {
        if open_blank.len() > 0 {
            assert(is_whitespace(open_blank[0]));
        } else if value.len() == 0 && close_blank.len() > 0 {
            assert(is_whitespace(close_blank[0]));
        }
        if close_blank.len() > 0 {
            assert(is_whitespace(close_blank[close_blank.len() - 1]));
        } else if value.len() == 0 && open_blank.len() > 0 {
            assert(is_whitespace(open_blank[open_blank.len() - 1]));
        }
    }
    lemma_trim(open_quotes, middle, close_quotes, quotes);
    lemma_trim(open_blank, value, close_blank, blank);
    assert(config_value(line) == value);
    if !value.contains(',') {
        lemma_before_first(value, ',', seq![]);
    }
    assert forall|first: Seq<char>, others: Seq<char>|
        value.len() > 0 && !first.contains(',') && value == #[trigger] (first + seq![','] + others) implies line_layout(line) == Some(first) by {
        lemma_before_first(first, ',', others);
    }
}

/// The keyboard configuration gives the layout of the first of its lines that sets one,
/// and none where no line does or there is no configuration.
pub proof fn lemma_configured_layout(config: &str)
    ensures
        forall|k: int|
            0 <= k < text_lines(config@).len() && line_layout(
                #[trigger] text_lines(config@)[k],
            ) is Some && (forall|j: int|
                0 <= j < k ==> line_layout(#[trigger] text_lines(config@)[j]) is None)
                ==> configured_layout(Some(config)) == line_layout(text_lines(config@)[k]),
        configured_layout(Some(config)) is None <==> forall|k: int|
            0 <= k < text_lines(config@).len() ==> line_layout(
                #[trigger] text_lines(config@)[k],
            ) is None,
        configured_layout(None) is None,
{
    lemma_first_setting_decides(text_lines(config@));
}

} // verus!
