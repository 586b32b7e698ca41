//! Reading back what was written: the tokenizer reads a string literal as
//! the string it was written for, and the parser reads the text of a value
//! as that value. Where the value holds no binary64 number, no token of its
//! text asks the decoder, so that this holds whatever the decoder does.

use vstd::prelude::*;
use crate::decimal::{all_digits, decimal_text, is_digit, lemma_decimal_text_value};
use crate::number::{
    Number, classified, float_number, integer_literal, number_text, unsigned_literal,
};
use crate::parse_error::Fault;
use crate::parser::{
    parsed_array, parsed_object, parsed_property, parsed_text, parsed_value, required_token,
};
use crate::scan::{
    Scan, StringScan, TokenKind, TokenView, character_at, escape, keyword, letter, letters,
    located, no_floats, number_character, number_characters, number_start, run_length,
    scan_string, simple_escape, whitespace,
};
use crate::stringifier::{
    escaped_character, escaped_text, holds_no_float, line_end, quoted, rendered, rendered_entries,
    rendered_entry, rendered_item, rendered_items,
};
use crate::text::spaces;
use crate::value::{Json, distinct_keys, distinct_throughout, inserted, lemma_key_index};

verus! {

/// Whether the text holds `part` from `position` on.
pub open spec fn holds_at(characters: Seq<char>, position: int, part: Seq<char>) -> bool {
    &&& 0 <= position
    &&& position + part.len() <= characters.len()
    &&& forall|k: int| 0 <= k < part.len() ==> characters[position + k] == #[trigger] part[k]
}

/// A text that holds two parts in a row holds each of them.
pub proof fn lemma_holds_both(characters: Seq<char>, position: int, first: Seq<char>,
    second: Seq<char>)
    requires
        holds_at(characters, position, first + second),
    ensures
        holds_at(characters, position, first),
        holds_at(characters, position + first.len(), second),
{
    assert forall|k: int| 0 <= k < first.len() implies characters[position + k]
        == #[trigger] first[k] by {
        assert((first + second)[k] == first[k]);
    }
    assert forall|k: int| 0 <= k < second.len() implies characters[position + first.len() + k]
        == #[trigger] second[k] by {
        assert((first + second)[first.len() + k] == second[k]);
    }
}

/// The escaped form of a text that begins with `first` begins with the
/// escaped form of `first`.
pub proof fn lemma_escaped_text_begins(first: char, rest: Seq<char>)
    ensures
        escaped_text(seq![first] + rest) == escaped_character(first) + escaped_text(rest),
    decreases rest.len(),
{
    let text = seq![first] + rest;
    if rest.len() == 0 {
        assert(text.drop_last() == Seq::<char>::empty());
        assert(escaped_text(text.drop_last()) == Seq::<char>::empty());
        assert(escaped_text(text) == escaped_text(text.drop_last()) + escaped_character(
            text.last(),
        ));
        assert(escaped_text(text) =~= escaped_character(first) + escaped_text(rest));
    } else {
        lemma_escaped_text_begins(first, rest.drop_last());
        assert(text.drop_last() == seq![first] + rest.drop_last());
        assert(text.last() == rest.last());
        assert(escaped_text(text) == escaped_text(text.drop_last()) + escaped_character(
            text.last(),
        ));
        assert(escaped_text(rest) == escaped_text(rest.drop_last()) + escaped_character(
            rest.last(),
        ));
        assert(escaped_text(text) =~= escaped_character(first) + escaped_text(rest));
    }
}

/// Reading on inside a string literal, from the escaped form of `rest` and
/// the closing quote, gives `rest` and ends behind the quote.
pub proof fn lemma_scan_escaped(
    characters: Seq<char>,
    position: int,
    decoded: Seq<char>,
    rest: Seq<char>,
)
    requires
        holds_at(characters, position, escaped_text(rest) + seq!['"']),
        decoded.len() >= 1,
    ensures
        scan_string(characters, position, decoded) == (StringScan {
            decoded: decoded + rest + seq!['"'],
            end: position + escaped_text(rest).len() + 1,
            closed: true,
        }),
    decreases rest.len(),
{
    lemma_holds_both(characters, position, escaped_text(rest), seq!['"']);
    if rest.len() == 0 {
        assert(escaped_text(rest) == Seq::<char>::empty());
        assert(characters[position] == seq!['"'][0]);
        assert(decoded.push('"') =~= decoded + rest + seq!['"']);
    } else {
        let first = rest[0];
        let tail = rest.drop_first();
        assert(rest == seq![first] + tail);
        lemma_escaped_text_begins(first, tail);
        let form = escaped_character(first);
        assert(holds_at(characters, position, (form + escaped_text(tail)) + seq!['"'])) by {
            assert(escaped_text(rest) + seq!['"'] == (form + escaped_text(tail)) + seq!['"']);
        }
        assert((form + escaped_text(tail)) + seq!['"'] =~= form + (escaped_text(tail) + seq!['"']));
        lemma_holds_both(characters, position, form, escaped_text(tail) + seq!['"']);
        assert(characters[position] == form[0]);
        if form.len() == 2 {
            assert(characters[position + 1] == form[1]);
            assert(characters[position] == '\\');
            reveal(escape);
            assert(simple_escape(form[1]) == Some(first));
            assert(escape(characters, position).character == Some(first));
            assert(escape(characters, position).cursor == position + 1);
            lemma_scan_escaped(characters, position + 2, decoded.push(first), tail);
            assert(decoded.push(first) + tail + seq!['"'] =~= decoded + rest + seq!['"']);
        } else {
            assert(form == seq![first]);
            assert(characters[position] == first);
            lemma_scan_escaped(characters, position + 1, decoded.push(first), tail);
            assert(decoded.push(first) + tail + seq!['"'] =~= decoded + rest + seq!['"']);
        }
    }
}

/// The tokenizer reads the string literal written for a text as that text:
/// where a text holds the literal for `text`, the token there is a string
/// with `text` as its payload and the literal as its text, and ends behind
/// the literal.
pub proof fn lemma_reads_string_literal(scan: Scan, text: Seq<char>)
    requires
        holds_at(scan.characters, scan.position, quoted(text)),
    ensures
        scan.string_token() == scan.token(
            TokenKind::String(text),
            quoted(text),
            scan.position + quoted(text).len(),
        ),
        scan.skip_whitespace() == scan,
        scan.current() == '"',
{
    let characters = scan.characters;
    let position = scan.position;
    assert(quoted(text) =~= seq!['"'] + (escaped_text(text) + seq!['"']));
    lemma_holds_both(characters, position, seq!['"'], escaped_text(text) + seq!['"']);
    assert(characters[position] == seq!['"'][0]);
    lemma_scan_escaped(characters, position + 1, seq!['"'], text);
    let read = scan_string(characters, position, Seq::empty());
    assert(read == scan_string(characters, position + 1, Seq::<char>::empty().push('"')));
    assert(Seq::<char>::empty().push('"') == seq!['"']);
    assert(read.decoded == seq!['"'] + text + seq!['"']);
    assert(read.decoded.subrange(1, read.decoded.len() - 1) =~= text);
    assert(characters.subrange(position, read.end) =~= quoted(text));
}

/// Reading inverts writing on strings: the first token of the string
/// literal written for a text is a string with that text as its payload, and
/// spans the literal.
pub proof fn lemma_decode_inverts_encode(text: Seq<char>, floats: spec_fn(Seq<char>) -> Option<u64>)
    ensures
        Scan::start(quoted(text)).next_token(floats) == (
            Some(
                TokenView {
                    kind: TokenKind::String(text),
                    raw: quoted(text),
                    location: located(1, 1, quoted(text).len() as int),
                },
            ),
            Scan::start(quoted(text)).advance(quoted(text).len() as int),
        ),
{
    lemma_reads_string_literal(Scan::start(quoted(text)), text);
}

/// Whether no keyword and no number literal goes on with `character`.
pub open spec fn ends_token(character: char) -> bool {
    !letter(character) && !number_character(character)
}

/// Whether a number is read back from its text as itself: any unsigned
/// integer is, a signed integer that is negative, and a binary64 value whose
/// text is a number literal that is no integer and is read as that value,
/// which is not a whole one that an integer holds.
pub open spec fn canonical_number(
    number: Number,
    floats: spec_fn(Seq<char>) -> Option<u64>,
    float_text: spec_fn(u64) -> Seq<char>,
) -> bool {
    match number {
        Number::UnsignedInteger(_) => true,
        Number::Integer(value) => value < 0,
        Number::Float(bits) => {
            let text = float_text(bits);
            &&& text.len() > 0
            &&& number_start(text[0])
            &&& forall|k: int| 0 <= k < text.len() ==> number_character(#[trigger] text[k])
            &&& integer_literal(text) is None
            &&& floats(text) == Some(bits)
            &&& float_number(bits) == Number::Float(bits)
        },
    }
}

/// Whether a value is read back from its text as itself: its numbers are,
/// and no object has a key twice.
pub open spec fn canonical(
    value: Json,
    floats: spec_fn(Seq<char>) -> Option<u64>,
    float_text: spec_fn(u64) -> Seq<char>,
) -> bool
    decreases value,
{
    match value {
        Json::Null => true,
        Json::Bool(_) => true,
        Json::Number(number) => canonical_number(number, floats, float_text),
        Json::String(_) => true,
        Json::Object(entries) => {
            &&& distinct_keys(entries)
            &&& forall|i: int|
                0 <= i < entries.len() ==> canonical(
                    (#[trigger] entries[i]).1,
                    floats,
                    float_text,
                )
        },
        Json::Array(items) => forall|i: int|
            0 <= i < items.len() ==> canonical(#[trigger] items[i], floats, float_text),
    }
}

/// Whether every number of a value is read back from its text as itself.
pub open spec fn numbers_read_back(
    value: Json,
    floats: spec_fn(Seq<char>) -> Option<u64>,
    float_text: spec_fn(u64) -> Seq<char>,
) -> bool
    decreases value,
{
    match value {
        Json::Number(number) => canonical_number(number, floats, float_text),
        Json::Object(entries) => forall|i: int|
            0 <= i < entries.len() ==> numbers_read_back(
                (#[trigger] entries[i]).1,
                floats,
                float_text,
            ),
        Json::Array(items) => forall|i: int|
            0 <= i < items.len() ==> numbers_read_back(#[trigger] items[i], floats, float_text),
        _ => true,
    }
}

/// A value whose numbers are read back where the decoder reads none holds
/// no binary64 number.
pub proof fn lemma_reads_back_without_floats(value: Json, float_text: spec_fn(u64) -> Seq<char>)
    requires
        numbers_read_back(value, no_floats(), float_text),
    ensures
        holds_no_float(value),
    decreases value,
{
    match value {
        Json::Object(entries) => {
            assert forall|i: int| 0 <= i < entries.len() implies holds_no_float(
                (#[trigger] entries[i]).1,
            ) by {
                lemma_reads_back_without_floats(entries[i].1, float_text);
            }
        },
        Json::Array(items) => {
            assert forall|i: int| 0 <= i < items.len() implies holds_no_float(
                #[trigger] items[i],
            ) by {
                lemma_reads_back_without_floats(items[i], float_text);
            }
        },
        _ => {},
    }
}

/// A value is read back as itself where its numbers are and no object of it
/// has a key twice.
pub proof fn lemma_canonical(
    value: Json,
    floats: spec_fn(Seq<char>) -> Option<u64>,
    float_text: spec_fn(u64) -> Seq<char>,
)
    requires
        numbers_read_back(value, floats, float_text),
        distinct_throughout(value),
    ensures
        canonical(value, floats, float_text),
    decreases value,
{
    match value {
        Json::Object(entries) => {
            assert forall|i: int| 0 <= i < entries.len() implies canonical(
                (#[trigger] entries[i]).1,
                floats,
                float_text,
            ) by {
                lemma_canonical(entries[i].1, floats, float_text);
            }
        },
        Json::Array(items) => {
            assert forall|i: int| 0 <= i < items.len() implies canonical(
                #[trigger] items[i],
                floats,
                float_text,
            ) by {
                lemma_canonical(items[i], floats, float_text);
            }
        },
        _ => {},
    }
}

/// Skipping whitespace passes the spaces that stand before a character that
/// is none.
proof fn lemma_skips_spaces(scan: Scan, count: nat)
    requires
        holds_at(scan.characters, scan.position, spaces(count)),
        !whitespace(character_at(scan.characters, scan.position + count)),
    ensures
        scan.skip_whitespace() == scan.advance(count as int),
    decreases count,
{
    if count == 0 {
        assert(scan.advance(0) == scan);
    } else {
        assert(scan.characters[scan.position] == spaces(count)[0]);
        assert forall|k: int| 0 <= k < count - 1 implies scan.characters[scan.position + 1 + k]
            == #[trigger] spaces((count - 1) as nat)[k] by {
            assert(scan.characters[scan.position + (k + 1)] == spaces(count)[k + 1]);
        }
        lemma_skips_spaces(scan.advance(1), (count - 1) as nat);
        assert(scan.advance(1).advance(count - 1) == scan.advance(count as int));
    }
}

/// Skipping whitespace passes a line feed and the margin of the next line.
proof fn lemma_skips_line(scan: Scan, count: nat)
    requires
        0 <= scan.position < scan.characters.len(),
        scan.characters[scan.position] == '\n',
        holds_at(scan.characters, scan.position + 1, spaces(count)),
        !whitespace(character_at(scan.characters, scan.position + 1 + count)),
    ensures
        scan.skip_whitespace().characters == scan.characters,
        scan.skip_whitespace().position == scan.position + 1 + count,
{
    let below = Scan { position: scan.position + 1, line: scan.line + 1, column: 1, ..scan };
    lemma_skips_spaces(below, count);
}

/// A run is as long as the characters of its class that stand before one
/// that is not of it.
proof fn lemma_run_exact(characters: Seq<char>, from: int, class: spec_fn(char) -> bool,
    length: nat)
    requires
        0 <= from,
        from + length <= characters.len(),
        forall|k: int| from <= k < from + length ==> class(#[trigger] characters[k]),
        !class(character_at(characters, from + length)),
    ensures
        run_length(characters, from, class) == length,
    decreases length,
{
    if length > 0 {
        lemma_run_exact(characters, from + 1, class, (length - 1) as nat);
    } else {
        if from < characters.len() {
            assert(character_at(characters, from) == characters[from]);
        }
    }
}

/// The text of an integer is read as that integer, where it is unsigned or
/// negative.
proof fn lemma_integer_text(number: Number, float_text: spec_fn(u64) -> Seq<char>)
    requires
        number matches Number::Integer(value) ==> value < 0,
        !(number is Float),
    ensures
        number_text(number, float_text).len() > 0,
        number_start(number_text(number, float_text)[0]),
        forall|k: int|
            0 <= k < number_text(number, float_text).len() ==> number_character(
                #[trigger] number_text(number, float_text)[k],
            ),
        integer_literal(number_text(number, float_text)) == Some(number),
{
    let text = number_text(number, float_text);
    match number {
        Number::UnsignedInteger(value) => {
            lemma_decimal_text_value(value as nat);
            assert(is_digit(text[0]));
            assert(text.skip(0) == text);
        },
        Number::Integer(value) => {
            let digits = decimal_text((-value) as nat);
            lemma_decimal_text_value((-value) as nat);
            assert(text == seq!['-'] + digits);
            assert(text.skip(1) == digits);
            assert(text[0] == '-');
            assert(!is_digit(text[0]));
            assert(!all_digits(text));
            assert(unsigned_literal(text) is None);
            assert forall|k: int| 0 <= k < text.len() implies number_character(
                #[trigger] text[k],
            ) by {
                if k > 0 {
                    assert(text[k] == digits[k - 1]);
                    assert(is_digit(digits[k - 1]));
                }
            }
        },
        Number::Float(_) => {},
    }
}

/// Classifying inverts writing on numbers: the text of a number that is
/// read back as itself is classified as that number.
pub proof fn lemma_classify_inverts_text(
    number: Number,
    floats: spec_fn(Seq<char>) -> Option<u64>,
    float_text: spec_fn(u64) -> Seq<char>,
)
    requires
        canonical_number(number, floats, float_text),
    ensures
        classified(
            number_text(number, float_text),
            floats(number_text(number, float_text)),
        ) == Some(number),
{
    if !(number is Float) {
        lemma_integer_text(number, float_text);
    }
}

/// The text of a value begins with a character that is no whitespace.
proof fn lemma_rendered_begins(
    value: Json,
    indent: nat,
    level: nat,
    floats: spec_fn(Seq<char>) -> Option<u64>,
    float_text: spec_fn(u64) -> Seq<char>,
)
    requires
        canonical(value, floats, float_text),
    ensures
        rendered(value, indent, level, float_text).len() > 0,
        !whitespace(rendered(value, indent, level, float_text)[0]),
{
    match value {
        Json::Number(number) => {
            if !(number is Float) {
                lemma_integer_text(number, float_text);
            }
        },
        Json::String(text) => {
            assert(quoted(text)[0] == '"');
        },
        Json::Object(entries) => {
            if entries.len() > 0 {
                assert(rendered(value, indent, level, float_text)[0] == '{');
            }
        },
        Json::Array(items) => {
            if items.len() > 0 {
                assert(rendered(value, indent, level, float_text)[0] == '[');
            }
        },
        _ => {},
    }
}

/// A text that holds the lines of some entries holds the line of each.
proof fn lemma_entry_line_at(
    characters: Seq<char>,
    at: int,
    entries: Seq<(Seq<char>, Json)>,
    count: nat,
    index: nat,
    indent: nat,
    level: nat,
    float_text: spec_fn(u64) -> Seq<char>,
)
    requires
        index < count <= entries.len(),
        holds_at(characters, at, rendered_entries(entries, count, indent, level, float_text)),
    ensures
        holds_at(
            characters,
            at + rendered_entries(entries, index, indent, level, float_text).len(),
            rendered_entry(entries, index as int, indent, level, float_text),
        ),
        rendered_entries(entries, index + 1, indent, level, float_text).len() == rendered_entries(
            entries,
            index,
            indent,
            level,
            float_text,
        ).len() + rendered_entry(entries, index as int, indent, level, float_text).len(),
        rendered_entries(entries, index + 1, indent, level, float_text).len() <= rendered_entries(
            entries,
            count,
            indent,
            level,
            float_text,
        ).len(),
    decreases count - index,
{
    let before = rendered_entries(entries, (count - 1) as nat, indent, level, float_text);
    let line = rendered_entry(entries, count - 1, indent, level, float_text);
    assert(rendered_entries(entries, count, indent, level, float_text) == before + line);
    lemma_holds_both(characters, at, before, line);
    if index + 1 < count {
        lemma_entry_line_at(
            characters,
            at,
            entries,
            (count - 1) as nat,
            index,
            indent,
            level,
            float_text,
        );
    }
}

/// A text that holds the lines of some items holds the line of each.
proof fn lemma_item_line_at(
    characters: Seq<char>,
    at: int,
    items: Seq<Json>,
    count: nat,
    index: nat,
    indent: nat,
    level: nat,
    float_text: spec_fn(u64) -> Seq<char>,
)
    requires
        index < count <= items.len(),
        holds_at(characters, at, rendered_items(items, count, indent, level, float_text)),
    ensures
        holds_at(
            characters,
            at + rendered_items(items, index, indent, level, float_text).len(),
            rendered_item(items, index as int, indent, level, float_text),
        ),
        rendered_items(items, index + 1, indent, level, float_text).len() == rendered_items(
            items,
            index,
            indent,
            level,
            float_text,
        ).len() + rendered_item(items, index as int, indent, level, float_text).len(),
        rendered_items(items, index + 1, indent, level, float_text).len() <= rendered_items(
            items,
            count,
            indent,
            level,
            float_text,
        ).len(),
    decreases count - index,
{
    let before = rendered_items(items, (count - 1) as nat, indent, level, float_text);
    let line = rendered_item(items, count - 1, indent, level, float_text);
    assert(rendered_items(items, count, indent, level, float_text) == before + line);
    lemma_holds_both(characters, at, before, line);
    if index + 1 < count {
        lemma_item_line_at(
            characters,
            at,
            items,
            (count - 1) as nat,
            index,
            indent,
            level,
            float_text,
        );
    }
}

/// The token that is one structural character.
proof fn lemma_reads_plain(
    scan: Scan,
    character: char,
    kind: TokenKind,
    floats: spec_fn(Seq<char>) -> Option<u64>,
)
    requires
        0 <= scan.position < scan.characters.len(),
        scan.characters[scan.position] == character,
        (character == '[' && kind == TokenKind::BeginArray) || (character == ']' && kind
            == TokenKind::EndArray) || (character == '{' && kind == TokenKind::BeginObject) || (
        character == '}' && kind == TokenKind::EndObject) || (character == ':' && kind
            == TokenKind::NameSeparator) || (character == ',' && kind == TokenKind::ValueSeparator),
    ensures
        scan.next_token(floats).0 matches Some(token) && token.kind == kind,
        scan.next_token(floats).1 == scan.advance(1),
{
}

/// The token that stands behind a line feed and a margin, where it is one
/// structural character.
proof fn lemma_reads_plain_below(
    scan: Scan,
    margin: nat,
    character: char,
    kind: TokenKind,
    floats: spec_fn(Seq<char>) -> Option<u64>,
)
    requires
        0 <= scan.position < scan.characters.len(),
        scan.characters[scan.position] == '\n',
        holds_at(scan.characters, scan.position + 1, spaces(margin)),
        scan.position + 1 + margin < scan.characters.len(),
        scan.characters[scan.position + 1 + margin] == character,
        (character == ']' && kind == TokenKind::EndArray) || (character == '}' && kind
            == TokenKind::EndObject),
    ensures
        scan.next_token(floats).0 matches Some(token) && token.kind == kind,
        scan.next_token(floats).1.characters == scan.characters,
        scan.next_token(floats).1.position == scan.position + 2 + margin,
{
    lemma_skips_line(scan, margin);
}

/// A keyword that stands behind the whitespace at `scan`, with no letter
/// behind it, is the next token.
proof fn lemma_reads_keyword(scan: Scan, word: Seq<char>, floats: spec_fn(Seq<char>) -> Option<u64>)
    requires
        word == seq!['n', 'u', 'l', 'l'] || word == seq!['t', 'r', 'u', 'e'] || word == seq![
            'f',
            'a',
            'l',
            's',
            'e',
        ],
        scan.skip_whitespace().characters == scan.characters,
        holds_at(scan.characters, scan.skip_whitespace().position, word),
        !letter(character_at(scan.characters, scan.skip_whitespace().position + word.len())),
    ensures
        scan.next_token(floats).0 matches Some(token) && token.kind == keyword(word),
        scan.next_token(floats).1.characters == scan.characters,
        scan.next_token(floats).1.position == scan.skip_whitespace().position + word.len(),
{
    let characters = scan.characters;
    let here = scan.skip_whitespace();
    assert(characters[here.position] == word[0]);
    assert forall|k: int| here.position <= k < here.position + word.len() implies letters()(
        #[trigger] characters[k],
    ) by {
        assert(characters[here.position + (k - here.position)] == word[k - here.position]);
    }
    lemma_run_exact(characters, here.position, letters(), word.len());
    assert(here.letter_run() =~= word);
}

/// The text of a number that stands behind the whitespace at `scan`, with
/// no number character behind it, is the next token, and is that number
/// where the number is read back as itself.
proof fn lemma_reads_number(
    scan: Scan,
    number: Number,
    floats: spec_fn(Seq<char>) -> Option<u64>,
    float_text: spec_fn(u64) -> Seq<char>,
)
    requires
        canonical_number(number, floats, float_text),
        scan.skip_whitespace().characters == scan.characters,
        holds_at(scan.characters, scan.skip_whitespace().position, number_text(number, float_text)),
        !number_character(
            character_at(
                scan.characters,
                scan.skip_whitespace().position + number_text(number, float_text).len(),
            ),
        ),
    ensures
        scan.next_token(floats).0 matches Some(token) && token.kind == TokenKind::Number(number),
        scan.next_token(floats).1.characters == scan.characters,
        scan.next_token(floats).1.position == scan.skip_whitespace().position + number_text(
            number,
            float_text,
        ).len(),
{
    let characters = scan.characters;
    let here = scan.skip_whitespace();
    let text = number_text(number, float_text);
    if !(number is Float) {
        lemma_integer_text(number, float_text);
    }
    assert(characters[here.position] == text[0]);
    assert forall|k: int| here.position <= k < here.position + text.len() implies
        number_characters()(#[trigger] characters[k]) by {
        assert(characters[here.position + (k - here.position)] == text[k - here.position]);
    }
    lemma_run_exact(characters, here.position, number_characters(), text.len());
    assert(here.number_literal() =~= text);
    assert(classified(text, floats(text)) == Some(number));
}

/// The parser reads the text of a value as that value.
///
/// Where a text holds, behind the whitespace at `scan`, the text of a value
/// that is read back as itself, and no keyword or number goes on behind it,
/// parsing at `scan` gives the value and ends behind its text.
pub proof fn lemma_parses_rendered(
    value: Json,
    indent: nat,
    level: nat,
    scan: Scan,
    floats: spec_fn(Seq<char>) -> Option<u64>,
    float_text: spec_fn(u64) -> Seq<char>,
)
    requires
        canonical(value, floats, float_text),
        scan.skip_whitespace().characters == scan.characters,
        holds_at(
            scan.characters,
            scan.skip_whitespace().position,
            rendered(value, indent, level, float_text),
        ),
        ends_token(
            character_at(
                scan.characters,
                scan.skip_whitespace().position + rendered(value, indent, level, float_text).len(),
            ),
        ),
    ensures
        parsed_value(scan, None, floats).0 == Ok::<Json, Fault>(value),
        parsed_value(scan, None, floats).1.characters == scan.characters,
        parsed_value(scan, None, floats).1.position == scan.skip_whitespace().position + rendered(
            value,
            indent,
            level,
            float_text,
        ).len(),
    decreases value, 0nat,
{
    let here = scan.skip_whitespace();
    let text = rendered(value, indent, level, float_text);
    match value {
        Json::Null => {
            lemma_reads_keyword(scan, text, floats);
        },
        Json::Bool(_) => {
            lemma_reads_keyword(scan, text, floats);
        },
        Json::Number(number) => {
            lemma_reads_number(scan, number, floats, float_text);
        },
        Json::String(string) => {
            lemma_reads_string_literal(here, string);
        },
        Json::Object(entries) => {
            lemma_parses_object(entries, indent, level, scan, floats, float_text);
        },
        Json::Array(items) => {
            lemma_parses_array(items, indent, level, scan, floats, float_text);
        },
    }
}

/// The parser reads the text of an object as that object.
proof fn lemma_parses_object(
    entries: Seq<(Seq<char>, Json)>,
    indent: nat,
    level: nat,
    scan: Scan,
    floats: spec_fn(Seq<char>) -> Option<u64>,
    float_text: spec_fn(u64) -> Seq<char>,
)
    requires
        canonical(Json::Object(entries), floats, float_text),
        scan.skip_whitespace().characters == scan.characters,
        holds_at(
            scan.characters,
            scan.skip_whitespace().position,
            rendered(Json::Object(entries), indent, level, float_text),
        ),
    ensures
        parsed_value(scan, None, floats).0 == Ok::<Json, Fault>(Json::Object(entries)),
        parsed_value(scan, None, floats).1.characters == scan.characters,
        parsed_value(scan, None, floats).1.position == scan.skip_whitespace().position + rendered(
            Json::Object(entries),
            indent,
            level,
            float_text,
        ).len(),
    decreases entries, entries.len() + 1,
{
    let characters = scan.characters;
    let here = scan.skip_whitespace();
    let text = rendered(Json::Object(entries), indent, level, float_text);
    assert(characters[here.position] == text[0]);
    assert(characters[here.position + 1] == text[1]);
    assert(here.current() == '{');
    let next = required_token(scan, floats).1;
    assert(next == here.advance(1));
    assert(parsed_value(scan, None, floats) == parsed_object(next, Seq::empty(), true, floats));
    if entries.len() == 0 {
        lemma_reads_plain(next, '}', TokenKind::EndObject, floats);
        assert(entries == Seq::<(Seq<char>, Json)>::empty());
        assert(text.len() == 2);
    } else {
        assert(rendered_entries(entries, 0, indent, level + 1, float_text).len() == 0);
        assert(entries.take(0) == Seq::<(Seq<char>, Json)>::empty());
        lemma_parses_entries(entries, 0, indent, level, next, here.position, floats, float_text);
    }
}

/// The parser reads the text of an array as that array.
proof fn lemma_parses_array(
    items: Seq<Json>,
    indent: nat,
    level: nat,
    scan: Scan,
    floats: spec_fn(Seq<char>) -> Option<u64>,
    float_text: spec_fn(u64) -> Seq<char>,
)
    requires
        canonical(Json::Array(items), floats, float_text),
        scan.skip_whitespace().characters == scan.characters,
        holds_at(
            scan.characters,
            scan.skip_whitespace().position,
            rendered(Json::Array(items), indent, level, float_text),
        ),
    ensures
        parsed_value(scan, None, floats).0 == Ok::<Json, Fault>(Json::Array(items)),
        parsed_value(scan, None, floats).1.characters == scan.characters,
        parsed_value(scan, None, floats).1.position == scan.skip_whitespace().position + rendered(
            Json::Array(items),
            indent,
            level,
            float_text,
        ).len(),
    decreases items, items.len() + 1,
{
    let characters = scan.characters;
    let here = scan.skip_whitespace();
    let text = rendered(Json::Array(items), indent, level, float_text);
    assert(characters[here.position] == text[0]);
    assert(characters[here.position + 1] == text[1]);
    assert(here.current() == '[');
    let next = required_token(scan, floats).1;
    assert(next == here.advance(1));
    assert(parsed_value(scan, None, floats) == parsed_array(next, Seq::empty(), true, floats));
    if items.len() == 0 {
        lemma_reads_plain(next, ']', TokenKind::EndArray, floats);
        assert(items == Seq::<Json>::empty());
        assert(text.len() == 2);
    } else {
        assert(rendered_items(items, 0, indent, level + 1, float_text).len() == 0);
        assert(items.take(0) == Seq::<Json>::empty());
        lemma_parses_items(items, 0, indent, level, next, here.position, floats, float_text);
    }
}

/// The parser reads the line of an entry as its property: where `scan`
/// stands at the line feed before the line, the next token is the key, and
/// parsing the property from it gives the entry and ends before the end of
/// the line.
proof fn lemma_parses_property(
    entries: Seq<(Seq<char>, Json)>,
    done: nat,
    indent: nat,
    level: nat,
    scan: Scan,
    floats: spec_fn(Seq<char>) -> Option<u64>,
    float_text: spec_fn(u64) -> Seq<char>,
)
    requires
        done < entries.len(),
        canonical(Json::Object(entries), floats, float_text),
        0 <= scan.position < scan.characters.len(),
        scan.characters[scan.position] == '\n',
        holds_at(
            scan.characters,
            scan.position + 1,
            rendered_entry(entries, done as int, indent, level, float_text),
        ),
    ensures
        required_token(scan, floats).0 matches Ok(token) && token.kind == TokenKind::String(
            entries[done as int].0,
        ),
        ({
            let (token, next) = required_token(scan, floats);
            let (property, after) = parsed_property(next, token->Ok_0, floats);
            let ending = line_end(done as int, entries.len() as int);
            &&& property == Ok::<(Seq<char>, Json), Fault>(entries[done as int])
            &&& after.characters == scan.characters
            &&& after.position + ending.len() == scan.position + 1 + rendered_entry(
                entries,
                done as int,
                indent,
                level,
                float_text,
            ).len()
            &&& after.remaining() <= next.remaining()
            &&& holds_at(scan.characters, after.position, ending)
        }),
    decreases entries, 0nat,
{
    let characters = scan.characters;
    let line_at = scan.position + 1;
    let line = rendered_entry(entries, done as int, indent, level, float_text);
    let inner = spaces(level * indent);
    let key = entries[done as int].0;
    let value = entries[done as int].1;
    let value_text = rendered(value, indent, level, float_text);
    let ending = line_end(done as int, entries.len() as int);
    assert(line == (((inner + quoted(key)) + seq![':', ' ']) + value_text) + ending);
    lemma_holds_both(
        characters,
        line_at,
        ((inner + quoted(key)) + seq![':', ' ']) + value_text,
        ending,
    );
    lemma_holds_both(characters, line_at, (inner + quoted(key)) + seq![':', ' '], value_text);
    lemma_holds_both(characters, line_at, inner + quoted(key), seq![':', ' ']);
    lemma_holds_both(characters, line_at, inner, quoted(key));
    let key_at = line_at + inner.len();
    let colon_at = key_at + quoted(key).len();
    let value_at = colon_at + 2;
    let end = value_at + value_text.len();
    assert(characters[key_at] == quoted(key)[0]);
    assert(characters[colon_at] == seq![':', ' '][0]);
    assert(characters[colon_at + 1] == seq![':', ' '][1]);
    assert(characters[end] == ending[0]);
    lemma_rendered_begins(value, indent, level, floats, float_text);
    assert(characters[value_at] == value_text[0]);

    // The key.
    lemma_skips_line(scan, inner.len());
    let here = scan.skip_whitespace();
    lemma_reads_string_literal(here, key);
    let (token, next) = required_token(scan, floats);
    assert(token matches Ok(token) && token.kind == TokenKind::String(key));
    assert(next.position == colon_at);
    assert(next.characters == characters);

    // The colon.
    lemma_reads_plain(next, ':', TokenKind::NameSeparator, floats);
    let spaced = next.advance(1);

    // The value.
    assert(spaces(1) =~= seq![' ']);
    assert(holds_at(characters, spaced.position, spaces(1)));
    lemma_skips_spaces(spaced, 1);
    lemma_parses_rendered(value, indent, level, spaced, floats, float_text);
    let (property, after) = parsed_property(next, token->Ok_0, floats);
    assert(property == Ok::<(Seq<char>, Json), Fault>((key, value)));
    assert(after.position == end);
    assert(after.characters == characters);
}

/// The parser reads the lines of an object from the entry at `done` on,
/// where `scan` stands at the line feed before that entry and the entries
/// before it were read.
proof fn lemma_parses_entries(
    entries: Seq<(Seq<char>, Json)>,
    done: nat,
    indent: nat,
    level: nat,
    scan: Scan,
    base: int,
    floats: spec_fn(Seq<char>) -> Option<u64>,
    float_text: spec_fn(u64) -> Seq<char>,
)
    requires
        done < entries.len(),
        canonical(Json::Object(entries), floats, float_text),
        holds_at(scan.characters, base, rendered(Json::Object(entries), indent, level, float_text)),
        scan.position == base + 1 + rendered_entries(
            entries,
            done,
            indent,
            level + 1,
            float_text,
        ).len(),
        scan.characters[scan.position] == '\n',
    ensures
        parsed_object(scan, entries.take(done as int), true, floats).0 == Ok::<Json, Fault>(
            Json::Object(entries),
        ),
        parsed_object(scan, entries.take(done as int), true, floats).1.characters
            == scan.characters,
        parsed_object(scan, entries.take(done as int), true, floats).1.position == base + rendered(
            Json::Object(entries),
            indent,
            level,
            float_text,
        ).len(),
    decreases entries, entries.len() - done,
{
    let characters = scan.characters;
    let count = entries.len();
    let read = entries.take(done as int);
    let text = rendered(Json::Object(entries), indent, level, float_text);
    let open = seq!['{', '\n'];
    let lines = rendered_entries(entries, count, indent, level + 1, float_text);
    let margin = spaces(level * indent);
    let close = seq!['}'];
    assert(text == ((open + lines) + margin) + close);
    lemma_holds_both(characters, base, (open + lines) + margin, close);
    lemma_holds_both(characters, base, open + lines, margin);
    lemma_holds_both(characters, base, open, lines);
    lemma_entry_line_at(characters, base + 2, entries, count, done, indent, level + 1, float_text);
    let key = entries[done as int].0;
    let value = entries[done as int].1;
    let ending = line_end(done as int, count as int);

    // The entry.
    lemma_parses_property(entries, done, indent, level + 1, scan, floats, float_text);
    let (token, next) = required_token(scan, floats);
    let after = parsed_property(next, token->Ok_0, floats).1;
    let end = after.position;
    assert(characters[end] == ending[0]);

    // What was read.
    lemma_key_index(read, key);
    assert forall|i: int| 0 <= i < read.len() implies (#[trigger] read[i]).0 != key by {
        assert(read[i] == entries[i]);
    }
    let grown = inserted(read, key, value);
    assert(grown =~= entries.take(done as int + 1));

    // The end of the line.
    let held = parsed_object(after, grown, false, floats);
    if done + 1 < count {
        assert(characters[end + 1] == ending[1]);
        lemma_reads_plain(after, ',', TokenKind::ValueSeparator, floats);
        lemma_parses_entries(
            entries,
            (done + 1) as nat,
            indent,
            level,
            after.advance(1),
            base,
            floats,
            float_text,
        );
        assert(held == parsed_object(after.advance(1), grown, true, floats));
    } else {
        assert(grown == entries);
        let foot = base + 2 + lines.len();
        assert(end + 1 == foot);
        assert(characters[foot + margin.len()] == close[0]);
        lemma_reads_plain_below(after, margin.len(), '}', TokenKind::EndObject, floats);
    }
    assert(parsed_object(scan, read, true, floats) == held);
}

/// The parser reads the lines of an array from the item at `done` on, where
/// `scan` stands at the line feed before that item and the items before it
/// were read.
proof fn lemma_parses_items(
    items: Seq<Json>,
    done: nat,
    indent: nat,
    level: nat,
    scan: Scan,
    base: int,
    floats: spec_fn(Seq<char>) -> Option<u64>,
    float_text: spec_fn(u64) -> Seq<char>,
)
    requires
        done < items.len(),
        canonical(Json::Array(items), floats, float_text),
        holds_at(scan.characters, base, rendered(Json::Array(items), indent, level, float_text)),
        scan.position == base + 1 + rendered_items(items, done, indent, level
            + 1, float_text).len(),
        scan.characters[scan.position] == '\n',
    ensures
        parsed_array(scan, items.take(done as int), true, floats).0 == Ok::<Json, Fault>(
            Json::Array(items),
        ),
        parsed_array(scan, items.take(done as int), true, floats).1.characters == scan.characters,
        parsed_array(scan, items.take(done as int), true, floats).1.position == base + rendered(
            Json::Array(items),
            indent,
            level,
            float_text,
        ).len(),
    decreases items, items.len() - done,
{
    let characters = scan.characters;
    let count = items.len();
    let read = items.take(done as int);
    let text = rendered(Json::Array(items), indent, level, float_text);
    let open = seq!['[', '\n'];
    let lines = rendered_items(items, count, indent, level + 1, float_text);
    let margin = spaces(level * indent);
    let close = seq![']'];
    assert(text == ((open + lines) + margin) + close);
    lemma_holds_both(characters, base, (open + lines) + margin, close);
    lemma_holds_both(characters, base, open + lines, margin);
    lemma_holds_both(characters, base, open, lines);
    lemma_item_line_at(characters, base + 2, items, count, done, indent, level + 1, float_text);
    let line_at = scan.position + 1;
    let line = rendered_item(items, done as int, indent, level + 1, float_text);
    let inner = spaces((level + 1) * indent);
    let value = items[done as int];
    let value_text = rendered(value, indent, level + 1, float_text);
    let ending = line_end(done as int, count as int);
    assert(line == (inner + value_text) + ending);
    lemma_holds_both(characters, line_at, inner + value_text, ending);
    lemma_holds_both(characters, line_at, inner, value_text);
    let value_at = line_at + inner.len();
    let end = value_at + value_text.len();
    assert(characters[end] == ending[0]);
    lemma_rendered_begins(value, indent, level + 1, floats, float_text);
    assert(characters[value_at] == value_text[0]);

    // The item.
    lemma_skips_line(scan, inner.len());
    lemma_parses_rendered(value, indent, level + 1, scan, floats, float_text);
    let (token, next) = required_token(scan, floats);
    let (item, after) = parsed_value(scan, None, floats);
    assert(token is Ok);
    assert((item, after) == parsed_value(next, Some(token->Ok_0), floats));
    assert(!(token->Ok_0.kind is EndArray)) by {
        if token->Ok_0.kind is EndArray {
            assert(parsed_value(next, Some(token->Ok_0), floats).0 is Err);
        }
    }

    // What was read.
    let grown = read.push(value);
    assert(grown =~= items.take(done as int + 1));

    // The end of the line.
    let held = parsed_array(after, grown, false, floats);
    if done + 1 < count {
        assert(characters[end + 1] == ending[1]);
        lemma_reads_plain(after, ',', TokenKind::ValueSeparator, floats);
        lemma_parses_items(
            items,
            (done + 1) as nat,
            indent,
            level,
            after.advance(1),
            base,
            floats,
            float_text,
        );
        assert(held == parsed_array(after.advance(1), grown, true, floats));
    } else {
        assert(grown == items);
        let foot = base + 2 + lines.len();
        assert(end + 1 == foot);
        assert(characters[foot + margin.len()] == close[0]);
        lemma_reads_plain_below(after, margin.len(), ']', TokenKind::EndArray, floats);
    }
    assert(parsed_array(scan, read, true, floats) == held);
}

/// Parsing the text of a value gives the value back.
///
/// This holds of every value that is read back as itself, whatever the
/// number of spaces to a level.
pub proof fn lemma_parse_inverts_stringify(
    value: Json,
    indent: nat,
    floats: spec_fn(Seq<char>) -> Option<u64>,
    float_text: spec_fn(u64) -> Seq<char>,
)
    requires
        canonical(value, floats, float_text),
    ensures
        parsed_text(rendered(value, indent, 0, float_text), floats) == Ok::<Json, Fault>(value),
{
    let text = rendered(value, indent, 0, float_text);
    let scan = Scan::start(text);
    lemma_rendered_begins(value, indent, 0, floats, float_text);
    assert(scan.skip_whitespace() == scan);
    lemma_parses_rendered(value, indent, 0, scan, floats, float_text);
}

/// Whether no token asks the decoder from any place at `position` on.
pub open spec fn float_free_from(characters: Seq<char>, position: int) -> bool {
    forall|scan: Scan|
        scan.characters == characters && scan.position == position ==> #[trigger] scan.float_free()
}

/// Where the token here does not ask the decoder and none behind it does,
/// none from here on does.
proof fn lemma_float_free_step(scan: Scan, end: int)
    requires
        !scan.asks_decoder(),
        scan.next_token(no_floats()).0 is Some,
        scan.next_token(no_floats()).1.characters == scan.characters,
        scan.next_token(no_floats()).1.position == end,
        float_free_from(scan.characters, end),
    ensures
        scan.float_free(),
{
    let next = scan.next_token(no_floats()).1;
    assert(next.float_free());
}

/// Behind the end of a text, no token asks the decoder.
pub proof fn lemma_float_free_at_end(characters: Seq<char>)
    ensures
        float_free_from(characters, characters.len() as int),
{
    assert forall|scan: Scan|
        scan.characters == characters && scan.position == characters.len()
            implies #[trigger] scan.float_free() by {
        assert(scan.skip_whitespace() == scan);
    }
}

/// No token of the text of a value asks the decoder, where the value holds
/// no binary64 number and none asks behind the text.
pub proof fn lemma_rendered_asks_no_decoder(
    value: Json,
    indent: nat,
    level: nat,
    scan: Scan,
    float_text: spec_fn(u64) -> Seq<char>,
)
    requires
        canonical(value, no_floats(), float_text),
        scan.skip_whitespace().characters == scan.characters,
        holds_at(
            scan.characters,
            scan.skip_whitespace().position,
            rendered(value, indent, level, float_text),
        ),
        ends_token(
            character_at(
                scan.characters,
                scan.skip_whitespace().position + rendered(value, indent, level, float_text).len(),
            ),
        ),
        float_free_from(
            scan.characters,
            scan.skip_whitespace().position + rendered(value, indent, level, float_text).len(),
        ),
    ensures
        scan.float_free(),
    decreases value, 0nat,
{
    let characters = scan.characters;
    let here = scan.skip_whitespace();
    let text = rendered(value, indent, level, float_text);
    let end = here.position + text.len();
    lemma_rendered_begins(value, indent, level, no_floats(), float_text);
    assert(characters[here.position] == text[0]);
    match value {
        Json::Null => {
            lemma_reads_keyword(scan, text, no_floats());
            lemma_float_free_step(scan, end);
        },
        Json::Bool(_) => {
            lemma_reads_keyword(scan, text, no_floats());
            lemma_float_free_step(scan, end);
        },
        Json::Number(number) => {
            lemma_integer_text(number, float_text);
            lemma_reads_number(scan, number, no_floats(), float_text);
            assert forall|k: int| here.position <= k < here.position + text.len() implies
                number_characters()(#[trigger] characters[k]) by {
                assert(characters[here.position + (k - here.position)] == text[k - here.position]);
            }
            lemma_run_exact(characters, here.position, number_characters(), text.len());
            assert(here.number_literal() =~= text);
            lemma_float_free_step(scan, end);
        },
        Json::String(string) => {
            lemma_reads_string_literal(here, string);
            lemma_float_free_step(scan, end);
        },
        Json::Object(entries) => {
            lemma_object_asks_no_decoder(entries, indent, level, scan, float_text);
        },
        Json::Array(items) => {
            lemma_array_asks_no_decoder(items, indent, level, scan, float_text);
        },
    }
}

/// No token of the text of an object asks the decoder.
proof fn lemma_object_asks_no_decoder(
    entries: Seq<(Seq<char>, Json)>,
    indent: nat,
    level: nat,
    scan: Scan,
    float_text: spec_fn(u64) -> Seq<char>,
)
    requires
        canonical(Json::Object(entries), no_floats(), float_text),
        scan.skip_whitespace().characters == scan.characters,
        holds_at(
            scan.characters,
            scan.skip_whitespace().position,
            rendered(Json::Object(entries), indent, level, float_text),
        ),
        float_free_from(
            scan.characters,
            scan.skip_whitespace().position + rendered(
                Json::Object(entries),
                indent,
                level,
                float_text,
            ).len(),
        ),
    ensures
        scan.float_free(),
    decreases entries, entries.len() + 1,
{
    let characters = scan.characters;
    let here = scan.skip_whitespace();
    let text = rendered(Json::Object(entries), indent, level, float_text);
    assert(characters[here.position] == text[0]);
    assert(characters[here.position + 1] == text[1]);
    assert(here.current() == '{');
    let next = scan.next_token(no_floats()).1;
    assert(next == here.advance(1));
    if entries.len() == 0 {
        assert(text.len() == 2);
        lemma_reads_plain(next, '}', TokenKind::EndObject, no_floats());
        assert(next.skip_whitespace() == next);
        lemma_float_free_step(next, here.position + 2);
    } else {
        assert(rendered_entries(entries, 0, indent, level + 1, float_text).len() == 0);
        lemma_entries_ask_no_decoder(entries, 0, indent, level, next, here.position, float_text);
    }
    assert(next.float_free());
}

/// No token of the text of an array asks the decoder.
proof fn lemma_array_asks_no_decoder(
    items: Seq<Json>,
    indent: nat,
    level: nat,
    scan: Scan,
    float_text: spec_fn(u64) -> Seq<char>,
)
    requires
        canonical(Json::Array(items), no_floats(), float_text),
        scan.skip_whitespace().characters == scan.characters,
        holds_at(
            scan.characters,
            scan.skip_whitespace().position,
            rendered(Json::Array(items), indent, level, float_text),
        ),
        float_free_from(
            scan.characters,
            scan.skip_whitespace().position + rendered(
                Json::Array(items),
                indent,
                level,
                float_text,
            ).len(),
        ),
    ensures
        scan.float_free(),
    decreases items, items.len() + 1,
{
    let characters = scan.characters;
    let here = scan.skip_whitespace();
    let text = rendered(Json::Array(items), indent, level, float_text);
    assert(characters[here.position] == text[0]);
    assert(characters[here.position + 1] == text[1]);
    assert(here.current() == '[');
    let next = scan.next_token(no_floats()).1;
    assert(next == here.advance(1));
    if items.len() == 0 {
        assert(text.len() == 2);
        lemma_reads_plain(next, ']', TokenKind::EndArray, no_floats());
        assert(next.skip_whitespace() == next);
        lemma_float_free_step(next, here.position + 2);
    } else {
        assert(rendered_items(items, 0, indent, level + 1, float_text).len() == 0);
        lemma_items_ask_no_decoder(items, 0, indent, level, next, here.position, float_text);
    }
    assert(next.float_free());
}

/// No token of the lines of an object asks the decoder, from the entry at
/// `done` on.
proof fn lemma_entries_ask_no_decoder(
    entries: Seq<(Seq<char>, Json)>,
    done: nat,
    indent: nat,
    level: nat,
    scan: Scan,
    base: int,
    float_text: spec_fn(u64) -> Seq<char>,
)
    requires
        done < entries.len(),
        canonical(Json::Object(entries), no_floats(), float_text),
        holds_at(scan.characters, base, rendered(Json::Object(entries), indent, level, float_text)),
        scan.position == base + 1 + rendered_entries(
            entries,
            done,
            indent,
            level + 1,
            float_text,
        ).len(),
        scan.characters[scan.position] == '\n',
        float_free_from(
            scan.characters,
            base + rendered(Json::Object(entries), indent, level, float_text).len(),
        ),
    ensures
        scan.float_free(),
    decreases entries, entries.len() - done,
{
    let characters = scan.characters;
    let count = entries.len();
    let text = rendered(Json::Object(entries), indent, level, float_text);
    let open = seq!['{', '\n'];
    let lines = rendered_entries(entries, count, indent, level + 1, float_text);
    let margin = spaces(level * indent);
    let close = seq!['}'];
    assert(text == ((open + lines) + margin) + close);
    lemma_holds_both(characters, base, (open + lines) + margin, close);
    lemma_holds_both(characters, base, open + lines, margin);
    lemma_holds_both(characters, base, open, lines);
    lemma_entry_line_at(characters, base + 2, entries, count, done, indent, level + 1, float_text);
    let line_at = scan.position + 1;
    let inner = spaces((level + 1) * indent);
    let key = entries[done as int].0;
    let value = entries[done as int].1;
    let value_text = rendered(value, indent, level + 1, float_text);
    let ending = line_end(done as int, count as int);
    let line = rendered_entry(entries, done as int, indent, level + 1, float_text);
    assert(line == (((inner + quoted(key)) + seq![':', ' ']) + value_text) + ending);
    lemma_holds_both(
        characters,
        line_at,
        ((inner + quoted(key)) + seq![':', ' ']) + value_text,
        ending,
    );
    lemma_holds_both(characters, line_at, (inner + quoted(key)) + seq![':', ' '], value_text);
    lemma_holds_both(characters, line_at, inner + quoted(key), seq![':', ' ']);
    lemma_holds_both(characters, line_at, inner, quoted(key));
    let key_at = line_at + inner.len();
    let colon_at = key_at + quoted(key).len();
    let value_at = colon_at + 2;
    let end = value_at + value_text.len();
    assert(characters[key_at] == quoted(key)[0]);
    assert(characters[colon_at] == seq![':', ' '][0]);
    assert(characters[colon_at + 1] == seq![':', ' '][1]);
    assert(characters[end] == ending[0]);
    lemma_rendered_begins(value, indent, level + 1, no_floats(), float_text);
    assert(characters[value_at] == value_text[0]);

    // Behind the value.
    assert forall|after: Scan|
        after.characters == characters && after.position == end
            implies #[trigger] after.float_free() by {
        if done + 1 < count {
            assert(characters[end + 1] == ending[1]);
            lemma_reads_plain(after, ',', TokenKind::ValueSeparator, no_floats());
            assert(after.skip_whitespace() == after);
            lemma_entries_ask_no_decoder(
                entries,
                (done + 1) as nat,
                indent,
                level,
                after.advance(1),
                base,
                float_text,
            );
            assert(after.next_token(no_floats()).1.float_free());
        } else {
            let foot = base + 2 + lines.len();
            assert(end + 1 == foot);
            assert(characters[foot + margin.len()] == close[0]);
            lemma_skips_line(after, margin.len());
            lemma_reads_plain_below(after, margin.len(), '}', TokenKind::EndObject, no_floats());
            assert(after.skip_whitespace().current() == '}');
            assert(after.next_token(no_floats()).1.float_free());
        }
    }

    // The value.
    let colon = Scan { position: colon_at, ..scan };
    assert forall|spaced: Scan|
        spaced.characters == characters && spaced.position == colon_at + 1
            implies #[trigger] spaced.float_free() by {
        assert(spaces(1) =~= seq![' ']);
        assert(holds_at(characters, spaced.position, spaces(1)));
        lemma_skips_spaces(spaced, 1);
        lemma_rendered_asks_no_decoder(value, indent, level + 1, spaced, float_text);
    }

    // The colon.
    assert forall|next: Scan|
        next.characters == characters && next.position == colon_at
            implies #[trigger] next.float_free() by {
        lemma_reads_plain(next, ':', TokenKind::NameSeparator, no_floats());
        assert(next.skip_whitespace() == next);
        lemma_float_free_step(next, colon_at + 1);
    }

    // The key.
    lemma_skips_line(scan, inner.len());
    let here = scan.skip_whitespace();
    lemma_reads_string_literal(here, key);
    lemma_float_free_step(scan, colon_at);
}

/// No token of the lines of an array asks the decoder, from the item at
/// `done` on.
proof fn lemma_items_ask_no_decoder(
    items: Seq<Json>,
    done: nat,
    indent: nat,
    level: nat,
    scan: Scan,
    base: int,
    float_text: spec_fn(u64) -> Seq<char>,
)
    requires
        done < items.len(),
        canonical(Json::Array(items), no_floats(), float_text),
        holds_at(scan.characters, base, rendered(Json::Array(items), indent, level, float_text)),
        scan.position == base + 1 + rendered_items(items, done, indent, level
            + 1, float_text).len(),
        scan.characters[scan.position] == '\n',
        float_free_from(
            scan.characters,
            base + rendered(Json::Array(items), indent, level, float_text).len(),
        ),
    ensures
        scan.float_free(),
    decreases items, items.len() - done,
{
    let characters = scan.characters;
    let count = items.len();
    let text = rendered(Json::Array(items), indent, level, float_text);
    let open = seq!['[', '\n'];
    let lines = rendered_items(items, count, indent, level + 1, float_text);
    let margin = spaces(level * indent);
    let close = seq![']'];
    assert(text == ((open + lines) + margin) + close);
    lemma_holds_both(characters, base, (open + lines) + margin, close);
    lemma_holds_both(characters, base, open + lines, margin);
    lemma_holds_both(characters, base, open, lines);
    lemma_item_line_at(characters, base + 2, items, count, done, indent, level + 1, float_text);
    let line_at = scan.position + 1;
    let line = rendered_item(items, done as int, indent, level + 1, float_text);
    let inner = spaces((level + 1) * indent);
    let value = items[done as int];
    let value_text = rendered(value, indent, level + 1, float_text);
    let ending = line_end(done as int, count as int);
    assert(line == (inner + value_text) + ending);
    lemma_holds_both(characters, line_at, inner + value_text, ending);
    lemma_holds_both(characters, line_at, inner, value_text);
    let value_at = line_at + inner.len();
    let end = value_at + value_text.len();
    assert(characters[end] == ending[0]);
    lemma_rendered_begins(value, indent, level + 1, no_floats(), float_text);
    assert(characters[value_at] == value_text[0]);

    // Behind the item.
    assert forall|after: Scan|
        after.characters == characters && after.position == end
            implies #[trigger] after.float_free() by {
        if done + 1 < count {
            assert(characters[end + 1] == ending[1]);
            lemma_reads_plain(after, ',', TokenKind::ValueSeparator, no_floats());
            assert(after.skip_whitespace() == after);
            lemma_items_ask_no_decoder(
                items,
                (done + 1) as nat,
                indent,
                level,
                after.advance(1),
                base,
                float_text,
            );
            assert(after.next_token(no_floats()).1.float_free());
        } else {
            let foot = base + 2 + lines.len();
            assert(end + 1 == foot);
            assert(characters[foot + margin.len()] == close[0]);
            lemma_skips_line(after, margin.len());
            lemma_reads_plain_below(after, margin.len(), ']', TokenKind::EndArray, no_floats());
            assert(after.skip_whitespace().current() == ']');
            assert(after.next_token(no_floats()).1.float_free());
        }
    }

    // The item.
    lemma_skips_line(scan, inner.len());
    lemma_rendered_asks_no_decoder(value, indent, level + 1, scan, float_text);
}

/// No token of the text of a value that holds no binary64 number asks the
/// decoder: parsing it gives the value back whatever the decoder does.
pub proof fn lemma_text_asks_no_decoder(
    value: Json,
    indent: nat,
    float_text: spec_fn(u64) -> Seq<char>,
)
    requires
        canonical(value, no_floats(), float_text),
    ensures
        Scan::start(rendered(value, indent, 0, float_text)).float_free(),
        parsed_text(rendered(value, indent, 0, float_text), no_floats())
            == Ok::<Json, Fault>(value),
{
    let text = rendered(value, indent, 0, float_text);
    let scan = Scan::start(text);
    lemma_rendered_begins(value, indent, 0, no_floats(), float_text);
    assert(scan.skip_whitespace() == scan);
    lemma_float_free_at_end(text);
    lemma_rendered_asks_no_decoder(value, indent, 0, scan, float_text);
    lemma_parse_inverts_stringify(value, indent, no_floats(), float_text);
}

} // verus!
