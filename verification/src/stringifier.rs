//! The serializer: renders a value as JSON text, one entry to a line,
//! indented by its depth.

use vstd::prelude::*;
use crate::number::{Number, number_text, writes_floats};
use crate::text::{characters_of, spaces};
use crate::value::{
    Json, Object, Value, distinct_throughout, items_view, lemma_items_view, object_get_index,
};

verus! {

/// What stands in a string for `character`: a backslash and a letter for
/// the quote, the backslash and five control characters, the character
/// itself for any other.
pub open spec fn escaped_character(character: char) -> Seq<char> {
    if character == '"' {
        seq!['\\', '"']
    } else if character == '\\' {
        seq!['\\', '\\']
    } else if character == '\u{8}' {
        seq!['\\', 'b']
    } else if character == '\u{c}' {
        seq!['\\', 'f']
    } else if character == '\n' {
        seq!['\\', 'n']
    } else if character == '\r' {
        seq!['\\', 'r']
    } else if character == '\t' {
        seq!['\\', 't']
    } else {
        seq![character]
    }
}

/// The characters of `text`, each as it stands in a string.
pub open spec fn escaped_text(text: Seq<char>) -> Seq<char>
    decreases text.len(),
{
    if text.len() == 0 {
        Seq::empty()
    } else {
        escaped_text(text.drop_last()) + escaped_character(text.last())
    }
}

/// The string literal for `text`.
pub open spec fn quoted(text: Seq<char>) -> Seq<char> {
    seq!['"'] + escaped_text(text) + seq!['"']
}

/// What ends the line of the entry at `index` of `length` entries: a comma
/// but for the last, and the line feed.
pub open spec fn line_end(index: int, length: int) -> Seq<char> {
    if index + 1 != length {
        seq![',', '\n']
    } else {
        seq!['\n']
    }
}

/// The text of `value` at nesting depth `level`, with `indent` spaces to a
/// level. A leaf is its literal. An empty container is its two brackets; any
/// other has each entry on a line of its own, one level deeper, and its
/// closing bracket on a line at its own level.
pub open spec fn rendered(
    value: Json,
    indent: nat,
    level: nat,
    float_text: spec_fn(u64) -> Seq<char>,
) -> Seq<char>
    decreases value, 0nat,
{
    match value {
        Json::Null => seq!['n', 'u', 'l', 'l'],
        Json::Bool(true) => seq!['t', 'r', 'u', 'e'],
        Json::Bool(false) => seq!['f', 'a', 'l', 's', 'e'],
        Json::Number(number) => number_text(number, float_text),
        Json::String(text) => quoted(text),
        Json::Object(entries) => if entries.len() == 0 {
            seq!['{', '}']
        } else {
            seq!['{', '\n'] + rendered_entries(entries, entries.len(), indent, level + 1, float_text)
                + spaces(level * indent) + seq!['}']
        },
        Json::Array(items) => if items.len() == 0 {
            seq!['[', ']']
        } else {
            seq!['[', '\n'] + rendered_items(items, items.len(), indent, level + 1, float_text)
                + spaces(level * indent) + seq![']']
        },
    }
}

/// The line of the entry at `index` of an object, at depth `level`: the
/// margin, the key, a colon and a space, the value, and the end of the line.
pub open spec fn rendered_entry(
    entries: Seq<(Seq<char>, Json)>,
    index: int,
    indent: nat,
    level: nat,
    float_text: spec_fn(u64) -> Seq<char>,
) -> Seq<char>
    decreases entries, 0nat,
{
    if 0 <= index < entries.len() {
        spaces(level * indent) + quoted(entries[index].0) + seq![':', ' '] + rendered(
            entries[index].1,
            indent,
            level,
            float_text,
        ) + line_end(index, entries.len() as int)
    } else {
        Seq::empty()
    }
}

/// The lines of the first `count` entries of an object, at depth `level`.
pub open spec fn rendered_entries(
    entries: Seq<(Seq<char>, Json)>,
    count: nat,
    indent: nat,
    level: nat,
    float_text: spec_fn(u64) -> Seq<char>,
) -> Seq<char>
    decreases entries, count + 1,
{
    if count == 0 {
        Seq::empty()
    } else {
        rendered_entries(entries, (count - 1) as nat, indent, level, float_text) + rendered_entry(
            entries,
            count - 1,
            indent,
            level,
            float_text,
        )
    }
}

/// The line of the item at `index` of an array, at depth `level`: the
/// margin, the item, and the end of the line.
pub open spec fn rendered_item(
    items: Seq<Json>,
    index: int,
    indent: nat,
    level: nat,
    float_text: spec_fn(u64) -> Seq<char>,
) -> Seq<char>
    decreases items, 0nat,
{
    if 0 <= index < items.len() {
        spaces(level * indent) + rendered(items[index], indent, level, float_text) + line_end(
            index,
            items.len() as int,
        )
    } else {
        Seq::empty()
    }
}

/// The lines of the first `count` items of an array, at depth `level`.
pub open spec fn rendered_items(
    items: Seq<Json>,
    count: nat,
    indent: nat,
    level: nat,
    float_text: spec_fn(u64) -> Seq<char>,
) -> Seq<char>
    decreases items, count + 1,
{
    if count == 0 {
        Seq::empty()
    } else {
        rendered_items(items, (count - 1) as nat, indent, level, float_text) + rendered_item(
            items,
            count - 1,
            indent,
            level,
            float_text,
        )
    }
}

/// Whether none of the first `count` entries shares its key with another
/// entry, and no object of their values has a key twice.
#[verifier::opaque]
pub open spec fn distinct_among(entries: Seq<(Seq<char>, Json)>, count: nat) -> bool {
    &&& forall|i: int, other: int|
        0 <= i < count && 0 <= other < entries.len() && other != i
            ==> (#[trigger] entries[i]).0 != (
        #[trigger] entries[other]).0
    &&& forall|i: int| 0 <= i < count ==> distinct_throughout((#[trigger] entries[i]).1)
}

/// None of no entries shares its key.
pub proof fn lemma_distinct_among_none(entries: Seq<(Seq<char>, Json)>)
    ensures
        distinct_among(entries, 0),
{
    reveal(distinct_among);
}

/// One more entry is among those that share no key.
pub proof fn lemma_distinct_among_next(entries: Seq<(Seq<char>, Json)>, count: nat)
    requires
        count < entries.len(),
        distinct_among(entries, count),
        forall|other: int|
            0 <= other < entries.len() && other != count ==> (#[trigger] entries[other]).0
                != entries[count as int].0,
        distinct_throughout(entries[count as int].1),
    ensures
        distinct_among(entries, count + 1),
{
    reveal(distinct_among);
}

/// Where no entry shares its key, no object of the whole has a key twice.
pub proof fn lemma_distinct_among_all(entries: Seq<(Seq<char>, Json)>)
    requires
        distinct_among(entries, entries.len()) || entries.len() == 0,
    ensures
        distinct_throughout(Json::Object(entries)),
{
    reveal(distinct_among);
}

/// Whether a value holds no binary64 number.
pub open spec fn holds_no_float(value: Json) -> bool
    decreases value,
{
    match value {
        Json::Number(number) => !(number is Float),
        Json::Object(entries) => forall|i: int|
            0 <= i < entries.len() ==> holds_no_float((#[trigger] entries[i]).1),
        Json::Array(items) => forall|i: int|
            0 <= i < items.len() ==> holds_no_float(#[trigger] items[i]),
        _ => true,
    }
}

/// What writes no binary64 number.
pub open spec fn no_float_text() -> spec_fn(u64) -> Seq<char> {
    |bits: u64| Seq::<char>::empty()
}

/// Whether `float_text` says how the numbers of `value` are written by
/// `format`: it says what `format` returns for every bit pattern, or the
/// value holds no binary64 number and `float_text` is the one that writes
/// none.
pub open spec fn writes_as<G: Fn(u64) -> String>(
    format: G,
    value: Json,
    float_text: spec_fn(u64) -> Seq<char>,
) -> bool {
    writes_floats(format, float_text) || (float_text == no_float_text() && holds_no_float(value))
}

/// Renders a value as JSON text. Made by `Value::stringified`, configured
/// with `indent`, and used up by `create`.
pub struct JsonStringifier<'v, G: Fn(u64) -> String> {
    indent: u8,
    value: &'v Value,
    result: String,
    format: G,
}

impl<'v, G: Fn(u64) -> String> JsonStringifier<'v, G> {
    /// What holds of a stringifier until it is used up.
    pub closed spec fn wf(&self) -> bool {
        &&& self.result@.len() == 0
        &&& forall|bits: u64| call_requires(self.format, (bits,))
    }

    /// The number of spaces to a level.
    pub closed spec fn width(&self) -> u8 {
        self.indent
    }

    /// The value to render.
    pub closed spec fn subject(&self) -> &'v Value {
        self.value
    }

    /// The function that writes a binary64 value.
    pub closed spec fn formatter(&self) -> G {
        self.format
    }

    /// A stringifier for `value` with two spaces to a level, which writes
    /// binary64 values with `format`.
    pub fn new(value: &'v Value, format: G) -> (result: Self)
        requires
            forall|bits: u64| call_requires(format, (bits,)),
        ensures
            result.wf(),
            result.width() == 2,
            result.subject() == value,
            result.formatter() == format,
    {
        Self { indent: 2, value, result: String::new(), format }
    }

    /// The same stringifier with `indent` spaces to a level.
    pub fn indent(self, indent: u8) -> (result: Self)
        requires
            self.wf(),
        ensures
            result.wf(),
            result.width() == indent,
            result.subject() == self.subject(),
            result.formatter() == self.formatter(),
    {
        let mut stringifier = self;
        stringifier.indent = indent;
        stringifier
    }

    fn string(&mut self, string: &String)
        ensures
            final(self).result@ == old(self).result@ + quoted(string@),
            final(self).indent == old(self).indent,
            final(self).value == old(self).value,
            final(self).format == old(self).format,
    {
        let characters = characters_of(string.as_str());
        self.result.push('"');
        let ghost begun = self.result@;
        let mut index: usize = 0;
        while index < characters.len()
            invariant
                index <= characters.len(),
                characters@ == string@,
                self.result@ == begun + escaped_text(characters@.take(index as int)),
                self.indent == old(self).indent,
                self.value == old(self).value,
                self.format == old(self).format,
            decreases characters.len() - index,
        {
            let character = characters[index];
            if let Some(escaped_character) = get_escaped_character(&character) {
                self.result.append(escaped_character);
            } else {
                self.result.push(character);
            }
            index += 1;
            assert(characters@.take(index as int).drop_last() == characters@.take(index - 1));
        }
        assert(characters@.take(index as int) == characters@);
        self.result.push('"');
    }

    fn indentation(&mut self, margin: &String)
        ensures
            final(self).result@ == old(self).result@ + margin@,
            final(self).indent == old(self).indent,
            final(self).value == old(self).value,
            final(self).format == old(self).format,
    {
        self.result.append(margin.as_str());
    }

    /// The margin one level deeper than `margin`, which is that of `level`.
    fn deeper(&self, margin: &String, Ghost(level): Ghost<nat>) -> (result: String)
        requires
            margin@ == spaces(level * self.indent as nat),
        ensures
            result@ == spaces((level + 1) * self.indent as nat),
    {
        let mut result = margin.clone();
        let mut added: u8 = 0;
        assert((level + 1) * self.indent as nat == level * self.indent as nat + self.indent as nat)
            by (nonlinear_arith);
        while added < self.indent
            invariant
                added <= self.indent,
                result@ == spaces(level * self.indent as nat + added as nat),
            decreases self.indent - added,
        {
            result.push(' ');
            added += 1;
            assert(result@ == spaces(level * self.indent as nat + added as nat));
        }
        result
    }

    /// Writes the line of the entry at `idx`, at the depth below `level`, of
    /// which `inner` is the margin.
    fn entry(&mut self, object: &Object, idx: usize, inner: &String, Ghost(level): Ghost<nat>)
        requires
            forall|bits: u64| call_requires(old(self).format, (bits,)),
            idx < object@.len(),
            inner@ == spaces((level + 1) * old(self).indent as nat),
        ensures
            final(self).indent == old(self).indent,
            final(self).value == old(self).value,
            final(self).format == old(self).format,
            forall|float_text: spec_fn(u64) -> Seq<char>|
                #![trigger writes_as(old(self).format, Json::Object(object@), float_text)]
                writes_as(old(self).format, Json::Object(object@), float_text)
                    ==> final(self).result@ == old(self).result@ + rendered_entry(
                    object@,
                    idx as int,
                    old(self).indent as nat,
                    level + 1,
                    float_text,
                ),
            forall|other: int|
                0 <= other < object@.len() && other != idx ==> (#[trigger] object@[other]).0
                    != object@[idx as int].0,
            distinct_throughout(object@[idx as int].1),
        decreases object@, 0nat,
    {
        let ghost before = self.result@;
        let length = object.len();
        let (key, value) = object_get_index(object, idx);
        self.indentation(inner);
        self.string(key);
        self.result.append(": ");
        proof {
            reveal_strlit(": ");
            assert(": "@ =~= seq![':', ' ']);
            let entries = object@;
            assert(decreases_to!(entries => entries[idx as int]));
            assert(decreases_to!(entries[idx as int] => entries[idx as int].1));
        }
        self.value(value, inner, Ghost(level + 1));
        if idx + 1 != length {
            self.result.push(',');
        }
        self.result.push('\n');
        assert forall|float_text: spec_fn(u64) -> Seq<char>|
            #![trigger writes_as(old(self).format, Json::Object(object@), float_text)]
            writes_as(old(self).format, Json::Object(object@), float_text)
            implies self.result@ == old(self).result@ + rendered_entry(
            object@,
            idx as int,
            old(self).indent as nat,
            level + 1,
            float_text,
        ) by {
            if !writes_floats(self.format, float_text) {
                let tree = Json::Object(object@);
                assert(tree->Object_0 == object@);
                assert(holds_no_float(object@[idx as int].1));
            }
            assert(writes_as(self.format, object@[idx as int].1, float_text));
            assert(self.result@ =~= before + rendered_entry(
                object@,
                idx as int,
                self.indent as nat,
                level + 1,
                float_text,
            ));
        }
    }

    fn object(&mut self, object: &Object, margin: &String, Ghost(level): Ghost<nat>)
        requires
            forall|bits: u64| call_requires(old(self).format, (bits,)),
            margin@ == spaces(level * old(self).indent as nat),
        ensures
            final(self).indent == old(self).indent,
            final(self).value == old(self).value,
            final(self).format == old(self).format,
            forall|float_text: spec_fn(u64) -> Seq<char>|
                #![trigger writes_floats(old(self).format, float_text)]
                writes_as(old(self).format, Json::Object(object@), float_text)
                    ==> final(self).result@ == old(
                    self,
                ).result@ + rendered(
                    Json::Object(object@),
                    old(self).indent as nat,
                    level,
                    float_text,
                ),
            distinct_throughout(Json::Object(object@)),
        decreases object@, 1nat,
    {
        let ghost begun = self.result@;
        self.result.push('{');
        let length = object.len();
        if length >= 1 {
            self.result.push('\n');
            let inner = self.deeper(margin, Ghost(level));
            let mut idx: usize = 0;
            proof {
                lemma_distinct_among_none(object@);
            }
            while idx < length
                invariant
                    idx <= length,
                    length == object@.len(),
                    distinct_among(object@, idx as nat),
                    forall|bits: u64| call_requires(self.format, (bits,)),
                    margin@ == spaces(level * self.indent as nat),
                    inner@ == spaces((level + 1) * self.indent as nat),
                    self.indent == old(self).indent,
                    self.value == old(self).value,
                    self.format == old(self).format,
                    forall|float_text: spec_fn(u64) -> Seq<char>|
                        #![trigger writes_floats(self.format, float_text)]
                        writes_as(self.format, Json::Object(object@), float_text)
                            ==> self.result@ == begun + seq![
                            '{',
                            '\n',
                        ] + rendered_entries(
                            object@,
                            idx as nat,
                            self.indent as nat,
                            level + 1,
                            float_text,
                        ),
                decreases length - idx,
            {
                let ghost before = self.result@;
                self.entry(object, idx, &inner, Ghost(level));
                proof {
                    lemma_distinct_among_next(object@, idx as nat);
                }
                idx += 1;
                assert forall|float_text: spec_fn(u64) -> Seq<char>|
                    #![trigger writes_floats(self.format, float_text)]
                    writes_as(self.format, Json::Object(object@), float_text)
                    implies self.result@ == begun + seq!['{', '\n'] + rendered_entries(
                    object@,
                    idx as nat,
                    self.indent as nat,
                    level + 1,
                    float_text,
                ) by {
                    assert(self.result@ == before + rendered_entry(
                        object@,
                        idx - 1,
                        self.indent as nat,
                        level + 1,
                        float_text,
                    ));
                }
            }
            self.indentation(margin);
        }
        self.result.push('}');
        proof {
            lemma_distinct_among_all(object@);
        }
        assert forall|float_text: spec_fn(u64) -> Seq<char>|
            #![trigger writes_floats(old(self).format, float_text)]
            writes_as(old(self).format, Json::Object(object@), float_text) implies self.result@
                == begun + rendered(
            Json::Object(object@),
            old(self).indent as nat,
            level,
            float_text,
        ) by {
            if length >= 1 {
                assert(self.result@ =~= begun + (seq!['{', '\n'] + rendered_entries(
                    object@,
                    object@.len(),
                    self.indent as nat,
                    level + 1,
                    float_text,
                ) + spaces(level * self.indent as nat) + seq!['}']));
            } else {
                assert(self.result@ =~= begun + seq!['{', '}']);
            }
        }
    }

    fn array(&mut self, array: &Vec<Value>, margin: &String, Ghost(level): Ghost<nat>)
        requires
            forall|bits: u64| call_requires(old(self).format, (bits,)),
            margin@ == spaces(level * old(self).indent as nat),
        ensures
            final(self).indent == old(self).indent,
            final(self).value == old(self).value,
            final(self).format == old(self).format,
            forall|float_text: spec_fn(u64) -> Seq<char>|
                #![trigger writes_floats(old(self).format, float_text)]
                writes_as(old(self).format, Json::Array(items_view(array@)), float_text)
                    ==> final(self).result@ == old(
                    self,
                ).result@ + rendered(
                    Json::Array(items_view(array@)),
                    old(self).indent as nat,
                    level,
                    float_text,
                ),
            distinct_throughout(Json::Array(items_view(array@))),
        decreases items_view(array@), 0nat,
    {
        let ghost begun = self.result@;
        let ghost items = items_view(array@);
        proof {
            lemma_items_view(array@);
        }
        self.result.push('[');
        if array.len() >= 1 {
            self.result.push('\n');
            let inner = self.deeper(margin, Ghost(level));
            let mut idx: usize = 0;
            while idx < array.len()
                invariant
                    idx <= array.len(),
                    items == items_view(array@),
                    forall|i: int| 0 <= i < idx ==> distinct_throughout(#[trigger] items[i]),
                    items.len() == array.len(),
                    forall|k: int| 0 <= k < array.len() ==> #[trigger] items[k] == array@[k]@,
                    forall|bits: u64| call_requires(self.format, (bits,)),
                    margin@ == spaces(level * self.indent as nat),
                    inner@ == spaces((level + 1) * self.indent as nat),
                    self.indent == old(self).indent,
                    self.value == old(self).value,
                    self.format == old(self).format,
                    forall|float_text: spec_fn(u64) -> Seq<char>|
                        #![trigger writes_floats(self.format, float_text)]
                        writes_as(self.format, Json::Array(items_view(array@)), float_text)
                            ==> self.result@ == begun + seq![
                            '[',
                            '\n',
                        ] + rendered_items(
                            items,
                            idx as nat,
                            self.indent as nat,
                            level + 1,
                            float_text,
                        ),
                decreases array.len() - idx,
            {
                let ghost before = self.result@;
                self.indentation(&inner);
                proof {
                    assert(items[idx as int] == array@[idx as int]@);
                    assert(decreases_to!(items => items[idx as int]));
                }
                self.value(&array[idx], &inner, Ghost(level + 1));
                if idx + 1 != array.len() {
                    self.result.push(',');
                }
                self.result.push('\n');
                idx += 1;
                assert forall|float_text: spec_fn(u64) -> Seq<char>|
                    #![trigger writes_floats(self.format, float_text)]
                    writes_as(self.format, Json::Array(items_view(array@)), float_text)
                        implies self.result@ == begun + seq![
                    '[',
                    '\n',
                ] + rendered_items(items, idx as nat, self.indent as nat, level
                    + 1, float_text) by {
                    if !writes_floats(self.format, float_text) {
                        let tree = Json::Array(items);
                        assert(tree->Array_0 == items);
                        assert(holds_no_float(items[idx - 1]));
                    }
                    assert(writes_as(self.format, items[idx - 1], float_text));
                    assert(self.result@ =~= before + rendered_item(
                        items,
                        idx - 1,
                        self.indent as nat,
                        level + 1,
                        float_text,
                    ));
                }
            }
            self.indentation(margin);
        }
        self.result.push(']');
        assert forall|float_text: spec_fn(u64) -> Seq<char>|
            #![trigger writes_floats(old(self).format, float_text)]
            writes_as(old(self).format, Json::Array(items_view(array@)), float_text)
                implies self.result@ == begun + rendered(
            Json::Array(items),
            old(self).indent as nat,
            level,
            float_text,
        ) by {
            if array.len() >= 1 {
                assert(self.result@ =~= begun + (seq!['[', '\n'] + rendered_items(
                    items,
                    items.len(),
                    self.indent as nat,
                    level + 1,
                    float_text,
                ) + spaces(level * self.indent as nat) + seq![']']));
            } else {
                assert(self.result@ =~= begun + seq!['[', ']']);
            }
        }
    }

    fn value(&mut self, value: &Value, margin: &String, Ghost(level): Ghost<nat>)
        requires
            forall|bits: u64| call_requires(old(self).format, (bits,)),
            margin@ == spaces(level * old(self).indent as nat),
        ensures
            final(self).indent == old(self).indent,
            final(self).value == old(self).value,
            final(self).format == old(self).format,
            forall|float_text: spec_fn(u64) -> Seq<char>|
                #![trigger writes_floats(old(self).format, float_text)]
                writes_as(old(self).format, value@, float_text) ==> final(self).result@ == old(
                    self,
                ).result@ + rendered(value@, old(self).indent as nat, level, float_text),
            distinct_throughout(value@),
        decreases value@, 1nat,
    {
        proof {
            reveal_strlit("null");
            reveal_strlit("true");
            reveal_strlit("false");
            assert("null"@ =~= seq!['n', 'u', 'l', 'l']);
            assert("true"@ =~= seq!['t', 'r', 'u', 'e']);
            assert("false"@ =~= seq!['f', 'a', 'l', 's', 'e']);
        }
        match value {
            Value::Null => self.result.append("null"),
            Value::Bool(bool) => {
                if *bool {
                    self.result.append("true")
                } else {
                    self.result.append("false")
                }
            },
            Value::Number(number) => {
                let text = number.to_string(&self.format);
                self.result.append(text.as_str());
            },
            Value::String(string) => self.string(string),
            Value::Object(object) => {
                proof {
                    let tree = value@;
                    assert(tree->Object_0 == object@);
                    assert(decreases_to!(tree => tree->Object_0));
                }
                self.object(object, margin, Ghost(level));
            },
            Value::Array(array) => {
                proof {
                    let tree = value@;
                    assert(tree->Array_0 == items_view(array@));
                    assert(decreases_to!(tree => tree->Array_0));
                }
                self.array(array, margin, Ghost(level));
            },
        }
    }

    /// Renders the value.
    ///
    /// Where the formatter writes binary64 values as `float_text` says, the
    /// result is the text of the value at depth zero. Where the value holds
    /// no such number, it is that text whatever the formatter does. No
    /// object of the value has a key twice.
    pub fn create(self) -> (result: String)
        requires
            self.wf(),
        ensures
            forall|float_text: spec_fn(u64) -> Seq<char>| #[trigger]
                writes_floats(self.formatter(), float_text) ==> result@ == rendered(
                    self.subject()@,
                    self.width() as nat,
                    0,
                    float_text,
                ),
            holds_no_float(self.subject()@) ==> result@ == rendered(
                self.subject()@,
                self.width() as nat,
                0,
                no_float_text(),
            ),
            distinct_throughout(self.subject()@),
    {
        let mut stringifier = self;
        let margin = String::new();
        assert(margin@ =~= spaces(0 * stringifier.indent as nat));
        let subject = stringifier.value;
        let ghost quiet = no_float_text();
        let ghost known = writes_floats(stringifier.format, quiet);
        stringifier.value(subject, &margin, Ghost(0));
        proof {
            if holds_no_float(subject@) {
                assert(writes_as(self.format, subject@, quiet));
                assert(known || !known);
                assert(stringifier.result@ =~= rendered(subject@, self.indent as nat, 0, quiet));
            }
        }
        stringifier.result
    }
}

impl Value {
    /// A stringifier for this value, which writes binary64 values with
    /// `format`.
    pub fn stringified<G: Fn(u64) -> String>(&self, format: G) -> (result: JsonStringifier<'_, G>)
        requires
            forall|bits: u64| call_requires(format, (bits,)),
        ensures
            result.wf(),
            result.width() == 2,
            result.subject() == self,
            result.formatter() == format,
    {
        JsonStringifier::new(self, format)
    }

    /// The text of this value with `indent_width` spaces to a level.
    pub fn stringify<G: Fn(u64) -> String>(&self, indent_width: u8, format: G) -> (result: String)
        requires
            forall|bits: u64| call_requires(format, (bits,)),
        ensures
            forall|float_text: spec_fn(u64) -> Seq<char>| #[trigger]
                writes_floats(format, float_text) ==> result@ == rendered(
                    self@,
                    indent_width as nat,
                    0,
                    float_text,
                ),
            holds_no_float(self@) ==> result@ == rendered(
                self@,
                indent_width as nat,
                0,
                no_float_text(),
            ),
            distinct_throughout(self@),
    {
        self.stringified(format).indent(indent_width).create()
    }
}

/// The two characters that stand in a string for `character`, where it is
/// one of the seven that are escaped.
pub fn get_escaped_character(character: &char) -> (result: Option<&'static str>)
    ensures
        match result {
            Some(escaped) => escaped@ == escaped_character(*character) && escaped@.len() == 2,
            None => escaped_character(*character) == seq![*character],
        },
{
    proof {
        reveal_strlit("\\\"");
        reveal_strlit("\\\\");
        reveal_strlit("\\b");
        reveal_strlit("\\f");
        reveal_strlit("\\n");
        reveal_strlit("\\r");
        reveal_strlit("\\t");
        assert("\\\""@ =~= seq!['\\', '"']);
        assert("\\\\"@ =~= seq!['\\', '\\']);
        assert("\\b"@ =~= seq!['\\', 'b']);
        assert("\\f"@ =~= seq!['\\', 'f']);
        assert("\\n"@ =~= seq!['\\', 'n']);
        assert("\\r"@ =~= seq!['\\', 'r']);
        assert("\\t"@ =~= seq!['\\', 't']);
    }
    match *character {
        '"' => Some("\\\""),
        '\\' => Some("\\\\"),
        '\u{8}' => Some("\\b"),
        '\u{c}' => Some("\\f"),
        '\n' => Some("\\n"),
        '\r' => Some("\\r"),
        '\t' => Some("\\t"),
        _ => None,
    }
}

} // verus!
