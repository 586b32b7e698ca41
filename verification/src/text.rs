//! Character sequences and the strings that hold them.

use vstd::prelude::*;

verus! {

/// `String::push` appends one character to the end of the string.
pub assume_specification[ std::string::String::push ](string: &mut std::string::String, ch: char)
    ensures
        final(string)@ == old(string)@.push(ch),
;

/// `char::from_u32` gives the character with the given code, which exists
/// unless the code is a surrogate or lies above `0x10FFFF`.
pub assume_specification[ char::from_u32 ](i: u32) -> (result: Option<char>)
    ensures
        result == if 0 <= i <= 0xD7FF || 0xE000 <= i <= 0x10FFFF {
            Some(i as char)
        } else {
            None::<char>
        },
;

/// Whether `code` is the code of a character: a code point that is no
/// surrogate.
pub open spec fn is_scalar_value(code: int) -> bool {
    0 <= code <= 0xD7FF || 0xE000 <= code <= 0x10FFFF
}

/// The characters of `text`, in order.
pub fn characters_of(text: &str) -> (result: Vec<char>)
    ensures
        result@ == text@,
{
    let mut result: Vec<char> = Vec::new();
    for character in iter: text.chars()
        invariant
            result@ == iter.seq().take(iter.index() as int),
            iter.seq() == text@,
    {
        result.push(character);
    }
    result
}

/// The string made of `characters[from..to]`.
pub fn text_of(characters: &Vec<char>, from: usize, to: usize) -> (result: String)
    requires
        from <= to <= characters.len(),
    ensures
        result@ == characters@.subrange(from as int, to as int),
{
    let mut result = String::new();
    let mut index: usize = from;
    while index < to
        invariant
            from <= index <= to <= characters.len(),
            result@ == characters@.subrange(from as int, index as int),
        decreases to - index,
    {
        result.push(characters[index]);
        index += 1;
    }
    result
}

/// `count` spaces.
pub open spec fn spaces(count: nat) -> Seq<char> {
    Seq::new(count, |i: int| ' ')
}

} // verus!
