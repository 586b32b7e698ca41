//! The tokenizer: reads a text token by token, and keeps the line and
//! column at which it stands.

use vstd::prelude::*;
use crate::number::{Number, classified, integer_literal, reads_floats};
use crate::scan::{
    EOF, Scan, TokenKind, TokenView, character_at, escape, hex_character, hex_number, hex_run,
    hex_value, lemma_end_is_permanent, lemma_float_free_next, letter, letters, located,
    no_floats, number_character, number_characters, number_start,
    run_length, scan_string, unicode_escape,
};
use crate::text::{characters_of, text_of};
pub use crate::scan::Location;

verus! {

/// The kind of a token. A number carries its value, and a string its
/// contents with the escapes resolved.
#[derive(Debug, PartialEq)]
pub enum TokenType {
    BeginArray,
    EndArray,
    BeginObject,
    EndObject,
    NameSeparator,
    ValueSeparator,
    False,
    True,
    Null,
    Number(Number),
    String(String),
    Invalid,
}

impl View for TokenType {
    type V = TokenKind;

    open spec fn view(&self) -> TokenKind {
        match self {
            TokenType::BeginArray => TokenKind::BeginArray,
            TokenType::EndArray => TokenKind::EndArray,
            TokenType::BeginObject => TokenKind::BeginObject,
            TokenType::EndObject => TokenKind::EndObject,
            TokenType::NameSeparator => TokenKind::NameSeparator,
            TokenType::ValueSeparator => TokenKind::ValueSeparator,
            TokenType::False => TokenKind::False,
            TokenType::True => TokenKind::True,
            TokenType::Null => TokenKind::Null,
            TokenType::Number(number) => TokenKind::Number(*number),
            TokenType::String(string) => TokenKind::String(string@),
            TokenType::Invalid => TokenKind::Invalid,
        }
    }
}

/// A token: its kind, the text it was read from in `value`, and where that
/// stood.
#[derive(Debug, PartialEq)]
pub struct Token {
    pub token_type: TokenType,
    pub value: String,
    pub location: Location,
}

impl View for Token {
    type V = TokenView;

    open spec fn view(&self) -> TokenView {
        TokenView { kind: self.token_type@, raw: self.value@, location: self.location }
    }
}

/// What a token that may be missing stands for.
pub open spec fn token_view(token: Option<Token>) -> Option<TokenView> {
    match token {
        Some(token) => Some(token@),
        None => None,
    }
}

/// What the tokens of a sequence stand for.
pub open spec fn token_views(tokens: Seq<Token>) -> Seq<TokenView> {
    tokens.map_values(|token: Token| token@)
}

/// Reads a text token by token. Each token is made when it is asked for;
/// the text is read once, from its beginning to its end.
///
/// `F` is the function that reads a number literal as a binary64 value and
/// gives its bit pattern, or `None` where the literal is none.
pub struct Tokenizer<F: Fn(&str) -> Option<u64>> {
    character: char,
    characters: Vec<char>,
    position: usize,
    line: usize,
    column: usize,
    decode: F,
}

impl Location {
    fn from_tokenizer<F: Fn(&str) -> Option<u64>>(
        tokenizer: &Tokenizer<F>,
        column_start: &usize,
    ) -> (result: Self)
        requires
            *column_start <= tokenizer.column,
        ensures
            result == located(
                tokenizer.line as int,
                *column_start as int,
                tokenizer.column - *column_start,
            ),
    {
        Self {
            line: tokenizer.line,
            column: *column_start,
            length: tokenizer.column - *column_start,
        }
    }
}

impl<F: Fn(&str) -> Option<u64>> Tokenizer<F> {
    /// What holds of a tokenizer but for the bounds on line and column.
    spec fn inv(&self) -> bool {
        &&& self.position <= self.characters.len() < usize::MAX
        &&& self.character == character_at(self.characters@, self.position as int)
        &&& forall|text: &str| call_requires(self.decode, (text,))
    }

    /// What holds of a tokenizer between two calls.
    pub closed spec fn wf(&self) -> bool {
        &&& self.inv()
        &&& 1 <= self.line <= self.position + 1
        &&& self.column <= self.position + 1
    }

    /// The place in the text at which the tokenizer stands.
    pub closed spec fn scan(&self) -> Scan {
        Scan {
            characters: self.characters@,
            position: self.position as int,
            line: self.line as int,
            column: self.column as int,
        }
    }

    /// The function that reads a literal as a binary64 value.
    pub closed spec fn decoder(&self) -> F {
        self.decode
    }

    /// A tokenizer stands within its text.
    pub proof fn lemma_within(&self)
        requires
            self.wf(),
        ensures
            self.scan().within(),
            self.scan().characters.len() < usize::MAX,
    {
    }

    /// A tokenizer at the beginning of `input`, which reads its binary64
    /// values with `decode`.
    pub fn new(input: String, decode: F) -> (result: Self)
        requires
            input@.len() < usize::MAX,
            forall|text: &str| call_requires(decode, (text,)),
        ensures
            result.wf(),
            result.scan() == Scan::start(input@),
            result.decoder() == decode,
    {
        let characters = characters_of(input.as_str());
        let character = if characters.len() > 0 {
            characters[0]
        } else {
            EOF
        };
        Self { character, characters, position: 0, line: 1, column: 1, decode }
    }

    /// The line at which the tokenizer stands.
    pub fn line(&self) -> (result: usize)
        ensures
            result == self.scan().line,
    {
        self.line
    }

    /// The column at which the tokenizer stands.
    pub fn column(&self) -> (result: usize)
        ensures
            result == self.scan().column,
    {
        self.column
    }

    /// The position of the character that the tokenizer reads next.
    pub fn position(&self) -> (result: usize)
        ensures
            result == self.scan().position,
    {
        self.position
    }

    fn read_char(&mut self)
        requires
            old(self).inv(),
            old(self).position < old(self).characters.len(),
            old(self).column <= old(self).position + 1,
            1 <= old(self).line <= old(self).position + 2,
        ensures
            final(self).wf(),
            final(self).scan() == old(self).scan().advance(1),
            final(self).decode == old(self).decode,
    {
        self.position = self.position + 1;
        self.column = self.column + 1;
        if self.position < self.characters.len() {
            self.character = self.characters[self.position];
        } else {
            self.character = EOF;
        }
    }

    fn read_chars(&mut self, number: usize)
        requires
            old(self).wf(),
            old(self).position + number <= old(self).characters.len(),
        ensures
            final(self).wf(),
            final(self).scan() == old(self).scan().advance(number as int),
            final(self).decode == old(self).decode,
    {
        let mut done: usize = 0;
        while done < number
            invariant
                done <= number,
                self.wf(),
                self.scan() == old(self).scan().advance(done as int),
                self.decode == old(self).decode,
                old(self).position + number <= old(self).characters.len(),
            decreases number - done,
        {
            self.read_char();
            done += 1;
        }
    }

    fn peak_char(&self, offset: usize) -> (result: char)
        requires
            self.wf(),
        ensures
            result == character_at(self.characters@, self.position + offset),
    {
        if offset < self.characters.len() - self.position {
            self.characters[self.position + offset]
        } else {
            EOF
        }
    }

    fn advance_line(&mut self)
        requires
            old(self).wf(),
            old(self).position < old(self).characters.len(),
        ensures
            final(self).inv(),
            final(self).scan() == (Scan { line: old(self).scan().line
                + 1, column: 0, ..old(self).scan() }),
            final(self).decode == old(self).decode,
    {
        self.line = self.line + 1;
        self.column = 0;
    }

    fn skip_whitespace(&mut self)
        requires
            old(self).wf(),
        ensures
            final(self).wf(),
            final(self).scan() == old(self).scan().skip_whitespace(),
            final(self).decode == old(self).decode,
            final(self).characters@ == old(self).characters@,
            final(self).position >= old(self).position,
    {
        loop
            invariant_except_break
                self.wf(),
                self.scan().skip_whitespace() == old(self).scan().skip_whitespace(),
                self.decode == old(self).decode,
                self.characters@ == old(self).characters@,
                self.position >= old(self).position,
            ensures
                self.wf(),
                self.scan() == old(self).scan().skip_whitespace(),
                self.decode == old(self).decode,
                self.characters@ == old(self).characters@,
                self.position >= old(self).position,
            decreases self.characters.len() - self.position,
        {
            match self.character {
                ' ' => {},
                '\n' => self.advance_line(),
                '\r' => self.advance_line(),
                '\t' => {},
                _ => break ,
            }
            self.read_char();
        }
    }

    fn read_sequence<P: Fn(char) -> bool>(
        &mut self,
        is_valid: P,
        Ghost(class): Ghost<spec_fn(char) -> bool>,
    ) -> (result: (usize, String))
        requires
            old(self).wf(),
            forall|character: char| call_requires(is_valid, (character,)),
            forall|character: char, valid: bool|
                call_ensures(is_valid, (character,), valid) ==> valid == class(character),
            !class(EOF),
        ensures
            final(self).wf(),
            final(self).decode == old(self).decode,
            result.0 == old(self).column,
            result.1@ == old(self).scan().characters.subrange(
                old(self).scan().position,
                old(self).scan().position
                    + run_length(old(self).scan().characters, old(self).scan().position, class),
            ),
            final(self).scan() == old(self).scan().advance(
                run_length(old(self).scan().characters, old(self).scan().position, class) as int,
            ),
    {
        let column_start = self.column;
        let mut sequence = String::new();
        let ghost start = self.scan();
        loop
            invariant_except_break
                self.wf(),
                self.decode == old(self).decode,
                start == old(self).scan(),
                start.position <= self.position,
                self.scan() == start.advance(self.position - start.position),
                sequence@ == start.characters.subrange(start.position, self.position as int),
                run_length(start.characters, start.position, class) == self.position
                    - start.position + run_length(start.characters, self.position as int, class),
                forall|character: char| call_requires(is_valid, (character,)),
                forall|character: char, valid: bool|
                    call_ensures(is_valid, (character,), valid) ==> valid == class(character),
                !class(EOF),
            ensures
                self.wf(),
                self.decode == old(self).decode,
                self.scan()
                    == start.advance(run_length(start.characters, start.position, class) as int),
                sequence@ == start.characters.subrange(
                    start.position,
                    start.position + run_length(start.characters, start.position, class),
                ),
            decreases self.characters.len() - self.position,
        {
            if !is_valid(self.character) {
                break ;
            }
            sequence.push(self.character);
            self.read_char();
            assert(start.characters.subrange(start.position, self.position as int)
                == start.characters.subrange(start.position, self.position - 1).push(
                start.characters[self.position - 1],
            ));
        }
        (column_start, sequence)
    }

    fn read_literal(&mut self) -> (result: Token)
        requires
            old(self).wf(),
            letter(old(self).character),
        ensures
            final(self).wf(),
            final(self).decode == old(self).decode,
            final(self).position > old(self).position,
            (Some(result@), final(self).scan()) == old(self).scan().literal_token(),
    {
        let (column_start, literal) = self.read_sequence(is_letter, Ghost(letters()));
        let token_type = if is_text(&literal, "true") {
            TokenType::True
        } else if is_text(&literal, "false") {
            TokenType::False
        } else if is_text(&literal, "null") {
            TokenType::Null
        } else {
            TokenType::Invalid
        };
        proof {
            reveal_strlit("true");
            reveal_strlit("false");
            reveal_strlit("null");
            assert("true"@ =~= seq!['t', 'r', 'u', 'e']);
            assert("false"@ =~= seq!['f', 'a', 'l', 's', 'e']);
            assert("null"@ =~= seq!['n', 'u', 'l', 'l']);
        }
        Token {
            token_type,
            value: literal,
            location: Location::from_tokenizer(&self, &column_start),
        }
    }

    fn read_number(&mut self) -> (result: Token)
        requires
            old(self).wf(),
            number_start(old(self).character),
        ensures
            final(self).wf(),
            final(self).decode == old(self).decode,
            final(self).position > old(self).position,
            exists|bits: Option<u64>|
                (Some(result@), final(self).scan()) == #[trigger] old(self).scan().number_token(
                    bits,
                ),
            integer_literal(old(self).scan().number_literal()) is Some ==> forall|
                bits: Option<u64>,
            |
                (Some(result@), final(self).scan()) == #[trigger] old(self).scan().number_token(
                    bits,
                ),
            forall|floats: spec_fn(Seq<char>) -> Option<u64>| #[trigger]
                reads_floats(old(self).decode, floats) ==> (Some(result@), final(self).scan())
                    == old(self).scan().number_token(floats(old(self).scan().number_literal())),
    {
        let (column_start, sequence) = self.read_sequence(
            is_number_character,
            Ghost(number_characters()),
        );
        let parsed_value = Number::parse(&sequence, &self.decode);
        let token_type = if let Some(parsed_value) = parsed_value {
            TokenType::Number(parsed_value)
        } else {
            TokenType::Invalid
        };
        let token = Token {
            token_type,
            value: sequence,
            location: Location::from_tokenizer(&self, &column_start),
        };
        proof {
            let literal = old(self).scan().number_literal();
            if integer_literal(literal) is Some {
                assert((Some(token@), self.scan()) == old(self).scan().number_token(None));
            } else {
                let bits = choose|bits: Option<u64>| parsed_value == classified(literal, bits);
                assert((Some(token@), self.scan()) == old(self).scan().number_token(bits));
            }
        }
        token
    }

    fn read_hex_sequence(&mut self) -> (result: Option<String>)
        requires
            old(self).wf(),
            old(self).position < old(self).characters.len(),
        ensures
            final(self).wf(),
            final(self).decode == old(self).decode,
            ({
                let found = hex_run(old(self).scan().characters, old(self).scan().position + 1);
                &&& result is Some <==> found == 4
                &&& found == 4 ==> final(self).scan() == old(self).scan().advance(4)
                &&& found < 4 ==> final(self).scan() == old(self).scan().advance(found + 1)
                &&& result matches Some(sequence) ==> sequence@
                    == old(self).scan().characters.subrange(
                    old(self).scan().position + 1,
                    old(self).scan().position + 5,
                )
            }),
    {
        let mut sequence = String::new();
        let mut done: usize = 0;
        let ghost start = self.scan();
        while done < 4
            invariant
                done <= 4,
                self.wf(),
                self.decode == old(self).decode,
                start == old(self).scan(),
                self.scan() == start.advance(done as int),
                self.position < self.characters.len(),
                forall|k: int|
                    1 <= k <= done ==> hex_character(
                        #[trigger] character_at(start.characters, start.position + k),
                    ),
                sequence@ == start.characters.subrange(
                    start.position + 1,
                    start.position + 1 + done,
                ),
            decreases 4 - done,
        {
            self.read_char();
            if !is_hex_character(self.character) {
                return None;
            }
            sequence.push(self.character);
            done += 1;
            assert(start.characters.subrange(start.position + 1, start.position + 1 + done)
                == start.characters.subrange(start.position + 1, start.position + done).push(
                start.characters[start.position + done],
            ));
        }
        proof {
            assert(hex_character(character_at(start.characters, start.position + 1)));
            assert(hex_character(character_at(start.characters, start.position + 2)));
            assert(hex_character(character_at(start.characters, start.position + 3)));
            assert(hex_character(character_at(start.characters, start.position + 4)));
        }
        Some(sequence)
    }

    fn read_unicode_escape_sequence(&mut self) -> (result: Option<char>)
        requires
            old(self).wf(),
            old(self).position < old(self).characters.len(),
        ensures
            final(self).wf(),
            final(self).decode == old(self).decode,
            result == unicode_escape(old(self).scan().characters,
                old(self).scan().position).character,
            final(self).scan() == old(self).scan().advance(
                unicode_escape(old(self).scan().characters,
                    old(self).scan().position).cursor - old(self).scan().position,
            ),
            final(self).position >= old(self).position,
            result is Some ==> final(self).position < final(self).characters.len(),
    {
        let ghost start = self.scan();
        let unicode_sequence = match self.read_hex_sequence() {
            Some(sequence) => sequence,
            None => {
                proof {
                    reveal(unicode_escape);
                }
                return None;
            },
        };
        let mut code_point: u32 = hex_to_number(&unicode_sequence);
        proof {
            lemma_hex_number_within(start.characters, start.position + 1, unicode_sequence@);
        }
        let is_expecting_surrogate_pair = code_point >= 0xD800 && code_point <= 0xDBFF
            && self.peak_char(1) == '\\' && self.peak_char(2) == 'u';
        if is_expecting_surrogate_pair {
            self.read_chars(2);
            let surrogate_sequence = match self.read_hex_sequence() {
                Some(sequence) => sequence,
                None => {
                    proof {
                        reveal(unicode_escape);
                    }
                    return None;
                },
            };
            let high_surrogate = code_point;
            let low_surrogate = hex_to_number(&surrogate_sequence);
            proof {
                lemma_hex_number_within(start.characters, start.position + 7, surrogate_sequence@);
                reveal(unicode_escape);
            }
            if low_surrogate < 0xDC00 || low_surrogate > 0xDFFF {
                return None;
            }
            code_point = 0x10000 + (high_surrogate - 0xD800) * 0x400 + (low_surrogate - 0xDC00);
            return char::from_u32(code_point);
        }
        proof {
            reveal(unicode_escape);
        }
        char::from_u32(code_point)
    }

    fn read_escape_sequence(&mut self) -> (result: Option<char>)
        requires
            old(self).wf(),
            old(self).position < old(self).characters.len(),
        ensures
            final(self).wf(),
            final(self).decode == old(self).decode,
            result == escape(old(self).scan().characters, old(self).scan().position).character,
            final(self).scan() == old(self).scan().advance(
                escape(old(self).scan().characters,
                    old(self).scan().position).cursor - old(self).scan().position,
            ),
            final(self).position > old(self).position,
            result is Some ==> final(self).position < final(self).characters.len(),
    {
        reveal(escape);
        self.read_char();
        match self.character {
            '"' => Some('"'),
            '\\' => Some('\\'),
            '/' => Some('/'),
            'b' => Some('\u{8}'),
            'f' => Some('\u{c}'),
            'n' => Some('\n'),
            'r' => Some('\r'),
            't' => Some('\t'),
            'u' => self.read_unicode_escape_sequence(),
            _ => None,
        }
    }

    fn read_string(&mut self) -> (result: Token)
        requires
            old(self).wf(),
            old(self).character == '"',
        ensures
            final(self).wf(),
            final(self).decode == old(self).decode,
            final(self).position > old(self).position,
            (Some(result@), final(self).scan()) == old(self).scan().string_token(),
    {
        let position_start = self.position;
        let column_start = self.column;
        let mut sequence = Vec::<char>::new();
        let ghost start = self.scan();
        let ghost read = scan_string(start.characters, start.position, Seq::empty());
        loop
            invariant_except_break
                self.wf(),
                self.decode == old(self).decode,
                start == old(self).scan(),
                position_start == start.position,
                column_start == start.column,
                start.position <= self.position,
                self.scan() == start.advance(self.position - start.position),
                read == scan_string(start.characters, start.position, Seq::empty()),
                scan_string(start.characters, self.position as int, sequence@) == read,
                sequence.len() == 0 <==> self.position == start.position,
                start.current() == '"',
            ensures
                self.wf(),
                self.decode == old(self).decode,
                start.position < self.position,
                self.scan() == start.advance(self.position - start.position),
                read.closed,
                read.end == self.position,
                read.decoded == sequence@,
                sequence.len() >= 2,
            decreases self.characters.len() - self.position,
        {
            let should_break = sequence.len() >= 1 && self.character == '"';
            let ghost before = self.scan();
            assert(scan_string(start.characters, before.position, sequence@) == read);
            let maybe_character = if self.position >= self.characters.len() {
                None
            } else {
                match self.character {
                    '\\' => self.read_escape_sequence(),
                    _ => Some(self.character),
                }
            };
            let character = match maybe_character {
                Some(character) => character,
                None => {
                    assert(sequence@.subrange(0, sequence.len() as int) == sequence@);
                    return Token {
                        token_type: TokenType::Invalid,
                        value: text_of(&sequence, 0, sequence.len()),
                        location: Location::from_tokenizer(&self, &column_start),
                    };
                },
            };
            sequence.push(character);
            self.read_char();
            if should_break {
                break ;
            }
        }
        let string_value = text_of(&sequence, 1, sequence.len() - 1);
        let raw_text = text_of(&self.characters, position_start, self.position);
        Token {
            token_type: TokenType::String(string_value),
            value: raw_text,
            location: Location::from_tokenizer(&self, &column_start),
        }
    }

    fn read_plain_token(&mut self, token_type: TokenType) -> (result: Token)
        requires
            old(self).wf(),
            old(self).position < old(self).characters.len(),
        ensures
            final(self).wf(),
            final(self).decode == old(self).decode,
            final(self).position > old(self).position,
            (Some(result@), final(self).scan()) == old(self).scan().plain_token(token_type@),
    {
        let mut value = String::new();
        value.push(self.character);
        let token = Token {
            token_type,
            value,
            location: Location { line: self.line, column: self.column, length: 1 },
        };
        self.read_char();
        token
    }

    /// Reads the next token, or gives `None` where the text has ended, and
    /// then at every later call.
    ///
    /// The token is the one that the text holds behind the whitespace here.
    /// Where that is a number literal that is no integer, its kind depends
    /// on what the decoder returns for the literal; any other token is what
    /// it is whatever the decoder does.
    pub fn next_token(&mut self) -> (result: Option<Token>)
        requires
            old(self).wf(),
        ensures
            final(self).wf(),
            final(self).decoder() == old(self).decoder(),
            final(self).scan().characters == old(self).scan().characters,
            old(self).scan().position <= final(self).scan().position
                <= final(self).scan().characters.len(),
            result is Some ==> old(self).scan().position < final(self).scan().position,
            exists|bits: Option<u64>|
                (token_view(result), final(self).scan())
                    == #[trigger] old(self).scan().skip_whitespace().token_here(bits),
            forall|floats: spec_fn(Seq<char>) -> Option<u64>|
                #![trigger reads_floats(old(self).decoder(), floats)]
                reads_floats(old(self).decoder(), floats) || !old(self).scan().asks_decoder() ==> (
                    token_view(result),
                    final(self).scan(),
                ) == old(self).scan().next_token(floats),
    {
        self.skip_whitespace();
        let ghost here = self.scan();
        if self.position >= self.characters.len() {
            assert((None::<TokenView>, self.scan()) == here.token_here(None));
            return None;
        }
        let ghost literal = here.number_literal();
        let result = match self.character {
            '[' => self.read_plain_token(TokenType::BeginArray),
            ']' => self.read_plain_token(TokenType::EndArray),
            '{' => self.read_plain_token(TokenType::BeginObject),
            '}' => self.read_plain_token(TokenType::EndObject),
            ':' => self.read_plain_token(TokenType::NameSeparator),
            ',' => self.read_plain_token(TokenType::ValueSeparator),
            '"' => self.read_string(),
            _ => {
                if is_letter(self.character) {
                    self.read_literal()
                } else if is_number_start(self.character) {
                    self.read_number()
                } else {
                    self.read_plain_token(TokenType::Invalid)
                }
            },
        };
        proof {
            if number_start(here.current()) {
                let bits = choose|bits: Option<u64>|
                    (Some(result@), self.scan()) == #[trigger] here.number_token(bits);
                assert((Some(result@), self.scan()) == here.token_here(bits));
            } else {
                assert((Some(result@), self.scan()) == here.token_here(None));
            }
            assert forall|floats: spec_fn(Seq<char>) -> Option<u64>|
                #![trigger reads_floats(self.decode, floats)]
                reads_floats(self.decode, floats) || !old(self).scan().asks_decoder() implies (
                Some(result@),
                self.scan(),
            ) == old(self).scan().next_token(floats) by {
                if number_start(here.current()) {
                    if reads_floats(self.decode, floats) {
                    } else {
                        assert((Some(result@), self.scan()) == here.number_token(floats(literal)));
                    }
                }
            }
        }
        Some(result)
    }

    /// Reads the tokens that are left, up to the end of the text.
    pub fn tokens(&mut self) -> (result: Vec<Token>)
        requires
            old(self).wf(),
        ensures
            final(self).wf(),
            final(self).decoder() == old(self).decoder(),
            final(self).scan().characters == old(self).scan().characters,
            forall|floats: spec_fn(Seq<char>) -> Option<u64>|
                #![trigger reads_floats(old(self).decoder(), floats)]
                reads_floats(old(self).decoder(), floats) || old(self).scan().float_free() ==> {
                    &&& token_views(result@) == old(self).scan().tokens(floats)
                    &&& final(self).scan().next_token(floats).0 is None
                },
    {
        let mut result: Vec<Token> = Vec::new();
        loop
            invariant_except_break
                self.wf(),
                self.decode == old(self).decode,
                self.characters@ == old(self).characters@,
                old(self).scan().float_free() ==> self.scan().float_free(),
                forall|floats: spec_fn(Seq<char>) -> Option<u64>|
                #![trigger reads_floats(self.decode, floats)]
                reads_floats(self.decode, floats) || old(self).scan().float_free()
                    ==> token_views(result@)
                        + self.scan().tokens(floats) == old(self).scan().tokens(floats),
            ensures
                self.wf(),
                self.decode == old(self).decode,
                self.characters@ == old(self).characters@,
                forall|floats: spec_fn(Seq<char>) -> Option<u64>|
                #![trigger reads_floats(self.decode, floats)]
                reads_floats(self.decode, floats) || old(self).scan().float_free()
                    ==> token_views(result@)
                        == old(self).scan().tokens(floats) && self.scan().next_token(floats).0
                        is None,
            decreases self.characters.len() - self.position,
        {
            let ghost before = self.scan();
            let ghost read = result@;
            proof {
                if before.float_free() {
                    lemma_float_free_next(before, no_floats());
                }
                assert forall|floats: spec_fn(Seq<char>) -> Option<u64>|
                    reads_floats(self.decode, floats) || old(self).scan().float_free() implies (
                    token_views(read) + before.tokens(floats)
                        == old(self).scan().tokens(floats)) by {
                    assert(reads_floats(self.decode, floats) || old(self).scan().float_free());
                }
            }
            match self.next_token() {
                Some(token) => {
                    result.push(token);
                    assert forall|floats: spec_fn(Seq<char>) -> Option<u64>|
                #![trigger reads_floats(self.decode, floats)]
                reads_floats(self.decode, floats) || old(self).scan().float_free()
                    implies token_views(
                        result@,
                    ) + self.scan().tokens(floats) == old(self).scan().tokens(floats) by {
                        if old(self).scan().float_free() {
                            lemma_float_free_next(before, floats);
                        }
                        assert(reads_floats(self.decode, floats) || !before.asks_decoder());
                        assert(before.next_token(floats) == (Some(token@), self.scan()));
                        assert(token_views(read) + before.tokens(floats) == old(self).scan().tokens(
                            floats,
                        ));
                        assert(before.tokens(floats) == seq![token@] + self.scan().tokens(floats));
                        assert(token_views(result@) =~= token_views(read) + seq![token@]);
                        assert(token_views(result@)
                            + self.scan().tokens(floats) =~= token_views(read)
                            + before.tokens(floats));
                    }
                },
                None => {
                    assert forall|floats: spec_fn(Seq<char>) -> Option<u64>|
                #![trigger reads_floats(self.decode, floats)]
                reads_floats(self.decode, floats) || old(self).scan().float_free()
                    implies token_views(
                        result@,
                    ) == old(self).scan().tokens(floats) && self.scan().next_token(floats).0
                        is None by {
                        if old(self).scan().float_free() {
                            lemma_float_free_next(before, floats);
                        }
                        assert(reads_floats(self.decode, floats) || !before.asks_decoder());
                        assert(before.next_token(floats) == (None::<TokenView>, self.scan()));
                        assert(before.tokens(floats) == Seq::<TokenView>::empty());
                        assert(token_views(result@) + before.tokens(floats) =~= token_views(
                            result@,
                        ));
                        lemma_end_is_permanent(before, floats);
                    }
                    break ;
                },
            }
        }
        result
    }
}

/// Whether `character` is a letter of the Latin alphabet.
pub fn is_letter(character: char) -> (result: bool)
    ensures
        result == letter(character),
{
    character >= 'a' && character <= 'z' || character >= 'A' && character <= 'Z'
}

/// Whether a number literal may hold `character`.
pub fn is_number_character(character: char) -> (result: bool)
    ensures
        result == number_character(character),
{
    character >= '0' && character <= '9' || character == '-' || character == '+' || character
        == '.' || character == 'e' || character == 'E'
}

/// Whether a number literal may begin with `character`.
pub fn is_number_start(character: char) -> (result: bool)
    ensures
        result == number_start(character),
{
    character >= '0' && character <= '9' || character == '-' || character == '+'
}

/// Whether `character` is a hexadecimal digit.
pub fn is_hex_character(character: char) -> (result: bool)
    ensures
        result == hex_character(character),
{
    character >= '0' && character <= '9' || character >= 'a' && character <= 'f' || character
        >= 'A' && character <= 'F'
}

/// Whether `literal` holds the characters of `expected`.
fn is_text(literal: &String, expected: &str) -> (result: bool)
    ensures
        result == (literal@ == expected@),
{
    let other = String::from_str(expected);
    *literal == other
}

/// Four characters taken from a text denote what they denote there.
proof fn lemma_hex_number_within(characters: Seq<char>, from: int, sequence: Seq<char>)
    requires
        0 <= from,
        from + 4 <= characters.len(),
        sequence == characters.subrange(from, from + 4),
    ensures
        hex_number(sequence, 0) == hex_number(characters, from),
{
    assert(sequence[0] == characters[from]);
    assert(sequence[1] == characters[from + 1]);
    assert(sequence[2] == characters[from + 2]);
    assert(sequence[3] == characters[from + 3]);
}

/// The number that a hexadecimal digit stands for.
fn hex_digit(character: char) -> (result: u32)
    requires
        hex_character(character),
    ensures
        result == hex_value(character),
        result < 16,
{
    if character >= '0' && character <= '9' {
        character as u32 - '0' as u32
    } else if character >= 'a' && character <= 'f' {
        character as u32 - 'a' as u32 + 10
    } else {
        character as u32 - 'A' as u32 + 10
    }
}

/// The number that four hexadecimal digits denote.
fn hex_to_number(sequence: &String) -> (result: u32)
    requires
        sequence@.len() == 4,
        forall|k: int| 0 <= k < 4 ==> hex_character(#[trigger] sequence@[k]),
    ensures
        result == hex_number(sequence@, 0),
        result <= 0xFFFF,
{
    let characters = characters_of(sequence.as_str());
    4096 * hex_digit(characters[0]) + 256 * hex_digit(characters[1]) + 16 * hex_digit(
        characters[2],
    ) + hex_digit(characters[3])
}

} // verus!
