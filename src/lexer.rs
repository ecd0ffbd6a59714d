//! The scanner: a cursor over the bytes of one input that yields one token
//! per request.
use vstd::prelude::*;
use vstd::string::StrSliceExecFns;
use vstd::utf8::{decode_utf8, encode_utf8, is_ascii_chars, valid_utf8};
use vstd::utf8::{encode_utf8_decode_utf8, encode_utf8_valid_utf8, is_ascii_chars_encode_utf8};
use std::string::FromUtf8Error;
use crate::scanning::{
    ascii_chars, byte_at, lemma_letters_end_bounds, lemma_skip_spaces_bounds, word_token, ASTERISK, BANG, COMMA, EQUALS, GREATER, LBRACE, LESS, LPAREN,
    MINUS, PLUS, RBRACE, RPAREN, SEMICOLON, SLASH, UNDERSCORE, digits_end, is_digit, is_letter, is_space, letters_end, scan, skip_spaces,
};
use crate::token::Token;

verus! {

#[verifier::external_type_specification]
#[verifier::external_body]
pub struct ExFromUtf8Error(FromUtf8Error);

/// Relies on std's `String::from_utf8`: it accepts exactly the byte sequences
/// that are valid UTF-8, and the string then holds the characters they encode.
#[verifier::external_body]
fn string_from_utf8(bytes: Vec<u8>) -> (r: Result<String, FromUtf8Error>)
    ensures
        r is Ok <==> valid_utf8(bytes@),
        r is Ok ==> r->Ok_0@ == decode_utf8(bytes@),
{
    String::from_utf8(bytes)
}

/// ASCII bytes are valid UTF-8, each encoding the character of its code.
proof fn lemma_ascii_decode(w: Seq<u8>)
    requires
        forall|i: int| 0 <= i < w.len() ==> #[trigger] w[i] < 0x80,
    ensures
        valid_utf8(w),
        decode_utf8(w) == ascii_chars(w),
{
    let c = ascii_chars(w);
    assert forall|i: int| 0 <= i < c.len() implies '\0' <= #[trigger] c[i] <= '\u{7f}' by {
        assert(w[i] < 0x80);
    }
    assert(is_ascii_chars(c));
    is_ascii_chars_encode_utf8(c);
    assert forall|i: int| 0 <= i < w.len() implies #[trigger] encode_utf8(c)[i] == w[i] by {
        assert(c[i] as u8 == encode_utf8(c)[i]);
    }
    assert(encode_utf8(c) =~= w);
    encode_utf8_valid_utf8(c);
    encode_utf8_decode_utf8(c);
}

/// Whether `b` is whitespace between tokens.
fn is_space_byte(b: u8) -> (r: bool)
    ensures
        r == is_space(b),
{
    b == 0x20 || b == 0x09 || b == 0x0a || b == 0x0d
}

/// Whether `b` is an ASCII letter.
fn is_letter_byte(b: u8) -> (r: bool)
    ensures
        r == is_letter(b),
{
    (0x41 <= b && b <= 0x5a) || (0x61 <= b && b <= 0x7a)
}

/// Whether `b` is an ASCII digit.
fn is_digit_byte(b: u8) -> (r: bool)
    ensures
        r == is_digit(b),
{
    0x30 <= b && b <= 0x39
}

/// The cursor of a `Lexer` as mathematical values.
pub struct Cursor {
    /// The bytes of the input.
    pub input: Seq<u8>,
    /// The position of the byte under the cursor; at or past the input's
    /// length once the input is exhausted.
    pub position: int,
    /// The position that the next advance reads.
    pub next_read: int,
    /// The byte under the cursor, or 0 past the end of the input.
    pub current: u8,
}

/// A scanner over one input.
///
/// The end of the input is told by the position, not by the byte under the
/// cursor: a 0 byte inside the input is an illegal token, not the end.
pub struct Lexer {
    position: usize,
    read_position: usize,
    ch: u8,
    input: Vec<u8>,
}

impl View for Lexer {
    type V = Cursor;

    closed spec fn view(&self) -> Cursor {
        Cursor {
            input: self.input@,
            position: self.position as int,
            next_read: self.read_position as int,
            current: self.ch,
        }
    }
}

impl Lexer {
    /// The cursor is consistent: the byte under it is the input's byte at
    /// its position (0 past the end), and the next advance reads the
    /// following position.
    pub open spec fn wf(&self) -> bool {
        &&& self@.next_read == self@.position + 1
        &&& self@.current == byte_at(self@.input, self@.position)
    }

    /// A scanner over the bytes of `input`, with the first byte under the
    /// cursor.
    pub fn new(input: String) -> (r: Lexer)
        ensures
            r.wf(),
            r@.input == encode_utf8(input@),
            r@.position == 0,
            r@.next_read == 1,
    {
        let bytes = input.as_str().as_bytes_vec();
        let mut lex = Lexer { position: 0, read_position: 0, ch: 0, input: bytes };
        lex.read_char();
        lex
    }

    /// Moves the cursor one byte forward: the byte at the next-read
    /// position comes under it, or 0 past the end of the input.
    pub fn read_char(&mut self)
        requires
            old(self)@.next_read < usize::MAX,
        ensures
            final(self)@.input == old(self)@.input,
            final(self)@.position == old(self)@.next_read,
            final(self)@.next_read == old(self)@.next_read + 1,
            final(self)@.current == byte_at(old(self)@.input, old(self)@.next_read),
    {
        if self.read_position >= self.input.len() {
            self.ch = 0;
        } else {
            self.ch = self.input[self.read_position];
        }
        self.position = self.read_position;
        self.read_position = self.read_position + 1;
    }

    /// The byte after the one under the cursor, or 0 where there is none;
    /// the cursor does not move.
    pub fn peek_char(&self) -> (r: u8)
        requires
            self.wf(),
        ensures
            r == byte_at(self@.input, self@.position + 1),
    {
        if self.read_position >= self.input.len() {
            0
        } else {
            self.input[self.read_position]
        }
    }

    /// Moves the cursor past the whitespace under it.
    pub fn skip_whitespace(&mut self)
        requires
            old(self).wf(),
            old(self)@.input.len() < usize::MAX,
        ensures
            final(self).wf(),
            final(self)@.input == old(self)@.input,
            final(self)@.position == skip_spaces(old(self)@.input, old(self)@.position),
    {
        while is_space_byte(self.ch)
            invariant
                self.wf(),
                self@.input == old(self)@.input,
                self@.input.len() < usize::MAX,
                old(self)@.position <= self@.position,
                skip_spaces(self@.input, self@.position) == skip_spaces(
                    old(self)@.input,
                    old(self)@.position,
                ),
            decreases self@.input.len() - self@.position,
        {
            self.read_char();
        }
    }

    /// The text of the input from `start` up to the cursor, all ASCII.
    fn text_from(&self, start: usize) -> (r: String)
        requires
            self.wf(),
            start <= self@.position <= self@.input.len(),
            forall|i: int| start <= i < self@.position ==> #[trigger] self@.input[i] < 0x80,
        ensures
            r@ == ascii_chars(self@.input.subrange(start as int, self@.position)),
    {
        let mut bytes: Vec<u8> = Vec::new();
        let mut i: usize = start;
        while i < self.position
            invariant
                self.wf(),
                self@.position <= self@.input.len(),
                start <= i <= self@.position,
                bytes@ == self@.input.subrange(start as int, i as int),
            decreases self@.position - i,
        {
            bytes.push(self.input[i]);
            i = i + 1;
            assert(bytes@ =~= self@.input.subrange(start as int, i as int));
        }
        proof {
            lemma_ascii_decode(bytes@);
        }
        match string_from_utf8(bytes) {
            Ok(text) => text,
            Err(_) => String::new(),
        }
    }

    /// Reads a word: the byte under the cursor, where it is a letter or `_`,
    /// and the run of letters after it. On any other byte the word is empty
    /// and the cursor stays.
    pub fn read_identifier(&mut self) -> (r: String)
        requires
            old(self).wf(),
            old(self)@.input.len() < usize::MAX,
        ensures
            final(self).wf(),
            final(self)@.input == old(self)@.input,
            is_letter(old(self)@.current) || old(self)@.current == UNDERSCORE ==> {
                &&& final(self)@.position == letters_end(old(self)@.input, old(self)@.position + 1)
                &&& r@ == ascii_chars(
                    old(self)@.input.subrange(old(self)@.position, final(self)@.position),
                )
            },
            !(is_letter(old(self)@.current) || old(self)@.current == UNDERSCORE) ==> {
                &&& final(self)@ == old(self)@
                &&& r@ == Seq::<char>::empty()
            },
    {
        if !(is_letter_byte(self.ch) || self.ch == UNDERSCORE) {
            return String::new();
        }
        let position = self.position;
        self.read_char();
        while is_letter_byte(self.ch)
            invariant
                self.wf(),
                self@.input == old(self)@.input,
                self@.input.len() < usize::MAX,
                position < self@.position <= self@.input.len(),
                letters_end(self@.input, self@.position) == letters_end(
                    old(self)@.input,
                    old(self)@.position + 1,
                ),
                forall|i: int| position <= i < self@.position ==> #[trigger] self@.input[i] < 0x80,
            decreases self@.input.len() - self@.position,
        {
            self.read_char();
        }
        self.text_from(position)
    }

    /// Whether the input from `start` up to the cursor spells `word`.
    fn spells(&self, start: usize, word: &Vec<u8>) -> (r: bool)
        requires
            self.wf(),
            start <= self@.position <= self@.input.len(),
        ensures
            r == (self@.input.subrange(start as int, self@.position) == word@),
    {
        if self.position - start != word.len() {
            return false;
        }
        let mut i: usize = 0;
        while i < word.len()
            invariant
                self.wf(),
                start <= self@.position <= self@.input.len(),
                self@.position - start == word@.len(),
                0 <= i <= word@.len(),
                forall|j: int| 0 <= j < i ==> self@.input[start + j] == word@[j],
            decreases word@.len() - i,
        {
            if self.input[start + i] != word[i] {
                assert(self@.input.subrange(start as int, self@.position)[i as int] != word@[i as int]);
                return false;
            }
            i = i + 1;
        }
        assert(self@.input.subrange(start as int, self@.position) =~= word@);
        true
    }

    /// The token of the word from `start` up to the cursor, whose text is
    /// `text`: its keyword, or else an identifier.
    fn word_to_token(&self, start: usize, text: String) -> (r: Token)
        requires
            self.wf(),
            start <= self@.position <= self@.input.len(),
            text@ == ascii_chars(self@.input.subrange(start as int, self@.position)),
        ensures
            r@ == word_token(self@.input.subrange(start as int, self@.position)),
    {
        if self.spells(start, &vec![0x66u8, 0x6e]) {
            Token::Function
        } else if self.spells(start, &vec![0x6cu8, 0x65, 0x74]) {
            Token::Let
        } else if self.spells(start, &vec![0x74u8, 0x72, 0x75, 0x65]) {
            Token::True
        } else if self.spells(start, &vec![0x66u8, 0x61, 0x6c, 0x73, 0x65]) {
            Token::False
        } else if self.spells(start, &vec![0x69u8, 0x66]) {
            Token::If
        } else if self.spells(start, &vec![0x65u8, 0x6c, 0x73, 0x65]) {
            Token::Else
        } else if self.spells(start, &vec![0x72u8, 0x65, 0x74, 0x75, 0x72, 0x6e]) {
            Token::Return
        } else {
            Token::Ident(text)
        }
    }

    /// The next token of the input; the cursor moves past it. Once the input
    /// is exhausted, every request yields `Token::Eof` and advances the
    /// cursor by one.
    pub fn next_token(&mut self) -> (r: Token)
        requires
            old(self).wf(),
            old(self)@.next_read < usize::MAX,
            old(self)@.input.len() < usize::MAX - 1,
        ensures
            final(self).wf(),
            final(self)@.input == old(self)@.input,
            (r@, final(self)@.position) == scan(old(self)@.input, old(self)@.position),
    {
        self.skip_whitespace();
        let ghost k = self@.position;
        proof {
            lemma_skip_spaces_bounds(self@.input, old(self)@.position);
            lemma_letters_end_bounds(self@.input, k + 1);
        }
        let token = if self.position >= self.input.len() {
            Token::Eof
        } else {
            match self.ch {
                LBRACE => Token::Lsquirly,
                RBRACE => Token::Rsquirly,
                LPAREN => Token::Lparen,
                RPAREN => Token::Rparen,
                COMMA => Token::Comma,
                SEMICOLON => Token::Semicolon,
                PLUS => Token::Plus,
                MINUS => Token::Minus,
                SLASH => Token::Slash,
                ASTERISK => Token::Asterisk,
                EQUALS => {
                    if self.peek_char() == EQUALS {
                        self.read_char();
                        Token::Equal
                    } else {
                        Token::Assign
                    }
                },
                BANG => {
                    if self.peek_char() == EQUALS {
                        self.read_char();
                        Token::NotEqual
                    } else {
                        Token::Bang
                    }
                },
                LESS => {
                    if self.peek_char() == EQUALS {
                        self.read_char();
                        Token::LessThanOrEqual
                    } else {
                        Token::LessThan
                    }
                },
                GREATER => {
                    if self.peek_char() == EQUALS {
                        self.read_char();
                        Token::GreaterThanOrEqual
                    } else {
                        Token::GreaterThan
                    }
                },
                c => {
                    if is_letter_byte(c) || c == UNDERSCORE {
                        let start = self.position;
                        let text = self.read_identifier();
                        return self.word_to_token(start, text);
                    } else if is_digit_byte(c) {
                        let number = self.read_number();
                        return Token::Int(number);
                    } else {
                        Token::Illegal
                    }
                },
            }
        };
        self.read_char();
        token
    }

    /// Reads the run of digits that starts under the cursor; where there is
    /// none, the text is empty and the cursor stays.
    pub fn read_number(&mut self) -> (r: String)
        requires
            old(self).wf(),
            old(self)@.input.len() < usize::MAX,
        ensures
            final(self).wf(),
            final(self)@.input == old(self)@.input,
            final(self)@.position == digits_end(old(self)@.input, old(self)@.position),
            is_digit(old(self)@.current) ==> r@ == ascii_chars(
                old(self)@.input.subrange(old(self)@.position, final(self)@.position),
            ),
            !is_digit(old(self)@.current) ==> final(self)@ == old(self)@ && r@ == Seq::<
                char,
            >::empty(),
    {
        if !is_digit_byte(self.ch) {
            return String::new();
        }
        let position = self.position;
        while is_digit_byte(self.ch)
            invariant
                self.wf(),
                self@.input == old(self)@.input,
                self@.input.len() < usize::MAX,
                position <= self@.position <= self@.input.len(),
                digits_end(self@.input, self@.position) == digits_end(
                    old(self)@.input,
                    old(self)@.position,
                ),
                forall|i: int| position <= i < self@.position ==> #[trigger] self@.input[i] < 0x80,
            decreases self@.input.len() - self@.position,
        {
            self.read_char();
        }
        self.text_from(position)
    }
}

} // verus!
