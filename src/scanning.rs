//! The mathematical model of scanning: which token starts at a position of
//! the input, where the next one starts, and the whole sequence of tokens.
use vstd::prelude::*;
use crate::token::TokenView;

verus! {

pub const LBRACE: u8 = 0x7b;
pub const RBRACE: u8 = 0x7d;
pub const LPAREN: u8 = 0x28;
pub const RPAREN: u8 = 0x29;
pub const COMMA: u8 = 0x2c;
pub const SEMICOLON: u8 = 0x3b;
pub const PLUS: u8 = 0x2b;
pub const MINUS: u8 = 0x2d;
pub const SLASH: u8 = 0x2f;
pub const ASTERISK: u8 = 0x2a;
pub const EQUALS: u8 = 0x3d;
pub const BANG: u8 = 0x21;
pub const LESS: u8 = 0x3c;
pub const GREATER: u8 = 0x3e;
pub const UNDERSCORE: u8 = 0x5f;

/// Whitespace between tokens: space, tab, line feed and carriage return.
pub open spec fn is_space(b: u8) -> bool {
    b == 0x20 || b == 0x09 || b == 0x0a || b == 0x0d
}

/// An ASCII letter, `A` to `Z` or `a` to `z`.
pub open spec fn is_letter(b: u8) -> bool {
    (0x41 <= b && b <= 0x5a) || (0x61 <= b && b <= 0x7a)
}

/// An ASCII decimal digit, `0` to `9`.
pub open spec fn is_digit(b: u8) -> bool {
    0x30 <= b && b <= 0x39
}

/// The byte at `i`, or 0 where `i` lies outside the input.
pub open spec fn byte_at(s: Seq<u8>, i: int) -> u8 {
    if 0 <= i < s.len() {
        s[i]
    } else {
        0
    }
}

/// The characters whose codes are the given (ASCII) bytes.
pub open spec fn ascii_chars(s: Seq<u8>) -> Seq<char> {
    Seq::new(s.len(), |i: int| s[i] as char)
}

/// The first position at or after `i` that does not hold whitespace.
pub open spec fn skip_spaces(s: Seq<u8>, i: int) -> int
    decreases s.len() - i,
{
    if 0 <= i < s.len() && is_space(s[i]) {
        skip_spaces(s, i + 1)
    } else {
        i
    }
}

/// The end of the run of letters that starts at `i`.
pub open spec fn letters_end(s: Seq<u8>, i: int) -> int
    decreases s.len() - i,
{
    if 0 <= i < s.len() && is_letter(s[i]) {
        letters_end(s, i + 1)
    } else {
        i
    }
}

/// The end of the run of digits that starts at `i`.
pub open spec fn digits_end(s: Seq<u8>, i: int) -> int
    decreases s.len() - i,
{
    if 0 <= i < s.len() && is_digit(s[i]) {
        digits_end(s, i + 1)
    } else {
        i
    }
}

/// The spellings of the keywords.
pub open spec fn keywords() -> Set<Seq<u8>> {
    set![
        seq![0x66u8, 0x6eu8],
        seq![0x6cu8, 0x65u8, 0x74u8],
        seq![0x74u8, 0x72u8, 0x75u8, 0x65u8],
        seq![0x66u8, 0x61u8, 0x6cu8, 0x73u8, 0x65u8],
        seq![0x69u8, 0x66u8],
        seq![0x65u8, 0x6cu8, 0x73u8, 0x65u8],
        seq![0x72u8, 0x65u8, 0x74u8, 0x75u8, 0x72u8, 0x6eu8],
    ]
}

/// The token for a word: its keyword where it spells one, else an identifier.
///
/// A word is a letter or `_` followed by letters only, so `x1` is the
/// identifier `x` and then the integer `1`, and `a_b` is `a` and then `_b`.
pub open spec fn word_token(w: Seq<u8>) -> TokenView {
    if w == seq![0x66u8, 0x6eu8] {
        TokenView::Function
    } else if w == seq![0x6cu8, 0x65u8, 0x74u8] {
        TokenView::Let
    } else if w == seq![0x74u8, 0x72u8, 0x75u8, 0x65u8] {
        TokenView::True
    } else if w == seq![0x66u8, 0x61u8, 0x6cu8, 0x73u8, 0x65u8] {
        TokenView::False
    } else if w == seq![0x69u8, 0x66u8] {
        TokenView::If
    } else if w == seq![0x65u8, 0x6cu8, 0x73u8, 0x65u8] {
        TokenView::Else
    } else if w == seq![0x72u8, 0x65u8, 0x74u8, 0x75u8, 0x72u8, 0x6eu8] {
        TokenView::Return
    } else {
        TokenView::Ident(ascii_chars(w))
    }
}

/// The token of a byte that is a token by itself.
pub open spec fn single_byte_token(b: u8) -> Option<TokenView> {
    if b == LBRACE {
        Some(TokenView::Lsquirly)
    } else if b == RBRACE {
        Some(TokenView::Rsquirly)
    } else if b == LPAREN {
        Some(TokenView::Lparen)
    } else if b == RPAREN {
        Some(TokenView::Rparen)
    } else if b == COMMA {
        Some(TokenView::Comma)
    } else if b == SEMICOLON {
        Some(TokenView::Semicolon)
    } else if b == PLUS {
        Some(TokenView::Plus)
    } else if b == MINUS {
        Some(TokenView::Minus)
    } else if b == SLASH {
        Some(TokenView::Slash)
    } else if b == ASTERISK {
        Some(TokenView::Asterisk)
    } else {
        None
    }
}

/// The operator of a byte that may be followed by `=`: without the `=`
/// (first) and with it (second).
pub open spec fn operator_pair(b: u8) -> Option<(TokenView, TokenView)> {
    if b == EQUALS {
        Some((TokenView::Assign, TokenView::Equal))
    } else if b == BANG {
        Some((TokenView::Bang, TokenView::NotEqual))
    } else if b == LESS {
        Some((TokenView::LessThan, TokenView::LessThanOrEqual))
    } else if b == GREATER {
        Some((TokenView::GreaterThan, TokenView::GreaterThanOrEqual))
    } else {
        None
    }
}

/// The token that starts at `k`, where no whitespace is to be skipped, and
/// the position of the cursor after the request. At or past the end of the
/// input the request yields the end marker and still advances by one.
pub open spec fn scan_at(s: Seq<u8>, k: int) -> (TokenView, int) {
    if k >= s.len() {
        (TokenView::Eof, k + 1)
    } else {
        let c = s[k];
        if single_byte_token(c) is Some {
            (single_byte_token(c)->Some_0, k + 1)
        } else if operator_pair(c) is Some {
            if byte_at(s, k + 1) == EQUALS {
                (operator_pair(c)->Some_0.1, k + 2)
            } else {
                (operator_pair(c)->Some_0.0, k + 1)
            }
        } else if is_letter(c) || c == UNDERSCORE {
            let e = letters_end(s, k + 1);
            (word_token(s.subrange(k, e)), e)
        } else if is_digit(c) {
            let e = digits_end(s, k + 1);
            (TokenView::Int(ascii_chars(s.subrange(k, e))), e)
        } else {
            (TokenView::Illegal, k + 1)
        }
    }
}

/// The token that a request at position `p` yields, and the position at
/// which the next request starts.
pub open spec fn scan(s: Seq<u8>, p: int) -> (TokenView, int) {
    scan_at(s, skip_spaces(s, p))
}

/// The tokens that requests from position `p` on yield, up to and including
/// the end marker.
pub open spec fn tokens_from(s: Seq<u8>, p: int) -> Seq<TokenView>
    decreases s.len() - p,
    via tokens_from_decreases
{
    let (t, q) = scan(s, p);
    if t is Eof {
        seq![TokenView::Eof]
    } else {
        seq![t] + tokens_from(s, q)
    }
}

#[via_fn]
proof fn tokens_from_decreases(s: Seq<u8>, p: int) {
    lemma_scan_progress(s, p);
}

/// The tokens of a whole input.
pub open spec fn tokens_of(s: Seq<u8>) -> Seq<TokenView> {
    tokens_from(s, 0)
}

pub proof fn lemma_skip_spaces_bounds(s: Seq<u8>, i: int)
    ensures
        i <= skip_spaces(s, i),
        i <= s.len() ==> skip_spaces(s, i) <= s.len(),
        0 <= skip_spaces(s, i) < s.len() ==> !is_space(s[skip_spaces(s, i)]),
        forall|j: int| 0 <= i <= j < skip_spaces(s, i) ==> is_space(#[trigger] s[j]),
    decreases s.len() - i,
{
    if 0 <= i < s.len() && is_space(s[i]) {
        lemma_skip_spaces_bounds(s, i + 1);
    }
}

pub proof fn lemma_letters_end_bounds(s: Seq<u8>, i: int)
    ensures
        i <= letters_end(s, i),
        i <= s.len() ==> letters_end(s, i) <= s.len(),
        0 <= letters_end(s, i) < s.len() ==> !is_letter(s[letters_end(s, i)]),
        forall|j: int| 0 <= i <= j < letters_end(s, i) ==> is_letter(#[trigger] s[j]),
    decreases s.len() - i,
{
    if 0 <= i < s.len() && is_letter(s[i]) {
        lemma_letters_end_bounds(s, i + 1);
    }
}

pub proof fn lemma_digits_end_bounds(s: Seq<u8>, i: int)
    ensures
        i <= digits_end(s, i),
        i <= s.len() ==> digits_end(s, i) <= s.len(),
        0 <= digits_end(s, i) < s.len() ==> !is_digit(s[digits_end(s, i)]),
        forall|j: int| 0 <= i <= j < digits_end(s, i) ==> is_digit(#[trigger] s[j]),
    decreases s.len() - i,
{
    if 0 <= i < s.len() && is_digit(s[i]) {
        lemma_digits_end_bounds(s, i + 1);
    }
}

/// Every request moves the cursor forward. One that does not yield the end
/// marker stays within the input; from within the input, the end marker
/// leaves the cursor one past the end.
pub proof fn lemma_scan_progress(s: Seq<u8>, p: int)
    ensures
        p < scan(s, p).1,
        !(scan(s, p).0 is Eof) ==> scan(s, p).1 <= s.len(),
        scan(s, p).0 is Eof <==> skip_spaces(s, p) >= s.len(),
        p <= s.len() && scan(s, p).0 is Eof ==> scan(s, p).1 == s.len() + 1,
{
    let k = skip_spaces(s, p);
    lemma_skip_spaces_bounds(s, p);
    if k < s.len() {
        lemma_letters_end_bounds(s, k + 1);
        lemma_digits_end_bounds(s, k + 1);
    }
}

} // verus!
