use vstd::prelude::*;

verus! {

/// One lexical unit of the language.
#[derive(Debug, PartialEq, Eq)]
pub enum Token {
    Illegal,
    Eof,
    Ident(String),
    Int(String),
    Assign,
    Comma,
    Semicolon,
    Lparen,
    Rparen,
    Lsquirly,
    Rsquirly,
    Function,
    Let,
    True,
    False,
    If,
    Else,
    Return,
    Equal,
    NotEqual,
    LessThan,
    LessThanOrEqual,
    GreaterThan,
    GreaterThanOrEqual,
    Bang,
    Minus,
    Slash,
    Asterisk,
    Plus,
}

/// The mathematical value of a `Token`: the same variants, with the text of
/// identifiers and integer literals as a sequence of characters.
pub enum TokenView {
    Illegal,
    Eof,
    Ident(Seq<char>),
    Int(Seq<char>),
    Assign,
    Comma,
    Semicolon,
    Lparen,
    Rparen,
    Lsquirly,
    Rsquirly,
    Function,
    Let,
    True,
    False,
    If,
    Else,
    Return,
    Equal,
    NotEqual,
    LessThan,
    LessThanOrEqual,
    GreaterThan,
    GreaterThanOrEqual,
    Bang,
    Minus,
    Slash,
    Asterisk,
    Plus,
}

impl TokenView {
    /// Whether this is one of the keyword variants.
    pub open spec fn is_keyword(self) -> bool {
        match self {
            TokenView::Function | TokenView::Let | TokenView::True | TokenView::False
            | TokenView::If | TokenView::Else | TokenView::Return => true,
            _ => false,
        }
    }
}

impl View for Token {
    type V = TokenView;

    open spec fn view(&self) -> TokenView {
        match self {
            Token::Illegal => TokenView::Illegal,
            Token::Eof => TokenView::Eof,
            Token::Ident(s) => TokenView::Ident(s@),
            Token::Int(s) => TokenView::Int(s@),
            Token::Assign => TokenView::Assign,
            Token::Comma => TokenView::Comma,
            Token::Semicolon => TokenView::Semicolon,
            Token::Lparen => TokenView::Lparen,
            Token::Rparen => TokenView::Rparen,
            Token::Lsquirly => TokenView::Lsquirly,
            Token::Rsquirly => TokenView::Rsquirly,
            Token::Function => TokenView::Function,
            Token::Let => TokenView::Let,
            Token::True => TokenView::True,
            Token::False => TokenView::False,
            Token::If => TokenView::If,
            Token::Else => TokenView::Else,
            Token::Return => TokenView::Return,
            Token::Equal => TokenView::Equal,
            Token::NotEqual => TokenView::NotEqual,
            Token::LessThan => TokenView::LessThan,
            Token::LessThanOrEqual => TokenView::LessThanOrEqual,
            Token::GreaterThan => TokenView::GreaterThan,
            Token::GreaterThanOrEqual => TokenView::GreaterThanOrEqual,
            Token::Bang => TokenView::Bang,
            Token::Minus => TokenView::Minus,
            Token::Slash => TokenView::Slash,
            Token::Asterisk => TokenView::Asterisk,
            Token::Plus => TokenView::Plus,
        }
    }
}

} // verus!
