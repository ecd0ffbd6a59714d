use monkey_lexer::lexer::Lexer;
use monkey_lexer::repl::Repl;
use monkey_lexer::token::Token;

fn all_tokens(input: &str) -> Vec<Token> {
    let mut lexer = Lexer::new(input.into());
    let mut out = Vec::new();
    loop {
        let token = lexer.next_token();
        let done = token == Token::Eof;
        out.push(token);
        if done {
            return out;
        }
        assert!(out.len() <= input.len() + 1, "scanner did not reach the end");
    }
}

fn ident(s: &str) -> Token {
    Token::Ident(s.into())
}

fn integer(s: &str) -> Token {
    Token::Int(s.into())
}

#[test]
fn test_next_token() {
    let input = "=+(){},;";
    let mut lexer = Lexer::new(input.into());
    let tokens = vec![
        Token::Assign,
        Token::Plus,
        Token::Lparen,
        Token::Rparen,
        Token::Lsquirly,
        Token::Rsquirly,
        Token::Comma,
        Token::Semicolon,
    ];

    for token in tokens {
        let next_token = lexer.next_token();
        assert_eq!(token, next_token);
    }
}

#[test]
fn test_next_token_two() {
    let input = r#"
            let five = 5;
            let ten = 10;

            let add = fn(x, y) {
                x + y;
            };

            let result = add(five, ten);
        "#;

    let mut lexer = Lexer::new(input.into());
    let tokens = vec![
        Token::Let,
        Token::Ident("five".into()),
        Token::Assign,
        Token::Int("5".into()),
        Token::Semicolon,
        Token::Let,
        Token::Ident("ten".into()),
        Token::Assign,
        Token::Int("10".into()),
        Token::Semicolon,
        Token::Let,
        Token::Ident("add".into()),
        Token::Assign,
        Token::Function,
        Token::Lparen,
        Token::Ident("x".into()),
        Token::Comma,
        Token::Ident("y".into()),
        Token::Rparen,
        Token::Lsquirly,
        Token::Ident("x".into()),
        Token::Plus,
        Token::Ident("y".into()),
        Token::Semicolon,
        Token::Rsquirly,
        Token::Semicolon,
        Token::Let,
        Token::Ident("result".into()),
        Token::Assign,
        Token::Ident("add".into()),
        Token::Lparen,
        Token::Ident("five".into()),
        Token::Comma,
        Token::Ident("ten".into()),
        Token::Rparen,
        Token::Semicolon,
        Token::Eof,
    ];

    for token in tokens {
        let next_token = lexer.next_token();
        assert_eq!(token, next_token);
    }
}

#[test]
fn test_next_token_three() {
    let input = r#"
            let five = 5;
            let ten = 10;

            let add = fn(x, y) {
              x + y;
            };

            let result = add(five, ten);
            !-/*5;
            5 < 10 > 5;
            5 == 10;
            5 != 10;
            5 >= 10;
            5 <= 10;
        "#;

    let mut lexer = Lexer::new(input.into());
    let tokens = vec![
        Token::Let,
        Token::Ident("five".into()),
        Token::Assign,
        Token::Int("5".into()),
        Token::Semicolon,
        Token::Let,
        Token::Ident("ten".into()),
        Token::Assign,
        Token::Int("10".into()),
        Token::Semicolon,
        Token::Let,
        Token::Ident("add".into()),
        Token::Assign,
        Token::Function,
        Token::Lparen,
        Token::Ident("x".into()),
        Token::Comma,
        Token::Ident("y".into()),
        Token::Rparen,
        Token::Lsquirly,
        Token::Ident("x".into()),
        Token::Plus,
        Token::Ident("y".into()),
        Token::Semicolon,
        Token::Rsquirly,
        Token::Semicolon,
        Token::Let,
        Token::Ident("result".into()),
        Token::Assign,
        Token::Ident("add".into()),
        Token::Lparen,
        Token::Ident("five".into()),
        Token::Comma,
        Token::Ident("ten".into()),
        Token::Rparen,
        Token::Semicolon,
        Token::Bang,
        Token::Minus,
        Token::Slash,
        Token::Asterisk,
        Token::Int("5".into()),
        Token::Semicolon,
        Token::Int("5".into()),
        Token::LessThan,
        Token::Int("10".into()),
        Token::GreaterThan,
        Token::Int("5".into()),
        Token::Semicolon,
        Token::Int("5".into()),
        Token::Equal,
        Token::Int("10".into()),
        Token::Semicolon,
        Token::Int("5".into()),
        Token::NotEqual,
        Token::Int("10".into()),
        Token::Semicolon,
        Token::Int("5".into()),
        Token::GreaterThanOrEqual,
        Token::Int("10".into()),
        Token::Semicolon,
        Token::Int("5".into()),
        Token::LessThanOrEqual,
        Token::Int("10".into()),
        Token::Semicolon,
        Token::Eof,
    ];

    for token in tokens {
        let next_token = lexer.next_token();
        assert_eq!(token, next_token);
    }
}

#[test]
fn punctuation_then_end() {
    assert_eq!(
        all_tokens("=+(){},;"),
        vec![
            Token::Assign,
            Token::Plus,
            Token::Lparen,
            Token::Rparen,
            Token::Lsquirly,
            Token::Rsquirly,
            Token::Comma,
            Token::Semicolon,
            Token::Eof,
        ]
    );
}

#[test]
fn let_statement() {
    assert_eq!(
        all_tokens("let five = 5;"),
        vec![Token::Let, ident("five"), Token::Assign, integer("5"), Token::Semicolon, Token::Eof]
    );
}

#[test]
fn comparison_operators() {
    assert_eq!(
        all_tokens("10 >= 5 <= 3"),
        vec![
            integer("10"),
            Token::GreaterThanOrEqual,
            integer("5"),
            Token::LessThanOrEqual,
            integer("3"),
            Token::Eof,
        ]
    );
}

#[test]
fn not_equal_slash_asterisk() {
    assert_eq!(
        all_tokens("!=/*"),
        vec![Token::NotEqual, Token::Slash, Token::Asterisk, Token::Eof]
    );
}

#[test]
fn unrecognized_byte_is_illegal() {
    assert_eq!(all_tokens("@"), vec![Token::Illegal, Token::Eof]);
    assert_eq!(all_tokens("a@1"), vec![ident("a"), Token::Illegal, integer("1"), Token::Eof]);
}

#[test]
fn empty_input() {
    assert_eq!(all_tokens(""), vec![Token::Eof]);
}

#[test]
fn end_marker_repeats() {
    let mut lexer = Lexer::new("x".into());
    assert_eq!(lexer.next_token(), ident("x"));
    for _ in 0..5 {
        assert_eq!(lexer.next_token(), Token::Eof);
    }
    let mut empty = Lexer::new(String::new());
    for _ in 0..3 {
        assert_eq!(empty.next_token(), Token::Eof);
    }
}

#[test]
fn same_input_same_tokens() {
    let input = "let add = fn(a, b) { a + b; }; add(1, 2) != 3";
    assert_eq!(all_tokens(input), all_tokens(input));
}

#[test]
fn keywords_and_identifiers() {
    assert_eq!(
        all_tokens("fn let true false if else return"),
        vec![
            Token::Function,
            Token::Let,
            Token::True,
            Token::False,
            Token::If,
            Token::Else,
            Token::Return,
            Token::Eof,
        ]
    );
    assert_eq!(
        all_tokens("fnx lets Return iff f"),
        vec![ident("fnx"), ident("lets"), ident("Return"), ident("iff"), ident("f"), Token::Eof]
    );
}

#[test]
fn two_byte_operators_are_one_token() {
    assert_eq!(
        all_tokens("a==b!=c<=d>=e"),
        vec![
            ident("a"),
            Token::Equal,
            ident("b"),
            Token::NotEqual,
            ident("c"),
            Token::LessThanOrEqual,
            ident("d"),
            Token::GreaterThanOrEqual,
            ident("e"),
            Token::Eof,
        ]
    );
    assert_eq!(all_tokens("= ="), vec![Token::Assign, Token::Assign, Token::Eof]);
    assert_eq!(all_tokens("!==="), vec![Token::NotEqual, Token::Equal, Token::Eof]);
}

#[test]
fn whitespace_between_tokens_is_ignored() {
    let tight = all_tokens("let x=add(1,y);");
    let loose = all_tokens("  let\tx \n=\r\nadd ( 1 ,\t y ) ;  \n");
    assert_eq!(tight, loose);
}

#[test]
fn form_feed_is_not_whitespace() {
    assert_eq!(all_tokens("a\x0cb"), vec![ident("a"), Token::Illegal, ident("b"), Token::Eof]);
}

#[test]
fn identifiers_stop_at_digits_and_underscores() {
    assert_eq!(all_tokens("x1"), vec![ident("x"), integer("1"), Token::Eof]);
    assert_eq!(all_tokens("_ab"), vec![ident("_ab"), Token::Eof]);
    assert_eq!(all_tokens("__"), vec![ident("_"), ident("_"), Token::Eof]);
    assert_eq!(all_tokens("a_b"), vec![ident("a"), ident("_b"), Token::Eof]);
}

#[test]
fn numbers_keep_their_digits() {
    assert_eq!(
        all_tokens("007 123456789012345678901234567890"),
        vec![integer("007"), integer("123456789012345678901234567890"), Token::Eof]
    );
}

#[test]
fn nul_and_non_ascii_bytes_are_illegal() {
    assert_eq!(all_tokens("a\0b"), vec![ident("a"), Token::Illegal, ident("b"), Token::Eof]);
    assert_eq!(all_tokens("é"), vec![Token::Illegal, Token::Illegal, Token::Eof]);
}

#[test]
fn cursor_primitives() {
    let mut lexer = Lexer::new("  ab12=".into());
    assert_eq!(lexer.peek_char(), b' ');
    lexer.skip_whitespace();
    assert_eq!(lexer.peek_char(), b'b');
    assert_eq!(lexer.read_identifier(), "ab");
    assert_eq!(lexer.read_number(), "12");
    assert_eq!(lexer.peek_char(), 0);
    lexer.read_char();
    assert_eq!(lexer.next_token(), Token::Eof);
}

#[test]
fn repl_line_tokens() {
    assert_eq!(
        Repl::tokenize("let five = 5;\n".into()),
        vec![Token::Let, ident("five"), Token::Assign, integer("5"), Token::Semicolon]
    );
    assert_eq!(Repl::tokenize(String::new()), Vec::<Token>::new());
}

#[test]
fn read_identifier_on_other_bytes_reads_nothing() {
    let mut lexer = Lexer::new("7x".into());
    assert_eq!(lexer.read_identifier(), "");
    assert_eq!(lexer.read_number(), "7");
    assert_eq!(lexer.read_number(), "");
    assert_eq!(lexer.read_identifier(), "x");
    assert_eq!(lexer.read_identifier(), "");
    assert_eq!(lexer.next_token(), Token::Eof);
}

#[test]
fn trailing_and_leading_whitespace_is_ignored() {
    assert_eq!(all_tokens("a+1"), all_tokens(" \n a+1 \t\r\n "));
}
