//! The computing part of the interactive loop: the tokens of one line.
use vstd::prelude::*;
use vstd::utf8::encode_utf8;
use crate::lexer::Lexer;
use crate::scanning::{lemma_scan_progress, tokens_of, tokens_from};
use crate::token::{Token, TokenView};

verus! {

/// The views of a sequence of tokens.
pub open spec fn token_views(ts: Seq<Token>) -> Seq<TokenView> {
    ts.map_values(|t: Token| t@)
}

/// The interactive loop, which prints the tokens of each line it reads.
pub struct Repl {}

impl Repl {
    /// The tokens of `line` that the loop prints: all that a fresh scanner
    /// yields before the end marker. The line's length must leave room for
    /// the cursor to pass its end.
    pub fn tokenize(line: String) -> (r: Vec<Token>)
        requires
            encode_utf8(line@).len() < usize::MAX - 1,
        ensures
            token_views(r@) == tokens_of(encode_utf8(line@)).drop_last(),
    {
        let ghost s = encode_utf8(line@);
        let mut lexer = Lexer::new(line);
        let mut tokens: Vec<Token> = Vec::new();
        loop
            invariant
                lexer.wf(),
                lexer@.input == s,
                s == encode_utf8(line@),
                s.len() < usize::MAX - 1,
                0 <= lexer@.position <= s.len(),
                tokens_of(s) == token_views(tokens@) + tokens_from(s, lexer@.position),
            decreases s.len() - lexer@.position,
        {
            let ghost p = lexer@.position;
            proof {
                lemma_scan_progress(s, p);
            }
            let token = lexer.next_token();
            if let Token::Eof = token {
                assert(token_views(tokens@) =~= tokens_of(s).drop_last());
                return tokens;
            }
            let ghost before = tokens@;
            tokens.push(token);
            assert(token_views(tokens@) =~= token_views(before) + seq![token@]);
            assert(tokens_of(s) =~= token_views(tokens@) + tokens_from(s, lexer@.position));
        }
    }
}

} // verus!
