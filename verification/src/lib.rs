//! A lexical re-indenter for SQL statements.
//!
//! The library tokenizes a raw statement into a fixed vocabulary of lexical
//! categories and re-emits the tokens with newlines and indentation chosen by
//! a small set of formatting rules keyed on token identity.

pub mod formatter;
pub mod lexer;
pub mod token;

use vstd::prelude::*;

verus! {

use crate::formatter::FormatError;
use crate::formatter::Formatter;
use crate::formatter::spec_format;
use crate::lexer::Lexer;
use crate::lexer::lemma_token_at_advances;
use crate::lexer::spec_tokenize;
use crate::lexer::spec_tokens_from;
use crate::token::SpecToken;
use crate::token::Token;

/// Runs the lexer over the whole input and collects every token before the
/// end-of-input sentinel.
pub fn tokenize(input: &str) -> (tokens: Vec<Token>)
    ensures
        tokens.deep_view() == spec_tokenize(input@),
{
    let mut lexer = Lexer::new(input);
    let mut tokens: Vec<Token> = Vec::new();
    loop
        invariant
            lexer.wf(),
            lexer.input@ == input@,
            tokens.deep_view() + spec_tokens_from(input@, lexer.position as int)
                == spec_tokenize(input@),
        decreases input@.len() - lexer.position,
    {
        let ghost pos = lexer.position as int;
        let ghost prefix = tokens.deep_view();
        let token = lexer.next_token();
        if token.is_eof() {
            proof {
                assert(spec_tokens_from(input@, pos) =~= Seq::<SpecToken>::empty());
                assert(tokens.deep_view() + spec_tokens_from(input@, pos)
                    =~= tokens.deep_view());
            }
            return tokens;
        }
        proof {
            lemma_token_at_advances(input@, pos);
        }
        tokens.push(token);
        proof {
            assert(tokens.deep_view() =~= prefix.push(token@));
            assert(prefix.push(token@) + spec_tokens_from(input@, lexer.position as int)
                =~= prefix + spec_tokens_from(input@, pos));
        }
    }
}

/// The whole pipeline: tokenizes the input and formats the token sequence.
pub fn format_sql(input: &str) -> (r: Result<String, FormatError>)
    ensures
        ({
            match spec_format(spec_tokenize(input@)) {
                Some(out) => r matches Ok(formatted) && formatted@ == out,
                None => r matches Err(e) && e == FormatError::UnbalancedParentheses,
            }
        }),
{
    let tokens = tokenize(input);
    proof {
        vstd::std_specs::vec::axiom_spec_len(&tokens);
    }
    let mut formatter = Formatter::new(tokens);
    formatter.format()
}

} // verus!
