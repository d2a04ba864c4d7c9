//! The token vocabulary shared by the lexer and the formatter.

use vstd::prelude::*;

verus! {

/// Mathematical model of a token: payloads are character sequences.
pub enum SpecToken {
    Keyword(Seq<char>),
    Identifier(Seq<char>),
    Literal(Seq<char>),
    Operator(Seq<char>),
    Punctuation(char),
    Whitespace,
    Eof,
}

/// The characters a token contributes to formatted output.  Whitespace and
/// the end-of-input sentinel carry no text.
pub open spec fn spec_token_text(t: SpecToken) -> Seq<char> {
    match t {
        SpecToken::Keyword(s) => s,
        SpecToken::Identifier(s) => s,
        SpecToken::Literal(s) => s,
        SpecToken::Operator(s) => s,
        SpecToken::Punctuation(c) => seq![c],
        SpecToken::Whitespace => Seq::empty(),
        SpecToken::Eof => Seq::empty(),
    }
}

/// A classified lexical unit of a SQL statement.
///
/// - `Keyword`: a reserved word, with its text normalized to upper case.
/// - `Identifier`: an alphanumeric run starting with a letter that is not a
///   reserved word, or a single unrecognized character (a lenient fallback).
/// - `Literal`: a single-quoted string (delimiters included, the closing
///   quote only if present) or a run of decimal digits.
/// - `Operator`: a single arithmetic or comparison symbol.
/// - `Punctuation`: one of `,` `;` `(` `)`.
/// - `Whitespace`: a marker for one whitespace character; carries no text.
/// - `Eof`: the terminal sentinel, never part of a formatted sequence.
#[derive(Debug, PartialEq)]
pub enum Token {
    Keyword(String),
    Identifier(String),
    Literal(String),
    Operator(String),
    Punctuation(char),
    Whitespace,
    Eof,
}

impl View for Token {
    type V = SpecToken;

    open spec fn view(&self) -> SpecToken {
        match self {
            Token::Keyword(s) => SpecToken::Keyword(s@),
            Token::Identifier(s) => SpecToken::Identifier(s@),
            Token::Literal(s) => SpecToken::Literal(s@),
            Token::Operator(s) => SpecToken::Operator(s@),
            Token::Punctuation(c) => SpecToken::Punctuation(*c),
            Token::Whitespace => SpecToken::Whitespace,
            Token::Eof => SpecToken::Eof,
        }
    }
}

impl DeepView for Token {
    type V = SpecToken;

    open spec fn deep_view(&self) -> SpecToken {
        self.view()
    }
}

impl Clone for Token {
    fn clone(&self) -> (res: Self)
        ensures
            res@ == self@,
    {
        match self {
            Token::Keyword(s) => Token::Keyword(s.clone()),
            Token::Identifier(s) => Token::Identifier(s.clone()),
            Token::Literal(s) => Token::Literal(s.clone()),
            Token::Operator(s) => Token::Operator(s.clone()),
            Token::Punctuation(c) => Token::Punctuation(*c),
            Token::Whitespace => Token::Whitespace,
            Token::Eof => Token::Eof,
        }
    }
}

/// The token sequence with the whitespace markers removed.
pub open spec fn spec_nonws(ts: Seq<SpecToken>) -> Seq<SpecToken>
    decreases ts.len(),
{
    if ts.len() == 0 {
        Seq::empty()
    } else if ts[0] is Whitespace {
        spec_nonws(ts.drop_first())
    } else {
        seq![ts[0]] + spec_nonws(ts.drop_first())
    }
}

/// A sequence ending in a non-whitespace token keeps that token at the end
/// once the whitespace markers are removed.
pub proof fn lemma_nonws_last(ts: Seq<SpecToken>)
    requires
        ts.len() > 0,
        !(ts.last() is Whitespace),
    ensures
        spec_nonws(ts).len() > 0,
        spec_nonws(ts).last() == ts.last(),
    decreases ts.len(),
{
    let rest = ts.drop_first();
    if ts.len() == 1 {
        assert(spec_nonws(rest) =~= Seq::<SpecToken>::empty());
        assert((seq![ts[0]] + spec_nonws(rest)).last() == ts[0]);
    } else {
        assert(rest.last() == ts.last());
        lemma_nonws_last(rest);
        if !(ts[0] is Whitespace) {
            assert((seq![ts[0]] + spec_nonws(rest)).last() == spec_nonws(rest).last());
        }
    }
}

/// Relies on `String::push`: appends the given character to the end of the
/// string.
#[verifier::external_body]
pub(crate) fn push_char(s: &mut String, c: char)
    ensures
        final(s)@ == old(s)@.push(c),
{
    s.push(c)
}

impl Token {
    /// True for the whitespace marker, which the formatter drops.
    pub fn is_whitespace(&self) -> (b: bool)
        ensures
            b == (self@ is Whitespace),
    {
        match self {
            Token::Whitespace => true,
            _ => false,
        }
    }

    /// True for the end-of-input sentinel.
    pub fn is_eof(&self) -> (b: bool)
        ensures
            b == (self@ is Eof),
    {
        match self {
            Token::Eof => true,
            _ => false,
        }
    }
}

} // verus!
