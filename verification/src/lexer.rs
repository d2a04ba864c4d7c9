//! The tokenizer: turns a character sequence into classified tokens.
//!
//! The lexer never fails: every character sequence yields some token
//! sequence.  Unterminated string literals simply end at end of input, and
//! any unrecognized character becomes a single-character identifier.

use vstd::prelude::*;

verus! {

use crate::token::SpecToken;
use crate::token::Token;
use crate::token::push_char;

// ---------------------------------------------------------------------------
// Character classes
// ---------------------------------------------------------------------------

/// Space, tab, newline or carriage return.
pub open spec fn spec_is_whitespace_char(c: char) -> bool {
    c == ' ' || c == '\t' || c == '\n' || c == '\r'
}

/// One of `,` `;` `(` `)`.
pub open spec fn spec_is_punctuation_char(c: char) -> bool {
    c == ',' || c == ';' || c == '(' || c == ')'
}

/// A single-character arithmetic or comparison symbol.
pub open spec fn spec_is_operator_char(c: char) -> bool {
    c == '+' || c == '-' || c == '*' || c == '/' || c == '=' || c == '<' || c == '>'
}

/// What `char::is_alphabetic` returns beyond the ASCII range, where the
/// Unicode tables cannot be written out.
pub uninterp spec fn char_alpha_ext(c: char) -> bool;

/// What `char::is_alphanumeric` returns beyond the ASCII range.
pub uninterp spec fn char_alnum_ext(c: char) -> bool;

/// A letter, as `char::is_alphabetic` classifies it: within ASCII exactly
/// `a`-`z` and `A`-`Z`, beyond ASCII the Alphabetic property.
pub open spec fn spec_is_letter_char(c: char) -> bool {
    ('a' <= c && c <= 'z') || ('A' <= c && c <= 'Z') || ('\u{7f}' < c && char_alpha_ext(c))
}

/// An ASCII decimal digit: the only characters a numeric literal may hold.
pub open spec fn spec_is_digit_char(c: char) -> bool {
    '0' <= c && c <= '9'
}

/// A character that may continue an identifier or keyword, as
/// `char::is_alphanumeric` classifies it: within ASCII exactly the letters
/// and decimal digits, beyond ASCII the named property.
pub open spec fn spec_is_word_char(c: char) -> bool {
    ('a' <= c && c <= 'z') || ('A' <= c && c <= 'Z') || ('0' <= c && c <= '9') || ('\u{7f}' < c
        && char_alnum_ext(c))
}

fn is_whitespace_char(c: char) -> (b: bool)
    ensures
        b == spec_is_whitespace_char(c),
{
    c == ' ' || c == '\t' || c == '\n' || c == '\r'
}

fn is_punctuation_char(c: char) -> (b: bool)
    ensures
        b == spec_is_punctuation_char(c),
{
    c == ',' || c == ';' || c == '(' || c == ')'
}

fn is_operator_char(c: char) -> (b: bool)
    ensures
        b == spec_is_operator_char(c),
{
    c == '+' || c == '-' || c == '*' || c == '/' || c == '=' || c == '<' || c == '>'
}

/// Relies on `char::is_alphabetic`: within ASCII it holds of exactly the
/// letters; beyond ASCII it is the Alphabetic property of the character
/// alone, named `char_alpha_ext`.
#[verifier::external_body]
fn is_letter_char(c: char) -> (b: bool)
    ensures
        b == spec_is_letter_char(c),
        '\u{7f}' < c ==> b == char_alpha_ext(c),
{
    c.is_alphabetic()
}

fn is_digit_char(c: char) -> (b: bool)
    ensures
        b == spec_is_digit_char(c),
{
    '0' <= c && c <= '9'
}

/// Relies on `char::is_alphanumeric`: within ASCII it holds of exactly the
/// letters and decimal digits; beyond ASCII it depends on the character
/// alone and is named `char_alnum_ext`.
#[verifier::external_body]
fn is_word_char(c: char) -> (b: bool)
    ensures
        b == spec_is_word_char(c),
        '\u{7f}' < c ==> b == char_alnum_ext(c),
{
    c.is_alphanumeric()
}

// ---------------------------------------------------------------------------
// Reserved words
// ---------------------------------------------------------------------------

/// One character of a candidate word matches one character of a reserved
/// word: either exactly, or as the lower-case form of an upper-case letter.
pub open spec fn spec_ci_char_eq(c: char, u: char) -> bool {
    c == u || ('a' <= c && c <= 'z' && c as u32 - 32 == u as u32)
}

/// A word matches a reserved word case-insensitively.
pub open spec fn spec_ci_eq(w: Seq<char>, k: Seq<char>) -> bool {
    w.len() == k.len() && forall|i: int|
        0 <= i < w.len() ==> spec_ci_char_eq(#[trigger] w[i], k[i])
}

/// The fixed reserved-word set, in canonical upper-case form.
pub open spec fn spec_is_reserved_word(k: Seq<char>) -> bool {
    ||| k == "SELECT"@
    ||| k == "FROM"@
    ||| k == "WHERE"@
    ||| k == "AND"@
    ||| k == "OR"@
    ||| k == "INSERT"@
    ||| k == "INTO"@
    ||| k == "UPDATE"@
    ||| k == "SET"@
    ||| k == "DELETE"@
    ||| k == "JOIN"@
    ||| k == "LEFT"@
    ||| k == "RIGHT"@
    ||| k == "OUTER"@
    ||| k == "INNER"@
    ||| k == "ON"@
    ||| k == "GROUP"@
    ||| k == "BY"@
    ||| k == "ORDER"@
    ||| k == "HAVING"@
    ||| k == "AS"@
    ||| k == "CREATE"@
    ||| k == "TABLE"@
    ||| k == "DROP"@
    ||| k == "ALTER"@
}

/// Classifies a scanned word: a case-insensitive match against the reserved
/// set yields the keyword in upper case, anything else stays an identifier
/// with its original casing.
pub open spec fn spec_classify_word(w: Seq<char>) -> SpecToken {
    if spec_ci_eq(w, "SELECT"@) {
        SpecToken::Keyword("SELECT"@)
    } else if spec_ci_eq(w, "FROM"@) {
        SpecToken::Keyword("FROM"@)
    } else if spec_ci_eq(w, "WHERE"@) {
        SpecToken::Keyword("WHERE"@)
    } else if spec_ci_eq(w, "AND"@) {
        SpecToken::Keyword("AND"@)
    } else if spec_ci_eq(w, "OR"@) {
        SpecToken::Keyword("OR"@)
    } else if spec_ci_eq(w, "INSERT"@) {
        SpecToken::Keyword("INSERT"@)
    } else if spec_ci_eq(w, "INTO"@) {
        SpecToken::Keyword("INTO"@)
    } else if spec_ci_eq(w, "UPDATE"@) {
        SpecToken::Keyword("UPDATE"@)
    } else if spec_ci_eq(w, "SET"@) {
        SpecToken::Keyword("SET"@)
    } else if spec_ci_eq(w, "DELETE"@) {
        SpecToken::Keyword("DELETE"@)
    } else if spec_ci_eq(w, "JOIN"@) {
        SpecToken::Keyword("JOIN"@)
    } else if spec_ci_eq(w, "LEFT"@) {
        SpecToken::Keyword("LEFT"@)
    } else if spec_ci_eq(w, "RIGHT"@) {
        SpecToken::Keyword("RIGHT"@)
    } else if spec_ci_eq(w, "OUTER"@) {
        SpecToken::Keyword("OUTER"@)
    } else if spec_ci_eq(w, "INNER"@) {
        SpecToken::Keyword("INNER"@)
    } else if spec_ci_eq(w, "ON"@) {
        SpecToken::Keyword("ON"@)
    } else if spec_ci_eq(w, "GROUP"@) {
        SpecToken::Keyword("GROUP"@)
    } else if spec_ci_eq(w, "BY"@) {
        SpecToken::Keyword("BY"@)
    } else if spec_ci_eq(w, "ORDER"@) {
        SpecToken::Keyword("ORDER"@)
    } else if spec_ci_eq(w, "HAVING"@) {
        SpecToken::Keyword("HAVING"@)
    } else if spec_ci_eq(w, "AS"@) {
        SpecToken::Keyword("AS"@)
    } else if spec_ci_eq(w, "CREATE"@) {
        SpecToken::Keyword("CREATE"@)
    } else if spec_ci_eq(w, "TABLE"@) {
        SpecToken::Keyword("TABLE"@)
    } else if spec_ci_eq(w, "DROP"@) {
        SpecToken::Keyword("DROP"@)
    } else if spec_ci_eq(w, "ALTER"@) {
        SpecToken::Keyword("ALTER"@)
    } else {
        SpecToken::Identifier(w)
    }
}

/// A word is entirely upper-case ASCII letters.
pub open spec fn spec_upper_word(k: Seq<char>) -> bool {
    forall|i: int| 0 <= i < k.len() ==> 'A' <= #[trigger] k[i] && k[i] <= 'Z'
}

/// Every reserved word is non-empty and written in upper-case ASCII letters.
proof fn lemma_reserved_words_upper(k: Seq<char>)
    requires
        spec_is_reserved_word(k),
    ensures
        spec_upper_word(k),
        k.len() > 0,
{
    reveal_strlit("SELECT");
    reveal_strlit("FROM");
    reveal_strlit("WHERE");
    reveal_strlit("AND");
    reveal_strlit("OR");
    reveal_strlit("INSERT");
    reveal_strlit("INTO");
    reveal_strlit("UPDATE");
    reveal_strlit("SET");
    reveal_strlit("DELETE");
    reveal_strlit("JOIN");
    reveal_strlit("LEFT");
    reveal_strlit("RIGHT");
    reveal_strlit("OUTER");
    reveal_strlit("INNER");
    reveal_strlit("ON");
    reveal_strlit("GROUP");
    reveal_strlit("BY");
    reveal_strlit("ORDER");
    reveal_strlit("HAVING");
    reveal_strlit("AS");
    reveal_strlit("CREATE");
    reveal_strlit("TABLE");
    reveal_strlit("DROP");
    reveal_strlit("ALTER");
    assert(spec_upper_word("SELECT"@));
    assert(spec_upper_word("FROM"@));
    assert(spec_upper_word("WHERE"@));
    assert(spec_upper_word("AND"@));
    assert(spec_upper_word("OR"@));
    assert(spec_upper_word("INSERT"@));
    assert(spec_upper_word("INTO"@));
    assert(spec_upper_word("UPDATE"@));
    assert(spec_upper_word("SET"@));
    assert(spec_upper_word("DELETE"@));
    assert(spec_upper_word("JOIN"@));
    assert(spec_upper_word("LEFT"@));
    assert(spec_upper_word("RIGHT"@));
    assert(spec_upper_word("OUTER"@));
    assert(spec_upper_word("INNER"@));
    assert(spec_upper_word("ON"@));
    assert(spec_upper_word("GROUP"@));
    assert(spec_upper_word("BY"@));
    assert(spec_upper_word("ORDER"@));
    assert(spec_upper_word("HAVING"@));
    assert(spec_upper_word("AS"@));
    assert(spec_upper_word("CREATE"@));
    assert(spec_upper_word("TABLE"@));
    assert(spec_upper_word("DROP"@));
    assert(spec_upper_word("ALTER"@));
}

/// A word matches at most one upper-case reserved word case-insensitively.
proof fn lemma_ci_eq_same_keyword(w: Seq<char>, k1: Seq<char>, k2: Seq<char>)
    requires
        spec_ci_eq(w, k1),
        spec_ci_eq(w, k2),
        spec_upper_word(k1),
        spec_upper_word(k2),
    ensures
        k1 == k2,
{
    assert forall|i: int| 0 <= i < k1.len() implies k1[i] == k2[i] by {
        assert(spec_ci_char_eq(w[i], k1[i]));
        assert(spec_ci_char_eq(w[i], k2[i]));
    }
    assert(k1 =~= k2);
}

/// Law: keyword case normalization.  Whatever the casing of a reserved
/// word, the classifier emits the keyword with its text in the canonical
/// upper-case form.
pub proof fn lemma_keyword_case_normalization(w: Seq<char>, k: Seq<char>)
    requires
        spec_is_reserved_word(k),
        spec_ci_eq(w, k),
    ensures
        spec_classify_word(w) == SpecToken::Keyword(k),
{
    lemma_reserved_words_upper(k);
    if spec_ci_eq(w, "SELECT"@) {
        lemma_reserved_words_upper("SELECT"@);
        lemma_ci_eq_same_keyword(w, "SELECT"@, k);
    } else if spec_ci_eq(w, "FROM"@) {
        lemma_reserved_words_upper("FROM"@);
        lemma_ci_eq_same_keyword(w, "FROM"@, k);
    } else if spec_ci_eq(w, "WHERE"@) {
        lemma_reserved_words_upper("WHERE"@);
        lemma_ci_eq_same_keyword(w, "WHERE"@, k);
    } else if spec_ci_eq(w, "AND"@) {
        lemma_reserved_words_upper("AND"@);
        lemma_ci_eq_same_keyword(w, "AND"@, k);
    } else if spec_ci_eq(w, "OR"@) {
        lemma_reserved_words_upper("OR"@);
        lemma_ci_eq_same_keyword(w, "OR"@, k);
    } else if spec_ci_eq(w, "INSERT"@) {
        lemma_reserved_words_upper("INSERT"@);
        lemma_ci_eq_same_keyword(w, "INSERT"@, k);
    } else if spec_ci_eq(w, "INTO"@) {
        lemma_reserved_words_upper("INTO"@);
        lemma_ci_eq_same_keyword(w, "INTO"@, k);
    } else if spec_ci_eq(w, "UPDATE"@) {
        lemma_reserved_words_upper("UPDATE"@);
        lemma_ci_eq_same_keyword(w, "UPDATE"@, k);
    } else if spec_ci_eq(w, "SET"@) {
        lemma_reserved_words_upper("SET"@);
        lemma_ci_eq_same_keyword(w, "SET"@, k);
    } else if spec_ci_eq(w, "DELETE"@) {
        lemma_reserved_words_upper("DELETE"@);
        lemma_ci_eq_same_keyword(w, "DELETE"@, k);
    } else if spec_ci_eq(w, "JOIN"@) {
        lemma_reserved_words_upper("JOIN"@);
        lemma_ci_eq_same_keyword(w, "JOIN"@, k);
    } else if spec_ci_eq(w, "LEFT"@) {
        lemma_reserved_words_upper("LEFT"@);
        lemma_ci_eq_same_keyword(w, "LEFT"@, k);
    } else if spec_ci_eq(w, "RIGHT"@) {
        lemma_reserved_words_upper("RIGHT"@);
        lemma_ci_eq_same_keyword(w, "RIGHT"@, k);
    } else if spec_ci_eq(w, "OUTER"@) {
        lemma_reserved_words_upper("OUTER"@);
        lemma_ci_eq_same_keyword(w, "OUTER"@, k);
    } else if spec_ci_eq(w, "INNER"@) {
        lemma_reserved_words_upper("INNER"@);
        lemma_ci_eq_same_keyword(w, "INNER"@, k);
    } else if spec_ci_eq(w, "ON"@) {
        lemma_reserved_words_upper("ON"@);
        lemma_ci_eq_same_keyword(w, "ON"@, k);
    } else if spec_ci_eq(w, "GROUP"@) {
        lemma_reserved_words_upper("GROUP"@);
        lemma_ci_eq_same_keyword(w, "GROUP"@, k);
    } else if spec_ci_eq(w, "BY"@) {
        lemma_reserved_words_upper("BY"@);
        lemma_ci_eq_same_keyword(w, "BY"@, k);
    } else if spec_ci_eq(w, "ORDER"@) {
        lemma_reserved_words_upper("ORDER"@);
        lemma_ci_eq_same_keyword(w, "ORDER"@, k);
    } else if spec_ci_eq(w, "HAVING"@) {
        lemma_reserved_words_upper("HAVING"@);
        lemma_ci_eq_same_keyword(w, "HAVING"@, k);
    } else if spec_ci_eq(w, "AS"@) {
        lemma_reserved_words_upper("AS"@);
        lemma_ci_eq_same_keyword(w, "AS"@, k);
    } else if spec_ci_eq(w, "CREATE"@) {
        lemma_reserved_words_upper("CREATE"@);
        lemma_ci_eq_same_keyword(w, "CREATE"@, k);
    } else if spec_ci_eq(w, "TABLE"@) {
        lemma_reserved_words_upper("TABLE"@);
        lemma_ci_eq_same_keyword(w, "TABLE"@, k);
    } else if spec_ci_eq(w, "DROP"@) {
        lemma_reserved_words_upper("DROP"@);
        lemma_ci_eq_same_keyword(w, "DROP"@, k);
    } else if spec_ci_eq(w, "ALTER"@) {
        lemma_reserved_words_upper("ALTER"@);
        lemma_ci_eq_same_keyword(w, "ALTER"@, k);
    }
}

/// Case-insensitive comparison of a scanned word against one reserved word.
#[verifier::loop_isolation(false)]
fn ci_match(w: &String, k: &str) -> (b: bool)
    ensures
        b == spec_ci_eq(w@, k@),
{
    let wlen = w.as_str().unicode_len();
    let klen = k.unicode_len();
    if wlen != klen {
        return false;
    }
    let mut i: usize = 0;
    while i < wlen
        invariant
            i <= wlen,
            wlen == w@.len(),
            wlen == k@.len(),
            forall|j: int| 0 <= j < i ==> spec_ci_char_eq(#[trigger] w@[j], k@[j]),
        decreases wlen - i,
    {
        let c = w.as_str().get_char(i);
        let u = k.get_char(i);
        let cu = c as u32;
        let uu = u as u32;
        let matches_here = cu == uu || (97 <= cu && cu <= 122 && cu - 32 == uu);
        if !matches_here {
            assert(!spec_ci_char_eq(w@[i as int], k@[i as int]));
            return false;
        }
        i += 1;
    }
    true
}

/// Classifies a scanned word, emitting keywords in canonical upper case.
fn classify_word(w: &String) -> (t: Token)
    ensures
        t@ == spec_classify_word(w@),
{
    if ci_match(w, "SELECT") {
        Token::Keyword(String::from_str("SELECT"))
    } else if ci_match(w, "FROM") {
        Token::Keyword(String::from_str("FROM"))
    } else if ci_match(w, "WHERE") {
        Token::Keyword(String::from_str("WHERE"))
    } else if ci_match(w, "AND") {
        Token::Keyword(String::from_str("AND"))
    } else if ci_match(w, "OR") {
        Token::Keyword(String::from_str("OR"))
    } else if ci_match(w, "INSERT") {
        Token::Keyword(String::from_str("INSERT"))
    } else if ci_match(w, "INTO") {
        Token::Keyword(String::from_str("INTO"))
    } else if ci_match(w, "UPDATE") {
        Token::Keyword(String::from_str("UPDATE"))
    } else if ci_match(w, "SET") {
        Token::Keyword(String::from_str("SET"))
    } else if ci_match(w, "DELETE") {
        Token::Keyword(String::from_str("DELETE"))
    } else if ci_match(w, "JOIN") {
        Token::Keyword(String::from_str("JOIN"))
    } else if ci_match(w, "LEFT") {
        Token::Keyword(String::from_str("LEFT"))
    } else if ci_match(w, "RIGHT") {
        Token::Keyword(String::from_str("RIGHT"))
    } else if ci_match(w, "OUTER") {
        Token::Keyword(String::from_str("OUTER"))
    } else if ci_match(w, "INNER") {
        Token::Keyword(String::from_str("INNER"))
    } else if ci_match(w, "ON") {
        Token::Keyword(String::from_str("ON"))
    } else if ci_match(w, "GROUP") {
        Token::Keyword(String::from_str("GROUP"))
    } else if ci_match(w, "BY") {
        Token::Keyword(String::from_str("BY"))
    } else if ci_match(w, "ORDER") {
        Token::Keyword(String::from_str("ORDER"))
    } else if ci_match(w, "HAVING") {
        Token::Keyword(String::from_str("HAVING"))
    } else if ci_match(w, "AS") {
        Token::Keyword(String::from_str("AS"))
    } else if ci_match(w, "CREATE") {
        Token::Keyword(String::from_str("CREATE"))
    } else if ci_match(w, "TABLE") {
        Token::Keyword(String::from_str("TABLE"))
    } else if ci_match(w, "DROP") {
        Token::Keyword(String::from_str("DROP"))
    } else if ci_match(w, "ALTER") {
        Token::Keyword(String::from_str("ALTER"))
    } else {
        Token::Identifier(w.clone())
    }
}

// ---------------------------------------------------------------------------
// Scans
// ---------------------------------------------------------------------------

/// First index at or after `i` whose character cannot continue a word.
pub open spec fn spec_word_end(s: Seq<char>, i: int) -> int
    decreases s.len() - i when 0 <= i <= s.len()
{
    if i < s.len() && spec_is_word_char(s[i]) {
        spec_word_end(s, i + 1)
    } else {
        i
    }
}

/// First index at or after `i` whose character is not a decimal digit.
pub open spec fn spec_digits_end(s: Seq<char>, i: int) -> int
    decreases s.len() - i when 0 <= i <= s.len()
{
    if i < s.len() && spec_is_digit_char(s[i]) {
        spec_digits_end(s, i + 1)
    } else {
        i
    }
}

/// First index at or after `i` holding a single quote, or the length of the
/// sequence if none follows.
pub open spec fn spec_quote_end(s: Seq<char>, i: int) -> int
    decreases s.len() - i when 0 <= i <= s.len()
{
    if i < s.len() && s[i] != '\'' {
        spec_quote_end(s, i + 1)
    } else {
        i
    }
}

pub proof fn lemma_word_end_bounds(s: Seq<char>, i: int)
    requires
        0 <= i <= s.len(),
    ensures
        i <= spec_word_end(s, i) <= s.len(),
    decreases s.len() - i,
{
    if i < s.len() && spec_is_word_char(s[i]) {
        lemma_word_end_bounds(s, i + 1);
    }
}

pub proof fn lemma_digits_end_bounds(s: Seq<char>, i: int)
    requires
        0 <= i <= s.len(),
    ensures
        i <= spec_digits_end(s, i) <= s.len(),
    decreases s.len() - i,
{
    if i < s.len() && spec_is_digit_char(s[i]) {
        lemma_digits_end_bounds(s, i + 1);
    }
}

pub proof fn lemma_quote_end_bounds(s: Seq<char>, i: int)
    requires
        0 <= i <= s.len(),
    ensures
        i <= spec_quote_end(s, i) <= s.len(),
    decreases s.len() - i,
{
    if i < s.len() && s[i] != '\'' {
        lemma_quote_end_bounds(s, i + 1);
    }
}

// ---------------------------------------------------------------------------
// One token
// ---------------------------------------------------------------------------

/// The string literal starting after an already consumed opening quote at
/// `pos - 1`: its text runs to the next quote, which is included when
/// present, and to end of input otherwise.
pub open spec fn spec_string_literal_at(s: Seq<char>, pos: int) -> (SpecToken, int)
    recommends
        0 <= pos <= s.len(),
{
    let close = spec_quote_end(s, pos);
    if close < s.len() {
        (SpecToken::Literal(seq!['\''] + s.subrange(pos, close + 1)), close + 1)
    } else {
        (SpecToken::Literal(seq!['\''] + s.subrange(pos, close)), close)
    }
}

/// The token starting at `pos`, together with the position just past it.
pub open spec fn spec_token_at(s: Seq<char>, pos: int) -> (SpecToken, int)
    recommends
        0 <= pos < s.len(),
{
    let c = s[pos];
    if spec_is_whitespace_char(c) {
        (SpecToken::Whitespace, pos + 1)
    } else if spec_is_punctuation_char(c) {
        (SpecToken::Punctuation(c), pos + 1)
    } else if spec_is_operator_char(c) {
        (SpecToken::Operator(seq![c]), pos + 1)
    } else if c == '\'' {
        spec_string_literal_at(s, pos + 1)
    } else if spec_is_letter_char(c) {
        let end = spec_word_end(s, pos + 1);
        (spec_classify_word(s.subrange(pos, end)), end)
    } else if spec_is_digit_char(c) {
        let end = spec_digits_end(s, pos + 1);
        (SpecToken::Literal(s.subrange(pos, end)), end)
    } else {
        (SpecToken::Identifier(seq![c]), pos + 1)
    }
}

/// Every token consumes at least one character and never runs past the end.
pub proof fn lemma_token_at_advances(s: Seq<char>, pos: int)
    requires
        0 <= pos < s.len(),
    ensures
        pos < spec_token_at(s, pos).1 <= s.len(),
{
    lemma_word_end_bounds(s, pos + 1);
    lemma_digits_end_bounds(s, pos + 1);
    lemma_quote_end_bounds(s, pos + 1);
}

/// The token sequence of the input from `pos` on, excluding the terminal
/// end-of-input sentinel.
pub open spec fn spec_tokens_from(s: Seq<char>, pos: int) -> Seq<SpecToken>
    decreases s.len() - pos when 0 <= pos via spec_tokens_from_decreases
{
    if pos >= s.len() {
        Seq::empty()
    } else {
        seq![spec_token_at(s, pos).0] + spec_tokens_from(s, spec_token_at(s, pos).1)
    }
}

#[via_fn]
proof fn spec_tokens_from_decreases(s: Seq<char>, pos: int) {
    if 0 <= pos < s.len() {
        lemma_token_at_advances(s, pos);
    }
}

/// The complete token sequence of the input.
pub open spec fn spec_tokenize(s: Seq<char>) -> Seq<SpecToken> {
    spec_tokens_from(s, 0)
}

// ---------------------------------------------------------------------------
// Token preservation
// ---------------------------------------------------------------------------

/// The characters a scan consumed are of the scanned class, and the scan
/// stopped at the first character that is not.
proof fn lemma_word_end_chars(s: Seq<char>, i: int)
    requires
        0 <= i <= s.len(),
    ensures
        forall|m: int| i <= m < spec_word_end(s, i) ==> spec_is_word_char(#[trigger] s[m]),
        spec_word_end(s, i) < s.len() ==> !spec_is_word_char(s[spec_word_end(s, i)]),
    decreases s.len() - i,
{
    lemma_word_end_bounds(s, i);
    if i < s.len() && spec_is_word_char(s[i]) {
        lemma_word_end_chars(s, i + 1);
    }
}

proof fn lemma_digits_end_chars(s: Seq<char>, i: int)
    requires
        0 <= i <= s.len(),
    ensures
        forall|m: int| i <= m < spec_digits_end(s, i) ==> spec_is_digit_char(#[trigger] s[m]),
        spec_digits_end(s, i) < s.len() ==> !spec_is_digit_char(s[spec_digits_end(s, i)]),
    decreases s.len() - i,
{
    lemma_digits_end_bounds(s, i);
    if i < s.len() && spec_is_digit_char(s[i]) {
        lemma_digits_end_chars(s, i + 1);
    }
}

proof fn lemma_quote_end_chars(s: Seq<char>, i: int)
    requires
        0 <= i <= s.len(),
    ensures
        forall|m: int| i <= m < spec_quote_end(s, i) ==> #[trigger] s[m] != '\'',
        spec_quote_end(s, i) < s.len() ==> s[spec_quote_end(s, i)] == '\'',
    decreases s.len() - i,
{
    lemma_quote_end_bounds(s, i);
    if i < s.len() && s[i] != '\'' {
        lemma_quote_end_chars(s, i + 1);
    }
}

/// A scan over characters of its class, stopped by the boundary, ends
/// exactly at that boundary.
proof fn lemma_word_end_determined(s: Seq<char>, i: int, j: int)
    requires
        0 <= i <= j <= s.len(),
        forall|m: int| i <= m < j ==> spec_is_word_char(#[trigger] s[m]),
        j == s.len() || !spec_is_word_char(s[j]),
    ensures
        spec_word_end(s, i) == j,
    decreases j - i,
{
    if i < j {
        lemma_word_end_determined(s, i + 1, j);
    }
}

proof fn lemma_digits_end_determined(s: Seq<char>, i: int, j: int)
    requires
        0 <= i <= j <= s.len(),
        forall|m: int| i <= m < j ==> spec_is_digit_char(#[trigger] s[m]),
        j == s.len() || !spec_is_digit_char(s[j]),
    ensures
        spec_digits_end(s, i) == j,
    decreases j - i,
{
    if i < j {
        lemma_digits_end_determined(s, i + 1, j);
    }
}

proof fn lemma_quote_end_determined(s: Seq<char>, i: int, j: int)
    requires
        0 <= i <= j <= s.len(),
        forall|m: int| i <= m < j ==> #[trigger] s[m] != '\'',
        j == s.len() || s[j] == '\'',
    ensures
        spec_quote_end(s, i) == j,
    decreases j - i,
{
    if i < j {
        lemma_quote_end_determined(s, i + 1, j);
    }
}

/// Shape of a token exactly as the tokenizer produces it: keywords are
/// reserved words, identifiers are unreserved words or the single-character
/// fallback, literals are digit runs or quoted strings, operators and
/// punctuation are their single characters.
pub open spec fn spec_wf_token(t: SpecToken) -> bool {
    match t {
        SpecToken::Keyword(w) => spec_is_reserved_word(w),
        SpecToken::Identifier(w) => {
            ||| {
                &&& w.len() > 0
                &&& spec_is_letter_char(w[0])
                &&& (forall|i: int| 1 <= i < w.len() ==> spec_is_word_char(#[trigger] w[i]))
                &&& spec_classify_word(w) == SpecToken::Identifier(w)
            }
            ||| {
                &&& w.len() == 1
                &&& !spec_is_whitespace_char(w[0])
                &&& !spec_is_punctuation_char(w[0])
                &&& !spec_is_operator_char(w[0])
                &&& w[0] != '\''
                &&& !spec_is_letter_char(w[0])
                &&& !spec_is_digit_char(w[0])
            }
        },
        SpecToken::Literal(w) => {
            ||| {
                &&& w.len() > 0
                &&& (forall|i: int| 0 <= i < w.len() ==> spec_is_digit_char(#[trigger] w[i]))
            }
            ||| {
                &&& w.len() >= 2
                &&& w[0] == '\''
                &&& w.last() == '\''
                &&& (forall|i: int| 1 <= i < w.len() - 1 ==> #[trigger] w[i] != '\'')
            }
            ||| {
                &&& w.len() >= 1
                &&& w[0] == '\''
                &&& (forall|i: int| 1 <= i < w.len() ==> #[trigger] w[i] != '\'')
            }
        },
        SpecToken::Operator(w) => w.len() == 1 && spec_is_operator_char(w[0]),
        SpecToken::Punctuation(c) => spec_is_punctuation_char(c),
        SpecToken::Whitespace => true,
        SpecToken::Eof => false,
    }
}

/// Every token the tokenizer yields has the shape above.
pub proof fn lemma_token_at_wf(s: Seq<char>, pos: int)
    requires
        0 <= pos < s.len(),
    ensures
        spec_wf_token(spec_token_at(s, pos).0),
{
    let c = s[pos];
    if spec_is_whitespace_char(c) || spec_is_punctuation_char(c) || spec_is_operator_char(c) {
    } else if c == '\'' {
        let close = spec_quote_end(s, pos + 1);
        lemma_quote_end_bounds(s, pos + 1);
        lemma_quote_end_chars(s, pos + 1);
        if close < s.len() {
            let w = seq!['\''] + s.subrange(pos + 1, close + 1);
            assert(w.last() == s[close]);
            assert(forall|i: int| 1 <= i < w.len() - 1 ==> #[trigger] w[i] != '\'');
        } else {
            let w = seq!['\''] + s.subrange(pos + 1, close);
            assert(forall|i: int| 1 <= i < w.len() ==> #[trigger] w[i] != '\'');
        }
    } else if spec_is_letter_char(c) {
        let end = spec_word_end(s, pos + 1);
        lemma_word_end_bounds(s, pos + 1);
        lemma_word_end_chars(s, pos + 1);
        let w = s.subrange(pos, end);
        assert(w[0] == c);
        assert(forall|i: int| 1 <= i < w.len() ==> spec_is_word_char(#[trigger] w[i]));
        if !(spec_classify_word(w) is Identifier) {
            assert(spec_is_reserved_word(spec_classify_word(w)->Keyword_0));
        }
    } else if spec_is_digit_char(c) {
        let end = spec_digits_end(s, pos + 1);
        lemma_digits_end_bounds(s, pos + 1);
        lemma_digits_end_chars(s, pos + 1);
        let w = s.subrange(pos, end);
        assert(forall|i: int| 0 <= i < w.len() ==> spec_is_digit_char(#[trigger] w[i]));
    } else {
    }
}

/// A string literal whose closing quote is missing: its text runs to the
/// end of the input, so nothing may follow it.
pub open spec fn spec_unterminated_literal(t: SpecToken) -> bool {
    &&& t matches SpecToken::Literal(w)
    &&& w.len() >= 1
    &&& w[0] == '\''
    &&& (w.len() == 1 || w.last() != '\'')
}

/// A character that may stand right after the text of a token without
/// changing how that text reads back: nothing may extend a word or a digit
/// run, and nothing at all may follow an unterminated string literal.
pub open spec fn spec_safe_follow(t: SpecToken, c: char) -> bool {
    match t {
        SpecToken::Keyword(w) => !spec_is_word_char(c),
        SpecToken::Identifier(w) => (w.len() > 0 && spec_is_letter_char(w[0]))
            ==> !spec_is_word_char(c),
        SpecToken::Literal(w) => if w.len() > 0 && spec_is_digit_char(w[0]) {
            !spec_is_digit_char(c)
        } else {
            !spec_unterminated_literal(t)
        },
        _ => true,
    }
}

/// The text of a non-whitespace token is non-empty, starts with a
/// non-whitespace character, and, unless the token is an unterminated
/// string literal, ends with one too.
pub proof fn lemma_wf_token_text(t: SpecToken)
    requires
        spec_wf_token(t),
        !(t is Whitespace),
        !(t is Eof),
    ensures
        crate::token::spec_token_text(t).len() > 0,
        !spec_is_whitespace_char(crate::token::spec_token_text(t)[0]),
        !spec_unterminated_literal(t) ==> !spec_is_whitespace_char(
            crate::token::spec_token_text(t).last(),
        ),
{
    match t {
        SpecToken::Keyword(w) => lemma_reserved_words_upper(w),
        _ => (),
    }
}

/// Reading a token's text in place: when the characters at `p` are exactly
/// the text of a token the tokenizer can produce, and the character after
/// them cannot extend it, the tokenizer reads back exactly that token.
pub proof fn lemma_token_at_text(s: Seq<char>, p: int, t: SpecToken)
    requires
        spec_wf_token(t),
        !(t is Whitespace),
        !(t is Eof),
        0 <= p,
        p + crate::token::spec_token_text(t).len() <= s.len(),
        s.subrange(p, p + crate::token::spec_token_text(t).len() as int)
            == crate::token::spec_token_text(t),
        p + crate::token::spec_token_text(t).len() == s.len() || spec_safe_follow(
            t,
            s[p + crate::token::spec_token_text(t).len() as int],
        ),
    ensures
        spec_token_at(s, p).0 == t,
        spec_token_at(s, p).1 == p + crate::token::spec_token_text(t).len(),
{
    let w = crate::token::spec_token_text(t);
    let e = p + w.len() as int;
    lemma_wf_token_text(t);
    assert(s.subrange(p, e)[0] == w[0]);
    assert(s[p] == w[0]);
    match t {
        SpecToken::Keyword(kw) => {
            lemma_reserved_words_upper(kw);
            assert(spec_is_letter_char(s[p]));
            assert forall|m: int| p + 1 <= m < e implies spec_is_word_char(s[m]) by {
                assert(s.subrange(p, e)[m - p] == w[m - p]);
            }
            lemma_word_end_determined(s, p + 1, e);
            assert(s.subrange(p, e) == kw);
            assert(spec_ci_eq(kw, kw));
            lemma_keyword_case_normalization(kw, kw);
        },
        SpecToken::Identifier(iw) => {
            if iw.len() > 0 && spec_is_letter_char(iw[0]) {
                assert forall|m: int| p + 1 <= m < e implies spec_is_word_char(s[m]) by {
                    assert(s.subrange(p, e)[m - p] == w[m - p]);
                }
                lemma_word_end_determined(s, p + 1, e);
                assert(s.subrange(p, e) == iw);
            } else {
                assert(iw.len() == 1);
                assert(seq![s[p]] =~= iw);
            }
        },
        SpecToken::Literal(lw) => {
            if lw.len() > 0 && spec_is_digit_char(lw[0]) {
                assert forall|m: int| p + 1 <= m < e implies spec_is_digit_char(s[m]) by {
                    assert(s.subrange(p, e)[m - p] == w[m - p]);
                }
                lemma_digits_end_determined(s, p + 1, e);
                assert(s.subrange(p, e) == lw);
            } else if lw.len() >= 2 && lw[0] == '\'' && lw.last() == '\''
                && (forall|i: int| 1 <= i < lw.len() - 1 ==> #[trigger] lw[i] != '\'') {
                assert forall|m: int| p + 1 <= m < e - 1 implies s[m] != '\'' by {
                    assert(s.subrange(p, e)[m - p] == w[m - p]);
                }
                assert(s.subrange(p, e)[w.len() - 1] == w[w.len() - 1]);
                assert(s[e - 1] == '\'');
                lemma_quote_end_determined(s, p + 1, e - 1);
                assert(seq!['\''] + s.subrange(p + 1, e) =~= lw);
            } else {
                assert(lw[0] == '\''
                    && (forall|i: int| 1 <= i < lw.len() ==> #[trigger] lw[i] != '\''));
                assert(spec_unterminated_literal(t));
                if e < s.len() {
                    assert(spec_safe_follow(t, s[e]));
                    assert(false);
                }
                assert forall|m: int| p + 1 <= m < e implies s[m] != '\'' by {
                    assert(s.subrange(p, e)[m - p] == w[m - p]);
                }
                lemma_quote_end_determined(s, p + 1, e);
                assert(seq!['\''] + s.subrange(p + 1, e) =~= lw);
            }
        },
        SpecToken::Operator(ow) => {
            assert(seq![s[p]] =~= ow);
        },
        SpecToken::Punctuation(c) => {
        },
        _ => {
        },
    }
}

/// Law: token preservation, for one token.  Re-tokenizing the text of any
/// single token the tokenizer can produce yields exactly that token again:
/// in particular upper-cased keywords, identifiers, literals, operators and
/// punctuation all re-read as themselves.
pub proof fn lemma_token_text_retokenizes(t: SpecToken)
    requires
        spec_wf_token(t),
        !(t is Whitespace),
        !(t is Eof),
    ensures
        spec_tokenize(crate::token::spec_token_text(t)) == seq![t],
{
    let s = crate::token::spec_token_text(t);
    lemma_wf_token_text(t);
    assert(s.subrange(0, s.len() as int) =~= s);
    lemma_token_at_text(s, 0, t);
    assert(spec_tokens_from(s, s.len() as int) =~= Seq::<SpecToken>::empty());
    assert(seq![t] + Seq::<SpecToken>::empty() =~= seq![t]);
}

/// Skipping over a run of whitespace characters drops only whitespace
/// tokens.
pub proof fn lemma_ws_run_relex(s: Seq<char>, p: int, q: int)
    requires
        0 <= p <= q <= s.len(),
        forall|j: int| p <= j < q ==> spec_is_whitespace_char(#[trigger] s[j]),
    ensures
        crate::token::spec_nonws(spec_tokens_from(s, p)) == crate::token::spec_nonws(
            spec_tokens_from(s, q),
        ),
    decreases q - p,
{
    if p < q {
        assert(spec_token_at(s, p) == (SpecToken::Whitespace, p + 1));
        let rest = spec_tokens_from(s, p + 1);
        assert(spec_tokens_from(s, p) == seq![SpecToken::Whitespace] + rest);
        assert((seq![SpecToken::Whitespace] + rest).drop_first() =~= rest);
        lemma_ws_run_relex(s, p + 1, q);
    }
}

/// Every token of a tokenization is well-formed and is not the sentinel,
/// and only the very last one can be an unterminated string literal.
pub proof fn lemma_tokens_from_wf(s: Seq<char>, pos: int)
    requires
        0 <= pos,
    ensures
        forall|i: int| 0 <= i < spec_tokens_from(s, pos).len() ==> spec_wf_token(
            #[trigger] spec_tokens_from(s, pos)[i],
        ) && !(spec_tokens_from(s, pos)[i] is Eof),
        forall|i: int| 0 <= i < spec_tokens_from(s, pos).len() - 1 ==> !spec_unterminated_literal(
            #[trigger] spec_tokens_from(s, pos)[i],
        ),
    decreases s.len() - pos,
{
    if pos < s.len() {
        lemma_token_at_wf(s, pos);
        lemma_token_at_advances(s, pos);
        let t = spec_token_at(s, pos).0;
        let next = spec_token_at(s, pos).1;
        lemma_tokens_from_wf(s, next);
        let toks = spec_tokens_from(s, pos);
        let rest = spec_tokens_from(s, next);
        assert(toks == seq![t] + rest);
        if spec_unterminated_literal(t) {
            let c = s[pos];
            if spec_is_letter_char(c) {
                assert(!(t is Literal));
            } else if spec_is_digit_char(c) {
                assert(s.subrange(pos, spec_digits_end(s, pos + 1))[0] == c);
                assert(false);
            } else {
                assert(c == '\'');
                let close = spec_quote_end(s, pos + 1);
                lemma_quote_end_bounds(s, pos + 1);
                lemma_quote_end_chars(s, pos + 1);
                if close < s.len() {
                    assert((seq!['\''] + s.subrange(pos + 1, close + 1)).last() == s[close]);
                    assert(false);
                }
                assert(next == s.len());
                assert(rest.len() == 0);
            }
        }
        assert forall|i: int| 0 <= i < toks.len() implies spec_wf_token(toks[i])
            && !(toks[i] is Eof) by {
            if i == 0 {
                assert(toks[i] == t);
            } else {
                assert(toks[i] == rest[i - 1]);
            }
        }
        assert forall|i: int| 0 <= i < toks.len() - 1 implies !spec_unterminated_literal(
            toks[i],
        ) by {
            if i == 0 {
                assert(toks[i] == t);
                assert(rest.len() > 0);
            } else {
                assert(toks[i] == rest[i - 1]);
            }
        }
    }
}

// ---------------------------------------------------------------------------
// The executable lexer
// ---------------------------------------------------------------------------

/// A single-pass tokenizer over an owned character buffer.  The cursor
/// advances monotonically and is never reset.
pub struct Lexer {
    pub input: Vec<char>,
    pub position: usize,
}

impl Lexer {
    /// The cursor never points past the end of the input.
    pub open spec fn wf(&self) -> bool {
        self.position <= self.input.len()
    }

    /// Builds a lexer over the full input text, with the cursor at the start.
    #[verifier::loop_isolation(false)]
    pub fn new(input: &str) -> (lexer: Lexer)
        ensures
            lexer.wf(),
            lexer.input@ == input@,
            lexer.position == 0,
    {
        let n = input.unicode_len();
        let mut chars: Vec<char> = Vec::new();
        let mut i: usize = 0;
        while i < n
            invariant
                i <= n,
                n == input@.len(),
                chars@ == input@.subrange(0, i as int),
            decreases n - i,
        {
            chars.push(input.get_char(i));
            proof {
                assert(chars@ =~= input@.subrange(0, i + 1));
            }
            i += 1;
        }
        proof {
            assert(chars@ =~= input@);
        }
        Lexer { input: chars, position: 0 }
    }

    /// Returns the next token, advancing the cursor past it.  At end of
    /// input it returns the sentinel and leaves the cursor in place.
    pub fn next_token(&mut self) -> (t: Token)
        requires
            old(self).wf(),
        ensures
            final(self).wf(),
            final(self).input == old(self).input,
            old(self).position >= old(self).input.len() ==> t@ == SpecToken::Eof
                && final(self).position == old(self).position,
            old(self).position < old(self).input.len() ==> {
                &&& t@ == spec_token_at(old(self).input@, old(self).position as int).0
                &&& final(self).position as int == spec_token_at(
                    old(self).input@,
                    old(self).position as int,
                ).1
            },
    {
        if self.position >= self.input.len() {
            return Token::Eof;
        }
        let c = self.input[self.position];
        self.position = self.position + 1;
        if is_whitespace_char(c) {
            Token::Whitespace
        } else if is_punctuation_char(c) {
            Token::Punctuation(c)
        } else if is_operator_char(c) {
            let mut text = String::new();
            push_char(&mut text, c);
            proof {
                assert(text@ =~= seq![c]);
            }
            Token::Operator(text)
        } else if c == '\'' {
            let t = self.read_string_literal();
            proof {
                let s = old(self).input@;
                let pos = old(self).position as int;
                let close = spec_quote_end(s, pos + 1);
                lemma_quote_end_bounds(s, pos + 1);
                if close < s.len() {
                    assert(seq!['\''] + s.subrange(pos + 1, close + 1)
                        =~= s.subrange(pos, close + 1));
                } else {
                    assert(seq!['\''] + s.subrange(pos + 1, close)
                        =~= s.subrange(pos, close));
                }
            }
            t
        } else if is_letter_char(c) {
            let t = self.read_identifier(c);
            proof {
                let s = old(self).input@;
                let pos = old(self).position as int;
                let end = spec_word_end(s, pos + 1);
                lemma_word_end_bounds(s, pos + 1);
                assert(seq![c] + s.subrange(pos + 1, end) =~= s.subrange(pos, end));
            }
            t
        } else if is_digit_char(c) {
            let t = self.read_number_literal(c);
            proof {
                let s = old(self).input@;
                let pos = old(self).position as int;
                let end = spec_digits_end(s, pos + 1);
                lemma_digits_end_bounds(s, pos + 1);
                assert(seq![c] + s.subrange(pos + 1, end) =~= s.subrange(pos, end));
            }
            t
        } else {
            let mut text = String::new();
            push_char(&mut text, c);
            proof {
                assert(text@ =~= seq![c]);
            }
            Token::Identifier(text)
        }
    }

    /// Scans the rest of an identifier or keyword whose first letter has
    /// already been consumed, and classifies the accumulated word.
    #[verifier::loop_isolation(false)]
    pub fn read_identifier(&mut self, first_char: char) -> (t: Token)
        requires
            old(self).wf(),
        ensures
            final(self).wf(),
            final(self).input == old(self).input,
            final(self).position as int == spec_word_end(
                old(self).input@,
                old(self).position as int,
            ),
            t@ == spec_classify_word(
                seq![first_char] + old(self).input@.subrange(
                    old(self).position as int,
                    final(self).position as int,
                ),
            ),
    {
        let ghost s = self.input@;
        let ghost start = self.position as int;
        let mut ident = String::new();
        push_char(&mut ident, first_char);
        proof {
            assert(ident@ =~= seq![first_char] + s.subrange(start, start));
        }
        while self.position < self.input.len() && is_word_char(self.input[self.position])
            invariant
                self.wf(),
                self.input == old(self).input,
                start <= self.position as int,
                ident@ == seq![first_char] + s.subrange(start, self.position as int),
                spec_word_end(s, start) == spec_word_end(s, self.position as int),
            decreases s.len() - self.position,
        {
            let c = self.input[self.position];
            push_char(&mut ident, c);
            self.position = self.position + 1;
            proof {
                assert(ident@ =~= seq![first_char] + s.subrange(start, self.position as int));
            }
        }
        classify_word(&ident)
    }

    /// Scans a string literal whose opening quote has already been consumed:
    /// everything up to the next quote, including it when present, and up to
    /// end of input otherwise.
    #[verifier::loop_isolation(false)]
    pub fn read_string_literal(&mut self) -> (t: Token)
        requires
            old(self).wf(),
        ensures
            final(self).wf(),
            final(self).input == old(self).input,
            ({
                let s = old(self).input@;
                let start = old(self).position as int;
                let close = spec_quote_end(s, start);
                &&& (close < s.len() ==> final(self).position as int == close + 1
                    && t@ == SpecToken::Literal(seq!['\''] + s.subrange(start, close + 1)))
                &&& (close >= s.len() ==> final(self).position as int == close
                    && t@ == SpecToken::Literal(seq!['\''] + s.subrange(start, close)))
            }),
    {
        let ghost s = self.input@;
        let ghost start = self.position as int;
        let mut literal = String::new();
        push_char(&mut literal, '\'');
        proof {
            assert(literal@ =~= seq!['\''] + s.subrange(start, start));
        }
        while self.position < self.input.len() && self.input[self.position] != '\''
            invariant
                self.wf(),
                self.input == old(self).input,
                start <= self.position as int,
                literal@ == seq!['\''] + s.subrange(start, self.position as int),
                spec_quote_end(s, start) == spec_quote_end(s, self.position as int),
            decreases s.len() - self.position,
        {
            let c = self.input[self.position];
            push_char(&mut literal, c);
            self.position = self.position + 1;
            proof {
                assert(literal@ =~= seq!['\''] + s.subrange(start, self.position as int));
            }
        }
        if self.position < self.input.len() {
            let c = self.input[self.position];
            push_char(&mut literal, c);
            self.position = self.position + 1;
            proof {
                assert(literal@ =~= seq!['\''] + s.subrange(start, self.position as int));
            }
        }
        Token::Literal(literal)
    }

    /// Scans the rest of a run of decimal digits whose first digit has
    /// already been consumed.  Nothing but digits is accepted: no decimal
    /// point, sign or exponent.
    #[verifier::loop_isolation(false)]
    pub fn read_number_literal(&mut self, first_char: char) -> (t: Token)
        requires
            old(self).wf(),
        ensures
            final(self).wf(),
            final(self).input == old(self).input,
            final(self).position as int == spec_digits_end(
                old(self).input@,
                old(self).position as int,
            ),
            t@ == SpecToken::Literal(
                seq![first_char] + old(self).input@.subrange(
                    old(self).position as int,
                    final(self).position as int,
                ),
            ),
    {
        let ghost s = self.input@;
        let ghost start = self.position as int;
        let mut literal = String::new();
        push_char(&mut literal, first_char);
        proof {
            assert(literal@ =~= seq![first_char] + s.subrange(start, start));
        }
        while self.position < self.input.len() && is_digit_char(self.input[self.position])
            invariant
                self.wf(),
                self.input == old(self).input,
                start <= self.position as int,
                literal@ == seq![first_char] + s.subrange(start, self.position as int),
                spec_digits_end(s, start) == spec_digits_end(s, self.position as int),
            decreases s.len() - self.position,
        {
            let c = self.input[self.position];
            push_char(&mut literal, c);
            self.position = self.position + 1;
            proof {
                assert(literal@ =~= seq![first_char] + s.subrange(start, self.position as int));
            }
        }
        Token::Literal(literal)
    }
}

} // verus!
