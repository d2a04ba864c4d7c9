use sql_formatter::token::Token;
use sql_formatter::tokenize;

fn kw(s: &str) -> Token {
    Token::Keyword(s.to_string())
}

fn ident(s: &str) -> Token {
    Token::Identifier(s.to_string())
}

fn lit(s: &str) -> Token {
    Token::Literal(s.to_string())
}

fn op(s: &str) -> Token {
    Token::Operator(s.to_string())
}

#[test]
fn tokenize_empty_input() {
    assert_eq!(tokenize(""), vec![]);
}

#[test]
fn tokenize_simple_statement() {
    let tokens = tokenize("SELECT a");
    assert_eq!(tokens, vec![kw("SELECT"), Token::Whitespace, ident("a")]);
}

#[test]
fn keyword_case_variants_normalize() {
    for input in ["select", "SELECT", "SeLeCt", "sELECt"] {
        assert_eq!(tokenize(input), vec![kw("SELECT")], "casing {input}");
    }
    assert_eq!(tokenize("fRoM"), vec![kw("FROM")]);
    assert_eq!(tokenize("where"), vec![kw("WHERE")]);
    assert_eq!(tokenize("And"), vec![kw("AND")]);
    assert_eq!(tokenize("oR"), vec![kw("OR")]);
    assert_eq!(tokenize("hAvInG"), vec![kw("HAVING")]);
}

#[test]
fn unreserved_word_keeps_its_casing() {
    assert_eq!(tokenize("Customers"), vec![ident("Customers")]);
    assert_eq!(tokenize("selectx"), vec![ident("selectx")]);
    assert_eq!(tokenize("sele"), vec![ident("sele")]);
}

#[test]
fn numeric_literal_consumes_only_digits() {
    assert_eq!(tokenize("123abc"), vec![lit("123"), ident("abc")]);
}

#[test]
fn numeric_literal_stops_at_decimal_point() {
    assert_eq!(tokenize("12.5"), vec![lit("12"), ident("."), lit("5")]);
}

#[test]
fn terminated_string_literal_keeps_both_quotes() {
    assert_eq!(tokenize("'ab'"), vec![lit("'ab'")]);
}

#[test]
fn unterminated_string_literal_ends_at_end_of_input() {
    assert_eq!(tokenize("'ab"), vec![lit("'ab")]);
}

#[test]
fn string_literal_may_hold_whitespace() {
    assert_eq!(tokenize("'a b'"), vec![lit("'a b'")]);
}

#[test]
fn operators_are_single_characters() {
    assert_eq!(tokenize("a<=1"), vec![ident("a"), op("<"), op("="), lit("1")]);
    assert_eq!(tokenize("x+y"), vec![ident("x"), op("+"), ident("y")]);
}

#[test]
fn punctuation_characters() {
    assert_eq!(
        tokenize("(a,b);"),
        vec![
            Token::Punctuation('('),
            ident("a"),
            Token::Punctuation(','),
            ident("b"),
            Token::Punctuation(')'),
            Token::Punctuation(';'),
        ]
    );
}

#[test]
fn whitespace_characters_become_markers() {
    assert_eq!(
        tokenize("a \t\r\nb"),
        vec![
            ident("a"),
            Token::Whitespace,
            Token::Whitespace,
            Token::Whitespace,
            Token::Whitespace,
            ident("b"),
        ]
    );
}

#[test]
fn unrecognized_character_becomes_identifier() {
    assert_eq!(tokenize("#"), vec![ident("#")]);
    assert_eq!(tokenize("a.b"), vec![ident("a"), ident("."), ident("b")]);
}

#[test]
fn identifiers_may_hold_unicode_letters() {
    assert_eq!(tokenize("caf\u{e9}"), vec![ident("caf\u{e9}")]);
    assert_eq!(tokenize("a\u{e9}1"), vec![ident("a\u{e9}1")]);
}

#[test]
fn unicode_alphanumerics_continue_a_word_but_do_not_start_one() {
    assert_eq!(tokenize("x\u{be}"), vec![ident("x\u{be}")]);
    assert_eq!(tokenize("\u{be}x"), vec![ident("\u{be}"), ident("x")]);
}

#[test]
fn lexer_yields_eof_at_end() {
    let mut lexer = sql_formatter::lexer::Lexer::new("a");
    assert_eq!(lexer.next_token(), ident("a"));
    assert_eq!(lexer.next_token(), Token::Eof);
    assert_eq!(lexer.next_token(), Token::Eof);
}
