use sql_formatter::format_sql;
use sql_formatter::formatter::FormatError;
use sql_formatter::formatter::Formatter;
use sql_formatter::token::Token;
use sql_formatter::tokenize;

fn non_whitespace(tokens: Vec<Token>) -> Vec<Token> {
    tokens
        .into_iter()
        .filter(|t| !matches!(t, Token::Whitespace))
        .collect()
}

#[test]
fn major_clause_layout() {
    let formatted = format_sql("SELECT a,b FROM t WHERE a=1").unwrap();
    assert_eq!(
        formatted,
        "SELECT\n a,\n\t b\n\tFROM\n\t t\n\t\tWHERE\n\t\t a = 1"
    );
    let lines: Vec<&str> = formatted.lines().collect();
    assert_eq!(lines[0], "SELECT");
    assert_eq!(lines[1].trim(), "a,");
    assert_eq!(lines[2].trim(), "b");
    assert_eq!(lines[3].trim(), "FROM");
    assert_eq!(lines[5].trim(), "WHERE");
}

#[test]
fn parenthesis_balance_layout() {
    let formatted = format_sql("(a,b)").unwrap();
    assert_eq!(formatted, "(\n\ta,\n\t b\n)");
    assert!(formatted.lines().last().unwrap() == ")");
}

#[test]
fn unbalanced_close_is_error() {
    assert_eq!(format_sql(")"), Err(FormatError::UnbalancedParentheses));
    assert_eq!(format_sql("(a))"), Err(FormatError::UnbalancedParentheses));
}

#[test]
fn blank_line_between_consecutive_clauses() {
    assert_eq!(format_sql("SELECT FROM").unwrap(), "SELECT\n\n\tFROM");
}

#[test]
fn conjunction_breaks_line_without_indenting() {
    assert_eq!(format_sql("WHERE a AND b").unwrap(), "WHERE\n a\n\tAND b");
}

#[test]
fn other_keywords_stay_inline() {
    assert_eq!(format_sql("DELETE FROM t").unwrap(), "DELETE\nFROM\n t");
    assert_eq!(format_sql("a AS b").unwrap(), "a AS b");
}

#[test]
fn no_space_after_opening_parenthesis() {
    assert_eq!(format_sql("MAX(1)").unwrap(), "MAX (\n\t1\n)");
}

#[test]
fn semicolon_is_emitted_inline() {
    assert_eq!(format_sql("a;b").unwrap(), "a ; b");
}

#[test]
fn keywords_are_upper_cased_in_output() {
    assert_eq!(
        format_sql("select x from t").unwrap(),
        "SELECT\n x\n\tFROM\n\t t"
    );
}

#[test]
fn empty_input_formats_to_empty_output() {
    assert_eq!(format_sql("").unwrap(), "");
    assert_eq!(format_sql(" \t\n").unwrap(), "");
}

#[test]
fn round_trip_preserves_non_whitespace_tokens() {
    for input in [
        "SELECT a,b FROM t WHERE a=1",
        "(a,b)",
        "select x from t where y<=2 and z='q u x'",
        "INSERT INTO t (a,b)",
        "update t set a=a+1 where b='ab'",
        "123abc . # 'lit'",
    ] {
        let original = non_whitespace(tokenize(input));
        let formatted = format_sql(input).unwrap();
        let reread = non_whitespace(tokenize(&formatted));
        assert_eq!(reread, original, "round trip of {input:?}");
    }
}

#[test]
fn unicode_word_stays_whole_through_formatting() {
    assert_eq!(format_sql("caf\u{e9}").unwrap(), "caf\u{e9}");
    assert_eq!(format_sql("select caf\u{e9}").unwrap(), "SELECT\n caf\u{e9}");
}

#[test]
fn formatter_state_starts_fresh() {
    let mut formatter = Formatter::new(tokenize("a"));
    assert_eq!(formatter.format().unwrap(), "a");
}
