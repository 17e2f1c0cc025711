use bibtex_parser::error::ParseError;
use bibtex_parser::value::clean_string;

#[test]
fn protection_groups_are_flattened_and_quotes_stripped() {
    let raw = "\"The {C}omprehensive {T}ex {A}rchive {N}etwork ({CTAN})\"";
    assert_eq!(
        clean_string(raw),
        Ok("The Comprehensive Tex Archive Network (CTAN)".to_string())
    );
}

#[test]
fn outer_braces_are_stripped() {
    assert_eq!(clean_string("{George D. Greenwade}"), Ok("George D. Greenwade".to_string()));
    assert_eq!(clean_string("{{Double}}"), Ok("Double".to_string()));
}

#[test]
fn empty_value_cleans_to_empty_text() {
    assert_eq!(clean_string("\"\""), Ok(String::new()));
    assert_eq!(clean_string("{}"), Ok(String::new()));
    assert_eq!(clean_string(""), Ok(String::new()));
    assert_eq!(clean_string("   "), Ok(String::new()));
}

#[test]
fn blanks_around_a_value_are_dropped_and_blanks_inside_kept() {
    assert_eq!(clean_string("  \t{ a  b }\n "), Ok(" a  b ".to_string()));
    assert_eq!(clean_string(" 1993 "), Ok("1993".to_string()));
}

#[test]
fn delimiters_that_differ_are_refused() {
    assert_eq!(clean_string("{abc\""), Err(ParseError::UnbalancedDelimiter));
    assert_eq!(clean_string("\"abc}"), Err(ParseError::UnbalancedDelimiter));
    assert_eq!(clean_string("{abc"), Err(ParseError::UnbalancedDelimiter));
    assert_eq!(clean_string("\"abc"), Err(ParseError::UnbalancedDelimiter));
    assert_eq!(clean_string("{"), Err(ParseError::UnbalancedDelimiter));
    assert_eq!(clean_string("\""), Err(ParseError::UnbalancedDelimiter));
}

#[test]
fn value_without_delimiters_is_cleaned_as_it_is() {
    assert_eq!(clean_string("1993"), Ok("1993".to_string()));
    assert_eq!(clean_string("abc}"), Ok("abc".to_string()));
    assert_eq!(clean_string("a{b}c"), Ok("abc".to_string()));
}

#[test]
fn escaped_quote_and_backslash_are_resolved() {
    assert_eq!(clean_string(r#""a \"b\" c""#), Ok("a \"b\" c".to_string()));
    assert_eq!(clean_string(r#"{a \\ b}"#), Ok("a \\ b".to_string()));
    assert_eq!(clean_string(r#"{\\\\}"#), Ok("\\\\".to_string()));
    assert_eq!(clean_string(r#"{\\\"}"#), Ok("\\\"".to_string()));
}

#[test]
fn other_backslashes_are_kept() {
    assert_eq!(clean_string(r#"{Caf\'e \& more}"#), Ok(r#"Caf\'e \& more"#.to_string()));
    assert_eq!(clean_string(r#"{\alpha}"#), Ok(r#"\alpha"#.to_string()));
    assert_eq!(clean_string("{a\\}"), Ok("a\\".to_string()));
    assert_eq!(clean_string("{\\{x\\}}"), Ok("\\x\\".to_string()));
}

#[test]
fn line_breaks_become_blanks() {
    assert_eq!(clean_string("{one\ntwo}"), Ok("one two".to_string()));
    assert_eq!(clean_string("{one\n\n  two}"), Ok("one    two".to_string()));
    assert_eq!(clean_string("\"a\tb\""), Ok("a\tb".to_string()));
}

#[test]
fn cleaning_changes_the_text() {
    let raw = "{a{b}\nc}";
    let clean = clean_string(raw).unwrap();
    assert_ne!(clean, raw);
    assert_eq!(clean, "ab c");
    assert_eq!(clean.chars().count(), 4);
}

#[test]
fn line_break_in_two_characters_becomes_one_blank() {
    assert_eq!(clean_string("{one\r\ntwo}"), Ok("one two".to_string()));
    assert_eq!(clean_string("{one\r\n\r\ntwo}"), Ok("one  two".to_string()));
    assert_eq!(clean_string("{one\rtwo}"), Ok("one\rtwo".to_string()));
    assert_eq!(clean_string("{one\r{}\ntwo}"), Ok("one\r two".to_string()));
    assert_eq!(clean_string("{a\\\r\n\"b}"), Ok("a\\ \"b".to_string()));
}
