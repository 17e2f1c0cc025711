use bibtex_parser::model::bibliography::Bibliography;
use bibtex_parser::tokenizer::tokenize;
use bibtex_parser::value::clean_string;
use regex::Regex;

#[test]
fn keyword_is_the_first_word_of_the_entry() {
    let word = Regex::new(r"\w+").unwrap();
    let entries = [
        "@article{greenwade93, title = {T}}",
        "  @Book {k, title = {T}}",
        "InProceedings{k, title = {T}}",
        "@tech_report2{k}",
        "@misc{}",
    ];
    for entry in entries {
        let first = word.find(entry).unwrap().as_str();
        assert_eq!(tokenize(entry).unwrap().keyword, first);
    }
}

#[test]
fn keyword_stops_where_ascii_words_stop() {
    let word = Regex::new(r"\w+").unwrap();
    let entry = "@artïcle{k, title = {T}}";
    assert_eq!(word.find(entry).unwrap().as_str(), "artïcle");
    assert_eq!(tokenize(entry), Err(bibtex_parser::error::ParseError::MalformedFieldLine));
    assert_eq!(
        Bibliography::from_raw(entry),
        Err(bibtex_parser::error::ParseError::UnknownEntryType("art".to_string()))
    );
}

#[test]
fn quoted_text_is_unescaped_as_a_shell_would() {
    let values = [
        r#""plain text""#,
        r#""say \"hi\" twice""#,
        r#""back\\slash""#,
        r#""342--351""#,
        r#""""#,
    ];
    for value in values {
        assert_eq!(clean_string(value).unwrap(), snailquote::unescape(value).unwrap());
    }
}

#[test]
fn apostrophes_and_other_escapes_are_kept_as_written() {
    assert_eq!(clean_string("{O'Brien}"), Ok("O'Brien".to_string()));
    assert_eq!(snailquote::unescape("{O'Brien}").unwrap(), "{OBrien}");
    assert_eq!(clean_string(r#""R \& D""#), Ok(r#"R \& D"#.to_string()));
    assert!(snailquote::unescape(r#""R \& D""#).is_err());
    assert_eq!(clean_string(r#""a\tb""#), Ok(r#"a\tb"#.to_string()));
    assert_eq!(snailquote::unescape(r#""a\tb""#).unwrap(), "a\tb");
}
