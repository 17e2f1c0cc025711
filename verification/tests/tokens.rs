use bibtex_parser::error::ParseError;
use bibtex_parser::model::field::FieldText;
use bibtex_parser::tokenizer::{tokenize, RawEntry};

fn field(name: &str, value: &str) -> FieldText {
    FieldText { name: name.to_string(), value: value.to_string() }
}

#[test]
fn raw_values_keep_their_delimiters() {
    let text = "@Article{key1, Author = {George D. Greenwade}, title = \"The {C}omprehensive\", year = 1993}";
    let found = tokenize(text).unwrap();
    assert_eq!(
        found,
        RawEntry {
            keyword: "Article".to_string(),
            fields: vec![
                field("Author", "{George D. Greenwade}"),
                field("title", "\"The {C}omprehensive\""),
                field("year", "1993"),
            ],
        }
    );
}

#[test]
fn raw_value_reaches_to_the_matching_delimiter() {
    let text = "@misc{k, a = {x, {y, z}, = \" @ }, b = \"p, {q\"}, r\"}";
    let found = tokenize(text).unwrap();
    assert_eq!(found.keyword, "misc");
    assert_eq!(
        found.fields,
        vec![field("a", "{x, {y, z}, = \" @ }"), field("b", "\"p, {q\"}, r\"")]
    );
}

#[test]
fn raw_value_may_span_lines() {
    let text = "@misc{k,\n  note = {line one\n  line two},\n  title = \"t\"\n}";
    let found = tokenize(text).unwrap();
    assert_eq!(found.fields, vec![field("note", "{line one\n  line two}"), field("title", "\"t\"")]);
}

#[test]
fn unknown_keyword_and_unknown_names_are_tokens_too() {
    let found = tokenize("@FooBar{k, shape = round}").unwrap();
    assert_eq!(found.keyword, "FooBar");
    assert_eq!(found.fields, vec![field("shape", "round")]);
}

#[test]
fn citation_key_is_no_field() {
    assert_eq!(tokenize("@book{only-a-key}").unwrap().fields, vec![]);
    assert_eq!(tokenize("@book{key:2024/a.b, }").unwrap().fields, vec![]);
    assert_eq!(tokenize("@book{}").unwrap().fields, vec![]);
    assert_eq!(tokenize("@book{a = b}").unwrap().fields, vec![field("a", "b")]);
}

#[test]
fn second_bare_token_is_malformed() {
    assert_eq!(tokenize("@book{key, other}"), Err(ParseError::MalformedFieldLine));
    assert_eq!(tokenize("@book{key other}"), Err(ParseError::MalformedFieldLine));
    assert_eq!(tokenize("@book{, other}"), Err(ParseError::MalformedFieldLine));
}

#[test]
fn scanner_faults() {
    assert_eq!(tokenize(""), Err(ParseError::MissingEntryType));
    assert_eq!(tokenize("@ {"), Err(ParseError::MissingEntryType));
    assert_eq!(tokenize("@book"), Err(ParseError::MalformedFieldLine));
    assert_eq!(tokenize("@book{a = {"), Err(ParseError::UnbalancedDelimiter));
    assert_eq!(tokenize("@book{a = \"x"), Err(ParseError::UnbalancedDelimiter));
    assert_eq!(tokenize("@book{a = \"x\\\""), Err(ParseError::UnbalancedDelimiter));
    assert_eq!(tokenize("@book{a = x"), Err(ParseError::UnbalancedDelimiter));
    assert_eq!(tokenize("@book{a = x y}"), Err(ParseError::MalformedFieldLine));
}
