use bibtex_parser::document::{locate_entries, parse_document};
use bibtex_parser::tokenizer::Span;
use bibtex_parser::error::ParseError;
use bibtex_parser::model::bibliography::{Bibliography, EntryType};

#[test]
fn good_entry_then_unbalanced_entry() {
    let text = "@article{a, title = {Good}, year = 2001}\n\n@book{b, title = {Never closed, year = 2002}\n";
    let outcomes = parse_document(text);
    assert_eq!(outcomes.len(), 2);
    let first = outcomes[0].as_ref().unwrap();
    assert_eq!(first.entrytype, EntryType::Article);
    assert_eq!(first.information.title, "Good");
    assert_eq!(outcomes[1], Err(ParseError::UnbalancedDelimiter));
    let records = outcomes.iter().filter(|outcome| outcome.is_ok()).count();
    assert_eq!(records, 1);
}

#[test]
fn unknown_keyword_does_not_stop_the_others() {
    let text = "@book{a, title = {One}}\n@FooBar{b, title = {Two}}\n@misc{c, title = {Three}}\n";
    let outcomes = parse_document(text);
    assert_eq!(outcomes.len(), 3);
    assert_eq!(outcomes[0].as_ref().unwrap().information.title, "One");
    assert_eq!(outcomes[1], Err(ParseError::UnknownEntryType("FooBar".to_string())));
    assert_eq!(outcomes[2].as_ref().unwrap().information.title, "Three");
    assert_eq!(outcomes[2].as_ref().unwrap().entrytype, EntryType::Misc);
}

#[test]
fn each_kind_of_fault_stays_with_its_entry() {
    let text = "@book{a, title = {One}}@{b}@nope{c}@book{d, year = 1}@book{e, stray more}@book{f, title = {Six}}@book{g, title = {";
    let outcomes = parse_document(text);
    assert_eq!(outcomes.len(), 7);
    assert_eq!(outcomes[0].as_ref().unwrap().information.title, "One");
    assert_eq!(outcomes[1], Err(ParseError::MissingEntryType));
    assert_eq!(outcomes[2], Err(ParseError::UnknownEntryType("nope".to_string())));
    assert_eq!(outcomes[3], Err(ParseError::MissingRequiredField));
    assert_eq!(outcomes[4], Err(ParseError::MalformedFieldLine));
    assert_eq!(outcomes[5].as_ref().unwrap().information.title, "Six");
    assert_eq!(outcomes[6], Err(ParseError::UnbalancedDelimiter));
}

#[test]
fn outcomes_are_those_of_the_entries_alone() {
    let entries = [
        "@book{a, title = {One}}\n",
        "@FooBar{b, title = {Two}}\n",
        "@misc{c, title = \"Three\", note = {x}}\n",
        "@manual{d}\n",
    ];
    let outcomes = parse_document(&entries.concat());
    assert_eq!(outcomes.len(), entries.len());
    for (entry, outcome) in entries.iter().zip(outcomes.iter()) {
        assert_eq!(*outcome, Bibliography::from_raw(entry));
    }
}

#[test]
fn marker_inside_braces_is_no_entry() {
    let text = "@misc{a, title = {Write to me@example.org}, note = \"or @ home\"}\n@book{b, title = {Two}}";
    let outcomes = parse_document(text);
    assert_eq!(outcomes.len(), 2);
    assert_eq!(outcomes[0].as_ref().unwrap().information.title, "Write to me@example.org");
    assert_eq!(outcomes[0].as_ref().unwrap().information.note, Some("or @ home".to_string()));
    assert_eq!(outcomes[1].as_ref().unwrap().information.title, "Two");
}

#[test]
fn text_before_the_first_entry_is_passed_over() {
    let text = "% a list of books\nsome words\n@book{a, title = {One}}";
    let outcomes = parse_document(text);
    assert_eq!(outcomes.len(), 1);
    assert_eq!(outcomes[0].as_ref().unwrap().information.title, "One");
}

#[test]
fn document_without_entries_has_no_outcomes() {
    assert_eq!(parse_document("").len(), 0);
    assert_eq!(parse_document("no entries here {at all}").len(), 0);
    assert_eq!(parse_document("{hidden @book{a, title = {One}}}").len(), 0);
}

#[test]
fn every_marker_outside_braces_begins_an_entry() {
    let outcomes = parse_document("@@book{a, title = {One}} @");
    assert_eq!(outcomes.len(), 3);
    assert_eq!(outcomes[0], Err(ParseError::MissingEntryType));
    assert!(outcomes[1].is_ok());
    assert_eq!(outcomes[2], Err(ParseError::MissingEntryType));
}

#[test]
fn open_brace_takes_in_what_follows() {
    let text = "@book{a, title = {Never closed\n@book{b, title = {Two}}";
    let outcomes = parse_document(text);
    assert_eq!(outcomes.len(), 1);
    assert_eq!(outcomes[0], Err(ParseError::UnbalancedDelimiter));
}

#[test]
fn stray_closing_brace_between_entries_closes_nothing() {
    let text = "} @book{a, title = {One}} } } @book{b, title = {Two}}";
    let outcomes = parse_document(text);
    assert_eq!(outcomes.len(), 2);
    assert_eq!(outcomes[0].as_ref().unwrap().information.title, "One");
    assert_eq!(outcomes[1].as_ref().unwrap().information.title, "Two");
}

#[test]
fn many_entries_keep_their_order() {
    let mut text = String::new();
    for n in 0..200 {
        text.push_str(&format!("@book{{key{}, title = {{Title {}}}, year = {}}}\n", n, n, 1800 + n));
    }
    let outcomes = parse_document(&text);
    assert_eq!(outcomes.len(), 200);
    for (n, outcome) in outcomes.iter().enumerate() {
        let record = outcome.as_ref().unwrap();
        assert_eq!(record.information.title, format!("Title {}", n));
        assert_eq!(record.information.year, Some(format!("{}", 1800 + n)));
    }
}

#[test]
fn entries_are_located_by_character() {
    let text = "préambule @book{a, title = {Ünö}}\n@misc{b}";
    let spans = locate_entries(text);
    assert_eq!(spans, vec![Span { from: 10, to: 34 }, Span { from: 34, to: 42 }]);
    let chars: Vec<char> = text.chars().collect();
    let outcomes = parse_document(text);
    assert_eq!(outcomes.len(), spans.len());
    for (span, outcome) in spans.iter().zip(outcomes.iter()) {
        let entry: String = chars[span.from..span.to].iter().collect();
        assert_eq!(*outcome, Bibliography::from_raw(&entry));
    }
    assert_eq!(locate_entries("nothing here"), vec![]);
}

#[test]
fn crate_root_offers_the_main_items() {
    let outcomes = bibtex_parser::parse_document("@book{a, title = {One}}");
    assert_eq!(outcomes.len(), 1);
    let record: &bibtex_parser::Bibliography = outcomes[0].as_ref().unwrap();
    assert_eq!(record.entrytype, bibtex_parser::EntryType::Book);
    assert_eq!(record.information.get(bibtex_parser::Field::Title), Some(&"One".to_string()));
    assert_eq!(
        bibtex_parser::parse_one("@book{a}"),
        Err(bibtex_parser::ParseError::MissingRequiredField)
    );
}
