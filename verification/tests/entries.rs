use bibtex_parser::document::parse_one;
use bibtex_parser::error::ParseError;
use bibtex_parser::model::bibliography::{Bibliography, EntryType};

#[test]
fn check_raw_function() {
    let test_string = r#"@article{greenwade93,
            author  = {George D. Greenwade},
            title   = "The {C}omprehensive {T}ex {A}rchive {N}etwork ({CTAN})",
            year    = "1993",
            journal = "TUGBoat",
            volume  = "14",
            number  = "3",
            pages   = "342--351"
        }
        "#;

    let result = Bibliography::from_raw(test_string).unwrap();
    assert_eq!(result.entrytype, EntryType::Article);
    assert_eq!(result.information.author, Some("George D. Greenwade".to_string()));
}

#[test]
fn whole_entry_on_one_line() {
    let text = r#"@article{key1, author = {George D. Greenwade}, title = "The {C}omprehensive {T}ex {A}rchive {N}etwork ({CTAN})", year = "1993", journal = "TUGBoat", volume = "14", number = "3", pages = "342--351"}"#;
    let record = Bibliography::from_raw(text).unwrap();
    assert_eq!(record.entrytype, EntryType::Article);
    let info = record.information;
    assert_eq!(info.author, Some("George D. Greenwade".to_string()));
    assert_eq!(info.title, "The Comprehensive Tex Archive Network (CTAN)");
    assert_eq!(info.year, Some("1993".to_string()));
    assert_eq!(info.journal, Some("TUGBoat".to_string()));
    assert_eq!(info.volume, Some("14".to_string()));
    assert_eq!(info.number, Some("3".to_string()));
    assert_eq!(info.pages, Some("342--351".to_string()));
    assert_eq!(info.publisher, None);
    assert_eq!(info.booktitle, None);
    assert_eq!(info.chapter, None);
    assert_eq!(info.edition, None);
    assert_eq!(info.howpublished, None);
    assert_eq!(info.institution, None);
    assert_eq!(info.month, None);
    assert_eq!(info.note, None);
    assert_eq!(info.organization, None);
    assert_eq!(info.school, None);
    assert_eq!(info.series, None);
    assert_eq!(info.abstract_, None);
    assert_eq!(info.doi, None);
    assert_eq!(info.isbn, None);
    assert_eq!(info.issn, None);
}

#[test]
fn multi_line_entry_has_every_field() {
    let text = "@article{greenwade93,\n  author  = {George D. Greenwade},\n  title   = \"The {C}omprehensive {T}ex {A}rchive {N}etwork ({CTAN})\",\n  year    = \"1993\",\n  journal = \"TUGBoat\",\n  volume  = \"14\",\n  number  = \"3\",\n  pages   = \"342--351\"\n}\n";
    let record = parse_one(text).unwrap();
    assert_eq!(record.information.title, "The Comprehensive Tex Archive Network (CTAN)");
    assert_eq!(record.information.pages, Some("342--351".to_string()));
    assert_eq!(record.information.year, Some("1993".to_string()));
}

#[test]
fn comma_inside_braces_stays_in_the_value() {
    let text = "@book{k, title = {Systems, Concurrency, and Correctness}, year = 2001}";
    let record = Bibliography::from_raw(text).unwrap();
    assert_eq!(record.information.title, "Systems, Concurrency, and Correctness");
    assert_eq!(record.information.year, Some("2001".to_string()));
}

#[test]
fn comma_inside_quotes_stays_in_the_value() {
    let text = "@book{k, title = \"Systems, Concurrency, and Correctness\", year = 2001}";
    let record = Bibliography::from_raw(text).unwrap();
    assert_eq!(record.information.title, "Systems, Concurrency, and Correctness");
    assert_eq!(record.information.year, Some("2001".to_string()));
}

#[test]
fn keyword_case_does_not_matter() {
    let upper = Bibliography::from_raw("@ARTICLE{k, title = {T}}").unwrap();
    let mixed = Bibliography::from_raw("@Article{k, title = {T}}").unwrap();
    let lower = Bibliography::from_raw("@article{k, title = {T}}").unwrap();
    assert_eq!(upper.entrytype, EntryType::Article);
    assert_eq!(mixed.entrytype, EntryType::Article);
    assert_eq!(lower.entrytype, EntryType::Article);
    assert_eq!(upper, mixed);
    assert_eq!(mixed, lower);
}

#[test]
fn every_keyword_gives_its_type() {
    let cases = [
        ("book", EntryType::Book),
        ("article", EntryType::Article),
        ("booklet", EntryType::Booklet),
        ("conference", EntryType::Conference),
        ("inbook", EntryType::InBook),
        ("incollection", EntryType::InCollection),
        ("inproceedings", EntryType::InProceedings),
        ("manual", EntryType::Manual),
        ("mastersthesis", EntryType::Masterthesis),
        ("misc", EntryType::Misc),
        ("phdthesis", EntryType::Phdthessis),
        ("proceedings", EntryType::Proceedings),
        ("techreport", EntryType::Techreport),
        ("unpublished", EntryType::Unpublished),
    ];
    for (keyword, expected) in cases {
        let text = format!("@{}{{key, title = {{T}}}}", keyword);
        let record = Bibliography::from_raw(&text).unwrap();
        assert_eq!(record.entrytype, expected);
        assert_eq!(record.information.title, "T");
    }
}

#[test]
fn unknown_keyword_is_reported_as_written() {
    let outcome = Bibliography::from_raw("@FooBar{k, title = {T}}");
    assert_eq!(outcome, Err(ParseError::UnknownEntryType("FooBar".to_string())));
}

#[test]
fn unknown_keyword_wins_over_a_later_fault() {
    let outcome = Bibliography::from_raw("@FooBar{k, title = {T");
    assert_eq!(outcome, Err(ParseError::UnknownEntryType("FooBar".to_string())));
}

#[test]
fn entry_without_keyword_is_refused() {
    assert_eq!(Bibliography::from_raw(""), Err(ParseError::MissingEntryType));
    assert_eq!(Bibliography::from_raw("   \n\t "), Err(ParseError::MissingEntryType));
    assert_eq!(Bibliography::from_raw("@"), Err(ParseError::MissingEntryType));
    assert_eq!(Bibliography::from_raw("@{k, title = {T}}"), Err(ParseError::MissingEntryType));
    assert_eq!(Bibliography::from_raw("{k, title = {T}}"), Err(ParseError::MissingEntryType));
}

#[test]
fn unclosed_value_is_unbalanced() {
    let outcome = Bibliography::from_raw("@book{k, title = {Unclosed, year = 1999}");
    assert_eq!(outcome, Err(ParseError::UnbalancedDelimiter));
    let outcome = Bibliography::from_raw("@book{k, title = \"Unclosed, year = 1999}");
    assert_eq!(outcome, Err(ParseError::UnbalancedDelimiter));
}

#[test]
fn unclosed_body_is_unbalanced() {
    assert_eq!(
        Bibliography::from_raw("@book{k, title = {Closed}"),
        Err(ParseError::UnbalancedDelimiter)
    );
    assert_eq!(
        Bibliography::from_raw("@book{k, title = {Closed},"),
        Err(ParseError::UnbalancedDelimiter)
    );
    assert_eq!(Bibliography::from_raw("@book{k"), Err(ParseError::UnbalancedDelimiter));
    assert_eq!(Bibliography::from_raw("@book{"), Err(ParseError::UnbalancedDelimiter));
    assert_eq!(Bibliography::from_raw("@book{k, title ="), Err(ParseError::UnbalancedDelimiter));
}

#[test]
fn closing_brace_inside_quotes_needs_an_opening_one() {
    let outcome = Bibliography::from_raw("@book{k, title = \"a } b\"}");
    assert_eq!(outcome, Err(ParseError::UnbalancedDelimiter));
}

#[test]
fn entry_without_title_is_refused() {
    let outcome = Bibliography::from_raw("@book{k, author = {A. Writer}, year = 1999}");
    assert_eq!(outcome, Err(ParseError::MissingRequiredField));
    assert_eq!(Bibliography::from_raw("@book{k}"), Err(ParseError::MissingRequiredField));
    assert_eq!(Bibliography::from_raw("@book{}"), Err(ParseError::MissingRequiredField));
}

#[test]
fn part_without_equals_sign_is_malformed() {
    let outcome = Bibliography::from_raw("@book{k, title = {T}, stray, year = 1999}");
    assert_eq!(outcome, Err(ParseError::MalformedFieldLine));
    let outcome = Bibliography::from_raw("@book{k, title {T}}");
    assert_eq!(outcome, Err(ParseError::MalformedFieldLine));
    let outcome = Bibliography::from_raw("@book{k, = {T}}");
    assert_eq!(outcome, Err(ParseError::MalformedFieldLine));
    let outcome = Bibliography::from_raw("@book{k, title = , year = 1999}");
    assert_eq!(outcome, Err(ParseError::MalformedFieldLine));
    let outcome = Bibliography::from_raw("@book{k, title = {T} junk, year = 1999}");
    assert_eq!(outcome, Err(ParseError::MalformedFieldLine));
}

#[test]
fn keyword_without_body_is_malformed() {
    assert_eq!(Bibliography::from_raw("@book"), Err(ParseError::MalformedFieldLine));
    assert_eq!(Bibliography::from_raw("@book title = {T}"), Err(ParseError::MalformedFieldLine));
    assert_eq!(Bibliography::from_raw("@book(k, title = {T})"), Err(ParseError::MalformedFieldLine));
}

#[test]
fn first_fault_in_the_text_wins() {
    let outcome = Bibliography::from_raw("@book{k, stray one, title = {Unclosed");
    assert_eq!(outcome, Err(ParseError::MalformedFieldLine));
    let outcome = Bibliography::from_raw("@book{k, author = {Unclosed, stray");
    assert_eq!(outcome, Err(ParseError::UnbalancedDelimiter));
    let outcome = Bibliography::from_raw("@book{k, author = {A}, stray}");
    assert_eq!(outcome, Err(ParseError::MalformedFieldLine));
}

#[test]
fn last_of_two_values_stays() {
    let text = "@book{k, title = {First}, year = 1999, title = {Second}, YEAR = 2000}";
    let record = Bibliography::from_raw(text).unwrap();
    assert_eq!(record.information.title, "Second");
    assert_eq!(record.information.year, Some("2000".to_string()));
}

#[test]
fn unknown_field_is_dropped() {
    let with = Bibliography::from_raw("@book{k, title = {T}, keywords = {a, b}, url = {x}}");
    let without = Bibliography::from_raw("@book{k, title = {T}}");
    assert!(with.is_ok());
    assert_eq!(with, without);
}

#[test]
fn field_name_case_does_not_matter() {
    let text = "@book{k, TITLE = {T}, Author = {A}, pUbLiSheR = {P}, abstract = {S}}";
    let record = Bibliography::from_raw(text).unwrap();
    assert_eq!(record.information.title, "T");
    assert_eq!(record.information.author, Some("A".to_string()));
    assert_eq!(record.information.publisher, Some("P".to_string()));
    assert_eq!(record.information.abstract_, Some("S".to_string()));
}

#[test]
fn every_field_name_is_known() {
    let text = "@misc{k, title={a}, author={b}, publisher={c}, booktitle={d}, chapter={e}, edition={f}, howpublished={g}, institution={h}, journal={i}, month={j}, note={k}, number={l}, organization={m}, pages={n}, school={o}, series={p}, volume={q}, year={r}, abstract={s}, doi={t}, isbn={u}, issn={v}}";
    let info = Bibliography::from_raw(text).unwrap().information;
    assert_eq!(info.title, "a");
    assert_eq!(info.author, Some("b".to_string()));
    assert_eq!(info.publisher, Some("c".to_string()));
    assert_eq!(info.booktitle, Some("d".to_string()));
    assert_eq!(info.chapter, Some("e".to_string()));
    assert_eq!(info.edition, Some("f".to_string()));
    assert_eq!(info.howpublished, Some("g".to_string()));
    assert_eq!(info.institution, Some("h".to_string()));
    assert_eq!(info.journal, Some("i".to_string()));
    assert_eq!(info.month, Some("j".to_string()));
    assert_eq!(info.note, Some("k".to_string()));
    assert_eq!(info.number, Some("l".to_string()));
    assert_eq!(info.organization, Some("m".to_string()));
    assert_eq!(info.pages, Some("n".to_string()));
    assert_eq!(info.school, Some("o".to_string()));
    assert_eq!(info.series, Some("p".to_string()));
    assert_eq!(info.volume, Some("q".to_string()));
    assert_eq!(info.year, Some("r".to_string()));
    assert_eq!(info.abstract_, Some("s".to_string()));
    assert_eq!(info.doi, Some("t".to_string()));
    assert_eq!(info.isbn, Some("u".to_string()));
    assert_eq!(info.issn, Some("v".to_string()));
}

#[test]
fn empty_value_is_present() {
    let record = Bibliography::from_raw("@book{k, title = {}, author = \"\", note = {}}").unwrap();
    assert_eq!(record.information.title, "");
    assert_eq!(record.information.author, Some(String::new()));
    assert_eq!(record.information.note, Some(String::new()));
    assert_eq!(record.information.year, None);
}

#[test]
fn undelimited_value_is_taken_as_it_is() {
    let record = Bibliography::from_raw("@book{k, title = Solo, year = 1999, month = jan}").unwrap();
    assert_eq!(record.information.title, "Solo");
    assert_eq!(record.information.year, Some("1999".to_string()));
    assert_eq!(record.information.month, Some("jan".to_string()));
}

#[test]
fn entry_may_lack_marker_key_and_blanks() {
    let record = Bibliography::from_raw("book{title={T},year=1999}").unwrap();
    assert_eq!(record.entrytype, EntryType::Book);
    assert_eq!(record.information.title, "T");
    assert_eq!(record.information.year, Some("1999".to_string()));
}

#[test]
fn blanks_and_empty_parts_do_not_matter() {
    let text = " \n @  book \t {\n k ,, \n title\n=\n{T}\n,\n,year = 1999 , \n } trailing text";
    let record = Bibliography::from_raw(text).unwrap();
    assert_eq!(record.entrytype, EntryType::Book);
    assert_eq!(record.information.title, "T");
    assert_eq!(record.information.year, Some("1999".to_string()));
}

#[test]
fn value_over_several_lines_is_joined() {
    let text = "@book{k, title = {A title\nover two lines},\n note = \"one\ntwo\nthree\"}";
    let record = Bibliography::from_raw(text).unwrap();
    assert_eq!(record.information.title, "A title over two lines");
    assert_eq!(record.information.note, Some("one two three".to_string()));
}

#[test]
fn marker_inside_a_value_belongs_to_the_value() {
    let text = "@misc{k, title = {Mail to a@b.org}, note = \"see @book\"}";
    let record = Bibliography::from_raw(text).unwrap();
    assert_eq!(record.information.title, "Mail to a@b.org");
    assert_eq!(record.information.note, Some("see @book".to_string()));
}

#[test]
fn escaped_quote_does_not_end_a_quoted_value() {
    let text = r#"@misc{k, title = "say \"hi\", then go", note = "a\\"}"#;
    let record = Bibliography::from_raw(text).unwrap();
    assert_eq!(record.information.title, "say \"hi\", then go");
    assert_eq!(record.information.note, Some("a\\".to_string()));
}

#[test]
fn quote_inside_braces_does_not_end_a_quoted_value() {
    let text = r#"@misc{k, title = "a {"} b", year = 1}"#;
    let record = Bibliography::from_raw(text).unwrap();
    assert_eq!(record.information.title, "a \" b");
    assert_eq!(record.information.year, Some("1".to_string()));
}

#[test]
fn nested_groups_are_flattened() {
    let text = "@misc{k, title = {a {b {c {d} e} f} g}}";
    let record = Bibliography::from_raw(text).unwrap();
    assert_eq!(record.information.title, "a b c d e f g");
}

#[test]
fn text_beyond_ascii_is_kept() {
    let text = "@book{k, title = {Über die Grundlagen, «naïve» Ansätze}, author = {José Ñandú}}";
    let record = Bibliography::from_raw(text).unwrap();
    assert_eq!(record.information.title, "Über die Grundlagen, «naïve» Ansätze");
    assert_eq!(record.information.author, Some("José Ñandú".to_string()));
}

#[test]
fn entry_type_and_information_can_be_asked_alone() {
    let text = "@FooBar{k, title = {T}, year = 1999}";
    assert_eq!(
        Bibliography::get_entry_type(text),
        Err(ParseError::UnknownEntryType("FooBar".to_string()))
    );
    let info = Bibliography::get_bibliography_informations(text).unwrap();
    assert_eq!(info.title, "T");
    assert_eq!(info.year, Some("1999".to_string()));
    assert_eq!(Bibliography::get_entry_type("@inbook{k}"), Ok(EntryType::InBook));
    assert_eq!(
        Bibliography::get_bibliography_informations("@inbook{k}"),
        Err(ParseError::MissingRequiredField)
    );
    assert_eq!(
        Bibliography::get_bibliography_informations("{title = {T}}"),
        Err(ParseError::MissingEntryType)
    );
}

#[test]
fn parse_one_is_from_raw() {
    let texts = ["@book{k, title = {T}}", "@nothing{k}", "", "@book{k, title = {"];
    for text in texts {
        assert_eq!(parse_one(text), Bibliography::from_raw(text));
    }
}

#[test]
fn entry_with_long_line_breaks_parses_as_with_short_ones() {
    let short = "@book{k,\n  title = {A title\n  in two lines},\n  year = 1999\n}\n";
    let long = short.replace('\n', "\r\n");
    let record = Bibliography::from_raw(&long).unwrap();
    assert_eq!(record.information.title, "A title   in two lines");
    assert_eq!(Bibliography::from_raw(short), Bibliography::from_raw(&long));
}
