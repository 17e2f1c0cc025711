use bibtex_parser::error::ParseError;
use bibtex_parser::model::bibliography::{Bibliography, BibliographyInformation, EntryType};
use bibtex_parser::model::field::{Field, FieldText};

fn field(name: &str, value: &str) -> FieldText {
    FieldText { name: name.to_string(), value: value.to_string() }
}

const ENTRY_TYPES: [EntryType; 15] = [
    EntryType::Book,
    EntryType::Article,
    EntryType::Booklet,
    EntryType::Conference,
    EntryType::InBook,
    EntryType::InCollection,
    EntryType::InProceedings,
    EntryType::Manual,
    EntryType::Masterthesis,
    EntryType::Misc,
    EntryType::Phdthessis,
    EntryType::Proceedings,
    EntryType::Techreport,
    EntryType::Unpublished,
    EntryType::NoneType,
];

const FIELDS: [Field; 22] = [
    Field::Title,
    Field::Author,
    Field::Publisher,
    Field::Booktitle,
    Field::Chapter,
    Field::Edition,
    Field::Howpublished,
    Field::Institution,
    Field::Journal,
    Field::Month,
    Field::Note,
    Field::Number,
    Field::Organization,
    Field::Pages,
    Field::School,
    Field::Series,
    Field::Volume,
    Field::Year,
    Field::Abstract,
    Field::Doi,
    Field::Isbn,
    Field::Issn,
];

#[test]
fn keyword_is_classified_whatever_its_case() {
    assert_eq!(EntryType::from_keyword("ARTICLE"), Ok(EntryType::Article));
    assert_eq!(EntryType::from_keyword("Article"), Ok(EntryType::Article));
    assert_eq!(EntryType::from_keyword("article"), Ok(EntryType::Article));
    assert_eq!(EntryType::from_keyword("aRtIcLe"), Ok(EntryType::Article));
    assert_eq!(EntryType::from_keyword("InProceedings"), Ok(EntryType::InProceedings));
    assert_eq!(EntryType::from_keyword("mastersthesis"), Ok(EntryType::Masterthesis));
    assert_eq!(EntryType::from_keyword("PhdThesis"), Ok(EntryType::Phdthessis));
}

#[test]
fn unknown_keyword_is_returned_as_written() {
    assert_eq!(
        EntryType::from_keyword("FooBar"),
        Err(ParseError::UnknownEntryType("FooBar".to_string()))
    );
    assert_eq!(
        EntryType::from_keyword("books"),
        Err(ParseError::UnknownEntryType("books".to_string()))
    );
    assert_eq!(
        EntryType::from_keyword("boo"),
        Err(ParseError::UnknownEntryType("boo".to_string()))
    );
    assert_eq!(
        EntryType::from_keyword(" book"),
        Err(ParseError::UnknownEntryType(" book".to_string()))
    );
    assert_eq!(
        EntryType::from_keyword("masterthesis"),
        Err(ParseError::UnknownEntryType("masterthesis".to_string()))
    );
    assert_eq!(
        EntryType::from_keyword("artıcle"),
        Err(ParseError::UnknownEntryType("artıcle".to_string()))
    );
}

#[test]
fn empty_keyword_names_no_type() {
    assert_eq!(EntryType::from_keyword(""), Ok(EntryType::NoneType));
    assert_eq!(EntryType::NoneType.name(), "");
}

#[test]
fn name_of_an_entry_type_names_it() {
    for entry_type in ENTRY_TYPES {
        assert_eq!(EntryType::from_keyword(entry_type.name()), Ok(entry_type));
        assert_eq!(EntryType::from_keyword(&entry_type.name().to_lowercase()), Ok(entry_type));
    }
    assert_eq!(EntryType::Article.name(), "ARTICLE");
    assert_eq!(EntryType::Masterthesis.name(), "MASTERSTHESIS");
    assert_eq!(EntryType::Phdthessis.name(), "PHDTHESIS");
}

#[test]
fn name_of_a_field_names_it() {
    for known in FIELDS {
        assert_eq!(Field::from_name(known.name()), Some(known));
        assert_eq!(Field::from_name(&known.name().to_lowercase()), Some(known));
    }
    assert_eq!(Field::Title.name(), "TITLE");
    assert_eq!(Field::Abstract.name(), "ABSTRACT");
    assert_eq!(Field::from_name("Author"), Some(Field::Author));
    assert_eq!(Field::from_name("abstract_"), None);
    assert_eq!(Field::from_name("keywords"), None);
    assert_eq!(Field::from_name(""), None);
    assert_eq!(Field::from_name("titl"), None);
    assert_eq!(Field::from_name("titles"), None);
}

#[test]
fn information_is_read_and_written_by_field() {
    let mut info = BibliographyInformation::new();
    assert_eq!(info.get(Field::Title), Some(&String::new()));
    for known in FIELDS {
        if known != Field::Title {
            assert_eq!(info.get(known), None);
        }
    }
    for (n, known) in FIELDS.iter().enumerate() {
        info.set(*known, format!("value {}", n));
    }
    for (n, known) in FIELDS.iter().enumerate() {
        assert_eq!(info.get(*known), Some(&format!("value {}", n)));
    }
    assert_eq!(info.title, "value 0");
    assert_eq!(info.abstract_, Some("value 18".to_string()));
    assert_eq!(info.issn, Some("value 21".to_string()));
    info.set(Field::Year, "1999".to_string());
    assert_eq!(info.year, Some("1999".to_string()));
    assert_eq!(info.volume, Some("value 16".to_string()));
}

#[test]
fn record_is_built_from_names_and_values() {
    let fields = vec![
        field("title", "First"),
        field("Author", "A. Writer"),
        field("colour", "blue"),
        field("TITLE", "Second"),
        field("note", ""),
    ];
    let record = Bibliography::build(EntryType::Manual, fields).unwrap();
    assert_eq!(record.entrytype, EntryType::Manual);
    assert_eq!(record.information.title, "Second");
    assert_eq!(record.information.author, Some("A. Writer".to_string()));
    assert_eq!(record.information.note, Some(String::new()));
    assert_eq!(record.information.year, None);
}

#[test]
fn record_without_title_is_not_built() {
    let fields = vec![field("author", "A. Writer"), field("titles", "no title")];
    assert_eq!(Bibliography::build(EntryType::Book, fields), Err(ParseError::MissingRequiredField));
    assert_eq!(Bibliography::build(EntryType::Book, vec![]), Err(ParseError::MissingRequiredField));
    assert_eq!(BibliographyInformation::build(vec![]), Err(ParseError::MissingRequiredField));
}

#[test]
fn every_fault_has_its_message() {
    assert_eq!(ParseError::UnbalancedDelimiter.message(), "a brace or quote is never closed");
    assert_eq!(ParseError::MissingEntryType.message(), "the entry has no type keyword");
    assert_eq!(
        ParseError::UnknownEntryType("FooBar".to_string()).message(),
        "unknown entry type: FooBar"
    );
    assert_eq!(ParseError::MissingRequiredField.message(), "the entry has no title");
    assert_eq!(
        ParseError::MalformedFieldLine.message(),
        "a field is not of the form name = value"
    );
    let fault = ParseError::UnknownEntryType("x".to_string());
    assert_eq!(fault.clone(), fault);
}
