//! Records: one parsed entry each, an entry type and the fields of the
//! entry, and how a record is put together from what the scanner found.
//!
//! A field name is looked up among the known fields without regard to the
//! case of its letters. A field with a name that is not known is dropped.
//! Where a name occurs more than once in an entry, its last value stays. An
//! entry without a title gives no record. A field that is present with an
//! empty value is present: its value is the empty text.

use crate::error::{ParseError, ParseFault};
use crate::model::entry_type::{lemma_entry_type_of, lemma_none_type};
use crate::model::field::{field_of, texts, Field, FieldText};
use crate::text::{chars_of, is_brace, same_word, skip_spaces, string_of};
use crate::tokenizer::{
    all_within, body_fields, cuts, is_raw_field, keyword_end, keyword_of, lemma_fields_from,
    scan_body, scan_keyword, FieldSpan,
};
use crate::value::{
    cleaned, lemma_clean_body_is_flat, lemma_cleaned_of_raw_value, normalize_range, normalized,
    strip_delimiters,
};
use vstd::prelude::*;

pub use crate::model::entry_type::{classify, entry_type_of, EntryType};

verus! {

/// What is known of an entry besides its type: its title, and the fields
/// that it gave a value to.
#[derive(Debug, PartialEq, Eq)]
pub struct BibliographyInformation {
    pub title: String,
    pub author: Option<String>,
    pub publisher: Option<String>,
    pub booktitle: Option<String>,
    pub chapter: Option<String>,
    pub edition: Option<String>,
    pub howpublished: Option<String>,
    pub institution: Option<String>,
    pub journal: Option<String>,
    pub month: Option<String>,
    pub note: Option<String>,
    pub number: Option<String>,
    pub organization: Option<String>,
    pub pages: Option<String>,
    pub school: Option<String>,
    pub series: Option<String>,
    pub volume: Option<String>,
    pub year: Option<String>,
    pub abstract_: Option<String>,
    pub doi: Option<String>,
    pub isbn: Option<String>,
    pub issn: Option<String>,
}

/// One parsed entry.
#[derive(Debug, PartialEq, Eq)]
pub struct Bibliography {
    pub entrytype: EntryType,
    pub information: BibliographyInformation,
}

/// A record as a mathematical value: its entry type, and a map from the
/// fields that are present to their values.
pub struct Record {
    pub entry_type: EntryType,
    pub fields: Map<Field, Seq<char>>,
}

/// The text of a string that may be missing.
pub open spec fn text_of(value: Option<String>) -> Option<Seq<char>> {
    match value {
        Some(text) => Some(text@),
        None => None,
    }
}

impl BibliographyInformation {
    /// The value of `field`, if the field is present. The title always is.
    pub open spec fn value(&self, field: Field) -> Option<Seq<char>> {
        match field {
            Field::Title => Some(self.title@),
            Field::Author => text_of(self.author),
            Field::Publisher => text_of(self.publisher),
            Field::Booktitle => text_of(self.booktitle),
            Field::Chapter => text_of(self.chapter),
            Field::Edition => text_of(self.edition),
            Field::Howpublished => text_of(self.howpublished),
            Field::Institution => text_of(self.institution),
            Field::Journal => text_of(self.journal),
            Field::Month => text_of(self.month),
            Field::Note => text_of(self.note),
            Field::Number => text_of(self.number),
            Field::Organization => text_of(self.organization),
            Field::Pages => text_of(self.pages),
            Field::School => text_of(self.school),
            Field::Series => text_of(self.series),
            Field::Volume => text_of(self.volume),
            Field::Year => text_of(self.year),
            Field::Abstract => text_of(self.abstract_),
            Field::Doi => text_of(self.doi),
            Field::Isbn => text_of(self.isbn),
            Field::Issn => text_of(self.issn),
        }
    }

    /// Information with an empty title and no other field.
    pub fn new() -> (out: Self)
        ensures
            out@ == Map::<Field, Seq<char>>::empty().insert(Field::Title, Seq::<char>::empty()),
    {
        let out = BibliographyInformation {
            title: String::new(),
            author: None,
            publisher: None,
            booktitle: None,
            chapter: None,
            edition: None,
            howpublished: None,
            institution: None,
            journal: None,
            month: None,
            note: None,
            number: None,
            organization: None,
            pages: None,
            school: None,
            series: None,
            volume: None,
            year: None,
            abstract_: None,
            doi: None,
            isbn: None,
            issn: None,
        };
        assert(out@ =~= Map::<Field, Seq<char>>::empty().insert(
            Field::Title,
            Seq::<char>::empty(),
        ));
        out
    }

    /// The value of `field`, if the field is present.
    pub fn get(&self, field: Field) -> (out: Option<&String>)
        ensures
            match out {
                Some(text) => self@.contains_key(field) && self@[field] == text@,
                None => !self@.contains_key(field),
            },
    {
        match field {
            Field::Title => Some(&self.title),
            Field::Author => self.author.as_ref(),
            Field::Publisher => self.publisher.as_ref(),
            Field::Booktitle => self.booktitle.as_ref(),
            Field::Chapter => self.chapter.as_ref(),
            Field::Edition => self.edition.as_ref(),
            Field::Howpublished => self.howpublished.as_ref(),
            Field::Institution => self.institution.as_ref(),
            Field::Journal => self.journal.as_ref(),
            Field::Month => self.month.as_ref(),
            Field::Note => self.note.as_ref(),
            Field::Number => self.number.as_ref(),
            Field::Organization => self.organization.as_ref(),
            Field::Pages => self.pages.as_ref(),
            Field::School => self.school.as_ref(),
            Field::Series => self.series.as_ref(),
            Field::Volume => self.volume.as_ref(),
            Field::Year => self.year.as_ref(),
            Field::Abstract => self.abstract_.as_ref(),
            Field::Doi => self.doi.as_ref(),
            Field::Isbn => self.isbn.as_ref(),
            Field::Issn => self.issn.as_ref(),
        }
    }

    /// Gives `field` the value `value`, in place of the value it had, if any.
    pub fn set(&mut self, field: Field, value: String)
        ensures
            final(self)@ == old(self)@.insert(field, value@),
    {
        match field {
            Field::Title => {
                self.title = value;
            },
            Field::Author => {
                self.author = Some(value);
            },
            Field::Publisher => {
                self.publisher = Some(value);
            },
            Field::Booktitle => {
                self.booktitle = Some(value);
            },
            Field::Chapter => {
                self.chapter = Some(value);
            },
            Field::Edition => {
                self.edition = Some(value);
            },
            Field::Howpublished => {
                self.howpublished = Some(value);
            },
            Field::Institution => {
                self.institution = Some(value);
            },
            Field::Journal => {
                self.journal = Some(value);
            },
            Field::Month => {
                self.month = Some(value);
            },
            Field::Note => {
                self.note = Some(value);
            },
            Field::Number => {
                self.number = Some(value);
            },
            Field::Organization => {
                self.organization = Some(value);
            },
            Field::Pages => {
                self.pages = Some(value);
            },
            Field::School => {
                self.school = Some(value);
            },
            Field::Series => {
                self.series = Some(value);
            },
            Field::Volume => {
                self.volume = Some(value);
            },
            Field::Year => {
                self.year = Some(value);
            },
            Field::Abstract => {
                self.abstract_ = Some(value);
            },
            Field::Doi => {
                self.doi = Some(value);
            },
            Field::Isbn => {
                self.isbn = Some(value);
            },
            Field::Issn => {
                self.issn = Some(value);
            },
        }
        assert(self@ =~= old(self)@.insert(field, value@));
    }
}

impl View for BibliographyInformation {
    type V = Map<Field, Seq<char>>;

    open spec fn view(&self) -> Map<Field, Seq<char>> {
        Map::new(|field: Field| self.value(field) is Some, |field: Field| self.value(field)->0)
    }
}

impl View for Bibliography {
    type V = Record;

    open spec fn view(&self) -> Record {
        Record { entry_type: self.entrytype, fields: self.information@ }
    }
}

/// How the fields of the structure show in its view: a field is in the map
/// exactly if it is present in the structure, and then with the same value.
pub proof fn lemma_information_view(information: BibliographyInformation, field: Field)
    ensures
        information@.contains_key(field) <==> information.value(field) is Some,
        information@.contains_key(field) ==> information@[field] == information.value(field)->0,
        information@.contains_key(Field::Title),
        information@[Field::Title] == information.title@,
{
    assert(information.value(Field::Title) is Some);
}

/// The fields of a record, from the names and clean values of an entry in
/// the order of the text: each known field with the last value given to it.
pub open spec fn record_fields(fields: Seq<(Seq<char>, Seq<char>)>) -> Map<Field, Seq<char>>
    decreases fields.len(),
{
    if fields.len() == 0 {
        Map::empty()
    } else {
        let earlier = record_fields(fields.drop_last());
        match field_of(fields.last().0) {
            Some(field) => earlier.insert(field, fields.last().1),
            None => earlier,
        }
    }
}

/// The fields of the record of an entry with the names and clean values
/// `fields`: there is a record if a title is among them.
pub open spec fn information_of(fields: Seq<(Seq<char>, Seq<char>)>) -> Result<
    Map<Field, Seq<char>>,
    ParseFault,
> {
    if record_fields(fields).contains_key(Field::Title) {
        Ok(record_fields(fields))
    } else {
        Err(ParseFault::MissingRequiredField)
    }
}

/// The record of an entry of type `entry_type` with the names and clean
/// values `fields`.
pub open spec fn record_of(entry_type: EntryType, fields: Seq<(Seq<char>, Seq<char>)>) -> Result<
    Record,
    ParseFault,
> {
    match information_of(fields) {
        Ok(known) => Ok(Record { entry_type, fields: known }),
        Err(fault) => Err(fault),
    }
}

/// The names of `fields`, each with its raw value cleaned.
pub open spec fn clean_fields(fields: Seq<(Seq<char>, Seq<char>)>) -> Seq<(Seq<char>, Seq<char>)> {
    fields.map_values(|f: (Seq<char>, Seq<char>)| (f.0, normalized(f.1)))
}

/// The entry type of the entry `s`: the type that its keyword names.
pub open spec fn entry_type_in(s: Seq<char>) -> Result<EntryType, ParseFault> {
    match keyword_of(s) {
        None => Err(ParseFault::MissingEntryType),
        Some(keyword) => match entry_type_of(keyword) {
            Some(entry_type) => Ok(entry_type),
            None => Err(ParseFault::UnknownEntryType(keyword)),
        },
    }
}

/// The fields of the record of the entry `s`.
pub open spec fn information_in(s: Seq<char>) -> Result<Map<Field, Seq<char>>, ParseFault> {
    match keyword_of(s) {
        None => Err(ParseFault::MissingEntryType),
        Some(_) => match body_fields(s, keyword_end(s)) {
            Ok(fields) => information_of(clean_fields(fields)),
            Err(fault) => Err(fault),
        },
    }
}

/// What parsing makes of the entry `s`: its record, or the first fault in
/// it. The keyword is judged first, then the body, then the fields as a
/// whole.
pub open spec fn parse_entry(s: Seq<char>) -> Result<Record, ParseFault> {
    match entry_type_in(s) {
        Err(fault) => Err(fault),
        Ok(entry_type) => match information_in(s) {
            Ok(fields) => Ok(Record { entry_type, fields }),
            Err(fault) => Err(fault),
        },
    }
}

impl BibliographyInformation {
    /// Builds the fields of a record from the names and clean values of the
    /// fields of an entry, in the order in which they were written.
    pub fn build(fields: Vec<FieldText>) -> (r: Result<BibliographyInformation, ParseError>)
        ensures
            match information_of(texts(fields@)) {
                Ok(known) => r is Ok && r->Ok_0@ == known,
                Err(fault) => r is Err && r->Err_0@ == fault,
            },
    {
        let ghost all = texts(fields@);
        let mut title: Option<String> = None;
        let mut information = BibliographyInformation::new();
        assert(all.take(0) =~= Seq::empty());
        for field in it: fields
            invariant
                all == texts(it.seq()),
                text_of(title) == present(record_fields(all.take(it.index())), Field::Title),
                same_but_title(information@, record_fields(all.take(it.index()))),
        {
            let ghost seen = all.take(it.index());
            let ghost next = all.take(it.index() + 1);
            let ghost held = information@;
            proof {
                assert(next.drop_last() =~= seen);
                assert(next.last() == field@);
            }
            match Field::from_name(field.name.as_str()) {
                Some(Field::Title) => {
                    title = Some(field.value);
                },
                Some(known) => {
                    information.set(known, field.value);
                },
                None => {},
            }
            assert forall|other: Field| other != Field::Title implies present(
                information@,
                other,
            ) == present(record_fields(next), other) by {
                assert(present(held, other) == present(record_fields(seen), other));
            }
        }
        assert(all.take(all.len() as int) =~= all);
        match title {
            Some(text) => {
                let ghost held = information@;
                information.set(Field::Title, text);
                assert forall|other: Field|
                    present(information@, other) == present(record_fields(all), other) by {
                    if other != Field::Title {
                        assert(present(held, other) == present(record_fields(all), other));
                    }
                }
                proof {
                    lemma_same_fields(information@, record_fields(all));
                }
                Ok(information)
            },
            None => Err(ParseError::MissingRequiredField),
        }
    }
}

/// Cleans the raw value of each field that `spans` marks in `text`.
pub fn clean_all(text: &[char], spans: &Vec<FieldSpan>) -> (out: Vec<FieldText>)
    requires
        all_within(spans@, text@),
    ensures
        texts(out@) == clean_fields(cuts(spans@, text@)),
{
    let mut out: Vec<FieldText> = Vec::new();
    let mut k: usize = 0;
    while k < spans.len()
        invariant
            k <= spans@.len(),
            all_within(spans@, text@),
            out@.len() == k,
            forall|j: int|
                0 <= j < k ==> (#[trigger] out@[j])@ == clean_fields(cuts(spans@, text@))[j],
        decreases spans@.len() - k,
    {
        let span = spans[k];
        assert(span.within(text@));
        let name = string_of(text, span.name.from, span.name.to);
        let value = normalize_range(text, span.value.from, span.value.to);
        out.push(FieldText { name, value });
        k += 1;
    }
    assert(texts(out@) =~= clean_fields(cuts(spans@, text@)));
    out
}

/// Finds the entry type of the entry in `text`.
pub fn entry_type_at(text: &[char]) -> (r: Result<EntryType, ParseError>)
    ensures
        match entry_type_in(text@) {
            Ok(entry_type) => r == Ok::<EntryType, ParseError>(entry_type),
            Err(fault) => r is Err && r->Err_0@ == fault,
        },
{
    match scan_keyword(text) {
        None => Err(ParseError::MissingEntryType),
        Some(keyword) => match classify(text, keyword.from, keyword.to) {
            Some(entry_type) => Ok(entry_type),
            None => Err(ParseError::UnknownEntryType(string_of(text, keyword.from, keyword.to))),
        },
    }
}

/// Collects the fields of the entry in `text`.
pub fn information_at(text: &[char]) -> (r: Result<BibliographyInformation, ParseError>)
    ensures
        match information_in(text@) {
            Ok(fields) => r is Ok && r->Ok_0@ == fields,
            Err(fault) => r is Err && r->Err_0@ == fault,
        },
{
    let keyword = match scan_keyword(text) {
        Some(keyword) => keyword,
        None => {
            return Err(ParseError::MissingEntryType);
        },
    };
    let spans = match scan_body(text, keyword.to) {
        Ok(spans) => spans,
        Err(fault) => {
            return Err(fault);
        },
    };
    BibliographyInformation::build(clean_all(text, &spans))
}

/// Parses the entry in `text`.
pub fn parse_chars(text: &[char]) -> (r: Result<Bibliography, ParseError>)
    ensures
        match parse_entry(text@) {
            Ok(record) => r is Ok && r->Ok_0@ == record,
            Err(fault) => r is Err && r->Err_0@ == fault,
        },
{
    let entrytype = match entry_type_at(text) {
        Ok(entrytype) => entrytype,
        Err(fault) => {
            return Err(fault);
        },
    };
    let information = match information_at(text) {
        Ok(information) => information,
        Err(fault) => {
            return Err(fault);
        },
    };
    Ok(Bibliography { entrytype, information })
}

impl Bibliography {
    /// Builds the record of an entry of type `entrytype` from the names and
    /// clean values of its fields, in the order in which they were written.
    pub fn build(entrytype: EntryType, fields: Vec<FieldText>) -> (r: Result<
        Bibliography,
        ParseError,
    >)
        ensures
            match record_of(entrytype, texts(fields@)) {
                Ok(record) => r is Ok && r->Ok_0@ == record,
                Err(fault) => r is Err && r->Err_0@ == fault,
            },
    {
        match BibliographyInformation::build(fields) {
            Ok(information) => Ok(Bibliography { entrytype, information }),
            Err(fault) => Err(fault),
        }
    }

    /// Parses one entry: its text gives its record, or the first fault in
    /// it.
    pub fn from_raw(input: &str) -> (r: Result<Bibliography, ParseError>)
        ensures
            match parse_entry(input@) {
                Ok(record) => r is Ok && r->Ok_0@ == record,
                Err(fault) => r is Err && r->Err_0@ == fault,
            },
    {
        let text = chars_of(input);
        parse_chars(text.as_slice())
    }

    /// Finds the entry type of an entry: the type that its keyword names.
    pub fn get_entry_type(input: &str) -> (r: Result<EntryType, ParseError>)
        ensures
            match entry_type_in(input@) {
                Ok(entry_type) => r == Ok::<EntryType, ParseError>(entry_type),
                Err(fault) => r is Err && r->Err_0@ == fault,
            },
    {
        let text = chars_of(input);
        entry_type_at(text.as_slice())
    }

    /// Collects the fields of an entry, whatever its keyword is.
    pub fn get_bibliography_informations(input: &str) -> (r: Result<
        BibliographyInformation,
        ParseError,
    >)
        ensures
            match information_in(input@) {
                Ok(fields) => r is Ok && r->Ok_0@ == fields,
                Err(fault) => r is Err && r->Err_0@ == fault,
            },
    {
        let text = chars_of(input);
        information_at(text.as_slice())
    }
}

/// Two maps that hold the same fields with the same values are one map.
pub proof fn lemma_same_fields(a: Map<Field, Seq<char>>, b: Map<Field, Seq<char>>)
    requires
        forall|field: Field| present(a, field) == present(b, field),
    ensures
        a == b,
{
    assert forall|field: Field| a.dom().contains(field) == b.dom().contains(field) by {
        assert(present(a, field) == present(b, field));
    }
    assert(a.dom() =~= b.dom());
    assert forall|field: Field| a.dom().contains(field) implies a[field] == b[field] by {
        assert(present(a, field) == present(b, field));
    }
    assert(a =~= b);
}

/// Whether `a` and `b` hold the same fields with the same values, the title
/// apart.
pub open spec fn same_but_title(a: Map<Field, Seq<char>>, b: Map<Field, Seq<char>>) -> bool {
    forall|field: Field| field != Field::Title ==> present(a, field) == present(b, field)
}

/// The value of `field` in `fields`, if it is present.
pub open spec fn present(fields: Map<Field, Seq<char>>, field: Field) -> Option<Seq<char>> {
    if fields.contains_key(field) {
        Some(fields[field])
    } else {
        None
    }
}

/// Whether the field at `j` in `fields` is written with a name of `field`.
pub open spec fn names(fields: Seq<(Seq<char>, Seq<char>)>, j: int, field: Field) -> bool {
    0 <= j < fields.len() && field_of(fields[j].0) == Some(field)
}

/// Whether `j` is the last place in `fields` that names `field`.
pub open spec fn names_last(fields: Seq<(Seq<char>, Seq<char>)>, j: int, field: Field) -> bool {
    names(fields, j, field) && forall|k: int| j < k < fields.len() ==> !names(fields, k, field)
}

/// A record holds a field exactly if the entry names it, and then with the
/// value that the entry gives it last. So a name that is not known adds
/// nothing, and of two values for one name the later one stays.
pub proof fn lemma_record_fields(fields: Seq<(Seq<char>, Seq<char>)>, field: Field)
    ensures
        record_fields(fields).contains_key(field) <==> exists|j: int| names(fields, j, field),
        forall|j: int|
            names_last(fields, j, field) ==> record_fields(fields)[field] == (
            #[trigger] fields[j]).1,
    decreases fields.len(),
{
    if fields.len() > 0 {
        let earlier = fields.drop_last();
        let last = fields.len() - 1;
        lemma_record_fields(earlier, field);
        if names(fields, last, field) {
            assert(record_fields(fields)[field] == fields[last].1);
        } else {
            if exists|j: int| names(fields, j, field) {
                let j = choose|j: int| names(fields, j, field);
                assert(names(earlier, j, field));
            }
            if exists|j: int| names(earlier, j, field) {
                let j = choose|j: int| names(earlier, j, field);
                assert(names(fields, j, field));
            }
            assert forall|j: int| names_last(fields, j, field) implies record_fields(
                fields,
            )[field] == (#[trigger] fields[j]).1 by {
                assert(names(earlier, j, field));
                assert forall|k: int| j < k < earlier.len() implies !names(earlier, k, field) by {
                    assert(!names(fields, k, field));
                }
                assert(earlier[j] == fields[j]);
            }
        }
    }
}

/// Where an entry names a field, there is a last place at which it does.
pub proof fn lemma_names_last(fields: Seq<(Seq<char>, Seq<char>)>, j: int, field: Field) -> (last:
    int)
    requires
        names(fields, j, field),
    ensures
        names_last(fields, last, field),
        j <= last,
    decreases fields.len() - j,
{
    if exists|k: int| j < k < fields.len() && names(fields, k, field) {
        let k = choose|k: int| j < k < fields.len() && names(fields, k, field);
        lemma_names_last(fields, k, field)
    } else {
        j
    }
}

/// What holds of every entry that parses to a record. The entry has a
/// keyword, and the entry type of the record is the one that the keyword
/// names, whatever the case of its letters; it is never `NoneType`. The body
/// of the entry names a title, and the title of the record is the raw value
/// that the body gives last to a title, without its outer delimiters and
/// cleaned.
pub proof fn lemma_valid_entry(s: Seq<char>) -> (j: int)
    requires
        parse_entry(s) is Ok,
    ensures
        keyword_of(s) is Some,
        same_word(keyword_of(s)->0, parse_entry(s)->Ok_0.entry_type.keyword()),
        parse_entry(s)->Ok_0.entry_type != EntryType::NoneType,
        body_fields(s, keyword_end(s)) is Ok,
        names_last(body_fields(s, keyword_end(s))->Ok_0, j, Field::Title),
        is_raw_field(body_fields(s, keyword_end(s))->Ok_0[j]),
        parse_entry(s)->Ok_0.fields.contains_key(Field::Title),
        parse_entry(s)->Ok_0.fields[Field::Title] == normalized(
            body_fields(s, keyword_end(s))->Ok_0[j].1,
        ),
        cleaned(body_fields(s, keyword_end(s))->Ok_0[j].1) == Ok::<Seq<char>, ParseFault>(
            parse_entry(s)->Ok_0.fields[Field::Title],
        ),
{
    let record = parse_entry(s)->Ok_0;
    let keyword = keyword_of(s)->0;
    lemma_entry_type_of(keyword, record.entry_type);
    lemma_none_type(keyword);
    let fields = body_fields(s, keyword_end(s))->Ok_0;
    let clean = clean_fields(fields);
    lemma_record_fields(clean, Field::Title);
    let some = choose|j: int| names(clean, j, Field::Title);
    let j = lemma_names_last(clean, some, Field::Title);
    assert(names_last(fields, j, Field::Title)) by {
        assert(names(fields, j, Field::Title));
        assert forall|k: int| j < k < fields.len() implies !names(fields, k, Field::Title) by {
            assert(!names(clean, k, Field::Title));
        }
    }
    lemma_fields_from(s, skip_spaces(s, keyword_end(s)) + 1, true);
    lemma_cleaned_of_raw_value(fields[j].1);
    j
}

/// Every value of a record is clean text: whatever the entry held, the
/// value holds no brace and no line feed.
pub proof fn lemma_record_is_clean(s: Seq<char>, field: Field)
    requires
        parse_entry(s) is Ok,
        parse_entry(s)->Ok_0.fields.contains_key(field),
    ensures
        forall|i: int|
            0 <= i < parse_entry(s)->Ok_0.fields[field].len() ==> {
                let c = #[trigger] parse_entry(s)->Ok_0.fields[field][i];
                !is_brace(c) && c != '\n'
            },
{
    let fields = body_fields(s, keyword_end(s))->Ok_0;
    let clean = clean_fields(fields);
    lemma_record_fields(clean, field);
    let some = choose|j: int| names(clean, j, field);
    let j = lemma_names_last(clean, some, field);
    assert(clean[j].1 == normalized(fields[j].1));
    lemma_clean_body_is_flat(strip_delimiters(fields[j].1));
}

} // verus!
