//! The fields that a record knows, and how a name written in an entry names
//! one of them.

use crate::text::{ascii_upper, chars_of, same_word, upper, word_matches};
use vstd::prelude::*;

verus! {

/// A field of a record. A record has a title; every other field may be
/// missing.
#[derive(Clone, Copy, Debug, PartialEq, Eq, Hash, Structural)]
pub enum Field {
    Title,
    Author,
    Publisher,
    Booktitle,
    Chapter,
    Edition,
    Howpublished,
    Institution,
    Journal,
    Month,
    Note,
    Number,
    Organization,
    Pages,
    School,
    Series,
    Volume,
    Year,
    Abstract,
    Doi,
    Isbn,
    Issn,
}

impl Field {
    /// The name of the field, in upper case.
    pub open spec fn label(self) -> Seq<char> {
        match self {
            Field::Title => "TITLE"@,
            Field::Author => "AUTHOR"@,
            Field::Publisher => "PUBLISHER"@,
            Field::Booktitle => "BOOKTITLE"@,
            Field::Chapter => "CHAPTER"@,
            Field::Edition => "EDITION"@,
            Field::Howpublished => "HOWPUBLISHED"@,
            Field::Institution => "INSTITUTION"@,
            Field::Journal => "JOURNAL"@,
            Field::Month => "MONTH"@,
            Field::Note => "NOTE"@,
            Field::Number => "NUMBER"@,
            Field::Organization => "ORGANIZATION"@,
            Field::Pages => "PAGES"@,
            Field::School => "SCHOOL"@,
            Field::Series => "SERIES"@,
            Field::Volume => "VOLUME"@,
            Field::Year => "YEAR"@,
            Field::Abstract => "ABSTRACT"@,
            Field::Doi => "DOI"@,
            Field::Isbn => "ISBN"@,
            Field::Issn => "ISSN"@,
        }
    }

    /// The name of the field, in upper case.
    pub fn name(&self) -> (out: &'static str)
        ensures
            out@ == self.label(),
    {
        match self {
            Field::Title => "TITLE",
            Field::Author => "AUTHOR",
            Field::Publisher => "PUBLISHER",
            Field::Booktitle => "BOOKTITLE",
            Field::Chapter => "CHAPTER",
            Field::Edition => "EDITION",
            Field::Howpublished => "HOWPUBLISHED",
            Field::Institution => "INSTITUTION",
            Field::Journal => "JOURNAL",
            Field::Month => "MONTH",
            Field::Note => "NOTE",
            Field::Number => "NUMBER",
            Field::Organization => "ORGANIZATION",
            Field::Pages => "PAGES",
            Field::School => "SCHOOL",
            Field::Series => "SERIES",
            Field::Volume => "VOLUME",
            Field::Year => "YEAR",
            Field::Abstract => "ABSTRACT",
            Field::Doi => "DOI",
            Field::Isbn => "ISBN",
            Field::Issn => "ISSN",
        }
    }

    /// The field that `name` names, whatever the case of its letters.
    pub fn from_name(name: &str) -> (r: Option<Field>)
        ensures
            r == field_of(name@),
    {
        let text = chars_of(name);
        assert(text@.subrange(0, text@.len() as int) =~= name@);
        lookup(text.as_slice(), 0, text.len())
    }
}

/// The field whose name is `name` but for the case of letters, if there is
/// one.
#[verifier::opaque]
pub open spec fn field_of(name: Seq<char>) -> Option<Field> {
    if same_word(name, Field::Title.label()) {
        Some(Field::Title)
    } else if same_word(name, Field::Author.label()) {
        Some(Field::Author)
    } else if same_word(name, Field::Publisher.label()) {
        Some(Field::Publisher)
    } else if same_word(name, Field::Booktitle.label()) {
        Some(Field::Booktitle)
    } else if same_word(name, Field::Chapter.label()) {
        Some(Field::Chapter)
    } else if same_word(name, Field::Edition.label()) {
        Some(Field::Edition)
    } else if same_word(name, Field::Howpublished.label()) {
        Some(Field::Howpublished)
    } else if same_word(name, Field::Institution.label()) {
        Some(Field::Institution)
    } else if same_word(name, Field::Journal.label()) {
        Some(Field::Journal)
    } else if same_word(name, Field::Month.label()) {
        Some(Field::Month)
    } else if same_word(name, Field::Note.label()) {
        Some(Field::Note)
    } else if same_word(name, Field::Number.label()) {
        Some(Field::Number)
    } else if same_word(name, Field::Organization.label()) {
        Some(Field::Organization)
    } else if same_word(name, Field::Pages.label()) {
        Some(Field::Pages)
    } else if same_word(name, Field::School.label()) {
        Some(Field::School)
    } else if same_word(name, Field::Series.label()) {
        Some(Field::Series)
    } else if same_word(name, Field::Volume.label()) {
        Some(Field::Volume)
    } else if same_word(name, Field::Year.label()) {
        Some(Field::Year)
    } else if same_word(name, Field::Abstract.label()) {
        Some(Field::Abstract)
    } else if same_word(name, Field::Doi.label()) {
        Some(Field::Doi)
    } else if same_word(name, Field::Isbn.label()) {
        Some(Field::Isbn)
    } else if same_word(name, Field::Issn.label()) {
        Some(Field::Issn)
    } else {
        None
    }
}

/// Looks the name at `from..to` up among the fields.
pub fn lookup(text: &[char], from: usize, to: usize) -> (r: Option<Field>)
    requires
        from <= to <= text@.len(),
    ensures
        r == field_of(text@.subrange(from as int, to as int)),
{
    reveal(field_of);
    if word_matches(text, from, to, "TITLE") {
        Some(Field::Title)
    } else if word_matches(text, from, to, "AUTHOR") {
        Some(Field::Author)
    } else if word_matches(text, from, to, "PUBLISHER") {
        Some(Field::Publisher)
    } else if word_matches(text, from, to, "BOOKTITLE") {
        Some(Field::Booktitle)
    } else if word_matches(text, from, to, "CHAPTER") {
        Some(Field::Chapter)
    } else if word_matches(text, from, to, "EDITION") {
        Some(Field::Edition)
    } else if word_matches(text, from, to, "HOWPUBLISHED") {
        Some(Field::Howpublished)
    } else if word_matches(text, from, to, "INSTITUTION") {
        Some(Field::Institution)
    } else if word_matches(text, from, to, "JOURNAL") {
        Some(Field::Journal)
    } else if word_matches(text, from, to, "MONTH") {
        Some(Field::Month)
    } else if word_matches(text, from, to, "NOTE") {
        Some(Field::Note)
    } else if word_matches(text, from, to, "NUMBER") {
        Some(Field::Number)
    } else if word_matches(text, from, to, "ORGANIZATION") {
        Some(Field::Organization)
    } else if word_matches(text, from, to, "PAGES") {
        Some(Field::Pages)
    } else if word_matches(text, from, to, "SCHOOL") {
        Some(Field::School)
    } else if word_matches(text, from, to, "SERIES") {
        Some(Field::Series)
    } else if word_matches(text, from, to, "VOLUME") {
        Some(Field::Volume)
    } else if word_matches(text, from, to, "YEAR") {
        Some(Field::Year)
    } else if word_matches(text, from, to, "ABSTRACT") {
        Some(Field::Abstract)
    } else if word_matches(text, from, to, "DOI") {
        Some(Field::Doi)
    } else if word_matches(text, from, to, "ISBN") {
        Some(Field::Isbn)
    } else if word_matches(text, from, to, "ISSN") {
        Some(Field::Issn)
    } else {
        None
    }
}

/// Two names that differ only in the case of their letters name the same
/// field, or both name none.
pub proof fn lemma_field_ignores_case(a: Seq<char>, b: Seq<char>)
    requires
        same_word(a, b),
    ensures
        field_of(a) == field_of(b),
{
    reveal(field_of);
}

/// No two fields have the same name, even with the case of letters ignored.
pub proof fn lemma_distinct_labels()
    ensures
        forall|f: Field, g: Field| same_word(f.label(), g.label()) ==> f == g,
{
    reveal_strlit("TITLE");
    reveal_strlit("AUTHOR");
    reveal_strlit("PUBLISHER");
    reveal_strlit("BOOKTITLE");
    reveal_strlit("CHAPTER");
    reveal_strlit("EDITION");
    reveal_strlit("HOWPUBLISHED");
    reveal_strlit("INSTITUTION");
    reveal_strlit("JOURNAL");
    reveal_strlit("MONTH");
    reveal_strlit("NOTE");
    reveal_strlit("NUMBER");
    reveal_strlit("ORGANIZATION");
    reveal_strlit("PAGES");
    reveal_strlit("SCHOOL");
    reveal_strlit("SERIES");
    reveal_strlit("VOLUME");
    reveal_strlit("YEAR");
    reveal_strlit("ABSTRACT");
    reveal_strlit("DOI");
    reveal_strlit("ISBN");
    reveal_strlit("ISSN");
    assert forall|f: Field, g: Field| same_word(f.label(), g.label()) implies f == g by {
        let a = upper(f.label());
        let b = upper(g.label());
        assert(a.len() == f.label().len());
        assert(b.len() == g.label().len());
        if f != g && a.len() == b.len() {
            assert(a[0] == ascii_upper(f.label()[0]));
            assert(b[0] == ascii_upper(g.label()[0]));
            assert(a[1] == ascii_upper(f.label()[1]));
            assert(b[1] == ascii_upper(g.label()[1]));
            assert(a[2] == ascii_upper(f.label()[2]));
            assert(b[2] == ascii_upper(g.label()[2]));
        }
    }
}

/// A name names a field exactly if it is the name of that field but for the
/// case of letters.
pub proof fn lemma_field_of(name: Seq<char>, f: Field)
    ensures
        field_of(name) == Some(f) <==> same_word(name, f.label()),
{
    reveal(field_of);
    lemma_distinct_labels();
    if same_word(name, f.label()) {
        assert forall|other: Field| same_word(name, other.label()) implies other == f by {
            assert(same_word(other.label(), f.label()));
        }
    }
}

/// The name of a field names that field.
pub proof fn lemma_label_names_its_field(f: Field)
    ensures
        field_of(f.label()) == Some(f),
{
    lemma_field_of(f.label(), f);
}

/// A field as text: its name and its value, as they were written or after
/// cleaning.
#[derive(Debug, PartialEq, Eq)]
pub struct FieldText {
    pub name: String,
    pub value: String,
}

impl View for FieldText {
    type V = (Seq<char>, Seq<char>);

    open spec fn view(&self) -> (Seq<char>, Seq<char>) {
        (self.name@, self.value@)
    }
}

/// The names and values of `fields`.
pub open spec fn texts(fields: Seq<FieldText>) -> Seq<(Seq<char>, Seq<char>)> {
    fields.map_values(|f: FieldText| f@)
}

} // verus!
