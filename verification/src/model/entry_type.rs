//! The kinds of entries, and how a keyword names one of them.

use crate::error::{ParseError, ParseFault};
use crate::text::{ascii_upper, chars_of, same_word, string_of, upper, word_matches};
use vstd::prelude::*;

verus! {

/// The kind of a bibliographic entry. `NoneType` stands for an entry of no
/// kind; the empty keyword names it, and no entry in a document has it.
#[derive(Clone, Copy, Debug, PartialEq, Eq, Structural)]
pub enum EntryType {
    Book,
    Article,
    Booklet,
    Conference,
    InBook,
    InCollection,
    InProceedings,
    Manual,
    /// A master's thesis; its keyword is `mastersthesis`.
    Masterthesis,
    Misc,
    /// A doctoral thesis; its keyword is `phdthesis`.
    Phdthessis,
    Proceedings,
    Techreport,
    Unpublished,
    NoneType,
}

impl EntryType {
    /// The keyword of the entry type, in upper case.
    pub open spec fn keyword(self) -> Seq<char> {
        match self {
            EntryType::Book => "BOOK"@,
            EntryType::Article => "ARTICLE"@,
            EntryType::Booklet => "BOOKLET"@,
            EntryType::Conference => "CONFERENCE"@,
            EntryType::InBook => "INBOOK"@,
            EntryType::InCollection => "INCOLLECTION"@,
            EntryType::InProceedings => "INPROCEEDINGS"@,
            EntryType::Manual => "MANUAL"@,
            EntryType::Masterthesis => "MASTERSTHESIS"@,
            EntryType::Misc => "MISC"@,
            EntryType::Phdthessis => "PHDTHESIS"@,
            EntryType::Proceedings => "PROCEEDINGS"@,
            EntryType::Techreport => "TECHREPORT"@,
            EntryType::Unpublished => "UNPUBLISHED"@,
            EntryType::NoneType => ""@,
        }
    }

    /// The keyword of the entry type, in upper case.
    pub fn name(&self) -> (out: &'static str)
        ensures
            out@ == self.keyword(),
    {
        match self {
            EntryType::Book => "BOOK",
            EntryType::Article => "ARTICLE",
            EntryType::Booklet => "BOOKLET",
            EntryType::Conference => "CONFERENCE",
            EntryType::InBook => "INBOOK",
            EntryType::InCollection => "INCOLLECTION",
            EntryType::InProceedings => "INPROCEEDINGS",
            EntryType::Manual => "MANUAL",
            EntryType::Masterthesis => "MASTERSTHESIS",
            EntryType::Misc => "MISC",
            EntryType::Phdthessis => "PHDTHESIS",
            EntryType::Proceedings => "PROCEEDINGS",
            EntryType::Techreport => "TECHREPORT",
            EntryType::Unpublished => "UNPUBLISHED",
            EntryType::NoneType => "",
        }
    }

    /// The entry type that `keyword` names, whatever the case of its letters.
    /// A keyword that names none is returned in the error as it was written.
    pub fn from_keyword(keyword: &str) -> (r: Result<EntryType, ParseError>)
        ensures
            match entry_type_of(keyword@) {
                Some(t) => r == Ok::<EntryType, ParseError>(t),
                None => r is Err && r->Err_0@ == ParseFault::UnknownEntryType(keyword@),
            },
    {
        let text = chars_of(keyword);
        assert(text@.subrange(0, text@.len() as int) =~= keyword@);
        match classify(text.as_slice(), 0, text.len()) {
            Some(t) => Ok(t),
            None => Err(ParseError::UnknownEntryType(string_of(text.as_slice(), 0, text.len()))),
        }
    }
}

/// The entry type whose keyword is `keyword` but for the case of letters, if
/// there is one.
#[verifier::opaque]
pub open spec fn entry_type_of(keyword: Seq<char>) -> Option<EntryType> {
    if same_word(keyword, EntryType::Book.keyword()) {
        Some(EntryType::Book)
    } else if same_word(keyword, EntryType::Article.keyword()) {
        Some(EntryType::Article)
    } else if same_word(keyword, EntryType::Booklet.keyword()) {
        Some(EntryType::Booklet)
    } else if same_word(keyword, EntryType::Conference.keyword()) {
        Some(EntryType::Conference)
    } else if same_word(keyword, EntryType::InBook.keyword()) {
        Some(EntryType::InBook)
    } else if same_word(keyword, EntryType::InCollection.keyword()) {
        Some(EntryType::InCollection)
    } else if same_word(keyword, EntryType::InProceedings.keyword()) {
        Some(EntryType::InProceedings)
    } else if same_word(keyword, EntryType::Manual.keyword()) {
        Some(EntryType::Manual)
    } else if same_word(keyword, EntryType::Masterthesis.keyword()) {
        Some(EntryType::Masterthesis)
    } else if same_word(keyword, EntryType::Misc.keyword()) {
        Some(EntryType::Misc)
    } else if same_word(keyword, EntryType::Phdthessis.keyword()) {
        Some(EntryType::Phdthessis)
    } else if same_word(keyword, EntryType::Proceedings.keyword()) {
        Some(EntryType::Proceedings)
    } else if same_word(keyword, EntryType::Techreport.keyword()) {
        Some(EntryType::Techreport)
    } else if same_word(keyword, EntryType::Unpublished.keyword()) {
        Some(EntryType::Unpublished)
    } else if same_word(keyword, EntryType::NoneType.keyword()) {
        Some(EntryType::NoneType)
    } else {
        None
    }
}

/// Classifies the keyword at `from..to`.
pub fn classify(text: &[char], from: usize, to: usize) -> (r: Option<EntryType>)
    requires
        from <= to <= text@.len(),
    ensures
        r == entry_type_of(text@.subrange(from as int, to as int)),
{
    reveal(entry_type_of);
    if word_matches(text, from, to, "BOOK") {
        Some(EntryType::Book)
    } else if word_matches(text, from, to, "ARTICLE") {
        Some(EntryType::Article)
    } else if word_matches(text, from, to, "BOOKLET") {
        Some(EntryType::Booklet)
    } else if word_matches(text, from, to, "CONFERENCE") {
        Some(EntryType::Conference)
    } else if word_matches(text, from, to, "INBOOK") {
        Some(EntryType::InBook)
    } else if word_matches(text, from, to, "INCOLLECTION") {
        Some(EntryType::InCollection)
    } else if word_matches(text, from, to, "INPROCEEDINGS") {
        Some(EntryType::InProceedings)
    } else if word_matches(text, from, to, "MANUAL") {
        Some(EntryType::Manual)
    } else if word_matches(text, from, to, "MASTERSTHESIS") {
        Some(EntryType::Masterthesis)
    } else if word_matches(text, from, to, "MISC") {
        Some(EntryType::Misc)
    } else if word_matches(text, from, to, "PHDTHESIS") {
        Some(EntryType::Phdthessis)
    } else if word_matches(text, from, to, "PROCEEDINGS") {
        Some(EntryType::Proceedings)
    } else if word_matches(text, from, to, "TECHREPORT") {
        Some(EntryType::Techreport)
    } else if word_matches(text, from, to, "UNPUBLISHED") {
        Some(EntryType::Unpublished)
    } else if word_matches(text, from, to, "") {
        Some(EntryType::NoneType)
    } else {
        None
    }
}

/// Two keywords that differ only in the case of their letters name the same
/// entry type, or both name none.
pub proof fn lemma_entry_type_ignores_case(a: Seq<char>, b: Seq<char>)
    requires
        same_word(a, b),
    ensures
        entry_type_of(a) == entry_type_of(b),
{
    reveal(entry_type_of);
}

/// A keyword names what its upper-case form names.
pub proof fn lemma_entry_type_of_upper(keyword: Seq<char>)
    ensures
        entry_type_of(upper(keyword)) == entry_type_of(keyword),
{
    reveal(entry_type_of);
    assert(upper(upper(keyword)) =~= upper(keyword));
}

/// A keyword names an entry type exactly if it is the keyword of that type
/// but for the case of letters.
pub proof fn lemma_entry_type_of(keyword: Seq<char>, t: EntryType)
    ensures
        entry_type_of(keyword) == Some(t) <==> same_word(keyword, t.keyword()),
{
    reveal(entry_type_of);
    lemma_distinct_keywords();
    if same_word(keyword, t.keyword()) {
        assert forall|other: EntryType| same_word(keyword, other.keyword()) implies other
            == t by {
            assert(same_word(other.keyword(), t.keyword()));
        }
    }
}

/// The keyword of an entry type names that entry type.
pub proof fn lemma_keyword_names_its_type(t: EntryType)
    ensures
        entry_type_of(t.keyword()) == Some(t),
{
    lemma_entry_type_of(t.keyword(), t);
}

/// Only the empty keyword names the entry type that stands for no type.
pub proof fn lemma_none_type(keyword: Seq<char>)
    ensures
        entry_type_of(keyword) == Some(EntryType::NoneType) <==> keyword.len() == 0,
{
    lemma_entry_type_of(keyword, EntryType::NoneType);
    reveal_strlit("");
    assert(upper(keyword).len() == keyword.len());
    assert(upper(""@).len() == 0);
    if keyword.len() == 0 {
        assert(upper(keyword) =~= upper(""@));
    }
}

/// No two entry types have the same keyword, even with the case of letters
/// ignored.
pub proof fn lemma_distinct_keywords()
    ensures
        forall|s: EntryType, t: EntryType| same_word(s.keyword(), t.keyword()) ==> s == t,
{
    reveal_strlit("BOOK");
    reveal_strlit("ARTICLE");
    reveal_strlit("BOOKLET");
    reveal_strlit("CONFERENCE");
    reveal_strlit("INBOOK");
    reveal_strlit("INCOLLECTION");
    reveal_strlit("INPROCEEDINGS");
    reveal_strlit("MANUAL");
    reveal_strlit("MASTERSTHESIS");
    reveal_strlit("MISC");
    reveal_strlit("PHDTHESIS");
    reveal_strlit("PROCEEDINGS");
    reveal_strlit("TECHREPORT");
    reveal_strlit("UNPUBLISHED");
    reveal_strlit("");
    assert forall|s: EntryType, t: EntryType| same_word(s.keyword(), t.keyword()) implies s
        == t by {
        let a = upper(s.keyword());
        let b = upper(t.keyword());
        assert(a.len() == s.keyword().len());
        assert(b.len() == t.keyword().len());
        if s != t && a.len() == b.len() {
            assert(a[0] == ascii_upper(s.keyword()[0]));
            assert(b[0] == ascii_upper(t.keyword()[0]));
        }
    }
}

} // verus!
