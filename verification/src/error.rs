//! The ways in which one entry can fail to parse.

use vstd::prelude::*;

verus! {

/// Why an entry gave no record. Every error concerns one entry alone.
#[derive(Debug, PartialEq, Eq)]
pub enum ParseError {
    /// A brace or a quote that was opened is never closed within the entry.
    UnbalancedDelimiter,
    /// The entry does not begin with a keyword.
    MissingEntryType,
    /// The keyword names no known entry type; the keyword is kept as written.
    UnknownEntryType(String),
    /// The entry has no title.
    MissingRequiredField,
    /// A part of the entry body is neither a citation key nor `name = value`.
    MalformedFieldLine,
}

/// A `ParseError` as a mathematical value.
pub enum ParseFault {
    UnbalancedDelimiter,
    MissingEntryType,
    UnknownEntryType(Seq<char>),
    MissingRequiredField,
    MalformedFieldLine,
}

impl View for ParseError {
    type V = ParseFault;

    open spec fn view(&self) -> ParseFault {
        match self {
            ParseError::UnbalancedDelimiter => ParseFault::UnbalancedDelimiter,
            ParseError::MissingEntryType => ParseFault::MissingEntryType,
            ParseError::UnknownEntryType(keyword) => ParseFault::UnknownEntryType(keyword@),
            ParseError::MissingRequiredField => ParseFault::MissingRequiredField,
            ParseError::MalformedFieldLine => ParseFault::MalformedFieldLine,
        }
    }
}

impl Clone for ParseError {
    fn clone(&self) -> (out: Self)
        ensures
            out@ == self@,
    {
        match self {
            ParseError::UnbalancedDelimiter => ParseError::UnbalancedDelimiter,
            ParseError::MissingEntryType => ParseError::MissingEntryType,
            ParseError::UnknownEntryType(keyword) => ParseError::UnknownEntryType(keyword.clone()),
            ParseError::MissingRequiredField => ParseError::MissingRequiredField,
            ParseError::MalformedFieldLine => ParseError::MalformedFieldLine,
        }
    }
}

impl ParseError {
    /// A sentence that says what went wrong.
    pub fn message(&self) -> (out: String)
        ensures
            out@ == self@.message(),
    {
        match self {
            ParseError::UnbalancedDelimiter => "a brace or quote is never closed".to_owned(),
            ParseError::MissingEntryType => "the entry has no type keyword".to_owned(),
            ParseError::UnknownEntryType(keyword) => {
                let mut out = "unknown entry type: ".to_owned();
                out.append(keyword.as_str());
                out
            },
            ParseError::MissingRequiredField => "the entry has no title".to_owned(),
            ParseError::MalformedFieldLine => "a field is not of the form name = value".to_owned(),
        }
    }
}

impl ParseFault {
    /// The sentence that `ParseError::message` gives.
    pub open spec fn message(self) -> Seq<char> {
        match self {
            ParseFault::UnbalancedDelimiter => "a brace or quote is never closed"@,
            ParseFault::MissingEntryType => "the entry has no type keyword"@,
            ParseFault::UnknownEntryType(keyword) => "unknown entry type: "@ + keyword,
            ParseFault::MissingRequiredField => "the entry has no title"@,
            ParseFault::MalformedFieldLine => "a field is not of the form name = value"@,
        }
    }
}

} // verus!
