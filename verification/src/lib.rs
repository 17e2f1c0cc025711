//! A verified parser for bibliographic records in BibTeX form.
//!
//! The text of a document is split into entries, and each entry is parsed
//! by itself into a typed record: an entry type and the known fields of the
//! entry, each with its clean text. An entry that cannot be parsed gives an
//! error that says why, and leaves the other entries of the document as they
//! are.
//!
//! ```text
//! @article{greenwade93,
//!     author  = {George D. Greenwade},
//!     title   = "The {C}omprehensive {T}ex {A}rchive {N}etwork ({CTAN})",
//!     year    = "1993"
//! }
//! ```
//!
//! The parts, in the order in which a text passes through them:
//!
//! - [`document`] splits a document into its entries and parses each;
//! - [`tokenizer`] finds the keyword and the raw fields of one entry;
//! - [`model::entry_type`] tells which entry type a keyword names;
//! - [`value`] cleans the raw value of a field;
//! - [`model::field`] tells which field a name names;
//! - [`model::bibliography`] builds the record and holds the whole of it
//!   together;
//! - [`plain`] states that entries written in a plain form are read back;
//! - [`text`] holds what all of them need of characters and strings;
//! - [`error`] names the faults.
//!
//! Every function states what it returns over the characters of its input,
//! and is proved to return that. The functions do not panic.

pub mod document;
pub mod error;
pub mod model;
pub mod plain;
pub mod text;
pub mod tokenizer;
pub mod value;

pub use document::{parse_document, parse_one};
pub use error::ParseError;
pub use model::bibliography::{Bibliography, BibliographyInformation};
pub use model::entry_type::EntryType;
pub use model::field::Field;
