//! The typed records that parsing produces.

pub mod bibliography;
pub mod entry_type;
pub mod field;
