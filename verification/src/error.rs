use vstd::prelude::*;

verus! {

/// What can go wrong in the storage layer.
#[derive(Debug, Clone, Copy, PartialEq, Eq, Structural)]
pub enum TableError {
    /// Every page slot is taken and the last page has no room for the row.
    TableIsFull,
    /// The page has less free space than the row needs.
    PageIsFull,
    /// The row cannot be stored: its encoding is longer than a whole page.
    EncodeError,
    /// The bytes are not an encoded row, or not an encoded sequence of well-formed pages.
    DecodeError,
    /// The file could not be read or written.
    IoError,
}

impl TableError {
    /// The text shown to a user for this error.
    pub fn message(&self) -> (text: String)
        ensures
            text@ == match *self {
                TableError::TableIsFull => "Table is full"@,
                TableError::PageIsFull => "Page is full"@,
                TableError::EncodeError => "Failed to encode"@,
                TableError::DecodeError => "Failed to decode"@,
                TableError::IoError => "IO Error"@,
            },
    {
        match self {
            TableError::TableIsFull => "Table is full".to_string(),
            TableError::PageIsFull => "Page is full".to_string(),
            TableError::EncodeError => "Failed to encode".to_string(),
            TableError::DecodeError => "Failed to decode".to_string(),
            TableError::IoError => "IO Error".to_string(),
        }
    }
}

} // verus!
