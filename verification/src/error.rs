//! The failures that the catalog's operations report.

use vstd::prelude::*;

verus! {

/// Why an operation on the catalog failed.
#[derive(Clone, Copy, Debug, PartialEq, Eq, Structural)]
pub enum ComicError {
    /// The file system refused a read.
    IoError,
    /// A path holds a component that cannot be used.
    InvalidPath,
    /// No comic goes by the identifier that was asked for.
    ComicNotFound,
    /// The archive holds no image.
    NoCoverFound,
    /// The bytes are no readable archive.
    CorruptArchive,
}

impl ComicError {
    /// The text that describes the error to a person.
    pub open spec fn message_text(self) -> Seq<char> {
        match self {
            ComicError::IoError => "IO error"@,
            ComicError::InvalidPath => "Invalid path"@,
            ComicError::ComicNotFound => "Comic not found"@,
            ComicError::NoCoverFound => "No cover found in comic"@,
            ComicError::CorruptArchive => "Zip error"@,
        }
    }

    /// The text that describes the error to a person.
    pub fn message(&self) -> (r: String)
        ensures
            r@ == self.message_text(),
    {
        match self {
            ComicError::IoError => "IO error".to_owned(),
            ComicError::InvalidPath => "Invalid path".to_owned(),
            ComicError::ComicNotFound => "Comic not found".to_owned(),
            ComicError::NoCoverFound => "No cover found in comic".to_owned(),
            ComicError::CorruptArchive => "Zip error".to_owned(),
        }
    }
}

} // verus!
