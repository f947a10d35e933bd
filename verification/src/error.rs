//! The ways in which an operation on the bookshelf can be refused.

use vstd::prelude::*;
use vstd::string::StringExecFns;

verus! {

/// Why an operation was refused. Nothing is changed by a refused operation.
#[derive(Debug)]
pub enum StoreError {
    /// The path does not name an existing directory.
    NotADirectory(String),
    /// The path does not name an existing file.
    FileNotFound(String),
    /// The path is registered already.
    DuplicatePath,
    /// A tag of that name exists already.
    DuplicateName,
    /// No tag has the given id.
    UnknownTag,
    /// Nothing is stored under the given id.
    NotFound,
    /// The relation has handed out its largest possible row id.
    Exhausted,
    /// The text is not a JSON object of strings; the message says where it
    /// goes wrong.
    InvalidJson(String),
}

impl StoreError {
    /// The message shown to the user for this error.
    pub open spec fn text(self) -> Seq<char> {
        match self {
            StoreError::NotADirectory(path) => "Not a directory: "@ + path@,
            StoreError::FileNotFound(path) => "File not found: "@ + path@,
            StoreError::DuplicatePath => "UNIQUE constraint failed: directories.path"@,
            StoreError::DuplicateName => "UNIQUE constraint failed: tags.name"@,
            StoreError::UnknownTag => "FOREIGN KEY constraint failed"@,
            StoreError::NotFound => "Query returned no rows"@,
            StoreError::Exhausted => "database or disk is full"@,
            StoreError::InvalidJson(message) => message@,
        }
    }

    /// The message shown to the user for this error.
    pub fn message(&self) -> (r: String)
        ensures
            r@ == self.text(),
    {
        match self {
            StoreError::NotADirectory(path) => {
                String::from_str("Not a directory: ").concat(path.as_str())
            },
            StoreError::FileNotFound(path) => {
                String::from_str("File not found: ").concat(path.as_str())
            },
            StoreError::DuplicatePath => String::from_str(
                "UNIQUE constraint failed: directories.path",
            ),
            StoreError::DuplicateName => String::from_str("UNIQUE constraint failed: tags.name"),
            StoreError::UnknownTag => String::from_str("FOREIGN KEY constraint failed"),
            StoreError::NotFound => String::from_str("Query returned no rows"),
            StoreError::Exhausted => String::from_str("database or disk is full"),
            StoreError::InvalidJson(message) => message.clone(),
        }
    }
}

} // verus!
