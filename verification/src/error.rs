//! The failures that end an analysis run, or that mark one function's result.

use vstd::prelude::*;

verus! {

/// Why an analysis stage could not produce its result.
#[derive(Debug, Clone, Copy, PartialEq, Eq, Structural)]
pub enum Error {
    /// The bytes are not a well-formed object file.
    Load,
    /// The binary carries no debug metadata.
    DebugInfo,
    /// Debug metadata is present, but no source language can be recovered.
    LangNotFound,
    /// The symbol table holds no usable function.
    FuncListEmpty,
    /// A function's address range lies in no mapped section.
    Region,
}

impl Error {
    /// The text shown to the user for each kind of failure.
    pub open spec fn message_spec(self) -> Seq<char> {
        match self {
            Error::Load => "the file is not a well-formed ELF image"@,
            Error::DebugInfo => "the binary is stripped of debug information"@,
            Error::LangNotFound => "no source language found in the debug information"@,
            Error::FuncListEmpty => "no function found in the symbol table"@,
            Error::Region => "the function's address range lies in no section"@,
        }
    }

    /// The message of this failure.
    pub fn message(&self) -> (text: String)
        ensures
            text@ == self.message_spec(),
    {
        match self {
            Error::Load => "the file is not a well-formed ELF image".to_owned(),
            Error::DebugInfo => "the binary is stripped of debug information".to_owned(),
            Error::LangNotFound => "no source language found in the debug information".to_owned(),
            Error::FuncListEmpty => "no function found in the symbol table".to_owned(),
            Error::Region => "the function's address range lies in no section".to_owned(),
        }
    }
}

} // verus!
