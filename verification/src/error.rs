//! The error taxonomy of the library.

use vstd::prelude::*;

verus! {

/// General error wrapping more specific errors.
///
/// Format errors describe a malformed archive or record, lookup errors a
/// request the archive cannot serve, extraction errors a per-record failure
/// during extraction.
#[derive(Debug, Clone, PartialEq, Eq)]
pub enum Error {
    /// The file had an invalid magic number. Provides the magic number read.
    InvalidFileMagic(u32),
    /// A record had an invalid magic number. Provides the magic number read.
    InvalidRecordMagic(u16),
    /// The record was invalid. This also may indicate some unsupported features.
    InvalidRecord,
    /// The record had an empty file name.
    EmptyFilename,
    /// The decoding table of the record is invalid.
    BadSymbolTable,
    /// The decoding table of the record is invalid.
    InvalidLevelIndex,
    /// The decoding table of the record is invalid.
    InvalidTreelevel,
    /// The archive is bigger than 4 GiB, which the 32-bit size and offset
    /// fields of the format cannot address.
    FileToBig,
    /// A filename was not found in the archive.
    FileNotFound,
    /// A record contains an unsupported file type.
    UnsupportedFileType,
    /// File system entry attributes could not be set.
    ModeError,
    /// The record has no parent directory. This should never occur.
    MissingParentDir(String),
    /// The input ended before a complete structure could be read.
    UnexpectedEndOfInput,
}

impl Error {
    /// True exactly for the per-record conditions that extraction absorbs:
    /// the record is reported and skipped, and extraction continues with the
    /// next record.  Every other error aborts the whole extraction.
    pub fn is_soft(&self) -> (r: bool)
        ensures
            r == self.is_soft_spec(),
    {
        matches!(self,
            Error::EmptyFilename | Error::ModeError | Error::MissingParentDir(_))
    }

    /// Which errors extraction absorbs per record instead of aborting.
    pub open spec fn is_soft_spec(self) -> bool {
        self matches Error::EmptyFilename || self matches Error::ModeError
            || self matches Error::MissingParentDir(_)
    }
}

} // verus!
