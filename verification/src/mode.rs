//! File mode bits of a record: the file type and the permission bits.
//!
//! A record header stores the mode as the classic POSIX bit layout: the top
//! four bits of the low 16 select the file type, the rest are permission and
//! special bits.  The library keeps the raw bits and interprets the type
//! field itself, so the extraction decisions that depend on it are verified.

use vstd::prelude::*;

verus! {

/// Mask selecting the file type bits of a mode.
pub const TYPE_MASK: u32 = 0o170000;
/// File type bits of a directory.
pub const TYPE_DIRECTORY: u32 = 0o040000;
/// File type bits of a character device.
pub const TYPE_CHARACTER_DEVICE: u32 = 0o020000;
/// File type bits of a block device.
pub const TYPE_BLOCK_DEVICE: u32 = 0o060000;
/// File type bits of a regular file.
pub const TYPE_REGULAR_FILE: u32 = 0o100000;
/// File type bits of a FIFO.
pub const TYPE_FIFO: u32 = 0o010000;
/// File type bits of a symbolic link.
pub const TYPE_SYMBOLIC_LINK: u32 = 0o120000;
/// File type bits of a socket.
pub const TYPE_SOCKET: u32 = 0o140000;

/// The file type encoded in the type bits of a mode.
#[derive(Debug, Clone, Copy, PartialEq, Eq, Structural)]
pub enum FileType {
    Directory,
    CharacterDevice,
    BlockDevice,
    RegularFile,
    Fifo,
    SymbolicLink,
    Socket,
}

/// The file type that a mode's type bits select, if they select any.
pub open spec fn spec_file_type(bits: u32) -> Option<FileType> {
    let t = bits & TYPE_MASK;
    if t == TYPE_DIRECTORY {
        Some(FileType::Directory)
    } else if t == TYPE_CHARACTER_DEVICE {
        Some(FileType::CharacterDevice)
    } else if t == TYPE_BLOCK_DEVICE {
        Some(FileType::BlockDevice)
    } else if t == TYPE_REGULAR_FILE {
        Some(FileType::RegularFile)
    } else if t == TYPE_FIFO {
        Some(FileType::Fifo)
    } else if t == TYPE_SYMBOLIC_LINK {
        Some(FileType::SymbolicLink)
    } else if t == TYPE_SOCKET {
        Some(FileType::Socket)
    } else {
        None
    }
}

/// File system mode bits (type and permissions) of one record.
#[derive(Debug, Clone, Copy, PartialEq, Eq, Structural)]
pub struct FileMode {
    bits: u32,
}

impl FileMode {
    /// Wraps raw mode bits as read from a record header.
    pub fn from_bits(bits: u32) -> (r: FileMode)
        ensures
            r.bits() == bits,
    {
        FileMode { bits }
    }

    /// The raw mode bits.
    pub closed spec fn spec_bits(&self) -> u32 {
        self.bits
    }

    /// The raw mode bits, as handed to the platform when permissions are
    /// restored.
    #[verifier::when_used_as_spec(spec_bits)]
    pub fn bits(&self) -> (r: u32)
        ensures
            r == self.spec_bits(),
    {
        self.bits
    }

    /// The raw mode bits.
    pub fn mode(&self) -> (r: u32)
        ensures
            r == self.spec_bits(),
    {
        self.bits
    }

    /// The file type selected by the type bits, or `None` when the bits
    /// select none of the known types.
    pub fn file_type(&self) -> (r: Option<FileType>)
        ensures
            r == spec_file_type(self.bits()),
    {
        let t = self.bits & TYPE_MASK;
        if t == TYPE_DIRECTORY {
            Some(FileType::Directory)
        } else if t == TYPE_CHARACTER_DEVICE {
            Some(FileType::CharacterDevice)
        } else if t == TYPE_BLOCK_DEVICE {
            Some(FileType::BlockDevice)
        } else if t == TYPE_REGULAR_FILE {
            Some(FileType::RegularFile)
        } else if t == TYPE_FIFO {
            Some(FileType::Fifo)
        } else if t == TYPE_SYMBOLIC_LINK {
            Some(FileType::SymbolicLink)
        } else if t == TYPE_SOCKET {
            Some(FileType::Socket)
        } else {
            None
        }
    }

    /// Whether the mode marks a directory.
    pub fn is_directory(&self) -> (r: bool)
        ensures
            r == (spec_file_type(self.bits()) == Some(FileType::Directory)),
    {
        self.bits & TYPE_MASK == TYPE_DIRECTORY
    }

    /// Whether the mode marks a regular file.
    pub fn is_regular_file(&self) -> (r: bool)
        ensures
            r == (spec_file_type(self.bits()) == Some(FileType::RegularFile)),
    {
        self.bits & TYPE_MASK == TYPE_REGULAR_FILE
    }
}

/// A mode is nothing but its bits: equal bits mean equal modes.
pub proof fn lemma_filemode_bits_injective(a: FileMode, b: FileMode)
    requires
        a.spec_bits() == b.spec_bits(),
    ensures
        a == b,
{
}

impl FileType {
    /// Whether this is the directory type.
    pub fn is_directory(&self) -> (r: bool)
        ensures
            r == (*self == FileType::Directory),
    {
        matches!(self, FileType::Directory)
    }

    /// Whether this is the regular file type.
    pub fn is_regular_file(&self) -> (r: bool)
        ensures
            r == (*self == FileType::RegularFile),
    {
        matches!(self, FileType::RegularFile)
    }
}

} // verus!
