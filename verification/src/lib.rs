//! Reading and extracting AIX BFF (Backup File Format) archives.
//!
//! The archive is handed to the library as one in-memory byte vector.  The
//! parser walks the bytes and produces an ordered record list, the Huffman
//! decoder turns a compressed payload back into its original bytes, and the
//! extraction planner decides, record by record, what has to happen on the
//! file system.  All of that is verified; the thin shell that actually opens
//! files and applies attributes lives outside this crate.

pub mod archive;
pub mod attribute;
pub mod bff;
pub mod error;
pub mod huffman;
pub mod mode;
pub mod paths;
pub mod util;
