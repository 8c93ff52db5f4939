//! A packed single-file archive: a fixed header, individually compressed
//! payloads, and a table of fixed-width metadata records.

pub mod error;
pub mod etfile;
pub mod etfilesystem;
pub mod layout;
pub mod proofs;
pub mod utils;
pub mod zlib;

pub use error::ArchiveError;
pub use etfile::EtFile;
pub use etfilesystem::{EtFileSystem, OpenMode};
pub use utils::{to_archive_path, to_normal_path};
