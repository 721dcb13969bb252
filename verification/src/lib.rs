//! Filesystem index files: the skip rules of the walk that collects entries, the walk itself, and
//! the binary `.anythingindex` format that the entries are written to and read back from.
//!
//! Everything here computes on plain values. Reading directories, files, mount tables and clocks
//! is left to the caller, who hands in what was read and carries out what comes back.

pub mod builder;
pub mod compress;
pub mod drives;
pub mod ignore;
pub mod indexer;
pub mod layout;
pub mod le;
pub mod order;
pub mod paths;
pub mod reader;
pub mod records;
pub mod roundtrip;
pub mod run;
pub mod text;
pub mod walk;

pub use builder::{build_index_file, build_with, IndexBuilder};
pub use drives::{check_drive_changes, detect_drives, DriveInfo, DriveProbe, MountProbe};
pub use ignore::IgnoreConfig;
pub use indexer::{Indexer, RunSettings};
pub use reader::{summarize, Entry, FileSummary, IndexReader};
pub use records::{FileRecord, IndexerStatus};
pub use walk::{Walk, WalkAction, WalkEvent};
