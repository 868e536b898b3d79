//! A content-addressed incremental backup engine, held in memory and verified.
//!
//! An archive holds successive snapshots of a tree, its bands. The content
//! of files is cut into blocks that are stored once, under the hash of what
//! they hold. Each band has an index of the entries of its tree, and a view
//! of any band is stitched from its own index and those of the complete
//! bands before it.
//!
//! The archive is held as a value: reading it from storage and writing it
//! back is left to the caller.

pub mod apath;
pub mod archive;
pub mod backup;
pub mod band;
pub mod bandid;
pub mod blockdir;
pub mod cache;
pub mod codec;
pub mod errors;
pub mod index;
pub mod monitor;
pub mod references;
pub mod restore;
pub mod show;
pub mod stats;
pub mod stitch;
pub mod stored_tree;
pub mod text;

pub use apath::Apath;
pub use archive::{Archive, ArchiveHeader, Storage};
pub use backup::{backup, BackupOptions, BackupWriter, Content, SourceEntry};
pub use band::{Band, BandDir, BandHead, BandTail, Stored};
pub use bandid::BandId;
pub use blockdir::BlockDir;
pub use cache::BlockCache;
pub use errors::Error;
pub use index::{Address, Hunk, IndexEntry, IndexWriter, Kind};
pub use monitor::collect::CollectMonitor;
pub use monitor::counters::{Counter, Counters};
pub use restore::{restore, RestoreOptions, Restored};
pub use stored_tree::{BandSelectionPolicy, Exclude, Stitch, StoredTree, TreeSize};
