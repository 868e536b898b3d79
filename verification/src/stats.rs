//! Counts that operations on an archive report.

use vstd::prelude::*;

verus! {

/// `n`, or the largest number that 64 bits hold where `n` is greater.
pub open spec fn clip_u64(n: nat) -> u64 {
    if n > u64::MAX {
        u64::MAX
    } else {
        n as u64
    }
}

/// `n`, or the largest size where `n` is greater.
pub open spec fn clip_usize(n: nat) -> usize {
    if n > usize::MAX {
        usize::MAX
    } else {
        n as usize
    }
}

/// Sizes of data read or written, both as stored and as it is in use.
#[derive(Clone, Copy, Debug, PartialEq, Eq)]
pub struct Sizes {
    pub compressed: u64,
    pub uncompressed: u64,
}

impl Default for Sizes {
    /// All counts at zero.
    fn default() -> (s: Sizes)
        ensures
            s == Sizes::zero(),
    {
        Sizes {
            compressed: 0,
            uncompressed: 0,
        }
    }
}

impl Sizes {
    /// The value with all counts at zero.
    pub open spec fn zero() -> Sizes {
        Sizes {
            compressed: 0,
            uncompressed: 0,
        }
    }

    /// Whether each count of `self` and the same count of `other` add up
    /// without overflow.
    pub open spec fn can_add(self, other: Sizes) -> bool {
        &&& self.compressed + other.compressed <= u64::MAX
        &&& self.uncompressed + other.uncompressed <= u64::MAX
    }

    /// The sums, count by count.
    pub open spec fn sum(self, other: Sizes) -> Sizes {
        Sizes {
            compressed: (self.compressed + other.compressed) as u64,
            uncompressed: (self.uncompressed + other.uncompressed) as u64,
        }
    }

    /// Adds `other` to `self`, count by count. There is no sum where one of
    /// the counts would overflow.
    pub fn checked_add(self, other: Sizes) -> (r: Option<Sizes>)
        ensures
            r == if self.can_add(other) {
                Some(self.sum(other))
            } else {
                None::<Sizes>
            },
    {
        let compressed = match self.compressed.checked_add(other.compressed) {
            Some(v) => v,
            None => {
                return None;
            },
        };
        let uncompressed = match self.uncompressed.checked_add(other.uncompressed) {
            Some(v) => v,
            None => {
                return None;
            },
        };
        Some(Sizes { compressed, uncompressed })
    }
}

/// What a check of the block directory found.
#[derive(Clone, Copy, Debug, PartialEq, Eq)]
pub struct ValidateBlockDirStats {
    /// Number of blocks read.
    pub block_read_count: u64,
    /// Number of blocks that failed to read back.
    pub block_error_count: u64,
}

impl Default for ValidateBlockDirStats {
    /// All counts at zero.
    fn default() -> (s: ValidateBlockDirStats)
        ensures
            s == ValidateBlockDirStats::zero(),
    {
        ValidateBlockDirStats {
            block_read_count: 0,
            block_error_count: 0,
        }
    }
}

impl ValidateBlockDirStats {
    /// The value with all counts at zero.
    pub open spec fn zero() -> ValidateBlockDirStats {
        ValidateBlockDirStats {
            block_read_count: 0,
            block_error_count: 0,
        }
    }
}

/// What a check of a whole archive found.
#[derive(Clone, Copy, Debug, PartialEq, Eq)]
pub struct ValidateArchiveStats {
    /// Things in the archive that break its layout: stray files and
    /// directories, band names that occur twice, entries out of order,
    /// addresses of blocks that are not stored.
    pub structure_problems: u64,
    /// Bands and hunks that could not be read.
    pub io_errors: u64,
    /// What the check of the block directory found.
    pub block_dir: ValidateBlockDirStats,
}

impl Default for ValidateArchiveStats {
    /// All counts at zero.
    fn default() -> (s: ValidateArchiveStats)
        ensures
            s == ValidateArchiveStats::zero(),
    {
        ValidateArchiveStats {
            structure_problems: 0,
            io_errors: 0,
            block_dir: ValidateBlockDirStats::default(),
        }
    }
}

impl ValidateArchiveStats {
    /// The value with all counts at zero.
    pub open spec fn zero() -> ValidateArchiveStats {
        ValidateArchiveStats {
            structure_problems: 0,
            io_errors: 0,
            block_dir: ValidateBlockDirStats::zero(),
        }
    }

    /// Whether the check found anything wrong.
    pub open spec fn problems(self) -> bool {
        self.structure_problems > 0 || self.io_errors > 0 || self.block_dir.block_error_count > 0
    }

    /// Whether the check found anything wrong.
    pub fn has_problems(&self) -> (r: bool)
        ensures
            r == self.problems(),
    {
        self.structure_problems > 0 || self.io_errors > 0 || self.block_dir.block_error_count > 0
    }
}

/// What reading an index took.
#[derive(Clone, Copy, Debug, PartialEq, Eq)]
pub struct IndexEntryIterStats {
    pub index_hunks: u64,
    pub uncompressed_index_bytes: u64,
    pub compressed_index_bytes: u64,
}

impl Default for IndexEntryIterStats {
    /// All counts at zero.
    fn default() -> (s: IndexEntryIterStats)
        ensures
            s == IndexEntryIterStats::zero(),
    {
        IndexEntryIterStats {
            index_hunks: 0,
            uncompressed_index_bytes: 0,
            compressed_index_bytes: 0,
        }
    }
}

impl IndexEntryIterStats {
    /// The value with all counts at zero.
    pub open spec fn zero() -> IndexEntryIterStats {
        IndexEntryIterStats {
            index_hunks: 0,
            uncompressed_index_bytes: 0,
            compressed_index_bytes: 0,
        }
    }
}

/// What writing an index took.
#[derive(Clone, Copy, Debug, PartialEq, Eq)]
pub struct IndexBuilderStats {
    pub index_hunks: u64,
    pub uncompressed_index_bytes: u64,
    pub compressed_index_bytes: u64,
}

impl Default for IndexBuilderStats {
    /// All counts at zero.
    fn default() -> (s: IndexBuilderStats)
        ensures
            s == IndexBuilderStats::zero(),
    {
        IndexBuilderStats {
            index_hunks: 0,
            uncompressed_index_bytes: 0,
            compressed_index_bytes: 0,
        }
    }
}

impl IndexBuilderStats {
    /// The value with all counts at zero.
    pub open spec fn zero() -> IndexBuilderStats {
        IndexBuilderStats {
            index_hunks: 0,
            uncompressed_index_bytes: 0,
            compressed_index_bytes: 0,
        }
    }

    /// Whether each count of `self` and the same count of `other` add up
    /// without overflow.
    pub open spec fn can_add(self, other: IndexBuilderStats) -> bool {
        &&& self.index_hunks + other.index_hunks <= u64::MAX
        &&& self.uncompressed_index_bytes + other.uncompressed_index_bytes <= u64::MAX
        &&& self.compressed_index_bytes + other.compressed_index_bytes <= u64::MAX
    }

    /// The sums, count by count.
    pub open spec fn sum(self, other: IndexBuilderStats) -> IndexBuilderStats {
        IndexBuilderStats {
            index_hunks: (self.index_hunks + other.index_hunks) as u64,
            uncompressed_index_bytes: (self.uncompressed_index_bytes
                + other.uncompressed_index_bytes) as u64,
            compressed_index_bytes: (self.compressed_index_bytes
                + other.compressed_index_bytes) as u64,
        }
    }

    /// Adds `other` to `self`, count by count. There is no sum where one of
    /// the counts would overflow.
    pub fn checked_add(self, other: IndexBuilderStats) -> (r: Option<IndexBuilderStats>)
        ensures
            r == if self.can_add(other) {
                Some(self.sum(other))
            } else {
                None::<IndexBuilderStats>
            },
    {
        let index_hunks = match self.index_hunks.checked_add(other.index_hunks) {
            Some(v) => v,
            None => {
                return None;
            },
        };
        let uncompressed_index_bytes = match self.uncompressed_index_bytes.checked_add(
            other.uncompressed_index_bytes,
        ) {
            Some(v) => v,
            None => {
                return None;
            },
        };
        let compressed_index_bytes = match self.compressed_index_bytes.checked_add(
            other.compressed_index_bytes,
        ) {
            Some(v) => v,
            None => {
                return None;
            },
        };
        Some(IndexBuilderStats { index_hunks, uncompressed_index_bytes, compressed_index_bytes })
    }
}

/// What a walk over a source tree met.
#[derive(Clone, Copy, Debug, PartialEq, Eq)]
pub struct LiveTreeIterStats {
    pub directories_visited: usize,
    pub exclusions: usize,
    pub metadata_error: usize,
    pub entries_returned: usize,
}

impl Default for LiveTreeIterStats {
    /// All counts at zero.
    fn default() -> (s: LiveTreeIterStats)
        ensures
            s == LiveTreeIterStats::zero(),
    {
        LiveTreeIterStats {
            directories_visited: 0,
            exclusions: 0,
            metadata_error: 0,
            entries_returned: 0,
        }
    }
}

impl LiveTreeIterStats {
    /// The value with all counts at zero.
    pub open spec fn zero() -> LiveTreeIterStats {
        LiveTreeIterStats {
            directories_visited: 0,
            exclusions: 0,
            metadata_error: 0,
            entries_returned: 0,
        }
    }
}

/// What a backup or a restore copied.
#[derive(Clone, Copy, Debug, PartialEq, Eq)]
pub struct CopyStats {
    pub files: usize,
    pub symlinks: usize,
    pub directories: usize,
    pub unknown_kind: usize,
    pub files_unmodified: usize,
    pub files_modified: usize,
    pub files_new: usize,
    pub deduplicated_bytes: u64,
    pub uncompressed_bytes: u64,
    pub compressed_bytes: u64,
    pub deduplicated_blocks: usize,
    pub written_blocks: usize,
    pub empty_files: usize,
    pub single_block_files: usize,
    pub multi_block_files: usize,
    pub errors: usize,
    pub index_builder_stats: IndexBuilderStats,
}

impl Default for CopyStats {
    /// All counts at zero.
    fn default() -> (s: CopyStats)
        ensures
            s == CopyStats::zero(),
    {
        CopyStats {
            files: 0,
            symlinks: 0,
            directories: 0,
            unknown_kind: 0,
            files_unmodified: 0,
            files_modified: 0,
            files_new: 0,
            deduplicated_bytes: 0,
            uncompressed_bytes: 0,
            compressed_bytes: 0,
            deduplicated_blocks: 0,
            written_blocks: 0,
            empty_files: 0,
            single_block_files: 0,
            multi_block_files: 0,
            errors: 0,
            index_builder_stats: IndexBuilderStats::default(),
        }
    }
}

impl CopyStats {
    /// The value with all counts at zero.
    pub open spec fn zero() -> CopyStats {
        CopyStats {
            files: 0,
            symlinks: 0,
            directories: 0,
            unknown_kind: 0,
            files_unmodified: 0,
            files_modified: 0,
            files_new: 0,
            deduplicated_bytes: 0,
            uncompressed_bytes: 0,
            compressed_bytes: 0,
            deduplicated_blocks: 0,
            written_blocks: 0,
            empty_files: 0,
            single_block_files: 0,
            multi_block_files: 0,
            errors: 0,
            index_builder_stats: IndexBuilderStats::zero(),
        }
    }

    /// Whether each count of `self` and the same count of `other` add up
    /// without overflow.
    pub open spec fn can_add(self, other: CopyStats) -> bool {
        &&& self.files + other.files <= usize::MAX
        &&& self.symlinks + other.symlinks <= usize::MAX
        &&& self.directories + other.directories <= usize::MAX
        &&& self.unknown_kind + other.unknown_kind <= usize::MAX
        &&& self.files_unmodified + other.files_unmodified <= usize::MAX
        &&& self.files_modified + other.files_modified <= usize::MAX
        &&& self.files_new + other.files_new <= usize::MAX
        &&& self.deduplicated_bytes + other.deduplicated_bytes <= u64::MAX
        &&& self.uncompressed_bytes + other.uncompressed_bytes <= u64::MAX
        &&& self.compressed_bytes + other.compressed_bytes <= u64::MAX
        &&& self.deduplicated_blocks + other.deduplicated_blocks <= usize::MAX
        &&& self.written_blocks + other.written_blocks <= usize::MAX
        &&& self.empty_files + other.empty_files <= usize::MAX
        &&& self.single_block_files + other.single_block_files <= usize::MAX
        &&& self.multi_block_files + other.multi_block_files <= usize::MAX
        &&& self.errors + other.errors <= usize::MAX
        &&& self.index_builder_stats.can_add(other.index_builder_stats)
    }

    /// The sums, count by count.
    pub open spec fn sum(self, other: CopyStats) -> CopyStats {
        CopyStats {
            files: (self.files + other.files) as usize,
            symlinks: (self.symlinks + other.symlinks) as usize,
            directories: (self.directories + other.directories) as usize,
            unknown_kind: (self.unknown_kind + other.unknown_kind) as usize,
            files_unmodified: (self.files_unmodified + other.files_unmodified) as usize,
            files_modified: (self.files_modified + other.files_modified) as usize,
            files_new: (self.files_new + other.files_new) as usize,
            deduplicated_bytes: (self.deduplicated_bytes + other.deduplicated_bytes) as u64,
            uncompressed_bytes: (self.uncompressed_bytes + other.uncompressed_bytes) as u64,
            compressed_bytes: (self.compressed_bytes + other.compressed_bytes) as u64,
            deduplicated_blocks: (self.deduplicated_blocks + other.deduplicated_blocks) as usize,
            written_blocks: (self.written_blocks + other.written_blocks) as usize,
            empty_files: (self.empty_files + other.empty_files) as usize,
            single_block_files: (self.single_block_files + other.single_block_files) as usize,
            multi_block_files: (self.multi_block_files + other.multi_block_files) as usize,
            errors: (self.errors + other.errors) as usize,
            index_builder_stats: self.index_builder_stats.sum(other.index_builder_stats),
        }
    }

    /// Adds `other` to `self`, count by count. There is no sum where one of
    /// the counts would overflow.
    pub fn checked_add(self, other: CopyStats) -> (r: Option<CopyStats>)
        ensures
            r == if self.can_add(other) {
                Some(self.sum(other))
            } else {
                None::<CopyStats>
            },
    {
        let files = match self.files.checked_add(other.files) {
            Some(v) => v,
            None => {
                return None;
            },
        };
        let symlinks = match self.symlinks.checked_add(other.symlinks) {
            Some(v) => v,
            None => {
                return None;
            },
        };
        let directories = match self.directories.checked_add(other.directories) {
            Some(v) => v,
            None => {
                return None;
            },
        };
        let unknown_kind = match self.unknown_kind.checked_add(other.unknown_kind) {
            Some(v) => v,
            None => {
                return None;
            },
        };
        let files_unmodified = match self.files_unmodified.checked_add(other.files_unmodified) {
            Some(v) => v,
            None => {
                return None;
            },
        };
        let files_modified = match self.files_modified.checked_add(other.files_modified) {
            Some(v) => v,
            None => {
                return None;
            },
        };
        let files_new = match self.files_new.checked_add(other.files_new) {
            Some(v) => v,
            None => {
                return None;
            },
        };
        let deduplicated_bytes = match self.deduplicated_bytes.checked_add(
            other.deduplicated_bytes,
        ) {
            Some(v) => v,
            None => {
                return None;
            },
        };
        let uncompressed_bytes = match self.uncompressed_bytes.checked_add(
            other.uncompressed_bytes,
        ) {
            Some(v) => v,
            None => {
                return None;
            },
        };
        let compressed_bytes = match self.compressed_bytes.checked_add(other.compressed_bytes) {
            Some(v) => v,
            None => {
                return None;
            },
        };
        let deduplicated_blocks = match self.deduplicated_blocks.checked_add(
            other.deduplicated_blocks,
        ) {
            Some(v) => v,
            None => {
                return None;
            },
        };
        let written_blocks = match self.written_blocks.checked_add(other.written_blocks) {
            Some(v) => v,
            None => {
                return None;
            },
        };
        let empty_files = match self.empty_files.checked_add(other.empty_files) {
            Some(v) => v,
            None => {
                return None;
            },
        };
        let single_block_files = match self.single_block_files.checked_add(
            other.single_block_files,
        ) {
            Some(v) => v,
            None => {
                return None;
            },
        };
        let multi_block_files = match self.multi_block_files.checked_add(other.multi_block_files) {
            Some(v) => v,
            None => {
                return None;
            },
        };
        let errors = match self.errors.checked_add(other.errors) {
            Some(v) => v,
            None => {
                return None;
            },
        };
        let index_builder_stats = match self.index_builder_stats.checked_add(
            other.index_builder_stats,
        ) {
            Some(v) => v,
            None => {
                return None;
            },
        };
        Some(
            CopyStats {
                files,
                symlinks,
                directories,
                unknown_kind,
                files_unmodified,
                files_modified,
                files_new,
                deduplicated_bytes,
                uncompressed_bytes,
                compressed_bytes,
                deduplicated_blocks,
                written_blocks,
                empty_files,
                single_block_files,
                multi_block_files,
                errors,
                index_builder_stats,
            },
        )
    }
}

} // verus!
