//! Making a backup: copying a tree into a new band of an archive.
//!
//! The entries of the tree are taken in ascending order of apath. The
//! content of each file is cut into blocks of a fixed size, the blocks are
//! stored, and only then the entry that names them is written to the
//! index. An entry that cannot be copied is counted and passed over.

use crate::apath::{apath_order, Apath};
use crate::archive::{next_band_id, sorted_ids, Archive, Storage};
use crate::band::{
    band_entries, band_format_text, first_named, lemma_first_named_by_names, BandDir, BandTail,
    Stored,
};
use crate::bandid::{band_text, BandId};
use crate::blockdir::{stored, Blocks};
use crate::codec::{block_hash, hash_bytes, is_block_name, snappy_compressed};
use crate::errors::Error;
use crate::index::{
    address_views, all_entries, ascending, clone_text, concat, entry_views, hunk_entries,
    lemma_ascending_of_sorted, lemma_hunks_hold_runs, may_follow, strictly_sorted, text_of,
    unreadable_hunks, Address, AddressView, EntryView, Hunk, IndexEntry, IndexWriter, Kind,
};
use crate::references::{
    addrs_refer, band_resolved, entries_refer, lemma_resolved_kept, resolved,
};
use crate::stats::{clip_u64, clip_usize, CopyStats, IndexBuilderStats};
use crate::stored_tree::{excluded, Exclude};
use vstd::prelude::*;
use vstd::slice::slice_subrange;

verus! {

/// The size of the blocks into which the content of files is cut, unless
/// the options say otherwise: 1 MiB.
pub const MAX_BLOCK_SIZE: usize = 1048576;

/// The content of an entry of a tree that is to be backed up.
#[derive(Debug, PartialEq, Eq)]
pub enum Content {
    /// The entry has no content: it is not a file.
    Absent,
    /// The entry could not be read.
    Unreadable,
    /// The bytes of the file.
    Bytes(Vec<u8>),
}

/// The model of a [`Content`].
pub enum ContentView {
    Absent,
    Unreadable,
    Bytes(Seq<u8>),
}

impl View for Content {
    type V = ContentView;

    open spec fn view(&self) -> ContentView {
        match self {
            Content::Absent => ContentView::Absent,
            Content::Unreadable => ContentView::Unreadable,
            Content::Bytes(b) => ContentView::Bytes(b@),
        }
    }
}

/// One entry of a tree that is to be backed up.
#[derive(Debug, PartialEq, Eq)]
pub struct SourceEntry {
    pub apath: Apath,
    pub kind: Kind,
    pub mtime: i64,
    pub mtime_nanos: u32,
    pub mode: u32,
    pub owner: Option<String>,
    pub group: Option<String>,
    /// What a symlink points to.
    pub target: Option<String>,
    pub content: Content,
}

/// The model of a [`SourceEntry`].
pub struct SourceView {
    pub apath: Seq<u8>,
    pub kind: Kind,
    pub mtime: i64,
    pub mtime_nanos: u32,
    pub mode: u32,
    pub owner: Option<Seq<char>>,
    pub group: Option<Seq<char>>,
    pub target: Option<Seq<char>>,
    pub content: ContentView,
}

impl View for SourceEntry {
    type V = SourceView;

    open spec fn view(&self) -> SourceView {
        SourceView {
            apath: self.apath@,
            kind: self.kind,
            mtime: self.mtime,
            mtime_nanos: self.mtime_nanos,
            mode: self.mode,
            owner: text_of(self.owner),
            group: text_of(self.group),
            target: text_of(self.target),
            content: self.content@,
        }
    }
}

/// The models of the entries `v`, in order.
pub open spec fn source_views(v: Seq<SourceEntry>) -> Seq<SourceView> {
    Seq::new(v.len(), |i: int| v[i]@)
}

/// How a backup is made.
pub struct BackupOptions {
    /// What is left out of the backup.
    pub exclude: Exclude,
    /// The number of entries in a hunk of the index; zero stands for the
    /// usual number.
    pub max_entries_per_hunk: usize,
    /// The weight in bytes of the entries in a hunk of the index; zero
    /// stands for the usual weight.
    pub max_bytes_per_hunk: u64,
    /// The size of the blocks into which files are cut; zero stands for
    /// the usual size.
    pub max_block_size: usize,
}

impl Default for BackupOptions {
    /// Nothing left out, and hunks and blocks of the usual size.
    fn default() -> (o: BackupOptions)
        ensures
            o.exclude@.len() == 0,
            o.max_entries_per_hunk == 0,
            o.max_bytes_per_hunk == 0,
            o.max_block_size == 0,
    {
        BackupOptions {
            exclude: Exclude::nothing(),
            max_entries_per_hunk: 0,
            max_bytes_per_hunk: 0,
            max_block_size: 0,
        }
    }
}

/// The size of block that the option `max_block_size` asks for.
pub open spec fn block_size(max_block_size: usize) -> nat {
    if max_block_size == 0 {
        MAX_BLOCK_SIZE as nat
    } else {
        max_block_size as nat
    }
}

/// `content` cut into blocks of `size` bytes, the last of which may be
/// shorter. Empty content has no block.
pub open spec fn chunks(content: Seq<u8>, size: nat) -> Seq<Seq<u8>>
    decreases content.len(),
{
    if content.len() == 0 || size == 0 {
        Seq::empty()
    } else if content.len() <= size {
        seq![content]
    } else {
        seq![content.take(size as int)] + chunks(content.skip(size as int), size)
    }
}

/// The address of the whole of a block that holds `chunk`.
pub open spec fn chunk_address(chunk: Seq<u8>) -> AddressView {
    AddressView { hash: block_hash(chunk), start: 0, len: chunk.len() as u64 }
}

/// The addresses of the blocks that hold `chunks`, in order.
pub open spec fn chunk_addrs(chunks: Seq<Seq<u8>>) -> Seq<AddressView> {
    Seq::new(chunks.len(), |i: int| chunk_address(chunks[i]))
}

/// Whether `chunk` can be kept in `blocks`: a block of its hash is there,
/// or it can be compressed to make one.
pub open spec fn can_keep(blocks: Blocks, chunk: Seq<u8>) -> bool {
    blocks.contains_key(block_hash(chunk)) || snappy_compressed(chunk) is Some
}

/// `blocks` once `chunk` is kept in it: as it was where a block of that
/// hash is there, else with the compressed chunk under its hash.
pub open spec fn with_block(blocks: Blocks, chunk: Seq<u8>) -> Blocks {
    if blocks.contains_key(block_hash(chunk)) {
        blocks
    } else {
        blocks.insert(block_hash(chunk), snappy_compressed(chunk)->0)
    }
}

/// What a backup has counted beside the entries that it wrote.
pub struct Tally {
    /// Entries that could not be copied.
    pub errors: nat,
    /// Blocks that were written.
    pub written_blocks: nat,
    /// Blocks that were there already.
    pub found_blocks: nat,
    /// The bytes of the blocks that were written, before compression.
    pub written_bytes: nat,
    /// The bytes of the blocks that were there already.
    pub found_bytes: nat,
    /// The bytes of the blocks that were written, as they are stored.
    pub compressed_bytes: nat,
}

/// The tally of a backup that has done nothing yet.
pub open spec fn no_tally() -> Tally {
    Tally {
        errors: 0,
        written_blocks: 0,
        found_blocks: 0,
        written_bytes: 0,
        found_bytes: 0,
        compressed_bytes: 0,
    }
}

/// The tally `t` with one more entry that could not be copied.
pub open spec fn tally_error(t: Tally) -> Tally {
    Tally { errors: t.errors + 1, ..t }
}

/// The tally `t` once `chunk` is kept in `blocks`: one more block found
/// where a block of its hash is there, else one more block written.
pub open spec fn tally_chunk(t: Tally, blocks: Blocks, chunk: Seq<u8>) -> Tally {
    if blocks.contains_key(block_hash(chunk)) {
        Tally {
            found_blocks: t.found_blocks + 1,
            found_bytes: t.found_bytes + chunk.len(),
            ..t
        }
    } else {
        Tally {
            written_blocks: t.written_blocks + 1,
            written_bytes: t.written_bytes + chunk.len(),
            compressed_bytes: t.compressed_bytes + snappy_compressed(chunk)->0.len(),
            ..t
        }
    }
}

/// What comes of keeping the chunks of a file.
pub struct Kept {
    /// The blocks that are stored after it.
    pub blocks: Blocks,
    /// What was counted after it.
    pub tally: Tally,
    /// Whether every chunk was kept.
    pub all: bool,
}

/// What comes of keeping the chunks `chunks` in `blocks` one after the
/// other, up to the first that cannot be kept.
pub open spec fn keep_chunks(blocks: Blocks, tally: Tally, chunks: Seq<Seq<u8>>) -> Kept
    decreases chunks.len(),
{
    if chunks.len() == 0 {
        Kept { blocks, tally, all: true }
    } else if can_keep(blocks, chunks[0]) {
        keep_chunks(
            with_block(blocks, chunks[0]),
            tally_chunk(tally, blocks, chunks[0]),
            chunks.drop_first(),
        )
    } else {
        Kept { blocks, tally, all: false }
    }
}

/// How far a backup has come: the blocks that are stored, the entries that
/// were written to the index, and what was counted.
pub struct Progress {
    pub blocks: Blocks,
    pub entries: Seq<EntryView>,
    pub tally: Tally,
}

/// The entry that is written for the source entry `src` with the content
/// at the addresses `addrs`.
pub open spec fn entry_for(
    src: SourceView,
    addrs: Seq<AddressView>,
    size: Option<u64>,
) -> EntryView {
    EntryView {
        apath: src.apath,
        kind: src.kind,
        mtime: src.mtime,
        mtime_nanos: src.mtime_nanos,
        mode: src.mode,
        owner: src.owner,
        group: src.group,
        addrs,
        target: if src.kind == Kind::Symlink {
            src.target
        } else {
            None
        },
        size,
    }
}

/// One step of a backup: what becomes of `p` when the source entry `src`
/// is copied.
///
/// An entry that is left out changes nothing. An entry that does not come
/// after the last one written, that could not be read, or that is a file
/// without content, is counted as an error. So is a file of which a block
/// cannot be kept; the blocks before that one stay. Any other entry is
/// written to the index, a file after its blocks are stored.
pub open spec fn step(p: Progress, src: SourceView, exclude: Seq<Seq<u8>>, size: nat) -> Progress {
    let failed = Progress { tally: tally_error(p.tally), ..p };
    let plain = Progress { entries: p.entries.push(entry_for(src, Seq::empty(), None)), ..p };
    if excluded(exclude, src.apath) {
        p
    } else if !(p.entries.len() == 0 || apath_order(p.entries.last().apath, src.apath) < 0) {
        failed
    } else {
        match src.content {
            ContentView::Unreadable => failed,
            ContentView::Bytes(content) => if src.kind == Kind::File {
                let cut = chunks(content, size);
                let kept = keep_chunks(p.blocks, p.tally, cut);
                if kept.all {
                    Progress {
                        blocks: kept.blocks,
                        entries: p.entries.push(
                            entry_for(src, chunk_addrs(cut), Some(content.len() as u64)),
                        ),
                        tally: kept.tally,
                    }
                } else {
                    Progress {
                        blocks: kept.blocks,
                        entries: p.entries,
                        tally: tally_error(kept.tally),
                    }
                }
            } else {
                plain
            },
            ContentView::Absent => if src.kind == Kind::File {
                failed
            } else {
                plain
            },
        }
    }
}

/// What becomes of `start` when the source entries `source` are copied one
/// after the other.
pub open spec fn progress(
    start: Progress,
    source: Seq<SourceView>,
    exclude: Seq<Seq<u8>>,
    size: nat,
) -> Progress
    decreases source.len(),
{
    if source.len() == 0 {
        start
    } else {
        step(progress(start, source.drop_last(), exclude, size), source.last(), exclude, size)
    }
}

/// Whether `after` holds every block of `before`, unchanged.
pub open spec fn extends(before: Blocks, after: Blocks) -> bool {
    forall|h: Seq<char>| #[trigger]
        before.contains_key(h) ==> after.contains_key(h) && after[h] == before[h]
}

/// How many of the entries `s` are of the kind `kind`.
pub open spec fn count_kind(s: Seq<EntryView>, kind: Kind) -> nat
    decreases s.len(),
{
    if s.len() == 0 {
        0
    } else {
        count_kind(s.drop_last(), kind) + if s.last().kind == kind {
            1nat
        } else {
            0nat
        }
    }
}

/// Whether `e` is a file whose content lies in no block (`blocks` is 0),
/// in one block (1), or in more than one (2).
pub open spec fn file_of(e: EntryView, blocks: int) -> bool {
    e.kind == Kind::File && if blocks == 0 {
        e.addrs.len() == 0
    } else if blocks == 1 {
        e.addrs.len() == 1
    } else {
        e.addrs.len() > 1
    }
}

/// How many of the entries `s` are files whose content lies in so many
/// blocks: none, one, or more than one.
pub open spec fn count_files(s: Seq<EntryView>, blocks: int) -> nat
    decreases s.len(),
{
    if s.len() == 0 {
        0
    } else {
        count_files(s.drop_last(), blocks) + if file_of(s.last(), blocks) {
            1nat
        } else {
            0nat
        }
    }
}

/// Whether `stats` holds the tally `t`, each count stopped at the largest
/// number that it can hold.
pub open spec fn tallied(stats: CopyStats, t: Tally) -> bool {
    &&& stats.errors == clip_usize(t.errors)
    &&& stats.written_blocks == clip_usize(t.written_blocks)
    &&& stats.deduplicated_blocks == clip_usize(t.found_blocks)
    &&& stats.uncompressed_bytes == clip_u64(t.written_bytes)
    &&& stats.deduplicated_bytes == clip_u64(t.found_bytes)
    &&& stats.compressed_bytes == clip_u64(t.compressed_bytes)
}

/// Whether `stats` counts the entries `entries` that were written, in
/// `hunks` hunks: by their kind, and the files by the number of their
/// blocks. What a backup does not keep count of stands at zero.
pub open spec fn counted(stats: CopyStats, entries: Seq<EntryView>, hunks: nat) -> bool {
    &&& stats.files == clip_usize(count_kind(entries, Kind::File))
    &&& stats.directories == clip_usize(count_kind(entries, Kind::Dir))
    &&& stats.symlinks == clip_usize(count_kind(entries, Kind::Symlink))
    &&& stats.empty_files == clip_usize(count_files(entries, 0))
    &&& stats.single_block_files == clip_usize(count_files(entries, 1))
    &&& stats.multi_block_files == clip_usize(count_files(entries, 2))
    &&& stats.unknown_kind == 0
    &&& stats.files_unmodified == 0
    &&& stats.files_modified == 0
    &&& stats.files_new == 0
    &&& stats.index_builder_stats == IndexBuilderStats {
        index_hunks: clip_u64(hunks),
        uncompressed_index_bytes: 0,
        compressed_index_bytes: 0,
    }
}

/// Whether `after` counts the same entries as `before`: the two differ in
/// what they tally at most.
pub open spec fn same_entries_counted(before: CopyStats, after: CopyStats) -> bool {
    forall|entries: Seq<EntryView>, hunks: nat| #[trigger]
        counted(before, entries, hunks) ==> counted(after, entries, hunks)
}

/// Cuts `content` into blocks of `size` bytes and keeps them in the block
/// directory of `archive`. Returns the addresses of the blocks, or `None`
/// where one of them could not be kept; the blocks before that one stay.
///
/// A block whose hash is stored already is not stored again. The blocks
/// that are written and those that are found are counted in `stats`.
#[verifier::rlimit(40)]
fn keep_file(
    archive: &mut Archive,
    content: &[u8],
    size: usize,
    stats: &mut CopyStats,
    tally: Ghost<Tally>,
) -> (r: Option<Vec<Address>>)
    requires
        size >= 1,
        tallied(*old(stats), tally@),
    ensures
        final(archive).path_text() == old(archive).path_text(),
        final(archive)@.header == old(archive)@.header,
        final(archive)@.files == old(archive)@.files,
        final(archive)@.dirs == old(archive)@.dirs,
        ({
            let kept = keep_chunks(
                old(archive)@.block_dir@,
                tally@,
                chunks(content@, size as nat),
            );
            &&& final(archive)@.block_dir@ == kept.blocks
            &&& tallied(*final(stats), kept.tally)
            &&& r is Some <==> kept.all
        }),
        r matches Some(addrs) ==> address_views(addrs@) == chunk_addrs(
            chunks(content@, size as nat),
        ),
        r matches Some(addrs) ==> forall|i: int|
            0 <= i < addrs@.len() ==> final(archive)@.block_dir@.contains_key(
                (#[trigger] addrs@[i]).hash@,
            ) && is_block_name(addrs@[i].hash@),
        extends(old(archive)@.block_dir@, final(archive)@.block_dir@),
        same_entries_counted(*old(stats), *final(stats)),
{
    let ghost start = archive@.block_dir@;
    let ghost all = chunks(content@, size as nat);
    let ghost before_stats = *stats;
    let n = content.len();
    let mut addrs: Vec<Address> = Vec::new();
    let mut i: usize = 0;
    let ghost mut done: Seq<Seq<u8>> = Seq::empty();
    let ghost mut now: Tally = tally@;
    proof {
        assert(content@.skip(0) =~= content@);
        assert(done + chunks(content@.skip(0), size as nat) =~= all);
        assert(address_views(addrs@) =~= chunk_addrs(done));
    }
    while i < n
        invariant
            n == content@.len(),
            size >= 1,
            i <= n,
            all == chunks(content@, size as nat),
            start == old(archive)@.block_dir@,
            archive.path_text() == old(archive).path_text(),
            archive@.header == old(archive)@.header,
            archive@.files == old(archive)@.files,
            archive@.dirs == old(archive)@.dirs,
            all == done + chunks(content@.skip(i as int), size as nat),
            keep_chunks(start, tally@, all) == keep_chunks(
                archive@.block_dir@,
                now,
                chunks(content@.skip(i as int), size as nat),
            ),
            tallied(*stats, now),
            address_views(addrs@) == chunk_addrs(done),
            forall|k: int|
                0 <= k < addrs@.len() ==> archive@.block_dir@.contains_key(
                    (#[trigger] addrs@[k]).hash@,
                ) && is_block_name(addrs@[k].hash@),
            extends(start, archive@.block_dir@),
            before_stats == *old(stats),
            same_entries_counted(before_stats, *stats),
        decreases n - i,
    {
        let to: usize = if n - i <= size {
            n
        } else {
            i + size
        };
        let chunk = slice_subrange(content, i, to);
        let ghost rest = content@.skip(i as int);
        let ghost blocks = archive@.block_dir@;
        proof {
            if n - i <= size {
                assert(chunk@ =~= rest);
                assert(content@.skip(to as int) =~= Seq::<u8>::empty());
                assert(chunks(rest, size as nat) =~= seq![chunk@] + chunks(
                    content@.skip(to as int),
                    size as nat,
                ));
            } else {
                assert(chunk@ =~= rest.take(size as int));
                assert(rest.skip(size as int) =~= content@.skip(to as int));
            }
            let cut = chunks(rest, size as nat);
            assert(cut[0] == chunk@);
            assert(cut.drop_first() =~= chunks(content@.skip(to as int), size as nat));
        }
        let hash = hash_bytes(chunk);
        let length = chunk.len() as u64;
        if archive.block_dir().contains(hash.as_str()) {
            stats.deduplicated_blocks = stats.deduplicated_blocks.saturating_add(1);
            stats.deduplicated_bytes = stats.deduplicated_bytes.saturating_add(length);
        } else {
            match archive.store_block(chunk) {
                Ok(_) => {
                    let stored_size: u64 = match archive.block_dir().compressed_size(
                        hash.as_str(),
                    ) {
                        Some(c) => c as u64,
                        None => 0,
                    };
                    stats.written_blocks = stats.written_blocks.saturating_add(1);
                    stats.uncompressed_bytes = stats.uncompressed_bytes.saturating_add(length);
                    stats.compressed_bytes = stats.compressed_bytes.saturating_add(stored_size);
                },
                Err(_) => {
                    return None;
                },
            }
        }
        proof {
            now = tally_chunk(now, blocks, chunk@);
            assert(archive@.block_dir@ == with_block(blocks, chunk@));
            assert forall|h: Seq<char>| #[trigger] start.contains_key(h) implies archive@.block_dir@.contains_key(
                h,
            ) && archive@.block_dir@[h] == start[h] by {
                assert(blocks.contains_key(h) && blocks[h] == start[h]);
            }
        }
        let ghost prev = addrs@;
        addrs.push(Address { hash, start: 0, len: length });
        proof {
            let was = done;
            done = done.push(chunk@);
            assert(address_views(prev).len() == chunk_addrs(was).len());
            assert forall|k: int| 0 <= k < addrs@.len() implies address_views(addrs@)[k]
                == chunk_addrs(done)[k] by {
                if k < prev.len() {
                    assert(address_views(prev)[k] == chunk_addrs(was)[k]);
                }
            }
            assert(address_views(addrs@) =~= chunk_addrs(done));
            assert(was + (seq![chunk@] + chunks(content@.skip(to as int), size as nat)) =~= done
                + chunks(content@.skip(to as int), size as nat));
            assert forall|k: int| 0 <= k < addrs@.len() implies archive@.block_dir@.contains_key(
                (#[trigger] addrs@[k]).hash@,
            ) && is_block_name(addrs@[k].hash@) by {
                if k < prev.len() {
                    assert(addrs@[k] == prev[k]);
                    assert(blocks.contains_key(prev[k].hash@));
                }
            }
        }
        i = to;
    }
    proof {
        assert(content@.skip(n as int) =~= Seq::<u8>::empty());
        assert(done + Seq::<Seq<u8>>::empty() =~= done);
    }
    Some(addrs)
}

/// Whether the directories `after` are the directories `before` but for
/// the hunks of the one at `k`.
pub open spec fn same_but_hunks(before: Seq<BandDir>, after: Seq<BandDir>, k: int) -> bool {
    &&& after.len() == before.len()
    &&& 0 <= k < before.len()
    &&& after[k].name == before[k].name
    &&& after[k].head == before[k].head
    &&& after[k].tail == before[k].tail
    &&& forall|j: int| 0 <= j < before.len() && j != k ==> #[trigger] after[j] == before[j]
}

/// A backup in progress: the archive that is written to, the band that
/// was begun in it, the writer of its index, and what was counted so far.
pub struct BackupWriter {
    archive: Archive,
    band_id: BandId,
    writer: IndexWriter,
    stats: CopyStats,
    tally: Ghost<Tally>,
}

impl BackupWriter {
    /// What lies in the archive that is written to.
    pub closed spec fn storage(&self) -> Storage {
        self.archive@
    }

    /// The directory of the archive that is written to.
    pub closed spec fn path_text(&self) -> Seq<char> {
        self.archive.path_text()
    }

    /// The numbers of the id of the band that is written.
    pub closed spec fn band(&self) -> Seq<u32> {
        self.band_id@
    }

    /// The entries that were written to the index so far.
    pub closed spec fn entries(&self) -> Seq<EntryView> {
        self.writer.accepted()
    }

    /// What was counted so far beside the entries.
    pub closed spec fn tally(&self) -> Tally {
        self.tally@
    }

    /// What was counted so far, as it is handed out.
    pub closed spec fn stats(&self) -> CopyStats {
        self.stats
    }

    /// How far the backup has come.
    pub open spec fn progress(&self) -> Progress {
        Progress { blocks: self.storage().block_dir@, entries: self.entries(), tally: self.tally() }
    }

    /// Where the directory of the band stands in the archive.
    pub open spec fn place(&self) -> int {
        first_named(self.storage().dirs@, band_text(self.band()))
    }

    /// What holds of every backup in progress: its band is there and open,
    /// the hunks of the band are those that the writer of the index handed
    /// out, every block that a written entry names is stored, and the
    /// counts are those of what was written.
    pub closed spec fn well_formed(&self) -> bool {
        let storage = self.archive@;
        let k = first_named(storage.dirs@, band_text(self.band_id@));
        &&& self.writer.well_formed()
        &&& k < storage.dirs@.len()
        &&& storage.dirs@[k].tail is Absent
        &&& storage.dirs@[k].hunks@.len() == self.writer.flushed().len()
        &&& forall|h: int|
            0 <= h < self.writer.flushed().len() ==> (#[trigger] storage.dirs@[k].hunks@[h])
                is Entries && hunk_entries(storage.dirs@[k].hunks@[h]) == self.writer.flushed()[h]
        &&& forall|h: Seq<char>| #[trigger]
            entries_refer(self.writer.accepted(), h) ==> storage.block_dir@.contains_key(h)
                && is_block_name(h)
        &&& tallied(self.stats, self.tally@)
        &&& counted(self.stats, self.writer.accepted(), self.writer.flushed().len())
    }

    /// What `well_formed` says, for those who cannot see into the backup.
    pub proof fn lemma_well_formed(&self)
        requires
            self.well_formed(),
        ensures
            0 <= self.place() < self.storage().dirs@.len(),
            self.storage().dirs@[self.place()].tail is Absent,
            tallied(self.stats(), self.tally()),
            counted(
                self.stats(),
                self.entries(),
                self.storage().dirs@[self.place()].hunks@.len(),
            ),
            strictly_sorted(self.entries()),
            forall|h: Seq<char>| #[trigger]
                entries_refer(self.entries(), h) ==> self.storage().block_dir@.contains_key(h)
                    && is_block_name(h),
    {
        self.writer.lemma_well_formed();
        crate::band::lemma_first_named_bounds(self.archive@.dirs@, band_text(self.band_id@));
    }

    /// The band that is written refers to stored blocks only.
    pub proof fn lemma_band_resolved(&self)
        requires
            self.well_formed(),
        ensures
            0 <= self.place() < self.storage().dirs@.len(),
            band_resolved(self.storage().dirs@[self.place()], self.storage().block_dir@),
    {
        self.writer.lemma_well_formed();
        crate::band::lemma_first_named_bounds(self.archive@.dirs@, band_text(self.band_id@));
        let dir = self.archive@.dirs@[self.place()];
        let written = concat(self.writer.flushed());
        lemma_hunks_hold_runs(dir.hunks@, self.writer.flushed());
        crate::index::lemma_sorted_prefix(written, self.writer.pending());
        lemma_ascending_of_sorted(written);
        assert(band_entries(dir) == written);
        assert forall|h: Seq<char>| #[trigger]
            entries_refer(band_entries(dir), h) implies self.archive@.block_dir@.contains_key(h)
            && is_block_name(h) by {
            let i = choose|i: int|
                0 <= i < written.len() && addrs_refer((#[trigger] written[i]).addrs, h);
            assert(self.writer.accepted()[i] == written[i]);
            assert(entries_refer(self.writer.accepted(), h));
        }
    }

    /// The references of the archive are resolved now where they were
    /// resolved in `before`, of which no block was taken away and every
    /// band but the one that is written has kept its hunks.
    proof fn lemma_still_resolved(&self, before: Storage)
        requires
            self.well_formed(),
            resolved(before),
            extends(before.block_dir@, self.storage().block_dir@),
            before.dirs@.len() == self.storage().dirs@.len(),
            forall|j: int|
                0 <= j < before.dirs@.len() && j != self.place() ==> (
                #[trigger] self.storage().dirs@[j]).hunks@ == before.dirs@[j].hunks@,
        ensures
            resolved(self.storage()),
    {
        self.lemma_band_resolved();
        let after = self.storage();
        assert forall|j: int| 0 <= j < after.dirs@.len() implies band_resolved(
            #[trigger] after.dirs@[j],
            after.block_dir@,
        ) || (j < before.dirs@.len() && after.dirs@[j].hunks@ == before.dirs@[j].hunks@) by {}
        lemma_resolved_kept(before, after);
    }

    /// Begins a backup into `archive`: begins a new band at `start_time`,
    /// as [`Archive::create_band`] does.
    ///
    /// Fails with `TooManyBands` where no band id is left, and hands the
    /// archive back as it was.
    pub fn begin(archive: Archive, options: &BackupOptions, start_time: i64) -> (r: Result<
        BackupWriter,
        (Error, Archive),
    >)
        ensures
            match r {
                Ok(w) => {
                    &&& w.well_formed()
                    &&& w.path_text() == archive.path_text()
                    &&& w.storage().header == archive@.header
                    &&& w.storage().files == archive@.files
                    &&& w.storage().block_dir == archive@.block_dir
                    &&& next_band_id(sorted_ids(archive@.dirs@)) == Some(w.band())
                    &&& w.place() == archive@.dirs@.len()
                    &&& w.entries().len() == 0
                    &&& w.tally() == no_tally()
                    &&& w.storage().dirs@.len() == archive@.dirs@.len() + 1
                    &&& w.storage().dirs@.drop_last() == archive@.dirs@
                    &&& w.storage().dirs@.last().name@ == band_text(w.band())
                    &&& w.storage().dirs@.last().head matches Stored::Present(head)
                    &&& head.start_time == start_time
                    &&& head.band_format_version@ == band_format_text()
                    &&& w.storage().dirs@.last().hunks@.len() == 0
                    &&& resolved(archive@) ==> resolved(w.storage())
                },
                Err((e, back)) => {
                    &&& next_band_id(sorted_ids(archive@.dirs@)) is None
                    &&& e is TooManyBands
                    &&& back.path_text() == archive.path_text()
                    &&& back@.header == archive@.header
                    &&& back@.files == archive@.files
                    &&& back@.block_dir == archive@.block_dir
                    &&& back@.dirs == archive@.dirs
                },
            },
    {
        let mut archive = archive;
        let band_id = match archive.create_band(start_time) {
            Ok(id) => id,
            Err(e) => {
                return Err((e, archive));
            },
        };
        Ok(
            BackupWriter {
                archive,
                band_id,
                writer: IndexWriter::new(
                    options.max_entries_per_hunk,
                    options.max_bytes_per_hunk,
                ),
                stats: CopyStats::default(),
                tally: Ghost(no_tally()),
            },
        )
    }

    /// The archive that is written to, as far as it is written.
    pub fn archive(&self) -> (archive: &Archive)
        ensures
            archive@ == self.storage(),
            archive.path_text() == self.path_text(),
    {
        &self.archive
    }

    /// The id of the band that is written.
    pub fn band_id(&self) -> (id: BandId)
        ensures
            id@ == self.band(),
    {
        self.band_id.clone()
    }

    /// Counts an entry that could not be copied.
    fn count_error(&mut self)
        requires
            old(self).well_formed(),
        ensures
            final(self).well_formed(),
            final(self).band() == old(self).band(),
            final(self).entries() == old(self).entries(),
            final(self).tally() == tally_error(old(self).tally()),
            final(self).storage() == old(self).storage(),
            final(self).path_text() == old(self).path_text(),
    {
        self.stats.errors = self.stats.errors.saturating_add(1);
        self.tally = Ghost(tally_error(self.tally@));
    }

    /// Copies one entry of the source into the backup, as [`step`] says.
    ///
    /// An entry that cannot be copied is counted as an error, and the
    /// backup goes on.
    #[verifier::rlimit(40)]
    pub fn copy_entry(&mut self, src: &SourceEntry, options: &BackupOptions)
        requires
            old(self).well_formed(),
        ensures
            final(self).well_formed(),
            final(self).band() == old(self).band(),
            ({
                let next = step(
                    old(self).progress(),
                    src@,
                    options.exclude@,
                    block_size(options.max_block_size),
                );
                &&& final(self).storage().block_dir@ == next.blocks
                &&& final(self).entries() == next.entries
                &&& final(self).tally() == next.tally
            }),
            final(self).path_text() == old(self).path_text(),
            final(self).storage().header == old(self).storage().header,
            final(self).storage().files == old(self).storage().files,
            same_but_hunks(
                old(self).storage().dirs@,
                final(self).storage().dirs@,
                old(self).place(),
            ),
            final(self).place() == old(self).place(),
            extends(old(self).storage().block_dir@, final(self).storage().block_dir@),
            resolved(old(self).storage()) ==> resolved(final(self).storage()),
    {
        proof {
            old(self).lemma_well_formed();
        }
        let size = if options.max_block_size == 0 {
            MAX_BLOCK_SIZE
        } else {
            options.max_block_size
        };
        if options.exclude.matches(&src.apath) {
            return ;
        }
        if !self.writer.accepts(&src.apath) {
            self.count_error();
            return ;
        }
        let is_file = match src.kind {
            Kind::File => true,
            _ => false,
        };
        let mut addrs: Vec<Address> = Vec::new();
        let mut length: Option<u64> = None;
        assert(address_views(addrs@) =~= Seq::<AddressView>::empty());
        match &src.content {
            Content::Unreadable => {
                self.count_error();
                return ;
            },
            Content::Bytes(content) => {
                if is_file {
                    let ghost before = self.archive@;
                    let ghost kept = keep_chunks(
                        before.block_dir@,
                        self.tally@,
                        chunks(content@, size as nat),
                    );
                    let stored = keep_file(
                        &mut self.archive,
                        content.as_slice(),
                        size,
                        &mut self.stats,
                        Ghost(self.tally@),
                    );
                    self.tally = Ghost(kept.tally);
                    proof {
                        assert(self.well_formed()) by {
                            assert forall|h: Seq<char>| #[trigger]
                                entries_refer(
                                    self.writer.accepted(),
                                    h,
                                ) implies self.archive@.block_dir@.contains_key(h)
                                && is_block_name(h) by {
                                assert(before.block_dir@.contains_key(h));
                            }
                        }
                    }
                    proof {
                        if resolved(before) {
                            self.lemma_still_resolved(before);
                        }
                    }
                    match stored {
                        Some(stored) => {
                            addrs = stored;
                            length = Some(content.len() as u64);
                        },
                        None => {
                            self.count_error();
                            return ;
                        },
                    }
                }
            },
            Content::Absent => {
                if is_file {
                    self.count_error();
                    return ;
                }
            },
        }
        let is_symlink = match src.kind {
            Kind::Symlink => true,
            _ => false,
        };
        let entry = IndexEntry {
            apath: src.apath.clone(),
            kind: src.kind,
            mtime: src.mtime,
            mtime_nanos: src.mtime_nanos,
            mode: src.mode,
            owner: clone_text(&src.owner),
            group: clone_text(&src.group),
            addrs,
            target: if is_symlink {
                clone_text(&src.target)
            } else {
                None
            },
            size: length,
        };
        proof {
            assert forall|h: Seq<char>| #[trigger]
                addrs_refer(entry@.addrs, h) implies self.archive@.block_dir@.contains_key(h)
                && is_block_name(h) by {
                let a = choose|a: int|
                    0 <= a < entry@.addrs.len() && (#[trigger] entry@.addrs[a]).hash == h;
                assert(entry.addrs@[a]@.hash == h);
            }
        }
        let ghost middle = self.archive@;
        self.write_entry(entry);
        proof {
            lemma_first_named_by_names(
                middle.dirs@,
                self.archive@.dirs@,
                band_text(self.band_id@),
            );
            if resolved(old(self).storage()) {
                self.lemma_still_resolved(middle);
            }
        }
    }

    /// Ends the backup at `end_time`: writes the entries that are still
    /// pending as the last hunk of the index, and closes the band. Returns
    /// the archive and what was counted.
    pub fn finish(self, end_time: i64) -> (r: (Archive, CopyStats))
        requires
            self.well_formed(),
        ensures
            r.0.path_text() == self.path_text(),
            r.0@.header == self.storage().header,
            r.0@.files == self.storage().files,
            r.0@.block_dir == self.storage().block_dir,
            ({
                let k = self.place();
                let before = self.storage().dirs@;
                let after = r.0@.dirs@;
                &&& 0 <= k < before.len()
                &&& after.len() == before.len()
                &&& first_named(after, band_text(self.band())) == k
                &&& after[k].name == before[k].name
                &&& after[k].head == before[k].head
                &&& after[k].tail == Stored::Present(BandTail { end_time })
                &&& all_entries(after[k].hunks@) == self.entries()
                &&& unreadable_hunks(after[k].hunks@) == 0
                &&& band_entries(after[k]) == self.entries()
                &&& forall|j: int| 0 <= j < before.len()
                    && j != k ==> #[trigger] after[j] == before[j]
                &&& counted(r.1, self.entries(), after[k].hunks@.len())
            }),
            tallied(r.1, self.tally()),
            resolved(self.storage()) ==> resolved(r.0@),
    {
        proof {
            self.lemma_well_formed();
        }
        let ghost k = first_named(self.archive@.dirs@, band_text(self.band_id@));
        let ghost before = self.archive@.dirs@;
        let ghost flushed = self.writer.flushed();
        let ghost accepted = self.writer.accepted();
        let band_id = self.band_id;
        let mut stats = self.stats;
        let mut archive = self.archive;
        let ghost mut runs = flushed;
        match self.writer.finish() {
            Some(hunk) => {
                proof {
                    runs = flushed.push(entry_views(hunk@));
                }
                match archive.append_hunk(&band_id, hunk) {
                    Ok(()) => {},
                    Err(_) => {},
                }
                stats.index_builder_stats.index_hunks =
                    stats.index_builder_stats.index_hunks.saturating_add(1);
            },
            None => {},
        }
        let ghost middle = archive@.dirs@;
        proof {
            lemma_first_named_by_names(before, middle, band_text(band_id@));
            assert(concat(runs) == accepted);
            assert(middle[k].hunks@.len() == runs.len());
            assert forall|h: int| 0 <= h < runs.len() implies (#[trigger] middle[k].hunks@[h])
                is Entries && hunk_entries(middle[k].hunks@[h]) == runs[h] by {
                if h < flushed.len() {
                    assert(middle[k].hunks@[h] == before[k].hunks@[h]);
                }
            }
            lemma_hunks_hold_runs(middle[k].hunks@, runs);
            lemma_all_readable(middle[k].hunks@);
            lemma_ascending_of_sorted(accepted);
        }
        match archive.close_band(&band_id, end_time) {
            Ok(()) => {},
            Err(_) => {},
        }
        proof {
            lemma_first_named_by_names(middle, archive@.dirs@, band_text(band_id@));
            if resolved(self.storage()) {
                assert(band_entries(archive@.dirs@[k]) == accepted);
                assert(band_resolved(archive@.dirs@[k], archive@.block_dir@));
                assert forall|j: int| 0 <= j < archive@.dirs@.len() implies band_resolved(
                    #[trigger] archive@.dirs@[j],
                    archive@.block_dir@,
                ) || (j < before.len() && archive@.dirs@[j].hunks@ == before[j].hunks@) by {
                    if j != k {
                        assert(archive@.dirs@[j] == middle[j]);
                        assert(middle[j] == before[j]);
                    }
                }
                lemma_resolved_kept(self.storage(), archive@);
            }
        }
        (archive, stats)
    }

    /// Gives the backup up: the band stays open, with the hunks of its
    /// index that were full, and the entries that were pending are
    /// forgotten. Returns the archive and what was counted.
    pub fn abandon(self) -> (r: (Archive, CopyStats))
        ensures
            r.0@ == self.storage(),
            r.0.path_text() == self.path_text(),
            r.1 == self.stats(),
    {
        (self.archive, self.stats)
    }

    /// Writes `entry` to the index of the band, and to the archive the
    /// hunk that it completes, if it completes one.
    fn write_entry(&mut self, entry: IndexEntry)
        requires
            old(self).well_formed(),
            may_follow(old(self).entries(), entry@),
            forall|h: Seq<char>| #[trigger]
                addrs_refer(entry@.addrs, h) ==> old(self).storage().block_dir@.contains_key(h)
                    && is_block_name(h),
        ensures
            final(self).well_formed(),
            final(self).band() == old(self).band(),
            final(self).entries() == old(self).entries().push(entry@),
            final(self).tally() == old(self).tally(),
            final(self).path_text() == old(self).path_text(),
            final(self).storage().header == old(self).storage().header,
            final(self).storage().files == old(self).storage().files,
            final(self).storage().block_dir == old(self).storage().block_dir,
            same_but_hunks(
                old(self).storage().dirs@,
                final(self).storage().dirs@,
                old(self).place(),
            ),
    {
        let ghost k = first_named(self.archive@.dirs@, band_text(self.band_id@));
        let ghost before_dirs = self.archive@.dirs@;
        let ghost before_entries = self.writer.accepted();
        let ghost view = entry@;
        proof {
            crate::band::lemma_first_named_bounds(before_dirs, band_text(self.band_id@));
        }
        let kind = entry.kind;
        let blocks = entry.addrs.len();
        assert(blocks == view.addrs.len());
        match self.writer.push(entry) {
            Ok(Some(hunk)) => {
                match self.archive.append_hunk(&self.band_id, hunk) {
                    Ok(()) => {},
                    Err(_) => {},
                }
                self.stats.index_builder_stats.index_hunks =
                    self.stats.index_builder_stats.index_hunks.saturating_add(1);
                proof {
                    lemma_first_named_by_names(
                        before_dirs,
                        self.archive@.dirs@,
                        band_text(self.band_id@),
                    );
                }
            },
            Ok(None) => {},
            Err(_) => {},
        }
        match kind {
            Kind::File => {
                self.stats.files = self.stats.files.saturating_add(1);
                if blocks == 0 {
                    self.stats.empty_files = self.stats.empty_files.saturating_add(1);
                } else if blocks == 1 {
                    self.stats.single_block_files = self.stats.single_block_files.saturating_add(
                        1,
                    );
                } else {
                    self.stats.multi_block_files = self.stats.multi_block_files.saturating_add(1);
                }
            },
            Kind::Dir => {
                self.stats.directories = self.stats.directories.saturating_add(1);
            },
            Kind::Symlink => {
                self.stats.symlinks = self.stats.symlinks.saturating_add(1);
            },
        }
        proof {
            let after = self.writer.accepted();
            assert(after.drop_last() =~= before_entries);
            assert(after.last() == view);
            assert forall|h: Seq<char>| #[trigger] entries_refer(after, h) implies self.archive@.block_dir@.contains_key(
                h,
            ) && is_block_name(h) by {
                let i = choose|i: int|
                    0 <= i < after.len() && addrs_refer((#[trigger] after[i]).addrs, h);
                if i < before_entries.len() {
                    assert(before_entries[i] == after[i]);
                    assert(entries_refer(before_entries, h));
                } else {
                    assert(addrs_refer(view.addrs, h));
                }
            }
        }
    }
}

/// The state of a backup that has copied nothing yet into an archive
/// with the blocks `blocks`.
pub open spec fn beginning(blocks: Blocks) -> Progress {
    Progress { blocks, entries: Seq::empty(), tally: no_tally() }
}

/// Backs up the tree `source` into a new band of `archive`, begun at
/// `start_time` and completed at `end_time`.
///
/// The entries of `source` are copied in order, as [`progress`] says: the
/// new band shows the entries that were written, the blocks of their
/// content are stored, and what was written, stored and passed over is
/// counted. The bands that were there stay as they were, and no block is
/// taken away or changed: where every reference of the archive was
/// resolved before, every reference is resolved after.
///
/// Fails with `TooManyBands`, and changes nothing, where no band id is
/// left for the new band.
#[verifier::rlimit(40)]
pub fn backup(
    archive: &mut Archive,
    source: &Vec<SourceEntry>,
    options: &BackupOptions,
    start_time: i64,
    end_time: i64,
) -> (r: Result<CopyStats, Error>)
    ensures
        final(archive).path_text() == old(archive).path_text(),
        final(archive)@.header == old(archive)@.header,
        final(archive)@.files == old(archive)@.files,
        extends(old(archive)@.block_dir@, final(archive)@.block_dir@),
        match r {
            Ok(stats) => {
                let p = progress(
                    beginning(old(archive)@.block_dir@),
                    source_views(source@),
                    options.exclude@,
                    block_size(options.max_block_size),
                );
                let n = old(archive)@.dirs@.len() as int;
                let dirs = final(archive)@.dirs@;
                &&& next_band_id(sorted_ids(old(archive)@.dirs@)) matches Some(id)
                &&& dirs.len() == n + 1
                &&& dirs.take(n) == old(archive)@.dirs@
                &&& first_named(dirs, band_text(id)) == n
                &&& dirs[n].name@ == band_text(id)
                &&& dirs[n].head matches Stored::Present(head)
                &&& head.start_time == start_time
                &&& head.band_format_version@ == band_format_text()
                &&& dirs[n].tail == Stored::Present(BandTail { end_time })
                &&& unreadable_hunks(dirs[n].hunks@) == 0
                &&& all_entries(dirs[n].hunks@) == p.entries
                &&& band_entries(dirs[n]) == p.entries
                &&& final(archive)@.block_dir@ == p.blocks
                &&& tallied(stats, p.tally)
                &&& counted(stats, p.entries, dirs[n].hunks@.len())
                &&& resolved(old(archive)@) ==> resolved(final(archive)@)
            },
            Err(e) => {
                &&& next_band_id(sorted_ids(old(archive)@.dirs@)) is None
                &&& e is TooManyBands
                &&& final(archive)@.dirs == old(archive)@.dirs
                &&& final(archive)@.block_dir == old(archive)@.block_dir
            },
        },
{
    let ghost views = source_views(source@);
    let ghost start = beginning(archive@.block_dir@);
    let ghost size = block_size(options.max_block_size);
    let ghost n = archive@.dirs@.len() as int;
    // The archive is handed to the writer for the time of the backup.
    let mut taken = Archive::create("");
    core::mem::swap(archive, &mut taken);
    let mut w = match BackupWriter::begin(taken, options, start_time) {
        Ok(w) => w,
        Err((e, back)) => {
            *archive = back;
            return Err(e);
        },
    };
    let ghost begun = w.storage().dirs@;
    let ghost was = old(archive)@.dirs@;
    let mut i: usize = 0;
    proof {
        assert(views.take(0) =~= Seq::<SourceView>::empty());
        assert(w.entries() =~= start.entries);
        assert forall|j: int| 0 <= j < n implies #[trigger] w.storage().dirs@[j] == was[j] by {
            assert(w.storage().dirs@.drop_last()[j] == old(archive)@.dirs@[j]);
        }
    }
    while i < source.len()
        invariant
            i <= source@.len(),
            views == source_views(source@),
            start == beginning(old(archive)@.block_dir@),
            size == block_size(options.max_block_size),
            n == old(archive)@.dirs@.len(),
            w.well_formed(),
            w.place() == n,
            next_band_id(sorted_ids(old(archive)@.dirs@)) == Some(w.band()),
            w.storage().dirs@.len() == n + 1,
            forall|j: int| 0 <= j < n ==> #[trigger] w.storage().dirs@[j] == old(archive)@.dirs@[j],
            w.storage().dirs@[n].name == begun[n].name,
            w.storage().dirs@[n].head == begun[n].head,
            w.path_text() == old(archive).path_text(),
            w.storage().header == old(archive)@.header,
            w.storage().files == old(archive)@.files,
            extends(old(archive)@.block_dir@, w.storage().block_dir@),
            w.progress().blocks == progress(start, views.take(i as int), options.exclude@, size).blocks,
            w.progress().entries == progress(
                start,
                views.take(i as int),
                options.exclude@,
                size,
            ).entries,
            w.progress().tally == progress(start, views.take(i as int), options.exclude@, size).tally,
        decreases source@.len() - i,
    {
        let ghost before = w.storage();
        proof {
            assert(views.take(i + 1).drop_last() =~= views.take(i as int));
            assert(views.take(i + 1).last() == source@[i as int]@);
        }
        w.copy_entry(&source[i], options);
        proof {
            assert forall|h: Seq<char>| #[trigger]
                old(archive)@.block_dir@.contains_key(h) implies w.storage().block_dir@.contains_key(
                h,
            ) && w.storage().block_dir@[h] == old(archive)@.block_dir@[h] by {
                assert(before.block_dir@.contains_key(h));
            }
        }
        i += 1;
    }
    proof {
        assert(views.take(source@.len() as int) =~= views);
    }
    let ghost written = w.entries();
    let ghost band = w.band();
    proof {
        w.lemma_well_formed();
    }
    let (back, stats) = w.finish(end_time);
    *archive = back;
    proof {
        let dirs = archive@.dirs@;
        assert(dirs.take(n) =~= old(archive)@.dirs@);
        assert(dirs[n].name@ == band_text(band));
        if resolved(old(archive)@) {
            assert forall|k: int, hash: Seq<char>|
                0 <= k < dirs.len() && #[trigger] entries_refer(
                    band_entries(dirs[k]),
                    hash,
                ) implies archive@.block_dir@.contains_key(hash) && is_block_name(hash) by {
                if k < n {
                    assert(dirs[k] == old(archive)@.dirs@[k]);
                    assert(entries_refer(band_entries(old(archive)@.dirs@[k]), hash));
                    assert(old(archive)@.block_dir@.contains_key(hash));
                } else {
                    assert(entries_refer(written, hash));
                }
            }
        }
    }
    Ok(stats)
}

/// An index of which every hunk holds entries has no hunk that cannot be
/// read.
pub proof fn lemma_all_readable(hunks: Seq<Hunk>)
    requires
        forall|h: int| 0 <= h < hunks.len() ==> (#[trigger] hunks[h]) is Entries,
    ensures
        unreadable_hunks(hunks) == 0,
    decreases hunks.len(),
{
    if hunks.len() > 0 {
        assert(hunks[hunks.len() - 1] is Entries);
        lemma_all_readable(hunks.drop_last());
    }
}

} // verus!
