//! Restoring: reading a stored tree back out of an archive.
//!
//! The entries of the tree are taken in ascending order of apath, so that
//! a directory comes before what it holds. The content of each file is
//! put together from the blocks that its addresses name. An entry that
//! cannot be restored is counted, reported and passed over.

use crate::apath::Apath;
use crate::archive::Archive;
use crate::backup::{
    beginning, chunk_address, chunk_addrs, chunks, counted, entry_for, keep_chunks, no_tally,
    progress, tallied, Content, ContentView, Progress, SourceEntry, SourceView, Tally,
};
use crate::bandid::BandId;
use crate::blockdir::{block_content, sliced, Blocks};
use crate::cache::BlockCache;
use crate::codec::block_hash;
use crate::errors::Error;
use crate::index::{
    address_views, clone_text, entry_views, Address, AddressView, EntryView, IndexEntry, Kind,
};
use crate::monitor::collect::{continues, CollectMonitor};
use crate::monitor::Problem;
use crate::stats::CopyStats;
use crate::stored_tree::{
    chain_unreadable, excluded, selected, selection_fails, tree_chain, walk_of,
    BandSelectionPolicy, Exclude,
};
use vstd::prelude::*;

verus! {

/// How a tree is restored.
pub struct RestoreOptions {
    /// What is left out.
    pub exclude: Exclude,
    /// The part of the tree that is restored; the whole tree where there
    /// is none.
    pub only_subtree: Option<Apath>,
}

impl Default for RestoreOptions {
    /// The whole tree, nothing left out.
    fn default() -> (o: RestoreOptions)
        ensures
            o.exclude@.len() == 0,
            o.only_subtree is None,
    {
        RestoreOptions { exclude: Exclude::nothing(), only_subtree: None }
    }
}

/// The apath below which a restore with the subtree option `only_subtree`
/// restores: that of the option, or the root.
pub open spec fn restore_top(only_subtree: Option<Apath>) -> Seq<u8> {
    match only_subtree {
        Some(a) => a@,
        None => seq![crate::apath::SEPARATOR],
    }
}

/// A tree that was restored.
pub struct Restored {
    /// The band that the tree was read from.
    pub band_id: BandId,
    /// The entries of the tree, in ascending order of apath.
    pub tree: Vec<SourceEntry>,
    /// What was counted.
    pub stats: CopyStats,
}

/// The bytes that the address `a` names in `blocks`, where the block is
/// there, holds what its name promises, and is long enough.
pub open spec fn address_content(blocks: Blocks, a: AddressView) -> Option<Seq<u8>> {
    match block_content(blocks, a.hash) {
        Some(data) => sliced(data, a.start, a.len),
        None => None,
    }
}

/// The content of a file with the addresses `addrs`: what they name in
/// `blocks`, one after the other. There is none where one of them names
/// nothing.
pub open spec fn content_of(blocks: Blocks, addrs: Seq<AddressView>) -> Option<Seq<u8>>
    decreases addrs.len(),
{
    if addrs.len() == 0 {
        Some(Seq::empty())
    } else {
        match content_of(blocks, addrs.drop_last()) {
            Some(front) => match address_content(blocks, addrs.last()) {
                Some(data) => Some(front + data),
                None => None,
            },
            None => None,
        }
    }
}

/// The entry of a tree that the stored entry `e` is restored to: a file
/// with its content, anything else as it is stored. There is none where
/// the content of a file cannot be put together.
pub open spec fn restored_entry(blocks: Blocks, e: EntryView) -> Option<SourceView> {
    let content = if e.kind == Kind::File {
        match content_of(blocks, e.addrs) {
            Some(data) => Some(ContentView::Bytes(data)),
            None => None,
        }
    } else {
        Some(ContentView::Absent)
    };
    match content {
        Some(c) => Some(
            SourceView {
                apath: e.apath,
                kind: e.kind,
                mtime: e.mtime,
                mtime_nanos: e.mtime_nanos,
                mode: e.mode,
                owner: e.owner,
                group: e.group,
                target: e.target,
                content: c,
            },
        ),
        None => None,
    }
}

/// The tree that the stored entries `entries` are restored to, in order,
/// without those that cannot be restored.
pub open spec fn restored(blocks: Blocks, entries: Seq<EntryView>) -> Seq<SourceView>
    decreases entries.len(),
{
    if entries.len() == 0 {
        Seq::empty()
    } else {
        let front = restored(blocks, entries.drop_last());
        match restored_entry(blocks, entries.last()) {
            Some(e) => front.push(e),
            None => front,
        }
    }
}

/// Those of the stored entries `entries` that can be restored, in order.
pub open spec fn restorable(blocks: Blocks, entries: Seq<EntryView>) -> Seq<EntryView>
    decreases entries.len(),
{
    if entries.len() == 0 {
        Seq::empty()
    } else {
        let front = restorable(blocks, entries.drop_last());
        if restored_entry(blocks, entries.last()) is Some {
            front.push(entries.last())
        } else {
            front
        }
    }
}

/// What a restore of the stored entries `entries` counts beside the
/// entries that it restored: an error for each that cannot be restored.
pub open spec fn restore_tally(blocks: Blocks, entries: Seq<EntryView>) -> Tally {
    Tally { errors: unrestored(blocks, entries), ..no_tally() }
}

/// How many of the stored entries `entries` cannot be restored.
pub open spec fn unrestored(blocks: Blocks, entries: Seq<EntryView>) -> nat
    decreases entries.len(),
{
    if entries.len() == 0 {
        0
    } else {
        unrestored(blocks, entries.drop_last()) + if restored_entry(blocks, entries.last())
            is None {
            1nat
        } else {
            0nat
        }
    }
}

/// Puts together the content of a file with the addresses `addrs` from the
/// blocks that `cache` reads.
///
/// Fails with the error of the first address that names nothing, as
/// [`BlockCache::slice`] reports it.
pub fn read_content(cache: &mut BlockCache<'_>, addrs: &Vec<Address>) -> (r: Result<Vec<u8>, Error>)
    ensures
        final(cache).block_dir() == old(cache).block_dir(),
        match r {
            Ok(data) => content_of(old(cache).block_dir()@, address_views(addrs@)) == Some(data@),
            Err(e) => content_of(old(cache).block_dir()@, address_views(addrs@)) is None && (e
                is BlockMissing || e is BlockCorrupt),
        },
{
    let ghost views = address_views(addrs@);
    let ghost blocks = cache.block_dir()@;
    let mut out: Vec<u8> = Vec::new();
    let mut i: usize = 0;
    assert(views.take(0) =~= Seq::<AddressView>::empty());
    while i < addrs.len()
        invariant
            i <= addrs@.len(),
            views == address_views(addrs@),
            cache.block_dir() == old(cache).block_dir(),
            blocks == cache.block_dir()@,
            content_of(blocks, views.take(i as int)) == Some(out@),
        decreases addrs@.len() - i,
    {
        proof {
            assert(views.take(i + 1).drop_last() =~= views.take(i as int));
            assert(views.take(i + 1).last() == addrs@[i as int]@);
        }
        let a = &addrs[i];
        let mut part = match cache.slice(a.hash.as_str(), a.start, a.len) {
            Ok(part) => part,
            Err(e) => {
                proof {
                    lemma_content_needs_front(blocks, views, i + 1);
                }
                return Err(e);
            },
        };
        out.append(&mut part);
        i += 1;
    }
    assert(views.take(addrs@.len() as int) =~= views);
    Ok(out)
}

/// The content at some addresses followed by others is the content at the
/// ones followed by the content at the others.
pub proof fn lemma_content_of_joined(blocks: Blocks, a: Seq<AddressView>, b: Seq<AddressView>)
    ensures
        content_of(blocks, a + b) == match (content_of(blocks, a), content_of(blocks, b)) {
            (Some(x), Some(y)) => Some(x + y),
            _ => None,
        },
    decreases b.len(),
{
    if b.len() == 0 {
        assert(a + b =~= a);
        if content_of(blocks, a) is Some {
            assert(content_of(blocks, a)->0 + Seq::<u8>::empty() =~= content_of(blocks, a)->0);
        }
    } else {
        lemma_content_of_joined(blocks, a, b.drop_last());
        assert((a + b).drop_last() =~= a + b.drop_last());
        assert((a + b).last() == b.last());
        match (content_of(blocks, a), content_of(blocks, b.drop_last()), address_content(
            blocks,
            b.last(),
        )) {
            (Some(x), Some(y), Some(z)) => {
                assert((x + y) + z =~= x + (y + z));
            },
            _ => {},
        }
    }
}

/// What was cut into blocks reads back whole: where each block of a file
/// that was cut into blocks of `size` bytes reads back as the bytes that
/// were cut, the addresses of the blocks yield the content of the file.
pub proof fn lemma_chunks_read_back(blocks: Blocks, content: Seq<u8>, size: nat)
    requires
        size >= 1,
        forall|i: int|
            0 <= i < chunks(content, size).len() ==> block_content(
                blocks,
                block_hash(#[trigger] chunks(content, size)[i]),
            ) == Some(chunks(content, size)[i]) && chunks(content, size)[i].len() <= u64::MAX,
    ensures
        content_of(blocks, chunk_addrs(chunks(content, size))) == Some(content),
    decreases content.len(),
{
    let cut = chunks(content, size);
    if content.len() == 0 {
        assert(chunk_addrs(cut) =~= Seq::<AddressView>::empty());
    } else {
        let first = cut[0];
        let one = seq![chunk_address(first)];
        assert(block_content(blocks, block_hash(first)) == Some(first));
        assert(first.subrange(0, first.len() as int) =~= first);
        assert(one.drop_last() =~= Seq::<AddressView>::empty());
        assert(content_of(blocks, one.drop_last()) == Some(Seq::<u8>::empty()));
        assert(one.last() == chunk_address(first));
        assert(first.len() <= u64::MAX);
        assert(sliced(first, 0, first.len() as u64) == Some(first));
        assert(address_content(blocks, one.last()) == Some(first));
        assert(content_of(blocks, one) == Some(Seq::<u8>::empty() + first));
        assert(Seq::<u8>::empty() + first =~= first);
        if content.len() <= size {
            assert(chunk_addrs(cut) =~= one);
        } else {
            let rest = content.skip(size as int);
            let more = chunks(rest, size);
            assert(cut.drop_first() =~= more);
            assert forall|i: int| 0 <= i < more.len() implies block_content(
                blocks,
                block_hash(#[trigger] more[i]),
            ) == Some(more[i]) && more[i].len() <= u64::MAX by {
                assert(more[i] == cut[i + 1]);
            }
            lemma_chunks_read_back(blocks, rest, size);
            assert(chunk_addrs(cut) =~= one + chunk_addrs(more));
            lemma_content_of_joined(blocks, one, chunk_addrs(more));
            assert(first + rest =~= content);
        }
    }
}

/// A file has no content where a beginning of its addresses has none.
pub proof fn lemma_content_needs_front(blocks: Blocks, addrs: Seq<AddressView>, k: int)
    requires
        0 <= k <= addrs.len(),
        content_of(blocks, addrs.take(k)) is None,
    ensures
        content_of(blocks, addrs) is None,
    decreases addrs.len(),
{
    if k == addrs.len() {
        assert(addrs.take(k) =~= addrs);
    } else {
        assert(addrs.drop_last().take(k) =~= addrs.take(k));
        lemma_content_needs_front(blocks, addrs.drop_last(), k);
    }
}

/// Restores the entry `e` from the blocks that `cache` reads.
///
/// Fails where `e` is a file whose content cannot be put together, as
/// [`read_content`] does.
pub fn restore_entry(cache: &mut BlockCache<'_>, e: &IndexEntry) -> (r: Result<SourceEntry, Error>)
    ensures
        final(cache).block_dir() == old(cache).block_dir(),
        match r {
            Ok(entry) => restored_entry(old(cache).block_dir()@, e@) == Some(entry@),
            Err(err) => restored_entry(old(cache).block_dir()@, e@) is None && (err
                is BlockMissing || err is BlockCorrupt),
        },
{
    let is_file = match e.kind {
        Kind::File => true,
        _ => false,
    };
    let content = if is_file {
        match read_content(cache, &e.addrs) {
            Ok(data) => Content::Bytes(data),
            Err(err) => {
                return Err(err);
            },
        }
    } else {
        Content::Absent
    };
    Ok(
        SourceEntry {
            apath: e.apath.clone(),
            kind: e.kind,
            mtime: e.mtime,
            mtime_nanos: e.mtime_nanos,
            mode: e.mode,
            owner: clone_text(&e.owner),
            group: clone_text(&e.group),
            target: clone_text(&e.target),
            content,
        },
    )
}

/// Restores the tree of the band of `archive` that `band_selection`
/// selects: the entries that its stitched view shows below the subtree of
/// `options`, without what `options` leaves out, each with its content.
///
/// An entry that cannot be restored is counted in `errors`, reported to
/// `monitor` as a problem and passed over. So is each hunk of an index
/// that cannot be read.
///
/// Succeeds exactly where a band is selected, as [`selected`] says, and
/// fails otherwise with the error that [`selection_fails`] names, as
/// [`Archive::open_stored_tree`] does; the monitor then stays as it was.
pub fn restore(
    archive: &Archive,
    band_selection: BandSelectionPolicy,
    options: RestoreOptions,
    monitor: &mut CollectMonitor,
) -> (r: Result<Restored, Error>)
    ensures
        continues(old(monitor).collected(), final(monitor).collected()),
        final(monitor).counters() == old(monitor).counters(),
        final(monitor).started_files() == old(monitor).started_files(),
        final(monitor).tasks() == old(monitor).tasks(),
        match r {
            Ok(done) => {
                let dirs = archive@.dirs@;
                let blocks = archive@.block_dir@;
                let walk = walk_of(
                    tree_chain(dirs, done.band_id@),
                    restore_top(options.only_subtree),
                    options.exclude@,
                );
                &&& selected(dirs, band_selection) == Some(done.band_id@)
                &&& crate::backup::source_views(done.tree@) == restored(blocks, walk)
                &&& final(monitor).collected().len() == old(monitor).collected().len()
                    + chain_unreadable(tree_chain(dirs, done.band_id@)) + unrestored(blocks, walk)
                &&& tallied(done.stats, restore_tally(blocks, walk))
                &&& counted(done.stats, restorable(blocks, walk), 0)
            },
            Err(e) => {
                &&& selected(archive@.dirs@, band_selection) is None
                &&& selection_fails(archive@.dirs@, band_selection, e)
                &&& final(monitor).collected() == old(monitor).collected()
            },
        },
{
    let ghost before = monitor.collected();
    assert(before.take(before.len() as int) =~= before);
    let tree = match archive.open_stored_tree(band_selection) {
        Ok(tree) => tree,
        Err(e) => {
            return Err(e);
        },
    };
    let top = match options.only_subtree {
        Some(a) => a,
        None => Apath::root(),
    };
    let ghost top_view = top@;
    let ghost exclude_view = options.exclude@;
    let band_id = tree.band().id();
    let ghost id = band_id@;
    let stitch = tree.iter_entries(top, options.exclude, monitor);
    let ghost walk = stitch@;
    let ghost after_stitch = monitor.collected();
    let entries = stitch.collect_all();
    let mut out: Vec<SourceEntry> = Vec::new();
    let mut stats = CopyStats::default();
    let mut cache = BlockCache::new(archive.block_dir());
    let mut k: usize = 0;
    proof {
        assert(walk.take(0) =~= Seq::<EntryView>::empty());
        assert(crate::backup::source_views(out@) =~= Seq::<SourceView>::empty());
    }
    while k < entries.len()
        invariant
            k <= entries@.len(),
            walk == entry_views(entries@),
            cache.block_dir() == archive@.block_dir,
            crate::backup::source_views(out@) == restored(
                archive@.block_dir@,
                walk.take(k as int),
            ),
            tallied(stats, restore_tally(archive@.block_dir@, walk.take(k as int))),
            counted(stats, restorable(archive@.block_dir@, walk.take(k as int)), 0),
            monitor.collected().len() == after_stitch.len() + unrestored(
                archive@.block_dir@,
                walk.take(k as int),
            ),
            after_stitch.len() >= before.len(),
            monitor.collected().take(before.len() as int) == before,
            monitor.counters() == old(monitor).counters(),
            monitor.started_files() == old(monitor).started_files(),
            monitor.tasks() == old(monitor).tasks(),
        decreases entries@.len() - k,
    {
        proof {
            assert(walk.take(k + 1).drop_last() =~= walk.take(k as int));
            assert(walk.take(k + 1).last() == entries@[k as int]@);
        }
        match restore_entry(&mut cache, &entries[k]) {
            Ok(entry) => {
                let ghost prev = out@;
                proof {
                    let kept = restorable(archive@.block_dir@, walk.take(k + 1));
                    assert(kept.drop_last() =~= restorable(
                        archive@.block_dir@,
                        walk.take(k as int),
                    ));
                    assert(kept.last() == entries@[k as int]@);
                }
                match entry.kind {
                    Kind::File => {
                        stats.files = stats.files.saturating_add(1);
                        let blocks = entries[k].addrs.len();
                        if blocks == 0 {
                            stats.empty_files = stats.empty_files.saturating_add(1);
                        } else if blocks == 1 {
                            stats.single_block_files = stats.single_block_files.saturating_add(1);
                        } else {
                            stats.multi_block_files = stats.multi_block_files.saturating_add(1);
                        }
                    },
                    Kind::Dir => {
                        stats.directories = stats.directories.saturating_add(1);
                    },
                    Kind::Symlink => {
                        stats.symlinks = stats.symlinks.saturating_add(1);
                    },
                }
                out.push(entry);
                assert(crate::backup::source_views(out@) =~= crate::backup::source_views(
                    prev,
                ).push(entry@));
            },
            Err(error) => {
                stats.errors = stats.errors.saturating_add(1);
                let ghost prev = monitor.collected();
                monitor.problem(Problem { error });
                assert(monitor.collected().take(before.len() as int) =~= prev.take(
                    before.len() as int,
                ));
            },
        }
        k += 1;
    }
    proof {
        assert(walk.take(entries@.len() as int) =~= walk);
        assert(walk == walk_of(tree_chain(archive@.dirs@, id), top_view, exclude_view));
    }
    Ok(Restored { band_id, tree: out, stats })
}

/// Whether the source entry `src` is as a tree has it: a file has content
/// that 64 bits can measure, nothing else has content, and only a symlink
/// has a target.
pub open spec fn plain(src: SourceView) -> bool {
    &&& src.kind == Kind::File ==> (src.content matches ContentView::Bytes(c) && c.len()
        <= u64::MAX)
    &&& src.kind != Kind::File ==> src.content is Absent
    &&& src.kind != Kind::Symlink ==> src.target is None
}

/// Whether every block of the content of `src`, cut into blocks of `size`
/// bytes, reads back from `blocks` as the bytes that were cut.
pub open spec fn reads_back(blocks: Blocks, src: SourceView, size: nat) -> bool {
    src.content matches ContentView::Bytes(c) ==> (forall|i: int|
        0 <= i < chunks(c, size).len() ==> block_content(
            blocks,
            block_hash(#[trigger] chunks(c, size)[i]),
        ) == Some(chunks(c, size)[i]) && chunks(c, size)[i].len() <= u64::MAX)
}

/// Keeping chunks counts no error.
pub proof fn lemma_keep_counts_no_error(blocks: Blocks, tally: crate::backup::Tally, cut: Seq<Seq<u8>>)
    ensures
        keep_chunks(blocks, tally, cut).tally.errors == tally.errors,
    decreases cut.len(),
{
    if cut.len() > 0 && crate::backup::can_keep(blocks, cut[0]) {
        lemma_keep_counts_no_error(
            crate::backup::with_block(blocks, cut[0]),
            crate::backup::tally_chunk(tally, blocks, cut[0]),
            cut.drop_first(),
        );
    }
}

/// A backup never forgets an error.
pub proof fn lemma_errors_grow(
    start: Progress,
    source: Seq<SourceView>,
    exclude: Seq<Seq<u8>>,
    size: nat,
)
    ensures
        progress(start, source, exclude, size).tally.errors >= start.tally.errors,
    decreases source.len(),
{
    if source.len() > 0 {
        let before = progress(start, source.drop_last(), exclude, size);
        lemma_errors_grow(start, source.drop_last(), exclude, size);
        match source.last().content {
            ContentView::Bytes(c) => {
                lemma_keep_counts_no_error(before.blocks, before.tally, chunks(c, size));
            },
            _ => {},
        }
    }
}

/// What was backed up is what is restored: where a backup of the tree
/// `source` left nothing out and met no error, and every block of every
/// file reads back from `blocks` as the bytes that were cut, the entries
/// that the backup wrote restore from `blocks` to `source`.
pub proof fn lemma_restore_after_backup(
    blocks: Blocks,
    start: Blocks,
    source: Seq<SourceView>,
    exclude: Seq<Seq<u8>>,
    size: nat,
)
    requires
        size >= 1,
        progress(beginning(start), source, exclude, size).tally.errors == 0,
        forall|i: int|
            0 <= i < source.len() ==> plain(#[trigger] source[i]) && !excluded(
                exclude,
                source[i].apath,
            ) && reads_back(blocks, source[i], size),
    ensures
        restored(blocks, progress(beginning(start), source, exclude, size).entries) == source,
        unrestored(blocks, progress(beginning(start), source, exclude, size).entries) == 0,
    decreases source.len(),
{
    let p = progress(beginning(start), source, exclude, size);
    if source.len() == 0 {
        assert(restored(blocks, p.entries) =~= source);
    } else {
        let front = source.drop_last();
        let src = source.last();
        let before = progress(beginning(start), front, exclude, size);
        lemma_errors_grow(beginning(start), front, exclude, size);
        assert(plain(source[source.len() - 1]));
        assert forall|i: int| 0 <= i < front.len() implies plain(#[trigger] front[i]) && !excluded(
            exclude,
            front[i].apath,
        ) && reads_back(blocks, front[i], size) by {
            assert(front[i] == source[i]);
        }
        match src.content {
            ContentView::Bytes(c) => {
                lemma_keep_counts_no_error(before.blocks, before.tally, chunks(c, size));
            },
            _ => {},
        }
        assert(before.tally.errors == 0);
        lemma_restore_after_backup(blocks, start, front, exclude, size);
        // The last entry was written, and restores to what it was made of.
        let written = p.entries.last();
        assert(p.entries.drop_last() =~= before.entries);
        match src.content {
            ContentView::Bytes(c) => {
                let cut = chunks(c, size);
                assert(written == entry_for(src, chunk_addrs(cut), Some(c.len() as u64)));
                lemma_chunks_read_back(blocks, c, size);
            },
            _ => {
                assert(written == entry_for(src, Seq::empty(), None));
            },
        }
        assert(restored_entry(blocks, written) == Some(src));
        assert(restored(blocks, p.entries) =~= front.push(src));
        assert(front.push(src) =~= source);
    }
}

} // verus!
