use conserve::archive::Archive;
use conserve::backup::{backup, BackupOptions, BackupWriter, Content, SourceEntry};
use conserve::band::{BandTail, Stored};
use conserve::bandid::BandId;
use conserve::blockdir::BlockDir;
use conserve::cache::BlockCache;
use conserve::codec::hash_bytes;
use conserve::errors::Error;
use conserve::index::{Address, Hunk, Kind};
use conserve::monitor::collect::CollectMonitor;
use conserve::restore::{read_content, restore, RestoreOptions};
use conserve::stored_tree::{BandSelectionPolicy, Exclude};
use conserve::Apath;

fn apath(s: &str) -> Apath {
    Apath::new(s).unwrap()
}

fn dir(path: &str) -> SourceEntry {
    SourceEntry {
        apath: apath(path),
        kind: Kind::Dir,
        mtime: 1_700_000_000,
        mtime_nanos: 500,
        mode: 0o40755,
        owner: Some("root".to_string()),
        group: None,
        target: None,
        content: Content::Absent,
    }
}

fn file(path: &str, content: &[u8]) -> SourceEntry {
    SourceEntry {
        apath: apath(path),
        kind: Kind::File,
        mtime: -1,
        mtime_nanos: 999_999_999,
        mode: 0o100644,
        owner: Some("mbp".to_string()),
        group: Some("users".to_string()),
        target: None,
        content: Content::Bytes(content.to_vec()),
    }
}

fn symlink(path: &str, target: &str) -> SourceEntry {
    SourceEntry {
        apath: apath(path),
        kind: Kind::Symlink,
        mtime: 0,
        mtime_nanos: 0,
        mode: 0o120777,
        owner: None,
        group: None,
        target: Some(target.to_string()),
        content: Content::Absent,
    }
}

fn restore_latest(archive: &Archive) -> Vec<SourceEntry> {
    let mut monitor = CollectMonitor::new();
    let done = restore(
        archive,
        BandSelectionPolicy::Latest,
        RestoreOptions::default(),
        &mut monitor,
    )
    .unwrap();
    assert_eq!(done.stats.errors, 0);
    assert!(monitor.take_problems().is_empty());
    done.tree
}

fn minimal_source() -> Vec<SourceEntry> {
    vec![
        dir("/"),
        file("/hello", b"hello world\n"),
        dir("/subdir"),
        file("/subdir/subfile", b"I like Rust\n"),
    ]
}

/// Two backups one after the other: the second restores to the second
/// state of the tree.
#[test]
fn two_sequential_backups() {
    let mut archive = Archive::create("a");
    let first = vec![dir("/"), file("/hello", b"hi\n"), dir("/subdir"), file("/subdir/s", b"rust\n")];
    backup(&mut archive, &first, &BackupOptions::default(), 1, 2).unwrap();
    let second =
        vec![dir("/"), file("/hello", b"hi2\n"), dir("/subdir"), file("/subdir/s", b"rust\n")];
    backup(&mut archive, &second, &BackupOptions::default(), 3, 4).unwrap();

    assert_eq!(archive.list_bands(), vec![BandId::new(&[0]), BandId::new(&[1])]);
    let mut referenced = archive.referenced_blocks().unwrap();
    referenced.sort();
    let mut expected = vec![hash_bytes(b"hi\n"), hash_bytes(b"rust\n"), hash_bytes(b"hi2\n")];
    expected.sort();
    assert_eq!(referenced, expected);
    assert_eq!(restore_latest(&archive), second);

    let mut monitor = CollectMonitor::new();
    let done = restore(
        &archive,
        BandSelectionPolicy::Specified(BandId::zero()),
        RestoreOptions::default(),
        &mut monitor,
    )
    .unwrap();
    assert_eq!(done.band_id, BandId::zero());
    assert_eq!(done.tree, first);
}

/// The same content in two files is stored once.
#[test]
fn deduplication() {
    let payload = [42u8; 100];
    let mut archive = Archive::create("a");
    let source = vec![dir("/"), file("/a", &payload), file("/b", &payload)];
    let stats = backup(&mut archive, &source, &BackupOptions::default(), 1, 2).unwrap();
    assert_eq!(archive.referenced_blocks().unwrap(), vec![hash_bytes(&payload)]);
    assert_eq!(archive.block_dir().list(), vec![hash_bytes(&payload)]);
    assert_eq!(stats.written_blocks, 1);
    assert_eq!(stats.deduplicated_blocks, 1);
    assert_eq!(stats.uncompressed_bytes, 100);
    assert_eq!(stats.deduplicated_bytes, 100);
    assert!(stats.compressed_bytes > 0 && stats.compressed_bytes < 100);
    assert_eq!(stats.files, 2);
    assert_eq!(stats.single_block_files, 2);
    assert_eq!(restore_latest(&archive), source);
}

/// A new backup after the head of the first band was lost still succeeds,
/// and restores.
#[test]
fn backup_after_damage() {
    for damage in [Stored::Absent, Stored::Damaged] {
        let mut archive = Archive::create("a");
        let first = vec![dir("/"), file("/file", b"content in first backup")];
        backup(&mut archive, &first, &BackupOptions::default(), 1, 2).expect("initial backup");

        let mut storage = archive.into_storage();
        assert_eq!(storage.dirs[0].name, "b0000");
        storage.dirs[0].head = damage;
        let mut archive = Archive::open("a", storage).unwrap();

        // A second backup should succeed.
        let second = vec![dir("/"), file("/file", b"content in second backup")];
        backup(&mut archive, &second, &BackupOptions::default(), 3, 4)
            .expect("write second backup even though first bandhead is damaged");
        assert_eq!(archive.last_band_id(), Some(BandId::new(&[1])));

        // Can restore the second backup
        let restored = restore_latest(&archive);

        // Since the second backup rewrote the single file in the backup (and the root dir),
        // we should get all the content back out.
        assert_eq!(restored, second);
    }
}

/// A file larger than a block is cut into blocks of the block size.
#[test]
fn large_file_chunking() {
    const MIB: usize = 1 << 20;
    let content: Vec<u8> = (0..(3 * MIB + MIB / 2)).map(|i| (i / 1000 + i % 251) as u8).collect();
    let mut archive = Archive::create("a");
    let source = vec![dir("/"), file("/big", &content)];
    let stats = backup(&mut archive, &source, &BackupOptions::default(), 1, 2).unwrap();
    assert_eq!(stats.multi_block_files, 1);
    assert_eq!(stats.written_blocks, 4);

    let entries = match &archive.storage().dirs[0].hunks[0] {
        Hunk::Entries(entries) => entries,
        _ => unreachable!(),
    };
    let addrs = &entries[1].addrs;
    assert_eq!(entries[1].size, Some(content.len() as u64));
    assert_eq!(
        addrs.iter().map(|a| a.len).collect::<Vec<_>>(),
        [MIB as u64, MIB as u64, MIB as u64, (MIB / 2) as u64]
    );
    // Each address names the whole of a block of its own, and the blocks
    // follow one another in the file at 0, 1 MiB, 2 MiB and 3 MiB.
    let mut offset = 0;
    for (i, a) in addrs.iter().enumerate() {
        assert_eq!(offset, i * MIB);
        assert_eq!(a.start, 0);
        assert_eq!(a.hash, hash_bytes(&content[offset..offset + a.len as usize]));
        offset += a.len as usize;
    }
    for i in 0..addrs.len() {
        for j in 0..i {
            assert_ne!(addrs[i].hash, addrs[j].hash);
        }
    }
    assert_eq!(restore_latest(&archive), source);
}

#[test]
fn block_size_is_an_option() {
    let mut archive = Archive::create("a");
    let options = BackupOptions { max_block_size: 4, ..BackupOptions::default() };
    let source = vec![dir("/"), file("/f", b"0123456789"), file("/g", b"0123"), file("/h", b"")];
    let stats = backup(&mut archive, &source, &options, 1, 2).unwrap();
    let entries = match &archive.storage().dirs[0].hunks[0] {
        Hunk::Entries(entries) => entries,
        _ => unreachable!(),
    };
    assert_eq!(
        entries[1].addrs,
        vec![
            Address { hash: hash_bytes(b"0123"), start: 0, len: 4 },
            Address { hash: hash_bytes(b"4567"), start: 0, len: 4 },
            Address { hash: hash_bytes(b"89"), start: 0, len: 2 },
        ]
    );
    assert_eq!(entries[2].addrs, vec![Address { hash: hash_bytes(b"0123"), start: 0, len: 4 }]);
    assert!(entries[3].addrs.is_empty());
    assert_eq!(entries[3].size, Some(0));
    assert_eq!(stats.multi_block_files, 1);
    assert_eq!(stats.single_block_files, 1);
    assert_eq!(stats.empty_files, 1);
    assert_eq!(stats.written_blocks, 3);
    assert_eq!(stats.deduplicated_blocks, 1);
    assert_eq!(restore_latest(&archive), source);
}

/// Damage to a block shows when the archive is checked, and the check
/// itself does not fail.
#[test]
fn validation_detects_corruption() {
    let mut archive = Archive::create("a");
    backup(&mut archive, &minimal_source(), &BackupOptions::default(), 1, 2).unwrap();
    assert!(!archive.validate().has_problems());

    let storage = archive.into_storage();
    let mut block_dir = BlockDir::new();
    let damaged = hash_bytes(b"hello world\n");
    for name in storage.block_dir.list() {
        let mut data = snap::raw::Encoder::new()
            .compress_vec(&storage.block_dir.load(&name).unwrap())
            .unwrap();
        if name == damaged {
            let last = data.len() - 1;
            data[last] ^= 1;
        }
        block_dir.insert_file(name, data);
    }
    let storage = conserve::archive::Storage { block_dir, ..storage };
    let archive = Archive::open("a", storage).unwrap();

    let stats = archive.validate();
    assert_eq!(stats.block_dir.block_read_count, 2);
    assert_eq!(stats.block_dir.block_error_count, 1);
    assert_eq!(stats.structure_problems, 0);
    assert_eq!(stats.io_errors, 0);
    assert!(stats.has_problems());

    // The file with the damaged block is not restored, the others are.
    let mut monitor = CollectMonitor::new();
    let done = restore(
        &archive,
        BandSelectionPolicy::Latest,
        RestoreOptions::default(),
        &mut monitor,
    )
    .unwrap();
    assert_eq!(done.stats.errors, 1);
    assert_eq!(done.stats.files, 1);
    assert_eq!(done.stats.directories, 2);
    let names: Vec<String> = done.tree.iter().map(|e| e.apath.to_string()).collect();
    assert_eq!(names, ["/", "/subdir", "/subdir/subfile"]);
    let problems = monitor.take_problems();
    assert_eq!(problems.len(), 1);
    assert_eq!(problems[0].error, Error::BlockCorrupt { hash: damaged });
}

#[test]
fn examine_archive() {
    let mut archive = Archive::create("minimal-1");
    backup(&mut archive, &minimal_source(), &BackupOptions::default(), 1, 2).unwrap();

    let band_ids = archive.list_bands();
    assert_eq!(band_ids, &[BandId::zero()]);

    assert_eq!(
        archive.last_band_id().expect("Should have a last band id"),
        BandId::zero()
    );
}

#[test]
fn validate_archive() {
    let mut archive = Archive::create("minimal-1");
    backup(&mut archive, &minimal_source(), &BackupOptions::default(), 1, 2).unwrap();

    let stats = archive.validate();
    assert_eq!(stats.structure_problems, 0);
    assert_eq!(stats.io_errors, 0);

    assert_eq!(stats.block_dir.block_error_count, 0);
}

#[test]
fn restore_old_archive() {
    let mut archive = Archive::create("minimal-1");
    backup(&mut archive, &minimal_source(), &BackupOptions::default(), 1, 2).unwrap();

    let mut monitor = CollectMonitor::new();
    let done = restore(
        &archive,
        BandSelectionPolicy::Latest,
        RestoreOptions::default(),
        &mut monitor,
    )
    .expect("restore");
    let copy_stats = done.stats;

    assert_eq!(copy_stats.files, 2);
    assert_eq!(copy_stats.symlinks, 0);
    assert_eq!(copy_stats.directories, 2);
    assert_eq!(copy_stats.errors, 0);
    assert_eq!(copy_stats.empty_files, 0);

    let by_name = |name: &str| done.tree.iter().find(|e| e.apath.to_string() == name).unwrap();
    assert_eq!(by_name("/hello").content, Content::Bytes(b"hello world\n".to_vec()));
    assert_eq!(by_name("/subdir").kind, Kind::Dir);
    assert_eq!(
        by_name("/subdir/subfile").content,
        Content::Bytes(b"I like Rust\n".to_vec())
    );
}

#[test]
fn backup_counts_what_it_copied() {
    let mut archive = Archive::create("a");
    let source = vec![
        dir("/"),
        file("/a", b"aaa"),
        symlink("/link", "a"),
        dir("/sub"),
        file("/sub/b", b""),
    ];
    let stats = backup(&mut archive, &source, &BackupOptions::default(), 10, 20).unwrap();
    assert_eq!(stats.files, 2);
    assert_eq!(stats.directories, 2);
    assert_eq!(stats.symlinks, 1);
    assert_eq!(stats.errors, 0);
    assert_eq!(stats.empty_files, 1);
    let band = &archive.storage().dirs[0];
    assert_eq!(band.tail, Stored::Present(BandTail { end_time: 20 }));
    assert_eq!(restore_latest(&archive), source);
}

#[test]
fn backup_counts_and_passes_over_what_it_cannot_copy() {
    let mut archive = Archive::create("a");
    let mut unreadable = file("/b", b"");
    unreadable.content = Content::Unreadable;
    let mut no_content = file("/d", b"");
    no_content.content = Content::Absent;
    let source = vec![
        dir("/"),
        file("/c", b"ccc"),
        file("/a", b"out of order"),
        unreadable,
        file("/c", b"twice"),
        no_content,
        file("/e", b"eee"),
    ];
    let stats = backup(&mut archive, &source, &BackupOptions::default(), 10, 20).unwrap();
    assert_eq!(stats.errors, 4);
    assert_eq!(stats.files, 2);
    let names: Vec<String> =
        restore_latest(&archive).iter().map(|e| e.apath.to_string()).collect();
    assert_eq!(names, ["/", "/c", "/e"]);
    // Nothing was stored for what was passed over.
    assert_eq!(archive.block_dir().list().len(), 2);
}

#[test]
fn backup_leaves_out_what_is_excluded() {
    let mut archive = Archive::create("a");
    let options = BackupOptions {
        exclude: Exclude::below(vec![apath("/sub")]),
        ..BackupOptions::default()
    };
    let source = vec![dir("/"), file("/a", b"aaa"), dir("/sub"), file("/sub/b", b"bbb")];
    let stats = backup(&mut archive, &source, &options, 10, 20).unwrap();
    assert_eq!(stats.errors, 0);
    assert_eq!(stats.files, 1);
    assert_eq!(stats.directories, 1);
    assert_eq!(archive.block_dir().list(), vec![hash_bytes(b"aaa")]);
    assert_eq!(restore_latest(&archive), source[..2].to_vec_of_entries());
}

trait ToEntries {
    fn to_vec_of_entries(&self) -> Vec<SourceEntry>;
}

impl ToEntries for [SourceEntry] {
    fn to_vec_of_entries(&self) -> Vec<SourceEntry> {
        self.iter()
            .map(|e| SourceEntry {
                apath: e.apath.clone(),
                kind: e.kind,
                mtime: e.mtime,
                mtime_nanos: e.mtime_nanos,
                mode: e.mode,
                owner: e.owner.clone(),
                group: e.group.clone(),
                target: e.target.clone(),
                content: match &e.content {
                    Content::Absent => Content::Absent,
                    Content::Unreadable => Content::Unreadable,
                    Content::Bytes(b) => Content::Bytes(b.clone()),
                },
            })
            .collect()
    }
}

#[test]
fn backup_writes_hunks_of_the_size_asked_for() {
    let mut archive = Archive::create("a");
    let options = BackupOptions { max_entries_per_hunk: 2, ..BackupOptions::default() };
    let source = vec![dir("/"), file("/a", b"a"), file("/b", b"b"), file("/c", b"c"), file("/d", b"d")];
    backup(&mut archive, &source, &options, 10, 20).unwrap();
    let sizes: Vec<usize> = archive.storage().dirs[0]
        .hunks
        .iter()
        .map(|h| match h {
            Hunk::Entries(e) => e.len(),
            _ => 0,
        })
        .collect();
    assert_eq!(sizes, [2, 2, 1]);
    assert_eq!(restore_latest(&archive), source);
}

/// A backup that is not finished leaves a band without a tail, with the
/// hunks that were full.
#[test]
fn a_backup_that_is_abandoned_leaves_an_open_band() {
    let archive = Archive::create("a");
    let options = BackupOptions { max_entries_per_hunk: 2, ..BackupOptions::default() };
    let mut writer = BackupWriter::begin(archive, &options, 10).ok().unwrap();
    assert_eq!(writer.band_id(), BandId::zero());
    for e in [dir("/"), file("/a", b"a"), file("/b", b"b")] {
        writer.copy_entry(&e, &options);
    }
    assert_eq!(writer.archive().storage().dirs[0].hunks.len(), 1);
    let (archive, stats) = writer.abandon();
    assert_eq!(stats.files, 2);
    let band = &archive.storage().dirs[0];
    assert_eq!(band.tail, Stored::Absent);
    assert_eq!(band.hunks.len(), 1);
    assert!(archive.last_complete_band().unwrap().is_none());
    let names: Vec<String> =
        restore_latest(&archive).iter().map(|e| e.apath.to_string()).collect();
    assert_eq!(names, ["/", "/a"]);
    // Every block that was stored is still referenced or not: none is lost.
    assert_eq!(archive.block_dir().list().len(), 2);
}

#[test]
fn a_backup_step_by_step_is_a_backup() {
    let source = minimal_source();
    let options = BackupOptions::default();
    let mut at_once = Archive::create("a");
    let stats = backup(&mut at_once, &source, &options, 10, 20).unwrap();

    let mut writer = BackupWriter::begin(Archive::create("a"), &options, 10).ok().unwrap();
    for e in &source {
        writer.copy_entry(e, &options);
    }
    let (stepwise, stepwise_stats) = writer.finish(20);
    assert_eq!(stepwise_stats, stats);
    assert_eq!(stepwise.storage().dirs, at_once.storage().dirs);
    assert_eq!(stepwise.block_dir().list(), at_once.block_dir().list());
    assert_eq!(restore_latest(&stepwise), source);
}

#[test]
fn a_backup_that_cannot_begin_hands_the_archive_back() {
    let mut storage = Archive::create("a").into_storage();
    storage.dirs.push(conserve::band::BandDir {
        name: "b4294967295".to_string(),
        head: Stored::Absent,
        tail: Stored::Absent,
        hunks: vec![],
    });
    let archive = Archive::open("a", storage).unwrap();
    let (error, archive) = BackupWriter::begin(archive, &BackupOptions::default(), 1).err().unwrap();
    assert_eq!(error, Error::TooManyBands);
    assert_eq!(archive.storage().dirs.len(), 1);
    let mut archive = archive;
    assert_eq!(
        backup(&mut archive, &minimal_source(), &BackupOptions::default(), 1, 2),
        Err(Error::TooManyBands)
    );
    assert_eq!(archive.storage().dirs.len(), 1);
    assert_eq!(archive.path(), "a");
}

#[test]
fn restore_a_subtree() {
    let mut archive = Archive::create("a");
    backup(&mut archive, &minimal_source(), &BackupOptions::default(), 1, 2).unwrap();
    let mut monitor = CollectMonitor::new();
    let options = RestoreOptions { only_subtree: Some(apath("/subdir")), ..RestoreOptions::default() };
    let done = restore(&archive, BandSelectionPolicy::Latest, options, &mut monitor).unwrap();
    let names: Vec<String> = done.tree.iter().map(|e| e.apath.to_string()).collect();
    assert_eq!(names, ["/subdir", "/subdir/subfile"]);

    let options = RestoreOptions {
        exclude: Exclude::below(vec![apath("/hello")]),
        ..RestoreOptions::default()
    };
    let done = restore(&archive, BandSelectionPolicy::Latest, options, &mut monitor).unwrap();
    let names: Vec<String> = done.tree.iter().map(|e| e.apath.to_string()).collect();
    assert_eq!(names, ["/", "/subdir", "/subdir/subfile"]);
}

#[test]
fn restore_of_an_empty_archive_fails() {
    let archive = Archive::create("a");
    let mut monitor = CollectMonitor::new();
    assert_eq!(
        restore(&archive, BandSelectionPolicy::Latest, RestoreOptions::default(), &mut monitor)
            .err(),
        Some(Error::ArchiveEmpty)
    );
}

#[test]
fn content_is_put_together_from_parts_of_blocks() {
    let mut dir = BlockDir::new();
    let one = dir.store(b"0123456789").unwrap();
    let two = dir.store(b"abcdef").unwrap();
    let addrs = vec![
        Address { hash: one.clone(), start: 2, len: 3 },
        Address { hash: two.clone(), start: 0, len: 6 },
        Address { hash: one.clone(), start: 9, len: 1 },
    ];
    let mut cache = BlockCache::new(&dir);
    assert_eq!(read_content(&mut cache, &addrs).unwrap(), b"234abcdef9");
    assert_eq!(cache.len(), 2);
    assert_eq!(read_content(&mut cache, &vec![]).unwrap(), b"");
    let too_long = vec![Address { hash: two.clone(), start: 3, len: 4 }];
    assert_eq!(read_content(&mut cache, &too_long), Err(Error::BlockCorrupt { hash: two }));
    let missing = vec![Address { hash: hash_bytes(b"?"), start: 0, len: 0 }];
    assert_eq!(
        read_content(&mut cache, &missing),
        Err(Error::BlockMissing { hash: hash_bytes(b"?") })
    );
    assert_eq!(cache.len(), 2);
}

/// The cache holds the four blocks that were read last, and gives what the
/// block directory gives.
#[test]
fn the_cache_keeps_the_blocks_read_last() {
    let mut dir = BlockDir::new();
    let contents: Vec<Vec<u8>> = (0..6u8).map(|i| vec![i; 10 + i as usize]).collect();
    let hashes: Vec<String> = contents.iter().map(|c| dir.store(c).unwrap()).collect();
    let large = vec![9u8; (1 << 20) + 1];
    let large_hash = dir.store(&large).unwrap();

    let mut cache = BlockCache::new(&dir);
    assert_eq!(cache.len(), 0);
    for round in 0..3 {
        for (i, hash) in hashes.iter().enumerate() {
            assert_eq!(cache.slice(hash, 1, 5).unwrap(), &contents[i][1..6], "round {round}");
            assert_eq!(cache.slice(hash, 0, 10 + i as u64).unwrap(), contents[i]);
            assert!(cache.len() <= 4);
        }
    }
    assert_eq!(cache.len(), 4);
    // A block that is longer than a block of the usual size is read and
    // not kept.
    assert_eq!(cache.slice(&large_hash, 1 << 20, 1).unwrap(), [9u8]);
    assert_eq!(cache.len(), 4);
    assert_eq!(
        cache.slice(&hashes[0], 5, 100),
        Err(Error::BlockCorrupt { hash: hashes[0].clone() })
    );
    assert_eq!(
        cache.slice("nothing", 0, 0),
        Err(Error::BlockMissing { hash: "nothing".to_string() })
    );
}

/// After a backup every block that the archive refers to is stored.
#[test]
fn referenced_blocks_are_stored() {
    let mut archive = Archive::create("a");
    let options = BackupOptions { max_block_size: 3, ..BackupOptions::default() };
    backup(&mut archive, &minimal_source(), &options, 1, 2).unwrap();
    backup(&mut archive, &vec![dir("/"), file("/new", b"more content")], &options, 3, 4).unwrap();
    let stored = archive.block_dir().list();
    let referenced = archive.referenced_blocks().unwrap();
    assert!(!referenced.is_empty());
    for hash in &referenced {
        assert!(stored.contains(hash), "{hash} is referenced and not stored");
    }
}
