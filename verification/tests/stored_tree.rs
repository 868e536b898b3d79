use conserve::archive::Archive;
use conserve::backup::{backup, BackupOptions, Content, SourceEntry};
use conserve::band::Stored;
use conserve::bandid::BandId;
use conserve::errors::Error;
use conserve::index::{Hunk, Kind};
use conserve::monitor::collect::CollectMonitor;
use conserve::monitor::counters::Counter;
use conserve::stored_tree::{BandSelectionPolicy, Exclude, Stitch, StoredTree, TreeSize};
use conserve::Apath;

fn apath(s: &str) -> Apath {
    Apath::new(s).unwrap()
}

fn dir(path: &str) -> SourceEntry {
    SourceEntry {
        apath: apath(path),
        kind: Kind::Dir,
        mtime: 1_700_000_000,
        mtime_nanos: 0,
        mode: 0o40755,
        owner: None,
        group: None,
        target: None,
        content: Content::Absent,
    }
}

fn file(path: &str, content: &[u8]) -> SourceEntry {
    SourceEntry {
        apath: apath(path),
        kind: Kind::File,
        mtime: 1_700_000_000,
        mtime_nanos: 0,
        mode: 0o100644,
        owner: Some("mbp".to_string()),
        group: Some("users".to_string()),
        target: None,
        content: Content::Bytes(content.to_vec()),
    }
}

fn symlink(path: &str, target: &str) -> SourceEntry {
    SourceEntry {
        apath: apath(path),
        kind: Kind::Symlink,
        mtime: 1_700_000_000,
        mtime_nanos: 0,
        mode: 0o120777,
        owner: None,
        group: None,
        target: Some(target.to_string()),
        content: Content::Absent,
    }
}

/// An archive with two versions: the second adds a file and a symlink.
fn store_two_versions() -> Archive {
    let mut af = Archive::create("two_versions");
    let first = vec![
        dir("/"),
        file("/hello", b"contents"),
        dir("/subdir"),
        file("/subdir/subfile", b"contents"),
    ];
    backup(&mut af, &first, &BackupOptions::default(), 100, 110).unwrap();
    let second = vec![
        dir("/"),
        file("/hello", b"contents"),
        file("/hello2", b"contents"),
        symlink("/link", "target"),
        dir("/subdir"),
        file("/subdir/subfile", b"contents"),
    ];
    backup(&mut af, &second, &BackupOptions::default(), 200, 210).unwrap();
    af
}

/// The archive of one small tree.
fn minimal_archive() -> Archive {
    let mut af = Archive::create("minimal");
    let source = vec![
        dir("/"),
        file("/hello", b"hello world\n"),
        dir("/subdir"),
        file("/subdir/subfile", b"I like Rust\n"),
    ];
    backup(&mut af, &source, &BackupOptions::default(), 100, 110).unwrap();
    af
}

fn names(stitch: Stitch) -> Vec<String> {
    stitch
        .collect_all()
        .into_iter()
        .map(|e| e.apath.to_string())
        .collect()
}

#[test]
fn open_stored_tree() {
    let af = store_two_versions();

    let last_band_id = af.last_band_id().unwrap();
    let st = af.open_stored_tree(BandSelectionPolicy::Latest).unwrap();

    assert_eq!(st.band().id(), last_band_id);

    let mut monitor = CollectMonitor::new();
    let names: Vec<String> = names(st.iter_entries(apath("/"), Exclude::nothing(), &mut monitor));
    let expected = vec![
        "/",
        "/hello",
        "/hello2",
        "/link",
        "/subdir",
        "/subdir/subfile",
    ];
    assert_eq!(names, expected);
}

#[test]
fn cant_open_no_versions() {
    let af = Archive::create("empty");
    assert_eq!(
        af.open_stored_tree(BandSelectionPolicy::Latest)
            .err()
            .unwrap()
            .message(),
        "Archive is empty"
    );
}

#[test]
fn iter_entries() {
    let archive = minimal_archive();
    let st = archive
        .open_stored_tree(BandSelectionPolicy::Latest)
        .unwrap();

    let mut monitor = CollectMonitor::new();
    let names: Vec<String> = names(st.iter_entries(
        apath("/subdir"),
        Exclude::nothing(),
        &mut monitor,
    ));

    assert_eq!(names.as_slice(), ["/subdir", "/subdir/subfile"]);
}

#[test]
fn iter_entries_hands_them_out_one_by_one() {
    let archive = minimal_archive();
    let st = archive.open_stored_tree(BandSelectionPolicy::Latest).unwrap();
    let mut monitor = CollectMonitor::new();
    let mut stitch = st.iter_entries(apath("/"), Exclude::nothing(), &mut monitor);
    assert_eq!(stitch.next().unwrap().apath.to_string(), "/");
    assert_eq!(stitch.next().unwrap().apath.to_string(), "/hello");
    assert_eq!(names(stitch), ["/subdir", "/subdir/subfile"]);
}

#[test]
fn iter_entries_leaves_out_what_is_excluded() {
    let archive = minimal_archive();
    let st = archive.open_stored_tree(BandSelectionPolicy::Latest).unwrap();
    let mut monitor = CollectMonitor::new();
    let exclude = Exclude::below(vec![apath("/subdir")]);
    assert!(exclude.matches(&apath("/subdir/subfile")));
    assert!(!exclude.matches(&apath("/subdir2")));
    assert_eq!(
        names(st.iter_entries(apath("/"), exclude, &mut monitor)),
        ["/", "/hello"]
    );
    assert!(!Exclude::nothing().matches(&apath("/")));
}

#[test]
fn select_a_band() {
    let af = store_two_versions();
    let first = af
        .open_stored_tree(BandSelectionPolicy::Specified(BandId::zero()))
        .unwrap();
    assert_eq!(first.band().id(), BandId::zero());
    assert!(first.is_closed());
    let closed = af.open_stored_tree(BandSelectionPolicy::LatestClosed).unwrap();
    assert_eq!(closed.band().id(), BandId::new(&[1]));
    assert_eq!(
        af.open_stored_tree(BandSelectionPolicy::Specified(BandId::new(&[9]))).err(),
        Some(Error::BandNotFound { id: BandId::new(&[9]) })
    );
    assert_eq!(
        StoredTree::open(&af, &BandId::new(&[9])).err(),
        Some(Error::BandNotFound { id: BandId::new(&[9]) })
    );

    let mut open_only = Archive::create("open");
    open_only.create_band(1).unwrap();
    assert_eq!(
        open_only.open_stored_tree(BandSelectionPolicy::LatestClosed).err(),
        Some(Error::BandIncomplete { id: BandId::zero() })
    );
    assert_eq!(
        Archive::create("none").open_stored_tree(BandSelectionPolicy::LatestClosed).err(),
        Some(Error::ArchiveEmpty)
    );
}

#[test]
fn size_adds_up_the_files() {
    let archive = minimal_archive();
    let st = archive.open_stored_tree(BandSelectionPolicy::Latest).unwrap();
    let mut monitor = CollectMonitor::new();
    monitor.count(Counter::Files, 10);
    let size = st.size(Exclude::nothing(), &mut monitor);
    assert_eq!(size, TreeSize { file_bytes: 24 });
    assert_eq!(monitor.get_counter(Counter::Files), 12);
    assert_eq!(monitor.get_counter(Counter::FileBytes), 24);
    assert_eq!(monitor.get_counter(Counter::BandsDone), 0);

    let size = st.size(Exclude::below(vec![apath("/subdir")]), &mut monitor);
    assert_eq!(size.file_bytes, 12);
    assert_eq!(monitor.get_counter(Counter::Files), 13);
}

/// An unfinished band shows what it holds, laid over the complete band
/// before it.
#[test]
fn an_open_band_is_stitched_over_the_band_before_it() {
    let mut af = minimal_archive();
    // A second backup that got as far as `/hello` and was never finished.
    let id = af.create_band(200).unwrap();
    let partial = vec![dir("/"), file("/hello", b"changed\n")];
    let mut storage = {
        let mut scratch = Archive::create("scratch");
        backup(&mut scratch, &partial, &BackupOptions::default(), 200, 210).unwrap();
        scratch.into_storage()
    };
    let hunk = storage.dirs[0].hunks.remove(0);
    if let Hunk::Entries(entries) = hunk {
        af.append_hunk(&id, entries).unwrap();
    }

    let st = af.open_stored_tree(BandSelectionPolicy::Latest).unwrap();
    assert_eq!(st.band().id(), BandId::new(&[1]));
    assert!(!st.is_closed());
    let mut monitor = CollectMonitor::new();
    let entries = st
        .iter_entries(apath("/"), Exclude::nothing(), &mut monitor)
        .collect_all();
    let shown: Vec<(String, Option<u64>)> =
        entries.iter().map(|e| (e.apath.to_string(), e.size)).collect();
    assert_eq!(
        shown,
        [
            ("/".to_string(), None),
            ("/hello".to_string(), Some(8)),
            ("/subdir".to_string(), None),
            ("/subdir/subfile".to_string(), Some(12)),
        ]
    );
    assert!(monitor.take_problems().is_empty());
}

/// A complete band shows its own tree only: what an earlier band held and
/// it does not is not shown.
#[test]
fn a_complete_band_stands_alone() {
    let mut af = minimal_archive();
    let second = vec![dir("/"), file("/other", b"x")];
    backup(&mut af, &second, &BackupOptions::default(), 200, 210).unwrap();
    let st = af.open_stored_tree(BandSelectionPolicy::Latest).unwrap();
    let mut monitor = CollectMonitor::new();
    assert_eq!(
        names(st.iter_entries(apath("/"), Exclude::nothing(), &mut monitor)),
        ["/", "/other"]
    );
}

/// A band that has lost a hunk is laid over the band before it, and the
/// loss is reported.
#[test]
fn a_lost_hunk_is_made_up_from_the_band_before() {
    let mut af = Archive::create("a");
    let options = BackupOptions { max_entries_per_hunk: 2, ..BackupOptions::default() };
    let first = vec![dir("/"), file("/a", b"1"), file("/b", b"1"), file("/c", b"1")];
    backup(&mut af, &first, &options, 100, 110).unwrap();
    let second = vec![dir("/"), file("/a", b"22"), file("/b", b"22"), file("/c", b"22")];
    backup(&mut af, &second, &options, 200, 210).unwrap();

    let mut storage = af.into_storage();
    storage.dirs[1].hunks[1] = Hunk::Damaged;
    let af = Archive::open("a", storage).unwrap();

    let st = af.open_stored_tree(BandSelectionPolicy::Latest).unwrap();
    let mut monitor = CollectMonitor::new();
    let entries = st
        .iter_entries(apath("/"), Exclude::nothing(), &mut monitor)
        .collect_all();
    let shown: Vec<(String, Option<u64>)> =
        entries.iter().map(|e| (e.apath.to_string(), e.size)).collect();
    assert_eq!(
        shown,
        [
            ("/".to_string(), None),
            ("/a".to_string(), Some(2)),
            ("/b".to_string(), Some(1)),
            ("/c".to_string(), Some(1)),
        ]
    );
    let problems = monitor.take_problems();
    assert_eq!(problems.len(), 1);
    assert_eq!(
        problems[0].error,
        Error::IndexCorrupt { band: BandId::new(&[1]), hunk: 1 }
    );
    assert!(monitor.take_problems().is_empty());
}

/// The stitcher passes over an earlier band that does not open.
#[test]
fn a_band_that_does_not_open_is_passed_over() {
    let mut af = minimal_archive();
    backup(&mut af, &vec![dir("/"), file("/x", b"x")], &BackupOptions::default(), 200, 210)
        .unwrap();
    let id = af.create_band(300).unwrap();
    assert_eq!(id, BandId::new(&[2]));
    let mut storage = af.into_storage();
    storage.dirs[1].head = Stored::Damaged;
    let af = Archive::open("minimal", storage).unwrap();

    let st = af.open_stored_tree(BandSelectionPolicy::Latest).unwrap();
    let mut monitor = CollectMonitor::new();
    assert_eq!(
        names(st.iter_entries(apath("/"), Exclude::nothing(), &mut monitor)),
        ["/", "/hello", "/subdir", "/subdir/subfile"]
    );
}
