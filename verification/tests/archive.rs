use conserve::archive::{header_line, Archive, ArchiveHeader, Storage};
use conserve::backup::{backup, BackupOptions, Content, SourceEntry};
use conserve::band::{Band, BandDir, BandHead, BandTail, Stored};
use conserve::bandid::BandId;
use conserve::blockdir::BlockDir;
use conserve::errors::Error;
use conserve::index::{Hunk, Kind};
use conserve::stats::ValidateArchiveStats;
use conserve::Apath;

fn dir(path: &str) -> SourceEntry {
    SourceEntry {
        apath: Apath::new(path).unwrap(),
        kind: Kind::Dir,
        mtime: 1_700_000_000,
        mtime_nanos: 0,
        mode: 0o40755,
        owner: None,
        group: None,
        target: None,
        content: Content::Absent,
    }
}

fn file(path: &str, content: &[u8]) -> SourceEntry {
    SourceEntry {
        apath: Apath::new(path).unwrap(),
        kind: Kind::File,
        mtime: 1_700_000_000,
        mtime_nanos: 0,
        mode: 0o100644,
        owner: None,
        group: None,
        target: None,
        content: Content::Bytes(content.to_vec()),
    }
}

fn storage_with_header(version: &str) -> Storage {
    Storage {
        header: Stored::Present(ArchiveHeader { conserve_archive_version: version.to_string() }),
        files: vec!["CONSERVE".to_string()],
        block_dir: BlockDir::new(),
        dirs: vec![],
    }
}

fn band_dir(name: &str, closed: bool) -> BandDir {
    BandDir {
        name: name.to_string(),
        head: Stored::Present(BandHead {
            start_time: 1_700_000_000,
            band_format_version: "0.6.3".to_string(),
        }),
        tail: if closed {
            Stored::Present(BandTail { end_time: 1_700_000_060 })
        } else {
            Stored::Absent
        },
        hunks: vec![],
    }
}

#[test]
fn create_then_open_archive() {
    let arch = Archive::create("arch");

    assert_eq!(arch.path(), "arch");
    assert!(arch.list_bands().is_empty());

    // We can re-open it.
    let storage = arch.into_storage();
    let arch = Archive::open("arch", storage).unwrap();
    assert!(arch.list_bands().is_empty());
    assert!(arch.last_complete_band().unwrap().is_none());
}

/// A new archive contains just one header file.
/// The header names only a version number.
#[test]
fn empty_archive() {
    let af = Archive::create("scratch");
    let (file_names, dir_names) = af.list_dir();
    assert_eq!(file_names, &["CONSERVE"]);
    assert_eq!(dir_names, &["d"]);

    assert_eq!(
        af.storage().header,
        Stored::Present(ArchiveHeader { conserve_archive_version: "0.6".to_string() })
    );
    let contents = match &af.storage().header {
        Stored::Present(header) => header_line(header).unwrap(),
        _ => unreachable!(),
    };
    assert_eq!(contents, "{\"conserve_archive_version\":\"0.6\"}\n");

    assert!(af.last_band_id().is_none(), "Archive should have no bands yet");
    assert!(
        af.last_complete_band().unwrap().is_none(),
        "Archive should have no bands yet"
    );
    assert!(af.referenced_blocks().unwrap().is_empty());
    assert_eq!(af.block_dir().list().len(), 0);
}

#[test]
fn create_bands() {
    let mut af = Archive::create("scratch");

    // Make one band
    let _band1 = af.create_band(1_700_000_000).unwrap();
    let (_file_names, dir_names) = af.list_dir();
    assert_eq!(dir_names, &["b0000", "d"]);

    assert_eq!(af.list_bands(), vec![BandId::new(&[0])]);
    assert_eq!(af.last_band_id(), Some(BandId::new(&[0])));

    // Try creating a second band.
    let _band2 = af.create_band(1_700_000_100).unwrap();
    assert_eq!(af.list_bands(), vec![BandId::new(&[0]), BandId::new(&[1])]);
    assert_eq!(af.last_band_id(), Some(BandId::new(&[1])));

    assert!(af.referenced_blocks().unwrap().is_empty());
    assert_eq!(af.block_dir().list().len(), 0);
}

#[test]
fn open_checks_the_header() {
    let mut storage = storage_with_header("0.6");
    storage.header = Stored::Absent;
    assert_eq!(
        Archive::open("here", storage).err(),
        Some(Error::NotAnArchive { path: "here".to_string() })
    );

    let mut storage = storage_with_header("0.6");
    storage.header = Stored::Damaged;
    assert!(matches!(
        Archive::open("here", storage),
        Err(Error::DeserializeJson { .. })
    ));

    for version in ["0.5", "0.6.3", "0.7", "", "0.60"] {
        assert_eq!(
            Archive::open("here", storage_with_header(version)).err(),
            Some(Error::UnsupportedArchiveVersion { version: version.to_string() })
        );
    }

    let archive = Archive::open("here", storage_with_header("0.6")).unwrap();
    assert_eq!(archive.path(), "here");
}

#[test]
fn list_bands_sorts_by_number_and_passes_over_other_names() {
    let mut storage = storage_with_header("0.6");
    for name in ["b0010", "b0002", "lost+found", "b10000", "b0009", "bogus", "b0002-0001"] {
        storage.dirs.push(band_dir(name, true));
    }
    let archive = Archive::open("a", storage).unwrap();
    assert_eq!(
        archive.list_bands(),
        vec![
            BandId::new(&[2]),
            BandId::new(&[2, 1]),
            BandId::new(&[9]),
            BandId::new(&[10]),
            BandId::new(&[10000]),
        ]
    );
    assert_eq!(archive.last_band_id(), Some(BandId::new(&[10000])));
}

#[test]
fn last_complete_band_skips_open_bands() {
    let mut storage = storage_with_header("0.6");
    storage.dirs.push(band_dir("b0000", true));
    storage.dirs.push(band_dir("b0001", true));
    storage.dirs.push(band_dir("b0002", false));
    let archive = Archive::open("a", storage).unwrap();
    let band = archive.last_complete_band().unwrap().unwrap();
    assert_eq!(band.id(), BandId::new(&[1]));
    assert!(band.is_closed());

    let mut storage = storage_with_header("0.6");
    storage.dirs.push(band_dir("b0000", false));
    let archive = Archive::open("a", storage).unwrap();
    assert!(archive.last_complete_band().unwrap().is_none());
}

#[test]
fn last_complete_band_fails_on_a_band_that_does_not_open() {
    let mut storage = storage_with_header("0.6");
    storage.dirs.push(band_dir("b0000", true));
    let mut damaged = band_dir("b0001", false);
    damaged.head = Stored::Damaged;
    storage.dirs.push(damaged);
    let archive = Archive::open("a", storage).unwrap();
    assert!(matches!(
        archive.last_complete_band(),
        Err(Error::DeserializeJson { .. })
    ));
}

#[test]
fn band_open_reports_what_is_wrong() {
    let mut dirs = vec![band_dir("b0000", true)];
    let mut no_head = band_dir("b0001", false);
    no_head.head = Stored::Absent;
    dirs.push(no_head);
    let mut bad_head = band_dir("b0002", false);
    bad_head.head = Stored::Damaged;
    dirs.push(bad_head);
    let mut future = band_dir("b0003", false);
    future.head = Stored::Present(BandHead {
        start_time: 0,
        band_format_version: "0.7.0".to_string(),
    });
    dirs.push(future);
    let mut old = band_dir("b0004", false);
    old.head = Stored::Present(BandHead { start_time: 0, band_format_version: "0.6".to_string() });
    dirs.push(old);

    assert!(Band::open(&dirs, &BandId::new(&[0])).is_ok());
    assert!(matches!(
        Band::open(&dirs, &BandId::new(&[1])),
        Err(Error::TransportError { .. })
    ));
    assert!(matches!(
        Band::open(&dirs, &BandId::new(&[2])),
        Err(Error::DeserializeJson { .. })
    ));
    assert_eq!(
        Band::open(&dirs, &BandId::new(&[3])).err(),
        Some(Error::UnsupportedArchiveVersion { version: "0.7.0".to_string() })
    );
    assert!(Band::open(&dirs, &BandId::new(&[4])).is_ok());
    assert_eq!(
        Band::open(&dirs, &BandId::new(&[5])).err(),
        Some(Error::BandNotFound { id: BandId::new(&[5]) })
    );
}

#[test]
fn band_info() {
    let dirs = vec![band_dir("b0000", true), band_dir("b0001", false)];
    let info = Band::open(&dirs, &BandId::zero()).unwrap().get_info().unwrap();
    assert_eq!(info.id, BandId::zero());
    assert!(info.is_closed);
    assert_eq!(info.start_time, 1_700_000_000);
    assert_eq!(info.end_time, Some(1_700_000_060));

    let info = Band::open(&dirs, &BandId::new(&[1])).unwrap().get_info().unwrap();
    assert!(!info.is_closed);
    assert_eq!(info.end_time, None);

    let mut damaged = band_dir("b0002", true);
    damaged.tail = Stored::Damaged;
    let dirs = vec![damaged];
    let band = Band::open(&dirs, &BandId::new(&[2])).unwrap();
    assert!(band.is_closed());
    assert!(matches!(band.get_info(), Err(Error::DeserializeJson { .. })));
}

#[test]
fn closing_a_band_twice_is_an_error() {
    let mut archive = Archive::create("a");
    let id = archive.create_band(10).unwrap();
    assert_eq!(archive.close_band(&id, 20), Ok(()));
    assert_eq!(
        archive.storage().dirs[0].tail,
        Stored::Present(BandTail { end_time: 20 })
    );
    assert!(matches!(
        archive.close_band(&id, 30),
        Err(Error::AlreadyExists { .. })
    ));
    assert_eq!(
        archive.storage().dirs[0].tail,
        Stored::Present(BandTail { end_time: 20 })
    );
    assert_eq!(
        archive.close_band(&BandId::new(&[7]), 30),
        Err(Error::BandNotFound { id: BandId::new(&[7]) })
    );
}

#[test]
fn new_band_has_a_head_and_no_tail() {
    let mut archive = Archive::create("a");
    let id = archive.create_band(1234).unwrap();
    assert_eq!(id, BandId::zero());
    let dir = &archive.storage().dirs[0];
    assert_eq!(dir.name, "b0000");
    assert_eq!(
        dir.head,
        Stored::Present(BandHead { start_time: 1234, band_format_version: "0.6.3".to_string() })
    );
    assert_eq!(dir.tail, Stored::Absent);
    assert!(dir.hunks.is_empty());
}

#[test]
fn no_band_after_the_last_number() {
    let mut storage = storage_with_header("0.6");
    storage.dirs.push(band_dir("b4294967295", true));
    let mut archive = Archive::open("a", storage).unwrap();
    assert_eq!(archive.create_band(0), Err(Error::TooManyBands));
    assert_eq!(archive.storage().dirs.len(), 1);
}

#[test]
fn validate_a_sound_archive() {
    let mut archive = Archive::create("a");
    let source = vec![dir("/"), file("/hello", b"hello world\n")];
    backup(&mut archive, &source, &BackupOptions::default(), 1, 2).unwrap();
    let stats = archive.validate();
    assert!(!stats.has_problems());
    assert_eq!(stats.structure_problems, 0);
    assert_eq!(stats.io_errors, 0);
    assert_eq!(stats.block_dir.block_read_count, 1);
    assert_eq!(stats.block_dir.block_error_count, 0);
    assert_eq!(
        archive.validate_archive_dir(),
        ValidateArchiveStats::default()
    );
}

#[test]
fn validate_counts_what_does_not_belong() {
    let mut storage = storage_with_header("0.6");
    storage.files.push("README".to_string());
    storage.files.push("notes.txt".to_string());
    for name in ["b0000", "b0", "b00000", "junk", "b0001", "tmp"] {
        storage.dirs.push(band_dir(name, true));
    }
    let archive = Archive::open("a", storage).unwrap();
    let stats = archive.validate_archive_dir();
    // One problem for the stray files, two for the directories that name
    // band 0 again, two for the directories that name no band.
    assert_eq!(stats.structure_problems, 5);
    assert_eq!(stats.io_errors, 0);
    assert!(stats.has_problems());
}

#[test]
fn validate_counts_bands_and_hunks_that_cannot_be_read() {
    let mut archive = Archive::create("a");
    let source = vec![dir("/"), file("/a", b"aaa"), file("/b", b"bbb")];
    let options = BackupOptions { max_entries_per_hunk: 1, ..BackupOptions::default() };
    backup(&mut archive, &source, &options, 1, 2).unwrap();
    backup(&mut archive, &source, &options, 3, 4).unwrap();

    let mut storage = archive.into_storage();
    assert_eq!(storage.dirs[0].hunks.len(), 3);
    storage.dirs[0].hunks[1] = Hunk::Damaged;
    storage.dirs[0].hunks.push(Hunk::Missing);
    storage.dirs[0].hunks.push(Hunk::Entries(vec![]));
    storage.dirs[1].head = Stored::Absent;
    let archive = Archive::open("a", storage).unwrap();

    let stats = archive.validate();
    assert_eq!(stats.io_errors, 3);
    assert_eq!(stats.structure_problems, 0);
    assert_eq!(stats.block_dir.block_error_count, 0);
    assert!(stats.has_problems());
}

#[test]
fn validate_counts_entries_out_of_order_and_missing_blocks() {
    let mut archive = Archive::create("a");
    let source = vec![dir("/"), file("/a", b"aaa"), file("/b", b"bbb")];
    backup(&mut archive, &source, &BackupOptions::default(), 1, 2).unwrap();
    let mut storage = archive.into_storage();
    // Swap the last two entries, and forget the blocks.
    if let Hunk::Entries(entries) = &mut storage.dirs[0].hunks[0] {
        entries.swap(1, 2);
    }
    storage.block_dir = BlockDir::new();
    let archive = Archive::open("a", storage).unwrap();
    let stats = archive.validate();
    // `/a` after `/b` is out of order, and `/b` names a block that is gone.
    assert_eq!(stats.structure_problems, 2);
    assert_eq!(stats.io_errors, 0);
    assert_eq!(stats.block_dir.block_read_count, 0);
}

#[test]
fn referenced_blocks_fails_where_a_band_does_not_open() {
    let mut archive = Archive::create("a");
    let source = vec![dir("/"), file("/a", b"aaa")];
    backup(&mut archive, &source, &BackupOptions::default(), 1, 2).unwrap();
    assert_eq!(archive.referenced_blocks().unwrap().len(), 1);
    let mut storage = archive.into_storage();
    storage.dirs[0].head = Stored::Damaged;
    let archive = Archive::open("a", storage).unwrap();
    assert!(archive.referenced_blocks().is_err());
}

#[test]
fn header_line_is_one_line_of_json() {
    let header = ArchiveHeader { conserve_archive_version: "0.6".to_string() };
    assert_eq!(header_line(&header).unwrap(), "{\"conserve_archive_version\":\"0.6\"}\n");
    let odd = ArchiveHeader { conserve_archive_version: "a\"b\\c\n".to_string() };
    assert_eq!(
        header_line(&odd).unwrap(),
        "{\"conserve_archive_version\":\"a\\\"b\\\\c\\n\"}\n"
    );
}
