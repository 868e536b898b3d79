use conserve::archive::Archive;
use conserve::backup::{backup, BackupOptions, Content, SourceEntry};
use conserve::band::{Band, Stored};
use conserve::bandid::BandId;
use conserve::errors::Error;
use conserve::index::{Hunk, Kind};
use conserve::monitor::collect::CollectMonitor;
use conserve::show::{
    bytes_to_human_mb, duration_to_hms, show_index_json, show_versions, ShowVersionsOptions,
};
use conserve::Apath;

fn dir(path: &str) -> SourceEntry {
    SourceEntry {
        apath: Apath::new(path).unwrap(),
        kind: Kind::Dir,
        mtime: 0,
        mtime_nanos: 0,
        mode: 0o40755,
        owner: None,
        group: None,
        target: None,
        content: Content::Absent,
    }
}

fn file(path: &str, content: &[u8]) -> SourceEntry {
    SourceEntry {
        apath: Apath::new(path).unwrap(),
        kind: Kind::File,
        mtime: 0,
        mtime_nanos: 0,
        mode: 0o100644,
        owner: None,
        group: None,
        target: None,
        content: Content::Bytes(content.to_vec()),
    }
}

/// Two complete bands and one that was begun and never finished.
fn three_versions() -> Archive {
    let mut archive = Archive::create("a");
    let small = vec![dir("/"), file("/a", &[1u8; 1000])];
    // 2019-01-01 00:00:00 UTC, and an hour, two minutes and three seconds.
    backup(&mut archive, &small, &BackupOptions::default(), 1_546_300_800, 1_546_304_523).unwrap();
    let large = vec![dir("/"), file("/a", &vec![2u8; 1_234_567]), file("/b", &vec![3u8; 2_000_000])];
    backup(&mut archive, &large, &BackupOptions::default(), 1_546_400_000, 1_546_400_059).unwrap();
    archive.create_band(1_546_500_000).unwrap();
    archive
}

#[test]
fn durations() {
    assert_eq!(duration_to_hms(0), "    0:00");
    assert_eq!(duration_to_hms(59), "    0:59");
    assert_eq!(duration_to_hms(60), "    1:00");
    assert_eq!(duration_to_hms(3599), "   59:59");
    assert_eq!(duration_to_hms(3600), " 1:00:00");
    assert_eq!(duration_to_hms(3723), " 1:02:03");
    assert_eq!(duration_to_hms(86400 + 3723), "25:02:03");
    assert_eq!(duration_to_hms(360000), "100:00:00");
}

#[test]
fn sizes_in_megabytes() {
    assert_eq!(bytes_to_human_mb(0), "0 MB");
    assert_eq!(bytes_to_human_mb(999_999), "0 MB");
    assert_eq!(bytes_to_human_mb(1_000_000), "1 MB");
    assert_eq!(bytes_to_human_mb(999_000_000), "999 MB");
    assert_eq!(bytes_to_human_mb(1_000_000_000), "1,000 MB");
    assert_eq!(bytes_to_human_mb(12_345_678_000_000), "12,345,678 MB");
    assert_eq!(bytes_to_human_mb(u64::MAX), "18,446,744,073,709 MB");
}

#[test]
fn versions_by_name() {
    let archive = three_versions();
    let mut monitor = CollectMonitor::new();
    let options = ShowVersionsOptions::default();
    assert_eq!(show_versions(&archive, &options, &mut monitor), ["b0000", "b0001", "b0002"]);
    let options = ShowVersionsOptions { newest_first: true, ..options };
    assert_eq!(show_versions(&archive, &options, &mut monitor), ["b0002", "b0001", "b0000"]);
    assert!(show_versions(&Archive::create("none"), &options, &mut monitor).is_empty());
}

#[test]
fn versions_with_details() {
    let archive = three_versions();
    let mut monitor = CollectMonitor::new();
    let options = ShowVersionsOptions {
        start_time: true,
        backup_duration: true,
        tree_size: true,
        ..ShowVersionsOptions::default()
    };
    assert_eq!(
        show_versions(&archive, &options, &mut monitor),
        [
            "b0000                2019-01-01T00:00:00Z         1:02:03           0 MB",
            "b0001                2019-01-02T03:33:20Z            0:59           3 MB",
            "b0002                2019-01-03T07:20:00Z      incomplete           3 MB",
        ]
    );
}

#[test]
fn versions_in_a_time_zone() {
    let archive = three_versions();
    let mut monitor = CollectMonitor::new();
    let options = ShowVersionsOptions {
        start_time: true,
        timezone: Some(-5 * 3600),
        newest_first: true,
        ..ShowVersionsOptions::default()
    };
    assert_eq!(
        show_versions(&archive, &options, &mut monitor),
        [
            "b0002                2019-01-03T02:20:00-05:00",
            "b0001                2019-01-01T22:33:20-05:00",
            "b0000                2018-12-31T19:00:00-05:00",
        ]
    );
    // An offset that no time zone has.
    let options = ShowVersionsOptions { timezone: Some(100 * 3600), ..options };
    assert_eq!(
        show_versions(&archive, &options, &mut monitor)[0],
        "b0002                unknown                  "
    );
}

#[test]
fn versions_with_one_column() {
    let archive = three_versions();
    let mut monitor = CollectMonitor::new();
    let options = ShowVersionsOptions { backup_duration: true, ..ShowVersionsOptions::default() };
    assert_eq!(
        show_versions(&archive, &options, &mut monitor),
        [
            "b0000                   1:02:03",
            "b0001                      0:59",
            "b0002                incomplete",
        ]
    );
    let options = ShowVersionsOptions { tree_size: true, ..ShowVersionsOptions::default() };
    assert_eq!(
        show_versions(&archive, &options, &mut monitor)[1],
        "b0001                          3 MB"
    );
}

#[test]
fn a_band_that_does_not_open_has_no_details() {
    let archive = three_versions();
    let mut storage = archive.into_storage();
    storage.dirs[0].head = Stored::Damaged;
    storage.dirs[1].tail = Stored::Damaged;
    let archive = Archive::open("a", storage).unwrap();
    let mut monitor = CollectMonitor::new();
    let options = ShowVersionsOptions { start_time: true, ..ShowVersionsOptions::default() };
    assert_eq!(
        show_versions(&archive, &options, &mut monitor),
        ["b0002                2019-01-03T07:20:00Z     "]
    );
    assert_eq!(
        show_versions(&archive, &ShowVersionsOptions::default(), &mut monitor),
        ["b0000", "b0001", "b0002"]
    );
}

#[test]
fn a_backup_that_ended_before_it_began() {
    let mut archive = Archive::create("a");
    backup(&mut archive, &vec![dir("/")], &BackupOptions::default(), 100, 99).unwrap();
    backup(&mut archive, &vec![dir("/")], &BackupOptions::default(), i64::MIN, i64::MAX).unwrap();
    let mut monitor = CollectMonitor::new();
    let options = ShowVersionsOptions { backup_duration: true, ..ShowVersionsOptions::default() };
    assert_eq!(
        show_versions(&archive, &options, &mut monitor),
        [
            "b0000                  negative",
            "b0001                5124095576030431:00:15",
        ]
    );
}

#[test]
fn index_hunk_by_hunk() {
    let mut archive = Archive::create("a");
    let options = BackupOptions { max_entries_per_hunk: 2, ..BackupOptions::default() };
    let source = vec![dir("/"), file("/a", b"a"), file("/b", b"b")];
    backup(&mut archive, &source, &options, 1, 2).unwrap();
    let dirs = &archive.storage().dirs;
    let band = Band::open(dirs, &BandId::zero()).unwrap();
    let hunks = show_index_json(&band).unwrap();
    let names: Vec<Vec<String>> = hunks
        .iter()
        .map(|h| h.iter().map(|e| e.apath.to_string()).collect())
        .collect();
    assert_eq!(names, [vec!["/", "/a"], vec!["/b"]]);

    let mut storage = archive.into_storage();
    storage.dirs[0].hunks[1] = Hunk::Missing;
    let band = Band::open(&storage.dirs, &BandId::zero()).unwrap();
    assert_eq!(
        show_index_json(&band).err(),
        Some(Error::IndexCorrupt { band: BandId::zero(), hunk: 1 })
    );
}
