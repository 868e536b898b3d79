use conserve::bandid::BandId;
use conserve::errors::Error;
use conserve::index::{
    hunk_number, hunk_relpath, iter_hunks, read_entries, read_hunk, weigh_entry, Hunk, IndexEntry,
    IndexWriter, Kind,
};
use conserve::stitch::{merge_newer, stitch_chain};
use conserve::Apath;

fn entry(path: &str, mtime: i64) -> IndexEntry {
    IndexEntry {
        apath: Apath::new(path).unwrap(),
        kind: Kind::File,
        mtime,
        mtime_nanos: 0,
        mode: 0o100644,
        owner: None,
        group: None,
        addrs: vec![],
        target: None,
        size: Some(0),
    }
}

fn names(entries: &[IndexEntry]) -> Vec<String> {
    entries.iter().map(|e| e.apath.to_string()).collect()
}

#[test]
fn hunk_paths() {
    assert_eq!(hunk_relpath(0), "i/000000000/0000");
    assert_eq!(hunk_relpath(1), "i/000000000/0001");
    assert_eq!(hunk_relpath(9999), "i/000000000/9999");
    assert_eq!(hunk_relpath(10000), "i/000000001/0000");
    assert_eq!(hunk_relpath(123456789), "i/000012345/6789");
    assert_eq!(hunk_relpath(u32::MAX), "i/000429496/7295");
}

#[test]
fn writer_hands_out_full_hunks() {
    let mut writer = IndexWriter::new(2, 0);
    assert_eq!(writer.push(entry("/a", 1)), Ok(None));
    let hunk = writer.push(entry("/b", 1)).unwrap().unwrap();
    assert_eq!(names(&hunk), ["/a", "/b"]);
    assert_eq!(writer.push(entry("/c", 1)), Ok(None));
    let last = writer.finish().unwrap();
    assert_eq!(names(&last), ["/c"]);
}

#[test]
fn writer_with_nothing_pending_finishes_with_nothing() {
    let writer = IndexWriter::new(2, 0);
    assert_eq!(writer.finish(), None);

    let mut writer = IndexWriter::new(1, 0);
    assert!(writer.push(entry("/a", 1)).unwrap().is_some());
    assert_eq!(writer.finish(), None);

    // Zero stands for the usual limits.
    let mut writer = IndexWriter::new(0, 0);
    for i in 0..999 {
        assert_eq!(writer.push(entry(&format!("/f{i:04}"), 1)), Ok(None));
    }
    assert_eq!(writer.push(entry("/g", 1)).unwrap().unwrap().len(), 1000);
}

#[test]
fn writer_hands_out_a_hunk_that_weighs_enough() {
    // An entry without addresses weighs 128 bytes and its apath.
    assert_eq!(weigh_entry(&entry("/a", 1)), 130);
    let mut heavy = entry("/h", 1);
    heavy.owner = Some("root".to_string());
    heavy.group = Some("wheel".to_string());
    heavy.target = Some("\u{e9}".to_string());
    for _ in 0..3 {
        heavy.addrs.push(conserve::index::Address { hash: "x".repeat(64), start: 0, len: 1 });
    }
    assert_eq!(weigh_entry(&heavy), 128 + 2 + 4 + 5 + 2 + 3 * 128);

    let mut writer = IndexWriter::new(1000, 300);
    assert_eq!(writer.push(entry("/a", 1)), Ok(None));
    assert_eq!(writer.push(entry("/b", 1)), Ok(None));
    // 390 bytes are more than 300.
    assert_eq!(writer.push(entry("/c", 1)).unwrap().unwrap().len(), 3);
    assert_eq!(writer.push(entry("/d", 1)), Ok(None));
    assert_eq!(writer.finish().unwrap().len(), 1);

    // One entry that weighs enough is a hunk by itself.
    let mut writer = IndexWriter::new(1000, 100);
    assert_eq!(writer.push(entry("/a", 1)).unwrap().unwrap().len(), 1);
    assert_eq!(writer.push(entry("/b", 1)).unwrap().unwrap().len(), 1);
    assert_eq!(writer.finish(), None);
}

#[test]
fn writer_refuses_entries_out_of_order() {
    let mut writer = IndexWriter::new(1000, 0);
    assert!(writer.accepts(&Apath::new("/anything").unwrap()));
    assert_eq!(writer.push(entry("/b", 1)), Ok(None));
    assert!(!writer.accepts(&Apath::new("/a").unwrap()));
    assert_eq!(
        writer.push(entry("/a", 1)),
        Err(Error::InvalidApath { s: "/a".to_string() })
    );
    assert_eq!(
        writer.push(entry("/b", 2)),
        Err(Error::InvalidApath { s: "/b".to_string() })
    );
    assert_eq!(writer.push(entry("/b/c", 1)), Ok(None));
    assert_eq!(names(&writer.finish().unwrap()), ["/b", "/b/c"]);
}

#[test]
fn writer_remembers_the_last_entry_across_hunks() {
    let mut writer = IndexWriter::new(1, 0);
    assert!(writer.push(entry("/b", 1)).unwrap().is_some());
    assert!(writer.push(entry("/a", 1)).is_err());
    assert!(writer.push(entry("/c", 1)).unwrap().is_some());
}

#[test]
fn what_is_written_reads_back() {
    let paths = ["/", "/a", "/a/b", "/a.b", "/b", "/c", "/d"];
    for max in [1, 2, 3, 7, 8, 1000] {
        let mut writer = IndexWriter::new(max, 0);
        let mut hunks = Vec::new();
        for p in paths {
            if let Some(hunk) = writer.push(entry(p, 5)).unwrap() {
                assert_eq!(hunk.len(), max);
                hunks.push(Hunk::Entries(hunk));
            }
        }
        if let Some(hunk) = writer.finish() {
            hunks.push(Hunk::Entries(hunk));
        }
        assert_eq!(hunks.len(), (paths.len() + max - 1) / max);
        let (entries, unreadable, skipped) = read_entries(&hunks);
        assert_eq!(names(&entries), paths);
        assert_eq!(unreadable, 0);
        assert_eq!(skipped, 0);
    }
}

#[test]
fn reader_passes_over_what_cannot_be_read() {
    let hunks = vec![
        Hunk::Entries(vec![entry("/a", 1), entry("/b", 1)]),
        Hunk::Damaged,
        Hunk::Missing,
        Hunk::Entries(vec![entry("/e", 1)]),
    ];
    let (entries, unreadable, skipped) = read_entries(&hunks);
    assert_eq!(names(&entries), ["/a", "/b", "/e"]);
    assert_eq!(unreadable, 2);
    assert_eq!(skipped, 0);

    let band = BandId::new(&[3]);
    assert_eq!(read_hunk(&hunks, &band, 0).unwrap().len(), 2);
    for n in [1, 2, 4, 1000] {
        assert_eq!(
            read_hunk(&hunks, &band, n).err(),
            Some(Error::IndexCorrupt { band: band.clone(), hunk: n })
        );
    }
}

#[test]
fn reader_leaves_out_entries_that_do_not_ascend() {
    let hunks = vec![
        Hunk::Entries(vec![entry("/b", 1), entry("/a", 1), entry("/c", 1)]),
        Hunk::Entries(vec![entry("/c", 2), entry("/b/x", 1), entry("/d", 1)]),
    ];
    let (entries, unreadable, skipped) = read_entries(&hunks);
    assert_eq!(names(&entries), ["/b", "/c", "/d"]);
    assert_eq!(entries[1].mtime, 1);
    assert_eq!(unreadable, 0);
    assert_eq!(skipped, 3);
}

#[test]
fn newer_entries_win() {
    let newer = vec![entry("/a", 2), entry("/c", 2)];
    let older = vec![entry("/a", 1), entry("/b", 1), entry("/d", 1)];
    let merged = merge_newer(&newer, &older);
    assert_eq!(names(&merged), ["/a", "/b", "/c", "/d"]);
    assert_eq!(
        merged.iter().map(|e| e.mtime).collect::<Vec<_>>(),
        [2, 1, 2, 1]
    );
    assert_eq!(merge_newer(&newer, &vec![]), newer);
    assert_eq!(merge_newer(&vec![], &older), older);
}

#[test]
fn the_newest_band_of_a_chain_wins() {
    let chain = vec![
        vec![entry("/b", 3)],
        vec![entry("/a", 2), entry("/b", 2)],
        vec![entry("/a", 1), entry("/b", 1), entry("/c", 1)],
    ];
    let stitched = stitch_chain(&chain);
    assert_eq!(names(&stitched), ["/a", "/b", "/c"]);
    assert_eq!(
        stitched.iter().map(|e| e.mtime).collect::<Vec<_>>(),
        [2, 3, 1]
    );
    assert!(stitch_chain(&vec![]).is_empty());
}

#[test]
fn hunk_numbers_from_names() {
    assert_eq!(hunk_number("000000000", "0000"), Some(0));
    assert_eq!(hunk_number("000000001", "0002"), Some(10002));
    assert_eq!(hunk_number("000012345", "6789"), Some(123456789));
    assert_eq!(hunk_number("000429496", "7295"), Some(u32::MAX));
    assert_eq!(hunk_number("000429496", "7296"), None);
    assert_eq!(hunk_number("1", "2"), Some(10002));
    assert_eq!(hunk_number("", "0"), None);
    assert_eq!(hunk_number("0", ""), None);
    assert_eq!(hunk_number("0", "10000"), None);
    assert_eq!(hunk_number("1000000000", "0"), None);
    assert_eq!(hunk_number("x", "0"), None);
    assert_eq!(hunk_number("0", "0.tmp"), None);
    for n in [0, 9999, 10000, 123456789, u32::MAX] {
        let path = hunk_relpath(n);
        let parts: Vec<&str> = path.split('/').collect();
        assert_eq!(parts[0], "i");
        assert_eq!(hunk_number(parts[1], parts[2]), Some(n));
    }
}

#[test]
fn hunks_that_are_there() {
    let hunks = vec![
        Hunk::Entries(vec![]),
        Hunk::Missing,
        Hunk::Damaged,
        Hunk::Missing,
        Hunk::Entries(vec![entry("/a", 1)]),
    ];
    assert_eq!(iter_hunks(&hunks), [0, 2, 4]);
    assert!(iter_hunks(&vec![]).is_empty());
}
