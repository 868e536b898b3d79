//! Archives holding backup material.
//!
//! An archive is a directory with a header, a block directory `d`, and one
//! directory for each band. It is held here as it was found in storage;
//! reading it from there and writing it back is the caller's part.

use crate::band::{
    band_entries, band_format_text, band_format_version, band_opens, closed, fails_to_open,
    first_named, missing_blocks, opens, Band, BandDir, BandHead, BandTail, Stored,
};
use crate::bandid::{
    band_order, band_text, band_text_ids, lemma_band_order_antisymmetric, lemma_band_order_equal,
    lemma_band_order_transitive, lemma_band_text_round_trip, BandId,
};
use crate::blockdir::{count_blocks, count_damaged, stored, BlockDir};
use crate::codec::{block_hash, snappy_compressed};
use crate::errors::Error;
use crate::index::{all_entries, unreadable_hunks, Hunk, IndexEntry};
use crate::references::{lemma_empty_band_resolved, lemma_resolved_kept, resolved};
use crate::stats::{clip_u64, ValidateArchiveStats, ValidateBlockDirStats};
use crate::text::same_text;
use vstd::prelude::*;

verus! {

/// The name of the file that holds the header of an archive.
pub open spec fn header_name() -> Seq<char> {
    seq!['C', 'O', 'N', 'S', 'E', 'R', 'V', 'E']
}

/// The version of the archive format that this engine reads and writes.
pub open spec fn archive_version_text() -> Seq<char> {
    seq!['0', '.', '6']
}

/// The name of the file that holds the header of an archive.
pub fn header_filename() -> (name: String)
    ensures
        name@ == header_name(),
{
    proof {
        reveal_strlit("CONSERVE");
    }
    let name = "CONSERVE".to_owned();
    assert(name@ =~= header_name());
    name
}

/// The version of the archive format that this engine reads and writes.
pub fn archive_version() -> (v: String)
    ensures
        v@ == archive_version_text(),
{
    proof {
        reveal_strlit("0.6");
    }
    let v = "0.6".to_owned();
    assert(v@ =~= archive_version_text());
    v
}

/// The header of an archive.
#[derive(Debug, PartialEq, Eq)]
pub struct ArchiveHeader {
    pub conserve_archive_version: String,
}

/// The JSON text of the object whose one member is named `key` and has
/// the string `value`, or `None` where there is no such text.
pub uninterp spec fn json_member_text(key: Seq<char>, value: Seq<char>) -> Option<Seq<char>>;

/// Calls `serde_json::to_string` on the `serde_json::Value` that is an
/// object with the one member `key`, made by `Map::insert` with the string
/// `value`.
///
/// Trusted: the text depends on the key and the value alone.
#[verifier::external_body]
pub(crate) fn json_member(key: &str, value: &str) -> (r: Option<String>)
    ensures
        match r {
            Some(text) => json_member_text(key@, value@) == Some(text@),
            None => json_member_text(key@, value@) is None,
        },
{
    let mut object = serde_json::Map::new();
    object.insert(key.to_owned(), serde_json::Value::String(value.to_owned()));
    serde_json::to_string(&serde_json::Value::Object(object)).ok()
}

/// The header as the line that is stored in the header file: the JSON
/// object whose one member, `conserve_archive_version`, is the version,
/// and the end of the line.
pub fn header_line(header: &ArchiveHeader) -> (r: Option<String>)
    ensures
        match json_member_text("conserve_archive_version"@, header.conserve_archive_version@) {
            Some(text) => r matches Some(line) && line@ == text.push('\n'),
            None => r is None,
        },
{
    match json_member("conserve_archive_version", header.conserve_archive_version.as_str()) {
        Some(text) => {
            let mut line = text;
            line.push('\n');
            Some(line)
        },
        None => None,
    }
}

/// What lies in the directory of an archive, as it is found in storage.
pub struct Storage {
    /// The header file.
    pub header: Stored<ArchiveHeader>,
    /// The names of the files at the top of the archive.
    pub files: Vec<String>,
    /// The block directory `d`.
    pub block_dir: BlockDir,
    /// Every other directory at the top of the archive.
    pub dirs: Vec<BandDir>,
}

/// An archive holding backup material.
pub struct Archive {
    path: String,
    storage: Storage,
}

impl View for Archive {
    type V = Storage;

    /// What lies in the archive.
    closed spec fn view(&self) -> Storage {
        self.storage
    }
}

/// The numbers of the band ids `v`, in order.
pub open spec fn id_views(v: Seq<BandId>) -> Seq<Seq<u32>> {
    Seq::new(v.len(), |i: int| v[i]@)
}

/// Whether the band ids `ids` ascend, equal ones side by side.
pub open spec fn ids_sorted(ids: Seq<Seq<u32>>) -> bool {
    forall|i: int, j: int|
        0 <= i < j < ids.len() ==> band_order(#[trigger] ids[i], #[trigger] ids[j]) <= 0
}

/// The ascending ids `s` with `x` put in its place, after those that equal
/// it.
pub open spec fn insert_sorted(s: Seq<Seq<u32>>, x: Seq<u32>) -> Seq<Seq<u32>>
    decreases s.len(),
{
    if s.len() == 0 {
        seq![x]
    } else if band_order(x, s.last()) >= 0 {
        s.push(x)
    } else {
        insert_sorted(s.drop_last(), x).push(s.last())
    }
}

/// The ids of the bands among the directories `dirs`, in ascending order:
/// one for each directory whose name is that of a band.
pub open spec fn sorted_ids(dirs: Seq<BandDir>) -> Seq<Seq<u32>>
    decreases dirs.len(),
{
    if dirs.len() == 0 {
        Seq::empty()
    } else {
        let rest = sorted_ids(dirs.drop_last());
        match band_text_ids(dirs.last().name@) {
            Some(id) => insert_sorted(rest, id),
            None => rest,
        }
    }
}

/// Where `x` is put among the ascending ids `s`.
proof fn lemma_insert_at(s: Seq<Seq<u32>>, x: Seq<u32>, pos: int)
    requires
        0 <= pos <= s.len(),
        forall|j: int| pos <= j < s.len() ==> band_order(x, #[trigger] s[j]) < 0,
        pos == 0 || band_order(x, s[pos - 1]) >= 0,
    ensures
        insert_sorted(s, x) == s.insert(pos, x),
    decreases s.len(),
{
    if s.len() == 0 {
        assert(s.insert(pos, x) =~= seq![x]);
    } else if pos == s.len() {
        assert(s.insert(pos, x) =~= s.push(x));
    } else {
        assert(band_order(x, s[s.len() - 1]) < 0);
        let front = s.drop_last();
        assert forall|j: int| pos <= j < front.len() implies band_order(x, #[trigger] front[j])
            < 0 by {
            assert(front[j] == s[j]);
        }
        lemma_insert_at(front, x, pos);
        assert(front.insert(pos, x).push(s.last()) =~= s.insert(pos, x));
    }
}

/// Putting an id in its place keeps the order, adds that id and nothing
/// else.
#[verifier::rlimit(40)]
pub proof fn lemma_insert_sorted(s: Seq<Seq<u32>>, x: Seq<u32>)
    requires
        ids_sorted(s),
    ensures
        ids_sorted(insert_sorted(s, x)),
        insert_sorted(s, x).len() == s.len() + 1,
        forall|y: Seq<u32>| #[trigger]
            insert_sorted(s, x).contains(y) <==> (y == x || s.contains(y)),
    decreases s.len(),
{
    let r = insert_sorted(s, x);
    if s.len() == 0 {
        assert(r[0] == x);
        assert forall|y: Seq<u32>| #[trigger] r.contains(y) <==> (y == x || s.contains(y)) by {
            if r.contains(y) {
                let i = r.index_of(y);
                assert(r[i] == y);
            }
        }
    } else if band_order(x, s.last()) >= 0 {
        assert forall|i: int, j: int| 0 <= i < j < r.len() implies band_order(
            #[trigger] r[i],
            #[trigger] r[j],
        ) <= 0 by {
            if j == s.len() {
                lemma_band_order_antisymmetric(x, s.last());
                if i < s.len() - 1 {
                    assert(band_order(s[i], s[s.len() - 1]) <= 0);
                    lemma_band_order_transitive(s[i], s.last(), x);
                }
            }
        }
        assert forall|y: Seq<u32>| #[trigger] r.contains(y) <==> (y == x || s.contains(y)) by {
            if r.contains(y) {
                let i = r.index_of(y);
                assert(r[i] == y);
                if i < s.len() {
                    assert(s[i] == y);
                }
            }
            if s.contains(y) {
                let i = s.index_of(y);
                assert(r[i] == y);
            }
            if y == x {
                assert(r[s.len() as int] == y);
            }
        }
    } else {
        let front = s.drop_last();
        assert(ids_sorted(front)) by {
            assert forall|i: int, j: int| 0 <= i < j < front.len() implies band_order(
                #[trigger] front[i],
                #[trigger] front[j],
            ) <= 0 by {
                assert(front[i] == s[i] && front[j] == s[j]);
            }
        }
        lemma_insert_sorted(front, x);
        let inner = insert_sorted(front, x);
        assert forall|i: int, j: int| 0 <= i < j < r.len() implies band_order(
            #[trigger] r[i],
            #[trigger] r[j],
        ) <= 0 by {
            if j == r.len() - 1 {
                assert(inner.contains(inner[i]));
                if inner[i] == x {
                } else {
                    assert(front.contains(inner[i]));
                    let m = front.index_of(inner[i]);
                    assert(front[m] == inner[i]);
                    assert(s[m] == inner[i]);
                    assert(band_order(s[m], s[s.len() - 1]) <= 0);
                }
            } else {
                assert(r[i] == inner[i] && r[j] == inner[j]);
            }
        }
        assert forall|y: Seq<u32>| #[trigger] r.contains(y) <==> (y == x || s.contains(y)) by {
            if r.contains(y) {
                let i = r.index_of(y);
                assert(r[i] == y);
                if i < inner.len() {
                    assert(inner.contains(y));
                    if front.contains(y) {
                        let m = front.index_of(y);
                        assert(s[m] == y);
                    }
                } else {
                    assert(s[s.len() - 1] == y);
                }
            }
            if s.contains(y) {
                let i = s.index_of(y);
                assert(s[i] == y);
                if i < front.len() {
                    assert(front[i] == y);
                    assert(inner.contains(y));
                    let m = inner.index_of(y);
                    assert(r[m] == y);
                } else {
                    assert(r[r.len() - 1] == y);
                }
            }
            if y == x {
                assert(inner.contains(y));
                let m = inner.index_of(y);
                assert(r[m] == y);
            }
        }
    }
}

/// The listed band ids ascend, and they are the ids that the names of the
/// directories spell.
pub proof fn lemma_sorted_ids(dirs: Seq<BandDir>)
    ensures
        ids_sorted(sorted_ids(dirs)),
        sorted_ids(dirs).len() <= dirs.len(),
        forall|id: Seq<u32>| #[trigger]
            sorted_ids(dirs).contains(id) <==> exists|k: int|
                0 <= k < dirs.len() && band_text_ids((#[trigger] dirs[k]).name@) == Some(id),
    decreases dirs.len(),
{
    if dirs.len() == 0 {
    } else {
        let front = dirs.drop_last();
        lemma_sorted_ids(front);
        let rest = sorted_ids(front);
        match band_text_ids(dirs.last().name@) {
            Some(x) => {
                lemma_insert_sorted(rest, x);
            },
            None => {},
        }
        assert forall|id: Seq<u32>| #[trigger]
            sorted_ids(dirs).contains(id) <==> exists|k: int|
                0 <= k < dirs.len() && band_text_ids((#[trigger] dirs[k]).name@) == Some(
                    id,
                ) by {
            if exists|k: int|
                0 <= k < dirs.len() && band_text_ids((#[trigger] dirs[k]).name@) == Some(id) {
                let k = choose|k: int|
                    0 <= k < dirs.len() && band_text_ids((#[trigger] dirs[k]).name@) == Some(id);
                if k < front.len() {
                    assert(band_text_ids(front[k].name@) == Some(id));
                    assert(rest.contains(id));
                }
            }
            if sorted_ids(dirs).contains(id) {
                if rest.contains(id) {
                    let k = choose|k: int|
                        0 <= k < front.len() && band_text_ids((#[trigger] front[k]).name@)
                            == Some(id);
                    assert(band_text_ids(dirs[k].name@) == Some(id));
                } else {
                    assert(band_text_ids(dirs[dirs.len() - 1].name@) == Some(id));
                }
            }
        }
    }
}

/// Whether one of the files `files` is not the header of the archive.
pub open spec fn unexpected_files(files: Seq<String>) -> bool {
    exists|i: int| 0 <= i < files.len() && (#[trigger] files[i])@ != header_name()
}

/// Whether one of the directories `dirs` is named as the band `id`.
pub open spec fn names_band(dirs: Seq<BandDir>, id: Seq<u32>) -> bool {
    exists|j: int| 0 <= j < dirs.len() && band_text_ids((#[trigger] dirs[j]).name@) == Some(id)
}

/// How many of the directories `dirs` do not belong at the top of an
/// archive: those whose name is not that of a band, and those that name a
/// band which a directory before them names already.
pub open spec fn dir_problems(dirs: Seq<BandDir>) -> nat
    decreases dirs.len(),
{
    if dirs.len() == 0 {
        0
    } else {
        dir_problems(dirs.drop_last()) + match band_text_ids(dirs.last().name@) {
            None => 1nat,
            Some(id) => if names_band(dirs.drop_last(), id) {
                1nat
            } else {
                0nat
            },
        }
    }
}

/// How much of the layout of an archive with the files `files` and the
/// directories `dirs` is wrong: one problem for all unexpected files
/// together, and one for each directory that does not belong.
pub open spec fn layout_problems(files: Seq<String>, dirs: Seq<BandDir>) -> nat {
    dir_problems(dirs) + if unexpected_files(files) {
        1nat
    } else {
        0nat
    }
}

/// How many bands and hunks of the bands `ids` cannot be read: one for
/// each band that does not open, and one for each hunk of the others that
/// is missing or damaged.
pub open spec fn read_failures(dirs: Seq<BandDir>, ids: Seq<Seq<u32>>) -> nat
    decreases ids.len(),
{
    if ids.len() == 0 {
        0
    } else {
        let k = first_named(dirs, band_text(ids.last()));
        read_failures(dirs, ids.drop_last()) + if k < dirs.len() && opens(dirs[k]) {
            unreadable_hunks(dirs[k].hunks@)
        } else {
            1nat
        }
    }
}

/// How much is wrong within the bands `ids` that open: the entries that do
/// not ascend, and the addresses of blocks that are not among `blocks`.
pub open spec fn index_problems(
    dirs: Seq<BandDir>,
    ids: Seq<Seq<u32>>,
    blocks: Map<Seq<char>, Seq<u8>>,
) -> nat
    decreases ids.len(),
{
    if ids.len() == 0 {
        0
    } else {
        let k = first_named(dirs, band_text(ids.last()));
        index_problems(dirs, ids.drop_last(), blocks) + if k < dirs.len() && opens(dirs[k]) {
            (all_entries(dirs[k].hunks@).len() - band_entries(dirs[k]).len()) as nat
                + missing_blocks(band_entries(dirs[k]), blocks)
        } else {
            0nat
        }
    }
}

/// How the search for the newest complete band ends.
pub enum Newest {
    /// The band of this id is the newest that is complete.
    Complete(Seq<u32>),
    /// Every band opens, and none is complete.
    NoneComplete,
    /// The band of this id was tried and did not open.
    Unopened(Seq<u32>),
}

/// The newest of the bands `ids` that is complete: the bands are tried
/// from the last to the first, each is opened, and the first that is
/// closed is the one. The search ends at a band that does not open.
pub open spec fn last_complete(dirs: Seq<BandDir>, ids: Seq<Seq<u32>>) -> Newest
    decreases ids.len(),
{
    if ids.len() == 0 {
        Newest::NoneComplete
    } else if !band_opens(dirs, ids.last()) {
        Newest::Unopened(ids.last())
    } else if closed(dirs[first_named(dirs, band_text(ids.last()))]) {
        Newest::Complete(ids.last())
    } else {
        last_complete(dirs, ids.drop_last())
    }
}

/// What the search for the newest complete band finds is one of the bands
/// that were searched; it opens and is closed, and every band after it
/// opens and is not closed. Where the search finds none, every band opens
/// and none is closed.
pub proof fn lemma_last_complete(dirs: Seq<BandDir>, ids: Seq<Seq<u32>>)
    ensures
        match last_complete(dirs, ids) {
            Newest::Complete(id) => exists|n: int|
                {
                    &&& 0 <= n < ids.len()
                    &&& #[trigger] ids[n] == id
                    &&& band_opens(dirs, id)
                    &&& closed(dirs[first_named(dirs, band_text(id))])
                    &&& forall|m: int|
                        n < m < ids.len() ==> band_opens(dirs, #[trigger] ids[m]) && !closed(
                            dirs[first_named(dirs, band_text(ids[m]))],
                        )
                },
            Newest::NoneComplete => forall|m: int|
                0 <= m < ids.len() ==> band_opens(dirs, #[trigger] ids[m]) && !closed(
                    dirs[first_named(dirs, band_text(ids[m]))],
                ),
            Newest::Unopened(id) => exists|n: int|
                {
                    &&& 0 <= n < ids.len()
                    &&& #[trigger] ids[n] == id
                    &&& !band_opens(dirs, id)
                    &&& forall|m: int|
                        n < m < ids.len() ==> band_opens(dirs, #[trigger] ids[m]) && !closed(
                            dirs[first_named(dirs, band_text(ids[m]))],
                        )
                },
        },
    decreases ids.len(),
{
    if ids.len() == 0 {
    } else if !band_opens(dirs, ids.last()) {
        assert(ids[ids.len() - 1] == ids.last());
    } else if closed(dirs[first_named(dirs, band_text(ids.last()))]) {
        assert(ids[ids.len() - 1] == ids.last());
    } else {
        let front = ids.drop_last();
        lemma_last_complete(dirs, front);
        match last_complete(dirs, front) {
            Newest::Complete(id) => {
                let n = choose|n: int|
                    {
                        &&& 0 <= n < front.len()
                        &&& #[trigger] front[n] == id
                        &&& band_opens(dirs, id)
                        &&& closed(dirs[first_named(dirs, band_text(id))])
                        &&& forall|m: int|
                            n < m < front.len() ==> band_opens(dirs, #[trigger] front[m])
                                && !closed(dirs[first_named(dirs, band_text(front[m]))])
                    };
                assert(ids[n] == id);
                assert forall|m: int| n < m < ids.len() implies band_opens(
                    dirs,
                    #[trigger] ids[m],
                ) && !closed(dirs[first_named(dirs, band_text(ids[m]))]) by {
                    if m < front.len() {
                        assert(front[m] == ids[m]);
                    }
                }
            },
            Newest::NoneComplete => {
                assert forall|m: int| 0 <= m < ids.len() implies band_opens(
                    dirs,
                    #[trigger] ids[m],
                ) && !closed(dirs[first_named(dirs, band_text(ids[m]))]) by {
                    if m < front.len() {
                        assert(front[m] == ids[m]);
                    }
                }
            },
            Newest::Unopened(id) => {
                let n = choose|n: int|
                    {
                        &&& 0 <= n < front.len()
                        &&& #[trigger] front[n] == id
                        &&& !band_opens(dirs, id)
                        &&& forall|m: int|
                            n < m < front.len() ==> band_opens(dirs, #[trigger] front[m])
                                && !closed(dirs[first_named(dirs, band_text(front[m]))])
                    };
                assert(ids[n] == id);
                assert forall|m: int| n < m < ids.len() implies band_opens(
                    dirs,
                    #[trigger] ids[m],
                ) && !closed(dirs[first_named(dirs, band_text(ids[m]))]) by {
                    if m < front.len() {
                        assert(front[m] == ids[m]);
                    }
                }
            },
        }
    }
}

/// The id for the next band after the bands `ids`, which ascend: the first
/// id of all where there is none yet, else the one after the last. `None`
/// where the last number of the last id cannot grow.
pub open spec fn next_band_id(ids: Seq<Seq<u32>>) -> Option<Seq<u32>> {
    if ids.len() == 0 {
        Some(seq![0u32])
    } else {
        let last = ids.last();
        if last.len() >= 1 && last.last() < u32::MAX {
            Some(last.update(last.len() - 1, (last.last() + 1) as u32))
        } else {
            None
        }
    }
}

/// An id comes before the one with a greater last number.
proof fn lemma_next_sibling_greater(a: Seq<u32>)
    requires
        a.len() >= 1,
        a.last() < u32::MAX,
    ensures
        band_order(a, a.update(a.len() - 1, (a.last() + 1) as u32)) < 0,
    decreases a.len(),
{
    let b = a.update(a.len() - 1, (a.last() + 1) as u32);
    if a.len() > 1 {
        assert(a.drop_first().last() == a.last());
        assert(b.drop_first() =~= a.drop_first().update(
            a.len() - 2,
            (a.drop_first().last() + 1) as u32,
        ));
        lemma_next_sibling_greater(a.drop_first());
    }
}

/// A new band comes after every band that is there: the order of the band
/// ids is the order in which the bands were begun.
pub proof fn lemma_next_band_is_last(ids: Seq<Seq<u32>>, next: Seq<u32>, i: int)
    requires
        ids_sorted(ids),
        next_band_id(ids) == Some(next),
        0 <= i < ids.len(),
    ensures
        band_order(ids[i], next) < 0,
{
    let last = ids.last();
    lemma_next_sibling_greater(last);
    if i < ids.len() - 1 {
        assert(band_order(ids[i], ids[ids.len() - 1]) <= 0);
        lemma_band_order_transitive(ids[i], last, next);
    }
}

/// The name of the next band is the name of no directory that is there.
proof fn lemma_next_band_is_new(dirs: Seq<BandDir>, next: Seq<u32>)
    requires
        next_band_id(sorted_ids(dirs)) == Some(next),
    ensures
        next.len() >= 1,
        first_named(dirs, band_text(next)) == dirs.len(),
{
    let ids = sorted_ids(dirs);
    lemma_sorted_ids(dirs);
    crate::band::lemma_first_named_bounds(dirs, band_text(next));
    let k = first_named(dirs, band_text(next));
    if k < dirs.len() {
        lemma_band_text_round_trip(next);
        assert(band_text_ids(dirs[k].name@) == Some(next));
        assert(ids.contains(next));
        let m = ids.index_of(next);
        assert(ids[m] == next);
        lemma_next_band_is_last(ids, next, m);
        lemma_band_order_equal(next, next);
    }
}

impl Archive {
    /// The directory of the archive.
    pub closed spec fn path_text(&self) -> Seq<char> {
        self.path@
    }

    /// A new and empty archive at `path`: a header of the current version,
    /// an empty block directory and no band.
    pub fn create(path: &str) -> (archive: Archive)
        ensures
            archive.path_text() == path@,
            archive@.header matches Stored::Present(h) && h.conserve_archive_version@
                == archive_version_text(),
            archive@.files@.len() == 1 && archive@.files@[0]@ == header_name(),
            archive@.block_dir@ == Map::<Seq<char>, Seq<u8>>::empty(),
            archive@.block_dir.names() == Seq::<Seq<char>>::empty(),
            archive@.dirs@.len() == 0,
            resolved(archive@),
    {
        let mut files: Vec<String> = Vec::new();
        files.push(header_filename());
        Archive {
            path: path.to_owned(),
            storage: Storage {
                header: Stored::Present(
                    ArchiveHeader { conserve_archive_version: archive_version() },
                ),
                files,
                block_dir: BlockDir::new(),
                dirs: Vec::new(),
            },
        }
    }

    /// Opens the archive at `path` that holds `storage`, checking its
    /// header.
    ///
    /// Fails with `NotAnArchive` where there is no header, with
    /// `DeserializeJson` where the header cannot be read, and with
    /// `UnsupportedArchiveVersion` where it names another version than the
    /// one that this engine reads.
    pub fn open(path: &str, storage: Storage) -> (r: Result<Archive, Error>)
        ensures
            match r {
                Ok(archive) => archive@ == storage && archive.path_text() == path@ && (
                storage.header matches Stored::Present(h) && h.conserve_archive_version@
                    == archive_version_text()),
                Err(e) => match storage.header {
                    Stored::Absent => e matches Error::NotAnArchive { path: p } && p@ == path@,
                    Stored::Damaged => e matches Error::DeserializeJson { cause } && cause@
                        == path@,
                    Stored::Present(h) => h.conserve_archive_version@ != archive_version_text()
                        && (e matches Error::UnsupportedArchiveVersion { version } && version@
                        == h.conserve_archive_version@),
                },
            },
    {
        match &storage.header {
            Stored::Absent => {
                return Err(Error::NotAnArchive { path: path.to_owned() });
            },
            Stored::Damaged => {
                return Err(Error::DeserializeJson { cause: path.to_owned() });
            },
            Stored::Present(h) => {
                let supported = archive_version();
                if !same_text(h.conserve_archive_version.as_str(), supported.as_str()) {
                    return Err(
                        Error::UnsupportedArchiveVersion {
                            version: h.conserve_archive_version.clone(),
                        },
                    );
                }
            },
        }
        Ok(Archive { path: path.to_owned(), storage })
    }

    /// The block directory of the archive.
    pub fn block_dir(&self) -> (dir: &BlockDir)
        ensures
            *dir == self@.block_dir,
    {
        &self.storage.block_dir
    }

    /// The top-level directory of the archive.
    pub fn path(&self) -> (path: &str)
        ensures
            path@ == self.path_text(),
    {
        self.path.as_str()
    }

    /// What lies in the archive.
    pub fn storage(&self) -> (storage: &Storage)
        ensures
            *storage == self@,
    {
        &self.storage
    }

    /// Gives up the archive for what lies in it.
    pub fn into_storage(self) -> (storage: Storage)
        ensures
            storage == self@,
    {
        self.storage
    }

    /// The names of the files and of the directories at the top of the
    /// archive: the files as they are stored, and the directories as they
    /// are stored, followed by the block directory `d`.
    pub fn list_dir(&self) -> (r: (Vec<String>, Vec<String>))
        ensures
            crate::text::texts(r.0@) == crate::text::texts(self@.files@),
            r.1@.len() == self@.dirs@.len() + 1,
            forall|i: int|
                0 <= i < self@.dirs@.len() ==> (#[trigger] r.1@[i])@ == self@.dirs@[i].name@,
            r.1@[self@.dirs@.len() as int]@ == seq!['d'],
    {
        let mut files: Vec<String> = Vec::new();
        let mut i: usize = 0;
        while i < self.storage.files.len()
            invariant
                i <= self.storage.files@.len(),
                files@.len() == i,
                forall|j: int| 0 <= j < i ==> (#[trigger] files@[j])@ == self.storage.files@[j]@,
            decreases self.storage.files@.len() - i,
        {
            files.push(self.storage.files[i].clone());
            i += 1;
        }
        let mut dirs: Vec<String> = Vec::new();
        let mut k: usize = 0;
        while k < self.storage.dirs.len()
            invariant
                k <= self.storage.dirs@.len(),
                dirs@.len() == k,
                forall|j: int| 0 <= j < k ==> (#[trigger] dirs@[j])@ == self.storage.dirs@[j].name@,
            decreases self.storage.dirs@.len() - k,
        {
            dirs.push(self.storage.dirs[k].name.clone());
            k += 1;
        }
        proof {
            reveal_strlit("d");
        }
        let d = "d".to_owned();
        assert(d@ =~= seq!['d']);
        dirs.push(d);
        assert(crate::text::texts(files@) =~= crate::text::texts(self@.files@));
        (files, dirs)
    }

    /// The ids of the bands of the archive, in ascending order. Directories
    /// whose names are not those of bands are passed over.
    pub fn list_bands(&self) -> (ids: Vec<BandId>)
        ensures
            id_views(ids@) == sorted_ids(self@.dirs@),
            ids@.len() == sorted_ids(self@.dirs@).len(),
    {
        let dirs = &self.storage.dirs;
        let mut ids: Vec<BandId> = Vec::new();
        let mut k: usize = 0;
        assert(dirs@.take(0) =~= Seq::<BandDir>::empty());
        assert(id_views(ids@) =~= Seq::<Seq<u32>>::empty());
        while k < dirs.len()
            invariant
                k <= dirs@.len(),
                id_views(ids@) == sorted_ids(dirs@.take(k as int)),
            decreases dirs@.len() - k,
        {
            proof {
                assert(dirs@.take(k + 1).drop_last() =~= dirs@.take(k as int));
                assert(dirs@.take(k + 1).last() == dirs@[k as int]);
            }
            match BandId::from_string(dirs[k].name.as_str()) {
                None => {},
                Some(id) => {
                    let ghost before = id_views(ids@);
                    let mut pos: usize = ids.len();
                    while pos > 0 && id.compare(&ids[pos - 1]) < 0
                        invariant
                            pos <= ids@.len(),
                            before == id_views(ids@),
                            forall|j: int|
                                pos <= j < before.len() ==> band_order(id@, #[trigger] before[j])
                                    < 0,
                        decreases pos,
                    {
                        assert(before[pos - 1] == ids@[pos - 1]@);
                        pos -= 1;
                    }
                    proof {
                        if pos > 0 {
                            assert(before[pos - 1] == ids@[pos - 1]@);
                        }
                        lemma_insert_at(before, id@, pos as int);
                    }
                    ids.insert(pos, id);
                    assert(id_views(ids@) =~= before.insert(pos as int, id@));
                },
            }
            k += 1;
        }
        assert(dirs@.take(dirs@.len() as int) =~= dirs@);
        ids
    }

    /// The id of the last band of the archive, or `None` where it holds no
    /// band.
    pub fn last_band_id(&self) -> (r: Option<BandId>)
        ensures
            match r {
                Some(id) => sorted_ids(self@.dirs@).len() > 0 && id@ == sorted_ids(
                    self@.dirs@,
                ).last(),
                None => sorted_ids(self@.dirs@).len() == 0,
            },
    {
        let mut ids = self.list_bands();
        let ghost listed = id_views(ids@);
        let last = ids.pop();
        proof {
            if listed.len() > 0 {
                assert(listed.last() == listed[listed.len() - 1]);
            }
        }
        last
    }

    /// The newest band that is complete, or `None` where no band is.
    ///
    /// The bands are tried from the newest on, as [`last_complete`] says.
    /// The search fails where one of them cannot be opened, with the error
    /// of that band.
    pub fn last_complete_band(&self) -> (r: Result<Option<Band<'_>>, Error>)
        ensures
            match r {
                Ok(Some(band)) => {
                    &&& last_complete(self@.dirs@, sorted_ids(self@.dirs@)) == Newest::Complete(
                        band.id_view(),
                    )
                    &&& sorted_ids(self@.dirs@).contains(band.id_view())
                    &&& band.dir() == self@.dirs@[first_named(
                        self@.dirs@,
                        band_text(band.id_view()),
                    )]
                    &&& band.dir().name@ == band_text(band.id_view())
                    &&& closed(band.dir())
                },
                Ok(None) => last_complete(self@.dirs@, sorted_ids(self@.dirs@))
                    == Newest::NoneComplete,
                Err(e) => {
                    &&& last_complete(self@.dirs@, sorted_ids(self@.dirs@)) matches Newest::Unopened(id)
                    &&& fails_to_open(self@.dirs@, id, e)
                },
            },
    {
        let ids = self.list_bands();
        let ghost all = id_views(ids@);
        let mut n: usize = ids.len();
        assert(all.take(n as int) =~= all);
        while n > 0
            invariant
                n <= ids@.len(),
                all == id_views(ids@),
                all == sorted_ids(self@.dirs@),
                last_complete(self@.dirs@, all) == last_complete(self@.dirs@, all.take(n as int)),
            decreases n,
        {
            proof {
                assert(all.take(n as int).last() == ids@[n - 1]@);
                assert(all.take(n as int).drop_last() =~= all.take(n - 1));
            }
            let band = match Band::open(&self.storage.dirs, &ids[n - 1]) {
                Ok(b) => b,
                Err(e) => {
                    return Err(e);
                },
            };
            if band.is_closed() {
                assert(all[n - 1] == band.id_view());
                return Ok(Some(band));
            }
            n -= 1;
        }
        Ok(None)
    }

    /// Checks the top of the archive: that it holds no file but the header,
    /// and no directory but those of bands, each band once.
    #[verifier::rlimit(40)]
    pub fn validate_archive_dir(&self) -> (stats: ValidateArchiveStats)
        ensures
            stats.structure_problems == clip_u64(layout_problems(self@.files@, self@.dirs@)),
            stats.io_errors == 0,
            stats.block_dir == ValidateBlockDirStats::zero(),
    {
        let mut stats = ValidateArchiveStats::default();
        let files = &self.storage.files;
        let header = header_filename();
        let mut stray = false;
        let mut i: usize = 0;
        while i < files.len()
            invariant
                i <= files@.len(),
                header@ == header_name(),
                stray <==> unexpected_files(files@.take(i as int)),
            decreases files@.len() - i,
        {
            if !same_text(files[i].as_str(), header.as_str()) {
                stray = true;
            }
            proof {
                let now = files@.take(i + 1);
                let was = files@.take(i as int);
                if unexpected_files(was) {
                    let j = choose|j: int| 0 <= j < was.len() && (#[trigger] was[j])@
                        != header_name();
                    assert(now[j]@ != header_name());
                }
                if unexpected_files(now) {
                    let j = choose|j: int| 0 <= j < now.len() && (#[trigger] now[j])@
                        != header_name();
                    if j < i {
                        assert(was[j]@ != header_name());
                    }
                }
                if files@[i as int]@ != header_name() {
                    assert(now[i as int]@ != header_name());
                }
            }
            i += 1;
        }
        assert(files@.take(files@.len() as int) =~= files@);
        if stray {
            stats.structure_problems = 1;
        }
        let dirs = &self.storage.dirs;
        let mut seen: Vec<BandId> = Vec::new();
        let mut problems: u64 = 0;
        let mut k: usize = 0;
        assert(dirs@.take(0) =~= Seq::<BandDir>::empty());
        while k < dirs.len()
            invariant
                k <= dirs@.len(),
                problems == dir_problems(dirs@.take(k as int)),
                problems <= k,
                forall|id: Seq<u32>| #[trigger]
                    names_band(dirs@.take(k as int), id) <==> id_views(seen@).contains(id),
            decreases dirs@.len() - k,
        {
            let ghost was = dirs@.take(k as int);
            let ghost now = dirs@.take(k + 1);
            proof {
                assert(now.drop_last() =~= was);
                assert(now.last() == dirs@[k as int]);
            }
            match BandId::from_string(dirs[k].name.as_str()) {
                None => {
                    problems = problems + 1;
                    proof {
                        assert forall|id: Seq<u32>| #[trigger]
                            names_band(now, id) <==> id_views(seen@).contains(id) by {
                            if names_band(now, id) {
                                let j = choose|j: int|
                                    0 <= j < now.len() && band_text_ids(
                                        (#[trigger] now[j]).name@,
                                    ) == Some(id);
                                assert(band_text_ids(was[j].name@) == Some(id));
                            }
                            if names_band(was, id) {
                                let j = choose|j: int|
                                    0 <= j < was.len() && band_text_ids(
                                        (#[trigger] was[j]).name@,
                                    ) == Some(id);
                                assert(band_text_ids(now[j].name@) == Some(id));
                            }
                        }
                    }
                },
                Some(id) => {
                    let mut found = false;
                    let mut m: usize = 0;
                    while m < seen.len()
                        invariant
                            m <= seen@.len(),
                            found <==> id_views(seen@).take(m as int).contains(id@),
                        decreases seen@.len() - m,
                    {
                        let same = seen[m].compare(&id) == 0;
                        proof {
                            lemma_band_order_equal(seen@[m as int]@, id@);
                            let a = id_views(seen@).take(m as int);
                            let b = id_views(seen@).take(m + 1);
                            if a.contains(id@) {
                                let j = a.index_of(id@);
                                assert(b[j] == id@);
                            }
                            if b.contains(id@) {
                                let j = b.index_of(id@);
                                if j < m {
                                    assert(a[j] == id@);
                                }
                            }
                            if same {
                                assert(b[m as int] == id@);
                            }
                        }
                        if same {
                            found = true;
                        }
                        m += 1;
                    }
                    assert(id_views(seen@).take(seen@.len() as int) =~= id_views(seen@));
                    let ghost before_seen = id_views(seen@);
                    if found {
                        problems = problems + 1;
                    } else {
                        seen.push(id);
                        assert(id_views(seen@) =~= before_seen.push(id@));
                    }
                    proof {
                        let after_seen = id_views(seen@);
                        assert forall|x: Seq<u32>| #[trigger]
                            names_band(now, x) <==> after_seen.contains(x) by {
                            if names_band(now, x) {
                                let j = choose|j: int|
                                    0 <= j < now.len() && band_text_ids(
                                        (#[trigger] now[j]).name@,
                                    ) == Some(x);
                                if j < k {
                                    assert(band_text_ids(was[j].name@) == Some(x));
                                    assert(names_band(was, x));
                                    assert(before_seen.contains(x));
                                    let p = before_seen.index_of(x);
                                    assert(after_seen[p] == x);
                                } else {
                                    assert(x == id@);
                                    if found {
                                    } else {
                                        assert(after_seen[before_seen.len() as int] == x);
                                    }
                                }
                            }
                            if after_seen.contains(x) {
                                let p = after_seen.index_of(x);
                                assert(after_seen[p] == x);
                                if p < before_seen.len() {
                                    assert(before_seen[p] == x);
                                    assert(before_seen.contains(x));
                                    assert(names_band(was, x));
                                    let j = choose|j: int|
                                        0 <= j < was.len() && band_text_ids(
                                            (#[trigger] was[j]).name@,
                                        ) == Some(x);
                                    assert(band_text_ids(now[j].name@) == Some(x));
                                } else {
                                    assert(band_text_ids(now[k as int].name@) == Some(x));
                                }
                            }
                        }
                    }
                },
            }
            k += 1;
        }
        assert(dirs@.take(dirs@.len() as int) =~= dirs@);
        stats.structure_problems = stats.structure_problems.saturating_add(problems);
        stats
    }

    /// Checks every band of the archive, as [`Band::validate`] does, and
    /// adds what is wrong to `stats`: a band that does not open and a hunk
    /// that cannot be read to `io_errors`, an entry that does not ascend
    /// and an address of a block that is not stored to
    /// `structure_problems`. Each count stops at the largest number that it
    /// can hold.
    pub fn validate_bands(&self, stats: &mut ValidateArchiveStats)
        ensures
            final(stats).io_errors == clip_u64(
                (old(stats).io_errors + read_failures(self@.dirs@, sorted_ids(self@.dirs@))) as nat,
            ),
            final(stats).structure_problems == clip_u64(
                (old(stats).structure_problems + index_problems(
                    self@.dirs@,
                    sorted_ids(self@.dirs@),
                    self@.block_dir@,
                )) as nat,
            ),
            final(stats).block_dir == old(stats).block_dir,
    {
        let ids = self.list_bands();
        let ghost all = id_views(ids@);
        let ghost dirs = self@.dirs@;
        let ghost blocks = self@.block_dir@;
        let mut n: usize = 0;
        assert(all.take(0) =~= Seq::<Seq<u32>>::empty());
        while n < ids.len()
            invariant
                n <= ids@.len(),
                all == id_views(ids@),
                dirs == self@.dirs@,
                blocks == self@.block_dir@,
                stats.io_errors == clip_u64(
                    (old(stats).io_errors + read_failures(dirs, all.take(n as int))) as nat,
                ),
                stats.structure_problems == clip_u64(
                    (old(stats).structure_problems + index_problems(
                        dirs,
                        all.take(n as int),
                        blocks,
                    )) as nat,
                ),
                stats.block_dir == old(stats).block_dir,
            decreases ids@.len() - n,
        {
            proof {
                assert(all.take(n + 1).drop_last() =~= all.take(n as int));
                assert(all.take(n + 1).last() == ids@[n as int]@);
            }
            match Band::open(&self.storage.dirs, &ids[n]) {
                Err(_) => {
                    stats.io_errors = stats.io_errors.saturating_add(1);
                },
                Ok(band) => {
                    let v = band.validate(&self.storage.block_dir);
                    stats.io_errors = stats.io_errors.saturating_add(v.unreadable_hunks);
                    stats.structure_problems = stats.structure_problems.saturating_add(
                        v.misplaced_entries,
                    ).saturating_add(v.missing_blocks);
                },
            }
            n += 1;
        }
        assert(all.take(ids@.len() as int) =~= all);
    }

    /// Checks the whole archive: its layout, every block, and every band.
    /// What is wrong is counted, never reported as a failure.
    pub fn validate(&self) -> (stats: ValidateArchiveStats)
        ensures
            stats.structure_problems == clip_u64(
                layout_problems(self@.files@, self@.dirs@) + index_problems(
                    self@.dirs@,
                    sorted_ids(self@.dirs@),
                    self@.block_dir@,
                ),
            ),
            stats.io_errors == clip_u64(read_failures(self@.dirs@, sorted_ids(self@.dirs@))),
            stats.block_dir.block_read_count == count_blocks(self@.block_dir.names()),
            stats.block_dir.block_error_count == count_damaged(
                self@.block_dir.names(),
                self@.block_dir@,
            ),
    {
        let mut stats = self.validate_archive_dir();
        stats.block_dir = self.storage.block_dir.validate();
        self.validate_bands(&mut stats);
        stats
    }

    /// Begins a new band at `start_time`, after all the bands that are
    /// there, and returns its id.
    ///
    /// Fails with `TooManyBands`, and changes nothing, where no id is left
    /// after that of the last band.
    pub fn create_band(&mut self, start_time: i64) -> (r: Result<BandId, Error>)
        ensures
            final(self).path_text() == old(self).path_text(),
            final(self)@.header == old(self)@.header,
            final(self)@.files == old(self)@.files,
            final(self)@.block_dir == old(self)@.block_dir,
            resolved(old(self)@) ==> resolved(final(self)@),
            match r {
                Ok(id) => {
                    &&& next_band_id(sorted_ids(old(self)@.dirs@)) == Some(id@)
                    &&& final(self)@.dirs@.len() == old(self)@.dirs@.len() + 1
                    &&& final(self)@.dirs@.drop_last() == old(self)@.dirs@
                    &&& first_named(final(self)@.dirs@, band_text(id@)) == old(self)@.dirs@.len()
                    &&& final(self)@.dirs@.last().name@ == band_text(id@)
                    &&& final(self)@.dirs@.last().head matches Stored::Present(head)
                    &&& head.start_time == start_time
                    &&& head.band_format_version@ == band_format_text()
                    &&& final(self)@.dirs@.last().tail is Absent
                    &&& final(self)@.dirs@.last().hunks@.len() == 0
                },
                Err(e) => {
                    &&& next_band_id(sorted_ids(old(self)@.dirs@)) is None
                    &&& e is TooManyBands
                    &&& final(self)@.dirs == old(self)@.dirs
                },
            },
    {
        let id = match self.last_band_id() {
            None => BandId::zero(),
            Some(last) => match last.next_sibling() {
                Some(next) => next,
                None => {
                    return Err(Error::TooManyBands);
                },
            },
        };
        proof {
            lemma_next_band_is_new(self@.dirs@, id@);
        }
        let ghost before = self@.dirs@;
        let dir = BandDir {
            name: id.to_string(),
            head: Stored::Present(
                BandHead { start_time, band_format_version: band_format_version() },
            ),
            tail: Stored::Absent,
            hunks: Vec::new(),
        };
        self.storage.dirs.push(dir);
        proof {
            assert(self@.dirs@.drop_last() =~= before);
            crate::band::lemma_first_named_bounds(before, band_text(id@));
            assert forall|i: int| 0 <= i < before.len() implies (#[trigger] self@.dirs@[i]).name@
                != band_text(id@) by {
                assert(self@.dirs@[i] == before[i]);
            }
            crate::band::lemma_first_named(self@.dirs@, band_text(id@), before.len() as int);
            if resolved(old(self)@) {
                lemma_empty_band_resolved(self@.dirs@[before.len() as int], self@.block_dir@);
                assert forall|j: int| 0 <= j < self@.dirs@.len() implies
                    crate::references::band_resolved(#[trigger] self@.dirs@[j], self@.block_dir@)
                    || (j < before.len() && self@.dirs@[j].hunks@ == before[j].hunks@) by {
                    if j < before.len() {
                        assert(self@.dirs@[j] == before[j]);
                    }
                }
                lemma_resolved_kept(old(self)@, self@);
            }
        }
        Ok(id)
    }

    /// Completes the band `id` at `end_time`: writes its tail.
    ///
    /// Fails, and changes nothing, with `BandNotFound` where there is no
    /// such band and with `AlreadyExists` where the band has a tail.
    pub fn close_band(&mut self, id: &BandId, end_time: i64) -> (r: Result<(), Error>)
        ensures
            final(self).path_text() == old(self).path_text(),
            final(self)@.header == old(self)@.header,
            final(self)@.files == old(self)@.files,
            final(self)@.block_dir == old(self)@.block_dir,
            final(self)@.dirs@.len() == old(self)@.dirs@.len(),
            resolved(old(self)@) ==> resolved(final(self)@),
            ({
                let k = first_named(old(self)@.dirs@, band_text(id@));
                match r {
                    Ok(()) => {
                        &&& k < old(self)@.dirs@.len()
                        &&& old(self)@.dirs@[k].tail is Absent
                        &&& final(self)@.dirs@[k].tail == Stored::Present(BandTail { end_time })
                        &&& final(self)@.dirs@[k].name == old(self)@.dirs@[k].name
                        &&& final(self)@.dirs@[k].head == old(self)@.dirs@[k].head
                        &&& final(self)@.dirs@[k].hunks == old(self)@.dirs@[k].hunks
                        &&& forall|j: int|
                            0 <= j < old(self)@.dirs@.len() && j != k ==> final(self)@.dirs@[j]
                                == old(self)@.dirs@[j]
                    },
                    Err(e) => {
                        &&& final(self)@.dirs == old(self)@.dirs
                        &&& if k >= old(self)@.dirs@.len() {
                            e matches Error::BandNotFound { id: i } && i@ == id@
                        } else {
                            !(old(self)@.dirs@[k].tail is Absent) && (e matches Error::AlreadyExists {
                                path,
                            } && path@ == band_text(id@))
                        }
                    },
                }
            }),
    {
        let name = id.to_string();
        let k = match crate::band::find_dir(&self.storage.dirs, name.as_str()) {
            Some(k) => k,
            None => {
                return Err(Error::BandNotFound { id: id.clone() });
            },
        };
        match &self.storage.dirs[k].tail {
            Stored::Absent => {},
            _ => {
                return Err(Error::AlreadyExists { path: name });
            },
        }
        self.storage.dirs[k].tail = Stored::Present(BandTail { end_time });
        proof {
            if resolved(old(self)@) {
                lemma_resolved_kept(old(self)@, self@);
            }
        }
        Ok(())
    }

    /// Adds `entries` as the next hunk of the index of the band `id`.
    ///
    /// Fails, and changes nothing, with `BandNotFound` where there is no
    /// such band.
    pub fn append_hunk(&mut self, id: &BandId, entries: Vec<IndexEntry>) -> (r: Result<(), Error>)
        ensures
            final(self).path_text() == old(self).path_text(),
            final(self)@.header == old(self)@.header,
            final(self)@.files == old(self)@.files,
            final(self)@.block_dir == old(self)@.block_dir,
            final(self)@.dirs@.len() == old(self)@.dirs@.len(),
            ({
                let k = first_named(old(self)@.dirs@, band_text(id@));
                match r {
                    Ok(()) => {
                        &&& k < old(self)@.dirs@.len()
                        &&& final(self)@.dirs@[k].hunks@ == old(self)@.dirs@[k].hunks@.push(
                            Hunk::Entries(entries),
                        )
                        &&& final(self)@.dirs@[k].name == old(self)@.dirs@[k].name
                        &&& final(self)@.dirs@[k].head == old(self)@.dirs@[k].head
                        &&& final(self)@.dirs@[k].tail == old(self)@.dirs@[k].tail
                        &&& forall|j: int|
                            0 <= j < old(self)@.dirs@.len() && j != k ==> final(self)@.dirs@[j]
                                == old(self)@.dirs@[j]
                    },
                    Err(e) => {
                        &&& final(self)@.dirs == old(self)@.dirs
                        &&& k >= old(self)@.dirs@.len()
                        &&& e matches Error::BandNotFound { id: i }
                        &&& i@ == id@
                    },
                }
            }),
    {
        let name = id.to_string();
        let k = match crate::band::find_dir(&self.storage.dirs, name.as_str()) {
            Some(k) => k,
            None => {
                return Err(Error::BandNotFound { id: id.clone() });
            },
        };
        self.storage.dirs[k].hunks.push(Hunk::Entries(entries));
        Ok(())
    }

    /// Stores `bytes` in the block directory of the archive, as
    /// [`BlockDir::store`] does.
    pub fn store_block(&mut self, bytes: &[u8]) -> (r: Result<String, Error>)
        ensures
            final(self).path_text() == old(self).path_text(),
            final(self)@.header == old(self)@.header,
            final(self)@.files == old(self)@.files,
            final(self)@.dirs == old(self)@.dirs,
            resolved(old(self)@) ==> resolved(final(self)@),
            match r {
                Ok(hash) => hash@ == block_hash(bytes@) && crate::codec::is_block_name(hash@)
                    && stored(old(self)@.block_dir@, bytes@, final(self)@.block_dir@),
                Err(e) => final(self)@.block_dir@ == old(self)@.block_dir@
                    && match snappy_compressed(
                    bytes@,
                ) {
                    None => e is BlockTooLarge,
                    Some(_) => old(self)@.block_dir@.contains_key(block_hash(bytes@))
                        && old(self)@.block_dir@[block_hash(bytes@)].len() == 0
                        && e is BlockCorrupt,
                },
            },
    {
        let r = self.storage.block_dir.store(bytes);
        proof {
            if resolved(old(self)@) {
                lemma_resolved_kept(old(self)@, self@);
            }
        }
        r
    }
}

} // verus!
