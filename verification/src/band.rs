//! Bands: the snapshots of an archive.
//!
//! A band is a directory that holds a head, written when the band is
//! begun, the hunks of its index, and a tail, written when the band is
//! complete. A band without a tail was never finished.

use crate::bandid::{band_text, BandId};
use crate::blockdir::{BlockDir, Blocks};
use crate::index::{Address, AddressView};
use crate::stats::clip_u64;
use crate::errors::Error;
use crate::index::{
    all_entries, ascending, entry_views, read_entries, strictly_sorted, unreadable_hunks,
    EntryView, Hunk, IndexEntry,
};
use crate::text::{chars_of, same_text};
use vstd::prelude::*;

verus! {

/// What is found where a file is expected.
#[derive(Debug, PartialEq, Eq)]
pub enum Stored<T> {
    /// There is no such file.
    Absent,
    /// The file is there and cannot be read.
    Damaged,
    /// What the file holds.
    Present(T),
}

/// The record written when a band is begun.
#[derive(Debug, PartialEq, Eq)]
pub struct BandHead {
    /// When the band was begun, in seconds since the epoch.
    pub start_time: i64,
    /// The version of the format in which the band is written.
    pub band_format_version: String,
}

/// The record written when a band is complete.
#[derive(Debug, PartialEq, Eq)]
pub struct BandTail {
    /// When the band was completed, in seconds since the epoch.
    pub end_time: i64,
}

/// A directory of an archive that may hold a band, as it is found in
/// storage.
#[derive(Debug, PartialEq, Eq)]
pub struct BandDir {
    /// The name of the directory.
    pub name: String,
    pub head: Stored<BandHead>,
    pub tail: Stored<BandTail>,
    /// The hunks of the index, each at its number.
    pub hunks: Vec<Hunk>,
}

/// When a band was written.
#[derive(Debug, PartialEq, Eq)]
pub struct Info {
    pub id: BandId,
    pub is_closed: bool,
    /// When the band was begun, in seconds since the epoch.
    pub start_time: i64,
    /// When the band was completed, if it was.
    pub end_time: Option<i64>,
}

/// The version of the band format that this engine writes.
pub open spec fn band_format_text() -> Seq<char> {
    seq!['0', '.', '6', '.', '3']
}

/// Whether this engine reads bands written in the format `v`: `0.6` and
/// every `0.6.x`.
pub open spec fn supported_band_version(v: Seq<char>) -> bool {
    &&& v.len() >= 3
    &&& v[0] == '0'
    &&& v[1] == '.'
    &&& v[2] == '6'
    &&& v.len() == 3 || v[3] == '.'
}

/// The version of the band format that this engine writes.
pub fn band_format_version() -> (v: String)
    ensures
        v@ == band_format_text(),
        supported_band_version(v@),
{
    proof {
        reveal_strlit("0.6.3");
    }
    let v = "0.6.3".to_owned();
    assert(v@ =~= band_format_text());
    v
}

/// Whether this engine reads bands written in the format `v`.
pub fn is_supported_band_version(v: &str) -> (r: bool)
    ensures
        r == supported_band_version(v@),
{
    let cs = chars_of(v);
    cs.len() >= 3 && cs[0] == '0' && cs[1] == '.' && cs[2] == '6' && (cs.len() == 3 || cs[3]
        == '.')
}

/// The index of the first of the directories `dirs` that is named `name`,
/// or their number where none is.
pub open spec fn first_named(dirs: Seq<BandDir>, name: Seq<char>) -> int
    decreases dirs.len(),
{
    if dirs.len() == 0 || dirs[0].name@ == name {
        0
    } else {
        1 + first_named(dirs.drop_first(), name)
    }
}

/// `first_named` is the one position before which no directory has the
/// name and at which one has it or the list ends.
pub proof fn lemma_first_named(dirs: Seq<BandDir>, name: Seq<char>, k: int)
    requires
        0 <= k <= dirs.len(),
        forall|i: int| 0 <= i < k ==> (#[trigger] dirs[i]).name@ != name,
        k == dirs.len() || dirs[k].name@ == name,
    ensures
        first_named(dirs, name) == k,
    decreases dirs.len(),
{
    if dirs.len() == 0 || dirs[0].name@ == name {
    } else {
        let t = dirs.drop_first();
        assert forall|i: int| 0 <= i < k - 1 implies (#[trigger] t[i]).name@ != name by {
            assert(t[i] == dirs[i + 1]);
        }
        lemma_first_named(t, name, k - 1);
    }
}

/// What `first_named` returns lies within the list, and no directory before
/// it has the name.
pub proof fn lemma_first_named_bounds(dirs: Seq<BandDir>, name: Seq<char>)
    ensures
        0 <= first_named(dirs, name) <= dirs.len(),
        forall|i: int| 0 <= i < first_named(dirs, name) ==> (#[trigger] dirs[i]).name@ != name,
        first_named(dirs, name) < dirs.len() ==> dirs[first_named(dirs, name)].name@ == name,
    decreases dirs.len(),
{
    if dirs.len() == 0 || dirs[0].name@ == name {
    } else {
        let t = dirs.drop_first();
        lemma_first_named_bounds(t, name);
        assert forall|i: int| 0 <= i < first_named(dirs, name) implies (#[trigger] dirs[i]).name@
            != name by {
            if i > 0 {
                assert(t[i - 1] == dirs[i]);
            }
        }
    }
}

/// Where a name is found depends on the names of the directories alone.
pub proof fn lemma_first_named_by_names(a: Seq<BandDir>, b: Seq<BandDir>, name: Seq<char>)
    requires
        a.len() == b.len(),
        forall|i: int| 0 <= i < a.len() ==> (#[trigger] a[i]).name@ == b[i].name@,
    ensures
        first_named(a, name) == first_named(b, name),
{
    lemma_first_named_bounds(a, name);
    let k = first_named(a, name);
    assert forall|i: int| 0 <= i < k implies (#[trigger] b[i]).name@ != name by {
        assert(a[i].name@ != name);
    }
    if k < a.len() {
        assert(a[k].name@ == b[k].name@);
    }
    lemma_first_named(b, name, k);
}

/// Where the directory named `name` stands among `dirs`.
pub fn find_dir(dirs: &Vec<BandDir>, name: &str) -> (r: Option<usize>)
    ensures
        match r {
            Some(k) => k == first_named(dirs@, name@) && k < dirs@.len(),
            None => first_named(dirs@, name@) == dirs@.len(),
        },
{
    let mut k: usize = 0;
    while k < dirs.len()
        invariant
            k <= dirs@.len(),
            forall|i: int| 0 <= i < k ==> (#[trigger] dirs@[i]).name@ != name@,
        decreases dirs@.len() - k,
    {
        if same_text(dirs[k].name.as_str(), name) {
            proof {
                lemma_first_named(dirs@, name@, k as int);
            }
            return Some(k);
        }
        k += 1;
    }
    proof {
        lemma_first_named(dirs@, name@, k as int);
    }
    None
}

/// Whether the band in `dir` can be opened: its head is there, can be
/// read, and names a format that this engine reads.
pub open spec fn opens(dir: BandDir) -> bool {
    dir.head matches Stored::Present(head) && supported_band_version(head.band_format_version@)
}

/// Whether the band `id` is found among `dirs` and opens.
pub open spec fn band_opens(dirs: Seq<BandDir>, id: Seq<u32>) -> bool {
    let k = first_named(dirs, band_text(id));
    k < dirs.len() && opens(dirs[k])
}

/// Whether `e` is the error with which the band `id` fails to open among
/// `dirs`: `BandNotFound` where no directory has the name of the band,
/// `TransportError` where its head is missing, `DeserializeJson` where the
/// head cannot be read, and `UnsupportedArchiveVersion` where the head
/// names a format that this engine does not read. No error is that of a
/// band that opens.
pub open spec fn fails_to_open(dirs: Seq<BandDir>, id: Seq<u32>, e: Error) -> bool {
    let k = first_named(dirs, band_text(id));
    if k >= dirs.len() {
        e matches Error::BandNotFound { id: i } && i@ == id
    } else {
        !opens(dirs[k]) && match dirs[k].head {
            Stored::Absent => e matches Error::TransportError { cause } && cause@ == band_text(id),
            Stored::Damaged => e matches Error::DeserializeJson { cause } && cause@ == band_text(
                id,
            ),
            Stored::Present(head) => e matches Error::UnsupportedArchiveVersion { version }
                && version@ == head.band_format_version@,
        }
    }
}

/// Whether the band in `dir` is closed: its tail is there.
pub open spec fn closed(dir: BandDir) -> bool {
    !(dir.tail is Absent)
}

/// The entries that the band in `dir` shows: those of the hunks of its
/// index that can be read, as far as they ascend.
pub open spec fn band_entries(dir: BandDir) -> Seq<EntryView> {
    ascending(all_entries(dir.hunks@))
}

/// Whether the band in `dir` shows its whole tree: it is closed and every
/// hunk of its index can be read.
pub open spec fn covers(dir: BandDir) -> bool {
    closed(dir) && unreadable_hunks(dir.hunks@) == 0
}

/// How many of the addresses `addrs` name a block that is not among
/// `blocks`.
pub open spec fn missing_addrs(addrs: Seq<AddressView>, blocks: Blocks) -> nat
    decreases addrs.len(),
{
    if addrs.len() == 0 {
        0
    } else {
        missing_addrs(addrs.drop_last(), blocks) + if blocks.contains_key(addrs.last().hash) {
            0nat
        } else {
            1nat
        }
    }
}

/// How many addresses of the entries `entries` name a block that is not
/// among `blocks`.
pub open spec fn missing_blocks(entries: Seq<EntryView>, blocks: Blocks) -> nat
    decreases entries.len(),
{
    if entries.len() == 0 {
        0
    } else {
        missing_blocks(entries.drop_last(), blocks) + missing_addrs(entries.last().addrs, blocks)
    }
}

/// What a check of one band found. Each count stops at the largest number
/// that it can hold.
#[derive(Clone, Copy, Debug, PartialEq, Eq)]
pub struct BandValidation {
    /// Hunks of the index that are missing or cannot be read.
    pub unreadable_hunks: u64,
    /// Entries that do not come after the entry before them.
    pub misplaced_entries: u64,
    /// Addresses of blocks that are not stored.
    pub missing_blocks: u64,
}

/// How many addresses of `addrs` name a block that `block_dir` does not
/// hold.
fn count_missing_addrs(addrs: &Vec<Address>, block_dir: &BlockDir) -> (n: u64)
    ensures
        n == clip_u64(missing_addrs(crate::index::address_views(addrs@), block_dir@)),
{
    let ghost views = crate::index::address_views(addrs@);
    let mut n: u64 = 0;
    let mut i: usize = 0;
    assert(views.take(0) =~= Seq::<AddressView>::empty());
    while i < addrs.len()
        invariant
            i <= addrs@.len(),
            views == crate::index::address_views(addrs@),
            n == clip_u64(missing_addrs(views.take(i as int), block_dir@)),
        decreases addrs@.len() - i,
    {
        proof {
            assert(views.take(i + 1).drop_last() =~= views.take(i as int));
            assert(views.take(i + 1).last() == addrs@[i as int]@);
        }
        if !block_dir.contains(addrs[i].hash.as_str()) {
            n = n.saturating_add(1);
        }
        i += 1;
    }
    assert(views.take(addrs@.len() as int) =~= views);
    n
}

/// A band of an archive, opened for reading.
pub struct Band<'a> {
    id: BandId,
    dir: &'a BandDir,
}

impl<'a> Band<'a> {
    /// The directory of the band.
    pub closed spec fn dir(&self) -> BandDir {
        *self.dir
    }

    /// The numbers of the band's id.
    pub closed spec fn id_view(&self) -> Seq<u32> {
        self.id@
    }

    /// Every open band has a head that can be read, and lies in the
    /// directory that is named by its id.
    #[verifier::type_invariant]
    pub closed spec fn well_formed(&self) -> bool {
        opens(*self.dir) && self.dir.name@ == band_text(self.id@)
    }

    /// Opens the band `id` among the directories `dirs`.
    ///
    /// Fails with `BandNotFound` where no directory has the name of the
    /// band, with `TransportError` where the head is missing, with
    /// `DeserializeJson` where it cannot be read, and with
    /// `UnsupportedArchiveVersion` where it names a format that this engine
    /// does not read.
    pub fn open(dirs: &'a Vec<BandDir>, id: &BandId) -> (r: Result<Band<'a>, Error>)
        ensures
            match r {
                Ok(band) => {
                    &&& band_opens(dirs@, id@)
                    &&& band.dir() == dirs@[first_named(dirs@, band_text(id@))]
                    &&& band.dir().name@ == band_text(id@)
                    &&& band.id_view() == id@
                },
                Err(e) => !band_opens(dirs@, id@) && fails_to_open(dirs@, id@, e),
            },
    {
        let name = id.to_string();
        let k = match find_dir(dirs, name.as_str()) {
            Some(k) => k,
            None => {
                return Err(Error::BandNotFound { id: id.clone() });
            },
        };
        proof {
            lemma_first_named_bounds(dirs@, band_text(id@));
        }
        match &dirs[k].head {
            Stored::Absent => Err(Error::TransportError { cause: name }),
            Stored::Damaged => Err(Error::DeserializeJson { cause: name }),
            Stored::Present(head) => {
                if is_supported_band_version(head.band_format_version.as_str()) {
                    Ok(Band { id: id.clone(), dir: &dirs[k] })
                } else {
                    Err(
                        Error::UnsupportedArchiveVersion {
                            version: head.band_format_version.clone(),
                        },
                    )
                }
            },
        }
    }

    /// The id of the band, which names its directory.
    pub fn id(&self) -> (id: BandId)
        ensures
            id@ == self.id_view(),
            band_text(id@) == self.dir().name@,
    {
        proof {
            use_type_invariant(self);
        }
        self.id.clone()
    }

    /// Whether the band was completed: whether its tail is there.
    pub fn is_closed(&self) -> (r: bool)
        ensures
            r == closed(self.dir()),
    {
        match &self.dir.tail {
            Stored::Absent => false,
            _ => true,
        }
    }

    /// Whether the band shows its whole tree.
    pub fn is_whole(&self) -> (r: bool)
        ensures
            r == covers(self.dir()),
    {
        if !self.is_closed() {
            return false;
        }
        let mut k: usize = 0;
        assert(self.dir.hunks@.take(0) =~= Seq::<Hunk>::empty());
        while k < self.dir.hunks.len()
            invariant
                k <= self.dir.hunks@.len(),
                unreadable_hunks(self.dir.hunks@.take(k as int)) == 0,
            decreases self.dir.hunks@.len() - k,
        {
            proof {
                assert(self.dir.hunks@.take(k + 1).drop_last() =~= self.dir.hunks@.take(k as int));
                assert(self.dir.hunks@.take(k + 1).last() == self.dir.hunks@[k as int]);
                lemma_unreadable_grows(self.dir.hunks@, k + 1);
            }
            match &self.dir.hunks[k] {
                Hunk::Entries(_) => {},
                _ => {
                    return false;
                },
            }
            k += 1;
        }
        assert(self.dir.hunks@.take(self.dir.hunks@.len() as int) =~= self.dir.hunks@);
        true
    }

    /// When the band was written.
    ///
    /// Fails with `DeserializeJson` where the tail is there and cannot be
    /// read.
    pub fn get_info(&self) -> (r: Result<Info, Error>)
        ensures
            match r {
                Ok(info) => {
                    &&& info.id@ == self.id_view()
                    &&& info.is_closed == closed(self.dir())
                    &&& self.dir().head matches Stored::Present(head)
                    &&& info.start_time == head.start_time
                    &&& match self.dir().tail {
                        Stored::Present(tail) => info.end_time == Some(tail.end_time),
                        _ => self.dir().tail is Absent && info.end_time is None,
                    }
                },
                Err(e) => self.dir().tail is Damaged && (e matches Error::DeserializeJson { cause }
                    && cause@ == band_text(self.id_view())),
            },
    {
        proof {
            use_type_invariant(self);
        }
        let start_time = match &self.dir.head {
            Stored::Present(head) => head.start_time,
            _ => 0,
        };
        match &self.dir.tail {
            Stored::Absent => Ok(
                Info { id: self.id.clone(), is_closed: false, start_time, end_time: None },
            ),
            Stored::Damaged => Err(Error::DeserializeJson { cause: self.id.to_string() }),
            Stored::Present(tail) => Ok(
                Info {
                    id: self.id.clone(),
                    is_closed: true,
                    start_time,
                    end_time: Some(tail.end_time),
                },
            ),
        }
    }

    /// The hunks of the band's index, each at its number.
    pub fn hunks(&self) -> (h: &'a Vec<Hunk>)
        ensures
            *h == self.dir().hunks,
    {
        &self.dir.hunks
    }

    /// Checks the band: that the hunks of its index can be read, that their
    /// entries ascend, and that every block that an entry names is stored
    /// in `block_dir`. What is wrong is counted, never reported as a
    /// failure.
    pub fn validate(&self, block_dir: &BlockDir) -> (v: BandValidation)
        ensures
            v.unreadable_hunks == unreadable_hunks(self.dir().hunks@),
            v.misplaced_entries == clip_u64(
                (all_entries(self.dir().hunks@).len() - band_entries(self.dir()).len()) as nat,
            ),
            v.missing_blocks == clip_u64(missing_blocks(band_entries(self.dir()), block_dir@)),
    {
        let (entries, unreadable, misplaced) = read_entries(&self.dir.hunks);
        let ghost views = entry_views(entries@);
        let mut missing: u64 = 0;
        let mut k: usize = 0;
        assert(views.take(0) =~= Seq::<EntryView>::empty());
        while k < entries.len()
            invariant
                k <= entries@.len(),
                views == entry_views(entries@),
                missing == clip_u64(missing_blocks(views.take(k as int), block_dir@)),
            decreases entries@.len() - k,
        {
            proof {
                assert(views.take(k + 1).drop_last() =~= views.take(k as int));
                assert(views.take(k + 1).last() == entries@[k as int]@);
            }
            let more = count_missing_addrs(&entries[k].addrs, block_dir);
            missing = missing.saturating_add(more);
            k += 1;
        }
        assert(views.take(entries@.len() as int) =~= views);
        BandValidation {
            unreadable_hunks: unreadable,
            misplaced_entries: misplaced,
            missing_blocks: missing,
        }
    }

    /// The entries that the band shows, in ascending order of apath.
    pub fn iter_entries(&self) -> (entries: Vec<IndexEntry>)
        ensures
            entry_views(entries@) == band_entries(self.dir()),
            strictly_sorted(entry_views(entries@)),
    {
        read_entries(&self.dir.hunks).0
    }
}

/// No beginning of a list of hunks holds more unreadable hunks than the
/// list.
pub proof fn lemma_unreadable_grows(hunks: Seq<Hunk>, k: int)
    requires
        0 <= k <= hunks.len(),
    ensures
        unreadable_hunks(hunks.take(k)) <= unreadable_hunks(hunks),
    decreases hunks.len(),
{
    if k == hunks.len() {
        assert(hunks.take(k) =~= hunks);
    } else {
        lemma_unreadable_grows(hunks.drop_last(), k);
        assert(hunks.drop_last().take(k) =~= hunks.take(k));
    }
}

} // verus!
