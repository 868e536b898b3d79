//! Access a versioned tree stored in the archive.
//!
//! Through this interface one can walk the entries of a stored version. It
//! hides from the caller that the data may be distributed across several
//! bands and hunks.

use crate::apath::{apath_order, within, Apath};
use crate::archive::{id_views, last_complete, sorted_ids, Archive, Newest};
use crate::band::{
    band_entries, band_opens, closed, covers, fails_to_open, first_named, opens, Band, BandDir,
};
use crate::bandid::{band_order, band_text, BandId};
use crate::errors::Error;
use crate::index::{
    entry_views, strictly_sorted, unreadable_hunks, EntryView, Hunk, IndexEntry, Kind,
};
use crate::monitor::collect::{continues, CollectMonitor};
use crate::monitor::counters::Counter;
use crate::monitor::Problem;
use crate::stats::{clip_u64, clip_usize};
use crate::stitch::{chain_views, lemma_sorted_unique, shown, stitch_chain};
use vstd::prelude::*;

verus! {

/// Which band of an archive to read.
#[derive(Debug, PartialEq, Eq)]
pub enum BandSelectionPolicy {
    /// The newest band, complete or not.
    Latest,
    /// The newest band that is complete.
    LatestClosed,
    /// The band of this id.
    Specified(BandId),
}

/// The size of a stored tree.
#[derive(Clone, Copy, Debug, PartialEq, Eq)]
pub struct TreeSize {
    /// The lengths of all files, added up.
    pub file_bytes: u64,
}

/// Parts of a tree that are left out.
pub struct Exclude {
    tops: Vec<Apath>,
}

/// The bytes of the apaths `v`, in order.
pub open spec fn apath_views(v: Seq<Apath>) -> Seq<Seq<u8>> {
    Seq::new(v.len(), |i: int| v[i]@)
}

/// Whether the apath `a` lies in one of the trees below `tops`.
pub open spec fn excluded(tops: Seq<Seq<u8>>, a: Seq<u8>) -> bool {
    exists|i: int| 0 <= i < tops.len() && within(a, #[trigger] tops[i])
}

impl View for Exclude {
    type V = Seq<Seq<u8>>;

    /// The apaths below which everything is left out.
    closed spec fn view(&self) -> Seq<Seq<u8>> {
        apath_views(self.tops@)
    }
}

impl Exclude {
    /// Leaves nothing out.
    pub fn nothing() -> (x: Exclude)
        ensures
            x@.len() == 0,
    {
        Exclude { tops: Vec::new() }
    }

    /// Leaves out the trees below each of `tops`.
    pub fn below(tops: Vec<Apath>) -> (x: Exclude)
        ensures
            x@ == apath_views(tops@),
    {
        Exclude { tops }
    }

    /// Whether `apath` is left out.
    pub fn matches(&self, apath: &Apath) -> (r: bool)
        ensures
            r == excluded(self@, apath@),
    {
        let mut i: usize = 0;
        while i < self.tops.len()
            invariant
                i <= self.tops@.len(),
                forall|j: int| 0 <= j < i ==> !within(apath@, #[trigger] self@[j]),
            decreases self.tops@.len() - i,
        {
            if apath.is_within(&self.tops[i]) {
                assert(within(apath@, self@[i as int]));
                return true;
            }
            i += 1;
        }
        false
    }
}

/// The id of the band of `dirs` that `policy` selects: the newest band,
/// the newest complete band as [`last_complete`] finds it, or the band
/// that is named. There is none where the band that is looked for is not
/// there or does not open.
pub open spec fn selected(dirs: Seq<BandDir>, policy: BandSelectionPolicy) -> Option<Seq<u32>> {
    let ids = sorted_ids(dirs);
    match policy {
        BandSelectionPolicy::Latest => if ids.len() > 0 && band_opens(dirs, ids.last()) {
            Some(ids.last())
        } else {
            None
        },
        BandSelectionPolicy::LatestClosed => match last_complete(dirs, ids) {
            Newest::Complete(id) => Some(id),
            _ => None,
        },
        BandSelectionPolicy::Specified(id) => if band_opens(dirs, id@) {
            Some(id@)
        } else {
            None
        },
    }
}

/// Whether `e` is the error with which `policy` selects no band of `dirs`.
///
/// For the newest band: `ArchiveEmpty` where there is no band, else the
/// error with which the newest band fails to open. For the newest complete
/// band: `ArchiveEmpty` where there is no band, `BandIncomplete` with the
/// id of the newest band where every band opens and none is complete, else
/// the error of the band at which the search ends. For a band that is
/// named: the error with which it fails to open.
pub open spec fn selection_fails(
    dirs: Seq<BandDir>,
    policy: BandSelectionPolicy,
    e: Error,
) -> bool {
    let ids = sorted_ids(dirs);
    match policy {
        BandSelectionPolicy::Latest => if ids.len() == 0 {
            e is ArchiveEmpty
        } else {
            fails_to_open(dirs, ids.last(), e)
        },
        BandSelectionPolicy::LatestClosed => match last_complete(dirs, ids) {
            Newest::Complete(_) => false,
            Newest::NoneComplete => if ids.len() == 0 {
                e is ArchiveEmpty
            } else {
                e matches Error::BandIncomplete { id } && id@ == ids.last()
            },
            Newest::Unopened(id) => fails_to_open(dirs, id, e),
        },
        BandSelectionPolicy::Specified(id) => fails_to_open(dirs, id@, e),
    }
}

/// Whether the band `id` can serve as an earlier version: it opens and is
/// closed.
pub open spec fn usable(dirs: Seq<BandDir>, id: Seq<u32>) -> bool {
    let k = first_named(dirs, band_text(id));
    k < dirs.len() && opens(dirs[k]) && closed(dirs[k])
}

/// The earlier bands that a view is stitched from, newest first, taken
/// from the bands `ids`, which ascend: the newest usable band, and, where
/// that one does not show its whole tree, the usable bands before it in
/// the same way.
pub open spec fn chain_below(dirs: Seq<BandDir>, ids: Seq<Seq<u32>>) -> Seq<BandDir>
    decreases ids.len(),
{
    if ids.len() == 0 {
        Seq::empty()
    } else if usable(dirs, ids.last()) {
        let dir = dirs[first_named(dirs, band_text(ids.last()))];
        if covers(dir) {
            seq![dir]
        } else {
            seq![dir] + chain_below(dirs, ids.drop_last())
        }
    } else {
        chain_below(dirs, ids.drop_last())
    }
}

/// Those of the band ids `ids` that come before `id`, in order.
pub open spec fn ids_before(ids: Seq<Seq<u32>>, id: Seq<u32>) -> Seq<Seq<u32>>
    decreases ids.len(),
{
    if ids.len() == 0 {
        ids
    } else if band_order(ids.last(), id) < 0 {
        ids_before(ids.drop_last(), id).push(ids.last())
    } else {
        ids_before(ids.drop_last(), id)
    }
}

/// The bands that the view of the band `id` is stitched from, newest
/// first: the band itself where it opens, and, unless it shows its whole
/// tree, the complete bands before it.
pub open spec fn tree_chain(dirs: Seq<BandDir>, id: Seq<u32>) -> Seq<BandDir> {
    let k = first_named(dirs, band_text(id));
    let earlier = chain_below(dirs, ids_before(sorted_ids(dirs), id));
    if k < dirs.len() && opens(dirs[k]) {
        if covers(dirs[k]) {
            seq![dirs[k]]
        } else {
            seq![dirs[k]] + earlier
        }
    } else {
        earlier
    }
}

/// What each of the bands `chain` shows.
pub open spec fn chain_entries(chain: Seq<BandDir>) -> Seq<Seq<EntryView>> {
    Seq::new(chain.len(), |i: int| band_entries(chain[i]))
}

/// How many hunks of the bands `chain` cannot be read.
pub open spec fn chain_unreadable(chain: Seq<BandDir>) -> nat
    decreases chain.len(),
{
    if chain.len() == 0 {
        0
    } else {
        chain_unreadable(chain.drop_last()) + unreadable_hunks(chain.last().hunks@)
    }
}

/// Whether the entry `e` is part of the walk over the tree below `top`
/// that leaves out `exclude`.
pub open spec fn walked(e: EntryView, top: Seq<u8>, exclude: Seq<Seq<u8>>) -> bool {
    within(e.apath, top) && !excluded(exclude, e.apath)
}

/// Whether `walk` is the walk over the view stitched from the bands
/// `chain`, below `top` and without what `exclude` leaves out: it ascends,
/// and it holds exactly the entries that the chain shows there.
pub open spec fn is_walk(
    walk: Seq<EntryView>,
    chain: Seq<BandDir>,
    top: Seq<u8>,
    exclude: Seq<Seq<u8>>,
) -> bool {
    &&& strictly_sorted(walk)
    &&& forall|e: EntryView| #[trigger]
        walk.contains(e) <==> shown(chain_entries(chain), e) && walked(e, top, exclude)
}

/// The walk over the view stitched from the bands `chain`, below `top` and
/// without what `exclude` leaves out.
pub open spec fn walk_of(chain: Seq<BandDir>, top: Seq<u8>, exclude: Seq<Seq<u8>>) -> Seq<
    EntryView,
> {
    choose|walk: Seq<EntryView>| is_walk(walk, chain, top, exclude)
}

/// There is one walk only: what is a walk is `walk_of`.
pub proof fn lemma_walk_unique(
    walk: Seq<EntryView>,
    chain: Seq<BandDir>,
    top: Seq<u8>,
    exclude: Seq<Seq<u8>>,
)
    requires
        is_walk(walk, chain, top, exclude),
    ensures
        walk == walk_of(chain, top, exclude),
        is_walk(walk_of(chain, top, exclude), chain, top, exclude),
{
    let other = walk_of(chain, top, exclude);
    assert(is_walk(other, chain, top, exclude));
    assert forall|e: EntryView| #[trigger] walk.contains(e) <==> other.contains(e) by {}
    lemma_sorted_unique(walk, other);
}

/// The entries of a stored tree, in ascending order of apath, handed out
/// one by one.
pub struct Stitch {
    entries: Vec<IndexEntry>,
    next: usize,
}

impl View for Stitch {
    type V = Seq<EntryView>;

    /// The entries that are still to come, in order.
    closed spec fn view(&self) -> Seq<EntryView> {
        entry_views(self.entries@).skip(self.next as int)
    }
}

/// Reports to `monitor` each hunk of `hunks`, the index of the band `band`,
/// that cannot be read, as a problem of the kind `IndexCorrupt`.
pub fn report_unreadable(hunks: &Vec<Hunk>, band: &BandId, monitor: &mut CollectMonitor)
    ensures
        final(monitor).collected().len() == old(monitor).collected().len() + unreadable_hunks(
            hunks@,
        ),
        continues(old(monitor).collected(), final(monitor).collected()),
        forall|j: int|
            old(monitor).collected().len() <= j < final(monitor).collected().len() ==> ((
            #[trigger] final(monitor).collected()[j]).error matches Error::IndexCorrupt {
                band: b,
                hunk,
            } && b@ == band@),
        final(monitor).counters() == old(monitor).counters(),
        final(monitor).started_files() == old(monitor).started_files(),
        final(monitor).tasks() == old(monitor).tasks(),
{
    let ghost before = monitor.collected();
    let mut k: usize = 0;
    assert(hunks@.take(0) =~= Seq::<Hunk>::empty());
    assert(before.take(before.len() as int) =~= before);
    while k < hunks.len()
        invariant
            k <= hunks@.len(),
            before == old(monitor).collected(),
            monitor.collected().len() == before.len() + unreadable_hunks(hunks@.take(k as int)),
            monitor.collected().take(before.len() as int) == before,
            forall|j: int|
                before.len() <= j < monitor.collected().len() ==> ((
                #[trigger] monitor.collected()[j]).error matches Error::IndexCorrupt {
                    band: b,
                    hunk,
                } && b@ == band@),
            monitor.counters() == old(monitor).counters(),
            monitor.started_files() == old(monitor).started_files(),
            monitor.tasks() == old(monitor).tasks(),
        decreases hunks@.len() - k,
    {
        proof {
            assert(hunks@.take(k + 1).drop_last() =~= hunks@.take(k as int));
            assert(hunks@.take(k + 1).last() == hunks@[k as int]);
        }
        match &hunks[k] {
            Hunk::Entries(_) => {},
            _ => {
                let number: u32 = if k <= u32::MAX as usize {
                    k as u32
                } else {
                    u32::MAX
                };
                let ghost prev = monitor.collected();
                monitor.problem(
                    Problem { error: Error::IndexCorrupt { band: band.clone(), hunk: number } },
                );
                assert(monitor.collected().take(before.len() as int) =~= prev.take(
                    before.len() as int,
                ));
            },
        }
        k += 1;
    }
    assert(hunks@.take(hunks@.len() as int) =~= hunks@);
}

/// The entries of `stitched` that lie in the tree below `top` and are not
/// left out by `exclude`, in order.
pub fn select(stitched: &Vec<IndexEntry>, top: &Apath, exclude: &Exclude) -> (out: Vec<
    IndexEntry,
>)
    requires
        strictly_sorted(entry_views(stitched@)),
    ensures
        strictly_sorted(entry_views(out@)),
        forall|e: EntryView| #[trigger]
            entry_views(out@).contains(e) <==> entry_views(stitched@).contains(e) && walked(
                e,
                top@,
                exclude@,
            ),
{
    let ghost all = entry_views(stitched@);
    let mut out: Vec<IndexEntry> = Vec::new();
    let ghost mut origin: Seq<int> = Seq::empty();
    let mut k: usize = 0;
    while k < stitched.len()
        invariant
            all == entry_views(stitched@),
            strictly_sorted(all),
            k <= stitched@.len(),
            origin.len() == out@.len(),
            forall|i: int|
                0 <= i < out@.len() ==> 0 <= #[trigger] origin[i] < k && out@[i]@
                    == all[origin[i]] && walked(all[origin[i]], top@, exclude@),
            forall|i: int, j: int|
                0 <= i < j < out@.len() ==> #[trigger] origin[i] < #[trigger] origin[j],
            forall|m: int|
                0 <= m < k && walked(#[trigger] all[m], top@, exclude@) ==> exists|i: int|
                    0 <= i < out@.len() && #[trigger] origin[i] == m,
        decreases stitched@.len() - k,
    {
        let e = &stitched[k];
        assert(all[k as int] == e@);
        if e.apath.is_within(top) && !exclude.matches(&e.apath) {
            let ghost prev = out@;
            let ghost prev_origin = origin;
            out.push(e.clone());
            proof {
                origin = origin.push(k as int);
                assert forall|m: int|
                    0 <= m < k + 1 && walked(
                        #[trigger] all[m],
                        top@,
                        exclude@,
                    ) implies exists|i: int|
                    0 <= i < out@.len() && #[trigger] origin[i] == m by {
                    if m < k {
                        let i = choose|i: int| 0 <= i < prev.len() && prev_origin[i] == m;
                        assert(origin[i] == m);
                    } else {
                        assert(origin[prev.len() as int] == m);
                    }
                }
            }
        }
        k += 1;
    }
    proof {
        let o = entry_views(out@);
        assert forall|i: int, j: int| 0 <= i < j < o.len() implies apath_order(
            #[trigger] o[i].apath,
            #[trigger] o[j].apath,
        ) < 0 by {
            assert(origin[i] < origin[j]);
            assert(o[i] == all[origin[i]] && o[j] == all[origin[j]]);
        }
        assert forall|e: EntryView| #[trigger]
            o.contains(e) <==> all.contains(e) && walked(e, top@, exclude@) by {
            if o.contains(e) {
                let i = o.index_of(e);
                assert(o[i] == e);
                assert(all[origin[i]] == e);
            }
            if all.contains(e) && walked(e, top@, exclude@) {
                let m = all.index_of(e);
                assert(all[m] == e);
                let i = choose|i: int| 0 <= i < out@.len() && #[trigger] origin[i] == m;
                assert(o[i] == e);
            }
        }
    }
    out
}

impl Stitch {
    /// Begins the walk over the tree of the band `band_id` of `archive`,
    /// below `subtree` and without what `exclude` leaves out.
    ///
    /// The view is stitched from the band itself and, unless it shows its
    /// whole tree, from the complete bands before it: of each apath the
    /// entry of the newest of these bands that holds it is shown, in
    /// ascending order of apath. A band that cannot be opened is passed
    /// over. Each hunk that cannot be read is reported to `monitor` as a
    /// problem.
    #[verifier::rlimit(40)]
    pub fn new(
        archive: &Archive,
        band_id: &BandId,
        subtree: &Apath,
        exclude: &Exclude,
        monitor: &mut CollectMonitor,
    ) -> (stitch: Stitch)
        ensures
            is_walk(stitch@, tree_chain(archive@.dirs@, band_id@), subtree@, exclude@),
            stitch@ == walk_of(tree_chain(archive@.dirs@, band_id@), subtree@, exclude@),
            final(monitor).collected().len() == old(monitor).collected().len() + chain_unreadable(
                tree_chain(archive@.dirs@, band_id@),
            ),
            continues(old(monitor).collected(), final(monitor).collected()),
            forall|j: int|
                old(monitor).collected().len() <= j < final(monitor).collected().len() ==> (
                #[trigger] final(monitor).collected()[j]).error is IndexCorrupt,
            final(monitor).counters() == old(monitor).counters(),
            final(monitor).started_files() == old(monitor).started_files(),
            final(monitor).tasks() == old(monitor).tasks(),
    {
        let dirs = &archive.storage().dirs;
        let ghost before_problems = monitor.collected();
        let mut chain: Vec<Vec<IndexEntry>> = Vec::new();
        let ghost mut bands: Seq<BandDir> = Seq::empty();
        let mut whole = false;
        assert(before_problems.take(before_problems.len() as int) =~= before_problems);
        match Band::open(dirs, band_id) {
            Ok(band) => {
                chain.push(band.iter_entries());
                whole = band.is_whole();
                report_unreadable(band.hunks(), band_id, monitor);
                proof {
                    bands = seq![band.dir()];
                    assert(bands.drop_last() =~= Seq::<BandDir>::empty());
                    assert(chain_unreadable(bands.drop_last()) == 0);
                    assert(chain_views(chain@) =~= chain_entries(bands));
                    assert(monitor.collected().take(before_problems.len() as int)
                        =~= before_problems);
                }
            },
            Err(_) => {
                assert(chain_views(chain@) =~= chain_entries(bands));
            },
        }
        assert(forall|i: int|
            0 <= i < chain@.len() ==> strictly_sorted(#[trigger] chain_views(chain@)[i]));
        if !whole {
            let ids = archive.list_bands();
            let mut earlier: Vec<BandId> = Vec::new();
            let mut i: usize = 0;
            assert(id_views(ids@).take(0) =~= Seq::<Seq<u32>>::empty());
            assert(id_views(earlier@) =~= Seq::<Seq<u32>>::empty());
            while i < ids.len()
                invariant
                    i <= ids@.len(),
                    id_views(earlier@) == ids_before(id_views(ids@).take(i as int), band_id@),
                decreases ids@.len() - i,
            {
                proof {
                    assert(id_views(ids@).take(i + 1).drop_last() =~= id_views(ids@).take(
                        i as int,
                    ));
                    assert(id_views(ids@).take(i + 1).last() == ids@[i as int]@);
                }
                if ids[i].compare(band_id) < 0 {
                    let ghost prev = id_views(earlier@);
                    earlier.push(ids[i].clone());
                    assert(id_views(earlier@) =~= prev.push(ids@[i as int]@));
                }
                i += 1;
            }
            proof {
                assert(id_views(ids@).take(ids@.len() as int) =~= id_views(ids@));
            }
            let ghost older = id_views(earlier@);
            let ghost first = bands;
            let mut n: usize = earlier.len();
            assert(older.take(n as int) =~= older);
            assert(first + Seq::<BandDir>::empty() =~= first);
            while n > 0 && !whole
                invariant
                    n <= earlier@.len(),
                    older == id_views(earlier@),
                    dirs@ == archive@.dirs@,
                    first + chain_below(dirs@, older) == bands + (if whole {
                        Seq::<BandDir>::empty()
                    } else {
                        chain_below(dirs@, older.take(n as int))
                    }),
                    chain_views(chain@) == chain_entries(bands),
                    forall|i: int|
                        0 <= i < chain@.len() ==> strictly_sorted(
                            #[trigger] chain_views(chain@)[i],
                        ),
                    monitor.collected().len() == before_problems.len() + chain_unreadable(bands),
                    monitor.collected().take(before_problems.len() as int) == before_problems,
                    forall|j: int|
                        before_problems.len() <= j < monitor.collected().len() ==> (
                        #[trigger] monitor.collected()[j]).error is IndexCorrupt,
                    monitor.counters() == old(monitor).counters(),
                    monitor.started_files() == old(monitor).started_files(),
                    monitor.tasks() == old(monitor).tasks(),
                decreases n,
            {
                proof {
                    assert(older.take(n as int).last() == earlier@[n - 1]@);
                    assert(older.take(n as int).drop_last() =~= older.take(n - 1));
                }
                n -= 1;
                match Band::open(dirs, &earlier[n]) {
                    Ok(band) => {
                        if band.is_closed() {
                            let ghost prev_bands = bands;
                            let ghost prev_chain = chain@;
                            let ghost prev_problems = monitor.collected();
                            let found = band.iter_entries();
                            let ghost found_view = entry_views(found@);
                            chain.push(found);
                            whole = band.is_whole();
                            report_unreadable(band.hunks(), &earlier[n], monitor);
                            proof {
                                assert(chain_views(prev_chain).len() == chain_entries(
                                    prev_bands,
                                ).len());
                                bands = bands.push(band.dir());
                                assert(bands.drop_last() =~= prev_bands);
                                assert(bands.last() == band.dir());
                                assert(chain_views(chain@)[prev_chain.len() as int]
                                    == found_view);
                                assert forall|i: int| 0 <= i < chain@.len() implies (
                                #[trigger] chain_views(chain@)[i]) == chain_entries(bands)[i]
                                    && strictly_sorted(chain_views(chain@)[i]) by {
                                    if i < prev_chain.len() {
                                        assert(chain@[i] == prev_chain[i]);
                                        assert(chain_views(prev_chain)[i] == chain_entries(
                                            prev_bands,
                                        )[i]);
                                        assert(strictly_sorted(chain_views(prev_chain)[i]));
                                    }
                                }
                                assert(chain_views(chain@) =~= chain_entries(bands));
                                assert(monitor.collected().take(before_problems.len() as int)
                                    =~= prev_problems.take(before_problems.len() as int));
                                assert forall|j: int|
                                    before_problems.len() <= j
                                        < monitor.collected().len() implies (
                                #[trigger] monitor.collected()[j]).error is IndexCorrupt by {
                                    if j < prev_problems.len() {
                                        assert(monitor.collected().take(
                                            prev_problems.len() as int,
                                        )[j] == prev_problems[j]);
                                    }
                                }
                                let rest = chain_below(dirs@, older.take(n as int));
                                assert(prev_bands + (seq![band.dir()] + rest) =~= bands + rest);
                                assert(prev_bands + seq![band.dir()] =~= bands
                                    + Seq::<BandDir>::empty());
                            }
                        }
                    },
                    Err(_) => {},
                }
            }
            proof {
                if !whole {
                    assert(older.take(0) =~= Seq::<Seq<u32>>::empty());
                }
                assert(bands + Seq::<BandDir>::empty() =~= bands);
            }
        }
        let stitched = stitch_chain(&chain);
        let entries = select(&stitched, subtree, exclude);
        let stitch = Stitch { entries, next: 0 };
        proof {
            assert(stitch@ =~= entry_views(entries@));
            lemma_walk_unique(
                stitch@,
                tree_chain(archive@.dirs@, band_id@),
                subtree@,
                exclude@,
            );
        }
        stitch
    }

    /// The walk never points past its last entry.
    #[verifier::type_invariant]
    closed spec fn well_formed(&self) -> bool {
        self.next <= self.entries@.len()
    }

    /// The next entry, or `None` where the walk has ended.
    pub fn next(&mut self) -> (r: Option<IndexEntry>)
        ensures
            match r {
                Some(e) => old(self)@.len() > 0
                    && e@ == old(self)@[0]
                    && final(self)@ == old(self)@.skip(1),
                None => old(self)@.len() == 0 && final(self)@.len() == 0,
            },
    {
        proof {
            use_type_invariant(&*self);
        }
        if self.next < self.entries.len() {
            let e = self.entries[self.next].clone();
            self.next = self.next + 1;
            assert(self@ =~= old(self)@.skip(1));
            Some(e)
        } else {
            None
        }
    }

    /// All entries that are still to come, in order.
    pub fn collect_all(self) -> (all: Vec<IndexEntry>)
        ensures
            entry_views(all@) == self@,
    {
        proof {
            use_type_invariant(&self);
        }
        let mut all: Vec<IndexEntry> = Vec::new();
        let mut k: usize = self.next;
        while k < self.entries.len()
            invariant
                self.next <= k <= self.entries@.len(),
                all@.len() == k - self.next,
                forall|j: int| 0 <= j < all@.len() ==> all@[j]@ == self.entries@[self.next + j]@,
            decreases self.entries@.len() - k,
        {
            all.push(self.entries[k].clone());
            k += 1;
        }
        assert(entry_views(all@) =~= self@);
        all
    }
}

/// The lengths of the files among the entries `s`, added up.
pub open spec fn total_size(s: Seq<EntryView>) -> nat
    decreases s.len(),
{
    if s.len() == 0 {
        0
    } else {
        total_size(s.drop_last()) + file_size(s.last())
    }
}

/// The length that the entry `e` adds to the size of its tree: that of a
/// file, and nothing for anything else.
pub open spec fn file_size(e: EntryView) -> nat {
    match e.size {
        Some(n) => if e.kind == Kind::File {
            n as nat
        } else {
            0
        },
        None => 0,
    }
}

/// How many of the entries `s` are files of a known length.
pub open spec fn sized_files(s: Seq<EntryView>) -> nat
    decreases s.len(),
{
    if s.len() == 0 {
        0
    } else {
        sized_files(s.drop_last()) + if s.last().kind == Kind::File && s.last().size is Some {
            1nat
        } else {
            0nat
        }
    }
}

/// No run holds more files than entries.
pub proof fn lemma_sized_files_bounded(s: Seq<EntryView>)
    ensures
        sized_files(s) <= s.len(),
    decreases s.len(),
{
    if s.len() > 0 {
        lemma_sized_files_bounded(s.drop_last());
    }
}

/// Read index and file contents for a version stored in the archive.
pub struct StoredTree<'a> {
    band: Band<'a>,
    archive: &'a Archive,
}

impl<'a> StoredTree<'a> {
    /// The archive that the tree is stored in.
    pub closed spec fn archive(&self) -> Archive {
        *self.archive
    }

    /// The band of the tree.
    pub closed spec fn band_view(&self) -> Band<'a> {
        self.band
    }

    /// The band of a stored tree is a band of its archive, under its own
    /// name.
    #[verifier::type_invariant]
    pub closed spec fn well_formed(&self) -> bool {
        let k = first_named(self.archive@.dirs@, band_text(self.band.id_view()));
        k < self.archive@.dirs@.len() && self.band.dir() == self.archive@.dirs@[k]
    }

    /// Opens the tree of the band `band_id` of `archive`.
    ///
    /// Fails as [`Band::open`] does.
    pub fn open(archive: &'a Archive, band_id: &BandId) -> (r: Result<StoredTree<'a>, Error>)
        ensures
            match r {
                Ok(tree) => {
                    &&& band_opens(archive@.dirs@, band_id@)
                    &&& tree.archive() == *archive
                    &&& tree.band_view().dir() == archive@.dirs@[first_named(
                        archive@.dirs@,
                        band_text(band_id@),
                    )]
                    &&& tree.band_view().id_view() == band_id@
                },
                Err(e) => !band_opens(archive@.dirs@, band_id@) && fails_to_open(
                    archive@.dirs@,
                    band_id@,
                    e,
                ),
            },
    {
        match Band::open(&archive.storage().dirs, band_id) {
            Ok(band) => Ok(StoredTree { band, archive }),
            Err(e) => Err(e),
        }
    }

    /// The band of the tree.
    pub fn band(&self) -> (band: &Band<'a>)
        ensures
            *band == self.band_view(),
    {
        &self.band
    }

    /// Whether the band of the tree was completed.
    pub fn is_closed(&self) -> (r: bool)
        ensures
            r == closed(self.band_view().dir()),
    {
        self.band.is_closed()
    }

    /// Return the entries of this stored tree below `subtree`, without
    /// what `exclude` leaves out, as [`Stitch::new`] does.
    pub fn iter_entries(
        &self,
        subtree: Apath,
        exclude: Exclude,
        monitor: &mut CollectMonitor,
    ) -> (stitch: Stitch)
        ensures
            is_walk(
                stitch@,
                tree_chain(self.archive()@.dirs@, self.band_view().id_view()),
                subtree@,
                exclude@,
            ),
            stitch@ == walk_of(
                tree_chain(self.archive()@.dirs@, self.band_view().id_view()),
                subtree@,
                exclude@,
            ),
            final(monitor).collected().len() == old(monitor).collected().len() + chain_unreadable(
                tree_chain(self.archive()@.dirs@, self.band_view().id_view()),
            ),
            continues(old(monitor).collected(), final(monitor).collected()),
            final(monitor).counters() == old(monitor).counters(),
            final(monitor).started_files() == old(monitor).started_files(),
            final(monitor).tasks() == old(monitor).tasks(),
    {
        let id = self.band.id();
        Stitch::new(self.archive, &id, &subtree, &exclude, monitor)
    }

    /// Measures the tree: adds up the lengths of its files, leaving out
    /// what `exclude` leaves out.
    ///
    /// The work is announced to `monitor` as the task `Measure tree`, and
    /// the number of files and their bytes are added to the counters
    /// `Files` and `FileBytes`. The sum stops at the largest number that it
    /// can hold.
    pub fn size(&self, exclude: Exclude, monitor: &mut CollectMonitor) -> (size: TreeSize)
        ensures
            ({
                let walk = walk_of(
                    tree_chain(self.archive()@.dirs@, self.band_view().id_view()),
                    seq![crate::apath::SEPARATOR],
                    exclude@,
                );
                &&& size.file_bytes == clip_u64(total_size(walk))
                &&& final(monitor).counters()@ == old(monitor).counters()@.update(
                    Counter::Files.index_of(),
                    old(monitor).counters().value(Counter::Files).wrapping_add(
                        sized_files(walk) as usize,
                    ),
                ).update(
                    Counter::FileBytes.index_of(),
                    old(monitor).counters().value(Counter::FileBytes).wrapping_add(
                        clip_usize(total_size(walk)),
                    ),
                )
            }),
            final(monitor).tasks().len() == old(monitor).tasks().len() + 1,
            final(monitor).tasks().last()@ == "Measure tree"@,
            final(monitor).tasks().drop_last() == old(monitor).tasks(),
            final(monitor).started_files() == old(monitor).started_files(),
            final(monitor).collected().len() == old(monitor).collected().len() + chain_unreadable(
                tree_chain(self.archive()@.dirs@, self.band_view().id_view()),
            ),
            continues(old(monitor).collected(), final(monitor).collected()),
    {
        let task_name = "Measure tree".to_owned();
        let mut task = monitor.start_task(task_name);
        let root = Apath::root();
        let stitch = self.iter_entries(root, exclude, monitor);
        let ghost walk = stitch@;
        let entries = stitch.collect_all();
        let mut file_bytes: u64 = 0;
        let mut files: usize = 0;
        let mut k: usize = 0;
        assert(walk.take(0) =~= Seq::<EntryView>::empty());
        while k < entries.len()
            invariant
                k <= entries@.len(),
                walk == entry_views(entries@),
                file_bytes == clip_u64(total_size(walk.take(k as int))),
                files == sized_files(walk.take(k as int)),
            decreases entries@.len() - k,
        {
            proof {
                assert(walk.take(k + 1).drop_last() =~= walk.take(k as int));
                assert(walk.take(k + 1).last() == entries@[k as int]@);
                lemma_sized_files_bounded(walk.take(k as int));
            }
            let e = &entries[k];
            match e.size {
                Some(bytes) => {
                    if e.kind == Kind::File {
                        files = files + 1;
                        file_bytes = file_bytes.saturating_add(bytes);
                        task.increment(
                            if bytes > usize::MAX as u64 {
                                usize::MAX
                            } else {
                                bytes as usize
                            },
                        );
                    }
                },
                None => {},
            }
            k += 1;
        }
        assert(walk.take(entries@.len() as int) =~= walk);
        let ghost c0 = monitor.counters();
        monitor.count(Counter::Files, files);
        monitor.count(
            Counter::FileBytes,
            if file_bytes > usize::MAX as u64 {
                usize::MAX
            } else {
                file_bytes as usize
            },
        );
        proof {
            c0.lemma_len();
        }
        TreeSize { file_bytes }
    }
}

impl Archive {
    /// Opens the tree of the band that `policy` selects, as [`selected`]
    /// says.
    ///
    /// For the newest band: fails with `ArchiveEmpty` where there is no
    /// band. For the newest complete band: the bands are tried from the
    /// newest on, as [`Archive::last_complete_band`] does; fails with
    /// `ArchiveEmpty` where there is no band and with `BandIncomplete`
    /// where none is complete. In any case: fails as [`Band::open`] does
    /// where a band that is tried does not open.
    pub fn open_stored_tree(&self, policy: BandSelectionPolicy) -> (r: Result<
        StoredTree<'_>,
        Error,
    >)
        ensures
            match r {
                Ok(tree) => {
                    &&& selected(self@.dirs@, policy) == Some(tree.band_view().id_view())
                    &&& tree.archive() == *self
                    &&& tree.band_view().dir() == self@.dirs@[first_named(
                        self@.dirs@,
                        band_text(tree.band_view().id_view()),
                    )]
                },
                Err(e) => selected(self@.dirs@, policy) is None && selection_fails(
                    self@.dirs@,
                    policy,
                    e,
                ),
            },
    {
        match policy {
            BandSelectionPolicy::Latest => match self.last_band_id() {
                Some(id) => StoredTree::open(self, &id),
                None => Err(Error::ArchiveEmpty),
            },
            BandSelectionPolicy::LatestClosed => {
                let ids = self.list_bands();
                if ids.len() == 0 {
                    return Err(Error::ArchiveEmpty);
                }
                let ghost all = id_views(ids@);
                let mut n: usize = ids.len();
                assert(all.take(n as int) =~= all);
                while n > 0
                    invariant
                        n <= ids@.len(),
                        ids@.len() > 0,
                        all == id_views(ids@),
                        all == sorted_ids(self@.dirs@),
                        policy is LatestClosed,
                        last_complete(self@.dirs@, all) == last_complete(
                            self@.dirs@,
                            all.take(n as int),
                        ),
                    decreases n,
                {
                    proof {
                        assert(all.take(n as int).last() == ids@[n - 1]@);
                        assert(all.take(n as int).drop_last() =~= all.take(n - 1));
                    }
                    n -= 1;
                    match StoredTree::open(self, &ids[n]) {
                        Ok(tree) => {
                            if tree.is_closed() {
                                return Ok(tree);
                            }
                        },
                        Err(e) => {
                            return Err(e);
                        },
                    }
                }
                proof {
                    assert(all.last() == ids@[ids@.len() - 1]@);
                }
                Err(Error::BandIncomplete { id: ids[ids.len() - 1].clone() })
            },
            BandSelectionPolicy::Specified(id) => StoredTree::open(self, &id),
        }
    }
}

} // verus!
