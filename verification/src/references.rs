//! The blocks that the bands of an archive refer to.

use crate::archive::{id_views, sorted_ids, Archive, Storage};
use crate::band::{band_entries, band_opens, fails_to_open, first_named, Band, BandDir};
use crate::bandid::band_text;
use crate::codec::is_block_name;
use crate::errors::Error;
use crate::index::{address_views, entry_views, Address, AddressView, EntryView, IndexEntry};
use crate::text::{same_text, texts};
use vstd::prelude::*;

verus! {

/// Whether one of the addresses `addrs` names the block `hash`.
pub open spec fn addrs_refer(addrs: Seq<AddressView>, hash: Seq<char>) -> bool {
    exists|a: int| 0 <= a < addrs.len() && (#[trigger] addrs[a]).hash == hash
}

/// Whether one of the entries `entries` has an address that names the
/// block `hash`.
pub open spec fn entries_refer(entries: Seq<EntryView>, hash: Seq<char>) -> bool {
    exists|i: int| 0 <= i < entries.len() && addrs_refer((#[trigger] entries[i]).addrs, hash)
}

/// Whether the band `id` shows an entry with an address that names the
/// block `hash`.
pub open spec fn band_refers(dirs: Seq<BandDir>, id: Seq<u32>, hash: Seq<char>) -> bool {
    let k = first_named(dirs, band_text(id));
    k < dirs.len() && entries_refer(band_entries(dirs[k]), hash)
}

/// Whether one of the bands `ids` shows an entry with an address that
/// names the block `hash`.
pub open spec fn bands_refer(dirs: Seq<BandDir>, ids: Seq<Seq<u32>>, hash: Seq<char>) -> bool {
    exists|n: int| 0 <= n < ids.len() && band_refers(dirs, #[trigger] ids[n], hash)
}

/// Whether every one of the bands `ids` opens.
pub open spec fn all_open(dirs: Seq<BandDir>, ids: Seq<Seq<u32>>) -> bool {
    forall|n: int| 0 <= n < ids.len() ==> band_opens(dirs, #[trigger] ids[n])
}

/// The first of the bands `ids` that does not open, where there is one.
pub open spec fn first_unopened(dirs: Seq<BandDir>, ids: Seq<Seq<u32>>) -> Option<Seq<u32>>
    decreases ids.len(),
{
    if ids.len() == 0 {
        None
    } else {
        match first_unopened(dirs, ids.drop_last()) {
            Some(id) => Some(id),
            None => if band_opens(dirs, ids.last()) {
                None
            } else {
                Some(ids.last())
            },
        }
    }
}

/// The first band that does not open among the first `k` of `ids` is the
/// first that does not open among all of them.
pub proof fn lemma_first_unopened_found(dirs: Seq<BandDir>, ids: Seq<Seq<u32>>, k: int)
    requires
        0 <= k <= ids.len(),
        first_unopened(dirs, ids.take(k)) is Some,
    ensures
        first_unopened(dirs, ids) == first_unopened(dirs, ids.take(k)),
    decreases ids.len(),
{
    if k == ids.len() {
        assert(ids.take(k) =~= ids);
    } else {
        assert(ids.drop_last().take(k) =~= ids.take(k));
        lemma_first_unopened_found(dirs, ids.drop_last(), k);
    }
}

/// Every band opens exactly where none is the first that does not.
pub proof fn lemma_all_open(dirs: Seq<BandDir>, ids: Seq<Seq<u32>>)
    ensures
        all_open(dirs, ids) <==> first_unopened(dirs, ids) is None,
        first_unopened(dirs, ids) matches Some(id) ==> ids.contains(id) && !band_opens(dirs, id),
    decreases ids.len(),
{
    if ids.len() > 0 {
        let front = ids.drop_last();
        lemma_all_open(dirs, front);
        if all_open(dirs, ids) {
            assert forall|n: int| 0 <= n < front.len() implies band_opens(
                dirs,
                #[trigger] front[n],
            ) by {
                assert(front[n] == ids[n]);
            }
            assert(ids[ids.len() - 1] == ids.last());
        }
        if first_unopened(dirs, ids) is None {
            assert forall|n: int| 0 <= n < ids.len() implies band_opens(
                dirs,
                #[trigger] ids[n],
            ) by {
                if n < front.len() {
                    assert(front[n] == ids[n]);
                }
            }
        }
        match first_unopened(dirs, front) {
            Some(id) => {
                let n = front.index_of(id);
                assert(front[n] == id);
                assert(ids[n] == id);
            },
            None => {
                assert(ids[ids.len() - 1] == ids.last());
            },
        }
    }
}

/// Whether every block that an entry in `storage` names is stored there,
/// under a name of the form of a hash: whatever a directory of the archive
/// shows refers to blocks of its block directory only.
pub open spec fn resolved(storage: Storage) -> bool {
    forall|k: int, hash: Seq<char>|
        0 <= k < storage.dirs@.len() && #[trigger] entries_refer(
            band_entries(storage.dirs@[k]),
            hash,
        ) ==> storage.block_dir@.contains_key(hash) && is_block_name(hash)
}

/// Whether every block that an entry of the band in `dir` names is among
/// `blocks`, under a name of the form of a hash.
pub open spec fn band_resolved(dir: BandDir, blocks: Map<Seq<char>, Seq<u8>>) -> bool {
    forall|hash: Seq<char>| #[trigger]
        entries_refer(band_entries(dir), hash) ==> blocks.contains_key(hash) && is_block_name(
            hash,
        )
}

/// The references of an archive stay resolved where no block is taken
/// away and each band keeps the hunks of its index or refers to stored
/// blocks only.
pub proof fn lemma_resolved_kept(before: Storage, after: Storage)
    requires
        resolved(before),
        forall|h: Seq<char>| #[trigger]
            before.block_dir@.contains_key(h) ==> after.block_dir@.contains_key(h),
        forall|j: int|
            0 <= j < after.dirs@.len() ==> band_resolved(
                #[trigger] after.dirs@[j],
                after.block_dir@,
            ) || (j < before.dirs@.len() && after.dirs@[j].hunks@ == before.dirs@[j].hunks@),
    ensures
        resolved(after),
{
    assert forall|k: int, hash: Seq<char>|
        0 <= k < after.dirs@.len() && #[trigger] entries_refer(
            band_entries(after.dirs@[k]),
            hash,
        ) implies after.block_dir@.contains_key(hash) && is_block_name(hash) by {
        if band_resolved(after.dirs@[k], after.block_dir@) {
        } else {
            assert(band_entries(after.dirs@[k]) == band_entries(before.dirs@[k]));
            assert(entries_refer(band_entries(before.dirs@[k]), hash));
            assert(before.block_dir@.contains_key(hash));
        }
    }
}

/// A band without hunks refers to no block.
pub proof fn lemma_empty_band_resolved(dir: BandDir, blocks: Map<Seq<char>, Seq<u8>>)
    requires
        dir.hunks@.len() == 0,
    ensures
        band_resolved(dir, blocks),
{
    assert(band_entries(dir).len() == 0);
}

/// In an archive whose references are resolved, every block that a band
/// refers to is a block of the block directory, as `BlockDir::list` shows
/// them.
pub proof fn lemma_referenced_are_listed(storage: Storage, ids: Seq<Seq<u32>>, hash: Seq<char>)
    requires
        resolved(storage),
        bands_refer(storage.dirs@, ids, hash),
    ensures
        storage.block_dir@.contains_key(hash),
        is_block_name(hash),
{
    let n = choose|n: int| 0 <= n < ids.len()
        && band_refers(storage.dirs@, #[trigger] ids[n], hash);
    let k = first_named(storage.dirs@, band_text(ids[n]));
    crate::band::lemma_first_named_bounds(storage.dirs@, band_text(ids[n]));
    assert(entries_refer(band_entries(storage.dirs@[k]), hash));
}

/// Adds `hash` to the set `out`, unless it is there.
fn add_hash(out: &mut Vec<String>, hash: &str)
    requires
        texts(old(out)@).no_duplicates(),
    ensures
        texts(final(out)@).no_duplicates(),
        forall|h: Seq<char>| #[trigger]
            texts(final(out)@).contains(h) <==> texts(old(out)@).contains(h) || h == hash@,
{
    let ghost before = texts(out@);
    let mut i: usize = 0;
    while i < out.len()
        invariant
            i <= out@.len(),
            before == texts(out@),
            out@ == old(out)@,
            before.no_duplicates(),
            forall|j: int| 0 <= j < i ==> #[trigger] before[j] != hash@,
        decreases out@.len() - i,
    {
        if same_text(out[i].as_str(), hash) {
            assert(before[i as int] == hash@);
            return ;
        }
        assert(before[i as int] == out@[i as int]@);
        i += 1;
    }
    out.push(hash.to_owned());
    proof {
        let after = texts(out@);
        assert(after =~= before.push(hash@));
        assert forall|h: Seq<char>| #[trigger] after.contains(h) <==> before.contains(h) || h
            == hash@ by {
            if before.contains(h) {
                let j = before.index_of(h);
                assert(after[j] == h);
            }
            if h == hash@ {
                assert(after[before.len() as int] == h);
            }
            if after.contains(h) {
                let j = after.index_of(h);
                if j < before.len() {
                    assert(before[j] == h);
                }
            }
        }
    }
}

/// Adds to the set `out` the hashes that the addresses `addrs` name.
fn collect_addrs(out: &mut Vec<String>, addrs: &Vec<Address>)
    requires
        texts(old(out)@).no_duplicates(),
    ensures
        texts(final(out)@).no_duplicates(),
        forall|h: Seq<char>| #[trigger]
            texts(final(out)@).contains(h) <==> texts(old(out)@).contains(h) || addrs_refer(
                address_views(addrs@),
                h,
            ),
{
    let ghost views = address_views(addrs@);
    let mut a: usize = 0;
    while a < addrs.len()
        invariant
            a <= addrs@.len(),
            views == address_views(addrs@),
            texts(out@).no_duplicates(),
            forall|h: Seq<char>| #[trigger]
                texts(out@).contains(h) <==> texts(old(out)@).contains(h) || addrs_refer(
                    views.take(a as int),
                    h,
                ),
        decreases addrs@.len() - a,
    {
        let ghost before = texts(out@);
        add_hash(out, addrs[a].hash.as_str());
        proof {
            let was = views.take(a as int);
            let now = views.take(a + 1);
            assert(views[a as int] == addrs@[a as int]@);
            assert forall|h: Seq<char>| #[trigger]
                texts(out@).contains(h) <==> texts(old(out)@).contains(h) || addrs_refer(
                    now,
                    h,
                ) by {
                assert(before.contains(h) <==> texts(old(out)@).contains(h) || addrs_refer(
                    was,
                    h,
                ));
                if addrs_refer(was, h) {
                    let j = choose|j: int| 0 <= j < was.len() && (#[trigger] was[j]).hash == h;
                    assert(now[j].hash == h);
                }
                if addrs_refer(now, h) {
                    let j = choose|j: int| 0 <= j < now.len() && (#[trigger] now[j]).hash == h;
                    if j < a {
                        assert(was[j].hash == h);
                    }
                }
                if h == addrs@[a as int].hash@ {
                    assert(now[a as int].hash == h);
                }
            }
        }
        a += 1;
    }
    assert(views.take(addrs@.len() as int) =~= views);
}

/// Adds to the set `out` the hashes that the addresses of the entries
/// `entries` name.
fn collect_entries(out: &mut Vec<String>, entries: &Vec<IndexEntry>)
    requires
        texts(old(out)@).no_duplicates(),
    ensures
        texts(final(out)@).no_duplicates(),
        forall|h: Seq<char>| #[trigger]
            texts(final(out)@).contains(h) <==> texts(old(out)@).contains(h) || entries_refer(
                entry_views(entries@),
                h,
            ),
{
    let ghost views = entry_views(entries@);
    let mut i: usize = 0;
    while i < entries.len()
        invariant
            i <= entries@.len(),
            views == entry_views(entries@),
            texts(out@).no_duplicates(),
            forall|h: Seq<char>| #[trigger]
                texts(out@).contains(h) <==> texts(old(out)@).contains(h) || entries_refer(
                    views.take(i as int),
                    h,
                ),
        decreases entries@.len() - i,
    {
        let ghost before = texts(out@);
        collect_addrs(out, &entries[i].addrs);
        proof {
            let was = views.take(i as int);
            let now = views.take(i + 1);
            assert(views[i as int] == entries@[i as int]@);
            assert forall|h: Seq<char>| #[trigger]
                texts(out@).contains(h) <==> texts(old(out)@).contains(h) || entries_refer(
                    now,
                    h,
                ) by {
                assert(before.contains(h) <==> texts(old(out)@).contains(h) || entries_refer(
                    was,
                    h,
                ));
                if entries_refer(was, h) {
                    let j = choose|j: int|
                        0 <= j < was.len() && addrs_refer((#[trigger] was[j]).addrs, h);
                    assert(addrs_refer(now[j].addrs, h));
                }
                if entries_refer(now, h) {
                    let j = choose|j: int|
                        0 <= j < now.len() && addrs_refer((#[trigger] now[j]).addrs, h);
                    if j < i {
                        assert(addrs_refer(was[j].addrs, h));
                    }
                }
                if addrs_refer(entries@[i as int]@.addrs, h) {
                    assert(addrs_refer(now[i as int].addrs, h));
                }
            }
        }
        i += 1;
    }
    assert(views.take(entries@.len() as int) =~= views);
}

impl Archive {
    /// The hashes of all the blocks that the bands of the archive refer
    /// to, each once.
    ///
    /// In an archive whose references are resolved, each of them is the
    /// name of a block that is stored.
    ///
    /// Fails where one of the bands cannot be opened, with the error of
    /// the first such band.
    pub fn referenced_blocks(&self) -> (r: Result<Vec<String>, Error>)
        ensures
            match r {
                Ok(hashes) => {
                    &&& all_open(self@.dirs@, sorted_ids(self@.dirs@))
                    &&& texts(hashes@).no_duplicates()
                    &&& forall|h: Seq<char>| #[trigger]
                        texts(hashes@).contains(h) <==> bands_refer(
                            self@.dirs@,
                            sorted_ids(self@.dirs@),
                            h,
                        )
                    &&& resolved(self@) ==> forall|h: Seq<char>| #[trigger]
                        texts(hashes@).contains(h) ==> self@.block_dir@.contains_key(h)
                            && is_block_name(h)
                },
                Err(e) => {
                    &&& !all_open(self@.dirs@, sorted_ids(self@.dirs@))
                    &&& first_unopened(self@.dirs@, sorted_ids(self@.dirs@)) matches Some(id)
                    &&& fails_to_open(self@.dirs@, id, e)
                },
            },
    {
        let ids = self.list_bands();
        let ghost all = id_views(ids@);
        let ghost dirs = self@.dirs@;
        let mut out: Vec<String> = Vec::new();
        let mut n: usize = 0;
        while n < ids.len()
            invariant
                n <= ids@.len(),
                all == id_views(ids@),
                all == sorted_ids(self@.dirs@),
                dirs == self@.dirs@,
                all_open(dirs, all.take(n as int)),
                first_unopened(dirs, all.take(n as int)) is None,
                texts(out@).no_duplicates(),
                forall|h: Seq<char>| #[trigger]
                    texts(out@).contains(h) <==> bands_refer(dirs, all.take(n as int), h),
            decreases ids@.len() - n,
        {
            let ghost was = all.take(n as int);
            let ghost now = all.take(n + 1);
            let ghost before = texts(out@);
            assert(now[n as int] == ids@[n as int]@);
            let band = match Band::open(&self.storage().dirs, &ids[n]) {
                Ok(band) => band,
                Err(e) => {
                    proof {
                        assert(all[n as int] == ids@[n as int]@);
                        assert(now.drop_last() =~= was);
                        assert(now.last() == all[n as int]);
                        lemma_first_unopened_found(dirs, all, n + 1);
                        lemma_all_open(dirs, all);
                    }
                    return Err(e);
                },
            };
            let entries = band.iter_entries();
            collect_entries(&mut out, &entries);
            proof {
                assert forall|m: int| 0 <= m < now.len() implies band_opens(
                    dirs,
                    #[trigger] now[m],
                ) by {
                    if m < n {
                        assert(was[m] == now[m]);
                    }
                }
                assert(now.drop_last() =~= was);
                assert(now.last() == all[n as int]);
                assert forall|h: Seq<char>| #[trigger]
                    texts(out@).contains(h) <==> bands_refer(dirs, now, h) by {
                    assert(before.contains(h) <==> bands_refer(dirs, was, h));
                    if bands_refer(dirs, was, h) {
                        let m = choose|m: int|
                            0 <= m < was.len() && band_refers(dirs, #[trigger] was[m], h);
                        assert(band_refers(dirs, now[m], h));
                    }
                    if bands_refer(dirs, now, h) {
                        let m = choose|m: int|
                            0 <= m < now.len() && band_refers(dirs, #[trigger] now[m], h);
                        if m < n {
                            assert(band_refers(dirs, was[m], h));
                        }
                    }
                    if band_refers(dirs, ids@[n as int]@, h) {
                        assert(band_refers(dirs, now[n as int], h));
                    }
                }
            }
            n += 1;
        }
        proof {
            assert(all.take(ids@.len() as int) =~= all);
            if resolved(self@) {
                assert forall|h: Seq<char>| #[trigger]
                    texts(out@).contains(h) implies self@.block_dir@.contains_key(h)
                    && is_block_name(h) by {
                    assert(bands_refer(dirs, all, h));
                    lemma_referenced_are_listed(self@, all, h);
                }
            }
        }
        Ok(out)
    }
}

} // verus!
