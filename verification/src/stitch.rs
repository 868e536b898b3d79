//! Stitching: one view of a tree from a band and the bands before it.
//!
//! A band that was never finished, or that has lost hunks, shows only a
//! part of its tree. The stitcher lays it over the bands before it: of each
//! apath it shows the entry of the newest band that holds it.

use crate::apath::{
    apath_order, lemma_apath_order_antisymmetric, lemma_apath_order_equal,
    lemma_apath_order_transitive,
};
use crate::index::{entry_views, strictly_sorted, EntryView, IndexEntry};
use vstd::prelude::*;

verus! {

/// Whether one of the entries `s` has the apath `p`.
pub open spec fn has_apath(s: Seq<EntryView>, p: Seq<u8>) -> bool {
    exists|i: int| 0 <= i < s.len() && (#[trigger] s[i]).apath == p
}

/// Whether `e` is shown where `newer` is laid over `older`: it is in
/// `newer`, or it is in `older` and `newer` has nothing of its apath.
pub open spec fn laid_over(newer: Seq<EntryView>, older: Seq<EntryView>, e: EntryView) -> bool {
    newer.contains(e) || (older.contains(e) && !has_apath(newer, e.apath))
}

/// Whether `e` is what the chain of bands `chain`, newest first, shows for
/// its apath: it is an entry of the newest band that has that apath.
pub open spec fn shown(chain: Seq<Seq<EntryView>>, e: EntryView) -> bool
    decreases chain.len(),
{
    if chain.len() == 0 {
        false
    } else if has_apath(chain[0], e.apath) {
        chain[0].contains(e)
    } else {
        shown(chain.drop_first(), e)
    }
}

/// The models of the entries of each band of `chain`.
pub open spec fn chain_views(chain: Seq<Vec<IndexEntry>>) -> Seq<Seq<EntryView>> {
    Seq::new(chain.len(), |i: int| entry_views(chain[i]@))
}

/// In an ascending run every entry stands before all that follow the next.
proof fn lemma_sorted_before(s: Seq<EntryView>, e: EntryView, from: int)
    requires
        strictly_sorted(s),
        0 <= from < s.len(),
        apath_order(e.apath, s[from].apath) < 0,
    ensures
        forall|m: int| from <= m < s.len() ==> apath_order(e.apath, (#[trigger] s[m]).apath) < 0,
{
    assert forall|m: int| from <= m < s.len() implies apath_order(
        e.apath,
        (#[trigger] s[m]).apath,
    ) < 0 by {
        if m > from {
            assert(apath_order(s[from].apath, s[m].apath) < 0);
            lemma_apath_order_transitive(e.apath, s[from].apath, s[m].apath);
        }
    }
}

/// Lays the entries `newer` over the entries `older`: the result holds all
/// of `newer` and those of `older` whose apath `newer` does not have, in
/// ascending order of apath.
#[verifier::rlimit(40)]
pub fn merge_newer(newer: &Vec<IndexEntry>, older: &Vec<IndexEntry>) -> (out: Vec<IndexEntry>)
    requires
        strictly_sorted(entry_views(newer@)),
        strictly_sorted(entry_views(older@)),
    ensures
        strictly_sorted(entry_views(out@)),
        forall|e: EntryView| #[trigger]
            entry_views(out@).contains(e) <==> laid_over(
                entry_views(newer@),
                entry_views(older@),
                e,
            ),
{
    let ghost a = entry_views(newer@);
    let ghost b = entry_views(older@);
    let mut out: Vec<IndexEntry> = Vec::new();
    let mut i: usize = 0;
    let mut j: usize = 0;
    // Where each entry of the result came from, and where each entry of the
    // two sides went: -1 for an entry of `older` that `newer` replaces.
    let ghost mut from_newer: Seq<bool> = Seq::empty();
    let ghost mut origin: Seq<int> = Seq::empty();
    let ghost mut place_a: Seq<int> = Seq::empty();
    let ghost mut place_b: Seq<int> = Seq::empty();
    while i < newer.len() || j < older.len()
        invariant
            a == entry_views(newer@),
            b == entry_views(older@),
            strictly_sorted(a),
            strictly_sorted(b),
            i <= newer@.len(),
            j <= older@.len(),
            strictly_sorted(entry_views(out@)),
            out@.len() > 0 && i < a.len() ==> apath_order(
                out@[out@.len() - 1]@.apath,
                a[i as int].apath,
            ) < 0,
            out@.len() > 0 && j < b.len() ==> apath_order(
                out@[out@.len() - 1]@.apath,
                b[j as int].apath,
            ) < 0,
            from_newer.len() == out@.len(),
            origin.len() == out@.len(),
            place_a.len() == i,
            place_b.len() == j,
            forall|k: int|
                0 <= k < out@.len() ==> if #[trigger] from_newer[k] {
                    0 <= origin[k] < i && out@[k]@ == a[origin[k]]
                } else {
                    0 <= origin[k] < j && out@[k]@ == b[origin[k]] && !has_apath(
                        a,
                        out@[k]@.apath,
                    )
                },
            forall|m: int|
                0 <= m < i ==> 0 <= #[trigger] place_a[m] < out@.len() && out@[place_a[m]]@
                    == a[m],
            forall|m: int|
                0 <= m < j ==> if #[trigger] place_b[m] < 0 {
                    has_apath(a, b[m].apath)
                } else {
                    place_b[m] < out@.len() && out@[place_b[m]]@ == b[m]
                },
        decreases (newer@.len() - i) + (older@.len() - j),
    {
        let ghost prev = out@;
        let order: i8 = if i >= newer.len() {
            1
        } else if j >= older.len() {
            -1
        } else {
            newer[i].apath.compare(&older[j].apath)
        };
        proof {
            if i < a.len() {
                assert(a[i as int] == newer@[i as int]@);
            }
            if j < b.len() {
                assert(b[j as int] == older@[j as int]@);
            }
            if i < a.len() && j < b.len() {
                lemma_apath_order_antisymmetric(a[i as int].apath, b[j as int].apath);
                lemma_apath_order_equal(a[i as int].apath, b[j as int].apath);
            }
        }
        if order <= 0 {
            // The entry of `newer` comes next. Where `older` has the same
            // apath, its entry is passed over.
            let e = newer[i].clone();
            proof {
                crate::index::lemma_sorted_push(entry_views(prev), e@);
                if prev.len() > 0 {
                    assert(entry_views(prev).last() == prev[prev.len() - 1]@);
                }
            }
            out.push(e);
            proof {
                assert(entry_views(out@) =~= entry_views(prev).push(a[i as int]));
                from_newer = from_newer.push(true);
                origin = origin.push(i as int);
                place_a = place_a.push(prev.len() as int);
                if i + 1 < a.len() {
                    assert(apath_order(a[i as int].apath, a[i + 1].apath) < 0);
                }
                if order == 0 {
                    assert(has_apath(a, b[j as int].apath));
                    place_b = place_b.push(-1);
                    if j + 1 < b.len() {
                        assert(apath_order(b[j as int].apath, b[j + 1].apath) < 0);
                    }
                }
            }
            i += 1;
            if order == 0 {
                j += 1;
            }
        } else {
            // The entry of `older` comes next, and `newer` has nothing of
            // its apath: what it has stands before or after.
            let e = older[j].clone();
            proof {
                crate::index::lemma_sorted_push(entry_views(prev), e@);
                if prev.len() > 0 {
                    assert(entry_views(prev).last() == prev[prev.len() - 1]@);
                }
                assert(!has_apath(a, e@.apath)) by {
                    if has_apath(a, e@.apath) {
                        let m = choose|m: int| 0 <= m < a.len() && (#[trigger] a[m]).apath
                            == e@.apath;
                        lemma_apath_order_equal(a[m].apath, e@.apath);
                        if m < i {
                            let k = place_a[m];
                            assert(prev[k]@ == a[m]);
                            if k < prev.len() - 1 {
                                assert(apath_order(
                                    entry_views(prev)[k].apath,
                                    entry_views(prev)[prev.len() - 1].apath,
                                ) < 0);
                                lemma_apath_order_transitive(
                                    prev[k]@.apath,
                                    prev[prev.len() - 1]@.apath,
                                    e@.apath,
                                );
                            }
                        } else {
                            lemma_apath_order_antisymmetric(a[i as int].apath, e@.apath);
                            lemma_sorted_before(a, e@, i as int);
                            lemma_apath_order_antisymmetric(a[m].apath, e@.apath);
                        }
                    }
                }
            }
            out.push(e);
            proof {
                assert(entry_views(out@) =~= entry_views(prev).push(b[j as int]));
                from_newer = from_newer.push(false);
                origin = origin.push(j as int);
                place_b = place_b.push(prev.len() as int);
                if j + 1 < b.len() {
                    assert(apath_order(b[j as int].apath, b[j + 1].apath) < 0);
                }
                if i < a.len() {
                    lemma_apath_order_antisymmetric(a[i as int].apath, b[j as int].apath);
                }
            }
            j += 1;
        }
    }
    proof {
        let o = entry_views(out@);
        assert forall|e: EntryView| #[trigger] o.contains(e) <==> laid_over(a, b, e) by {
            if o.contains(e) {
                let k = o.index_of(e);
                assert(o[k] == e);
                if from_newer[k] {
                    assert(a[origin[k]] == e);
                } else {
                    assert(b[origin[k]] == e);
                }
            }
            if a.contains(e) {
                let m = a.index_of(e);
                assert(a[m] == e);
                assert(o[place_a[m]] == e);
            }
            if b.contains(e) && !has_apath(a, e.apath) {
                let m = b.index_of(e);
                assert(b[m] == e);
                assert(place_b[m] >= 0);
                assert(o[place_b[m]] == e);
            }
        }
    }
    out
}

/// Lays the bands of `chain` over one another, the first over the second
/// and so on: the result shows, for each apath that any of them holds, the
/// entry of the first band that holds it, in ascending order of apath.
pub fn stitch_chain(chain: &Vec<Vec<IndexEntry>>) -> (out: Vec<IndexEntry>)
    requires
        forall|i: int| 0 <= i < chain@.len() ==> strictly_sorted(#[trigger] chain_views(chain@)[i]),
    ensures
        is_stitched(entry_views(out@), chain_views(chain@)),
{
    let ghost bands = chain_views(chain@);
    let mut out: Vec<IndexEntry> = Vec::new();
    let mut k: usize = chain.len();
    assert(entry_views(out@) =~= Seq::<EntryView>::empty());
    assert(bands.skip(k as int).len() == 0);
    while k > 0
        invariant
            k <= chain@.len(),
            bands == chain_views(chain@),
            forall|i: int| 0 <= i < chain@.len() ==> strictly_sorted(#[trigger] bands[i]),
            strictly_sorted(entry_views(out@)),
            forall|e: EntryView| #[trigger]
                entry_views(out@).contains(e) <==> shown(bands.skip(k as int), e),
        decreases k,
    {
        k -= 1;
        let ghost older = entry_views(out@);
        proof {
            assert(strictly_sorted(bands[k as int]));
            assert(bands[k as int] == entry_views(chain@[k as int]@));
        }
        out = merge_newer(&chain[k], &out);
        proof {
            let rest = bands.skip(k as int);
            assert(rest[0] == bands[k as int]);
            assert(rest.drop_first() =~= bands.skip(k + 1));
            assert forall|e: EntryView| #[trigger]
                entry_views(out@).contains(e) <==> shown(rest, e) by {
                assert(older.contains(e) <==> shown(bands.skip(k + 1), e));
                if bands[k as int].contains(e) {
                    let m = bands[k as int].index_of(e);
                    assert(bands[k as int][m].apath == e.apath);
                }
            }
        }
    }
    assert(bands.skip(0) =~= bands);
    out
}

/// Whether `walk` is the stitched view of the chain of bands `chain`: it
/// ascends, and it holds exactly the entries that the chain shows.
pub open spec fn is_stitched(walk: Seq<EntryView>, chain: Seq<Seq<EntryView>>) -> bool {
    &&& strictly_sorted(walk)
    &&& forall|e: EntryView| #[trigger] walk.contains(e) <==> shown(chain, e)
}

/// An ascending run without its last entry ascends.
proof fn lemma_sorted_front(s: Seq<EntryView>)
    requires
        strictly_sorted(s),
        s.len() > 0,
    ensures
        strictly_sorted(s.drop_last()),
{
    let front = s.drop_last();
    assert forall|p: int, q: int| 0 <= p < q < front.len() implies apath_order(
        #[trigger] front[p].apath,
        #[trigger] front[q].apath,
    ) < 0 by {
        assert(front[p] == s[p] && front[q] == s[q]);
    }
}

/// The last entry of an ascending run comes before none of its entries.
proof fn lemma_last_is_greatest(s: Seq<EntryView>, e: EntryView)
    requires
        strictly_sorted(s),
        s.contains(e),
    ensures
        apath_order(e.apath, s.last().apath) <= 0,
        e != s.last() ==> apath_order(e.apath, s.last().apath) < 0,
{
    let i = s.index_of(e);
    assert(s[i] == e);
    if i < s.len() - 1 {
        assert(apath_order(s[i].apath, s[s.len() - 1].apath) < 0);
    } else {
        lemma_apath_order_equal(e.apath, s.last().apath);
    }
}

/// Two ascending runs that hold the same entries end with the same entry.
proof fn lemma_same_last(a: Seq<EntryView>, b: Seq<EntryView>)
    requires
        strictly_sorted(a),
        strictly_sorted(b),
        a.len() > 0,
        b.len() > 0,
        a.contains(b.last()),
        b.contains(a.last()),
    ensures
        a.last() == b.last(),
{
    lemma_last_is_greatest(a, b.last());
    lemma_last_is_greatest(b, a.last());
    lemma_apath_order_antisymmetric(a.last().apath, b.last().apath);
}

/// What an ascending run holds beside its last entry is what its front
/// holds.
proof fn lemma_front_members(s: Seq<EntryView>, e: EntryView)
    requires
        strictly_sorted(s),
        s.len() > 0,
    ensures
        s.drop_last().contains(e) <==> s.contains(e) && e != s.last(),
{
    let front = s.drop_last();
    if front.contains(e) {
        let p = front.index_of(e);
        assert(front[p] == e);
        assert(s[p] == e);
        lemma_sorted_apaths_differ(s, p, s.len() - 1);
    }
    if s.contains(e) && e != s.last() {
        let p = s.index_of(e);
        assert(s[p] == e);
        assert(front[p] == e);
    }
}

/// Two ascending runs that hold the same entries are the same run.
pub proof fn lemma_sorted_unique(a: Seq<EntryView>, b: Seq<EntryView>)
    requires
        strictly_sorted(a),
        strictly_sorted(b),
        forall|e: EntryView| #[trigger] a.contains(e) <==> b.contains(e),
    ensures
        a == b,
    decreases a.len(),
{
    if a.len() == 0 {
        if b.len() > 0 {
            assert(b.contains(b[0]));
            assert(a.contains(b[0]));
        }
        assert(a =~= b);
    } else {
        assert(a.contains(a[a.len() - 1]));
        assert(b.contains(a.last()));
        assert(b.contains(b[b.len() - 1]));
        assert(a.contains(b.last()));
        lemma_same_last(a, b);
        let a0 = a.drop_last();
        let b0 = b.drop_last();
        lemma_sorted_front(a);
        lemma_sorted_front(b);
        assert forall|e: EntryView| #[trigger] a0.contains(e) <==> b0.contains(e) by {
            lemma_front_members(a, e);
            lemma_front_members(b, e);
            assert(a.contains(e) <==> b.contains(e));
        }
        lemma_sorted_unique(a0, b0);
        assert(a =~= a0.push(a.last()));
        assert(b =~= b0.push(b.last()));
    }
}

/// The stitched view has each apath once: two of its entries are the same
/// or differ in their apaths.
pub proof fn lemma_sorted_apaths_differ(s: Seq<EntryView>, i: int, j: int)
    requires
        strictly_sorted(s),
        0 <= i < s.len(),
        0 <= j < s.len(),
        i != j,
    ensures
        s[i].apath != s[j].apath,
{
    if i < j {
        assert(apath_order(s[i].apath, s[j].apath) < 0);
        lemma_apath_order_equal(s[i].apath, s[j].apath);
    } else {
        assert(apath_order(s[j].apath, s[i].apath) < 0);
        lemma_apath_order_equal(s[j].apath, s[i].apath);
    }
}

} // verus!
