//! The index of a band: the entries of its tree, in apath order, kept in
//! numbered hunks.

use crate::apath::{apath_order, lemma_apath_order_transitive, Apath};
use crate::bandid::BandId;
use crate::errors::Error;
use crate::stats::clip_u64;
use crate::text::{
    bounded_decimal, chars_of, padded_decimal, parse_decimal, push_padded_decimal, string_of,
};
use vstd::prelude::*;
use vstd::utf8::encode_utf8;

verus! {

/// The number of entries after which the writer starts a new hunk, unless
/// it is told otherwise.
pub const HUNK_ENTRIES: usize = 1000;

/// The weight in bytes of its entries at which the writer starts a new
/// hunk, unless it is told otherwise: 1 MiB.
pub const HUNK_BYTES: u64 = 1048576;

/// The number of hunks that one directory of an index holds.
pub const HUNKS_PER_DIR: u32 = 10000;

/// What kind of thing an entry of a tree is.
#[derive(Clone, Copy, Debug, PartialEq, Eq, Structural)]
pub enum Kind {
    File,
    Dir,
    Symlink,
}

/// Where a part of a file's content is found: `len` bytes from byte `start`
/// on of the block named `hash`.
#[derive(Debug, PartialEq, Eq)]
pub struct Address {
    pub hash: String,
    pub start: u64,
    pub len: u64,
}

/// The model of an [`Address`].
pub struct AddressView {
    pub hash: Seq<char>,
    pub start: u64,
    pub len: u64,
}

impl View for Address {
    type V = AddressView;

    open spec fn view(&self) -> AddressView {
        AddressView { hash: self.hash@, start: self.start, len: self.len }
    }
}

impl Clone for Address {
    fn clone(&self) -> (a: Address)
        ensures
            a@ == self@,
    {
        Address { hash: self.hash.clone(), start: self.start, len: self.len }
    }
}

/// One entry of a stored tree.
#[derive(Debug, PartialEq, Eq)]
pub struct IndexEntry {
    /// The name of the entry within the tree.
    pub apath: Apath,
    pub kind: Kind,
    /// When the entry was last changed, in seconds since the epoch.
    pub mtime: i64,
    /// The part of `mtime` below one second, in nanoseconds.
    pub mtime_nanos: u32,
    /// The permission bits.
    pub mode: u32,
    pub owner: Option<String>,
    pub group: Option<String>,
    /// Where the content is stored, in order. Empty unless this is a file.
    pub addrs: Vec<Address>,
    /// What a symlink points to.
    pub target: Option<String>,
    /// The length of a file's content in bytes.
    pub size: Option<u64>,
}

/// The model of an [`IndexEntry`].
pub struct EntryView {
    pub apath: Seq<u8>,
    pub kind: Kind,
    pub mtime: i64,
    pub mtime_nanos: u32,
    pub mode: u32,
    pub owner: Option<Seq<char>>,
    pub group: Option<Seq<char>>,
    pub addrs: Seq<AddressView>,
    pub target: Option<Seq<char>>,
    pub size: Option<u64>,
}

/// The model of an optional string.
pub open spec fn text_of(s: Option<String>) -> Option<Seq<char>> {
    match s {
        Some(t) => Some(t@),
        None => None,
    }
}

/// The models of the addresses `v`, in order.
pub open spec fn address_views(v: Seq<Address>) -> Seq<AddressView> {
    Seq::new(v.len(), |i: int| v[i]@)
}

/// The models of the entries `v`, in order.
pub open spec fn entry_views(v: Seq<IndexEntry>) -> Seq<EntryView> {
    Seq::new(v.len(), |i: int| v[i]@)
}

impl View for IndexEntry {
    type V = EntryView;

    open spec fn view(&self) -> EntryView {
        EntryView {
            apath: self.apath@,
            kind: self.kind,
            mtime: self.mtime,
            mtime_nanos: self.mtime_nanos,
            mode: self.mode,
            owner: text_of(self.owner),
            group: text_of(self.group),
            addrs: address_views(self.addrs@),
            target: text_of(self.target),
            size: self.size,
        }
    }
}

/// A copy of an optional string.
pub fn clone_text(s: &Option<String>) -> (t: Option<String>)
    ensures
        text_of(t) == text_of(*s),
{
    match s {
        Some(x) => Some(x.clone()),
        None => None,
    }
}

/// A copy of a list of addresses.
pub fn clone_addresses(v: &Vec<Address>) -> (w: Vec<Address>)
    ensures
        address_views(w@) == address_views(v@),
{
    let mut w: Vec<Address> = Vec::new();
    let mut i: usize = 0;
    while i < v.len()
        invariant
            i <= v@.len(),
            w@.len() == i,
            forall|j: int| 0 <= j < i ==> w@[j]@ == v@[j]@,
        decreases v@.len() - i,
    {
        w.push(v[i].clone());
        i += 1;
    }
    assert(address_views(w@) =~= address_views(v@));
    w
}

impl Clone for IndexEntry {
    fn clone(&self) -> (e: IndexEntry)
        ensures
            e@ == self@,
    {
        IndexEntry {
            apath: self.apath.clone(),
            kind: self.kind,
            mtime: self.mtime,
            mtime_nanos: self.mtime_nanos,
            mode: self.mode,
            owner: clone_text(&self.owner),
            group: clone_text(&self.group),
            addrs: clone_addresses(&self.addrs),
            target: clone_text(&self.target),
            size: self.size,
        }
    }
}

/// A copy of a list of entries.
pub fn clone_entries(v: &Vec<IndexEntry>) -> (w: Vec<IndexEntry>)
    ensures
        entry_views(w@) == entry_views(v@),
{
    let mut w: Vec<IndexEntry> = Vec::new();
    let mut i: usize = 0;
    while i < v.len()
        invariant
            i <= v@.len(),
            w@.len() == i,
            forall|j: int| 0 <= j < i ==> w@[j]@ == v@[j]@,
        decreases v@.len() - i,
    {
        w.push(v[i].clone());
        i += 1;
    }
    assert(entry_views(w@) =~= entry_views(v@));
    w
}

/// Whether the entries `s` stand in strictly ascending order of apath.
pub open spec fn strictly_sorted(s: Seq<EntryView>) -> bool {
    forall|i: int, j: int|
        0 <= i < j < s.len() ==> apath_order(#[trigger] s[i].apath, #[trigger] s[j].apath) < 0
}

/// Whether `e` may follow the entries `s`: `s` is empty, or its last apath
/// comes before that of `e`.
pub open spec fn may_follow(s: Seq<EntryView>, e: EntryView) -> bool {
    s.len() == 0 || apath_order(s.last().apath, e.apath) < 0
}

/// An ascending run stays ascending when an entry that may follow it is
/// added.
pub proof fn lemma_sorted_push(s: Seq<EntryView>, e: EntryView)
    requires
        strictly_sorted(s),
        may_follow(s, e),
    ensures
        strictly_sorted(s.push(e)),
{
    let t = s.push(e);
    assert forall|i: int, j: int| 0 <= i < j < t.len() implies apath_order(
        #[trigger] t[i].apath,
        #[trigger] t[j].apath,
    ) < 0 by {
        if j == s.len() {
            if i < s.len() - 1 {
                assert(apath_order(s[i].apath, s[s.len() - 1].apath) < 0);
                lemma_apath_order_transitive(s[i].apath, s.last().apath, e.apath);
            }
        }
    }
}

/// The beginning of an ascending run ascends.
pub proof fn lemma_sorted_prefix(a: Seq<EntryView>, b: Seq<EntryView>)
    requires
        strictly_sorted(a + b),
    ensures
        strictly_sorted(a),
{
    let s = a + b;
    assert forall|i: int, j: int| 0 <= i < j < a.len() implies apath_order(
        #[trigger] a[i].apath,
        #[trigger] a[j].apath,
    ) < 0 by {
        assert(s[i] == a[i] && s[j] == a[j]);
    }
}

/// The entries of `s` that ascend: each one that is kept comes after the
/// one kept before it, and what does not is left out.
pub open spec fn ascending(s: Seq<EntryView>) -> Seq<EntryView>
    decreases s.len(),
{
    if s.len() == 0 {
        s
    } else {
        let kept = ascending(s.drop_last());
        if may_follow(kept, s.last()) {
            kept.push(s.last())
        } else {
            kept
        }
    }
}

/// What `ascending` keeps is in strictly ascending order.
pub proof fn lemma_ascending_sorted(s: Seq<EntryView>)
    ensures
        strictly_sorted(ascending(s)),
        ascending(s).len() <= s.len(),
    decreases s.len(),
{
    if s.len() > 0 {
        lemma_ascending_sorted(s.drop_last());
        if may_follow(ascending(s.drop_last()), s.last()) {
            lemma_sorted_push(ascending(s.drop_last()), s.last());
        }
    }
}

/// `ascending` keeps all of a run that ascends already.
pub proof fn lemma_ascending_of_sorted(s: Seq<EntryView>)
    requires
        strictly_sorted(s),
    ensures
        ascending(s) == s,
    decreases s.len(),
{
    if s.len() > 0 {
        let front = s.drop_last();
        assert(strictly_sorted(front)) by {
            assert forall|i: int, j: int| 0 <= i < j < front.len() implies apath_order(
                #[trigger] front[i].apath,
                #[trigger] front[j].apath,
            ) < 0 by {
                assert(front[i] == s[i] && front[j] == s[j]);
            }
        }
        lemma_ascending_of_sorted(front);
        if front.len() > 0 {
            assert(front.last() == s[s.len() - 2]);
            assert(apath_order(s[s.len() - 2].apath, s[s.len() - 1].apath) < 0);
        }
        assert(front.push(s.last()) =~= s);
    }
}

/// One hunk of an index, as it is found in storage.
#[derive(Debug, PartialEq, Eq)]
pub enum Hunk {
    /// No file of this number is there.
    Missing,
    /// The file is there and cannot be read.
    Damaged,
    /// The entries that the file holds.
    Entries(Vec<IndexEntry>),
}

/// The entries that a hunk yields: those it holds, or none where it cannot
/// be read.
pub open spec fn hunk_entries(h: Hunk) -> Seq<EntryView> {
    match h {
        Hunk::Entries(v) => entry_views(v@),
        _ => Seq::empty(),
    }
}

/// The entries of the hunks `hunks`, one hunk after the other, without
/// those of the hunks that cannot be read.
pub open spec fn all_entries(hunks: Seq<Hunk>) -> Seq<EntryView>
    decreases hunks.len(),
{
    if hunks.len() == 0 {
        Seq::empty()
    } else {
        all_entries(hunks.drop_last()) + hunk_entries(hunks.last())
    }
}

/// How many of the hunks `hunks` cannot be read.
pub open spec fn unreadable_hunks(hunks: Seq<Hunk>) -> nat
    decreases hunks.len(),
{
    if hunks.len() == 0 {
        0
    } else {
        unreadable_hunks(hunks.drop_last()) + if hunks.last() is Entries {
            0nat
        } else {
            1nat
        }
    }
}

/// The path of hunk `n` below the directory of its band: `i`, then the
/// number of the directory in nine digits, then the number of the hunk
/// within it in four.
pub open spec fn hunk_path(n: u32) -> Seq<char> {
    seq!['i', '/'] + padded_decimal((n / HUNKS_PER_DIR) as nat, 9) + seq!['/'] + padded_decimal(
        (n % HUNKS_PER_DIR) as nat,
        4,
    )
}

/// The path of hunk `n` below the directory of its band.
pub fn hunk_relpath(n: u32) -> (path: String)
    ensures
        path@ == hunk_path(n),
{
    let mut out: Vec<char> = Vec::new();
    out.push('i');
    out.push('/');
    assert(out@ =~= seq!['i', '/']);
    push_padded_decimal(&mut out, (n / HUNKS_PER_DIR) as u64, 9);
    out.push('/');
    push_padded_decimal(&mut out, (n % HUNKS_PER_DIR) as u64, 4);
    assert(out@ =~= hunk_path(n));
    string_of(&out)
}

/// The number of the hunk that is stored in the file `file` of the
/// directory `dir` of an index, where the two names are numbers that can be
/// the names of such a file and such a directory.
pub open spec fn hunk_number_of(dir: Seq<char>, file: Seq<char>) -> Option<u32> {
    match (bounded_decimal(dir, 999999999), bounded_decimal(file, 9999)) {
        (Some(d), Some(f)) => if d * HUNKS_PER_DIR + f <= u32::MAX {
            Some((d * HUNKS_PER_DIR + f) as u32)
        } else {
            None
        },
        _ => None,
    }
}

/// The number of the hunk that is stored in the file `file` of the
/// directory `dir` of an index: the number of the directory times ten
/// thousand, and the number of the file. `None` where the names are not
/// those of a hunk.
pub fn hunk_number(dir: &str, file: &str) -> (r: Option<u32>)
    ensures
        r == hunk_number_of(dir@, file@),
{
    let d_chars = chars_of(dir);
    let f_chars = chars_of(file);
    proof {
        assert(d_chars@.subrange(0, d_chars@.len() as int) =~= dir@);
        assert(f_chars@.subrange(0, f_chars@.len() as int) =~= file@);
    }
    let d = match parse_decimal(&d_chars, 0, d_chars.len(), 999999999) {
        Some(d) => d,
        None => {
            return None;
        },
    };
    let f = match parse_decimal(&f_chars, 0, f_chars.len(), 9999) {
        Some(f) => f,
        None => {
            return None;
        },
    };
    let n = d * 10000 + f;
    if n <= u32::MAX as u64 {
        Some(n as u32)
    } else {
        None
    }
}

/// The numbers of the hunks of the index `hunks` of which a file is
/// there, in ascending order.
pub fn iter_hunks(hunks: &Vec<Hunk>) -> (numbers: Vec<usize>)
    ensures
        forall|i: int, j: int| 0 <= i < j < numbers@.len() ==> numbers@[i] < numbers@[j],
        forall|n: int|
            0 <= n < hunks@.len() ==> (!(#[trigger] hunks@[n] is Missing) <==> numbers@.contains(
                n as usize,
            )),
        forall|i: int| 0 <= i < numbers@.len() ==> (#[trigger] numbers@[i]) < hunks@.len(),
{
    let mut numbers: Vec<usize> = Vec::new();
    let mut n: usize = 0;
    while n < hunks.len()
        invariant
            n <= hunks@.len(),
            forall|i: int, j: int| 0 <= i < j < numbers@.len() ==> numbers@[i] < numbers@[j],
            forall|i: int| 0 <= i < numbers@.len() ==> (#[trigger] numbers@[i]) < n,
            forall|m: int|
                0 <= m < n ==> (!(#[trigger] hunks@[m] is Missing) <==> numbers@.contains(
                    m as usize,
                )),
        decreases hunks@.len() - n,
    {
        let ghost prev = numbers@;
        let present = match &hunks[n] {
            Hunk::Missing => false,
            _ => true,
        };
        if present {
            numbers.push(n);
        }
        proof {
            assert forall|m: int| 0 <= m < n + 1 implies (!(#[trigger] hunks@[m] is Missing)
                <==> numbers@.contains(m as usize)) by {
                if m < n {
                    if prev.contains(m as usize) {
                        let i = prev.index_of(m as usize);
                        assert(numbers@[i] == m as usize);
                    }
                    if numbers@.contains(m as usize) {
                        let i = numbers@.index_of(m as usize);
                        assert(numbers@[i] == m as usize);
                        if i < prev.len() {
                            assert(prev[i] == m as usize);
                        }
                    }
                } else {
                    if present {
                        assert(numbers@[prev.len() as int] == n);
                    }
                    if numbers@.contains(m as usize) {
                        let i = numbers@.index_of(m as usize);
                        assert(numbers@[i] == m as usize);
                    }
                }
            }
        }
        n += 1;
    }
    numbers
}

/// Reads hunk `n` of the index `hunks` of the band `band`.
///
/// Fails with `IndexCorrupt` where the hunk is missing or cannot be read.
pub fn read_hunk<'a>(hunks: &'a Vec<Hunk>, band: &BandId, n: u32) -> (r: Result<
    &'a Vec<IndexEntry>,
    Error,
>)
    ensures
        match r {
            Ok(entries) => n < hunks@.len() && hunks@[n as int] == Hunk::Entries(*entries),
            Err(e) => (n >= hunks@.len() || !(hunks@[n as int] is Entries))
                && (e matches Error::IndexCorrupt {
                band: b,
                hunk,
            } && b@ == band@ && hunk == n),
        },
{
    if (n as usize) < hunks.len() {
        match &hunks[n as usize] {
            Hunk::Entries(entries) => {
                return Ok(entries);
            },
            _ => {},
        }
    }
    Err(Error::IndexCorrupt { band: band.clone(), hunk: n })
}

/// Reads an index: the entries of its hunks in order, without the hunks
/// that cannot be read and without the entries that do not ascend. The
/// second result counts the hunks that cannot be read, the third the
/// entries that were left out; each count stops at the largest number that
/// it can hold.
pub fn read_entries(hunks: &Vec<Hunk>) -> (r: (Vec<IndexEntry>, u64, u64))
    ensures
        entry_views(r.0@) == ascending(all_entries(hunks@)),
        strictly_sorted(entry_views(r.0@)),
        r.1 == unreadable_hunks(hunks@),
        r.2 == clip_u64((all_entries(hunks@).len() - r.0@.len()) as nat),
        r.0@.len() <= all_entries(hunks@).len(),
{
    let mut out: Vec<IndexEntry> = Vec::new();
    let mut unreadable: u64 = 0;
    let mut skipped: u64 = 0;
    let mut h: usize = 0;
    assert(hunks@.take(0) =~= Seq::<Hunk>::empty());
    assert(entry_views(out@) =~= Seq::<EntryView>::empty());
    while h < hunks.len()
        invariant
            h <= hunks@.len(),
            entry_views(out@) == ascending(all_entries(hunks@.take(h as int))),
            unreadable == unreadable_hunks(hunks@.take(h as int)),
            unreadable <= h,
            out@.len() <= all_entries(hunks@.take(h as int)).len(),
            skipped == clip_u64((all_entries(hunks@.take(h as int)).len() - out@.len()) as nat),
        decreases hunks@.len() - h,
    {
        let ghost before = all_entries(hunks@.take(h as int));
        proof {
            assert(hunks@.take(h + 1).drop_last() =~= hunks@.take(h as int));
            assert(hunks@.take(h + 1).last() == hunks@[h as int]);
        }
        match &hunks[h] {
            Hunk::Entries(entries) => {
                let mut k: usize = 0;
                assert(entry_views(entries@).take(0) =~= Seq::<EntryView>::empty());
                assert(before + Seq::<EntryView>::empty() =~= before);
                while k < entries.len()
                    invariant
                        k <= entries@.len(),
                        entry_views(out@) == ascending(
                            before + entry_views(entries@).take(k as int),
                        ),
                        out@.len() <= before.len() + k,
                        skipped == clip_u64((before.len() + k - out@.len()) as nat),
                    decreases entries@.len() - k,
                {
                    let ghost sofar = before + entry_views(entries@).take(k as int);
                    let ghost next = before + entry_views(entries@).take(k + 1);
                    proof {
                        assert(next.drop_last() =~= sofar);
                        assert(next.last() == entries@[k as int]@);
                    }
                    let follows = if out.len() == 0 {
                        true
                    } else {
                        out[out.len() - 1].apath.compare(&entries[k].apath) < 0
                    };
                    proof {
                        if out@.len() > 0 {
                            assert(entry_views(out@).last() == out@[out@.len() - 1]@);
                        }
                    }
                    if follows {
                        let ghost prev = out@;
                        out.push(entries[k].clone());
                        assert(entry_views(out@) =~= entry_views(prev).push(entries@[k as int]@));
                    } else {
                        skipped = skipped.saturating_add(1);
                    }
                    k += 1;
                }
                assert(entry_views(entries@).take(entries@.len() as int) =~= entry_views(
                    entries@,
                ));
            },
            _ => {
                assert(before + Seq::<EntryView>::empty() =~= before);
                unreadable += 1;
            },
        }
        h += 1;
    }
    proof {
        assert(hunks@.take(hunks@.len() as int) =~= hunks@);
        lemma_ascending_sorted(all_entries(hunks@));
    }
    (out, unreadable, skipped)
}

/// The entries of the runs `runs`, one run after the other.
pub open spec fn concat(runs: Seq<Seq<EntryView>>) -> Seq<EntryView>
    decreases runs.len(),
{
    if runs.len() == 0 {
        Seq::empty()
    } else {
        concat(runs.drop_last()) + runs.last()
    }
}

/// The length in bytes of an optional text.
pub open spec fn text_weight(t: Option<Seq<char>>) -> nat {
    match t {
        Some(text) => encode_utf8(text).len(),
        None => 0,
    }
}

/// About how many bytes the entry `e` takes in a hunk as it is stored
/// before compression: 128 for the entry and for each of its addresses,
/// and the bytes of its apath and of its texts.
pub open spec fn entry_weight(e: EntryView) -> nat {
    128 + e.apath.len() + text_weight(e.owner) + text_weight(e.group) + text_weight(e.target)
        + 128 * e.addrs.len()
}

/// About how many bytes the entries `s` take in a hunk.
pub open spec fn run_weight(s: Seq<EntryView>) -> nat
    decreases s.len(),
{
    if s.len() == 0 {
        0
    } else {
        run_weight(s.drop_last()) + entry_weight(s.last())
    }
}

/// The length in bytes of an optional text, stopped at the largest number
/// that 64 bits hold.
fn weigh_text(t: &Option<String>) -> (w: u64)
    ensures
        w == clip_u64(text_weight(text_of(*t))),
{
    match t {
        Some(text) => {
            let n = text.as_str().as_bytes().len();
            n as u64
        },
        None => 0,
    }
}

/// About how many bytes `e` takes in a hunk, stopped at the largest number
/// that 64 bits hold.
pub fn weigh_entry(e: &IndexEntry) -> (w: u64)
    ensures
        w == clip_u64(entry_weight(e@)),
{
    let apath = e.apath.as_str().as_bytes().len() as u64;
    let count = e.addrs.len() as u64;
    let addrs: u64 = if count > u64::MAX / 128 {
        u64::MAX
    } else {
        count * 128
    };
    assert(e@.addrs.len() == e.addrs@.len());
    (128u64).saturating_add(apath).saturating_add(weigh_text(&e.owner)).saturating_add(
        weigh_text(&e.group),
    ).saturating_add(weigh_text(&e.target)).saturating_add(addrs)
}

/// Writes an index: takes entries in ascending order of apath and hands
/// them out in hunks, each as soon as it has a fixed number of entries or
/// its entries weigh a fixed number of bytes.
pub struct IndexWriter {
    pending: Vec<IndexEntry>,
    pending_bytes: u64,
    last: Option<Apath>,
    max_entries: usize,
    max_bytes: u64,
    accepted: Ghost<Seq<EntryView>>,
    flushed: Ghost<Seq<Seq<EntryView>>>,
}

impl IndexWriter {
    /// Every entry that was pushed and accepted, in order.
    pub closed spec fn accepted(&self) -> Seq<EntryView> {
        self.accepted@
    }

    /// The hunks that were handed out so far, in order.
    pub closed spec fn flushed(&self) -> Seq<Seq<EntryView>> {
        self.flushed@
    }

    /// The entries that were accepted and not yet handed out.
    pub closed spec fn pending(&self) -> Seq<EntryView> {
        entry_views(self.pending@)
    }

    /// The number of entries of a full hunk.
    pub closed spec fn max_entries(&self) -> nat {
        self.max_entries as nat
    }

    /// The weight in bytes at which a hunk is full.
    pub closed spec fn max_bytes(&self) -> nat {
        self.max_bytes as nat
    }

    /// Whether a hunk of the entries `s` is full for this writer.
    pub open spec fn full(&self, s: Seq<EntryView>) -> bool {
        s.len() >= self.max_entries() || run_weight(s) >= self.max_bytes()
    }

    /// What holds of every writer: the accepted entries ascend, and they
    /// are the hunks handed out followed by the pending entries, which do
    /// not make a full hunk.
    pub closed spec fn well_formed(&self) -> bool {
        &&& self.max_entries >= 1
        &&& self.max_bytes >= 1
        &&& self.pending@.len() < self.max_entries
        &&& self.pending_bytes == run_weight(entry_views(self.pending@))
        &&& self.pending_bytes < self.max_bytes
        &&& strictly_sorted(self.accepted@)
        &&& concat(self.flushed@) + entry_views(self.pending@) == self.accepted@
        &&& match self.last {
            None => self.accepted@.len() == 0,
            Some(a) => self.accepted@.len() > 0 && self.accepted@.last().apath == a@,
        }
    }

    /// What `well_formed` says, for those who cannot see into the writer.
    pub proof fn lemma_well_formed(&self)
        requires
            self.well_formed(),
        ensures
            self.max_entries() >= 1,
            self.max_bytes() >= 1,
            !self.full(self.pending()),
            strictly_sorted(self.accepted()),
            concat(self.flushed()) + self.pending() == self.accepted(),
    {
    }

    /// A writer that has taken no entry yet and hands out hunks of
    /// `max_entries` entries or `max_bytes` bytes. Zero stands for the
    /// usual number of each.
    pub fn new(max_entries: usize, max_bytes: u64) -> (w: IndexWriter)
        ensures
            w.well_formed(),
            w.accepted() == Seq::<EntryView>::empty(),
            w.flushed() == Seq::<Seq<EntryView>>::empty(),
            w.pending() == Seq::<EntryView>::empty(),
            w.max_entries() == if max_entries == 0 {
                HUNK_ENTRIES as nat
            } else {
                max_entries as nat
            },
            w.max_bytes() == if max_bytes == 0 {
                HUNK_BYTES as nat
            } else {
                max_bytes as nat
            },
    {
        let w = IndexWriter {
            pending: Vec::new(),
            pending_bytes: 0,
            last: None,
            max_entries: if max_entries == 0 {
                HUNK_ENTRIES
            } else {
                max_entries
            },
            max_bytes: if max_bytes == 0 {
                HUNK_BYTES
            } else {
                max_bytes
            },
            accepted: Ghost(Seq::empty()),
            flushed: Ghost(Seq::empty()),
        };
        assert(concat(w.flushed@) + entry_views(w.pending@) =~= w.accepted@);
        assert(entry_views(w.pending@) =~= Seq::<EntryView>::empty());
        w
    }

    /// Whether an entry with the apath `apath` would be accepted now.
    pub fn accepts(&self, apath: &Apath) -> (r: bool)
        requires
            self.well_formed(),
        ensures
            r == (self.accepted().len() == 0 || apath_order(
                self.accepted().last().apath,
                apath@,
            ) < 0),
    {
        match &self.last {
            None => true,
            Some(a) => a.compare(apath) < 0,
        }
    }

    /// Takes the next entry. Where it makes the pending entries a full
    /// hunk, the hunk is handed out to be stored.
    ///
    /// An entry whose apath does not come after that of the entry before it
    /// is refused with `InvalidApath`, and the writer stays as it was.
    pub fn push(&mut self, entry: IndexEntry) -> (r: Result<Option<Vec<IndexEntry>>, Error>)
        requires
            old(self).well_formed(),
        ensures
            final(self).well_formed(),
            final(self).max_entries() == old(self).max_entries(),
            final(self).max_bytes() == old(self).max_bytes(),
            match r {
                Ok(hunk) => {
                    &&& may_follow(old(self).accepted(), entry@)
                    &&& final(self).accepted() == old(self).accepted().push(entry@)
                    &&& hunk is Some <==> old(self).full(old(self).pending().push(entry@))
                    &&& match hunk {
                        Some(h) => entry_views(h@) == old(self).pending().push(entry@)
                            && final(self).flushed() == old(self).flushed().push(entry_views(h@))
                            && final(self).pending().len() == 0,
                        None => final(self).flushed() == old(self).flushed()
                            && final(self).pending() == old(self).pending().push(entry@),
                    }
                },
                Err(e) => {
                    &&& !may_follow(old(self).accepted(), entry@)
                    &&& final(self).accepted() == old(self).accepted()
                    &&& final(self).flushed() == old(self).flushed()
                    &&& final(self).pending() == old(self).pending()
                    &&& e matches Error::InvalidApath { s }
                    &&& s@ == entry.apath.text()
                },
            },
    {
        let follows = match &self.last {
            None => true,
            Some(a) => a.compare(&entry.apath) < 0,
        };
        if !follows {
            return Err(Error::InvalidApath { s: entry.apath.to_string() });
        }
        let ghost before_pending = entry_views(self.pending@);
        let ghost before_accepted = self.accepted@;
        proof {
            lemma_sorted_push(self.accepted@, entry@);
        }
        let bytes = self.pending_bytes.saturating_add(weigh_entry(&entry));
        self.last = Some(entry.apath.clone());
        self.accepted = Ghost(self.accepted@.push(entry@));
        self.pending.push(entry);
        proof {
            let now = entry_views(self.pending@);
            assert(now =~= before_pending.push(entry@));
            assert(now.drop_last() =~= before_pending);
            assert(concat(self.flushed@) + now =~= self.accepted@);
            assert(bytes == clip_u64(run_weight(now)));
        }
        if self.pending.len() >= self.max_entries || bytes >= self.max_bytes {
            let mut hunk: Vec<IndexEntry> = Vec::new();
            core::mem::swap(&mut self.pending, &mut hunk);
            self.pending_bytes = 0;
            self.flushed = Ghost(self.flushed@.push(entry_views(hunk@)));
            proof {
                assert(self.flushed@.drop_last() =~= old(self).flushed@);
                assert(entry_views(self.pending@) =~= Seq::<EntryView>::empty());
                assert(concat(self.flushed@) + entry_views(self.pending@) =~= self.accepted@);
            }
            Ok(Some(hunk))
        } else {
            self.pending_bytes = bytes;
            Ok(None)
        }
    }

    /// Ends the index: hands out the entries that are still pending as the
    /// last hunk, where there are any.
    pub fn finish(self) -> (r: Option<Vec<IndexEntry>>)
        requires
            self.well_formed(),
        ensures
            match r {
                Some(h) => h@.len() >= 1 && entry_views(h@) == self.pending() && concat(
                    self.flushed().push(entry_views(h@)),
                ) == self.accepted(),
                None => self.pending().len() == 0 && concat(self.flushed()) == self.accepted(),
            },
    {
        if self.pending.len() == 0 {
            assert(concat(self.flushed@) + entry_views(self.pending@) =~= concat(self.flushed@));
            None
        } else {
            proof {
                let runs = self.flushed@.push(entry_views(self.pending@));
                assert(runs.drop_last() =~= self.flushed@);
            }
            Some(self.pending)
        }
    }
}

/// The hunks of an index that holds the runs `runs`, one hunk for each run,
/// read as they were written.
pub proof fn lemma_hunks_hold_runs(hunks: Seq<Hunk>, runs: Seq<Seq<EntryView>>)
    requires
        hunks.len() == runs.len(),
        forall|i: int| 0 <= i < hunks.len() ==> hunk_entries(#[trigger] hunks[i]) == runs[i],
    ensures
        all_entries(hunks) == concat(runs),
    decreases hunks.len(),
{
    if hunks.len() > 0 {
        lemma_hunks_hold_runs(hunks.drop_last(), runs.drop_last());
        assert(hunk_entries(hunks[hunks.len() - 1]) == runs[runs.len() - 1]);
    }
}

/// An index reads back as it was written: where the hunks `hunks` hold, in
/// order, the runs that a writer handed out for the ascending entries
/// `accepted`, reading them yields exactly `accepted`, in order.
pub proof fn lemma_index_round_trip(
    hunks: Seq<Hunk>,
    runs: Seq<Seq<EntryView>>,
    accepted: Seq<EntryView>,
)
    requires
        strictly_sorted(accepted),
        concat(runs) == accepted,
        hunks.len() == runs.len(),
        forall|i: int| 0 <= i < hunks.len() ==> hunk_entries(#[trigger] hunks[i]) == runs[i],
    ensures
        ascending(all_entries(hunks)) == accepted,
{
    lemma_hunks_hold_runs(hunks, runs);
    lemma_ascending_of_sorted(accepted);
}

} // verus!
