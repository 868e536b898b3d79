//! Text output formats for structured data.
//!
//! The lines are made here; printing them is the caller's part.

use crate::archive::{id_views, sorted_ids, Archive};
use crate::band::{closed, first_named, opens, Band, BandDir, Stored};
use crate::bandid::{band_text, BandId};
use crate::errors::Error;
use crate::index::{clone_entries, entry_views, Hunk, IndexEntry};
use crate::monitor::collect::CollectMonitor;
use crate::stats::clip_u64;
use crate::stored_tree::{total_size, tree_chain, walk_of, Exclude, StoredTree};
use crate::text::{
    chars_of, decimal_digits, lemma_decimal_digits, padded_decimal, push_padded_decimal, repeat,
    string_of, texts,
};
use vstd::prelude::*;

verus! {

/// Options controlling the behavior of `show_versions`.
#[derive(Clone, Copy, Debug, PartialEq, Eq)]
pub struct ShowVersionsOptions {
    /// Show versions in LIFO order by band_id.
    pub newest_first: bool,
    /// Show the total size of files in the tree.  This is
    /// slower because it requires walking the whole index.
    pub tree_size: bool,
    /// Show the date and time that each backup started.
    pub start_time: bool,
    /// Show how much time the backup took, or "incomplete" if it never finished.
    pub backup_duration: bool,
    /// Show times in this zone: so many seconds east of UTC.
    pub timezone: Option<i32>,
}

impl Default for ShowVersionsOptions {
    /// The names of the bands alone, oldest first.
    fn default() -> (o: ShowVersionsOptions)
        ensures
            !o.newest_first,
            !o.tree_size,
            !o.start_time,
            !o.backup_duration,
            o.timezone is None,
    {
        ShowVersionsOptions {
            newest_first: false,
            tree_size: false,
            start_time: false,
            backup_duration: false,
            timezone: None,
        }
    }
}

/// The instant `seconds` after the epoch, as a date and time of day at
/// `offset_seconds` east of UTC, in the form of RFC 3339. `None` where
/// the instant or the offset is beyond what can be written so.
pub uninterp spec fn rfc3339_text(seconds: i64, offset_seconds: i32) -> Option<Seq<char>>;

/// Calls `time::OffsetDateTime::format` with the description `Rfc3339`, on
/// the instant that `from_unix_timestamp` makes of `seconds`, moved by
/// `checked_to_offset` to the offset that `UtcOffset::from_whole_seconds`
/// makes of `offset_seconds`.
///
/// Trusted: the text depends on the two numbers alone. Where one of the
/// four calls refuses, there is no text.
#[verifier::external_body]
pub(crate) fn format_rfc3339(seconds: i64, offset_seconds: i32) -> (r: Option<String>)
    ensures
        match r {
            Some(s) => rfc3339_text(seconds, offset_seconds) == Some(s@),
            None => rfc3339_text(seconds, offset_seconds) is None,
        },
{
    let utc = time::OffsetDateTime::from_unix_timestamp(seconds).ok()?;
    let offset = time::UtcOffset::from_whole_seconds(offset_seconds).ok()?;
    let local = utc.checked_to_offset(offset)?;
    local.format(&time::format_description::well_known::Rfc3339).ok()
}

/// `s` with blanks after it until it is `width` long.
pub open spec fn left_aligned(s: Seq<char>, width: nat) -> Seq<char> {
    if s.len() >= width {
        s
    } else {
        s + repeat(' ', (width - s.len()) as nat)
    }
}

/// `s` with blanks before it until it is `width` long.
pub open spec fn right_aligned(s: Seq<char>, width: nat) -> Seq<char> {
    if s.len() >= width {
        s
    } else {
        repeat(' ', (width - s.len()) as nat) + s
    }
}

/// `seconds` as hours, minutes and seconds, or as minutes and seconds
/// where it is less than an hour, in a column of its own width.
pub open spec fn hms_text(seconds: nat) -> Seq<char> {
    if seconds >= 3600 {
        right_aligned(decimal_digits(seconds / 3600), 2) + seq![':'] + padded_decimal(
            (seconds / 60) % 60,
            2,
        ) + seq![':'] + padded_decimal(seconds % 60, 2)
    } else {
        seq![' ', ' ', ' '] + right_aligned(decimal_digits((seconds / 60) % 60), 2) + seq![':']
            + padded_decimal(seconds % 60, 2)
    }
}

/// The digits `digits` with a comma before each group of three, counted
/// from the right.
pub open spec fn grouped(digits: Seq<char>) -> Seq<char>
    decreases digits.len(),
{
    if digits.len() <= 3 {
        digits
    } else {
        grouped(digits.take(digits.len() - 3)) + seq![','] + digits.skip(digits.len() - 3)
    }
}

/// `bytes` in millions of bytes, rounded down, with `MB` behind.
pub open spec fn human_mb_text(bytes: u64) -> Seq<char> {
    grouped(decimal_digits((bytes / 1000000) as nat)) + seq![' ', 'M', 'B']
}

/// Appends `count` blanks to `out`.
fn push_blanks(out: &mut Vec<char>, count: usize)
    ensures
        final(out)@ == old(out)@ + repeat(' ', count as nat),
{
    let mut i: usize = 0;
    assert(out@ =~= old(out)@ + repeat(' ', 0));
    while i < count
        invariant
            i <= count,
            out@ == old(out)@ + repeat(' ', i as nat),
        decreases count - i,
    {
        out.push(' ');
        i += 1;
        assert(out@ =~= old(out)@ + repeat(' ', i as nat));
    }
}

/// Appends the characters `s` to `out`.
fn push_all(out: &mut Vec<char>, s: &Vec<char>)
    ensures
        final(out)@ == old(out)@ + s@,
{
    let mut i: usize = 0;
    assert(out@ =~= old(out)@ + s@.take(0));
    while i < s.len()
        invariant
            i <= s@.len(),
            out@ == old(out)@ + s@.take(i as int),
        decreases s@.len() - i,
    {
        out.push(s[i]);
        i += 1;
        assert(out@ =~= old(out)@ + s@.take(i as int));
    }
    assert(s@.take(s@.len() as int) =~= s@);
}

/// Appends `s` to `out`, with blanks after it until it is `width` long.
fn push_left_aligned(out: &mut Vec<char>, s: &Vec<char>, width: usize)
    ensures
        final(out)@ == old(out)@ + left_aligned(s@, width as nat),
{
    push_all(out, s);
    if s.len() < width {
        push_blanks(out, width - s.len());
        assert(out@ =~= old(out)@ + left_aligned(s@, width as nat));
    }
}

/// Appends `s` to `out`, with blanks before it until it is `width` long.
fn push_right_aligned(out: &mut Vec<char>, s: &Vec<char>, width: usize)
    ensures
        final(out)@ == old(out)@ + right_aligned(s@, width as nat),
{
    if s.len() < width {
        push_blanks(out, width - s.len());
    }
    push_all(out, s);
    assert(out@ =~= old(out)@ + right_aligned(s@, width as nat));
}

/// `seconds` as hours, minutes and seconds.
pub fn duration_to_hms(seconds: u64) -> (s: String)
    ensures
        s@ == hms_text(seconds as nat),
{
    let mut out: Vec<char> = Vec::new();
    let mut number: Vec<char> = Vec::new();
    if seconds >= 3600 {
        push_padded_decimal(&mut number, seconds / 3600, 0);
        push_right_aligned(&mut out, &number, 2);
    } else {
        out.push(' ');
        out.push(' ');
        out.push(' ');
        push_padded_decimal(&mut number, (seconds / 60) % 60, 0);
        push_right_aligned(&mut out, &number, 2);
    }
    if seconds >= 3600 {
        out.push(':');
        push_padded_decimal(&mut out, (seconds / 60) % 60, 2);
    }
    out.push(':');
    push_padded_decimal(&mut out, seconds % 60, 2);
    assert(out@ =~= hms_text(seconds as nat));
    string_of(&out)
}

/// `bytes` in millions of bytes, with commas between the thousands.
pub fn bytes_to_human_mb(bytes: u64) -> (s: String)
    ensures
        s@ == human_mb_text(bytes),
{
    let mut digits: Vec<char> = Vec::new();
    push_padded_decimal(&mut digits, bytes / 1000000, 0);
    proof {
        lemma_decimal_digits((bytes / 1000000) as nat);
    }
    let n = digits.len();
    let mut out: Vec<char> = Vec::new();
    // The first group has what is left over of the threes.
    let first: usize = if n % 3 == 0 {
        3
    } else {
        n % 3
    };
    let mut i: usize = 0;
    while i < first
        invariant
            i <= first <= n,
            n == digits@.len(),
            out@ == digits@.take(i as int),
        decreases first - i,
    {
        out.push(digits[i]);
        i += 1;
        assert(out@ =~= digits@.take(i as int));
    }
    proof {
        lemma_grouped_short(digits@.take(first as int));
    }
    while i < n
        invariant
            first <= i <= n,
            n == digits@.len(),
            (i - first) % 3 == 0,
            (n - first) % 3 == 0,
            1 <= first <= 3,
            out@ == grouped(digits@.take(i as int)),
        decreases n - i,
    {
        let ghost before = out@;
        out.push(',');
        out.push(digits[i]);
        out.push(digits[i + 1]);
        out.push(digits[i + 2]);
        proof {
            let next = digits@.take(i + 3);
            assert(next.take(next.len() - 3) =~= digits@.take(i as int));
            assert(next.skip(next.len() - 3) =~= seq![
                digits@[i as int],
                digits@[i + 1],
                digits@[i + 2],
            ]);
            assert(out@ =~= grouped(next));
        }
        i += 3;
    }
    assert(digits@.take(n as int) =~= digits@);
    out.push(' ');
    out.push('M');
    out.push('B');
    assert(out@ =~= human_mb_text(bytes));
    string_of(&out)
}

/// Up to three digits stand without a comma.
proof fn lemma_grouped_short(digits: Seq<char>)
    requires
        digits.len() <= 3,
    ensures
        grouped(digits) == digits,
{
}

/// The time `start` after the epoch as it is shown: in the form of RFC
/// 3339 at the offset `timezone`, or at UTC where there is none; and the
/// word `unknown` where it cannot be written so.
pub open spec fn time_text(start: i64, timezone: Option<i32>) -> Seq<char> {
    let offset = match timezone {
        Some(offset) => offset,
        None => 0i32,
    };
    match rfc3339_text(start, offset) {
        Some(text) => text,
        None => "unknown"@,
    }
}

/// How long the backup into the band in `dir` took, as it is shown.
pub open spec fn duration_text(dir: BandDir) -> Seq<char> {
    span_text(
        closed(dir),
        dir.head->Present_0.start_time,
        match dir.tail {
            Stored::Present(tail) => Some(tail.end_time),
            _ => None,
        },
    )
}

/// Whether any of the columns beside the name of the band is asked for.
pub open spec fn detailed(options: ShowVersionsOptions) -> bool {
    options.tree_size || options.start_time || options.backup_duration
}

/// The size of the tree of the band `id`, as it is shown.
pub open spec fn size_text(dirs: Seq<BandDir>, id: Seq<u32>) -> Seq<char> {
    human_mb_text(
        clip_u64(
            total_size(
                walk_of(tree_chain(dirs, id), seq![crate::apath::SEPARATOR], Seq::empty()),
            ),
        ),
    )
}

/// The line that shows the band `id`, or `None` where the band is passed
/// over: details are asked for, and the band does not open or its tail
/// cannot be read.
///
/// Without details the line is the name of the band. With details the name
/// stands in a column of 20, followed, each after a blank and as far as
/// they are asked for, by the start time in a column of 25, the duration
/// in a column of 10 and the size of the tree in a column of 14, the last
/// two aligned to the right.
pub open spec fn version_line(
    dirs: Seq<BandDir>,
    id: Seq<u32>,
    options: ShowVersionsOptions,
) -> Option<Seq<char>> {
    if !detailed(options) {
        Some(band_text(id))
    } else {
        let k = first_named(dirs, band_text(id));
        if k >= dirs.len() || !opens(dirs[k]) || dirs[k].tail is Damaged {
            None
        } else {
            Some(
                left_aligned(band_text(id), 20) + detail_columns(
                    options,
                    time_text(dirs[k].head->Present_0.start_time, options.timezone),
                    duration_text(dirs[k]),
                    size_text(dirs, id),
                ),
            )
        }
    }
}

/// The lines that show the bands `ids`, in that order.
pub open spec fn version_lines(
    dirs: Seq<BandDir>,
    ids: Seq<Seq<u32>>,
    options: ShowVersionsOptions,
) -> Seq<Seq<char>>
    decreases ids.len(),
{
    if ids.len() == 0 {
        Seq::empty()
    } else {
        let front = version_lines(dirs, ids.drop_last(), options);
        match version_line(dirs, ids.last(), options) {
            Some(line) => front.push(line),
            None => front,
        }
    }
}

/// How long a backup took that began at `start` and, where `end` is
/// there, ended then, as it is shown.
pub open spec fn span_text(is_closed: bool, start: i64, end: Option<i64>) -> Seq<char> {
    if !is_closed {
        "incomplete"@
    } else {
        match end {
            Some(end_time) => if end_time < start {
                "negative"@
            } else {
                hms_text((end_time - start) as nat)
            },
            None => "unknown"@,
        }
    }
}

/// The time `start` as it is shown.
fn time_column(start: i64, timezone: Option<i32>) -> (text: String)
    ensures
        text@ == time_text(start, timezone),
{
    let offset = match timezone {
        Some(offset) => offset,
        None => 0,
    };
    match format_rfc3339(start, offset) {
        Some(text) => text,
        None => "unknown".to_owned(),
    }
}

/// How long a backup took, as it is shown.
fn duration_column(is_closed: bool, start: i64, end: Option<i64>) -> (text: String)
    ensures
        text@ == span_text(is_closed, start, end),
{
    if !is_closed {
        return "incomplete".to_owned();
    }
    match end {
        Some(end_time) => {
            if end_time < start {
                "negative".to_owned()
            } else {
                let length: u64 = if start >= 0 || end_time < 0 {
                    (end_time - start) as u64
                } else {
                    end_time as u64 + ((-(start + 1)) as u64 + 1)
                };
                duration_to_hms(length)
            }
        },
        None => "unknown".to_owned(),
    }
}

/// The columns that follow the name of a band, as far as `options` asks
/// for them, each after a blank.
pub open spec fn detail_columns(
    options: ShowVersionsOptions,
    time: Seq<char>,
    span: Seq<char>,
    size: Seq<char>,
) -> Seq<char> {
    (if options.start_time {
        seq![' '] + left_aligned(time, 25)
    } else {
        Seq::empty()
    }) + (if options.backup_duration {
        seq![' '] + right_aligned(span, 10)
    } else {
        Seq::empty()
    }) + (if options.tree_size {
        seq![' '] + right_aligned(size, 14)
    } else {
        Seq::empty()
    })
}

/// Puts a line together: the name in its column, then the columns that
/// are asked for.
fn assemble(
    name: &Vec<char>,
    options: &ShowVersionsOptions,
    time: &Vec<char>,
    span: &Vec<char>,
    size: &Vec<char>,
) -> (line: String)
    ensures
        line@ == left_aligned(name@, 20) + detail_columns(*options, time@, span@, size@),
{
    let mut out: Vec<char> = Vec::new();
    push_left_aligned(&mut out, name, 20);
    let ghost first = out@;
    assert(first =~= left_aligned(name@, 20));
    if options.start_time {
        out.push(' ');
        push_left_aligned(&mut out, time, 25);
        assert(out@ =~= first + (seq![' '] + left_aligned(time@, 25)));
    }
    let ghost second = out@;
    if options.backup_duration {
        out.push(' ');
        push_right_aligned(&mut out, span, 10);
        assert(out@ =~= second + (seq![' '] + right_aligned(span@, 10)));
    }
    let ghost third = out@;
    if options.tree_size {
        out.push(' ');
        push_right_aligned(&mut out, size, 14);
        assert(out@ =~= third + (seq![' '] + right_aligned(size@, 14)));
    }
    assert(out@ =~= left_aligned(name@, 20) + detail_columns(*options, time@, span@, size@));
    string_of(&out)
}

/// The line that shows the band `id` of `archive`.
fn show_version(
    archive: &Archive,
    id: &BandId,
    options: &ShowVersionsOptions,
    monitor: &mut CollectMonitor,
) -> (r: Option<String>)
    ensures
        match r {
            Some(line) => version_line(archive@.dirs@, id@, *options) == Some(line@),
            None => version_line(archive@.dirs@, id@, *options) is None,
        },
        final(monitor).started_files() == old(monitor).started_files(),
{
    if !(options.tree_size || options.start_time || options.backup_duration) {
        return Some(id.to_string());
    }
    let tree = match StoredTree::open(archive, id) {
        Ok(tree) => tree,
        Err(_) => {
            return None;
        },
    };
    let info = match tree.band().get_info() {
        Ok(info) => info,
        Err(_) => {
            return None;
        },
    };
    let name = chars_of(id.to_string().as_str());
    let time = if options.start_time {
        chars_of(time_column(info.start_time, options.timezone).as_str())
    } else {
        Vec::new()
    };
    let span = if options.backup_duration {
        chars_of(duration_column(info.is_closed, info.start_time, info.end_time).as_str())
    } else {
        Vec::new()
    };
    let size = if options.tree_size {
        let nothing = Exclude::nothing();
        assert(nothing@ =~= Seq::<Seq<u8>>::empty());
        let size = tree.size(nothing, monitor);
        chars_of(bytes_to_human_mb(size.file_bytes).as_str())
    } else {
        Vec::new()
    };
    Some(assemble(&name, options, &time, &span, &size))
}

/// The list of the versions of `archive`, one line for each band, oldest
/// first or, where the options say so, newest first.
///
/// Each line is as [`version_line`] says. Where details are asked for, a
/// band that cannot be opened is passed over.
pub fn show_versions(
    archive: &Archive,
    options: &ShowVersionsOptions,
    monitor: &mut CollectMonitor,
) -> (lines: Vec<String>)
    ensures
        texts(lines@) == version_lines(
            archive@.dirs@,
            if options.newest_first {
                sorted_ids(archive@.dirs@).reverse()
            } else {
                sorted_ids(archive@.dirs@)
            },
            *options,
        ),
        final(monitor).started_files() == old(monitor).started_files(),
{
    let listed = archive.list_bands();
    let mut band_ids: Vec<BandId> = Vec::new();
    if options.newest_first {
        let mut n: usize = listed.len();
        while n > 0
            invariant
                n <= listed@.len(),
                band_ids@.len() == listed@.len() - n,
                forall|j: int|
                    0 <= j < band_ids@.len() ==> (#[trigger] band_ids@[j])@ == listed@[listed@.len()
                        - 1 - j]@,
            decreases n,
        {
            n -= 1;
            band_ids.push(listed[n].clone());
        }
        assert(id_views(band_ids@) =~= id_views(listed@).reverse());
    } else {
        band_ids = listed;
    }
    let ghost order = id_views(band_ids@);
    let mut lines: Vec<String> = Vec::new();
    let mut i: usize = 0;
    proof {
        assert(order.take(0) =~= Seq::<Seq<u32>>::empty());
        assert(texts(lines@) =~= Seq::<Seq<char>>::empty());
    }
    while i < band_ids.len()
        invariant
            i <= band_ids@.len(),
            order == id_views(band_ids@),
            texts(lines@) == version_lines(archive@.dirs@, order.take(i as int), *options),
            monitor.started_files() == old(monitor).started_files(),
        decreases band_ids@.len() - i,
    {
        proof {
            assert(order.take(i + 1).drop_last() =~= order.take(i as int));
            assert(order.take(i + 1).last() == band_ids@[i as int]@);
        }
        match show_version(archive, &band_ids[i], options, monitor) {
            Some(line) => {
                let ghost prev = texts(lines@);
                lines.push(line);
                assert(texts(lines@) =~= prev.push(line@));
            },
            None => {},
        }
        i += 1;
    }
    assert(order.take(band_ids@.len() as int) =~= order);
    lines
}

/// The index of `band` as it is shown: the entries of each hunk, hunk by
/// hunk.
///
/// Fails with `IndexCorrupt` at the first hunk that is missing or cannot
/// be read.
pub fn show_index_json(band: &Band) -> (r: Result<Vec<Vec<IndexEntry>>, Error>)
    ensures
        match r {
            Ok(hunks) => shows(hunks@, band.dir().hunks@, hunks@.len() as int) && hunks@.len()
                == band.dir().hunks@.len(),
            Err(e) => {
                &&& e matches Error::IndexCorrupt { band: b, hunk }
                &&& b@ == band.id_view()
                &&& exists|h: int|
                    {
                        &&& 0 <= h < band.dir().hunks@.len()
                        &&& !(#[trigger] band.dir().hunks@[h] is Entries)
                        &&& forall|k: int| 0 <= k < h ==> #[trigger] band.dir().hunks@[k] is Entries
                        &&& h <= u32::MAX ==> hunk == h
                    }
            },
        },
{
    let stored = band.hunks();
    let mut out: Vec<Vec<IndexEntry>> = Vec::new();
    let mut h: usize = 0;
    while h < stored.len()
        invariant
            h <= stored@.len(),
            *stored == band.dir().hunks,
            out@.len() == h,
            shows(out@, stored@, h as int),
        decreases stored@.len() - h,
    {
        match &stored[h] {
            Hunk::Entries(entries) => {
                let ghost prev = out@;
                let copy = clone_entries(entries);
                out.push(copy);
                proof {
                    assert forall|k: int| 0 <= k < h + 1 implies shows_hunk(
                        #[trigger] out@[k],
                        stored@[k],
                    ) by {
                        if k < h {
                            assert(out@[k] == prev[k]);
                            assert(shows_hunk(prev[k], stored@[k]));
                        }
                    }
                }
            },
            _ => {
                let number: u32 = if h <= u32::MAX as usize {
                    h as u32
                } else {
                    u32::MAX
                };
                proof {
                    assert(!(band.dir().hunks@[h as int] is Entries));
                    assert forall|k: int| 0 <= k < h implies #[trigger] band.dir().hunks@[k]
                        is Entries by {
                        assert(shows_hunk(out@[k], stored@[k]));
                    }
                }
                return Err(Error::IndexCorrupt { band: band.id(), hunk: number });
            },
        }
        h += 1;
    }
    Ok(out)
}

/// Whether `shown` holds the entries of the hunk `hunk`, which can be
/// read.
pub open spec fn shows_hunk(shown: Vec<IndexEntry>, hunk: Hunk) -> bool {
    hunk is Entries && entry_views(shown@) == crate::index::hunk_entries(hunk)
}

/// Whether the first `n` of `shown` hold the entries of the first `n` of
/// the hunks `hunks`, each of which can be read.
pub open spec fn shows(shown: Seq<Vec<IndexEntry>>, hunks: Seq<Hunk>, n: int) -> bool {
    forall|k: int| 0 <= k < n ==> shows_hunk(#[trigger] shown[k], hunks[k])
}

} // verus!
