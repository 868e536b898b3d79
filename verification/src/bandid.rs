//! Band ids: the names of the snapshots in an archive.
//!
//! A band id is a non-empty sequence of numbers, written as `b` followed by
//! the numbers, each padded with zeros to four digits, with `-` between
//! them: `b0000`, `b0001-0017`.

use crate::text::{
    all_digits, bounded_decimal, chars_of, decimal_value, first_index, is_digit,
    lemma_first_index, lemma_padded_decimal, padded_decimal,
    parse_decimal, push_padded_decimal, string_of,
};
use vstd::prelude::*;

verus! {

/// The width to which each number of a band id is padded when written.
pub const BAND_ID_WIDTH: usize = 4;

/// The text of the numbers `seqs`, without the leading `b`.
pub open spec fn groups_text(seqs: Seq<u32>) -> Seq<char>
    decreases seqs.len(),
{
    if seqs.len() == 0 {
        Seq::empty()
    } else if seqs.len() == 1 {
        padded_decimal(seqs[0] as nat, BAND_ID_WIDTH as nat)
    } else {
        padded_decimal(seqs[0] as nat, BAND_ID_WIDTH as nat) + seq!['-'] + groups_text(
            seqs.drop_first(),
        )
    }
}

/// The canonical text of the band id with the numbers `seqs`.
pub open spec fn band_text(seqs: Seq<u32>) -> Seq<char> {
    seq!['b'] + groups_text(seqs)
}

/// The numbers that `t` spells: groups of digits with `-` between them, each
/// group non-empty and standing for a number that fits in 32 bits.
pub open spec fn groups_ids(t: Seq<char>) -> Option<Seq<u32>>
    decreases t.len(),
{
    let k = first_index(t, '-');
    match bounded_decimal(t.take(k), u32::MAX as nat) {
        None => None,
        Some(n) => if k < 0 || k >= t.len() {
            Some(seq![n as u32])
        } else {
            match groups_ids(t.skip(k + 1)) {
                None => None,
                Some(rest) => Some(seq![n as u32] + rest),
            }
        },
    }
}

/// The numbers of the band id that `s` names, where `s` names one: `b`
/// followed by one or more groups of digits with `-` between them. The
/// groups may be padded with zeros or not.
pub open spec fn band_text_ids(s: Seq<char>) -> Option<Seq<u32>> {
    if s.len() >= 1 && s[0] == 'b' {
        groups_ids(s.skip(1))
    } else {
        None
    }
}

/// How the numbers `a` stand to the numbers `b`: -1 where `a` comes first, 0
/// where they are the same, 1 where `a` comes last. The first number that
/// differs decides, and a beginning comes before its continuations.
pub open spec fn band_order(a: Seq<u32>, b: Seq<u32>) -> int
    decreases a.len(),
{
    if a.len() == 0 && b.len() == 0 {
        0
    } else if a.len() == 0 {
        -1
    } else if b.len() == 0 {
        1
    } else if a[0] < b[0] {
        -1
    } else if a[0] > b[0] {
        1
    } else {
        band_order(a.drop_first(), b.drop_first())
    }
}

/// The name of one band of an archive.
#[derive(Debug, PartialEq, Eq, PartialOrd, Ord, Hash)]
pub struct BandId {
    seqs: Vec<u32>,
}

impl Clone for BandId {
    fn clone(&self) -> (id: BandId)
        ensures
            id@ == self@,
    {
        proof {
            use_type_invariant(self);
        }
        BandId { seqs: self.seqs.clone() }
    }
}

impl View for BandId {
    type V = Seq<u32>;

    closed spec fn view(&self) -> Seq<u32> {
        self.seqs@
    }
}

impl BandId {
    /// Every band id holds at least one number.
    #[verifier::type_invariant]
    pub open spec fn well_formed(&self) -> bool {
        self@.len() >= 1
    }

    /// The band id with the numbers `seqs`.
    pub fn new(seqs: &[u32]) -> (id: BandId)
        requires
            seqs@.len() >= 1,
        ensures
            id@ == seqs@,
    {
        let mut v: Vec<u32> = Vec::new();
        let mut i: usize = 0;
        while i < seqs.len()
            invariant
                i <= seqs@.len(),
                v@ == seqs@.take(i as int),
            decreases seqs@.len() - i,
        {
            v.push(seqs[i]);
            i += 1;
        }
        assert(seqs@.take(seqs@.len() as int) =~= seqs@);
        BandId { seqs: v }
    }

    /// The first band id of an archive: `b0000`.
    pub fn zero() -> (id: BandId)
        ensures
            id@ == seq![0u32],
    {
        let mut v: Vec<u32> = Vec::new();
        v.push(0);
        assert(v@ =~= seq![0u32]);
        BandId { seqs: v }
    }

    /// The band id that follows this one at the same level: the last number
    /// is one greater. There is none after the last number that 32 bits hold.
    pub fn next_sibling(&self) -> (next: Option<BandId>)
        ensures
            self@.len() >= 1,
            match next {
                Some(id) => self@.last() < u32::MAX && id@ == self@.update(
                    self@.len() - 1,
                    (self@.last() + 1) as u32,
                ),
                None => self@.last() == u32::MAX,
            },
    {
        proof {
            use_type_invariant(self);
        }
        let n = self.seqs.len();
        let last = self.seqs[n - 1];
        if last == u32::MAX {
            return None;
        }
        let mut v = self.seqs.clone();
        v.set(n - 1, last + 1);
        Some(BandId { seqs: v })
    }

    /// Reads a band id from its name: `b` followed by one or more groups of
    /// digits with `-` between them, padded or not. Any other text names no
    /// band.
    pub fn from_string(s: &str) -> (r: Option<BandId>)
        ensures
            match r {
                Some(id) => band_text_ids(s@) == Some(id@),
                None => band_text_ids(s@) is None,
            },
    {
        let cs = chars_of(s);
        if cs.len() == 0 || cs[0] != 'b' {
            return None;
        }
        let ghost t = cs@.skip(1);
        let mut seqs: Vec<u32> = Vec::new();
        let mut pos: usize = 1;
        assert(t.skip(0) =~= t);
        assert(Seq::<u32>::empty() + seq![0u32] =~= seq![0u32]);
        loop
            invariant
                cs@ == s@,
                t == cs@.skip(1),
                cs@[0] == 'b',
                1 <= pos <= cs@.len(),
                match groups_ids(t.skip(pos - 1)) {
                    Some(rest) => groups_ids(t) == Some(seqs@ + rest),
                    None => groups_ids(t) is None,
                },
            decreases cs@.len() - pos,
        {
            let mut end: usize = pos;
            while end < cs.len() && cs[end] != '-'
                invariant
                    pos <= end <= cs@.len(),
                    forall|j: int| pos <= j < end ==> cs@[j] != '-',
                decreases cs@.len() - end,
            {
                end += 1;
            }
            let ghost u = t.skip(pos - 1);
            proof {
                assert forall|j: int| 0 <= j < end - pos implies u[j] != '-' by {
                    assert(u[j] == cs@[j + pos]);
                }
                lemma_first_index(u, '-', end - pos);
                assert(u.take(end - pos) =~= cs@.subrange(pos as int, end as int));
                if end < cs@.len() {
                    assert(u.skip(end - pos + 1) =~= t.skip(end as int));
                }
            }
            match parse_decimal(&cs, pos, end, u32::MAX as u64) {
                None => {
                    return None;
                },
                Some(n) => {
                    let ghost before = seqs@;
                    seqs.push(n as u32);
                    if end == cs.len() {
                        assert(before + seq![n as u32] =~= seqs@);
                        return Some(BandId { seqs });
                    }
                    proof {
                        match groups_ids(t.skip(end as int)) {
                            Some(rest) => {
                                assert(before + (seq![n as u32] + rest) =~= seqs@ + rest);
                            },
                            None => {},
                        }
                    }
                    pos = end + 1;
                },
            }
        }
    }

    /// Compares two band ids number by number: -1 where `self` comes first,
    /// 0 where they are the same, 1 where `self` comes last.
    pub fn compare(&self, other: &BandId) -> (r: i8)
        ensures
            r == band_order(self@, other@),
    {
        let a = &self.seqs;
        let b = &other.seqs;
        let mut i: usize = 0;
        assert(a@.skip(0) =~= a@ && b@.skip(0) =~= b@);
        while i < a.len() && i < b.len()
            invariant
                a@ == self@,
                b@ == other@,
                i <= a@.len(),
                i <= b@.len(),
                band_order(a@, b@) == band_order(a@.skip(i as int), b@.skip(i as int)),
            decreases a@.len() - i,
        {
            proof {
                assert(a@.skip(i as int).drop_first() =~= a@.skip(i + 1));
                assert(b@.skip(i as int).drop_first() =~= b@.skip(i + 1));
                assert(a@.skip(i as int)[0] == a@[i as int]);
                assert(b@.skip(i as int)[0] == b@[i as int]);
            }
            if a[i] < b[i] {
                return -1;
            }
            if a[i] > b[i] {
                return 1;
            }
            i += 1;
        }
        if i < b.len() {
            -1
        } else if i < a.len() {
            1
        } else {
            0
        }
    }

    /// The canonical name of this band: `b`, then each number padded with
    /// zeros to four digits, with `-` between them.
    pub fn to_string(&self) -> (s: String)
        ensures
            s@ == band_text(self@),
    {
        proof {
            use_type_invariant(self);
        }
        let mut out: Vec<char> = Vec::new();
        out.push('b');
        let n = self.seqs.len();
        let mut k: usize = 0;
        while k < n
            invariant
                n == self.seqs@.len(),
                n >= 1,
                k <= n,
                k == 0 ==> out@ == seq!['b'],
                k > 0 ==> band_text(self.seqs@) == out@ + (if k < n {
                    seq!['-'] + groups_text(self.seqs@.skip(k as int))
                } else {
                    Seq::<char>::empty()
                }),
            decreases n - k,
        {
            let ghost before = out@;
            if k > 0 {
                out.push('-');
            }
            push_padded_decimal(&mut out, self.seqs[k] as u64, BAND_ID_WIDTH);
            proof {
                let rest = self.seqs@.skip(k as int);
                assert(rest[0] == self.seqs@[k as int]);
                assert(rest.drop_first() =~= self.seqs@.skip(k + 1));
                if k == 0 {
                    assert(rest =~= self.seqs@);
                }
                if k + 1 < n {
                    assert(rest.len() > 1);
                    assert(band_text(self.seqs@) =~= out@ + (seq!['-'] + groups_text(
                        self.seqs@.skip(k + 1),
                    )));
                } else {
                    assert(rest.len() == 1);
                    assert(band_text(self.seqs@) =~= out@);
                }
            }
            k += 1;
        }
        assert(band_text(self.seqs@) =~= out@);
        string_of(&out)
    }
}

/// A band id's canonical name reads back as that band id.
pub proof fn lemma_band_text_round_trip(seqs: Seq<u32>)
    requires
        seqs.len() >= 1,
    ensures
        band_text_ids(band_text(seqs)) == Some(seqs),
{
    assert(band_text(seqs).skip(1) =~= groups_text(seqs));
    lemma_groups_round_trip(seqs);
}

/// How a text of groups is read where its first group is known: `first` is
/// a run of digits that stands for `n`, and either ends the text or is
/// followed by `-` and `rest`.
proof fn lemma_groups_ids_step(t: Seq<char>, first: Seq<char>, n: u32, rest: Seq<char>)
    requires
        first.len() >= 1,
        all_digits(first),
        decimal_value(first) == n,
        t == first || t == first + seq!['-'] + rest,
    ensures
        t == first ==> groups_ids(t) == Some(seq![n]),
        t == first + seq!['-'] + rest ==> groups_ids(t) == match groups_ids(rest) {
            Some(more) => Some(seq![n] + more),
            None => None,
        },
{
    let k = first.len() as int;
    assert forall|i: int| 0 <= i < k implies t[i] != '-' by {
        assert(t[i] == first[i]);
        assert(is_digit(first[i]));
    }
    if t == first {
        lemma_first_index(t, '-', k);
        assert(t.take(k) =~= first);
    }
    if t == first + seq!['-'] + rest {
        assert(t[k] == '-');
        lemma_first_index(t, '-', k);
        assert(t.take(k) =~= first);
        assert(t.skip(k + 1) =~= rest);
    }
}

/// The text of a non-empty run of numbers reads back as those numbers.
pub proof fn lemma_groups_round_trip(seqs: Seq<u32>)
    requires
        seqs.len() >= 1,
    ensures
        groups_ids(groups_text(seqs)) == Some(seqs),
    decreases seqs.len(),
{
    let first = padded_decimal(seqs[0] as nat, BAND_ID_WIDTH as nat);
    lemma_padded_decimal(seqs[0] as nat, BAND_ID_WIDTH as nat);
    let t = groups_text(seqs);
    if seqs.len() == 1 {
        lemma_groups_ids_step(t, first, seqs[0], Seq::empty());
        assert(seq![seqs[0]] =~= seqs);
    } else {
        let rest = seqs.drop_first();
        lemma_groups_round_trip(rest);
        lemma_groups_ids_step(t, first, seqs[0], groups_text(rest));
        assert(seq![seqs[0]] + rest =~= seqs);
    }
}

/// The order of band ids is one of three outcomes, and swapping the two
/// sides swaps the outcome.
pub proof fn lemma_band_order_antisymmetric(a: Seq<u32>, b: Seq<u32>)
    ensures
        -1 <= band_order(a, b) <= 1,
        band_order(a, b) == -band_order(b, a),
    decreases a.len(),
{
    if a.len() > 0 && b.len() > 0 && a[0] == b[0] {
        lemma_band_order_antisymmetric(a.drop_first(), b.drop_first());
    }
}

/// Two band ids stand level in the order exactly where they are the same.
pub proof fn lemma_band_order_equal(a: Seq<u32>, b: Seq<u32>)
    ensures
        band_order(a, b) == 0 <==> a == b,
    decreases a.len(),
{
    if a.len() > 0 && b.len() > 0 && a[0] == b[0] {
        lemma_band_order_equal(a.drop_first(), b.drop_first());
        if a.drop_first() == b.drop_first() {
            assert(a =~= seq![a[0]] + a.drop_first());
            assert(b =~= seq![b[0]] + b.drop_first());
        }
    } else if a.len() == 0 && b.len() == 0 {
        assert(a =~= b);
    }
}

/// The order of band ids is transitive.
pub proof fn lemma_band_order_transitive(a: Seq<u32>, b: Seq<u32>, c: Seq<u32>)
    requires
        band_order(a, b) <= 0,
        band_order(b, c) <= 0,
    ensures
        band_order(a, c) <= 0,
        band_order(a, b) < 0 || band_order(b, c) < 0 ==> band_order(a, c) < 0,
    decreases a.len(),
{
    if a.len() > 0 && b.len() > 0 && c.len() > 0 && a[0] == b[0] && b[0] == c[0] {
        lemma_band_order_transitive(a.drop_first(), b.drop_first(), c.drop_first());
    }
}

} // verus!
