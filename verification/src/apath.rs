//! Archive paths and their order.
//!
//! An apath names one entry of a stored tree: `/` for the root, `/a/b` for
//! what lies below it. Its parts are divided by `/`; none of them is empty,
//! `.` or `..`.
//!
//! Apaths are ordered part by part, each part by the order of its bytes, so
//! that a directory comes before what it holds and `/a/b` comes before
//! `/a.b`.

use crate::errors::Error;
use vstd::prelude::*;
use vstd::utf8::encode_utf8;

verus! {

/// The byte that divides the parts of an apath: `/`.
pub const SEPARATOR: u8 = 0x2f;

/// The byte `.`, of which the two forbidden parts are made.
pub const DOT: u8 = 0x2e;

/// The parts of `s` that `/` divides, in order. A text without `/` is its
/// own single part.
pub open spec fn parts(s: Seq<u8>) -> Seq<Seq<u8>>
    decreases s.len(),
{
    let k = part_end(s);
    if k < 0 || k >= s.len() {
        seq![s]
    } else {
        seq![s.take(k)] + parts(s.skip(k + 1))
    }
}

/// The length of the first part of `s`: the index of the first `/`, or the
/// length of `s` where it holds none.
pub open spec fn part_end(s: Seq<u8>) -> int
    decreases s.len(),
{
    if s.len() == 0 || s[0] == SEPARATOR {
        0
    } else {
        1 + part_end(s.drop_first())
    }
}

/// How the bytes `a` stand to the bytes `b` in the order of byte strings: -1
/// where `a` comes first, 0 where they are the same, 1 where `a` comes
/// last. The first byte that differs decides, and a beginning comes before
/// its continuations.
pub open spec fn bytes_order(a: Seq<u8>, b: Seq<u8>) -> int
    decreases a.len(),
{
    if a.len() == 0 && b.len() == 0 {
        0
    } else if a.len() == 0 {
        -1
    } else if b.len() == 0 {
        1
    } else if a[0] < b[0] {
        -1
    } else if a[0] > b[0] {
        1
    } else {
        bytes_order(a.drop_first(), b.drop_first())
    }
}

/// How the parts `x` stand to the parts `y`: the first part that differs
/// decides, by the order of its bytes, and a beginning comes before its
/// continuations.
pub open spec fn parts_order(x: Seq<Seq<u8>>, y: Seq<Seq<u8>>) -> int
    decreases x.len(),
{
    if x.len() == 0 && y.len() == 0 {
        0
    } else if x.len() == 0 {
        -1
    } else if y.len() == 0 {
        1
    } else if bytes_order(x[0], y[0]) != 0 {
        bytes_order(x[0], y[0])
    } else {
        parts_order(x.drop_first(), y.drop_first())
    }
}

/// How the apath with the bytes `a` stands to the one with the bytes `b`: -1
/// where `a` comes first, 0 where they are the same, 1 where `a` comes
/// last. Both are divided at `/` and compared part by part.
pub open spec fn apath_order(a: Seq<u8>, b: Seq<u8>) -> int {
    parts_order(parts(a), parts(b))
}

/// The place of a byte within a part-by-part comparison: the separator
/// stands before every other byte.
pub open spec fn byte_rank(b: u8) -> int {
    if b == SEPARATOR {
        0
    } else {
        b as int + 1
    }
}

/// The order of the byte strings `a` and `b` in which the separator stands
/// before every other byte.
pub open spec fn rank_order(a: Seq<u8>, b: Seq<u8>) -> int
    decreases a.len(),
{
    if a.len() == 0 && b.len() == 0 {
        0
    } else if a.len() == 0 {
        -1
    } else if b.len() == 0 {
        1
    } else if byte_rank(a[0]) < byte_rank(b[0]) {
        -1
    } else if byte_rank(a[0]) > byte_rank(b[0]) {
        1
    } else {
        rank_order(a.drop_first(), b.drop_first())
    }
}

/// Whether the part of `s` that starts at `start` is a proper one: not
/// empty, and neither `.` nor `..`.
pub open spec fn proper_part(s: Seq<u8>, start: int) -> bool {
    &&& start < s.len() && s[start] != SEPARATOR
    &&& !(s[start] == DOT && (start + 1 == s.len() || s[start + 1] == SEPARATOR))
    &&& !(s[start] == DOT && start + 1 < s.len() && s[start + 1] == DOT && (start + 2 == s.len()
        || s[start + 2] == SEPARATOR))
}

/// Whether the bytes `s` are a well-formed apath: `/` alone, or `/` before
/// each of one or more proper parts.
pub open spec fn valid_apath(s: Seq<u8>) -> bool {
    &&& s.len() >= 1
    &&& s[0] == SEPARATOR
    &&& s.len() == 1 || forall|i: int|
        0 <= i < s.len() && s[i] == SEPARATOR ==> #[trigger] proper_part(s, i + 1)
}

/// Whether the apath `a` lies in the tree below the apath `top`: it is
/// `top`, or it continues `top` with further parts.
pub open spec fn within(a: Seq<u8>, top: Seq<u8>) -> bool {
    ||| a == top
    ||| top == seq![SEPARATOR]
    ||| a.len() > top.len() && a.take(top.len() as int) == top && a[top.len() as int]
        == SEPARATOR
}

/// The name of one entry of a stored tree.
#[derive(Debug, PartialEq, Eq, Hash)]
pub struct Apath {
    text: String,
}

impl View for Apath {
    type V = Seq<u8>;

    /// The bytes of the apath.
    closed spec fn view(&self) -> Seq<u8> {
        encode_utf8(self.text@)
    }
}

impl Clone for Apath {
    fn clone(&self) -> (a: Apath)
        ensures
            a@ == self@,
            a.text() == self.text(),
    {
        proof {
            use_type_invariant(self);
        }
        Apath { text: self.text.clone() }
    }
}

/// Whether the part of `b` that starts at `start` is a proper one.
fn is_proper_part(b: &[u8], start: usize) -> (r: bool)
    requires
        start <= b@.len(),
    ensures
        r == proper_part(b@, start as int),
{
    let n = b.len();
    if start >= n || b[start] == SEPARATOR {
        return false;
    }
    if b[start] != DOT {
        return true;
    }
    if start + 1 == n || b[start + 1] == SEPARATOR {
        return false;
    }
    if b[start + 1] == DOT && (start + 2 == n || b[start + 2] == SEPARATOR) {
        return false;
    }
    true
}

impl Apath {
    /// Every apath is well formed.
    #[verifier::type_invariant]
    pub open spec fn well_formed(&self) -> bool {
        valid_apath(self@)
    }

    /// The characters of the apath.
    pub closed spec fn text(&self) -> Seq<char> {
        self.text@
    }

    /// The bytes of an apath are its characters in UTF-8.
    pub proof fn lemma_bytes(&self)
        ensures
            self@ == encode_utf8(self.text()),
    {
    }

    /// The apath of the root of a tree: `/`.
    pub fn root() -> (a: Apath)
        ensures
            a@ == seq![SEPARATOR],
            a.text() == seq!['/'],
    {
        proof {
            lemma_root_is_valid();
        }
        Apath { text: "/".to_owned() }
    }

    /// Whether `s` is a well-formed apath.
    pub fn is_valid(s: &str) -> (r: bool)
        ensures
            r == valid_apath(encode_utf8(s@)),
    {
        let b = s.as_bytes();
        let n = b.len();
        if n == 0 || b[0] != SEPARATOR {
            return false;
        }
        if n == 1 {
            return true;
        }
        let mut i: usize = 0;
        while i < n
            invariant
                b@ == encode_utf8(s@),
                n == b@.len(),
                n > 1,
                b@[0] == SEPARATOR,
                i <= n,
                forall|j: int| 0 <= j < i
                    && b@[j] == SEPARATOR ==> #[trigger] proper_part(b@, j + 1),
            decreases n - i,
        {
            if b[i] == SEPARATOR && !is_proper_part(b, i + 1) {
                return false;
            }
            i += 1;
        }
        true
    }

    /// The apath that `s` spells, or an error where `s` is not well formed.
    pub fn new(s: &str) -> (r: Result<Apath, Error>)
        ensures
            match r {
                Ok(a) => valid_apath(encode_utf8(s@)) && a@ == encode_utf8(s@) && a.text() == s@,
                Err(e) => !valid_apath(encode_utf8(s@)) && (e matches Error::InvalidApath { s: t }
                    && t@ == s@),
            },
    {
        if Apath::is_valid(s) {
            Ok(Apath { text: s.to_owned() })
        } else {
            Err(Error::InvalidApath { s: s.to_owned() })
        }
    }

    /// The characters of the apath.
    pub fn as_str(&self) -> (s: &str)
        ensures
            s@ == self.text(),
            encode_utf8(s@) == self@,
    {
        self.text.as_str()
    }

    /// The apath as an owned string.
    pub fn to_string(&self) -> (s: String)
        ensures
            s@ == self.text(),
    {
        self.text.clone()
    }

    /// Compares two apaths part by part: -1 where `self` comes first, 0
    /// where they are the same, 1 where `self` comes last.
    pub fn compare(&self, other: &Apath) -> (r: i8)
        ensures
            r == apath_order(self@, other@),
    {
        let a = self.text.as_str().as_bytes();
        let b = other.text.as_str().as_bytes();
        proof {
            lemma_apath_order_by_rank(a@, b@);
            assert(a@.skip(0) =~= a@ && b@.skip(0) =~= b@);
        }
        let mut i: usize = 0;
        while i < a.len() && i < b.len()
            invariant
                a@ == self@,
                b@ == other@,
                apath_order(a@, b@) == rank_order(a@, b@),
                i <= a@.len(),
                i <= b@.len(),
                rank_order(a@, b@) == rank_order(a@.skip(i as int), b@.skip(i as int)),
            decreases a@.len() - i,
        {
            proof {
                assert(a@.skip(i as int).drop_first() =~= a@.skip(i + 1));
                assert(b@.skip(i as int).drop_first() =~= b@.skip(i + 1));
                assert(a@.skip(i as int)[0] == a@[i as int]);
                assert(b@.skip(i as int)[0] == b@[i as int]);
            }
            let x = a[i];
            let y = b[i];
            if x != y {
                if x == SEPARATOR {
                    return -1;
                }
                if y == SEPARATOR {
                    return 1;
                }
                if x < y {
                    return -1;
                }
                return 1;
            }
            i += 1;
        }
        if i < b.len() {
            -1
        } else if i < a.len() {
            1
        } else {
            0
        }
    }

    /// Whether this apath lies in the tree below `top`.
    pub fn is_within(&self, top: &Apath) -> (r: bool)
        ensures
            r == within(self@, top@),
    {
        let a = self.text.as_str().as_bytes();
        let t = top.text.as_str().as_bytes();
        if t.len() == 1 && t[0] == SEPARATOR {
            assert(t@ =~= seq![SEPARATOR]);
            return true;
        }
        proof {
            if t@ == seq![SEPARATOR] {
                assert(t@.len() == 1 && t@[0] == SEPARATOR);
            }
        }
        if a.len() < t.len() {
            return false;
        }
        let mut i: usize = 0;
        while i < t.len()
            invariant
                a@ == self@,
                t@ == top@,
                t@ != seq![SEPARATOR],
                i <= t@.len() <= a@.len(),
                a@.take(i as int) == t@.take(i as int),
            decreases t@.len() - i,
        {
            if a[i] != t[i] {
                proof {
                    if a@.take(t@.len() as int) == t@ {
                        assert(a@.take(t@.len() as int)[i as int] == t@[i as int]);
                    }
                }
                return false;
            }
            assert(a@.take(i + 1) =~= a@.take(i as int).push(a@[i as int]));
            assert(t@.take(i + 1) =~= t@.take(i as int).push(t@[i as int]));
            i += 1;
        }
        assert(t@.take(t@.len() as int) =~= t@);
        if a.len() == t.len() {
            assert(a@.take(a@.len() as int) =~= a@);
            return true;
        }
        a[t.len()] == SEPARATOR
    }
}

/// The text `/` is a well-formed apath: that of the root.
pub proof fn lemma_root_is_valid()
    ensures
        "/"@ == seq!['/'],
        encode_utf8("/"@) == seq![SEPARATOR],
        valid_apath(encode_utf8("/"@)),
{
    reveal_strlit("/");
    assert("/"@ =~= seq!['/']);
    vstd::utf8::is_ascii_chars_encode_utf8("/"@);
    assert(encode_utf8("/"@) =~= seq![SEPARATOR]);
}

/// The first part of a text that starts with another byte than `/`.
proof fn lemma_parts_unfold(s: Seq<u8>)
    requires
        s.len() >= 1,
        s[0] != SEPARATOR,
    ensures
        parts(s).len() >= 1,
        parts(s.drop_first()).len() >= 1,
        parts(s)[0] == seq![s[0]] + parts(s.drop_first())[0],
        parts(s).drop_first() == parts(s.drop_first()).drop_first(),
{
    let t = s.drop_first();
    let k = part_end(s);
    let j = part_end(t);
    lemma_part_end_bounds(t);
    assert(k == j + 1);
    if j >= t.len() {
        assert(parts(t) == seq![t]);
        assert(parts(s) == seq![s]);
        assert(s =~= seq![s[0]] + t);
        assert(parts(s).drop_first() =~= parts(t).drop_first());
    } else {
        assert(s.take(k) =~= seq![s[0]] + t.take(j));
        assert(s.skip(k + 1) =~= t.skip(j + 1));
        assert(parts(s).drop_first() =~= parts(s.skip(k + 1)));
        assert(parts(t).drop_first() =~= parts(t.skip(j + 1)));
    }
}

/// The first part ends within the text.
proof fn lemma_part_end_bounds(s: Seq<u8>)
    ensures
        0 <= part_end(s) <= s.len(),
    decreases s.len(),
{
    if s.len() > 0 && s[0] != SEPARATOR {
        lemma_part_end_bounds(s.drop_first());
    }
}

/// Every text has at least one part.
proof fn lemma_parts_non_empty(s: Seq<u8>)
    ensures
        parts(s).len() >= 1,
{
}

/// Comparing part by part is comparing byte by byte with the separator
/// before every other byte.
#[verifier::rlimit(40)]
pub proof fn lemma_apath_order_by_rank(a: Seq<u8>, b: Seq<u8>)
    ensures
        apath_order(a, b) == rank_order(a, b),
    decreases a.len() + b.len(),
{
    reveal_with_fuel(parts_order, 2);
    lemma_part_end_bounds(a);
    lemma_part_end_bounds(b);
    if a.len() == 0 && b.len() == 0 {
        assert(parts(a) == seq![a]);
        assert(parts(b) == seq![b]);
        assert(parts(a).drop_first().len() == 0);
        assert(parts(b).drop_first().len() == 0);
    } else if a.len() == 0 {
        assert(parts(a) == seq![a]);
        assert(parts(a).drop_first().len() == 0);
        if b[0] == SEPARATOR {
            assert(parts(b)[0] =~= b.take(0));
            assert(parts(b).drop_first() =~= parts(b.skip(1)));
            lemma_parts_non_empty(b.skip(1));
        } else {
            lemma_parts_unfold(b);
        }
    } else if b.len() == 0 {
        assert(parts(b) == seq![b]);
        assert(parts(b).drop_first().len() == 0);
        if a[0] == SEPARATOR {
            assert(parts(a)[0] =~= a.take(0));
            assert(parts(a).drop_first() =~= parts(a.skip(1)));
            lemma_parts_non_empty(a.skip(1));
        } else {
            lemma_parts_unfold(a);
        }
    } else if a[0] == SEPARATOR && b[0] == SEPARATOR {
        assert(parts(a)[0] =~= a.take(0));
        assert(parts(b)[0] =~= b.take(0));
        assert(parts(a).drop_first() =~= parts(a.skip(1)));
        assert(parts(b).drop_first() =~= parts(b.skip(1)));
        assert(a.skip(1) =~= a.drop_first());
        assert(b.skip(1) =~= b.drop_first());
        lemma_apath_order_by_rank(a.drop_first(), b.drop_first());
    } else if a[0] == SEPARATOR {
        assert(parts(a)[0] =~= a.take(0));
        lemma_parts_unfold(b);
    } else if b[0] == SEPARATOR {
        assert(parts(b)[0] =~= b.take(0));
        lemma_parts_unfold(a);
    } else {
        lemma_parts_unfold(a);
        lemma_parts_unfold(b);
        let pa = parts(a.drop_first());
        let pb = parts(b.drop_first());
        if a[0] == b[0] {
            let x = seq![a[0]] + pa[0];
            let y = seq![b[0]] + pb[0];
            assert(x.drop_first() =~= pa[0]);
            assert(y.drop_first() =~= pb[0]);
            assert(bytes_order(x, y) == bytes_order(pa[0], pb[0]));
            lemma_apath_order_by_rank(a.drop_first(), b.drop_first());
            assert(parts_order(parts(a), parts(b)) == parts_order(pa, pb));
        }
    }
}

/// The order of apaths is one of three outcomes, and swapping the two sides
/// swaps the outcome.
pub proof fn lemma_apath_order_antisymmetric(a: Seq<u8>, b: Seq<u8>)
    ensures
        -1 <= apath_order(a, b) <= 1,
        apath_order(a, b) == -apath_order(b, a),
{
    lemma_apath_order_by_rank(a, b);
    lemma_apath_order_by_rank(b, a);
    lemma_rank_order_antisymmetric(a, b);
}

/// Two apaths stand level in the order exactly where they are the same.
pub proof fn lemma_apath_order_equal(a: Seq<u8>, b: Seq<u8>)
    ensures
        apath_order(a, b) == 0 <==> a == b,
{
    lemma_apath_order_by_rank(a, b);
    lemma_rank_order_equal(a, b);
}

/// The order of apaths is transitive.
pub proof fn lemma_apath_order_transitive(a: Seq<u8>, b: Seq<u8>, c: Seq<u8>)
    requires
        apath_order(a, b) <= 0,
        apath_order(b, c) <= 0,
    ensures
        apath_order(a, c) <= 0,
        apath_order(a, b) < 0 || apath_order(b, c) < 0 ==> apath_order(a, c) < 0,
{
    lemma_apath_order_by_rank(a, b);
    lemma_apath_order_by_rank(b, c);
    lemma_apath_order_by_rank(a, c);
    lemma_rank_order_transitive(a, b, c);
}

proof fn lemma_rank_order_antisymmetric(a: Seq<u8>, b: Seq<u8>)
    ensures
        -1 <= rank_order(a, b) <= 1,
        rank_order(a, b) == -rank_order(b, a),
    decreases a.len(),
{
    if a.len() > 0 && b.len() > 0 && a[0] == b[0] {
        lemma_rank_order_antisymmetric(a.drop_first(), b.drop_first());
    }
}

proof fn lemma_rank_order_equal(a: Seq<u8>, b: Seq<u8>)
    ensures
        rank_order(a, b) == 0 <==> a == b,
    decreases a.len(),
{
    if a.len() > 0 && b.len() > 0 && a[0] == b[0] {
        lemma_rank_order_equal(a.drop_first(), b.drop_first());
        if a.drop_first() == b.drop_first() {
            assert(a =~= seq![a[0]] + a.drop_first());
            assert(b =~= seq![b[0]] + b.drop_first());
        }
    } else if a.len() == 0 && b.len() == 0 {
        assert(a =~= b);
    }
}

proof fn lemma_rank_order_transitive(a: Seq<u8>, b: Seq<u8>, c: Seq<u8>)
    requires
        rank_order(a, b) <= 0,
        rank_order(b, c) <= 0,
    ensures
        rank_order(a, c) <= 0,
        rank_order(a, b) < 0 || rank_order(b, c) < 0 ==> rank_order(a, c) < 0,
    decreases a.len(),
{
    if a.len() > 0 && b.len() > 0 && c.len() > 0 && a[0] == b[0] && b[0] == c[0] {
        lemma_rank_order_transitive(a.drop_first(), b.drop_first(), c.drop_first());
    }
}

} // verus!
