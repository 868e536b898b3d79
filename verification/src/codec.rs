//! Hashing and compression of blocks.
//!
//! The digest and the compression are the work of outside code. What the
//! rest of the library knows of them is stated here and nowhere proved.

use crate::text::digit_char;
use vstd::prelude::*;

verus! {

/// The length in bytes of the digest that names a block.
pub const DIGEST_LEN: usize = 32;

/// The length in characters of a block's name: its digest in hexadecimal.
pub const HASH_LEN: usize = 64;

/// The BLAKE2b digest of `data`, `nn` bytes long, without a key.
pub uninterp spec fn blake2b_digest(nn: nat, data: Seq<u8>) -> Seq<u8>;

/// What Snappy's raw format makes of `data`, or `None` where `data` is too
/// long for it.
pub uninterp spec fn snappy_compressed(data: Seq<u8>) -> Option<Seq<u8>>;

/// The bytes of which `data` is the Snappy raw form, or `None` where it is
/// the form of none.
pub uninterp spec fn snappy_decompressed(data: Seq<u8>) -> Option<Seq<u8>>;

/// Calls `blake2_rfc::blake2b::blake2b` without a key.
///
/// Trusted: the digest depends on the length asked for and on the data
/// alone, and is as long as was asked for.
#[verifier::external_body]
pub(crate) fn blake2b(nn: usize, data: &[u8]) -> (digest: Vec<u8>)
    requires
        1 <= nn <= 64,
    ensures
        digest@ == blake2b_digest(nn as nat, data@),
        digest@.len() == nn,
{
    blake2_rfc::blake2b::blake2b(nn, &[], data).as_bytes().to_vec()
}

/// Calls `snap::raw::Encoder::compress_vec`.
///
/// Trusted: the outcome depends on the data alone; it fails exactly where
/// the longest possible output, 32 bytes more than seven sixths of the
/// input, would not fit in 32 bits; what it returns is not empty and
/// decompresses to the data.
#[verifier::external_body]
pub(crate) fn snappy_compress(data: &[u8]) -> (r: Option<Vec<u8>>)
    ensures
        match r {
            Some(c) => snappy_compressed(data@) == Some(c@) && c@.len() >= 1
                && snappy_decompressed(c@) == Some(data@),
            None => snappy_compressed(data@) is None,
        },
        r is Some <==> 32 + data@.len() + data@.len() / 6 <= u32::MAX,
{
    snap::raw::Encoder::new().compress_vec(data).ok()
}

/// Calls `snap::raw::Decoder::decompress_vec`.
///
/// Trusted: the outcome depends on the data alone, and empty data is
/// refused.
#[verifier::external_body]
pub(crate) fn snappy_decompress(data: &[u8]) -> (r: Option<Vec<u8>>)
    ensures
        match r {
            Some(b) => snappy_decompressed(data@) == Some(b@),
            None => snappy_decompressed(data@) is None,
        },
        data@.len() == 0 ==> r is None,
{
    snap::raw::Decoder::new().decompress_vec(data).ok()
}

/// Compresses `data` as blocks and the hunks of an index are compressed
/// for storage. There is no compressed form of data so long that its
/// longest possible form, 32 bytes more than seven sixths of it, does not
/// fit in 32 bits.
pub fn compress(data: &[u8]) -> (r: Option<Vec<u8>>)
    ensures
        match r {
            Some(c) => snappy_compressed(data@) == Some(c@) && c@.len() >= 1
                && snappy_decompressed(c@) == Some(data@),
            None => snappy_compressed(data@) is None,
        },
        r is Some <==> 32 + data@.len() + data@.len() / 6 <= u32::MAX,
{
    snappy_compress(data)
}

/// The data of which `data` is the compressed form, or `None` where it is
/// the compressed form of nothing. Empty data is the form of nothing.
pub fn decompress(data: &[u8]) -> (r: Option<Vec<u8>>)
    ensures
        match r {
            Some(b) => snappy_decompressed(data@) == Some(b@),
            None => snappy_decompressed(data@) is None,
        },
        data@.len() == 0 ==> r is None,
{
    snappy_decompress(data)
}

/// The lower-case hexadecimal digit for `d`.
pub open spec fn hex_char(d: nat) -> char
    recommends
        d < 16,
{
    if d < 10 {
        digit_char(d)
    } else if d == 10 {
        'a'
    } else if d == 11 {
        'b'
    } else if d == 12 {
        'c'
    } else if d == 13 {
        'd'
    } else if d == 14 {
        'e'
    } else {
        'f'
    }
}

/// Whether `c` is a lower-case hexadecimal digit.
pub open spec fn is_hex_char(c: char) -> bool {
    ('0' <= c && c <= '9') || ('a' <= c && c <= 'f')
}

/// `bytes` in lower-case hexadecimal, two digits for each byte, the high
/// half first.
pub open spec fn hex_text(bytes: Seq<u8>) -> Seq<char> {
    Seq::new(
        2 * bytes.len(),
        |i: int|
            if i % 2 == 0 {
                hex_char((bytes[i / 2] / 16) as nat)
            } else {
                hex_char((bytes[i / 2] % 16) as nat)
            },
    )
}

/// The name under which a block with the content `data` is stored: its
/// 256-bit BLAKE2b digest in lower-case hexadecimal.
pub open spec fn block_hash(data: Seq<u8>) -> Seq<char> {
    hex_text(blake2b_digest(DIGEST_LEN as nat, data))
}

/// Whether `name` has the form of a block's name: 64 lower-case
/// hexadecimal digits.
pub open spec fn is_block_name(name: Seq<char>) -> bool {
    &&& name.len() == HASH_LEN
    &&& forall|i: int| 0 <= i < name.len() ==> is_hex_char(#[trigger] name[i])
}

/// The hexadecimal text of any bytes is made of hexadecimal digits.
pub proof fn lemma_hex_text(bytes: Seq<u8>)
    ensures
        hex_text(bytes).len() == 2 * bytes.len(),
        forall|i: int|
            0 <= i < hex_text(bytes).len() ==> is_hex_char(#[trigger] hex_text(bytes)[i]),
{
    assert forall|i: int| 0 <= i < hex_text(bytes).len() implies is_hex_char(
        #[trigger] hex_text(bytes)[i],
    ) by {
        let b = bytes[i / 2];
        assert(is_hex_char(hex_char((b / 16) as nat)));
        assert(is_hex_char(hex_char((b % 16) as nat)));
    }
}

/// The lower-case hexadecimal digit for `d`.
fn hex_digit(d: u8) -> (c: char)
    requires
        d < 16,
    ensures
        c == hex_char(d as nat),
{
    if d < 10 {
        crate::text::digit_of(d)
    } else if d == 10 {
        'a'
    } else if d == 11 {
        'b'
    } else if d == 12 {
        'c'
    } else if d == 13 {
        'd'
    } else if d == 14 {
        'e'
    } else {
        'f'
    }
}

/// `bytes` in lower-case hexadecimal.
pub fn hex_encode(bytes: &[u8]) -> (s: String)
    ensures
        s@ == hex_text(bytes@),
{
    let mut s = String::new();
    let mut i: usize = 0;
    while i < bytes.len()
        invariant
            i <= bytes@.len(),
            s@ == hex_text(bytes@.take(i as int)),
        decreases bytes@.len() - i,
    {
        let b = bytes[i];
        let ghost before = s@;
        s.push(hex_digit(b / 16));
        s.push(hex_digit(b % 16));
        proof {
            let next = bytes@.take(i + 1);
            let prev = bytes@.take(i as int);
            assert forall|j: int| 0 <= j < 2 * (i + 1) implies s@[j] == hex_text(next)[j] by {
                if j < 2 * i {
                    assert(s@[j] == before[j]);
                    assert(prev[j / 2] == next[j / 2]);
                } else {
                    assert(next[j / 2] == b);
                }
            }
            assert(s@ =~= hex_text(next));
        }
        i += 1;
    }
    assert(bytes@.take(bytes@.len() as int) =~= bytes@);
    s
}

/// The name under which a block with the content `data` is stored.
pub fn hash_bytes(data: &[u8]) -> (hash: String)
    ensures
        hash@ == block_hash(data@),
        is_block_name(hash@),
{
    let digest = blake2b(DIGEST_LEN, data);
    proof {
        lemma_hex_text(digest@);
    }
    hex_encode(digest.as_slice())
}

/// The path of the block named `hash` below the directory of an archive:
/// in `d`, in the directory named by the first three digits of the hash.
pub open spec fn block_path(hash: Seq<char>) -> Seq<char> {
    seq!['d', '/'] + hash.take(3) + seq!['/'] + hash
}

/// The path of the block named `hash` below the directory of an archive.
/// There is none for a name that has not the form of a hash.
pub fn block_relpath(hash: &str) -> (r: Option<String>)
    ensures
        match r {
            Some(path) => is_block_name(hash@) && path@ == block_path(hash@),
            None => !is_block_name(hash@),
        },
{
    if !has_block_name_form(hash) {
        return None;
    }
    let cs = crate::text::chars_of(hash);
    let mut out: Vec<char> = Vec::new();
    out.push('d');
    out.push('/');
    out.push(cs[0]);
    out.push(cs[1]);
    out.push(cs[2]);
    out.push('/');
    let ghost head = out@;
    assert(head =~= seq!['d', '/'] + hash@.take(3) + seq!['/']);
    let mut i: usize = 0;
    while i < cs.len()
        invariant
            i <= cs@.len(),
            out@ == head + cs@.take(i as int),
        decreases cs@.len() - i,
    {
        out.push(cs[i]);
        i += 1;
        assert(out@ =~= head + cs@.take(i as int));
    }
    assert(cs@.take(cs@.len() as int) =~= cs@);
    Some(crate::text::string_of(&out))
}

/// Whether `name` has the form of a block's name.
pub fn has_block_name_form(name: &str) -> (r: bool)
    ensures
        r == is_block_name(name@),
{
    let cs = crate::text::chars_of(name);
    if cs.len() != HASH_LEN {
        return false;
    }
    let mut i: usize = 0;
    while i < cs.len()
        invariant
            i <= cs@.len(),
            cs@ == name@,
            cs@.len() == HASH_LEN,
            forall|j: int| 0 <= j < i ==> is_hex_char(#[trigger] cs@[j]),
        decreases cs@.len() - i,
    {
        let c = cs[i];
        if !(('0' <= c && c <= '9') || ('a' <= c && c <= 'f')) {
            return false;
        }
        i += 1;
    }
    true
}

} // verus!
