//! The block directory: the content of all files, stored once.
//!
//! Each block is kept in compressed form under a name that is the hash of
//! what it holds, so the same content is never stored twice and any damage
//! to a block shows when it is read.

use crate::codec::{
    block_hash, has_block_name_form, hash_bytes, is_block_name, snappy_compress,
    snappy_compressed, snappy_decompress, snappy_decompressed,
};
use crate::errors::Error;
use crate::stats::ValidateBlockDirStats;
use crate::text::{same_text, texts};
use vstd::prelude::*;

verus! {

/// The model of a block directory: the stored bytes of each file, by name.
pub type Blocks = Map<Seq<char>, Seq<u8>>;

/// What is read back from `blocks` under the name `hash`: the bytes that
/// the stored file decompresses to, where there is such a file and those
/// bytes have the hash that it is named by.
pub open spec fn block_content(blocks: Blocks, hash: Seq<char>) -> Option<Seq<u8>> {
    if !blocks.contains_key(hash) {
        None
    } else {
        match snappy_decompressed(blocks[hash]) {
            Some(b) => if block_hash(b) == hash {
                Some(b)
            } else {
                None
            },
            None => None,
        }
    }
}

/// Whether storing `bytes` in `before` succeeds and leaves `after`.
///
/// Data that is already there, under a file that is not empty, is left as
/// it is. Otherwise the compressed data, which is not empty and
/// decompresses to `bytes`, is added under its hash.
pub open spec fn stored(before: Blocks, bytes: Seq<u8>, after: Blocks) -> bool {
    let hash = block_hash(bytes);
    match snappy_compressed(bytes) {
        None => false,
        Some(c) => c.len() >= 1 && snappy_decompressed(c) == Some(bytes) && if before.contains_key(
            hash,
        ) {
            before[hash].len() > 0 && after == before
        } else {
            after == before.insert(hash, c)
        },
    }
}

/// The bytes `start .. start + len` of `data`, where they lie within it.
pub open spec fn sliced(data: Seq<u8>, start: u64, len: u64) -> Option<Seq<u8>> {
    if start + len <= data.len() {
        Some(data.subrange(start as int, start + len))
    } else {
        None
    }
}

/// How many of the files `names` have the form of a block's name.
pub open spec fn count_blocks(names: Seq<Seq<char>>) -> nat
    decreases names.len(),
{
    if names.len() == 0 {
        0
    } else {
        count_blocks(names.drop_last()) + if is_block_name(names.last()) {
            1nat
        } else {
            0nat
        }
    }
}

/// How many of the files `names` have the form of a block's name and do
/// not read back from `blocks`.
pub open spec fn count_damaged(names: Seq<Seq<char>>, blocks: Blocks) -> nat
    decreases names.len(),
{
    if names.len() == 0 {
        0
    } else {
        count_damaged(names.drop_last(), blocks) + if is_block_name(names.last())
            && block_content(blocks, names.last()) is None {
            1nat
        } else {
            0nat
        }
    }
}

/// Neither count exceeds the number of files.
pub proof fn lemma_counts_bounded(names: Seq<Seq<char>>, blocks: Blocks)
    ensures
        count_damaged(names, blocks) <= count_blocks(names) <= names.len(),
    decreases names.len(),
{
    if names.len() > 0 {
        lemma_counts_bounded(names.drop_last(), blocks);
    }
}

/// One file of the block directory.
struct Block {
    name: String,
    data: Vec<u8>,
}

/// A store of blocks, each under the hash of its content.
pub struct BlockDir {
    blocks: Vec<Block>,
}

impl View for BlockDir {
    type V = Blocks;

    closed spec fn view(&self) -> Blocks {
        Map::new(
            |n: Seq<char>| self.names().contains(n),
            |n: Seq<char>| self.blocks@[self.names().index_of(n)].data@,
        )
    }
}

impl BlockDir {
    /// The names of the stored files, in the order in which they are kept.
    pub closed spec fn names(&self) -> Seq<Seq<char>> {
        Seq::new(self.blocks@.len(), |i: int| self.blocks@[i].name@)
    }

    /// No two stored files have the same name.
    #[verifier::type_invariant]
    pub closed spec fn well_formed(&self) -> bool {
        self.names().no_duplicates()
    }

    /// The stored files are those that the model holds, each once.
    pub proof fn lemma_names(&self)
        requires
            self.well_formed(),
        ensures
            self.names().no_duplicates(),
            forall|n: Seq<char>| self.names().contains(n) <==> self@.contains_key(n),
    {
    }

    /// Where the file `name` is kept.
    fn find(&self, name: &str) -> (r: Option<usize>)
        ensures
            match r {
                Some(i) => i < self.blocks@.len() && self.blocks@[i as int].name@ == name@
                    && self@.contains_key(name@) && self@[name@] == self.blocks@[i as int].data@,
                None => !self@.contains_key(name@),
            },
    {
        proof {
            use_type_invariant(self);
        }
        let mut i: usize = 0;
        while i < self.blocks.len()
            invariant
                self.well_formed(),
                i <= self.blocks@.len(),
                forall|j: int| 0 <= j < i ==> self.blocks@[j].name@ != name@,
            decreases self.blocks@.len() - i,
        {
            if same_text(self.blocks[i].name.as_str(), name) {
                proof {
                    let names = self.names();
                    assert(names[i as int] == name@);
                    let k = names.index_of(name@);
                    assert(names[k] == name@);
                    assert(k == i);
                }
                return Some(i);
            }
            i += 1;
        }
        proof {
            let names = self.names();
            if names.contains(name@) {
                let k = choose|k: int| 0 <= k < names.len() && names[k] == name@;
                assert(self.blocks@[k].name@ == name@);
            }
        }
        None
    }

    /// An empty block directory.
    pub fn new() -> (dir: BlockDir)
        ensures
            dir@ == Map::<Seq<char>, Seq<u8>>::empty(),
            dir.names() == Seq::<Seq<char>>::empty(),
    {
        let dir = BlockDir { blocks: Vec::new() };
        assert(dir@ =~= Map::<Seq<char>, Seq<u8>>::empty());
        assert(dir.names() =~= Seq::<Seq<char>>::empty());
        dir
    }

    /// Puts the file `name` with the bytes `data` into the directory, as it
    /// was found in storage. A file of that name that is already there
    /// stays, and `false` is returned.
    #[verifier::rlimit(40)]
    pub fn insert_file(&mut self, name: String, data: Vec<u8>) -> (added: bool)
        ensures
            added == !old(self)@.contains_key(name@),
            added ==> final(self)@ == old(self)@.insert(name@, data@) && final(self).names()
                == old(self).names().push(name@),
            !added ==> final(self)@ == old(self)@ && final(self).names() == old(self).names(),
    {
        if self.find(name.as_str()).is_some() {
            return false;
        }
        proof {
            use_type_invariant(&*self);
        }
        let ghost before = *self;
        let mut blocks: Vec<Block> = Vec::new();
        core::mem::swap(&mut self.blocks, &mut blocks);
        blocks.push(Block { name, data });
        proof {
            let names = Seq::new(blocks@.len(), |i: int| blocks@[i].name@);
            assert(names =~= before.names().push(name@));
            assert forall|i: int, j: int|
                0 <= i < names.len() && 0 <= j < names.len() && i != j implies names[i]
                != names[j] by {
                if i < before.names().len() {
                    assert(before.names()[i] == names[i]);
                }
                if j < before.names().len() {
                    assert(before.names()[j] == names[j]);
                }
            }
        }
        self.blocks = blocks;
        proof {
            assert(self.names() =~= before.names().push(name@));
            assert forall|n: Seq<char>| #[trigger]
                self@.contains_key(n) == before@.insert(name@, data@).contains_key(n) by {
                if before.names().contains(n) {
                    let k = before.names().index_of(n);
                    assert(self.names()[k] == n);
                }
                if n == name@ {
                    assert(self.names()[before.names().len() as int] == n);
                }
            }
            assert forall|n: Seq<char>| self@.contains_key(n) implies #[trigger] self@[n]
                == before@.insert(name@, data@)[n] by {
                let k = self.names().index_of(n);
                if n != name@ {
                    let j = before.names().index_of(n);
                    assert(self.names()[j] == n);
                    assert(j == k);
                } else {
                    assert(self.names()[before.names().len() as int] == n);
                    assert(k == before.names().len());
                }
            }
            assert(self@ =~= before@.insert(name@, data@));
        }
        true
    }

    /// Whether a file named `hash` is stored.
    pub fn contains(&self, hash: &str) -> (r: bool)
        ensures
            r == self@.contains_key(hash@),
    {
        self.find(hash).is_some()
    }

    /// The names of all the stored files, in the order in which they are
    /// kept.
    pub fn file_names(&self) -> (names: Vec<String>)
        ensures
            texts(names@) == self.names(),
    {
        let mut names: Vec<String> = Vec::new();
        let mut i: usize = 0;
        while i < self.blocks.len()
            invariant
                i <= self.blocks@.len(),
                names@.len() == i,
                forall|j: int| 0 <= j < i ==> (#[trigger] names@[j])@ == self.blocks@[j].name@,
            decreases self.blocks@.len() - i,
        {
            names.push(self.blocks[i].name.clone());
            i += 1;
        }
        assert(texts(names@) =~= self.names());
        names
    }

    /// The bytes of the file stored under `name`, as they are kept.
    pub fn stored_bytes(&self, name: &str) -> (r: Option<&Vec<u8>>)
        ensures
            match r {
                Some(data) => self@.contains_key(name@) && data@ == self@[name@],
                None => !self@.contains_key(name@),
            },
    {
        match self.find(name) {
            Some(i) => Some(&self.blocks[i].data),
            None => None,
        }
    }

    /// The length of the file stored under `hash`, in its compressed form.
    pub fn compressed_size(&self, hash: &str) -> (r: Option<usize>)
        ensures
            match r {
                Some(n) => self@.contains_key(hash@) && n == self@[hash@].len(),
                None => !self@.contains_key(hash@),
            },
    {
        match self.find(hash) {
            Some(i) => Some(self.blocks[i].data.len()),
            None => None,
        }
    }

    /// Stores `bytes` and returns the hash under which they are kept.
    ///
    /// Content that is already stored is not written again. The call fails,
    /// and changes nothing, where the data is too long to be compressed, or
    /// where an empty file stands under its hash.
    pub fn store(&mut self, bytes: &[u8]) -> (r: Result<String, Error>)
        ensures
            match r {
                Ok(hash) => hash@ == block_hash(bytes@) && is_block_name(hash@) && stored(
                    old(self)@,
                    bytes@,
                    final(self)@,
                ),
                Err(e) => final(self)@ == old(self)@ && final(self).names() == old(self).names()
                    && match snappy_compressed(bytes@) {
                    None => e is BlockTooLarge,
                    Some(_) => old(self)@.contains_key(block_hash(bytes@)) && old(self)@[block_hash(
                        bytes@,
                    )].len() == 0 && (e matches Error::BlockCorrupt { hash } && hash@
                        == block_hash(bytes@)),
                },
            },
            final(self).names().len() >= old(self).names().len(),
            forall|i: int|
                0 <= i < old(self).names().len() ==> final(self).names()[i] == old(self).names()[i],
    {
        let hash = hash_bytes(bytes);
        let compressed = match snappy_compress(bytes) {
            Some(c) => c,
            None => {
                return Err(Error::BlockTooLarge);
            },
        };
        match self.find(hash.as_str()) {
            Some(i) => {
                if self.blocks[i].data.len() == 0 {
                    Err(Error::BlockCorrupt { hash })
                } else {
                    Ok(hash)
                }
            },
            None => {
                let added = self.insert_file(hash.clone(), compressed);
                Ok(hash)
            },
        }
    }

    /// Reads back the content stored under `hash`.
    ///
    /// Fails with `BlockMissing` where no such file is stored, and with
    /// `BlockCorrupt` where the file does not decompress to data of that
    /// hash.
    pub fn load(&self, hash: &str) -> (r: Result<Vec<u8>, Error>)
        ensures
            match r {
                Ok(bytes) => block_content(self@, hash@) == Some(bytes@),
                Err(e) => block_content(self@, hash@) is None && if self@.contains_key(hash@) {
                    e matches Error::BlockCorrupt { hash: h } && h@ == hash@
                } else {
                    e matches Error::BlockMissing { hash: h } && h@ == hash@
                },
            },
    {
        let i = match self.find(hash) {
            Some(i) => i,
            None => {
                return Err(Error::BlockMissing { hash: hash.to_owned() });
            },
        };
        match snappy_decompress(self.blocks[i].data.as_slice()) {
            None => Err(Error::BlockCorrupt { hash: hash.to_owned() }),
            Some(bytes) => {
                let actual = hash_bytes(bytes.as_slice());
                if same_text(actual.as_str(), hash) {
                    Ok(bytes)
                } else {
                    Err(Error::BlockCorrupt { hash: hash.to_owned() })
                }
            },
        }
    }

    /// Reads back `len` bytes from the byte `start` on of the content
    /// stored under `hash`.
    ///
    /// Fails as `load` does, and with `BlockCorrupt` where the content is
    /// shorter than `start + len`.
    pub fn slice(&self, hash: &str, start: u64, len: u64) -> (r: Result<Vec<u8>, Error>)
        ensures
            match r {
                Ok(bytes) => block_content(self@, hash@) is Some && sliced(
                    block_content(self@, hash@)->0,
                    start,
                    len,
                ) == Some(bytes@),
                Err(e) => match block_content(self@, hash@) {
                    Some(content) => sliced(content, start, len) is None
                        && (e matches Error::BlockCorrupt {
                        hash: h,
                    } && h@ == hash@),
                    None => if self@.contains_key(hash@) {
                        e matches Error::BlockCorrupt { hash: h } && h@ == hash@
                    } else {
                        e matches Error::BlockMissing { hash: h } && h@ == hash@
                    },
                },
            },
    {
        let content = match self.load(hash) {
            Ok(c) => c,
            Err(e) => {
                return Err(e);
            },
        };
        let n = content.len();
        if start > n as u64 || len > n as u64 - start {
            return Err(Error::BlockCorrupt { hash: hash.to_owned() });
        }
        let from = start as usize;
        let to = (start + len) as usize;
        let mut out: Vec<u8> = Vec::new();
        let mut i: usize = from;
        while i < to
            invariant
                from <= i <= to <= content@.len(),
                out@ == content@.subrange(from as int, i as int),
            decreases to - i,
        {
            out.push(content[i]);
            assert(out@ =~= content@.subrange(from as int, i + 1));
            i += 1;
        }
        Ok(out)
    }

    /// The names of the stored blocks: every stored file whose name has the
    /// form of a hash, each once, in no particular order.
    #[verifier::rlimit(40)]
    pub fn list(&self) -> (names: Vec<String>)
        ensures
            texts(names@).no_duplicates(),
            forall|n: Seq<char>| #[trigger]
                texts(names@).contains(n) <==> self@.contains_key(n) && is_block_name(n),
            names@.len() == count_blocks(self.names()),
    {
        proof {
            use_type_invariant(self);
        }
        let mut out: Vec<String> = Vec::new();
        let mut k: usize = 0;
        let ghost mut origin: Seq<int> = Seq::empty();
        assert(self.names().take(0) =~= Seq::<Seq<char>>::empty());
        while k < self.blocks.len()
            invariant
                self.well_formed(),
                k <= self.blocks@.len(),
                origin.len() == out@.len(),
                out@.len() == count_blocks(self.names().take(k as int)),
                forall|i: int|
                    0 <= i < out@.len() ==> 0 <= #[trigger] origin[i] < k && out@[i]@
                        == self.names()[origin[i]] && is_block_name(out@[i]@),
                forall|i: int, j: int|
                    0 <= i < j < out@.len() ==> #[trigger] origin[i] < #[trigger] origin[j],
                forall|m: int|
                    0 <= m < k && is_block_name(#[trigger] self.names()[m]) ==> exists|i: int|
                        0 <= i < out@.len() && #[trigger] origin[i] == m,
            decreases self.blocks@.len() - k,
        {
            let ghost prev = out@;
            let ghost prev_origin = origin;
            proof {
                assert(self.names().take(k + 1).drop_last() =~= self.names().take(k as int));
                assert(self.names().take(k + 1).last() == self.names()[k as int]);
            }
            if has_block_name_form(self.blocks[k].name.as_str()) {
                out.push(self.blocks[k].name.clone());
                proof {
                    origin = origin.push(k as int);
                    assert forall|m: int|
                        0 <= m < k + 1 && is_block_name(
                            #[trigger] self.names()[m],
                        ) implies exists|i: int|
                        0 <= i < out@.len() && #[trigger] origin[i] == m by {
                        if m < k {
                            let i = choose|i: int| 0 <= i < prev.len() && prev_origin[i] == m;
                            assert(origin[i] == m);
                        } else {
                            assert(origin[prev.len() as int] == m);
                        }
                    }
                }
            }
            k += 1;
        }
        proof {
            assert(self.names().take(self.blocks@.len() as int) =~= self.names());
            self.lemma_names();
            let listed = texts(out@);
            assert forall|n: Seq<char>| #[trigger]
                listed.contains(n) <==> self@.contains_key(n) && is_block_name(n) by {
                if self@.contains_key(n) && is_block_name(n) {
                    let m = self.names().index_of(n);
                    assert(self.names()[m] == n);
                    let i = choose|i: int| 0 <= i < out@.len() && #[trigger] origin[i] == m;
                    assert(listed[i] == n);
                }
                if listed.contains(n) {
                    let i = listed.index_of(n);
                    assert(listed[i] == n);
                    assert(self.names()[origin[i]] == n);
                }
            }
            assert forall|i: int, j: int|
                0 <= i < listed.len() && 0 <= j < listed.len() && i != j implies listed[i]
                != listed[j] by {
                if i < j {
                    assert(origin[i] < origin[j]);
                } else {
                    assert(origin[j] < origin[i]);
                }
            }
        }
        out
    }

    /// Reads every block back and counts those that do not hold what their
    /// name promises. Damage is counted, never reported as a failure.
    pub fn validate(&self) -> (stats: ValidateBlockDirStats)
        ensures
            stats.block_read_count == count_blocks(self.names()),
            stats.block_error_count == count_damaged(self.names(), self@),
    {
        let mut stats = ValidateBlockDirStats { block_read_count: 0, block_error_count: 0 };
        let mut k: usize = 0;
        assert(self.names().take(0) =~= Seq::<Seq<char>>::empty());
        while k < self.blocks.len()
            invariant
                k <= self.blocks@.len(),
                stats.block_read_count == count_blocks(self.names().take(k as int)),
                stats.block_error_count == count_damaged(self.names().take(k as int), self@),
            decreases self.blocks@.len() - k,
        {
            proof {
                assert(self.names().take(k + 1).drop_last() =~= self.names().take(k as int));
                assert(self.names().take(k + 1).last() == self.names()[k as int]);
                lemma_counts_bounded(self.names().take(k as int), self@);
            }
            if has_block_name_form(self.blocks[k].name.as_str()) {
                stats.block_read_count = stats.block_read_count + 1;
                if self.load(self.blocks[k].name.as_str()).is_err() {
                    stats.block_error_count = stats.block_error_count + 1;
                }
            }
            k += 1;
        }
        assert(self.names().take(self.blocks@.len() as int) =~= self.names());
        stats
    }
}

/// What was stored reads back unchanged: after `bytes` were stored, their
/// hash yields `bytes` again, provided that the file which stood under that
/// hash before, if any, held the same data.
pub proof fn lemma_load_after_store(before: Blocks, bytes: Seq<u8>, after: Blocks)
    requires
        stored(before, bytes, after),
        before.contains_key(block_hash(bytes)) ==> snappy_decompressed(before[block_hash(bytes)])
            == Some(bytes),
    ensures
        block_content(after, block_hash(bytes)) == Some(bytes),
{
}

/// Storing a block leaves every other block as it was, and takes none away.
pub proof fn lemma_store_keeps(before: Blocks, bytes: Seq<u8>, after: Blocks, hash: Seq<char>)
    requires
        stored(before, bytes, after),
    ensures
        before.contains_key(hash) ==> after.contains_key(hash) && after[hash] == before[hash],
        block_content(before, hash) is Some ==> block_content(after, hash) == block_content(
            before,
            hash,
        ),
{
}

} // verus!
