//! A small cache of blocks that were read.
//!
//! A file is often read from several parts of one block. The cache keeps
//! the blocks that were read last, so that a block is decompressed and
//! checked once for all the parts that follow one another.

use crate::backup::MAX_BLOCK_SIZE;
use crate::blockdir::{block_content, sliced, BlockDir};
use crate::errors::Error;
use crate::text::same_text;
use vstd::prelude::*;

verus! {

/// The number of blocks that a cache holds at most.
pub const CACHE_BLOCKS: usize = 4;

/// A block as it is kept in a cache.
struct CachedBlock {
    hash: String,
    data: Vec<u8>,
}

/// The blocks of one block directory that were read last, the least
/// recently read first.
pub struct BlockCache<'a> {
    block_dir: &'a BlockDir,
    entries: Vec<CachedBlock>,
}

/// The bytes `start .. start + len` of `data`, or `None` where they do not
/// lie within it.
fn cut(data: &Vec<u8>, start: u64, len: u64) -> (r: Option<Vec<u8>>)
    ensures
        match r {
            Some(part) => sliced(data@, start, len) == Some(part@),
            None => sliced(data@, start, len) is None,
        },
{
    let n = data.len();
    if start > n as u64 || len > n as u64 - start {
        return None;
    }
    let from = start as usize;
    let to = (start + len) as usize;
    let mut out: Vec<u8> = Vec::new();
    let mut i: usize = from;
    while i < to
        invariant
            from <= i <= to <= data@.len(),
            out@ == data@.subrange(from as int, i as int),
        decreases to - i,
    {
        out.push(data[i]);
        assert(out@ =~= data@.subrange(from as int, i + 1));
        i += 1;
    }
    Some(out)
}

impl<'a> BlockCache<'a> {
    /// The block directory that the cache reads from.
    pub closed spec fn block_dir(&self) -> BlockDir {
        *self.block_dir
    }

    /// The names of the blocks that the cache holds, the least recently
    /// read first.
    pub closed spec fn held(&self) -> Seq<Seq<char>> {
        Seq::new(self.entries@.len(), |i: int| self.entries@[i].hash@)
    }

    /// The cache holds no more than four blocks, none longer than a block
    /// of the usual size, and each as it reads back from the block
    /// directory.
    #[verifier::type_invariant]
    closed spec fn well_formed(&self) -> bool {
        &&& self.entries@.len() <= CACHE_BLOCKS
        &&& forall|i: int|
            0 <= i < self.entries@.len() ==> block_content(
                self.block_dir@,
                (#[trigger] self.entries@[i]).hash@,
            ) == Some(self.entries@[i].data@) && self.entries@[i].data@.len() <= MAX_BLOCK_SIZE
    }

    /// An empty cache for the blocks of `block_dir`.
    pub fn new(block_dir: &'a BlockDir) -> (cache: BlockCache<'a>)
        ensures
            cache.block_dir() == *block_dir,
            cache.held().len() == 0,
    {
        BlockCache { block_dir, entries: Vec::new() }
    }

    /// The number of blocks that the cache holds: four at most.
    pub fn len(&self) -> (n: usize)
        ensures
            n == self.held().len(),
            n <= CACHE_BLOCKS,
    {
        proof {
            use_type_invariant(self);
        }
        self.entries.len()
    }

    /// Reads `len` bytes from the byte `start` on of the block `hash`, as
    /// [`BlockDir::slice`] does, from the cache where the block was read
    /// lately.
    ///
    /// The block becomes the one that was read last. A block that is read
    /// from the block directory is kept, unless it is longer than a block
    /// of the usual size, in place of the one that was read longest ago
    /// where the cache is full.
    pub fn slice(&mut self, hash: &str, start: u64, len: u64) -> (r: Result<Vec<u8>, Error>)
        ensures
            final(self).block_dir() == old(self).block_dir(),
            match r {
                Ok(bytes) => block_content(old(self).block_dir()@, hash@) is Some && sliced(
                    block_content(old(self).block_dir()@, hash@)->0,
                    start,
                    len,
                ) == Some(bytes@),
                Err(e) => match block_content(old(self).block_dir()@, hash@) {
                    Some(content) => sliced(content, start, len) is None && (e matches Error::BlockCorrupt {
                        hash: h,
                    } && h@ == hash@),
                    None => if old(self).block_dir()@.contains_key(hash@) {
                        e matches Error::BlockCorrupt { hash: h } && h@ == hash@
                    } else {
                        e matches Error::BlockMissing { hash: h } && h@ == hash@
                    },
                },
            },
            r is Ok && block_content(old(self).block_dir()@, hash@)->0.len() <= MAX_BLOCK_SIZE
                ==> final(self).held().len() > 0 && final(self).held().last() == hash@,
    {
        proof {
            use_type_invariant(&*self);
        }
        let block_dir = self.block_dir;
        let mut entries: Vec<CachedBlock> = Vec::new();
        core::mem::swap(&mut self.entries, &mut entries);
        let ghost before = entries@;
        // Look for the block among those that were read lately.
        let mut found: Option<usize> = None;
        let mut i: usize = 0;
        while i < entries.len()
            invariant
                i <= entries@.len(),
                found matches Some(k) ==> k < i && entries@[k as int].hash@ == hash@,
            decreases entries@.len() - i,
        {
            if found.is_none() && same_text(entries[i].hash.as_str(), hash) {
                found = Some(i);
            }
            i += 1;
        }
        let block = match found {
            Some(k) => entries.remove(k),
            None => {
                let data = match block_dir.load(hash) {
                    Ok(data) => data,
                    Err(e) => {
                        self.entries = entries;
                        return Err(e);
                    },
                };
                CachedBlock { hash: hash.to_owned(), data }
            },
        };
        let part = cut(&block.data, start, len);
        if block.data.len() <= MAX_BLOCK_SIZE {
            if entries.len() >= CACHE_BLOCKS {
                let dropped = entries.remove(0);
            }
            entries.push(block);
            proof {
                assert forall|j: int| 0 <= j < entries@.len() implies block_content(
                    block_dir@,
                    (#[trigger] entries@[j]).hash@,
                ) == Some(entries@[j].data@) && entries@[j].data@.len() <= MAX_BLOCK_SIZE by {
                    if j < entries@.len() - 1 {
                        assert(exists|m: int| 0 <= m < before.len() && before[m] == entries@[j]);
                    }
                }
            }
        } else {
            proof {
                assert forall|j: int| 0 <= j < entries@.len() implies block_content(
                    block_dir@,
                    (#[trigger] entries@[j]).hash@,
                ) == Some(entries@[j].data@) && entries@[j].data@.len() <= MAX_BLOCK_SIZE by {
                    assert(exists|m: int| 0 <= m < before.len() && before[m] == entries@[j]);
                }
            }
        }
        self.entries = entries;
        match part {
            Some(bytes) => Ok(bytes),
            None => Err(Error::BlockCorrupt { hash: hash.to_owned() }),
        }
    }
}

} // verus!
