//! The chain store: a block tree with longest-chain selection, fork
//! retention, and orphan rejection.

use vstd::prelude::*;
use crate::block::{spec_block_hash, spec_block_valid, spec_genesis_block, Block};
use crate::hash::{Digest, Hashable};
use crate::tx::Transaction;

verus! {

/// A stored block together with its height in the tree.  The genesis
/// block has height 0.
pub struct BlockEntry {
    pub block: Block,
    pub height: usize,
}

/// Structure holding all the blocks of this blockchain.
///
/// Blocks are kept in arrival order; `tip` is the index of the highest
/// block of the main chain.  The store is a map from block hash to entry:
/// the well-formedness invariant keeps the stored hashes distinct.
pub struct BlockChain {
    pub entries: Vec<BlockEntry>,
    pub tip: usize,
}

impl BlockChain {
    /// The hash of the `i`-th stored block.
    pub open spec fn entry_hash(self, i: int) -> Digest {
        spec_block_hash(self.entries@[i].block)
    }

    /// Whether some stored block has hash `h`.
    pub open spec fn spec_contains_hash(self, h: Digest) -> bool {
        exists|i: int| 0 <= i < self.entries@.len() && self.entry_hash(i) == h
    }

    /// The height of the current tip.
    pub open spec fn tip_height(self) -> int {
        self.entries@[self.tip as int].height as int
    }

    /// The `i`-th stored block links to an earlier entry as its parent
    /// and sits one level above it.
    pub open spec fn parent_link_ok(self, i: int) -> bool {
        exists|j: int|
            0 <= j < i && self.entry_hash(j) == self.entries@[i].block.header.prev_block_hash
                && self.entries@[i].height == self.entries@[j].height + 1
    }

    /// Well-formedness of the chain store:
    /// - the genesis block is entry 0, at height 0;
    /// - every later entry is valid and linked to a parent already in
    ///   the store (orphans are never stored);
    /// - stored block hashes are distinct;
    /// - heights are bounded by the entry's position;
    /// - the tip is the first entry that reaches the maximum height.
    pub open spec fn wf(self) -> bool {
        &&& 1 <= self.entries@.len()
        &&& self.entries@[0].block@ == spec_genesis_block()
        &&& self.entries@[0].height == 0
        &&& self.tip < self.entries@.len()
        &&& forall|i: int| 1 <= i < self.entries@.len() ==> #[trigger] self.parent_link_ok(i)
        &&& forall|i: int|
            1 <= i < self.entries@.len() ==> spec_block_valid(#[trigger] self.entries@[i].block)
        &&& forall|i: int, j: int|
            0 <= i < j < self.entries@.len() ==> #[trigger] self.entry_hash(i)
                != #[trigger] self.entry_hash(j)
        &&& forall|i: int| 0 <= i < self.entries@.len() ==> (#[trigger] self.entries@[i].height) <= i
        &&& forall|i: int|
            0 <= i < self.entries@.len() ==> (#[trigger] self.entries@[i].height)
                <= self.tip_height()
        &&& forall|i: int|
            0 <= i < self.entries@.len() && (#[trigger] self.entries@[i].height)
                == self.tip_height() ==> self.tip <= i
    }

    /// Whether the store accepts `block`: it is valid, its parent is
    /// present, and it is not a duplicate.
    pub open spec fn spec_accepts(self, block: Block) -> bool {
        &&& spec_block_valid(block)
        &&& self.spec_contains_hash(block.header.prev_block_hash)
        &&& !self.spec_contains_hash(spec_block_hash(block))
    }

    /// How [`BlockChain::add_block`] relates the store before the call
    /// (`pre`), the offered block, the store after the call (`post`),
    /// and the returned flag:
    /// - a block that is invalid, an orphan, or a duplicate is rejected
    ///   and the store is unchanged;
    /// - an accepted block is appended with height one above its parent,
    ///   and the tip moves to it iff it is now strictly the highest.
    pub open spec fn spec_add_block(pre: BlockChain, block: Block, post: BlockChain, added: bool)
        -> bool {
        if pre.spec_accepts(block) {
            &&& added
            &&& post.entries@.len() == pre.entries@.len() + 1
            &&& forall|i: int|
                0 <= i < pre.entries@.len() ==> #[trigger] post.entries@[i] == pre.entries@[i]
            &&& post.entries@.last().block@ == block@
            &&& exists|j: int|
                0 <= j < pre.entries@.len() && pre.entry_hash(j) == block.header.prev_block_hash
                    && post.entries@.last().height == pre.entries@[j].height + 1
            &&& if post.entries@.last().height > pre.tip_height() {
                post.tip == pre.entries@.len()
            } else {
                post.tip == pre.tip
            }
        } else {
            &&& !added
            &&& post.entries@ == pre.entries@
            &&& post.tip == pre.tip
        }
    }

    /// Create a new blockchain with only the genesis block.
    pub fn new() -> (c: Self)
        ensures
            c.wf(),
            c.entries@.len() == 1,
            c.entries@[0].block@ == spec_genesis_block(),
            c.entries@[0].height == 0,
            c.tip == 0,
    {
        let genesis_block = Block::genesis();
        let mut entries: Vec<BlockEntry> = Vec::new();
        entries.push(BlockEntry { block: genesis_block, height: 0 });
        BlockChain { entries, tip: 0 }
    }

    /// The index of the stored block with hash `h`, if any.
    fn find_index(&self, h: &Digest) -> (r: Option<usize>)
        ensures
            match r {
                Some(i) => 0 <= i < self.entries@.len() && self.entry_hash(i as int) == *h,
                None => !self.spec_contains_hash(*h),
            },
    {
        let mut i: usize = 0;
        while i < self.entries.len()
            invariant
                i <= self.entries@.len(),
                forall|j: int| 0 <= j < i ==> #[trigger] self.entry_hash(j) != *h,
            decreases self.entries@.len() - i,
        {
            let bh = self.entries[i].block.hash();
            if bh == *h {
                return Some(i);
            }
            i += 1;
        }
        None
    }

    /// Returns the latest/highest block on the main chain.
    pub fn highest_block(&self) -> (b: &Block)
        requires
            self.wf(),
        ensures
            *b == self.entries@[self.tip as int].block,
    {
        &self.entries[self.tip].block
    }

    /// Returns the length (i.e. height + 1) of the longest chain (i.e.
    /// the main chain).
    pub fn main_chain_length(&self) -> (l: usize)
        requires
            self.wf(),
        ensures
            l == self.tip_height() + 1,
    {
        let n = self.entries.len();
        let h = self.entries[self.tip].height;
        assert(h < n);
        h + 1
    }

    /// Verifies a block and if it is valid, adds it to this blockchain.
    /// Returns whether the block was accepted and new or not.
    /// Orphans — blocks whose parent is not in the store — are rejected.
    pub fn add_block(&mut self, block: &Block) -> (added: bool)
        requires
            old(self).wf(),
        ensures
            final(self).wf(),
            Self::spec_add_block(*old(self), *block, *final(self), added),
    {
        if !block.is_valid() {
            return false;
        }
        let parent_index = match self.find_index(&block.header.prev_block_hash) {
            Some(i) => i,
            None => {
                return false;
            },
        };
        let block_hash = block.hash();
        if self.find_index(&block_hash).is_some() {
            return false;
        }
        let new_index = self.entries.len();
        let parent_height = self.entries[parent_index].height;
        assert(parent_height < new_index);
        let height = parent_height + 1;
        let tip_height = self.entries[self.tip].height;
        let entry = BlockEntry { block: block.duplicate(), height };
        let ghost pre = *self;
        self.entries.push(entry);
        if height > tip_height {
            self.tip = new_index;
        }
        proof {
            let post = *self;
            let n = pre.entries@.len() as int;
            assert(post.entries@ == pre.entries@.push(post.entries@.last()));
            assert forall|i: int| 0 <= i < n implies #[trigger] post.entries@[i]
                == pre.entries@[i] by {}
            assert forall|i: int| 0 <= i < n implies #[trigger] post.entry_hash(i)
                == pre.entry_hash(i) by {
                assert(post.entries@[i] == pre.entries@[i]);
            }
            assert(pre.spec_accepts(*block));
            assert(post.entry_hash(n) == spec_block_hash(*block));
            // parent links carry over and the new entry links to its parent
            assert forall|i: int| 1 <= i < n implies #[trigger] post.parent_link_ok(i) by {
                assert(pre.parent_link_ok(i));
                let j = choose|j: int|
                    0 <= j < i && pre.entry_hash(j)
                        == pre.entries@[i].block.header.prev_block_hash && pre.entries@[i].height
                        == pre.entries@[j].height + 1;
                assert(post.entry_hash(j) == pre.entry_hash(j));
                assert(post.entries@[j] == pre.entries@[j]);
            }
            assert(post.parent_link_ok(n)) by {
                assert(post.entry_hash(parent_index as int) == pre.entry_hash(parent_index as int));
                assert(post.entries@[parent_index as int] == pre.entries@[parent_index as int]);
            }
            // stored hashes stay distinct
            assert forall|i: int, j: int| 0 <= i < j < post.entries@.len() implies #[trigger] post
                .entry_hash(i) != #[trigger] post.entry_hash(j) by {
                if j < n {
                    assert(pre.entry_hash(i) != pre.entry_hash(j));
                } else {
                    assert(!pre.spec_contains_hash(spec_block_hash(*block)));
                    assert(post.entry_hash(i) == pre.entry_hash(i));
                }
            }
            assert(Self::spec_add_block(pre, *block, post, true));
            assert(post.wf());
        }
        true
    }
}

impl Default for BlockChain {
    /// A fresh chain holding only the genesis block.
    fn default() -> (c: Self)
        ensures
            c.wf(),
            c.entries@.len() == 1,
            c.tip == 0,
    {
        BlockChain::new()
    }
}

/// Orphan rejection: offering a valid block whose parent is unknown
/// leaves the store unchanged — in particular the tip — and reports that
/// nothing was added.
pub proof fn lemma_orphan_rejected(pre: BlockChain, block: Block, post: BlockChain, added: bool)
    requires
        BlockChain::spec_add_block(pre, block, post, added),
        !pre.spec_contains_hash(block.header.prev_block_hash),
    ensures
        !added,
        post.entries@ == pre.entries@,
        post.tip == pre.tip,
{
}

/// The first-to-a-height tie-break: from a fresh chain, accepting block
/// `a` and then block `b`, both children of genesis, keeps `a` as the
/// tip; accepting a further block `c` on top of `b` then moves the tip
/// to `c` and makes the main chain three blocks long.
pub proof fn lemma_chain_tie_break(
    c0: BlockChain,
    a: Block,
    c1: BlockChain,
    b: Block,
    c2: BlockChain,
    c: Block,
    c3: BlockChain,
)
    requires
        c0.wf(),
        c1.wf(),
        c2.wf(),
        c3.wf(),
        c0.entries@.len() == 1,
        a.header.prev_block_hash == c0.entry_hash(0),
        b.header.prev_block_hash == c0.entry_hash(0),
        c.header.prev_block_hash == spec_block_hash(b),
        BlockChain::spec_add_block(c0, a, c1, true),
        BlockChain::spec_add_block(c1, b, c2, true),
        BlockChain::spec_add_block(c2, c, c3, true),
    ensures
        c2.tip == 1,
        c2.entries@[c2.tip as int].block@ == a@,
        c3.tip == 3,
        c3.entries@[c3.tip as int].block@ == c@,
        c3.tip_height() + 1 == 3,
{
    assert(c1.entries@.len() == 2);
    assert(c1.entries@[0] == c0.entries@[0]);
    assert(c0.tip == 0);
    assert(c1.entries@[1].height == 1);
    assert(c1.tip == 1);
    assert(c2.entries@.len() == 3);
    assert(c2.entries@[0] == c1.entries@[0]);
    assert(c2.entries@[1] == c1.entries@[1]);
    // b's parent is genesis: heights 0..2 are 0, 1, 1 and the tip stays at a
    assert(c1.entry_hash(0) == c0.entry_hash(0));
    assert(c1.entry_hash(1) == spec_block_hash(a));
    let jb = choose|j: int|
        0 <= j < c1.entries@.len() && c1.entry_hash(j) == b.header.prev_block_hash
            && c2.entries@.last().height == c1.entries@[j].height + 1;
    assert(jb == 0 || jb == 1);
    if jb == 1 {
        // then a's hash equals genesis' hash, contradicting distinctness in c1
        assert(c1.entry_hash(1) == b.header.prev_block_hash);
        assert(c1.entry_hash(0) == b.header.prev_block_hash);
        assert(false);
    }
    assert(c2.entries@[2].height == 1);
    assert(!(c2.entries@[2].height > c1.tip_height()));
    assert(c2.tip == 1);
    // c extends b, reaching height 2: the tip moves to c
    assert(c3.entries@.len() == 4);
    assert(c2.entry_hash(2) == spec_block_hash(b));
    let jc = choose|j: int|
        0 <= j < c2.entries@.len() && c2.entry_hash(j) == c.header.prev_block_hash
            && c3.entries@.last().height == c2.entries@[j].height + 1;
    assert(c2.entry_hash(jc) == spec_block_hash(b));
    if jc != 2 {
        assert(c2.entry_hash(jc) != c2.entry_hash(2));
        assert(false);
    }
    assert(c3.entries@[3].height == 2);
    assert(c3.entries@[3].height > c2.tip_height());
    assert(c3.tip == 3);
}

} // verus!
