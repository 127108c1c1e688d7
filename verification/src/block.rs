//! Block headers, proof-of-work mining, and full blocks.

use vstd::prelude::*;
use vstd::bytes::{
    lemma_auto_spec_u32_to_from_le_bytes, spec_u32_to_le_bytes, u32_to_le_bytes,
};
use crate::hash::{
    digest_to_bytes, has_leading_zeros, hash_bytes, lemma_digest_bytes_injective,
    lemma_digest_bytes_len, spec_digest_bytes, spec_has_leading_zeros, spec_hash_of, Digest,
    Hashable,
};
use crate::tx::{
    genesis_txs_hash, spec_genesis_tx, spec_genesis_txs_hash, spec_merkle, Transaction,
    Transactions,
};

verus! {

/// The maximum number of transactions a miner packs into one block.
pub const MAX_TXS: usize = 100;

/// Fully identifies a block on the chain.
/// A block header is valid iff hashing its canonical encoding results in
/// a hash with at least `difficulty` leading zero bytes.
#[derive(Clone, Copy, PartialEq, Eq, Structural, Debug)]
pub struct BlockHeader {
    pub prev_block_hash: Digest,
    pub merkle_hash: Digest,
    pub difficulty: u32,
    pub nonce: u32,
}

/// The canonical binary encoding of a block header:
/// prev (32 bytes) ‖ merkle (32 bytes) ‖ difficulty (u32 LE) ‖
/// nonce (u32 LE).
pub open spec fn spec_header_bytes(h: BlockHeader) -> Seq<u8> {
    spec_digest_bytes(h.prev_block_hash) + spec_digest_bytes(h.merkle_hash)
        + spec_u32_to_le_bytes(h.difficulty) + spec_u32_to_le_bytes(h.nonce)
}

/// A block header always encodes to exactly 72 bytes.
pub proof fn lemma_header_bytes_len(h: BlockHeader)
    ensures
        spec_header_bytes(h).len() == 72,
{
    lemma_digest_bytes_len(h.prev_block_hash);
    lemma_digest_bytes_len(h.merkle_hash);
    lemma_auto_spec_u32_to_from_le_bytes();
}

/// The header encoding is injective: headers that differ in any field
/// encode to different bytes.
pub proof fn lemma_header_bytes_injective(h1: BlockHeader, h2: BlockHeader)
    requires
        spec_header_bytes(h1) == spec_header_bytes(h2),
    ensures
        h1 == h2,
{
    lemma_header_bytes_len(h1);
    lemma_header_bytes_len(h2);
    lemma_digest_bytes_len(h1.prev_block_hash);
    lemma_digest_bytes_len(h1.merkle_hash);
    lemma_digest_bytes_len(h2.prev_block_hash);
    lemma_digest_bytes_len(h2.merkle_hash);
    lemma_auto_spec_u32_to_from_le_bytes();
    let b1 = spec_header_bytes(h1);
    let b2 = spec_header_bytes(h2);
    assert(b1.subrange(0, 32) =~= spec_digest_bytes(h1.prev_block_hash));
    assert(b2.subrange(0, 32) =~= spec_digest_bytes(h2.prev_block_hash));
    assert(b1.subrange(32, 64) =~= spec_digest_bytes(h1.merkle_hash));
    assert(b2.subrange(32, 64) =~= spec_digest_bytes(h2.merkle_hash));
    assert(b1.subrange(64, 68) =~= spec_u32_to_le_bytes(h1.difficulty));
    assert(b2.subrange(64, 68) =~= spec_u32_to_le_bytes(h2.difficulty));
    assert(b1.subrange(68, 72) =~= spec_u32_to_le_bytes(h1.nonce));
    assert(b2.subrange(68, 72) =~= spec_u32_to_le_bytes(h2.nonce));
    lemma_digest_bytes_injective(h1.prev_block_hash, h2.prev_block_hash);
    lemma_digest_bytes_injective(h1.merkle_hash, h2.merkle_hash);
}

/// Append the canonical encoding of `h` to `out`.
pub fn encode_header(h: &BlockHeader, out: &mut Vec<u8>)
    ensures
        final(out)@ == old(out)@ + spec_header_bytes(*h),
{
    let mut prev = digest_to_bytes(&h.prev_block_hash);
    let mut merkle = digest_to_bytes(&h.merkle_hash);
    let mut difficulty = u32_to_le_bytes(h.difficulty);
    let mut nonce = u32_to_le_bytes(h.nonce);
    out.append(&mut prev);
    out.append(&mut merkle);
    out.append(&mut difficulty);
    out.append(&mut nonce);
    assert(out@ =~= old(out)@ + spec_header_bytes(*h));
}

/// The hash of a block header: SHA-256 over its canonical encoding.
pub open spec fn spec_header_hash(h: BlockHeader) -> Digest {
    spec_hash_of(spec_header_bytes(h))
}

/// A header is valid iff its own hash has at least `difficulty` leading
/// zero bytes.  A difficulty above 32 can never be met by a 32-byte
/// hash, so such a header is never valid.
pub open spec fn spec_header_valid(h: BlockHeader) -> bool {
    spec_has_leading_zeros(spec_header_hash(h), h.difficulty as int)
}

/// The nonce making the genesis header valid.
pub const GENESIS_NONCE: u32 = 437;

/// The hard-coded first block header on this chain.
pub open spec fn spec_genesis_header() -> BlockHeader {
    BlockHeader {
        prev_block_hash: Digest::spec_repeat_byte(0),
        merkle_hash: spec_genesis_txs_hash(),
        difficulty: 1,
        nonce: GENESIS_NONCE,
    }
}

/// The hard-coded first block header on this chain.
pub fn genesis_header() -> (h: BlockHeader)
    ensures
        h == spec_genesis_header(),
{
    BlockHeader {
        prev_block_hash: Digest::repeat_byte(0),
        merkle_hash: genesis_txs_hash(),
        difficulty: 1,
        nonce: GENESIS_NONCE,
    }
}

impl BlockHeader {
    /// `self` with its nonce replaced by `n`.
    pub open spec fn with_nonce(self, n: u32) -> BlockHeader {
        BlockHeader { nonce: n, ..self }
    }

    /// Creates a new block header with 0 nonce.
    /// This block header is only valid after [`Self::solve`]'ing it and
    /// changing the nonce.
    pub fn new(prev_block_hash: Digest, merkle_hash: Digest, difficulty: u32) -> (h: Self)
        ensures
            h == (BlockHeader { prev_block_hash, merkle_hash, difficulty, nonce: 0u32 }),
    {
        BlockHeader { prev_block_hash, merkle_hash, difficulty, nonce: 0 }
    }

    /// Mines the nonce needed to solve this block, i.e. the least nonce
    /// below `u32::MAX` that makes this header valid, or `None` when no
    /// such nonce exists.
    pub fn solve(&self) -> (r: Option<u32>)
        ensures
            match r {
                Some(n) => spec_header_valid(self.with_nonce(n)) && forall|m: u32|
                    m < n ==> !spec_header_valid(self.with_nonce(m)),
                None => forall|m: u32| m < u32::MAX ==> !spec_header_valid(self.with_nonce(m)),
            },
    {
        let mut n: u32 = 0;
        while n < u32::MAX
            invariant
                forall|m: u32| m < n ==> !spec_header_valid(self.with_nonce(m)),
            decreases u32::MAX - n,
        {
            let candidate = BlockHeader { nonce: n, ..*self };
            if candidate.is_valid() {
                return Some(n);
            }
            n += 1;
        }
        None
    }

    /// Creates a new, valid block header: mines/solves it such that the
    /// hash satisfies the given difficulty.  Returns `None` when the
    /// 32-bit nonce space holds no solution.
    pub fn mine_new(prev_block_hash: Digest, merkle_hash: Digest, difficulty: u32) -> (r: Option<
        Self,
    >)
        ensures
            match r {
                Some(h) => {
                    &&& h.prev_block_hash == prev_block_hash
                    &&& h.merkle_hash == merkle_hash
                    &&& h.difficulty == difficulty
                    &&& spec_header_valid(h)
                    &&& forall|m: u32| m < h.nonce ==> !spec_header_valid(h.with_nonce(m))
                },
                None => forall|m: u32|
                    m < u32::MAX ==> !spec_header_valid(
                        (BlockHeader { prev_block_hash, merkle_hash, difficulty, nonce: m }),
                    ),
            },
    {
        let initial = Self::new(prev_block_hash, merkle_hash, difficulty);
        match initial.solve() {
            Some(nonce) => {
                let h = BlockHeader { nonce, ..initial };
                proof {
                    assert(h == initial.with_nonce(nonce));
                    assert(spec_header_valid(h));
                    assert forall|m: u32| m < h.nonce implies !spec_header_valid(
                        h.with_nonce(m),
                    ) by {
                        assert(h.with_nonce(m) == initial.with_nonce(m));
                    }
                }
                Some(h)
            },
            None => {
                proof {
                    assert forall|m: u32| m < u32::MAX implies !spec_header_valid(
                        (BlockHeader { prev_block_hash, merkle_hash, difficulty, nonce: m }),
                    ) by {
                        assert((BlockHeader { prev_block_hash, merkle_hash, difficulty, nonce: m })
                            == initial.with_nonce(m));
                    }
                }
                None
            },
        }
    }

    /// Checks the proof of work: whether this header's own hash has at
    /// least `difficulty` leading zero bytes.
    pub fn is_valid(&self) -> (r: bool)
        ensures
            r == spec_header_valid(*self),
    {
        if self.difficulty > 32 {
            return false;
        }
        let h = self.hash();
        has_leading_zeros(&h, self.difficulty as usize)
    }
}

impl Hashable for BlockHeader {
    open spec fn hashable(&self) -> bool {
        true
    }

    open spec fn spec_hash(&self) -> Digest {
        spec_header_hash(*self)
    }

    fn hash(&self) -> (h: Digest) {
        let mut bytes: Vec<u8> = Vec::new();
        encode_header(self, &mut bytes);
        assert(bytes@ =~= spec_header_bytes(*self));
        hash_bytes(bytes.as_slice())
    }
}

/// A full block on this chain.
/// A block is valid iff
/// - its [`BlockHeader`] is valid, and
/// - the Merkle hash of its [`Transactions`] equals the `merkle_hash` of
///   its [`BlockHeader`].
#[derive(Clone, PartialEq, Eq, Debug)]
pub struct Block {
    pub header: BlockHeader,
    pub transactions: Transactions,
}

/// The mathematical model of a block: its header and the sequence of its
/// transactions.
#[verifier::ext_equal]
pub struct BlockV {
    pub header: BlockHeader,
    pub txs: Seq<Transaction>,
}

impl View for Block {
    type V = BlockV;

    open spec fn view(&self) -> BlockV {
        BlockV { header: self.header, txs: self.transactions@ }
    }
}

/// A block is valid iff it has at least one transaction, its header's
/// Merkle hash matches its transactions, and its header meets the proof
/// of work.  (A block without transactions has no Merkle hash and is
/// never valid.)
pub open spec fn spec_block_valid(b: Block) -> bool {
    &&& b.transactions@.len() > 0
    &&& spec_merkle(b.transactions@) == b.header.merkle_hash
    &&& spec_header_valid(b.header)
}

/// A block's hash is its header's hash.
pub open spec fn spec_block_hash(b: Block) -> Digest {
    spec_header_hash(b.header)
}

/// The hard-coded first block on this chain, as a spec value.
pub open spec fn spec_genesis_block() -> BlockV {
    BlockV { header: spec_genesis_header(), txs: seq![spec_genesis_tx()] }
}

impl Block {
    /// Create a new block.  This block is only valid after
    /// mining/solving its header and changing the nonce.
    pub fn new(prev_block_hash: Digest, difficulty: u32, transactions: Transactions) -> (b: Self)
        requires
            transactions@.len() > 0,
        ensures
            b.header == (BlockHeader {
                prev_block_hash,
                merkle_hash: spec_merkle(transactions@),
                difficulty,
                nonce: 0u32,
            }),
            b.transactions == transactions,
    {
        let merkle_hash = transactions.hash();
        Block { header: BlockHeader::new(prev_block_hash, merkle_hash, difficulty), transactions }
    }

    /// Returns the first block on this chain.
    pub fn genesis() -> (b: Self)
        ensures
            b@ =~= spec_genesis_block(),
    {
        Block { header: genesis_header(), transactions: Transactions::genesis() }
    }

    /// Creates a new, valid block: mines/solves its nonce.  Returns
    /// `None` when the 32-bit nonce space holds no solution.
    pub fn mine_new(prev_block_hash: Digest, difficulty: u32, transactions: Transactions) -> (r:
        Option<Self>)
        requires
            transactions@.len() > 0,
        ensures
            match r {
                Some(b) => {
                    &&& b.transactions@ == transactions@
                    &&& b.header.prev_block_hash == prev_block_hash
                    &&& b.header.difficulty == difficulty
                    &&& b.header.merkle_hash == spec_merkle(transactions@)
                    &&& spec_block_valid(b)
                    &&& forall|m: u32|
                        m < b.header.nonce ==> !spec_header_valid(b.header.with_nonce(m))
                },
                None => forall|m: u32|
                    m < u32::MAX ==> !spec_header_valid(
                        (BlockHeader {
                            prev_block_hash,
                            merkle_hash: spec_merkle(transactions@),
                            difficulty,
                            nonce: m,
                        }),
                    ),
            },
    {
        let merkle_hash = transactions.hash();
        match BlockHeader::mine_new(prev_block_hash, merkle_hash, difficulty) {
            Some(header) => Some(Block { header, transactions }),
            None => None,
        }
    }

    /// A copy of this block.
    pub fn duplicate(&self) -> (r: Self)
        ensures
            r@ == self@,
    {
        Block { header: self.header, transactions: self.transactions.duplicate() }
    }

    /// Checks whether this block is valid: non-empty transactions whose
    /// Merkle hash matches the header, and a header meeting the proof of
    /// work.
    pub fn is_valid(&self) -> (r: bool)
        ensures
            r == spec_block_valid(*self),
    {
        if self.transactions.0.len() == 0 {
            return false;
        }
        let merkle = self.transactions.hash();
        if !(merkle == self.header.merkle_hash) {
            return false;
        }
        self.header.is_valid()
    }
}

impl Hashable for Block {
    open spec fn hashable(&self) -> bool {
        true
    }

    /// A block's hash is only its header's hash.
    open spec fn spec_hash(&self) -> Digest {
        spec_block_hash(*self)
    }

    fn hash(&self) -> (h: Digest) {
        self.header.hash()
    }
}

} // verus!
