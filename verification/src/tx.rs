//! Transactions and Bitcoin-style Merkle hashing of transaction lists.

use vstd::prelude::*;
use vstd::bytes::{
    lemma_auto_spec_u32_to_from_le_bytes, lemma_auto_spec_u64_to_from_le_bytes,
    spec_u32_to_le_bytes, spec_u64_to_le_bytes, u32_to_le_bytes, u64_to_le_bytes,
};
use crate::hash::{
    hash_bytes, digest_from_bytes, digest_to_bytes, lemma_digest_bytes_injective, lemma_digest_bytes_len,
    spec_digest_bytes, spec_hash_of, spec_digest_of_bytes, Digest, Hashable,
};

verus! {

/// An address is just a hash.
///
/// For now, we use any hash but the idea is that this could be the hash
/// of a public key from the account owner.
pub type Address = Digest;

/// A transaction for an amount of "coin" from a sender to a receiver
/// address.
#[derive(Clone, Copy, PartialEq, Eq, Structural, Debug)]
pub struct Transaction {
    pub spender: Address,
    pub receiver: Address,
    pub amount: u32,
    pub timestamp: u64,
}

/// The canonical binary encoding of a transaction:
/// spender (32 bytes) ‖ receiver (32 bytes) ‖ amount (u32 LE) ‖
/// timestamp (u64 LE).
pub open spec fn spec_tx_bytes(t: Transaction) -> Seq<u8> {
    spec_digest_bytes(t.spender) + spec_digest_bytes(t.receiver) + spec_u32_to_le_bytes(t.amount)
        + spec_u64_to_le_bytes(t.timestamp)
}

/// A transaction always encodes to exactly 76 bytes.
pub proof fn lemma_tx_bytes_len(t: Transaction)
    ensures
        spec_tx_bytes(t).len() == 76,
{
    lemma_digest_bytes_len(t.spender);
    lemma_digest_bytes_len(t.receiver);
    lemma_auto_spec_u32_to_from_le_bytes();
    lemma_auto_spec_u64_to_from_le_bytes();
}

/// The canonical encoding is injective: transactions that differ in any
/// field encode to different bytes, so their hash inputs differ as well.
pub proof fn lemma_tx_bytes_injective(t1: Transaction, t2: Transaction)
    requires
        spec_tx_bytes(t1) == spec_tx_bytes(t2),
    ensures
        t1 == t2,
{
    lemma_tx_bytes_len(t1);
    lemma_tx_bytes_len(t2);
    lemma_digest_bytes_len(t1.spender);
    lemma_digest_bytes_len(t1.receiver);
    lemma_digest_bytes_len(t2.spender);
    lemma_digest_bytes_len(t2.receiver);
    lemma_auto_spec_u32_to_from_le_bytes();
    lemma_auto_spec_u64_to_from_le_bytes();
    let b1 = spec_tx_bytes(t1);
    let b2 = spec_tx_bytes(t2);
    assert(b1.subrange(0, 32) =~= spec_digest_bytes(t1.spender));
    assert(b2.subrange(0, 32) =~= spec_digest_bytes(t2.spender));
    assert(b1.subrange(32, 64) =~= spec_digest_bytes(t1.receiver));
    assert(b2.subrange(32, 64) =~= spec_digest_bytes(t2.receiver));
    assert(b1.subrange(64, 68) =~= spec_u32_to_le_bytes(t1.amount));
    assert(b2.subrange(64, 68) =~= spec_u32_to_le_bytes(t2.amount));
    assert(b1.subrange(68, 76) =~= spec_u64_to_le_bytes(t1.timestamp));
    assert(b2.subrange(68, 76) =~= spec_u64_to_le_bytes(t2.timestamp));
    lemma_digest_bytes_injective(t1.spender, t2.spender);
    lemma_digest_bytes_injective(t1.receiver, t2.receiver);
}

/// Append the canonical encoding of `t` to `out`.
pub fn encode_tx(t: &Transaction, out: &mut Vec<u8>)
    ensures
        final(out)@ == old(out)@ + spec_tx_bytes(*t),
{
    let mut spender = digest_to_bytes(&t.spender);
    let mut receiver = digest_to_bytes(&t.receiver);
    let mut amount = u32_to_le_bytes(t.amount);
    let mut timestamp = u64_to_le_bytes(t.timestamp);
    out.append(&mut spender);
    out.append(&mut receiver);
    out.append(&mut amount);
    out.append(&mut timestamp);
    assert(out@ =~= old(out)@ + spec_tx_bytes(*t));
}



/// The content hash of a transaction: SHA-256 over its canonical
/// encoding.
pub open spec fn spec_tx_hash(t: Transaction) -> Digest {
    spec_hash_of(spec_tx_bytes(t))
}

impl Hashable for Transaction {
    open spec fn hashable(&self) -> bool {
        true
    }

    open spec fn spec_hash(&self) -> Digest {
        spec_tx_hash(*self)
    }

    fn hash(&self) -> (h: Digest) {
        let mut bytes: Vec<u8> = Vec::new();
        encode_tx(self, &mut bytes);
        assert(bytes@ =~= spec_tx_bytes(*self));
        hash_bytes(bytes.as_slice())
    }
}

/// Relies on `std::time::SystemTime::now`: seconds since the Unix epoch
/// at the moment of the call (0 if the clock reads before the epoch).
/// Nothing is promised of the value, which depends on the wall clock.
#[verifier::external_body]
fn now_unix_secs() -> u64 {
    std::time::SystemTime::now()
        .duration_since(std::time::UNIX_EPOCH)
        .map(|d| d.as_secs())
        .unwrap_or(0)
}

impl Transaction {
    /// A transaction with the given fields.
    pub fn new(spender: Address, receiver: Address, amount: u32, timestamp: u64) -> (t: Self)
        ensures
            t == (Transaction { spender, receiver, amount, timestamp }),
    {
        Transaction { spender, receiver, amount, timestamp }
    }

    /// Quickly, easily create the requested number of dummy transactions,
    /// timestamped with the current time.  Mostly for testing purposes.
    pub fn dummy_txs(len: u32) -> (r: Vec<Self>)
        requires
            len < u32::MAX,
        ensures
            r@.len() == len,
            forall|k: int|
                0 <= k < len ==> {
                    &&& (#[trigger] r@[k]).spender == Digest::spec_repeat_byte(
                        (((k + 1) % 256) as u8),
                    )
                    &&& r@[k].receiver == Digest::spec_repeat_byte((((k + 2) % 256) as u8))
                    &&& r@[k].amount == k + 1
                },
    {
        let mut r: Vec<Transaction> = Vec::new();
        let mut i: u32 = 1;
        while i <= len
            invariant
                1 <= i <= len + 1,
                len < u32::MAX,
                r@.len() == i - 1,
                forall|k: int|
                    0 <= k < i - 1 ==> {
                        &&& (#[trigger] r@[k]).spender == Digest::spec_repeat_byte(
                            (((k + 1) % 256) as u8),
                        )
                        &&& r@[k].receiver == Digest::spec_repeat_byte((((k + 2) % 256) as u8))
                        &&& r@[k].amount == k + 1
                    },
            decreases len + 1 - i,
        {
            let spender = Digest::repeat_byte((i % 256) as u8);
            let receiver = Digest::repeat_byte(((i + 1) % 256) as u8);
            let t = Transaction { spender, receiver, amount: i, timestamp: now_unix_secs() };
            r.push(t);
            i += 1;
        }
        r
    }
}

/// An ordered sequence of transactions for inclusion in a block.
/// Implements Merkle tree hashing for transactions.
#[derive(Clone, PartialEq, Eq, Debug)]
pub struct Transactions(pub Vec<Transaction>);

impl View for Transactions {
    type V = Seq<Transaction>;

    open spec fn view(&self) -> Seq<Transaction> {
        self.0@
    }
}

/// The hash of two child hashes: SHA-256 over their concatenated digest
/// bytes.
pub open spec fn spec_hash_pair(a: Digest, b: Digest) -> Digest {
    spec_hash_of(spec_digest_bytes(a) + spec_digest_bytes(b))
}

/// Digest the concatenation of two hashes.
pub fn hash_pair(a: &Digest, b: &Digest) -> (h: Digest)
    ensures
        h == spec_hash_pair(*a, *b),
{
    let mut bytes = digest_to_bytes(a);
    let mut tail = digest_to_bytes(b);
    bytes.append(&mut tail);
    assert(bytes@ =~= spec_digest_bytes(*a) + spec_digest_bytes(*b));
    hash_bytes(bytes.as_slice())
}

/// The Merkle tree hash of a non-empty transaction sequence, as per
/// Bitcoin's duplicate-last convention applied by midpoint split:
/// - a single transaction's hash is paired with itself;
/// - two transactions' hashes are concatenated and rehashed;
/// - a longer sequence is split at its midpoint and the two subtree
///   hashes are concatenated and rehashed.
pub open spec fn spec_merkle(txs: Seq<Transaction>) -> Digest
    recommends
        txs.len() > 0,
    decreases txs.len(),
{
    if txs.len() <= 1 {
        spec_hash_pair(spec_tx_hash(txs[0]), spec_tx_hash(txs[0]))
    } else if txs.len() == 2 {
        spec_hash_pair(spec_tx_hash(txs[0]), spec_tx_hash(txs[1]))
    } else {
        spec_hash_pair(
            spec_merkle(txs.subrange(0, txs.len() as int / 2)),
            spec_merkle(txs.subrange(txs.len() as int / 2, txs.len() as int)),
        )
    }
}

/// Merkle hash of the transactions `txs[lo..hi]`.
fn merkle_range(txs: &Vec<Transaction>, lo: usize, hi: usize) -> (h: Digest)
    requires
        lo < hi <= txs@.len(),
    ensures
        h == spec_merkle(txs@.subrange(lo as int, hi as int)),
    decreases hi - lo,
{
    let ghost s = txs@.subrange(lo as int, hi as int);
    let n = hi - lo;
    if n == 1 {
        let th = txs[lo].hash();
        hash_pair(&th, &th)
    } else if n == 2 {
        let h0 = txs[lo].hash();
        let h1 = txs[lo + 1].hash();
        hash_pair(&h0, &h1)
    } else {
        let mid = lo + n / 2;
        let a = merkle_range(txs, lo, mid);
        let b = merkle_range(txs, mid, hi);
        proof {
            assert(s.subrange(0, s.len() as int / 2) =~= txs@.subrange(lo as int, mid as int));
            assert(s.subrange(s.len() as int / 2, s.len() as int) =~= txs@.subrange(
                mid as int,
                hi as int,
            ));
        }
        hash_pair(&a, &b)
    }
}

impl Hashable for Transactions {
    /// An empty sequence has no Merkle hash; callers must not hash one.
    open spec fn hashable(&self) -> bool {
        self@.len() > 0
    }

    open spec fn spec_hash(&self) -> Digest {
        spec_merkle(self@)
    }

    fn hash(&self) -> (h: Digest) {
        let h = merkle_range(&self.0, 0, self.0.len());
        proof {
            assert(self.0@.subrange(0, self.0@.len() as int) =~= self@);
        }
        h
    }
}

/// The duplicate-last convention at the leaf: a single transaction and
/// that transaction repeated twice have the same Merkle hash.  (For odd
/// lengths above one the midpoint-split construction pairs subtrees
/// differently, so the corresponding equation does not hold there.)
pub proof fn lemma_merkle_duplicate_single(txs: Seq<Transaction>)
    requires
        txs.len() == 1,
    ensures
        spec_merkle(txs + seq![txs.last()]) == spec_merkle(txs),
{
    let doubled = txs + seq![txs.last()];
    assert(doubled.len() == 2);
    assert(doubled[0] == txs[0]);
    assert(doubled[1] == txs[0]);
}

/// Hashing a transaction is deterministic: it depends on the fields
/// alone, so a transaction and any copy of it hash identically.
pub proof fn lemma_tx_hash_deterministic(t1: Transaction, t2: Transaction)
    requires
        t1 == t2,
    ensures
        spec_tx_hash(t1) == spec_tx_hash(t2),
{
}

/// Address used in the genesis block to mint 100 "coin".
pub open spec fn spec_mint_address() -> Digest {
    Digest::spec_repeat_byte(1)
}

/// UNIX timestamp of UTC 2024/02/10 00:00:00.
pub const GENESIS_TIME: u64 = 1707519600;

/// Receiver of the minted genesis "coin": the address `0x0100...00`.
pub open spec fn spec_genesis_receiver() -> Digest {
    spec_digest_of_bytes(Seq::new(32, |i: int| if i == 0 { 1u8 } else { 0u8 }))
}

/// The only transaction in the genesis block of this chain.
/// Grants 100 "coin" to the address `0x0100...00`.
pub open spec fn spec_genesis_tx() -> Transaction {
    Transaction {
        spender: spec_mint_address(),
        receiver: spec_genesis_receiver(),
        amount: 100,
        timestamp: GENESIS_TIME,
    }
}

/// The genesis transaction as a value.
pub fn genesis_tx() -> (t: Transaction)
    ensures
        t == spec_genesis_tx(),
{
    let spender = Digest::repeat_byte(1);
    let mut rb: Vec<u8> = Vec::new();
    rb.push(1);
    let mut i: usize = 1;
    while i < 32
        invariant
            1 <= i <= 32,
            rb@.len() == i,
            rb@[0] == 1u8,
            forall|j: int| 1 <= j < i ==> rb@[j] == 0u8,
        decreases 32 - i,
    {
        rb.push(0);
        i += 1;
    }
    let receiver = digest_from_bytes(rb.as_slice());
    proof {
        assert(rb@ =~= Seq::new(32, |j: int| if j == 0 { 1u8 } else { 0u8 }));
    }
    Transaction { spender, receiver, amount: 100, timestamp: GENESIS_TIME }
}

impl Transactions {
    /// A copy of this transaction sequence.
    pub fn duplicate(&self) -> (r: Self)
        ensures
            r@ == self@,
    {
        let mut v: Vec<Transaction> = Vec::new();
        let mut i: usize = 0;
        while i < self.0.len()
            invariant
                i <= self.0@.len(),
                v@ =~= self.0@.subrange(0, i as int),
            decreases self.0@.len() - i,
        {
            v.push(self.0[i]);
            i += 1;
        }
        assert(v@ =~= self@);
        Transactions(v)
    }

    /// The transaction sequence of the genesis block: the single genesis
    /// transaction.
    pub fn genesis() -> (r: Self)
        ensures
            r@ == seq![spec_genesis_tx()],
    {
        let mut v: Vec<Transaction> = Vec::new();
        v.push(genesis_tx());
        assert(v@ =~= seq![spec_genesis_tx()]);
        Transactions(v)
    }
}

/// The Merkle tree hash of [`Transactions::genesis`] for inclusion in
/// the genesis block, as a spec value.
pub open spec fn spec_genesis_txs_hash() -> Digest {
    spec_digest_of_bytes(
        seq![
            82u8, 124u8, 234u8, 124u8, 91u8, 88u8, 141u8, 159u8, 176u8, 214u8, 86u8, 126u8, 142u8,
            46u8, 16u8, 73u8, 125u8, 96u8, 127u8, 71u8, 253u8, 45u8, 55u8, 100u8, 237u8, 182u8,
            18u8, 51u8, 33u8, 131u8, 181u8, 243u8,
        ],
    )
}

/// The precomputed Merkle tree hash of the genesis transaction sequence.
pub fn genesis_txs_hash() -> (h: Digest)
    ensures
        h == spec_genesis_txs_hash(),
{
    let v: Vec<u8> = vec![
        82u8, 124u8, 234u8, 124u8, 91u8, 88u8, 141u8, 159u8, 176u8, 214u8, 86u8, 126u8, 142u8,
        46u8, 16u8, 73u8, 125u8, 96u8, 127u8, 71u8, 253u8, 45u8, 55u8, 100u8, 237u8, 182u8, 18u8,
        51u8, 33u8, 131u8, 181u8, 243u8,
    ];
    let h = digest_from_bytes(v.as_slice());
    proof {
        assert(v@ =~= seq![
            82u8, 124u8, 234u8, 124u8, 91u8, 88u8, 141u8, 159u8, 176u8, 214u8, 86u8, 126u8, 142u8,
            46u8, 16u8, 73u8, 125u8, 96u8, 127u8, 71u8, 253u8, 45u8, 55u8, 100u8, 237u8, 182u8,
            18u8, 51u8, 33u8, 131u8, 181u8, 243u8,
        ]);
    }
    h
}

} // verus!
