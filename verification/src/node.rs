//! The node state machine: peers, mempool, chain, and the reaction to
//! each gossip message.

use vstd::prelude::*;
use crate::block::{spec_block_hash, Block, MAX_TXS};
use crate::chain::BlockChain;
use crate::hash::{Digest, Hashable};
use crate::msg::{Message, MessageV, PeerAddr};
use crate::tx::{spec_tx_hash, Transaction, Transactions};

verus! {

/// Instructions from the state machine to the miner orchestrator:
/// whether a mining process should be (re-)started.
#[derive(Clone, Copy, PartialEq, Eq, Structural, Debug)]
pub enum MiningCommand {
    /// Spawn a mining task if none is running.
    Start,
    /// Abort any running mining task and spawn a fresh one.
    Restart,
    /// Leave the miner alone.
    Keep,
}

/// One mempool slot: a proposed transaction with its cached content
/// hash, which keys the pool.
pub struct MempoolEntry {
    pub hash: Digest,
    pub tx: Transaction,
}

/// A full node on the blockchain: its own address, the known peers, the
/// pool of unconfirmed transactions, and the local copy of the chain.
pub struct Node {
    /// The node's own address.
    pub address: PeerAddr,
    /// The known network peers, in discovery order, without duplicates
    /// and never containing the node's own address.
    pub peers: Vec<PeerAddr>,
    /// Transactions proposed for inclusion in a block, keyed by hash.
    pub mempool: Vec<MempoolEntry>,
    /// The local copy of the blockchain.
    pub chain: BlockChain,
}

/// Whether some transaction in `txs` has content hash `h`.
pub open spec fn spec_txs_contain_hash(txs: Seq<Transaction>, h: Digest) -> bool {
    exists|i: int| 0 <= i < txs.len() && spec_tx_hash(txs[i]) == h
}

/// Whether the pool holds an entry with hash `h`.
pub open spec fn spec_pool_contains_hash(pool: Seq<MempoolEntry>, h: Digest) -> bool {
    exists|i: int| 0 <= i < pool.len() && pool[i].hash == h
}

/// The peer set after inserting every address of `l`, in order, skipping
/// the node's own address and addresses already present.
pub open spec fn spec_insert_peers(peers: Seq<PeerAddr>, own: PeerAddr, l: Seq<PeerAddr>) -> Seq<
    PeerAddr,
>
    decreases l.len(),
{
    if l.len() == 0 {
        peers
    } else {
        let next = if l[0] == own || peers.contains(l[0]) {
            peers
        } else {
            peers.push(l[0])
        };
        spec_insert_peers(next, own, l.drop_first())
    }
}

/// Inserting peers adds exactly the listed addresses, minus the node's
/// own address, to the set.
pub proof fn lemma_insert_peers_contains(peers: Seq<PeerAddr>, own: PeerAddr, l: Seq<PeerAddr>)
    ensures
        forall|a: PeerAddr|
            spec_insert_peers(peers, own, l).contains(a) <==> (peers.contains(a) || (l.contains(a)
                && a != own)),
    decreases l.len(),
{
    if l.len() > 0 {
        let next = if l[0] == own || peers.contains(l[0]) {
            peers
        } else {
            peers.push(l[0])
        };
        lemma_insert_peers_contains(next, own, l.drop_first());
        assert forall|a: PeerAddr|
            spec_insert_peers(peers, own, l).contains(a) implies (peers.contains(a) || (l.contains(
            a,
        ) && a != own)) by {
            if next.contains(a) && !peers.contains(a) {
                assert(a == l[0]);
                assert(l.contains(a)) by {
                    assert(l[0] == a);
                }
            }
            if l.drop_first().contains(a) {
                let i = choose|i: int| 0 <= i < l.drop_first().len() && l.drop_first()[i] == a;
                assert(l[i + 1] == a);
            }
        }
        assert forall|a: PeerAddr|
            (peers.contains(a) || (l.contains(a) && a != own)) implies spec_insert_peers(
            peers,
            own,
            l,
        ).contains(a) by {
            if peers.contains(a) {
                assert(next.contains(a)) by {
                    if !(l[0] == own || peers.contains(l[0]))  {
                        let i = choose|i: int| 0 <= i < peers.len() && peers[i] == a;
                        assert(peers.push(l[0])[i] == a);
                    }
                }
            } else if l.contains(a) && a != own {
                let i = choose|i: int| 0 <= i < l.len() && l[i] == a;
                if i == 0 {
                    assert(next.contains(a)) by {
                        if !peers.contains(l[0]) {
                            assert(peers.push(l[0])[peers.len() as int] == l[0]);
                        }
                    }
                } else {
                    assert(l.drop_first()[i - 1] == a);
                    assert(l.drop_first().contains(a));
                }
            }
        }
    }
}

/// The mempool and the list of genuinely new transactions after reading
/// a `Tx` proposal, in order: a transaction whose hash the pool already
/// holds (or that repeats an earlier one of the list) is dropped, any
/// other is appended to the pool and reported as new.
pub open spec fn spec_integrate_txs(pool: Seq<MempoolEntry>, txs: Seq<Transaction>) -> (Seq<
    MempoolEntry,
>, Seq<Transaction>)
    decreases txs.len(),
{
    if txs.len() == 0 {
        (pool, Seq::empty())
    } else {
        let h = spec_tx_hash(txs[0]);
        if spec_pool_contains_hash(pool, h) {
            spec_integrate_txs(pool, txs.drop_first())
        } else {
            let rest = spec_integrate_txs(
                pool.push(MempoolEntry { hash: h, tx: txs[0] }),
                txs.drop_first(),
            );
            (rest.0, seq![txs[0]] + rest.1)
        }
    }
}

/// The mempool after a block with transactions `txs` was accepted:
/// every entry whose hash appears in `txs` is removed, the others stay
/// in order.
pub open spec fn spec_prune_mempool(pool: Seq<MempoolEntry>, txs: Seq<Transaction>) -> Seq<
    MempoolEntry,
>
    decreases pool.len(),
{
    if pool.len() == 0 {
        pool
    } else {
        let rest = spec_prune_mempool(pool.drop_first(), txs);
        if spec_txs_contain_hash(txs, pool[0].hash) {
            rest
        } else {
            seq![pool[0]] + rest
        }
    }
}

/// Mempool/block coherence: after pruning with a block's transactions,
/// no hash of those transactions remains in the pool.
pub proof fn lemma_prune_removes_block_txs(
    pool: Seq<MempoolEntry>,
    txs: Seq<Transaction>,
    h: Digest,
)
    requires
        spec_txs_contain_hash(txs, h),
    ensures
        !spec_pool_contains_hash(spec_prune_mempool(pool, txs), h),
    decreases pool.len(),
{
    if pool.len() > 0 {
        lemma_prune_removes_block_txs(pool.drop_first(), txs, h);
        let rest = spec_prune_mempool(pool.drop_first(), txs);
        if !spec_txs_contain_hash(txs, pool[0].hash) {
            assert forall|i: int|
                0 <= i < spec_prune_mempool(pool, txs).len() implies spec_prune_mempool(pool, txs)[i].hash
                != h by {
                if i > 0 {
                    assert(spec_prune_mempool(pool, txs)[i] == rest[i - 1]);
                    assert(!spec_pool_contains_hash(rest, h));
                }
            }
        }
    }
}

/// Whether some transaction of `txs` has content hash `h`.
fn block_txs_contain(txs: &Transactions, h: &Digest) -> (r: bool)
    ensures
        r == spec_txs_contain_hash(txs@, *h),
{
    let mut i: usize = 0;
    while i < txs.0.len()
        invariant
            i <= txs.0@.len(),
            forall|j: int| 0 <= j < i ==> spec_tx_hash(txs.0@[j]) != *h,
        decreases txs.0@.len() - i,
    {
        let th = txs.0[i].hash();
        if th == *h {
            return true;
        }
        i += 1;
    }
    false
}

impl Node {
    /// Well-formedness of the peer set: no duplicates and never the
    /// node's own address.
    pub open spec fn peers_wf(self) -> bool {
        &&& forall|i: int, j: int|
            #![trigger self.peers@[i], self.peers@[j]]
            0 <= i < j < self.peers@.len() ==> self.peers@[i] != self.peers@[j]
        &&& forall|i: int| 0 <= i < self.peers@.len() ==> #[trigger] self.peers@[i] != self.address
    }

    /// Well-formedness of the mempool: each entry caches its
    /// transaction's hash, and the hashes are distinct.
    pub open spec fn mempool_wf(self) -> bool {
        &&& forall|i: int|
            0 <= i < self.mempool@.len() ==> (#[trigger] self.mempool@[i].hash) == spec_tx_hash(
                self.mempool@[i].tx,
            )
        &&& forall|i: int, j: int|
            #![trigger self.mempool@[i], self.mempool@[j]]
            0 <= i < j < self.mempool@.len() ==> self.mempool@[i].hash != self.mempool@[j].hash
    }

    /// Well-formedness of the whole node state.
    pub open spec fn wf(self) -> bool {
        &&& self.peers_wf()
        &&& self.mempool_wf()
        &&& self.chain.wf()
    }

    /// The peer list a node replies to a `Connect` with: up to 9 known
    /// peers followed by the node's own address.
    pub open spec fn spec_addr_reply(peers: Seq<PeerAddr>, own: PeerAddr) -> Seq<PeerAddr> {
        (if peers.len() <= 9 {
            peers
        } else {
            peers.take(9)
        }).push(own)
    }

    /// A fresh node: the given address and initial peers, an empty
    /// mempool, and a chain holding only the genesis block.
    pub fn new(address: PeerAddr, peers: &[PeerAddr]) -> (node: Self)
        ensures
            node.wf(),
            node.address == address,
            node.peers@ == spec_insert_peers(Seq::<PeerAddr>::empty(), address, peers@),
            node.mempool@.len() == 0,
            node.chain.entries@.len() == 1,
            node.chain.tip == 0,
    {
        let mut node = Node {
            address,
            peers: Vec::new(),
            mempool: Vec::new(),
            chain: BlockChain::new(),
        };
        let n = peers.len();
        let mut i: usize = 0;
        proof {
            assert(peers@.skip(0) =~= peers@);
        }
        while i < n
            invariant
                i <= n,
                n == peers@.len(),
                node.address == address,
                node.peers_wf(),
                spec_insert_peers(node.peers@, address, peers@.skip(i as int)) == spec_insert_peers(
                    Seq::<PeerAddr>::empty(),
                    address,
                    peers@,
                ),
                node.mempool@.len() == 0,
                node.chain.wf(),
                node.chain.entries@.len() == 1,
                node.chain.tip == 0,
            decreases n - i,
        {
            let a = peers[i];
            proof {
                assert(peers@.skip(i as int)[0] == peers@[i as int]);
                assert(peers@.skip(i as int).drop_first() =~= peers@.skip(i + 1));
            }
            if !(a == address) && !node.contains_peer(&a) {
                node.peers.push(a);
            }
            i += 1;
        }
        proof {
            assert(peers@.skip(n as int) =~= Seq::<PeerAddr>::empty());
        }
        node
    }

    /// Whether `a` is a known peer.
    pub fn contains_peer(&self, a: &PeerAddr) -> (r: bool)
        ensures
            r == self.peers@.contains(*a),
    {
        let mut i: usize = 0;
        while i < self.peers.len()
            invariant
                i <= self.peers@.len(),
                forall|j: int| 0 <= j < i ==> self.peers@[j] != *a,
            decreases self.peers@.len() - i,
        {
            if self.peers[i] == *a {
                return true;
            }
            i += 1;
        }
        false
    }

    /// Whether the mempool holds an entry with hash `h`.
    fn mempool_contains(&self, h: &Digest) -> (r: bool)
        ensures
            r == spec_pool_contains_hash(self.mempool@, *h),
    {
        let mut i: usize = 0;
        while i < self.mempool.len()
            invariant
                i <= self.mempool@.len(),
                forall|j: int| 0 <= j < i ==> self.mempool@[j].hash != *h,
            decreases self.mempool@.len() - i,
        {
            if self.mempool[i].hash == *h {
                return true;
            }
            i += 1;
        }
        false
    }

    /// Adds a block to the chain and, if it was accepted, removes the
    /// transactions that it includes from the mempool.
    pub fn add_block(&mut self, block: &Block) -> (added: bool)
        requires
            old(self).wf(),
        ensures
            final(self).wf(),
            final(self).address == old(self).address,
            final(self).peers@ == old(self).peers@,
            BlockChain::spec_add_block(old(self).chain, *block, final(self).chain, added),
            added == old(self).chain.spec_accepts(*block),
            final(self).mempool@ == (if added {
                spec_prune_mempool(old(self).mempool@, block.transactions@)
            } else {
                old(self).mempool@
            }),
    {
        let added = self.chain.add_block(block);
        if added {
            let ghost pool0 = self.mempool@;
            let ghost btxs = block.transactions@;
            let mut kept: Vec<MempoolEntry> = Vec::new();
            let n = self.mempool.len();
            let mut i: usize = 0;
            proof {
                assert(pool0.skip(0) =~= pool0);
                assert(Seq::<MempoolEntry>::empty() + spec_prune_mempool(pool0, btxs)
                    =~= spec_prune_mempool(pool0, btxs));
            }
            while i < n
                invariant
                    i <= n,
                    n == self.mempool@.len(),
                    self.mempool@ == pool0,
                    btxs == block.transactions@,
                    spec_prune_mempool(pool0, btxs) == kept@ + spec_prune_mempool(
                        pool0.skip(i as int),
                        btxs,
                    ),
                    forall|x: int|
                        0 <= x < pool0.len() ==> (#[trigger] pool0[x].hash) == spec_tx_hash(
                            pool0[x].tx,
                        ),
                    forall|x: int, y: int|
                        #![trigger pool0[x], pool0[y]]
                        0 <= x < y < pool0.len() ==> pool0[x].hash != pool0[y].hash,
                    forall|x: int|
                        0 <= x < kept@.len() ==> exists|j: int|
                            0 <= j < i && pool0[j] == #[trigger] kept@[x],
                    forall|x: int|
                        0 <= x < kept@.len() ==> (#[trigger] kept@[x].hash) == spec_tx_hash(
                            kept@[x].tx,
                        ),
                    forall|x: int, y: int|
                        #![trigger kept@[x], kept@[y]]
                        0 <= x < y < kept@.len() ==> kept@[x].hash != kept@[y].hash,
                decreases n - i,
            {
                proof {
                    assert(pool0.skip(i as int).len() > 0);
                    assert(pool0.skip(i as int)[0] == pool0[i as int]);
                    assert(pool0.skip(i as int).drop_first() =~= pool0.skip(i + 1));
                    assert(spec_prune_mempool(pool0.skip(i as int), btxs) == (
                        if spec_txs_contain_hash(btxs, pool0[i as int].hash) {
                            spec_prune_mempool(pool0.skip(i + 1), btxs)
                        } else {
                            seq![pool0[i as int]] + spec_prune_mempool(pool0.skip(i + 1), btxs)
                        }
                    ));
                }
                let e_hash = self.mempool[i].hash;
                if !block_txs_contain(&block.transactions, &e_hash) {
                    let e = MempoolEntry { hash: e_hash, tx: self.mempool[i].tx };
                    proof {
                        assert(e == pool0[i as int]);
                        assert((kept@ + seq![pool0[i as int]]) + spec_prune_mempool(
                            pool0.skip(i + 1),
                            btxs,
                        ) =~= kept@ + (seq![pool0[i as int]] + spec_prune_mempool(
                            pool0.skip(i + 1),
                            btxs,
                        )));
                    }
                    kept.push(e);
                    proof {
                        assert(kept@.last() == pool0[i as int]);
                        assert forall|x: int|
                            0 <= x < kept@.len() - 1 implies kept@[x].hash != pool0[i as int].hash by {
                            let j = choose|j: int| 0 <= j < i && pool0[j] == kept@[x];
                        }
                    }
                } else {
                    proof {
                        assert(spec_txs_contain_hash(btxs, e_hash));
                        assert(e_hash == pool0[i as int].hash);
                        assert(spec_prune_mempool(pool0.skip(i as int), btxs)
                            == spec_prune_mempool(pool0.skip(i + 1), btxs));
                    }
                }
                i += 1;
            }
            proof {
                assert(pool0.skip(n as int) =~= Seq::<MempoolEntry>::empty());
                assert(spec_prune_mempool(Seq::<MempoolEntry>::empty(), btxs)
                    =~= Seq::<MempoolEntry>::empty());
                assert(kept@ + Seq::<MempoolEntry>::empty() =~= kept@);
                assert(kept@ == spec_prune_mempool(pool0, btxs));
            }
            self.mempool = kept;
        }
        added
    }

    /// A snapshot for a fresh mining task: the hash of the current tip
    /// and the first [`MAX_TXS`] mempool transactions, or `None` when
    /// the mempool is empty and there is nothing to mine.
    pub fn mining_snapshot(&self) -> (r: Option<(Digest, Transactions)>)
        requires
            self.wf(),
        ensures
            match r {
                Some(p) => {
                    &&& self.mempool@.len() > 0
                    &&& p.0 == spec_block_hash(
                        self.chain.entries@[self.chain.tip as int].block,
                    )
                    &&& p.1@.len() == (if self.mempool@.len() <= MAX_TXS {
                        self.mempool@.len() as int
                    } else {
                        MAX_TXS as int
                    })
                    &&& forall|i: int| 0 <= i < p.1@.len() ==> p.1@[i] == self.mempool@[i].tx
                },
                None => self.mempool@.len() == 0,
            },
    {
        if self.mempool.len() == 0 {
            return None;
        }
        let prev_hash = self.chain.highest_block().hash();
        let k = if self.mempool.len() <= MAX_TXS {
            self.mempool.len()
        } else {
            MAX_TXS
        };
        let mut txs: Vec<Transaction> = Vec::new();
        let mut i: usize = 0;
        while i < k
            invariant
                i <= k <= self.mempool@.len(),
                txs@.len() == i,
                forall|j: int| 0 <= j < i ==> txs@[j] == self.mempool@[j].tx,
            decreases k - i,
        {
            txs.push(self.mempool[i].tx);
            i += 1;
        }
        Some((prev_hash, Transactions(txs)))
    }

    /// Handles the state transitions of the node in response to the
    /// given message.  Returns an optional reply to broadcast back to
    /// the network and instructions whether a mining process should be
    /// (re-)started:
    /// - `Connect` from a new peer adds it and replies with known peers;
    /// - `Addr` merges the advertised addresses into the peer set;
    /// - `Tx` pools the genuinely new transactions, rebroadcasts them,
    ///   and starts mining;
    /// - `NewBlock` offers the block to the chain, prunes the mempool
    ///   and rebroadcasts if it was accepted, and restarts mining when
    ///   the block became the new tip.
    pub fn handle(&mut self, message: Message) -> (r: (Option<Message>, MiningCommand))
        requires
            old(self).wf(),
        ensures
            final(self).wf(),
            final(self).address == old(self).address,
            match message {
                Message::Connect(addr) => {
                    &&& final(self).mempool@ == old(self).mempool@
                    &&& final(self).chain == old(self).chain
                    &&& r.1 == MiningCommand::Keep
                    &&& if addr == old(self).address || old(self).peers@.contains(addr) {
                        final(self).peers@ == old(self).peers@ && r.0 is None
                    } else {
                        &&& final(self).peers@ == old(self).peers@.push(addr)
                        &&& r.0 matches Some(reply) && reply@ == MessageV::Addr(
                            Self::spec_addr_reply(final(self).peers@, old(self).address),
                        )
                    }
                },
                Message::Addr(l) => {
                    &&& final(self).mempool@ == old(self).mempool@
                    &&& final(self).chain == old(self).chain
                    &&& r.1 == MiningCommand::Keep
                    &&& r.0 is None
                    &&& final(self).peers@ == spec_insert_peers(
                        old(self).peers@,
                        old(self).address,
                        l@,
                    )
                },
                Message::Tx(txs) => {
                    &&& final(self).peers@ == old(self).peers@
                    &&& final(self).chain == old(self).chain
                    &&& r.1 == MiningCommand::Start
                    &&& final(self).mempool@ == spec_integrate_txs(old(self).mempool@, txs@).0
                    &&& {
                        let fresh = spec_integrate_txs(old(self).mempool@, txs@).1;
                        if fresh.len() == 0 {
                            r.0 is None
                        } else {
                            r.0 matches Some(reply) && reply@ == MessageV::Tx(fresh)
                        }
                    }
                },
                Message::NewBlock(b) => {
                    let added = old(self).chain.spec_accepts(b);
                    &&& final(self).peers@ == old(self).peers@
                    &&& BlockChain::spec_add_block(old(self).chain, b, final(self).chain, added)
                    &&& final(self).mempool@ == (if added {
                        spec_prune_mempool(old(self).mempool@, b.transactions@)
                    } else {
                        old(self).mempool@
                    })
                    &&& (if added {
                        r.0 matches Some(reply) && reply@ == MessageV::NewBlock(b@)
                    } else {
                        r.0 is None
                    })
                    &&& r.1 == (if added && final(self).chain.tip == old(
                        self,
                    ).chain.entries@.len() {
                        MiningCommand::Restart
                    } else {
                        MiningCommand::Start
                    })
                },
            },
    {
        match message {
            // if a new peer connects and is not ourselves, add it to the
            // peers and broadcast some known peers
            Message::Connect(addr) => {
                if addr == self.address {
                    (None, MiningCommand::Keep)
                } else if self.contains_peer(&addr) {
                    (None, MiningCommand::Keep)
                } else {
                    self.peers.push(addr);
                    let k = if self.peers.len() <= 9 {
                        self.peers.len()
                    } else {
                        9
                    };
                    let mut reply: Vec<PeerAddr> = Vec::new();
                    let mut i: usize = 0;
                    while i < k
                        invariant
                            i <= k <= self.peers@.len(),
                            reply@.len() == i,
                            forall|j: int| 0 <= j < i ==> reply@[j] == self.peers@[j],
                        decreases k - i,
                    {
                        reply.push(self.peers[i]);
                        i += 1;
                    }
                    reply.push(self.address);
                    proof {
                        assert(reply@ =~= Self::spec_addr_reply(self.peers@, self.address));
                    }
                    (Some(Message::Addr(reply)), MiningCommand::Keep)
                }
            },
            // add broadcast peer addresses to addresses (except ourselves)
            Message::Addr(l) => {
                let ghost peers0 = self.peers@;
                let ghost own = self.address;
                let ghost mempool0 = self.mempool@;
                let ghost chain0 = self.chain;
                let n = l.len();
                let mut i: usize = 0;
                proof {
                    assert(l@.skip(0) =~= l@);
                }
                while i < n
                    invariant
                        i <= n,
                        n == l@.len(),
                        self.address == own,
                        self.mempool@ == mempool0,
                        self.chain == chain0,
                        self.peers_wf(),
                        spec_insert_peers(self.peers@, own, l@.skip(i as int)) == spec_insert_peers(
                            peers0,
                            own,
                            l@,
                        ),
                    decreases n - i,
                {
                    let a = l[i];
                    proof {
                        assert(l@.skip(i as int)[0] == l@[i as int]);
                        assert(l@.skip(i as int).drop_first() =~= l@.skip(i + 1));
                    }
                    if !(a == self.address) && !self.contains_peer(&a) {
                        self.peers.push(a);
                    }
                    i += 1;
                }
                proof {
                    assert(l@.skip(n as int) =~= Seq::<PeerAddr>::empty());
                }
                (None, MiningCommand::Keep)
            },
            // add broadcast txs to mempool and rebroadcast new ones
            Message::Tx(txs) => {
                let ghost pool0 = self.mempool@;
                let ghost all = txs@;
                let ghost own = self.address;
                let ghost peers0 = self.peers@;
                let ghost chain0 = self.chain;
                let mut fresh: Vec<Transaction> = Vec::new();
                let n = txs.0.len();
                let mut i: usize = 0;
                proof {
                    assert(all.skip(0) =~= all);
                    assert(Seq::<Transaction>::empty() + spec_integrate_txs(pool0, all).1
                        =~= spec_integrate_txs(pool0, all).1);
                }
                while i < n
                    invariant
                        i <= n,
                        n == all.len(),
                        txs.0@ == all,
                        self.address == own,
                        self.peers@ == peers0,
                        self.chain == chain0,
                        self.mempool_wf(),
                        spec_integrate_txs(pool0, all).0 == spec_integrate_txs(
                            self.mempool@,
                            all.skip(i as int),
                        ).0,
                        spec_integrate_txs(pool0, all).1 == fresh@ + spec_integrate_txs(
                            self.mempool@,
                            all.skip(i as int),
                        ).1,
                    decreases n - i,
                {
                    proof {
                        assert(all.skip(i as int)[0] == all[i as int]);
                        assert(all.skip(i as int).drop_first() =~= all.skip(i + 1));
                    }
                    let t = txs.0[i];
                    let h = t.hash();
                    if !self.mempool_contains(&h) {
                        let ghost pool_before = self.mempool@;
                        let ghost fresh0 = fresh@;
                        self.mempool.push(MempoolEntry { hash: h, tx: t });
                        fresh.push(t);
                        proof {
                            assert(fresh@ =~= fresh0 + seq![t]);
                            assert((fresh0 + seq![t]) + spec_integrate_txs(
                                self.mempool@,
                                all.skip(i + 1),
                            ).1 =~= fresh0 + (seq![t] + spec_integrate_txs(
                                self.mempool@,
                                all.skip(i + 1),
                            ).1));
                        }
                    }
                    i += 1;
                }
                proof {
                    assert(all.skip(n as int) =~= Seq::<Transaction>::empty());
                    assert(fresh@ + Seq::<Transaction>::empty() =~= fresh@);
                }
                let reply = if fresh.len() > 0 {
                    Some(Message::Tx(Transactions(fresh)))
                } else {
                    None
                };
                // start mining if not already in process
                (reply, MiningCommand::Start)
            },
            // adds a new block to chain, if valid, and rebroadcasts it
            // if valid & new
            Message::NewBlock(b) => {
                let old_len = self.chain.entries.len();
                let added = self.add_block(&b);
                // if the main chain has updated, we need to restart the
                // mining with the new highest block as parent
                let cmd = if added && self.chain.tip == old_len {
                    MiningCommand::Restart
                } else {
                    MiningCommand::Start
                };
                let reply = if added {
                    Some(Message::NewBlock(b))
                } else {
                    None
                };
                (reply, cmd)
            },
        }
    }
}

} // verus!
