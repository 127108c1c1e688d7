use repyh_proof_of_work::block::Block;
use repyh_proof_of_work::hash::Hashable;
use repyh_proof_of_work::msg::{Message, PeerAddr};
use repyh_proof_of_work::node::{MiningCommand, Node};
use repyh_proof_of_work::tx::{Transaction, Transactions};
use repyh_proof_of_work::GLOBAL_DIFFICULTY;

fn addr(last_octet: u8, port: u16) -> PeerAddr {
    PeerAddr::V4 {
        o0: 127,
        o1: 0,
        o2: 0,
        o3: last_octet,
        port,
    }
}

#[test]
fn two_node_gossip() {
    // two-node gossip: N2 knows N1 as initial peer and announces itself to N1
    let n1_addr = addr(1, 7000);
    let n2_addr = addr(1, 7001);
    let mut n1 = Node::new(n1_addr, &[]);
    let mut n2 = Node::new(n2_addr, &[n1_addr]);

    let (reply, cmd) = n1.handle(Message::Connect(n2_addr));
    assert_eq!(cmd, MiningCommand::Keep);
    assert_eq!(reply, Some(Message::Addr(vec![n2_addr, n1_addr])));

    let (reply2, cmd2) = n2.handle(Message::Addr(vec![n2_addr, n1_addr]));
    assert_eq!(reply2, None);
    assert_eq!(cmd2, MiningCommand::Keep);

    // both peer sets contain the other's address and never their own
    assert!(n1.peers.contains(&n2_addr));
    assert!(!n1.peers.contains(&n1_addr));
    assert!(n2.peers.contains(&n1_addr));
    assert!(!n2.peers.contains(&n2_addr));
}

#[test]
fn connect_from_self_or_known_peer_is_ignored() {
    let own = addr(1, 7000);
    let peer = addr(2, 7000);
    let mut node = Node::new(own, &[peer]);
    let (reply, cmd) = node.handle(Message::Connect(own));
    assert_eq!(reply, None);
    assert_eq!(cmd, MiningCommand::Keep);
    let (reply, cmd) = node.handle(Message::Connect(peer));
    assert_eq!(reply, None);
    assert_eq!(cmd, MiningCommand::Keep);
    assert_eq!(node.peers.len(), 1);
}

#[test]
fn connect_reply_caps_at_ten_addresses() {
    let own = addr(1, 7000);
    let known: Vec<PeerAddr> = (0..12).map(|i| addr(10 + i, 7000)).collect();
    let mut node = Node::new(own, &known);
    let newcomer = addr(99, 7000);
    let (reply, _) = node.handle(Message::Connect(newcomer));
    match reply {
        Some(Message::Addr(list)) => {
            assert_eq!(list.len(), 10);
            assert_eq!(list[9], own);
        }
        other => panic!("expected an Addr reply, got {:?}", other),
    }
}

#[test]
fn tx_propagation() {
    // transaction propagation: ten new transactions enter the mempool and are rebroadcast;
    // a second arrival produces no rebroadcast
    let mut n1 = Node::new(addr(1, 7000), &[addr(2, 7000)]);
    let txs = Transaction::dummy_txs(10);

    let (reply, cmd) = n1.handle(Message::Tx(Transactions(txs.clone())));
    assert_eq!(cmd, MiningCommand::Start);
    assert_eq!(reply, Some(Message::Tx(Transactions(txs.clone()))));
    assert_eq!(n1.mempool.len(), 10);

    let (reply2, cmd2) = n1.handle(Message::Tx(Transactions(txs)));
    assert_eq!(reply2, None);
    assert_eq!(cmd2, MiningCommand::Start);
    assert_eq!(n1.mempool.len(), 10);
}

#[test]
fn mining_drains_mempool() {
    // mining drains the mempool: mine the snapshot of a five-transaction mempool and accept it
    let mut node = Node::new(addr(1, 7000), &[]);
    let txs = Transaction::dummy_txs(5);
    node.handle(Message::Tx(Transactions(txs)));
    assert_eq!(node.mempool.len(), 5);

    let (prev_hash, snapshot) = node.mining_snapshot().unwrap();
    assert_eq!(prev_hash, node.chain.highest_block().hash());
    assert_eq!(snapshot.0.len(), 5);

    let b = Block::mine_new(prev_hash, GLOBAL_DIFFICULTY, snapshot).unwrap();
    assert!(node.add_block(&b));
    assert!(node.mempool.is_empty());
    assert_eq!(node.chain.highest_block(), &b);
}

#[test]
fn new_block_restarts_mining_when_it_becomes_tip() {
    // restart on tip change: a peer-mined block arrives, becomes the tip, and mining must
    // restart on top of it
    let mut node = Node::new(addr(1, 7000), &[]);
    // a transaction not contained in the incoming block keeps the
    // mempool non-empty
    let pending = Transaction::new(
        repyh_proof_of_work::hash::Digest::repeat_byte(0xaa),
        repyh_proof_of_work::hash::Digest::repeat_byte(0xbb),
        1,
        1,
    );
    node.handle(Message::Tx(Transactions(vec![pending])));

    let genesis_hash = node.chain.highest_block().hash();
    let b = Block::mine_new(
        genesis_hash,
        GLOBAL_DIFFICULTY,
        Transactions(Transaction::dummy_txs(2)),
    )
    .unwrap();
    let (reply, cmd) = node.handle(Message::NewBlock(b.clone()));
    assert_eq!(cmd, MiningCommand::Restart);
    assert_eq!(reply, Some(Message::NewBlock(b.clone())));
    // a fresh mining task would now build on the new tip
    let (prev_hash, _) = node.mining_snapshot().unwrap();
    assert_eq!(prev_hash, b.hash());
}

#[test]
fn new_block_on_fork_starts_but_does_not_restart() {
    let mut node = Node::new(addr(1, 7000), &[]);
    let genesis_hash = node.chain.highest_block().hash();
    let a = Block::mine_new(
        genesis_hash,
        GLOBAL_DIFFICULTY,
        Transactions(Transaction::dummy_txs(1)),
    )
    .unwrap();
    let b = Block::mine_new(
        genesis_hash,
        GLOBAL_DIFFICULTY,
        Transactions(Transaction::dummy_txs(2)),
    )
    .unwrap();
    let (_, cmd_a) = node.handle(Message::NewBlock(a.clone()));
    assert_eq!(cmd_a, MiningCommand::Restart);
    // b only ties the height: accepted and rebroadcast, but no restart
    let (reply_b, cmd_b) = node.handle(Message::NewBlock(b.clone()));
    assert_eq!(reply_b, Some(Message::NewBlock(b)));
    assert_eq!(cmd_b, MiningCommand::Start);
    assert_eq!(node.chain.highest_block(), &a);
}

#[test]
fn orphan_new_block_is_dropped() {
    // orphan rejection at the node level: unknown parent, no reply,
    // tip unchanged
    let mut node = Node::new(addr(1, 7000), &[]);
    let orphan = Block::mine_new(
        repyh_proof_of_work::hash::Digest::repeat_byte(0xcd),
        GLOBAL_DIFFICULTY,
        Transactions(Transaction::dummy_txs(2)),
    )
    .unwrap();
    let (reply, cmd) = node.handle(Message::NewBlock(orphan));
    assert_eq!(reply, None);
    assert_eq!(cmd, MiningCommand::Start);
    assert_eq!(node.chain.main_chain_length(), 1);
    assert_eq!(node.chain.highest_block(), &Block::genesis());
}

#[test]
fn accepted_block_txs_leave_mempool() {
    // mempool/block coherence: after a block is accepted, none of its
    // transaction hashes
    // remain in the mempool, even from a side branch
    let mut node = Node::new(addr(1, 7000), &[]);
    let txs = Transaction::dummy_txs(4);
    node.handle(Message::Tx(Transactions(txs.clone())));
    assert_eq!(node.mempool.len(), 4);

    let genesis_hash = node.chain.highest_block().hash();
    let shared = vec![txs[0].clone(), txs[1].clone()];
    let b = Block::mine_new(genesis_hash, GLOBAL_DIFFICULTY, Transactions(shared)).unwrap();
    assert!(node.add_block(&b));
    assert_eq!(node.mempool.len(), 2);
    let remaining: Vec<_> = node.mempool.iter().map(|e| e.tx.clone()).collect();
    assert!(remaining.contains(&txs[2]));
    assert!(remaining.contains(&txs[3]));
    assert!(!remaining.contains(&txs[0]));
    assert!(!remaining.contains(&txs[1]));
}

#[test]
fn mining_snapshot_caps_at_max_txs() {
    let mut node = Node::new(addr(1, 7000), &[]);
    let txs = Transaction::dummy_txs(repyh_proof_of_work::MAX_TXS as u32 + 17);
    node.handle(Message::Tx(Transactions(txs)));
    let (_, snapshot) = node.mining_snapshot().unwrap();
    assert_eq!(snapshot.0.len(), repyh_proof_of_work::MAX_TXS);
}

#[test]
fn empty_mempool_yields_no_mining_snapshot() {
    let node = Node::new(addr(1, 7000), &[]);
    assert!(node.mining_snapshot().is_none());
}

#[test]
fn initial_peers_are_deduplicated_and_own_address_dropped() {
    let own = addr(1, 7000);
    let peer = addr(2, 7000);
    let node = Node::new(own, &[peer, own, peer]);
    assert_eq!(node.peers.len(), 1);
    assert_eq!(node.peers[0], peer);
}
