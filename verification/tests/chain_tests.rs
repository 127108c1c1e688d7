use repyh_proof_of_work::block::Block;
use repyh_proof_of_work::chain::BlockChain;
use repyh_proof_of_work::hash::{Digest, Hashable};
use repyh_proof_of_work::tx::{Transaction, Transactions};
use repyh_proof_of_work::GLOBAL_DIFFICULTY;

#[test]
fn add_block() {
    let mut chain = BlockChain::new();
    assert_eq!(chain.main_chain_length(), 1);
    assert_eq!(chain.highest_block(), &Block::genesis());
    let genesis_hash = chain.highest_block().hash();

    let txs = Transaction::dummy_txs(10);
    let first_block = Block::mine_new(genesis_hash, GLOBAL_DIFFICULTY, Transactions(txs)).unwrap();
    assert!(chain.add_block(&first_block));
    assert_eq!(chain.main_chain_length(), 2);
    assert_eq!(chain.highest_block(), &first_block);

    // add a forked block on genesis block
    let txs = Transaction::dummy_txs(2);
    let second_block = Block::mine_new(genesis_hash, GLOBAL_DIFFICULTY, Transactions(txs)).unwrap();
    assert!(chain.add_block(&second_block));
    // length is still two
    assert_eq!(chain.main_chain_length(), 2);
    // highest block is still the first "highest" block
    assert_eq!(chain.highest_block(), &first_block);

    // add a second block on the fork
    let txs = Transaction::dummy_txs(3);
    let third_block =
        Block::mine_new(second_block.hash(), GLOBAL_DIFFICULTY, Transactions(txs)).unwrap();
    assert!(chain.add_block(&third_block));
    assert_eq!(chain.main_chain_length(), 3);
    // now, the highest block has switched
    assert_eq!(chain.highest_block(), &third_block);
}

#[test]
fn fresh_chain_holds_only_genesis() {
    let chain = BlockChain::new();
    assert_eq!(chain.main_chain_length(), 1);
    assert_eq!(chain.highest_block(), &Block::genesis());
    assert_eq!(chain.highest_block().header.nonce, 437);
}

#[test]
fn orphan_block_is_rejected() {
    let mut chain = BlockChain::new();
    let unknown_parent = Digest::repeat_byte(0xab);
    let txs = Transaction::dummy_txs(2);
    let orphan = Block::mine_new(unknown_parent, GLOBAL_DIFFICULTY, Transactions(txs)).unwrap();
    assert!(!chain.add_block(&orphan));
    assert_eq!(chain.main_chain_length(), 1);
    assert_eq!(chain.highest_block(), &Block::genesis());
}

#[test]
fn duplicate_block_is_rejected() {
    let mut chain = BlockChain::new();
    let genesis_hash = chain.highest_block().hash();
    let txs = Transaction::dummy_txs(4);
    let block = Block::mine_new(genesis_hash, GLOBAL_DIFFICULTY, Transactions(txs)).unwrap();
    assert!(chain.add_block(&block));
    assert!(!chain.add_block(&block));
    assert_eq!(chain.main_chain_length(), 2);
}

#[test]
fn invalid_block_is_rejected() {
    let mut chain = BlockChain::new();
    let genesis_hash = chain.highest_block().hash();
    let txs = Transaction::dummy_txs(2);
    // an unmined block almost surely fails the difficulty-2 proof of work
    let unmined = Block::new(genesis_hash, GLOBAL_DIFFICULTY, Transactions(txs));
    assert!(!unmined.is_valid());
    assert!(!chain.add_block(&unmined));
    assert_eq!(chain.main_chain_length(), 1);
}

#[test]
fn forks_are_retained() {
    // fork and tie-break, and the losing subtree stays stored
    let mut chain = BlockChain::new();
    let genesis_hash = chain.highest_block().hash();
    let a = Block::mine_new(
        genesis_hash,
        GLOBAL_DIFFICULTY,
        Transactions(Transaction::dummy_txs(1)),
    )
    .unwrap();
    let b = Block::mine_new(
        genesis_hash,
        GLOBAL_DIFFICULTY,
        Transactions(Transaction::dummy_txs(2)),
    )
    .unwrap();
    assert!(chain.add_block(&a));
    assert!(chain.add_block(&b));
    assert_eq!(chain.highest_block(), &a);
    let c = Block::mine_new(
        b.hash(),
        GLOBAL_DIFFICULTY,
        Transactions(Transaction::dummy_txs(3)),
    )
    .unwrap();
    assert!(chain.add_block(&c));
    assert_eq!(chain.highest_block(), &c);
    assert_eq!(chain.main_chain_length(), 3);
    // a and its subtree remain stored: extending a still works
    let d = Block::mine_new(
        a.hash(),
        GLOBAL_DIFFICULTY,
        Transactions(Transaction::dummy_txs(4)),
    )
    .unwrap();
    assert!(chain.add_block(&d));
    // d only ties the current height, so c stays the tip
    assert_eq!(chain.highest_block(), &c);
    assert_eq!(chain.main_chain_length(), 3);
}
