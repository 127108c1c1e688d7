use repyh_proof_of_work::block::{Block, BlockHeader, GENESIS_NONCE};
use repyh_proof_of_work::hash::{Digest, Hashable};
use repyh_proof_of_work::tx::{Transaction, Transactions};

fn previous_hash() -> Digest {
    Digest::repeat_byte(7)
}

#[test]
fn mined_block_header_valid() {
    assert!(!BlockHeader::new(previous_hash(), Digest::repeat_byte(5), 2).is_valid());
    assert!(BlockHeader::mine_new(previous_hash(), Digest::repeat_byte(5), 2)
        .unwrap()
        .is_valid());
}

#[test]
fn mined_block_valid() {
    let txs = Transaction::dummy_txs(10);
    assert!(!Block::new(previous_hash(), 2, Transactions(txs.clone())).is_valid());
    assert!(Block::mine_new(previous_hash(), 2, Transactions(txs))
        .unwrap()
        .is_valid());
}

#[test]
fn genesis_block_is_valid() {
    let genesis_block = Block::genesis();
    assert_eq!(genesis_block.header.solve(), Some(GENESIS_NONCE));
    assert!(genesis_block.is_valid());
    assert_eq!(
        genesis_block.transactions.hash(),
        genesis_block.header.merkle_hash
    );
}

#[test]
fn mined_header_nonce_is_least() {
    let header = BlockHeader::mine_new(previous_hash(), Digest::repeat_byte(5), 1).unwrap();
    for nonce in 0..header.nonce {
        let earlier = BlockHeader {
            prev_block_hash: header.prev_block_hash,
            merkle_hash: header.merkle_hash,
            difficulty: header.difficulty,
            nonce,
        };
        assert!(!earlier.is_valid());
    }
}

#[test]
fn header_difficulty_zero_is_vacuous() {
    assert!(BlockHeader::new(previous_hash(), Digest::repeat_byte(5), 0).is_valid());
}

#[test]
fn header_difficulty_over_32_is_invalid() {
    assert!(!BlockHeader::new(previous_hash(), Digest::repeat_byte(5), 33).is_valid());
}

#[test]
fn empty_block_is_invalid() {
    let b = Block {
        header: BlockHeader::new(previous_hash(), Digest::repeat_byte(5), 0),
        transactions: Transactions(vec![]),
    };
    assert!(!b.is_valid());
}
