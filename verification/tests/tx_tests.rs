use repyh_proof_of_work::hash::{Digest, Hashable, HASH_LENGTH};
use repyh_proof_of_work::tx::{genesis_txs_hash, Transaction, Transactions, GENESIS_TIME};

#[test]
fn test_single() {
    let tx = Transaction::new(Digest::repeat_byte(0), Digest::repeat_byte(1), 100, 1);
    assert_eq!(
        Transactions(vec![tx.clone(), tx.clone()]).hash(),
        Transactions(vec![tx]).hash()
    );
}

#[test]
fn test_genesis() {
    assert_eq!(Transactions::genesis().hash(), genesis_txs_hash());
}

#[test]
fn test_many() {
    Transactions(Transaction::dummy_txs(10000)).hash();
}

#[test]
fn tx_hash_is_deterministic() {
    let tx = Transaction::new(Digest::repeat_byte(3), Digest::repeat_byte(4), 17, 99);
    assert_eq!(tx.hash(), tx.clone().hash());
    let again = Transaction::new(Digest::repeat_byte(3), Digest::repeat_byte(4), 17, 99);
    assert_eq!(tx.hash(), again.hash());
}

#[test]
fn tx_field_perturbation_changes_hash() {
    let base = Transaction::new(Digest::repeat_byte(3), Digest::repeat_byte(4), 17, 99);
    let spender_changed = Transaction::new(Digest::repeat_byte(5), Digest::repeat_byte(4), 17, 99);
    let receiver_changed = Transaction::new(Digest::repeat_byte(3), Digest::repeat_byte(5), 17, 99);
    let amount_changed = Transaction::new(Digest::repeat_byte(3), Digest::repeat_byte(4), 18, 99);
    let timestamp_changed =
        Transaction::new(Digest::repeat_byte(3), Digest::repeat_byte(4), 17, 100);
    assert_ne!(base.hash(), spender_changed.hash());
    assert_ne!(base.hash(), receiver_changed.hash());
    assert_ne!(base.hash(), amount_changed.hash());
    assert_ne!(base.hash(), timestamp_changed.hash());
}

#[test]
fn merkle_root_changes_with_any_tx_field() {
    let t1 = Transaction::new(Digest::repeat_byte(1), Digest::repeat_byte(2), 1, 10);
    let t2 = Transaction::new(Digest::repeat_byte(3), Digest::repeat_byte(4), 2, 20);
    let t3 = Transaction::new(Digest::repeat_byte(5), Digest::repeat_byte(6), 3, 30);
    let base = Transactions(vec![t1.clone(), t2.clone(), t3.clone()]).hash();
    let t2_changed = Transaction::new(Digest::repeat_byte(3), Digest::repeat_byte(4), 2, 21);
    let perturbed = Transactions(vec![t1.clone(), t2_changed, t3.clone()]).hash();
    assert_ne!(base, perturbed);
    // order is part of identity
    let reordered = Transactions(vec![t2, t1, t3]).hash();
    assert_ne!(base, reordered);
}

#[test]
fn dummy_txs_fields() {
    let txs = Transaction::dummy_txs(3);
    assert_eq!(txs.len(), 3);
    assert_eq!(txs[0].spender, Digest::repeat_byte(1));
    assert_eq!(txs[0].receiver, Digest::repeat_byte(2));
    assert_eq!(txs[0].amount, 1);
    assert_eq!(txs[2].spender, Digest::repeat_byte(3));
    assert_eq!(txs[2].receiver, Digest::repeat_byte(4));
    assert_eq!(txs[2].amount, 3);
}

#[test]
fn genesis_tx_fields() {
    let txs = Transactions::genesis();
    assert_eq!(txs.0.len(), 1);
    let tx = &txs.0[0];
    assert_eq!(tx.spender, Digest::repeat_byte(1));
    let mut receiver_bytes = vec![0u8; HASH_LENGTH];
    receiver_bytes[0] = 1;
    assert_eq!(tx.receiver, Digest::from_bytes(&receiver_bytes).unwrap());
    assert_eq!(tx.amount, 100);
    assert_eq!(tx.timestamp, GENESIS_TIME);
    assert_eq!(GENESIS_TIME, 1707519600);
}
