use repyh_proof_of_work::block::Block;
use repyh_proof_of_work::chain::BlockChain;
use repyh_proof_of_work::hash::Hashable;
use repyh_proof_of_work::msg::{Message, PeerAddr};
use repyh_proof_of_work::tx::{Transaction, Transactions};
use repyh_proof_of_work::GLOBAL_DIFFICULTY;

fn v4(a: u8, b: u8, c: u8, d: u8, port: u16) -> PeerAddr {
    PeerAddr::V4 {
        o0: a,
        o1: b,
        o2: c,
        o3: d,
        port,
    }
}

#[test]
fn round_trip_connect() {
    let m = Message::Connect(v4(127, 0, 0, 1, 7000));
    let bytes = m.encode();
    assert_eq!(Message::decode(&bytes), Some(m));
}

#[test]
fn round_trip_connect_v6() {
    let m = Message::Connect(PeerAddr::V6 {
        hi: 0x1122334455667788,
        lo: 0x99aabbccddeeff00,
        port: 65535,
    });
    let bytes = m.encode();
    assert_eq!(Message::decode(&bytes), Some(m));
}

#[test]
fn round_trip_addr() {
    let m = Message::Addr(vec![
        v4(127, 0, 0, 1, 7000),
        v4(10, 0, 0, 2, 7001),
        PeerAddr::V6 {
            hi: 1,
            lo: 2,
            port: 3,
        },
    ]);
    let bytes = m.encode();
    assert_eq!(Message::decode(&bytes), Some(m));
    let empty = Message::Addr(vec![]);
    let bytes = empty.encode();
    assert_eq!(Message::decode(&bytes), Some(empty));
}

#[test]
fn round_trip_tx() {
    let m = Message::Tx(Transactions(Transaction::dummy_txs(10)));
    let bytes = m.encode();
    assert_eq!(Message::decode(&bytes), Some(m));
}

#[test]
fn round_trip_new_block() {
    let chain = BlockChain::new();
    let b = Block::mine_new(
        chain.highest_block().hash(),
        GLOBAL_DIFFICULTY,
        Transactions(Transaction::dummy_txs(3)),
    )
    .unwrap();
    let m = Message::NewBlock(b);
    let bytes = m.encode();
    assert_eq!(Message::decode(&bytes), Some(m));
}

#[test]
fn connect_wire_layout() {
    // u32 LE message discriminant 0, u32 LE address discriminant 0,
    // four octets, u16 LE port
    let bytes = Message::Connect(v4(127, 0, 0, 1, 7000)).encode();
    assert_eq!(
        bytes,
        vec![0, 0, 0, 0, 0, 0, 0, 0, 127, 0, 0, 1, 0x58, 0x1b]
    );
}

#[test]
fn decode_rejects_malformed_input() {
    // empty and short inputs
    assert_eq!(Message::decode(&[]), None);
    assert_eq!(Message::decode(&[0, 0, 0]), None);
    // unknown discriminant
    assert_eq!(Message::decode(&[4, 0, 0, 0]), None);
    // truncated payload
    let good = Message::Connect(v4(1, 2, 3, 4, 5)).encode();
    assert_eq!(Message::decode(&good[..good.len() - 1]), None);
    // trailing garbage
    let mut long = good.clone();
    long.push(0);
    assert_eq!(Message::decode(&long), None);
    // address list shorter than its length prefix claims
    let mut addr = Message::Addr(vec![v4(1, 2, 3, 4, 5)]).encode();
    addr[4] = 2;
    assert_eq!(Message::decode(&addr), None);
}

#[test]
fn decode_is_encode_inverse_bytewise() {
    // decoding canonical bytes and re-encoding reproduces them exactly
    let m = Message::Tx(Transactions(Transaction::dummy_txs(2)));
    let bytes = m.encode();
    let decoded = Message::decode(&bytes).unwrap();
    assert_eq!(decoded.encode(), bytes);
}
