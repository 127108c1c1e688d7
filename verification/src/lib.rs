//! A minimal peer-to-peer proof-of-work blockchain node core.
//!
//! The crate provides the verified node core: the block and transaction
//! model with Merkle hashing, the proof-of-work solver, the chain store
//! with longest-chain selection, the node state machine that reacts to
//! gossip messages, and the binary codec for the wire protocol.

use vstd::prelude::*;

pub mod block;
pub mod chain;
pub mod hash;
pub mod msg;
pub mod node;
pub mod tx;

pub use crate::block::{Block, BlockHeader, MAX_TXS};
pub use crate::chain::BlockChain;
pub use crate::hash::{has_leading_zeros, B58Encode, Digest, Hashable, HASH_LENGTH};
pub use crate::msg::{Message, PeerAddr};
pub use crate::node::{MiningCommand, Node};
pub use crate::tx::{Transaction, Transactions};

verus! {

/// Number of leading zero bytes a block header hash must have.
pub const GLOBAL_DIFFICULTY: u32 = 2;

} // verus!
