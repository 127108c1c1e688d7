//! The gossip protocol: peer addresses, the four message variants, and
//! the canonical binary wire codec.
//!
//! Every message is a single binary blob: a `u32` little-endian variant
//! discriminant followed by the variant payload.  Sequences carry a
//! `u64` little-endian length prefix; fixed-width integers are
//! little-endian; byte arrays of known length are raw bytes.

use vstd::prelude::*;
use vstd::bytes::{
    lemma_auto_spec_u16_to_from_le_bytes, lemma_auto_spec_u32_to_from_le_bytes,
    lemma_auto_spec_u64_to_from_le_bytes, spec_u16_from_le_bytes, spec_u16_to_le_bytes,
    spec_u32_from_le_bytes, spec_u32_to_le_bytes, spec_u64_from_le_bytes, spec_u64_to_le_bytes,
    u16_from_le_bytes, u16_to_le_bytes, u32_from_le_bytes, u32_to_le_bytes, u64_from_le_bytes,
    u64_to_le_bytes,
};
use vstd::slice::slice_subrange;
use crate::block::{
    encode_header, lemma_header_bytes_injective, lemma_header_bytes_len, spec_header_bytes, Block,
    BlockHeader, BlockV,
};
use crate::hash::digest_from_bytes;
use crate::tx::{
    encode_tx, lemma_tx_bytes_injective, lemma_tx_bytes_len, spec_tx_bytes, Transaction,
    Transactions,
};

verus! {

broadcast use vstd::slice::axiom_spec_len;

/// A peer's socket address, as the wire protocol carries it.
///
/// An IPv4 address holds its four octets and the port; an IPv6 address
/// holds its sixteen octets packed little-endian into two 64-bit words
/// (`hi` holds octets 0..8, `lo` octets 8..16) and the port.
#[derive(Clone, Copy, PartialEq, Eq, Structural, Debug)]
pub enum PeerAddr {
    V4 { o0: u8, o1: u8, o2: u8, o3: u8, port: u16 },
    V6 { hi: u64, lo: u64, port: u16 },
}

/// The canonical encoding of a peer address: a `u32` LE discriminant
/// (0 for v4, 1 for v6), the address octets, and the port (u16 LE).
pub open spec fn spec_addr_bytes(addr: PeerAddr) -> Seq<u8> {
    match addr {
        PeerAddr::V4 { o0, o1, o2, o3, port } => spec_u32_to_le_bytes(0u32) + seq![o0, o1, o2, o3]
            + spec_u16_to_le_bytes(port),
        PeerAddr::V6 { hi, lo, port } => spec_u32_to_le_bytes(1u32) + spec_u64_to_le_bytes(hi)
            + spec_u64_to_le_bytes(lo) + spec_u16_to_le_bytes(port),
    }
}

/// A v4 address encodes to 10 bytes, a v6 address to 22.
pub proof fn lemma_addr_bytes_len(addr: PeerAddr)
    ensures
        spec_addr_bytes(addr).len() == (if addr is V4 {
            10int
        } else {
            22int
        }),
{
    lemma_auto_spec_u16_to_from_le_bytes();
    lemma_auto_spec_u32_to_from_le_bytes();
    lemma_auto_spec_u64_to_from_le_bytes();
}

/// Address encodings are injective.
pub proof fn lemma_addr_bytes_injective(a1: PeerAddr, a2: PeerAddr)
    requires
        spec_addr_bytes(a1) == spec_addr_bytes(a2),
    ensures
        a1 == a2,
{
    lemma_auto_spec_u16_to_from_le_bytes();
    lemma_auto_spec_u32_to_from_le_bytes();
    lemma_auto_spec_u64_to_from_le_bytes();
    lemma_addr_bytes_len(a1);
    lemma_addr_bytes_len(a2);
    let b1 = spec_addr_bytes(a1);
    let b2 = spec_addr_bytes(a2);
    // the discriminant in the first four bytes separates the variants
    assert(b1.subrange(0, 4) =~= (if a1 is V4 {
        spec_u32_to_le_bytes(0u32)
    } else {
        spec_u32_to_le_bytes(1u32)
    }));
    assert(b2.subrange(0, 4) =~= (if a2 is V4 {
        spec_u32_to_le_bytes(0u32)
    } else {
        spec_u32_to_le_bytes(1u32)
    }));
    if a1 is V4 != a2 is V4 {
        assert(spec_u32_from_le_bytes(b1.subrange(0, 4)) == spec_u32_from_le_bytes(
            b2.subrange(0, 4),
        ));
        assert(false);
    }
    match (a1, a2) {
        (
            PeerAddr::V4 { o0, o1, o2, o3, port },
            PeerAddr::V4 { o0: p0, o1: p1, o2: p2, o3: p3, port: q },
        ) => {
            assert(b1[4] == o0 && b1[5] == o1 && b1[6] == o2 && b1[7] == o3);
            assert(b2[4] == p0 && b2[5] == p1 && b2[6] == p2 && b2[7] == p3);
            assert(b1.subrange(8, 10) =~= spec_u16_to_le_bytes(port));
            assert(b2.subrange(8, 10) =~= spec_u16_to_le_bytes(q));
            assert(port == q);
        },
        (PeerAddr::V6 { hi, lo, port }, PeerAddr::V6 { hi: h2, lo: l2, port: q }) => {
            assert(b1.subrange(4, 12) =~= spec_u64_to_le_bytes(hi));
            assert(b2.subrange(4, 12) =~= spec_u64_to_le_bytes(h2));
            assert(b1.subrange(12, 20) =~= spec_u64_to_le_bytes(lo));
            assert(b2.subrange(12, 20) =~= spec_u64_to_le_bytes(l2));
            assert(b1.subrange(20, 22) =~= spec_u16_to_le_bytes(port));
            assert(b2.subrange(20, 22) =~= spec_u16_to_le_bytes(q));
            assert(hi == h2 && lo == l2 && port == q);
        },
        _ => {
            assert(false);
        },
    }
}

/// Two addresses whose encodings begin the same byte sequence are equal.
pub proof fn lemma_addr_prefix_unique(a1: PeerAddr, a2: PeerAddr, s: Seq<u8>)
    requires
        spec_addr_bytes(a1).is_prefix_of(s),
        spec_addr_bytes(a2).is_prefix_of(s),
    ensures
        a1 == a2,
{
    lemma_auto_spec_u32_to_from_le_bytes();
    lemma_addr_bytes_len(a1);
    lemma_addr_bytes_len(a2);
    let b1 = spec_addr_bytes(a1);
    let b2 = spec_addr_bytes(a2);
    assert(b1.subrange(0, 4) =~= s.subrange(0, 4));
    assert(b2.subrange(0, 4) =~= s.subrange(0, 4));
    assert(b1.subrange(0, 4) =~= (if a1 is V4 {
        spec_u32_to_le_bytes(0u32)
    } else {
        spec_u32_to_le_bytes(1u32)
    }));
    assert(b2.subrange(0, 4) =~= (if a2 is V4 {
        spec_u32_to_le_bytes(0u32)
    } else {
        spec_u32_to_le_bytes(1u32)
    }));
    if a1 is V4 != a2 is V4 {
        assert(spec_u32_from_le_bytes(b1.subrange(0, 4)) == spec_u32_from_le_bytes(
            b2.subrange(0, 4),
        ));
        assert(false);
    }
    assert(b1.len() == b2.len());
    assert(b1 =~= b2);
    lemma_addr_bytes_injective(a1, a2);
}

/// Splitting a prefix: when a concatenation begins a sequence, its first
/// part begins the sequence and its second part begins the rest.
pub proof fn lemma_concat_prefix<A>(x: Seq<A>, y: Seq<A>, s: Seq<A>)
    requires
        (x + y).is_prefix_of(s),
    ensures
        x.is_prefix_of(s),
        y.is_prefix_of(s.skip(x.len() as int)),
{
    assert(x =~= s.subrange(0, x.len() as int)) by {
        assert forall|i: int| 0 <= i < x.len() implies x[i] == s[i] by {
            assert((x + y)[i] == x[i]);
            assert((x + y) =~= s.subrange(0, (x + y).len() as int));
        }
    }
    assert(y =~= s.skip(x.len() as int).subrange(0, y.len() as int)) by {
        assert forall|i: int| 0 <= i < y.len() implies y[i] == s.skip(x.len() as int)[i] by {
            assert((x + y)[x.len() + i] == y[i]);
            assert((x + y) =~= s.subrange(0, (x + y).len() as int));
            assert(s.skip(x.len() as int)[i] == s[x.len() + i]);
        }
    }
}

/// The encoding of a transaction list: the transactions' canonical
/// encodings, in order.
pub open spec fn spec_tx_list_bytes(l: Seq<Transaction>) -> Seq<u8>
    decreases l.len(),
{
    if l.len() == 0 {
        Seq::empty()
    } else {
        spec_tx_bytes(l[0]) + spec_tx_list_bytes(l.drop_first())
    }
}

/// Appending one transaction appends its encoding.
pub proof fn lemma_tx_list_bytes_snoc(l: Seq<Transaction>, t: Transaction)
    ensures
        spec_tx_list_bytes(l.push(t)) == spec_tx_list_bytes(l) + spec_tx_bytes(t),
    decreases l.len(),
{
    if l.len() == 0 {
        assert(l.push(t)[0] == t);
        assert(l.push(t).drop_first() =~= Seq::<Transaction>::empty());
        assert(spec_tx_list_bytes(Seq::<Transaction>::empty()) == Seq::<u8>::empty());
        assert(spec_tx_list_bytes(l) == Seq::<u8>::empty());
        assert(spec_tx_list_bytes(l.push(t)) =~= spec_tx_list_bytes(l) + spec_tx_bytes(t));
    } else {
        assert(l.push(t)[0] == l[0]);
        assert(l.push(t).drop_first() =~= l.drop_first().push(t));
        lemma_tx_list_bytes_snoc(l.drop_first(), t);
        assert(spec_tx_list_bytes(l.push(t)) =~= spec_tx_list_bytes(l) + spec_tx_bytes(t));
    }
}

/// A transaction list's encoding splits at any index.
pub proof fn lemma_tx_list_bytes_cat(l: Seq<Transaction>, i: int)
    requires
        0 <= i <= l.len(),
    ensures
        spec_tx_list_bytes(l) == spec_tx_list_bytes(l.take(i)) + spec_tx_list_bytes(l.skip(i)),
    decreases i,
{
    if i == 0 {
        assert(l.take(0) =~= Seq::<Transaction>::empty());
        assert(l.skip(0) =~= l);
        assert(spec_tx_list_bytes(l) =~= spec_tx_list_bytes(l.take(0)) + spec_tx_list_bytes(
            l.skip(0),
        ));
    } else {
        assert(l.len() > 0);
        lemma_tx_list_bytes_cat(l.drop_first(), i - 1);
        assert(l.take(i)[0] == l[0]);
        assert(l.take(i).drop_first() =~= l.drop_first().take(i - 1));
        assert(l.skip(i) =~= l.drop_first().skip(i - 1));
        assert(spec_tx_list_bytes(l) =~= spec_tx_list_bytes(l.take(i)) + spec_tx_list_bytes(
            l.skip(i),
        ));
    }
}

/// The encoding of an address list: the addresses' encodings, in order.
pub open spec fn spec_addr_list_bytes(l: Seq<PeerAddr>) -> Seq<u8>
    decreases l.len(),
{
    if l.len() == 0 {
        Seq::empty()
    } else {
        spec_addr_bytes(l[0]) + spec_addr_list_bytes(l.drop_first())
    }
}

/// Appending one address appends its encoding.
pub proof fn lemma_addr_list_bytes_snoc(l: Seq<PeerAddr>, addr: PeerAddr)
    ensures
        spec_addr_list_bytes(l.push(addr)) == spec_addr_list_bytes(l) + spec_addr_bytes(addr),
    decreases l.len(),
{
    if l.len() == 0 {
        assert(l.push(addr)[0] == addr);
        assert(l.push(addr).drop_first() =~= Seq::<PeerAddr>::empty());
        assert(spec_addr_list_bytes(Seq::<PeerAddr>::empty()) == Seq::<u8>::empty());
        assert(spec_addr_list_bytes(l) == Seq::<u8>::empty());
        assert(spec_addr_list_bytes(l.push(addr)) =~= spec_addr_list_bytes(l) + spec_addr_bytes(
            addr,
        ));
    } else {
        assert(l.push(addr)[0] == l[0]);
        assert(l.push(addr).drop_first() =~= l.drop_first().push(addr));
        lemma_addr_list_bytes_snoc(l.drop_first(), addr);
        assert(spec_addr_list_bytes(l.push(addr)) =~= spec_addr_list_bytes(l) + spec_addr_bytes(
            addr,
        ));
    }
}

/// An address list's encoding splits at any index.
pub proof fn lemma_addr_list_bytes_cat(l: Seq<PeerAddr>, i: int)
    requires
        0 <= i <= l.len(),
    ensures
        spec_addr_list_bytes(l) == spec_addr_list_bytes(l.take(i)) + spec_addr_list_bytes(
            l.skip(i),
        ),
    decreases i,
{
    if i == 0 {
        assert(l.take(0) =~= Seq::<PeerAddr>::empty());
        assert(l.skip(0) =~= l);
        assert(spec_addr_list_bytes(l) =~= spec_addr_list_bytes(l.take(0)) + spec_addr_list_bytes(
            l.skip(0),
        ));
    } else {
        assert(l.len() > 0);
        lemma_addr_list_bytes_cat(l.drop_first(), i - 1);
        assert(l.take(i)[0] == l[0]);
        assert(l.take(i).drop_first() =~= l.drop_first().take(i - 1));
        assert(l.skip(i) =~= l.drop_first().skip(i - 1));
        assert(spec_addr_list_bytes(l) =~= spec_addr_list_bytes(l.take(i)) + spec_addr_list_bytes(
            l.skip(i),
        ));
    }
}

/// The blockchain protocol: all the possible messages that a full node
/// accepts and sends.
#[derive(PartialEq, Eq, Debug)]
pub enum Message {
    /// A new node joins the network and announces its address.
    /// Recipients maybe respond with [`Message::Addr`].
    Connect(PeerAddr),
    /// Announces known/live node addresses to the network.
    Addr(Vec<PeerAddr>),
    /// Proposes transactions for inclusion into blocks.
    Tx(Transactions),
    /// Announces the mining of a new block.
    NewBlock(Block),
}

/// The mathematical model of a message.
#[verifier::ext_equal]
pub enum MessageV {
    Connect(PeerAddr),
    Addr(Seq<PeerAddr>),
    Tx(Seq<Transaction>),
    NewBlock(BlockV),
}

impl View for Message {
    type V = MessageV;

    open spec fn view(&self) -> MessageV {
        match self {
            Message::Connect(addr) => MessageV::Connect(*addr),
            Message::Addr(l) => MessageV::Addr(l@),
            Message::Tx(txs) => MessageV::Tx(txs@),
            Message::NewBlock(b) => MessageV::NewBlock(b@),
        }
    }
}

impl MessageV {
    /// Whether this model value fits on the wire: every carried list is
    /// short enough for its `u64` length prefix.  Every executable
    /// message satisfies this.
    pub open spec fn wf(self) -> bool {
        match self {
            MessageV::Connect(_) => true,
            MessageV::Addr(l) => l.len() <= u64::MAX,
            MessageV::Tx(l) => l.len() <= u64::MAX,
            MessageV::NewBlock(b) => b.txs.len() <= u64::MAX,
        }
    }
}

/// The canonical encoding of a block: its header's encoding followed by
/// its length-prefixed transaction sequence.
pub open spec fn spec_block_bytes(b: BlockV) -> Seq<u8> {
    spec_header_bytes(b.header) + spec_u64_to_le_bytes(b.txs.len() as u64) + spec_tx_list_bytes(
        b.txs,
    )
}

/// The canonical encoding of a message: a `u32` LE discriminant in
/// declaration order, then the variant payload.
pub open spec fn spec_msg_bytes(m: MessageV) -> Seq<u8> {
    match m {
        MessageV::Connect(addr) => spec_u32_to_le_bytes(0u32) + spec_addr_bytes(addr),
        MessageV::Addr(l) => spec_u32_to_le_bytes(1u32) + spec_u64_to_le_bytes(l.len() as u64)
            + spec_addr_list_bytes(l),
        MessageV::Tx(l) => spec_u32_to_le_bytes(2u32) + spec_u64_to_le_bytes(l.len() as u64)
            + spec_tx_list_bytes(l),
        MessageV::NewBlock(b) => spec_u32_to_le_bytes(3u32) + spec_block_bytes(b),
    }
}

/// Append the little-endian encoding of a `u32` to `out`.
fn push_u32_le(x: u32, out: &mut Vec<u8>)
    ensures
        final(out)@ == old(out)@ + spec_u32_to_le_bytes(x),
{
    let mut tmp = u32_to_le_bytes(x);
    out.append(&mut tmp);
}

/// Append the little-endian encoding of a `u64` to `out`.
fn push_u64_le(x: u64, out: &mut Vec<u8>)
    ensures
        final(out)@ == old(out)@ + spec_u64_to_le_bytes(x),
{
    let mut tmp = u64_to_le_bytes(x);
    out.append(&mut tmp);
}

/// Append the canonical encoding of `addr` to `out`.
pub fn encode_addr(addr: &PeerAddr, out: &mut Vec<u8>)
    ensures
        final(out)@ == old(out)@ + spec_addr_bytes(*addr),
{
    match addr {
        PeerAddr::V4 { o0, o1, o2, o3, port } => {
            push_u32_le(0, out);
            out.push(*o0);
            out.push(*o1);
            out.push(*o2);
            out.push(*o3);
            let mut tmp = u16_to_le_bytes(*port);
            out.append(&mut tmp);
            assert(out@ =~= old(out)@ + spec_addr_bytes(*addr));
        },
        PeerAddr::V6 { hi, lo, port } => {
            push_u32_le(1, out);
            push_u64_le(*hi, out);
            push_u64_le(*lo, out);
            let mut tmp = u16_to_le_bytes(*port);
            out.append(&mut tmp);
            assert(out@ =~= old(out)@ + spec_addr_bytes(*addr));
        },
    }
}

/// Append the encodings of all addresses in `l` to `out`, in order.
fn encode_addr_list(l: &Vec<PeerAddr>, out: &mut Vec<u8>)
    ensures
        final(out)@ == old(out)@ + spec_addr_list_bytes(l@),
{
    let mut i: usize = 0;
    while i < l.len()
        invariant
            i <= l@.len(),
            out@ == old(out)@ + spec_addr_list_bytes(l@.take(i as int)),
        decreases l@.len() - i,
    {
        let ghost prev = l@.take(i as int);
        encode_addr(&l[i], out);
        proof {
            lemma_addr_list_bytes_snoc(prev, l@[i as int]);
            assert(l@.take(i + 1) =~= prev.push(l@[i as int]));
        }
        i += 1;
    }
    proof {
        assert(l@.take(l@.len() as int) =~= l@);
    }
}

/// Append the encodings of all transactions in `l` to `out`, in order.
fn encode_tx_list(l: &Vec<Transaction>, out: &mut Vec<u8>)
    ensures
        final(out)@ == old(out)@ + spec_tx_list_bytes(l@),
{
    let mut i: usize = 0;
    while i < l.len()
        invariant
            i <= l@.len(),
            out@ == old(out)@ + spec_tx_list_bytes(l@.take(i as int)),
        decreases l@.len() - i,
    {
        let ghost prev = l@.take(i as int);
        encode_tx(&l[i], out);
        proof {
            lemma_tx_list_bytes_snoc(prev, l@[i as int]);
            assert(l@.take(i + 1) =~= prev.push(l@[i as int]));
        }
        i += 1;
    }
    proof {
        assert(l@.take(l@.len() as int) =~= l@);
    }
}

impl Message {
    /// Encode this message into its canonical wire bytes.
    pub fn encode(&self) -> (out: Vec<u8>)
        ensures
            out@ == spec_msg_bytes(self@),
            self@.wf(),
    {
        let mut out: Vec<u8> = Vec::new();
        match self {
            Message::Connect(addr) => {
                push_u32_le(0, &mut out);
                encode_addr(addr, &mut out);
                assert(out@ =~= spec_msg_bytes(self@));
            },
            Message::Addr(l) => {
                push_u32_le(1, &mut out);
                push_u64_le(l.len() as u64, &mut out);
                encode_addr_list(l, &mut out);
                assert(out@ =~= spec_msg_bytes(self@));
            },
            Message::Tx(txs) => {
                push_u32_le(2, &mut out);
                push_u64_le(txs.0.len() as u64, &mut out);
                encode_tx_list(&txs.0, &mut out);
                assert(out@ =~= spec_msg_bytes(self@));
            },
            Message::NewBlock(b) => {
                push_u32_le(3, &mut out);
                encode_header(&b.header, &mut out);
                push_u64_le(b.transactions.0.len() as u64, &mut out);
                encode_tx_list(&b.transactions.0, &mut out);
                assert(out@ =~= spec_msg_bytes(self@));
            },
        }
        out
    }
}

/// Read a little-endian `u32` at `pos`.
fn read_u32_le(bytes: &[u8], pos: usize) -> (x: u32)
    requires
        pos + 4 <= bytes@.len(),
    ensures
        x == spec_u32_from_le_bytes(bytes@.subrange(pos as int, pos as int + 4)),
{
    proof {
        assert(vstd::slice::spec_slice_len(bytes) == bytes@.len());
    }
    u32_from_le_bytes(slice_subrange(bytes, pos, pos + 4))
}

/// Read a little-endian `u16` at `pos`.
fn read_u16_le(bytes: &[u8], pos: usize) -> (x: u16)
    requires
        pos + 2 <= bytes@.len(),
    ensures
        x == spec_u16_from_le_bytes(bytes@.subrange(pos as int, pos as int + 2)),
{
    proof {
        assert(vstd::slice::spec_slice_len(bytes) == bytes@.len());
    }
    u16_from_le_bytes(slice_subrange(bytes, pos, pos + 2))
}

/// Read a little-endian `u64` at `pos`.
fn read_u64_le(bytes: &[u8], pos: usize) -> (x: u64)
    requires
        pos + 8 <= bytes@.len(),
    ensures
        x == spec_u64_from_le_bytes(bytes@.subrange(pos as int, pos as int + 8)),
{
    proof {
        assert(vstd::slice::spec_slice_len(bytes) == bytes@.len());
    }
    u64_from_le_bytes(slice_subrange(bytes, pos, pos + 8))
}

/// An address encoding that begins `s` announces its variant in the
/// first four bytes, and `s` is at least as long as that encoding.
proof fn lemma_addr_prefix_shape(a2: PeerAddr, s: Seq<u8>)
    requires
        spec_addr_bytes(a2).is_prefix_of(s),
    ensures
        s.len() >= (if a2 is V4 {
            10int
        } else {
            22int
        }),
        s.subrange(0, 4) == spec_u32_to_le_bytes(
            if a2 is V4 {
                0u32
            } else {
                1u32
            },
        ),
{
    lemma_auto_spec_u16_to_from_le_bytes();
    lemma_auto_spec_u32_to_from_le_bytes();
    lemma_auto_spec_u64_to_from_le_bytes();
    lemma_addr_bytes_len(a2);
    let b = spec_addr_bytes(a2);
    assert(b =~= s.subrange(0, b.len() as int));
    assert(b.subrange(0, 4) =~= (if a2 is V4 {
        spec_u32_to_le_bytes(0u32)
    } else {
        spec_u32_to_le_bytes(1u32)
    }));
    assert(s.subrange(0, 4) =~= b.subrange(0, 4));
}

/// Parse one peer address at `pos`.  On success the returned end offset
/// delimits exactly the address's canonical encoding, and no other
/// address's encoding begins at `pos`; on failure no address's encoding
/// begins at `pos`.
fn parse_addr(bytes: &[u8], pos: usize) -> (r: Option<(PeerAddr, usize)>)
    requires
        pos <= bytes@.len(),
    ensures
        match r {
            Some(p) => {
                &&& pos <= p.1 <= bytes@.len()
                &&& bytes@.subrange(pos as int, p.1 as int) == spec_addr_bytes(p.0)
                &&& forall|a2: PeerAddr|
                    spec_addr_bytes(a2).is_prefix_of(bytes@.skip(pos as int)) ==> a2 == p.0
            },
            None => forall|a2: PeerAddr|
                !spec_addr_bytes(a2).is_prefix_of(bytes@.skip(pos as int)),
        },
{
    let n = bytes.len();
    let ghost tail = bytes@.skip(pos as int);
    if n - pos < 4 {
        proof {
            assert forall|a2: PeerAddr| !spec_addr_bytes(a2).is_prefix_of(tail) by {
                if spec_addr_bytes(a2).is_prefix_of(tail) {
                    lemma_addr_prefix_shape(a2, tail);
                }
            }
        }
        return None;
    }
    let disc = read_u32_le(bytes, pos);
    proof {
        lemma_auto_spec_u32_to_from_le_bytes();
        assert(tail.subrange(0, 4) =~= bytes@.subrange(pos as int, pos as int + 4));
    }
    if disc == 0 {
        if n - pos < 10 {
            proof {
                assert forall|a2: PeerAddr| !spec_addr_bytes(a2).is_prefix_of(tail) by {
                    if spec_addr_bytes(a2).is_prefix_of(tail) {
                        lemma_addr_prefix_shape(a2, tail);
                        assert(a2 is V6);
                        assert(spec_u32_from_le_bytes(tail.subrange(0, 4)) == 1u32);
                        assert(false);
                    }
                }
            }
            return None;
        }
        let o0 = bytes[pos + 4];
        let o1 = bytes[pos + 5];
        let o2 = bytes[pos + 6];
        let o3 = bytes[pos + 7];
        let port = read_u16_le(bytes, pos + 8);
        let addr = PeerAddr::V4 { o0, o1, o2, o3, port };
        proof {
            lemma_auto_spec_u16_to_from_le_bytes();
            lemma_addr_bytes_len(addr);
            assert(bytes@.subrange(pos as int, pos as int + 4) =~= spec_u32_to_le_bytes(0u32));
            assert(bytes@.subrange(pos + 8, pos + 10) =~= spec_u16_to_le_bytes(port));
            assert(bytes@.subrange(pos as int, pos as int + 10) =~= spec_addr_bytes(addr));
            assert(spec_addr_bytes(addr).is_prefix_of(tail)) by {
                assert(spec_addr_bytes(addr) =~= tail.subrange(0, 10));
            }
            assert forall|a2: PeerAddr|
                spec_addr_bytes(a2).is_prefix_of(tail) implies a2 == addr by {
                lemma_addr_prefix_unique(addr, a2, tail);
            }
        }
        Some((addr, pos + 10))
    } else if disc == 1 {
        if n - pos < 22 {
            proof {
                assert forall|a2: PeerAddr| !spec_addr_bytes(a2).is_prefix_of(tail) by {
                    if spec_addr_bytes(a2).is_prefix_of(tail) {
                        lemma_addr_prefix_shape(a2, tail);
                        assert(a2 is V4);
                        assert(spec_u32_from_le_bytes(tail.subrange(0, 4)) == 0u32);
                        assert(false);
                    }
                }
            }
            return None;
        }
        let hi = read_u64_le(bytes, pos + 4);
        let lo = read_u64_le(bytes, pos + 12);
        let port = read_u16_le(bytes, pos + 20);
        let addr = PeerAddr::V6 { hi, lo, port };
        proof {
            lemma_auto_spec_u16_to_from_le_bytes();
            lemma_auto_spec_u64_to_from_le_bytes();
            lemma_addr_bytes_len(addr);
            assert(bytes@.subrange(pos as int, pos as int + 4) =~= spec_u32_to_le_bytes(1u32));
            assert(bytes@.subrange(pos + 4, pos + 12) =~= spec_u64_to_le_bytes(hi));
            assert(bytes@.subrange(pos + 12, pos + 20) =~= spec_u64_to_le_bytes(lo));
            assert(bytes@.subrange(pos + 20, pos + 22) =~= spec_u16_to_le_bytes(port));
            assert(bytes@.subrange(pos as int, pos as int + 22) =~= spec_addr_bytes(addr));
            assert(spec_addr_bytes(addr).is_prefix_of(tail)) by {
                assert(spec_addr_bytes(addr) =~= tail.subrange(0, 22));
            }
            assert forall|a2: PeerAddr|
                spec_addr_bytes(a2).is_prefix_of(tail) implies a2 == addr by {
                lemma_addr_prefix_unique(addr, a2, tail);
            }
        }
        Some((addr, pos + 22))
    } else {
        proof {
            assert forall|a2: PeerAddr| !spec_addr_bytes(a2).is_prefix_of(tail) by {
                if spec_addr_bytes(a2).is_prefix_of(tail) {
                    lemma_addr_prefix_shape(a2, tail);
                    assert(spec_u32_from_le_bytes(tail.subrange(0, 4)) == disc);
                    assert(false);
                }
            }
        }
        None
    }
}

/// Parse one transaction at `pos`: exactly 76 bytes, uniquely
/// determined.
fn parse_tx(bytes: &[u8], pos: usize) -> (r: Option<(Transaction, usize)>)
    requires
        pos <= bytes@.len(),
    ensures
        match r {
            Some(p) => {
                &&& pos <= p.1 <= bytes@.len()
                &&& bytes@.subrange(pos as int, p.1 as int) == spec_tx_bytes(p.0)
                &&& forall|t2: Transaction|
                    spec_tx_bytes(t2).is_prefix_of(bytes@.skip(pos as int)) ==> t2 == p.0
            },
            None => forall|t2: Transaction|
                !spec_tx_bytes(t2).is_prefix_of(bytes@.skip(pos as int)),
        },
{
    let n = bytes.len();
    let ghost tail = bytes@.skip(pos as int);
    if n - pos < 76 {
        proof {
            assert forall|t2: Transaction| !spec_tx_bytes(t2).is_prefix_of(tail) by {
                lemma_tx_bytes_len(t2);
            }
        }
        return None;
    }
    let spender = digest_from_bytes(slice_subrange(bytes, pos, pos + 32));
    let receiver = digest_from_bytes(slice_subrange(bytes, pos + 32, pos + 64));
    let amount = read_u32_le(bytes, pos + 64);
    let timestamp = read_u64_le(bytes, pos + 68);
    let t = Transaction { spender, receiver, amount, timestamp };
    proof {
        lemma_auto_spec_u32_to_from_le_bytes();
        lemma_auto_spec_u64_to_from_le_bytes();
        assert(bytes@.subrange(pos + 64, pos + 68) =~= spec_u32_to_le_bytes(amount));
        assert(bytes@.subrange(pos + 68, pos + 76) =~= spec_u64_to_le_bytes(timestamp));
        assert(bytes@.subrange(pos as int, pos as int + 76) =~= spec_tx_bytes(t));
        lemma_tx_bytes_len(t);
        assert forall|t2: Transaction| spec_tx_bytes(t2).is_prefix_of(tail) implies t2 == t by {
            lemma_tx_bytes_len(t2);
            assert(spec_tx_bytes(t2) =~= tail.subrange(0, 76));
            assert(spec_tx_bytes(t) =~= tail.subrange(0, 76));
            lemma_tx_bytes_injective(t2, t);
        }
    }
    Some((t, pos + 76))
}

/// Parse one block header at `pos`: exactly 72 bytes, uniquely
/// determined.
fn parse_header(bytes: &[u8], pos: usize) -> (r: Option<(BlockHeader, usize)>)
    requires
        pos <= bytes@.len(),
    ensures
        match r {
            Some(p) => {
                &&& pos <= p.1 <= bytes@.len()
                &&& bytes@.subrange(pos as int, p.1 as int) == spec_header_bytes(p.0)
                &&& forall|h2: BlockHeader|
                    spec_header_bytes(h2).is_prefix_of(bytes@.skip(pos as int)) ==> h2 == p.0
            },
            None => forall|h2: BlockHeader|
                !spec_header_bytes(h2).is_prefix_of(bytes@.skip(pos as int)),
        },
{
    let n = bytes.len();
    let ghost tail = bytes@.skip(pos as int);
    if n - pos < 72 {
        proof {
            assert forall|h2: BlockHeader| !spec_header_bytes(h2).is_prefix_of(tail) by {
                lemma_header_bytes_len(h2);
            }
        }
        return None;
    }
    let prev_block_hash = digest_from_bytes(slice_subrange(bytes, pos, pos + 32));
    let merkle_hash = digest_from_bytes(slice_subrange(bytes, pos + 32, pos + 64));
    let difficulty = read_u32_le(bytes, pos + 64);
    let nonce = read_u32_le(bytes, pos + 68);
    let h = BlockHeader { prev_block_hash, merkle_hash, difficulty, nonce };
    proof {
        lemma_auto_spec_u32_to_from_le_bytes();
        assert(bytes@.subrange(pos + 64, pos + 68) =~= spec_u32_to_le_bytes(difficulty));
        assert(bytes@.subrange(pos + 68, pos + 72) =~= spec_u32_to_le_bytes(nonce));
        assert(bytes@.subrange(pos as int, pos as int + 72) =~= spec_header_bytes(h));
        lemma_header_bytes_len(h);
        assert forall|h2: BlockHeader|
            spec_header_bytes(h2).is_prefix_of(tail) implies h2 == h by {
            lemma_header_bytes_len(h2);
            assert(spec_header_bytes(h2) =~= tail.subrange(0, 72));
            assert(spec_header_bytes(h) =~= tail.subrange(0, 72));
            lemma_header_bytes_injective(h2, h);
        }
    }
    Some((h, pos + 72))
}

/// Parse exactly `count` transactions starting at `pos`.  On success the
/// parsed list is the only transaction list of that length whose
/// encoding begins at `pos`; on failure there is none.
fn parse_tx_list(bytes: &[u8], pos: usize, count: u64) -> (r: Option<(Vec<Transaction>, usize)>)
    requires
        pos <= bytes@.len(),
    ensures
        match r {
            Some(p) => {
                &&& pos <= p.1 <= bytes@.len()
                &&& p.0@.len() == count
                &&& bytes@.subrange(pos as int, p.1 as int) == spec_tx_list_bytes(p.0@)
                &&& forall|l2: Seq<Transaction>|
                    l2.len() == count && spec_tx_list_bytes(l2).is_prefix_of(
                        bytes@.skip(pos as int),
                    ) ==> l2 == p.0@
            },
            None => forall|l2: Seq<Transaction>|
                l2.len() == count ==> !spec_tx_list_bytes(l2).is_prefix_of(
                    bytes@.skip(pos as int),
                ),
        },
{
    let ghost tail = bytes@.skip(pos as int);
    let mut v: Vec<Transaction> = Vec::new();
    let mut cur: usize = pos;
    let mut i: u64 = 0;
    while i < count
        invariant
            i <= count,
            v@.len() == i,
            pos <= cur <= bytes@.len(),
            tail == bytes@.skip(pos as int),
            bytes@.subrange(pos as int, cur as int) == spec_tx_list_bytes(v@),
            forall|l2: Seq<Transaction>|
                l2.len() == count && spec_tx_list_bytes(l2).is_prefix_of(tail) ==> l2.take(
                    i as int,
                ) == v@,
        decreases count - i,
    {
        let ghost prev = v@;
        match parse_tx(bytes, cur) {
            Some((t, end)) => {
                proof {
                    lemma_tx_list_bytes_snoc(prev, t);
                    assert(bytes@.subrange(pos as int, end as int) =~= bytes@.subrange(
                        pos as int,
                        cur as int,
                    ) + bytes@.subrange(cur as int, end as int));
                    assert forall|l2: Seq<Transaction>|
                        l2.len() == count && spec_tx_list_bytes(l2).is_prefix_of(
                            tail,
                        ) implies l2.take(i + 1) == prev.push(t) by {
                        assert(l2.take(i as int) == prev);
                        lemma_tx_list_bytes_cat(l2, i as int);
                        lemma_concat_prefix(
                            spec_tx_list_bytes(l2.take(i as int)),
                            spec_tx_list_bytes(l2.skip(i as int)),
                            tail,
                        );
                        assert(spec_tx_list_bytes(l2.take(i as int)).len() == cur - pos);
                        assert(tail.skip(cur - pos) =~= bytes@.skip(cur as int));
                        assert(spec_tx_list_bytes(l2.skip(i as int)).is_prefix_of(
                            bytes@.skip(cur as int),
                        ));
                        // the rest of l2 starts with l2[i]
                        assert(l2.skip(i as int).len() > 0);
                        assert(l2.skip(i as int)[0] == l2[i as int]);
                        assert(l2.skip(i as int).drop_first() =~= l2.skip(i + 1));
                        assert(spec_tx_list_bytes(l2.skip(i as int)) == spec_tx_bytes(l2[i as int])
                            + spec_tx_list_bytes(l2.skip(i + 1)));
                        lemma_concat_prefix(
                            spec_tx_bytes(l2[i as int]),
                            spec_tx_list_bytes(l2.skip(i + 1)),
                            bytes@.skip(cur as int),
                        );
                        assert(l2[i as int] == t);
                        assert(l2.take(i + 1) =~= l2.take(i as int).push(l2[i as int]));
                    }
                }
                v.push(t);
                cur = end;
                i += 1;
            },
            None => {
                proof {
                    assert forall|l2: Seq<Transaction>|
                        l2.len() == count implies !spec_tx_list_bytes(l2).is_prefix_of(tail) by {
                        if spec_tx_list_bytes(l2).is_prefix_of(tail) {
                            assert(l2.take(i as int) == v@);
                            lemma_tx_list_bytes_cat(l2, i as int);
                            lemma_concat_prefix(
                                spec_tx_list_bytes(l2.take(i as int)),
                                spec_tx_list_bytes(l2.skip(i as int)),
                                tail,
                            );
                            assert(spec_tx_list_bytes(l2.take(i as int)).len() == cur - pos);
                            assert(tail.skip(cur - pos) =~= bytes@.skip(cur as int));
                            assert(l2.skip(i as int).len() > 0);
                            assert(l2.skip(i as int)[0] == l2[i as int]);
                            assert(l2.skip(i as int).drop_first() =~= l2.skip(i + 1));
                            assert(spec_tx_list_bytes(l2.skip(i as int)) == spec_tx_bytes(
                                l2[i as int],
                            ) + spec_tx_list_bytes(l2.skip(i + 1)));
                            lemma_concat_prefix(
                                spec_tx_bytes(l2[i as int]),
                                spec_tx_list_bytes(l2.skip(i + 1)),
                                bytes@.skip(cur as int),
                            );
                            assert(false);
                        }
                    }
                }
                return None;
            },
        }
    }
    proof {
        assert forall|l2: Seq<Transaction>|
            l2.len() == count && spec_tx_list_bytes(l2).is_prefix_of(tail) implies l2 == v@ by {
            assert(l2.take(count as int) == v@);
            assert(l2.take(count as int) =~= l2);
        }
    }
    Some((v, cur))
}

/// Parse exactly `count` peer addresses starting at `pos`.
fn parse_addr_list(bytes: &[u8], pos: usize, count: u64) -> (r: Option<(Vec<PeerAddr>, usize)>)
    requires
        pos <= bytes@.len(),
    ensures
        match r {
            Some(p) => {
                &&& pos <= p.1 <= bytes@.len()
                &&& p.0@.len() == count
                &&& bytes@.subrange(pos as int, p.1 as int) == spec_addr_list_bytes(p.0@)
                &&& forall|l2: Seq<PeerAddr>|
                    l2.len() == count && spec_addr_list_bytes(l2).is_prefix_of(
                        bytes@.skip(pos as int),
                    ) ==> l2 == p.0@
            },
            None => forall|l2: Seq<PeerAddr>|
                l2.len() == count ==> !spec_addr_list_bytes(l2).is_prefix_of(
                    bytes@.skip(pos as int),
                ),
        },
{
    let ghost tail = bytes@.skip(pos as int);
    let mut v: Vec<PeerAddr> = Vec::new();
    let mut cur: usize = pos;
    let mut i: u64 = 0;
    while i < count
        invariant
            i <= count,
            v@.len() == i,
            pos <= cur <= bytes@.len(),
            tail == bytes@.skip(pos as int),
            bytes@.subrange(pos as int, cur as int) == spec_addr_list_bytes(v@),
            forall|l2: Seq<PeerAddr>|
                l2.len() == count && spec_addr_list_bytes(l2).is_prefix_of(tail) ==> l2.take(
                    i as int,
                ) == v@,
        decreases count - i,
    {
        let ghost prev = v@;
        match parse_addr(bytes, cur) {
            Some((addr, end)) => {
                proof {
                    lemma_addr_list_bytes_snoc(prev, addr);
                    assert(bytes@.subrange(pos as int, end as int) =~= bytes@.subrange(
                        pos as int,
                        cur as int,
                    ) + bytes@.subrange(cur as int, end as int));
                    assert forall|l2: Seq<PeerAddr>|
                        l2.len() == count && spec_addr_list_bytes(l2).is_prefix_of(
                            tail,
                        ) implies l2.take(i + 1) == prev.push(addr) by {
                        assert(l2.take(i as int) == prev);
                        lemma_addr_list_bytes_cat(l2, i as int);
                        lemma_concat_prefix(
                            spec_addr_list_bytes(l2.take(i as int)),
                            spec_addr_list_bytes(l2.skip(i as int)),
                            tail,
                        );
                        assert(spec_addr_list_bytes(l2.take(i as int)).len() == cur - pos);
                        assert(tail.skip(cur - pos) =~= bytes@.skip(cur as int));
                        assert(l2.skip(i as int).len() > 0);
                        assert(l2.skip(i as int)[0] == l2[i as int]);
                        assert(l2.skip(i as int).drop_first() =~= l2.skip(i + 1));
                        assert(spec_addr_list_bytes(l2.skip(i as int)) == spec_addr_bytes(
                            l2[i as int],
                        ) + spec_addr_list_bytes(l2.skip(i + 1)));
                        lemma_concat_prefix(
                            spec_addr_bytes(l2[i as int]),
                            spec_addr_list_bytes(l2.skip(i + 1)),
                            bytes@.skip(cur as int),
                        );
                        assert(l2[i as int] == addr);
                        assert(l2.take(i + 1) =~= l2.take(i as int).push(l2[i as int]));
                    }
                }
                v.push(addr);
                cur = end;
                i += 1;
            },
            None => {
                proof {
                    assert forall|l2: Seq<PeerAddr>|
                        l2.len() == count implies !spec_addr_list_bytes(l2).is_prefix_of(tail) by {
                        if spec_addr_list_bytes(l2).is_prefix_of(tail) {
                            assert(l2.take(i as int) == v@);
                            lemma_addr_list_bytes_cat(l2, i as int);
                            lemma_concat_prefix(
                                spec_addr_list_bytes(l2.take(i as int)),
                                spec_addr_list_bytes(l2.skip(i as int)),
                                tail,
                            );
                            assert(spec_addr_list_bytes(l2.take(i as int)).len() == cur - pos);
                            assert(tail.skip(cur - pos) =~= bytes@.skip(cur as int));
                            assert(l2.skip(i as int).len() > 0);
                            assert(l2.skip(i as int)[0] == l2[i as int]);
                            assert(l2.skip(i as int).drop_first() =~= l2.skip(i + 1));
                            assert(spec_addr_list_bytes(l2.skip(i as int)) == spec_addr_bytes(
                                l2[i as int],
                            ) + spec_addr_list_bytes(l2.skip(i + 1)));
                            lemma_concat_prefix(
                                spec_addr_bytes(l2[i as int]),
                                spec_addr_list_bytes(l2.skip(i + 1)),
                                bytes@.skip(cur as int),
                            );
                            assert(false);
                        }
                    }
                }
                return None;
            },
        }
    }
    proof {
        assert forall|l2: Seq<PeerAddr>|
            l2.len() == count && spec_addr_list_bytes(l2).is_prefix_of(tail) implies l2 == v@ by {
            assert(l2.take(count as int) == v@);
            assert(l2.take(count as int) =~= l2);
        }
    }
    Some((v, cur))
}

/// The wire discriminant of a message variant, in declaration order.
pub open spec fn spec_msg_tag(m: MessageV) -> u32 {
    match m {
        MessageV::Connect(_) => 0u32,
        MessageV::Addr(_) => 1u32,
        MessageV::Tx(_) => 2u32,
        MessageV::NewBlock(_) => 3u32,
    }
}

/// A message encoding announces its variant in its first four bytes.
proof fn lemma_msg_bytes_shape(mv: MessageV)
    ensures
        spec_msg_bytes(mv).len() >= 4,
        spec_msg_bytes(mv).subrange(0, 4) == spec_u32_to_le_bytes(spec_msg_tag(mv)),
{
    lemma_auto_spec_u32_to_from_le_bytes();
    lemma_auto_spec_u64_to_from_le_bytes();
    let b = spec_msg_bytes(mv);
    match mv {
        MessageV::Connect(addr) => {
            lemma_addr_bytes_len(addr);
            assert(b.subrange(0, 4) =~= spec_u32_to_le_bytes(0u32));
        },
        MessageV::Addr(l) => {
            assert(b.subrange(0, 4) =~= spec_u32_to_le_bytes(1u32));
        },
        MessageV::Tx(l) => {
            assert(b.subrange(0, 4) =~= spec_u32_to_le_bytes(2u32));
        },
        MessageV::NewBlock(bv) => {
            assert(b.subrange(0, 4) =~= spec_u32_to_le_bytes(3u32));
        },
    }
}

impl Message {
    /// Decode a message from its canonical wire bytes.
    ///
    /// Exactly the canonical encodings decode: a successful decode
    /// returns the one message that encodes to the given bytes, so
    /// decoding inverts [`Message::encode`]; any other input is
    /// rejected.
    pub fn decode(bytes: &[u8]) -> (r: Option<Message>)
        ensures
            r matches Some(m) ==> m@.wf() && spec_msg_bytes(m@) == bytes@,
            forall|mv: MessageV|
                mv.wf() && spec_msg_bytes(mv) == bytes@ ==> (r matches Some(m) && m@ == mv),
    {
        let n = bytes.len();
        let ghost w = bytes@;
        if n < 4 {
            proof {
                assert forall|mv: MessageV|
                    mv.wf() && spec_msg_bytes(mv) == w implies false by {
                    lemma_msg_bytes_shape(mv);
                }
            }
            return None;
        }
        let disc = read_u32_le(bytes, 0);
        proof {
            lemma_auto_spec_u32_to_from_le_bytes();
            lemma_auto_spec_u64_to_from_le_bytes();
            assert forall|mv: MessageV|
                mv.wf() && spec_msg_bytes(mv) == w implies spec_msg_tag(mv) == disc by {
                lemma_msg_bytes_shape(mv);
            }
        }
        if disc == 0 {
            match parse_addr(bytes, 4) {
                Some((addr, end)) => {
                    if end == n {
                        let m = Message::Connect(addr);
                        proof {
                            assert(w.subrange(0, 4) =~= spec_u32_to_le_bytes(0u32));
                            assert(w.subrange(4, n as int) == spec_addr_bytes(addr));
                            assert(w =~= spec_u32_to_le_bytes(0u32) + spec_addr_bytes(addr));
                            assert forall|mv: MessageV|
                                mv.wf() && spec_msg_bytes(mv) == w implies mv == m@ by {
                                match mv {
                                    MessageV::Connect(a2) => {
                                        assert(spec_msg_bytes(mv).is_prefix_of(w));
                                        lemma_concat_prefix(
                                            spec_u32_to_le_bytes(0u32),
                                            spec_addr_bytes(a2),
                                            w,
                                        );
                                        assert(spec_addr_bytes(a2).is_prefix_of(w.skip(4)));
                                        assert(a2 == addr);
                                    },
                                    _ => {
                                        assert(false);
                                    },
                                }
                            }
                        }
                        Some(m)
                    } else {
                        proof {
                            assert forall|mv: MessageV|
                                mv.wf() && spec_msg_bytes(mv) == w implies false by {
                                match mv {
                                    MessageV::Connect(a2) => {
                                        assert(spec_msg_bytes(mv).is_prefix_of(w));
                                        lemma_concat_prefix(
                                            spec_u32_to_le_bytes(0u32),
                                            spec_addr_bytes(a2),
                                            w,
                                        );
                                        assert(spec_addr_bytes(a2).is_prefix_of(w.skip(4)));
                                        assert(a2 == addr);
                                        lemma_auto_spec_u32_to_from_le_bytes();
                                        assert(spec_msg_bytes(mv).len() == 4 + (end - 4));
                                        assert(false);
                                    },
                                    _ => {
                                        assert(false);
                                    },
                                }
                            }
                        }
                        None
                    }
                },
                None => {
                    proof {
                        assert forall|mv: MessageV|
                            mv.wf() && spec_msg_bytes(mv) == w implies false by {
                            match mv {
                                MessageV::Connect(a2) => {
                                    assert(spec_msg_bytes(mv).is_prefix_of(w));
                                    lemma_concat_prefix(
                                        spec_u32_to_le_bytes(0u32),
                                        spec_addr_bytes(a2),
                                        w,
                                    );
                                    assert(spec_addr_bytes(a2).is_prefix_of(w.skip(4)));
                                },
                                _ => {
                                    assert(false);
                                },
                            }
                        }
                    }
                    None
                },
            }
        } else if disc == 1 {
            if n - 4 < 8 {
                proof {
                    assert forall|mv: MessageV|
                        mv.wf() && spec_msg_bytes(mv) == w implies false by {
                        match mv {
                            MessageV::Addr(l2) => {},
                            _ => {
                                assert(false);
                            },
                        }
                    }
                }
                return None;
            }
            let count = read_u64_le(bytes, 4);
            proof {
                assert forall|mv: MessageV|
                    mv.wf() && spec_msg_bytes(mv) == w implies (mv matches MessageV::Addr(l2)
                        && l2.len() == count && spec_addr_list_bytes(l2).is_prefix_of(
                        w.skip(12),
                    )) by {
                    match mv {
                        MessageV::Addr(l2) => {
                            assert(spec_msg_bytes(mv).is_prefix_of(w));
                            lemma_concat_prefix(
                                spec_u32_to_le_bytes(1u32),
                                spec_u64_to_le_bytes(l2.len() as u64) + spec_addr_list_bytes(l2),
                                w,
                            );
                            lemma_concat_prefix(
                                spec_u64_to_le_bytes(l2.len() as u64),
                                spec_addr_list_bytes(l2),
                                w.skip(4),
                            );
                            assert(spec_u64_to_le_bytes(l2.len() as u64) =~= w.skip(4).subrange(
                                0,
                                8,
                            ));
                            assert(w.skip(4).subrange(0, 8) =~= w.subrange(4, 12));
                            assert(spec_u64_from_le_bytes(w.subrange(4, 12)) == count);
                            assert(l2.len() as u64 == count);
                            assert(w.skip(4).skip(8) =~= w.skip(12));
                        },
                        _ => {
                            assert(false);
                        },
                    }
                }
            }
            match parse_addr_list(bytes, 12, count) {
                Some((v, end)) => {
                    if end == n {
                        let m = Message::Addr(v);
                        proof {
                            assert(w.subrange(0, 4) =~= spec_u32_to_le_bytes(1u32));
                            assert(w.subrange(4, 12) =~= spec_u64_to_le_bytes(count));
                            assert(w.subrange(12, n as int) == spec_addr_list_bytes(v@));
                            assert(v@.len() as u64 == count);
                            assert(w =~= spec_u32_to_le_bytes(1u32) + spec_u64_to_le_bytes(
                                v@.len() as u64,
                            ) + spec_addr_list_bytes(v@));
                            assert forall|mv: MessageV|
                                mv.wf() && spec_msg_bytes(mv) == w implies mv == m@ by {
                                match mv {
                                    MessageV::Addr(l2) => {
                                        assert(l2 == v@);
                                        assert(mv =~= m@);
                                    },
                                    _ => {
                                        assert(false);
                                    },
                                }
                            }
                        }
                        Some(m)
                    } else {
                        proof {
                            assert forall|mv: MessageV|
                                mv.wf() && spec_msg_bytes(mv) == w implies false by {
                                match mv {
                                    MessageV::Addr(l2) => {
                                        assert(l2 == v@);
                                        assert(spec_msg_bytes(mv).len() == 12 + (end - 12));
                                        assert(false);
                                    },
                                    _ => {
                                        assert(false);
                                    },
                                }
                            }
                        }
                        None
                    }
                },
                None => {
                    proof {
                        assert forall|mv: MessageV|
                            mv.wf() && spec_msg_bytes(mv) == w implies false by {}
                    }
                    None
                },
            }
        } else if disc == 2 {
            if n - 4 < 8 {
                proof {
                    assert forall|mv: MessageV|
                        mv.wf() && spec_msg_bytes(mv) == w implies false by {
                        match mv {
                            MessageV::Tx(l2) => {},
                            _ => {
                                assert(false);
                            },
                        }
                    }
                }
                return None;
            }
            let count = read_u64_le(bytes, 4);
            proof {
                assert forall|mv: MessageV|
                    mv.wf() && spec_msg_bytes(mv) == w implies (mv matches MessageV::Tx(l2)
                        && l2.len() == count && spec_tx_list_bytes(l2).is_prefix_of(
                        w.skip(12),
                    )) by {
                    match mv {
                        MessageV::Tx(l2) => {
                            assert(spec_msg_bytes(mv).is_prefix_of(w));
                            lemma_concat_prefix(
                                spec_u32_to_le_bytes(2u32),
                                spec_u64_to_le_bytes(l2.len() as u64) + spec_tx_list_bytes(l2),
                                w,
                            );
                            lemma_concat_prefix(
                                spec_u64_to_le_bytes(l2.len() as u64),
                                spec_tx_list_bytes(l2),
                                w.skip(4),
                            );
                            assert(spec_u64_to_le_bytes(l2.len() as u64) =~= w.skip(4).subrange(
                                0,
                                8,
                            ));
                            assert(w.skip(4).subrange(0, 8) =~= w.subrange(4, 12));
                            assert(spec_u64_from_le_bytes(w.subrange(4, 12)) == count);
                            assert(l2.len() as u64 == count);
                            assert(w.skip(4).skip(8) =~= w.skip(12));
                        },
                        _ => {
                            assert(false);
                        },
                    }
                }
            }
            match parse_tx_list(bytes, 12, count) {
                Some((v, end)) => {
                    if end == n {
                        let m = Message::Tx(Transactions(v));
                        proof {
                            assert(w.subrange(0, 4) =~= spec_u32_to_le_bytes(2u32));
                            assert(w.subrange(4, 12) =~= spec_u64_to_le_bytes(count));
                            assert(w.subrange(12, n as int) == spec_tx_list_bytes(m@->Tx_0));
                            assert(m@->Tx_0.len() as u64 == count);
                            assert(w =~= spec_u32_to_le_bytes(2u32) + spec_u64_to_le_bytes(
                                m@->Tx_0.len() as u64,
                            ) + spec_tx_list_bytes(m@->Tx_0));
                            assert forall|mv: MessageV|
                                mv.wf() && spec_msg_bytes(mv) == w implies mv == m@ by {
                                match mv {
                                    MessageV::Tx(l2) => {
                                        assert(l2 == m@->Tx_0);
                                        assert(mv =~= m@);
                                    },
                                    _ => {
                                        assert(false);
                                    },
                                }
                            }
                        }
                        Some(m)
                    } else {
                        proof {
                            assert forall|mv: MessageV|
                                mv.wf() && spec_msg_bytes(mv) == w implies false by {
                                match mv {
                                    MessageV::Tx(l2) => {
                                        assert(l2 == v@);
                                        assert(spec_msg_bytes(mv).len() == 12 + (end - 12));
                                        assert(false);
                                    },
                                    _ => {
                                        assert(false);
                                    },
                                }
                            }
                        }
                        None
                    }
                },
                None => {
                    proof {
                        assert forall|mv: MessageV|
                            mv.wf() && spec_msg_bytes(mv) == w implies false by {}
                    }
                    None
                },
            }
        } else if disc == 3 {
            proof {
                assert forall|mv: MessageV|
                    mv.wf() && spec_msg_bytes(mv) == w implies (mv matches MessageV::NewBlock(bv)
                        && spec_header_bytes(bv.header).is_prefix_of(w.skip(4))) by {
                    match mv {
                        MessageV::NewBlock(bv) => {
                            assert(spec_msg_bytes(mv).is_prefix_of(w));
                            lemma_concat_prefix(spec_u32_to_le_bytes(3u32), spec_block_bytes(bv), w);
                            lemma_concat_prefix(
                                spec_header_bytes(bv.header),
                                spec_u64_to_le_bytes(bv.txs.len() as u64) + spec_tx_list_bytes(
                                    bv.txs,
                                ),
                                w.skip(4),
                            );
                            assert(spec_block_bytes(bv) =~= spec_header_bytes(bv.header) + (
                            spec_u64_to_le_bytes(bv.txs.len() as u64) + spec_tx_list_bytes(
                                bv.txs,
                            )));
                        },
                        _ => {
                            assert(false);
                        },
                    }
                }
            }
            match parse_header(bytes, 4) {
                Some((header, hend)) => {
                    proof {
                        lemma_header_bytes_len(header);
                        assert(hend == 76);
                    }
                    if n - hend < 8 {
                        proof {
                            assert forall|mv: MessageV|
                                mv.wf() && spec_msg_bytes(mv) == w implies false by {
                                match mv {
                                    MessageV::NewBlock(bv) => {
                                        assert(bv.header == header);
                                        lemma_header_bytes_len(bv.header);
                                        assert(spec_msg_bytes(mv).len() >= 84);
                                        assert(false);
                                    },
                                    _ => {
                                        assert(false);
                                    },
                                }
                            }
                        }
                        return None;
                    }
                    let count = read_u64_le(bytes, hend);
                    proof {
                        assert forall|mv: MessageV|
                            mv.wf() && spec_msg_bytes(mv) == w implies (mv
                                matches MessageV::NewBlock(bv) && bv.header == header
                                && bv.txs.len() == count && spec_tx_list_bytes(
                                bv.txs,
                            ).is_prefix_of(w.skip(84))) by {
                            match mv {
                                MessageV::NewBlock(bv) => {
                                    assert(bv.header == header);
                                    lemma_header_bytes_len(bv.header);
                                    lemma_concat_prefix(
                                        spec_u64_to_le_bytes(bv.txs.len() as u64),
                                        spec_tx_list_bytes(bv.txs),
                                        w.skip(4).skip(72),
                                    );
                                    assert(w.skip(4).skip(72) =~= w.skip(76));
                                    assert(spec_u64_to_le_bytes(bv.txs.len() as u64)
                                        =~= w.skip(76).subrange(0, 8));
                                    assert(w.skip(76).subrange(0, 8) =~= w.subrange(76, 84));
                                    assert(spec_u64_from_le_bytes(w.subrange(76, 84)) == count);
                                    assert(bv.txs.len() as u64 == count);
                                    assert(w.skip(76).skip(8) =~= w.skip(84));
                                },
                                _ => {
                                    assert(false);
                                },
                            }
                        }
                    }
                    match parse_tx_list(bytes, hend + 8, count) {
                        Some((v, end)) => {
                            if end == n {
                                let m = Message::NewBlock(
                                    Block { header, transactions: Transactions(v) },
                                );
                                proof {
                                    assert(w.subrange(0, 4) =~= spec_u32_to_le_bytes(3u32));
                                    assert(w.subrange(4, 76) == spec_header_bytes(header));
                                    assert(w.subrange(76, 84) =~= spec_u64_to_le_bytes(count));
                                    assert(w.subrange(84, n as int) == spec_tx_list_bytes(v@));
                                    assert(v@.len() as u64 == count);
                                    assert(w =~= spec_u32_to_le_bytes(3u32) + (spec_header_bytes(
                                        header,
                                    ) + spec_u64_to_le_bytes(v@.len() as u64)
                                        + spec_tx_list_bytes(v@)));
                                    assert(spec_msg_bytes(m@) =~= spec_u32_to_le_bytes(3u32) + (
                                    spec_header_bytes(header) + spec_u64_to_le_bytes(
                                        v@.len() as u64,
                                    ) + spec_tx_list_bytes(v@)));
                                    assert forall|mv: MessageV|
                                        mv.wf() && spec_msg_bytes(mv) == w implies mv == m@ by {
                                        match mv {
                                            MessageV::NewBlock(bv) => {
                                                assert(bv.txs == v@);
                                                assert(bv =~= m@->NewBlock_0);
                                                assert(mv =~= m@);
                                            },
                                            _ => {
                                                assert(false);
                                            },
                                        }
                                    }
                                }
                                Some(m)
                            } else {
                                proof {
                                    assert forall|mv: MessageV|
                                        mv.wf() && spec_msg_bytes(mv) == w implies false by {
                                        match mv {
                                            MessageV::NewBlock(bv) => {
                                                assert(bv.txs == v@);
                                                lemma_header_bytes_len(bv.header);
                                                assert(spec_msg_bytes(mv).len() == 84 + (end
                                                    - 84));
                                                assert(false);
                                            },
                                            _ => {
                                                assert(false);
                                            },
                                        }
                                    }
                                }
                                None
                            }
                        },
                        None => {
                            proof {
                                assert forall|mv: MessageV|
                                    mv.wf() && spec_msg_bytes(mv) == w implies false by {}
                            }
                            None
                        },
                    }
                },
                None => {
                    proof {
                        assert forall|mv: MessageV|
                            mv.wf() && spec_msg_bytes(mv) == w implies false by {}
                    }
                    None
                },
            }
        } else {
            proof {
                assert forall|mv: MessageV|
                    mv.wf() && spec_msg_bytes(mv) == w implies false by {}
            }
            None
        }
    }
}

} // verus!
