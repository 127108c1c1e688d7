//! The fixed-width digest type and the hashing primitives.
//!
//! A [`Digest`] is a 32-byte SHA-256 digest, stored as four 64-bit words so
//! that hashes are plain `Copy` values with structural equality.  The
//! words hold the digest bytes in little-endian order: `w0` holds bytes
//! 0..8, `w1` bytes 8..16, and so on.

use vstd::prelude::*;
use vstd::bytes::{
    lemma_auto_spec_u64_to_from_le_bytes, spec_u64_from_le_bytes, spec_u64_to_le_bytes,
    u64_from_le_bytes, u64_to_le_bytes,
};
use vstd::slice::slice_subrange;

verus! {

/// The length of a [`Digest`] (in bytes).
pub const HASH_LENGTH: usize = 32;

/// Bytes representing a SHA-256 hash, packed into four little-endian
/// 64-bit words.
#[derive(Clone, Copy, PartialEq, Eq, Structural, Debug)]
pub struct Digest {
    pub w0: u64,
    pub w1: u64,
    pub w2: u64,
    pub w3: u64,
}

/// The 32 digest bytes that `h` stands for, in digest order.
pub open spec fn spec_digest_bytes(h: Digest) -> Seq<u8> {
    spec_u64_to_le_bytes(h.w0) + spec_u64_to_le_bytes(h.w1) + spec_u64_to_le_bytes(h.w2)
        + spec_u64_to_le_bytes(h.w3)
}

/// The hash whose digest bytes are `s`; meaningful for a 32-byte `s`.
pub open spec fn spec_digest_of_bytes(s: Seq<u8>) -> Digest {
    Digest {
        w0: spec_u64_from_le_bytes(s.subrange(0, 8)),
        w1: spec_u64_from_le_bytes(s.subrange(8, 16)),
        w2: spec_u64_from_le_bytes(s.subrange(16, 24)),
        w3: spec_u64_from_le_bytes(s.subrange(24, 32)),
    }
}

pub proof fn lemma_digest_bytes_len(h: Digest)
    ensures
        spec_digest_bytes(h).len() == 32,
{
    lemma_auto_spec_u64_to_from_le_bytes();
}

/// Packing the digest bytes of a hash yields that hash back.
pub proof fn lemma_digest_bytes_roundtrip(h: Digest)
    ensures
        spec_digest_of_bytes(spec_digest_bytes(h)) == h,
{
    lemma_auto_spec_u64_to_from_le_bytes();
    let s = spec_digest_bytes(h);
    assert(s.subrange(0, 8) =~= spec_u64_to_le_bytes(h.w0));
    assert(s.subrange(8, 16) =~= spec_u64_to_le_bytes(h.w1));
    assert(s.subrange(16, 24) =~= spec_u64_to_le_bytes(h.w2));
    assert(s.subrange(24, 32) =~= spec_u64_to_le_bytes(h.w3));
}

/// The digest bytes of the hash packed from a 32-byte sequence are that
/// sequence.
pub proof fn lemma_digest_of_bytes_roundtrip(s: Seq<u8>)
    requires
        s.len() == 32,
    ensures
        spec_digest_bytes(spec_digest_of_bytes(s)) == s,
{
    lemma_auto_spec_u64_to_from_le_bytes();
    assert(spec_digest_bytes(spec_digest_of_bytes(s)) =~= s);
}

/// Two hashes with the same digest bytes are the same hash.
pub proof fn lemma_digest_bytes_injective(h1: Digest, h2: Digest)
    requires
        spec_digest_bytes(h1) == spec_digest_bytes(h2),
    ensures
        h1 == h2,
{
    lemma_digest_bytes_roundtrip(h1);
    lemma_digest_bytes_roundtrip(h2);
}

/// The digest bytes of `h` as a vector, in digest order.
pub fn digest_to_bytes(h: &Digest) -> (v: Vec<u8>)
    ensures
        v@ == spec_digest_bytes(*h),
        v@.len() == 32,
{
    proof {
        lemma_auto_spec_u64_to_from_le_bytes();
    }
    let mut v = u64_to_le_bytes(h.w0);
    let mut v1 = u64_to_le_bytes(h.w1);
    let mut v2 = u64_to_le_bytes(h.w2);
    let mut v3 = u64_to_le_bytes(h.w3);
    v.append(&mut v1);
    v.append(&mut v2);
    v.append(&mut v3);
    v
}

/// The hash with digest bytes `bytes`.
pub fn digest_from_bytes(bytes: &[u8]) -> (h: Digest)
    requires
        bytes@.len() == 32,
    ensures
        h == spec_digest_of_bytes(bytes@),
        spec_digest_bytes(h) == bytes@,
{
    let w0 = u64_from_le_bytes(slice_subrange(bytes, 0, 8));
    let w1 = u64_from_le_bytes(slice_subrange(bytes, 8, 16));
    let w2 = u64_from_le_bytes(slice_subrange(bytes, 16, 24));
    let w3 = u64_from_le_bytes(slice_subrange(bytes, 24, 32));
    let h = Digest { w0, w1, w2, w3 };
    proof {
        lemma_digest_of_bytes_roundtrip(bytes@);
    }
    h
}

impl Digest {
    /// The hash whose 32 digest bytes all equal `b`.
    pub fn repeat_byte(b: u8) -> (h: Digest)
        ensures
            h == Digest::spec_repeat_byte(b),
            spec_digest_bytes(h) == Seq::new(32, |i: int| b),
    {
        let mut v: Vec<u8> = Vec::new();
        let mut i: usize = 0;
        while i < 32
            invariant
                i <= 32,
                v@ =~= Seq::new(i as nat, |j: int| b),
            decreases 32 - i,
        {
            v.push(b);
            i += 1;
        }
        assert(v@ =~= Seq::new(32, |j: int| b));
        digest_from_bytes(v.as_slice())
    }

    /// The hash whose 32 digest bytes all equal `b`, as a spec value.
    pub open spec fn spec_repeat_byte(b: u8) -> Digest {
        spec_digest_of_bytes(Seq::new(32, |i: int| b))
    }

    /// The hash with digest bytes `bytes`, or `None` when `bytes` is not
    /// exactly 32 bytes long.
    pub fn from_bytes(bytes: &[u8]) -> (r: Option<Digest>)
        ensures
            match r {
                Some(h) => bytes@.len() == 32 && spec_digest_bytes(h) == bytes@,
                None => bytes@.len() != 32,
            },
    {
        if bytes.len() == 32 {
            Some(digest_from_bytes(bytes))
        } else {
            None
        }
    }

    /// The digest bytes of this hash, in digest order.
    pub fn to_bytes(&self) -> (v: Vec<u8>)
        ensures
            v@ == spec_digest_bytes(*self),
            v@.len() == 32,
    {
        digest_to_bytes(self)
    }
}

/// What the SHA-256 compression of a byte sequence returns; the digest
/// depends on the input bytes alone.
pub uninterp spec fn sha256_of(bytes: Seq<u8>) -> Seq<u8>;

/// Relies on `sha2::Digest::digest` on `sha2::Sha256`: the SHA-256
/// digest of the input, which is 32 bytes long and a function of the
/// input bytes alone.
#[verifier::external_body]
fn sha256(bytes: &[u8]) -> (digest: Vec<u8>)
    ensures
        digest@ == sha256_of(bytes@),
        digest@.len() == 32,
{
    <sha2::Sha256 as sha2::Digest>::digest(bytes).to_vec()
}

/// The SHA-256 digest of `bytes`, packed as a [`Digest`].
pub open spec fn spec_hash_of(bytes: Seq<u8>) -> Digest {
    spec_digest_of_bytes(sha256_of(bytes))
}

/// Digest arbitrary bytes with SHA-256.
pub fn hash_bytes(bytes: &[u8]) -> (h: Digest)
    ensures
        h == spec_hash_of(bytes@),
        spec_digest_bytes(h) == sha256_of(bytes@),
{
    let digest = sha256(bytes);
    digest_from_bytes(digest.as_slice())
}

/// True iff the first `leading` digest bytes of `h` are zero.  A 32-byte
/// digest cannot have more than 32 leading zero bytes, so the predicate
/// is false for any larger count.
pub open spec fn spec_has_leading_zeros(h: Digest, leading: int) -> bool {
    leading <= 32 && forall|i: int| 0 <= i < leading ==> spec_digest_bytes(h)[i] == 0
}

/// Checks whether the first `leading` bytes of the digest are zero.
pub fn has_leading_zeros(s: &Digest, leading: usize) -> (r: bool)
    requires
        leading <= HASH_LENGTH,
    ensures
        r == spec_has_leading_zeros(*s, leading as int),
{
    let bytes = digest_to_bytes(s);
    let mut i: usize = 0;
    while i < leading
        invariant
            i <= leading <= 32,
            bytes@ == spec_digest_bytes(*s),
            bytes@.len() == 32,
            forall|j: int| 0 <= j < i ==> bytes@[j] == 0,
        decreases leading - i,
    {
        if bytes[i] != 0 {
            return false;
        }
        i += 1;
    }
    true
}

/// What base58 rendering of a byte sequence returns; the text depends on
/// the bytes alone.
pub uninterp spec fn base58_of(bytes: Seq<u8>) -> Seq<char>;

/// Relies on `bs58::encode`: the Bitcoin-alphabet base58 rendering of
/// the bytes, a function of the bytes alone.
#[verifier::external_body]
fn bs58_string(bytes: &[u8]) -> (r: String)
    ensures
        r@ == base58_of(bytes@),
{
    bs58::encode(bytes).into_string()
}

/// Rendering a value as a base58 string, for human-readable output.
pub trait B58Encode {
    /// The base58 text this value renders to.
    spec fn spec_b58(&self) -> Seq<char>;

    /// Encode this as base58 string.
    fn encode(&self) -> (r: String)
        ensures
            r@ == self.spec_b58(),
    ;
}

impl B58Encode for Digest {
    open spec fn spec_b58(&self) -> Seq<char> {
        base58_of(spec_digest_bytes(*self))
    }

    fn encode(&self) -> (r: String) {
        let bytes = digest_to_bytes(self);
        bs58_string(bytes.as_slice())
    }
}

/// SHA-256 hashing for the values the chain is built from.  Most
/// implementations hash their canonical binary encoding through
/// [`hash_bytes`].
pub trait Hashable {
    /// Whether this value may be hashed.
    spec fn hashable(&self) -> bool;

    /// The hash this value hashes to.
    spec fn spec_hash(&self) -> Digest;

    /// Digest this with SHA-256.
    fn hash(&self) -> (h: Digest)
        requires
            self.hashable(),
        ensures
            h == self.spec_hash(),
    ;
}

} // verus!
