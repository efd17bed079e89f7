//! The hash capability consumed by the frontier: a fixed-width digest, a
//! node-combining hash, and a per-level empty-subtree constant. All three are
//! supplied by the Sapling note commitment tree hash and are trusted at this
//! boundary; everything built on top of them is verified.

use vstd::prelude::*;

use incrementalmerkletree::Hashable;
use incrementalmerkletree::Level;
use sapling_crypto::Node;

verus! {

/// Width in bytes of every digest handled by this crate.
pub const DIGEST_SIZE: usize = 32;

/// Whether 32 bytes are the canonical encoding of a tree node, as the hash
/// capability's own well-formedness check defines it.
pub uninterp spec fn canonical_digest(b: Seq<u8>) -> bool;

/// A byte sequence is a digest when it has exactly [`DIGEST_SIZE`] bytes and
/// passes the hash capability's well-formedness check.
pub open spec fn is_digest(b: Seq<u8>) -> bool {
    b.len() == DIGEST_SIZE && canonical_digest(b)
}

/// The digest of the internal node at the given level whose children have the
/// given digests. Levels count from the leaves: combining two leaves happens
/// at level 0.
pub uninterp spec fn combine_of(level: int, left: Seq<u8>, right: Seq<u8>) -> Seq<u8>;

/// The root digest of a subtree of the given height that contains no leaves.
pub uninterp spec fn empty_node(level: int) -> Seq<u8>;

/// Relies on `sapling_crypto::Node::from_bytes`: whether the bytes are a
/// canonical node encoding is a function of the bytes alone.
#[verifier::external_body]
pub(crate) fn digest_is_canonical(b: &Vec<u8>) -> (r: bool)
    requires
        b@.len() == DIGEST_SIZE,
    ensures
        r == canonical_digest(b@),
{
    let bytes: [u8; 32] = b[..].try_into().expect("digest is 32 bytes");
    Node::from_bytes(bytes).is_some().into()
}

/// Whether a byte vector is a digest: 32 bytes long and canonical. Callers
/// establish the [`is_digest`] preconditions of the frontier with this test.
pub fn check_digest(b: &Vec<u8>) -> (r: bool)
    ensures
        r == is_digest(b@),
{
    if b.len() != 32 {
        return false;
    }
    digest_is_canonical(b)
}

/// Relies on the `sapling_crypto::Node` implementation of
/// `incrementalmerkletree::Hashable::combine` (the Pedersen Merkle hash):
/// the result is determined by the level and the two operand digests alone,
/// and its byte encoding (a canonical field-element encoding) is again a
/// 32-byte canonical digest.
#[verifier::external_body]
pub(crate) fn hash_combine(level: u8, left: &Vec<u8>, right: &Vec<u8>) -> (r: Vec<u8>)
    requires
        level < 32,
        is_digest(left@),
        is_digest(right@),
    ensures
        r@ == combine_of(level as int, left@, right@),
        is_digest(r@),
{
    let lb: [u8; 32] = left[..].try_into().expect("digest is 32 bytes");
    let rb: [u8; 32] = right[..].try_into().expect("digest is 32 bytes");
    let l = Node::from_bytes(lb).expect("left operand is canonical");
    let rt = Node::from_bytes(rb).expect("right operand is canonical");
    Node::combine(Level::from(level), &l, &rt).to_bytes().to_vec()
}

/// Relies on the `sapling_crypto::Node` implementation of
/// `incrementalmerkletree::Hashable::empty_root`: the precomputed root of an
/// all-empty subtree of the given height, a 32-byte canonical digest.
#[verifier::external_body]
pub(crate) fn hash_empty_root(level: u8) -> (r: Vec<u8>)
    requires
        level <= 32,
    ensures
        r@ == empty_node(level as int),
        is_digest(r@),
{
    Node::empty_root(Level::from(level)).to_bytes().to_vec()
}

} // verus!
