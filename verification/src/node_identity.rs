//! Deterministic libp2p identity per Raft `NodeId` (demo / test clusters).
//!
//! The key seed is fixed by the node id, so every process derives the same
//! identity for a node without sharing key files.

use libp2p::identity::{DecodingError, Keypair, PublicKey};
use libp2p::PeerId;
use vstd::prelude::*;

use crate::error::Error;
use crate::raft::types::NodeId;

verus! {

/// A libp2p key pair; opaque here.
#[verifier::external_type_specification]
#[verifier::external_body]
pub struct ExKeypair(libp2p::identity::Keypair);

/// A libp2p public key; opaque here.
#[verifier::external_type_specification]
#[verifier::external_body]
pub struct ExPublicKey(libp2p::identity::PublicKey);

/// A key decoding failure; opaque here.
#[verifier::external_type_specification]
#[verifier::external_body]
pub struct ExDecodingError(libp2p::identity::DecodingError);

/// The 32-byte key seed of a node: its id cut to one byte, then the ASCII
/// text `libp2prf`, then zeros.
pub open spec fn node_key_seed_spec(node_id: NodeId) -> Seq<u8> {
    seq![(node_id % 256) as u8, 108u8, 105u8, 98u8, 112u8, 50u8, 112u8, 114u8, 102u8] + Seq::new(
        23,
        |i: int| 0u8,
    )
}

/// The key seed of `node_id`.
pub fn node_key_seed(node_id: NodeId) -> (seed: Vec<u8>)
    ensures
        seed@ == node_key_seed_spec(node_id),
        seed@.len() == 32,
{
    let mut seed: Vec<u8> = Vec::new();
    seed.push((node_id % 256) as u8);
    // ASCII "libp2prf".
    seed.push(108);
    seed.push(105);
    seed.push(98);
    seed.push(112);
    seed.push(50);
    seed.push(112);
    seed.push(114);
    seed.push(102);
    let mut i: usize = 9;
    while i < 32
        invariant
            9 <= i <= 32,
            seed@.len() == i,
            seed@.subrange(0, 9) == seq![(node_id % 256) as u8, 108u8, 105u8, 98u8, 112u8, 50u8, 112u8, 114u8, 102u8],
            forall|j: int| 9 <= j < i ==> seed@[j] == 0u8,
        decreases 32 - i,
    {
        seed.push(0);
        i = i + 1;
    }
    assert(seed@ =~= node_key_seed_spec(node_id));
    seed
}

/// The Ed25519 key pair whose 32-byte secret key is `seed`.
pub uninterp spec fn ed25519_keypair_of(seed: Seq<u8>) -> Keypair;

/// The public half of the key pair `pair`.
pub uninterp spec fn public_key_of(pair: Keypair) -> PublicKey;

/// The peer id of the public key `key`.
pub uninterp spec fn peer_id_of(key: PublicKey) -> PeerId;

/// Calls `Keypair::ed25519_from_bytes`, which takes exactly 32 bytes as an
/// Ed25519 secret key and derives its key pair (`SecretKey::try_from_bytes`
/// then `ed25519::Keypair::from`), and fails on any other length. The
/// derivation depends on the bytes alone; the pair is named, not described.
#[verifier::external_body]
fn keypair_from_seed(seed: Vec<u8>) -> (r: Result<Keypair, DecodingError>)
    ensures
        r is Ok <==> seed@.len() == 32,
        r is Ok ==> r->Ok_0 == ed25519_keypair_of(seed@),
{
    Keypair::ed25519_from_bytes(seed)
}

/// Calls `Keypair::public`, which depends on the pair alone; the key is named.
#[verifier::external_body]
fn keypair_public(pair: &Keypair) -> (key: PublicKey)
    ensures
        key == public_key_of(*pair),
{
    pair.public()
}

/// Calls `PeerId::from(PublicKey)`, which hashes the key's encoding and so
/// depends on the key alone; the id is named.
#[verifier::external_body]
fn peer_id_from_public(key: PublicKey) -> (id: PeerId)
    ensures
        id == peer_id_of(key),
{
    PeerId::from(key)
}

/// Calls `DecodingError`'s `to_string`; nothing is stated of the text.
#[verifier::external_body]
fn decoding_error_text(e: &DecodingError) -> String {
    e.to_string()
}

/// The key pair of `node_id`: the Ed25519 pair whose secret key is the
/// node's seed, the same on every process (no key files).
pub fn keypair_for_node(node_id: NodeId) -> (r: Result<Keypair, Error>)
    ensures
        r == Ok::<Keypair, Error>(ed25519_keypair_of(node_key_seed_spec(node_id))),
{
    let seed = node_key_seed(node_id);
    match keypair_from_seed(seed) {
        Ok(pair) => Ok(pair),
        Err(e) => Err(
            Error::Rpc(String::from_str("invalid node key seed: ").concat(decoding_error_text(&e).as_str())),
        ),
    }
}

/// The peer id of `node_id`: that of the public key of its key pair.
pub fn peer_id_for_node(node_id: NodeId) -> (r: Result<PeerId, Error>)
    ensures
        r == Ok::<PeerId, Error>(peer_id_of(public_key_of(ed25519_keypair_of(node_key_seed_spec(node_id))))),
{
    match keypair_for_node(node_id) {
        Ok(pair) => Ok(peer_id_from_public(keypair_public(&pair))),
        Err(e) => Err(e),
    }
}

} // verus!
