//! The cryptographic primitives the wallet consumes from the Sapling
//! libraries. Their results are too large to write down, so each gets a
//! name; the functions below are believed, not proved.

use group::GroupEncoding;
use rand::RngCore;
use vstd::prelude::*;

verus! {

/// The largest height at which two digests can be combined.
pub const MAX_COMBINE_HEIGHT: usize = 62;

/// The largest number of bits a note hash accepts.
pub const MAX_NOTE_HASH_BITS: usize = 1128;

/// The number a little-endian byte string denotes.
pub open spec fn le_value(bytes: Seq<u8>) -> nat
    decreases bytes.len(),
{
    if bytes.len() == 0 {
        0
    } else {
        bytes[0] as nat + 256 * le_value(bytes.skip(1))
    }
}

/// The order of the Jubjub prime-order subgroup, little-endian.
pub const SCALAR_MODULUS_BYTES: [u8; 32] = [
    0xb7, 0x2c, 0xf7, 0xd6, 0x5e, 0x0e, 0x97, 0xd0,
    0x82, 0x10, 0xc8, 0xcc, 0x93, 0x20, 0x68, 0xa6,
    0x00, 0x3b, 0x34, 0x01, 0x01, 0x3b, 0x67, 0x06,
    0xa9, 0xaf, 0x33, 0x65, 0xea, 0xb4, 0x7d, 0x0e,
];

/// The order of the Jubjub prime-order subgroup.
pub open spec fn scalar_modulus() -> nat {
    le_value(SCALAR_MODULUS_BYTES@)
}

/// A 32-byte string is a canonical scalar when it denotes a number below
/// the subgroup order.
pub open spec fn is_canonical_scalar(bytes: Seq<u8>) -> bool {
    bytes.len() == 32 && le_value(bytes) < scalar_modulus()
}

/// The digest of the parent of two sibling digests, `height` levels above
/// the leaves.
pub uninterp spec fn merkle_parent(height: nat, left: Seq<u8>, right: Seq<u8>) -> Seq<u8>;

/// The Pedersen hash of a bit string under the note-commitment
/// personalization, as a compressed curve point.
pub uninterp spec fn note_digest(bits: Seq<bool>) -> Seq<u8>;

/// The compressed encoding of the spending-key generator multiplied by the
/// scalar that `scalar` encodes.
pub uninterp spec fn generator_multiply(scalar: Seq<u8>) -> Seq<u8>;

/// The BLAKE2s digest, under the nullifier personalization, of a spending
/// key followed by a note's serial.
pub uninterp spec fn nullifier_digest(key: Seq<u8>, serial: Seq<u8>) -> Seq<u8>;

/// Calls `zcash_primitives::sapling::merkle_hash`. The claim is only that the
/// digest is a function of the height and the two children; the hash panics
/// from height 63 on, which the precondition excludes.
#[verifier::external_body]
pub(crate) fn merkle_combine(height: usize, left: &[u8; 32], right: &[u8; 32]) -> (parent: [u8; 32])
    requires
        height <= MAX_COMBINE_HEIGHT,
    ensures
        parent@ == merkle_parent(height as nat, left@, right@),
{
    zcash_primitives::sapling::merkle_hash(height, left, right)
}

/// Calls `zcash_primitives::pedersen_hash::pedersen_hash` with the
/// note-commitment personalization and compresses the point. The claim is
/// only that the digest is a function of the bits; the hash runs out of
/// generators beyond 1128 bits, which the precondition excludes.
#[verifier::external_body]
pub(crate) fn pedersen_note_hash(bits: &Vec<bool>) -> (digest: [u8; 32])
    requires
        bits@.len() <= MAX_NOTE_HASH_BITS,
    ensures
        digest@ == note_digest(bits@),
{
    zcash_primitives::pedersen_hash::pedersen_hash(
        zcash_primitives::pedersen_hash::Personalization::NoteCommitment,
        bits.iter().copied(),
    ).to_bytes()
}

/// Multiplies `zcash_primitives::constants::SPENDING_KEY_GENERATOR` by a
/// scalar and compresses the point. The claim is only that the encoding is
/// a function of the scalar; a non-canonical scalar has no field element,
/// which the precondition excludes.
#[verifier::external_body]
pub(crate) fn spending_generator_mul(scalar: &[u8; 32]) -> (point: [u8; 32])
    requires
        is_canonical_scalar(scalar@),
    ensures
        point@ == generator_multiply(scalar@),
{
    let secret = jubjub::Fr::from_bytes(scalar).unwrap();
    (zcash_primitives::constants::SPENDING_KEY_GENERATOR * secret).to_bytes()
}

/// Calls `jubjub::Fr::from_bytes_wide`, which reads 64 bytes as a
/// little-endian number and reduces it by the subgroup order, and encodes
/// the element canonically.
#[verifier::external_body]
pub(crate) fn scalar_from_wide(wide: &[u8; 64]) -> (scalar: [u8; 32])
    ensures
        is_canonical_scalar(scalar@),
        le_value(scalar@) == le_value(wide@) % scalar_modulus(),
{
    jubjub::Fr::from_bytes_wide(wide).to_bytes()
}

/// Hashes a spending key and a serial with `blake2s_simd` into 32 bytes,
/// personalized with `zcash_primitives::constants::PRF_NF_PERSONALIZATION`.
/// The claim is only that the digest is a function of the two inputs.
#[verifier::external_body]
pub(crate) fn prf_nullifier(key: &[u8; 32], serial: &[u8; 32]) -> (digest: [u8; 32])
    ensures
        digest@ == nullifier_digest(key@, serial@),
{
    *blake2s_simd::Params::new()
        .hash_length(32)
        .personal(zcash_primitives::constants::PRF_NF_PERSONALIZATION)
        .to_state()
        .update(key)
        .update(serial)
        .finalize()
        .as_array()
}

/// Calls `rand::rngs::OsRng::try_fill_bytes` on a 64-byte buffer and gives
/// `None` when the operating system has no randomness to offer. Nothing is
/// claimed of the bytes drawn.
#[verifier::external_body]
pub(crate) fn os_entropy() -> (drawn: Option<[u8; 64]>) {
    let mut seed = [0u8; 64];
    match rand::rngs::OsRng.try_fill_bytes(&mut seed) {
        Ok(()) => Some(seed),
        Err(_) => None,
    }
}

} // verus!
