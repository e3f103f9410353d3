//! Scalars, spending keys and the public keys derived from them.

use crate::codec::{
    lemma_parsed_fixed32, parsed_fixed32, put_fixed32, take_fixed32, Decodable, Encodable,
};
use crate::error::Error;
use crate::merkle::same_digest;
use crate::primitives::{
    generator_multiply, is_canonical_scalar, le_value, os_entropy, scalar_from_wide,
    scalar_modulus, spending_generator_mul, SCALAR_MODULUS_BYTES,
};
use vstd::prelude::*;

verus! {

/// Whether 32 bytes, read little-endian, denote a number below the subgroup
/// order.
pub fn is_canonical(bytes: &[u8; 32]) -> (canonical: bool)
    ensures
        canonical == is_canonical_scalar(bytes@),
{
    let mut below: bool = false;
    let mut equal: bool = true;
    let mut i: usize = 32;
    while i > 0
        invariant
            i <= 32,
            below == (le_value(bytes@.skip(i as int)) < le_value(
                SCALAR_MODULUS_BYTES@.skip(i as int),
            )),
            equal == (le_value(bytes@.skip(i as int)) == le_value(
                SCALAR_MODULUS_BYTES@.skip(i as int),
            )),
        decreases i,
    {
        i = i - 1;
        let ours: u8 = bytes[i];
        let theirs: u8 = SCALAR_MODULUS_BYTES[i];
        proof {
            assert(bytes@.skip(i as int).skip(1) =~= bytes@.skip(i + 1));
            assert(SCALAR_MODULUS_BYTES@.skip(i as int).skip(1) =~= SCALAR_MODULUS_BYTES@.skip(
                i + 1,
            ));
            assert(bytes@.skip(i as int)[0] == ours);
            assert(SCALAR_MODULUS_BYTES@.skip(i as int)[0] == theirs);
        }
        if equal {
            below = ours < theirs;
            equal = ours == theirs;
        }
    }
    assert(bytes@.skip(0) =~= bytes@);
    assert(SCALAR_MODULUS_BYTES@.skip(0) =~= SCALAR_MODULUS_BYTES@);
    below
}

/// An element of the Jubjub scalar field in its canonical 32-byte form.
/// Scalars are secrets or blinds, so they cannot be printed.
#[derive(Clone, Copy)]
pub struct Scalar {
    bytes: [u8; 32],
}

impl View for Scalar {
    type V = Seq<u8>;

    closed spec fn view(&self) -> Seq<u8> {
        self.bytes@
    }
}

impl Scalar {
    /// The bytes denote a number below the subgroup order. Every scalar
    /// that exists is such.
    #[verifier::type_invariant]
    pub open spec fn wf(&self) -> bool {
        is_canonical_scalar(self@)
    }

    /// The number the scalar stands for.
    pub open spec fn value(&self) -> nat {
        le_value(self@)
    }

    /// The scalar with the given canonical bytes, or nothing where they
    /// denote a number that is not below the subgroup order.
    pub fn from_bytes(bytes: [u8; 32]) -> (scalar: Option<Scalar>)
        ensures
            scalar is Some <==> is_canonical_scalar(bytes@),
            scalar matches Some(s) ==> s@ == bytes@,
    {
        if is_canonical(&bytes) {
            Some(Scalar { bytes })
        } else {
            None
        }
    }

    /// The scalar that 64 bytes, read as a little-endian number, reduce to.
    pub fn from_wide(wide: &[u8; 64]) -> (scalar: Scalar)
        ensures
            scalar.wf(),
            scalar.value() == le_value(wide@) % scalar_modulus(),
    {
        Scalar { bytes: scalar_from_wide(wide) }
    }

    /// The canonical bytes.
    pub fn to_bytes(&self) -> (bytes: [u8; 32])
        ensures
            bytes@ == self@,
            self.wf(),
    {
        proof {
            use_type_invariant(self);
        }
        self.bytes
    }

    /// Whether two scalars are the same field element.
    pub fn same(&self, other: &Scalar) -> (same: bool)
        ensures
            same == (self@ == other@),
    {
        same_digest(&self.bytes, &other.bytes)
    }
}

/// The secret scalar that authorizes spending. It cannot be printed.
#[derive(Clone, Copy)]
pub struct SpendingKey {
    pub secret: Scalar,
}

/// The public identity of a spending key: a compressed curve point.
#[derive(Clone, Copy, Debug)]
pub struct PublicKey {
    pub point: [u8; 32],
}

impl PublicKey {
    /// Whether two public keys are the same point encoding.
    pub fn same(&self, other: &PublicKey) -> (same: bool)
        ensures
            same == (self.point@ == other.point@),
    {
        same_digest(&self.point, &other.point)
    }
}

impl SpendingKey {
    /// The secret is a canonical scalar.
    pub open spec fn wf(&self) -> bool {
        self.secret.wf()
    }

    /// The public key that belongs to this spending key: the fixed
    /// generator multiplied by the secret.
    pub fn public_key(&self) -> (public: PublicKey)
        ensures
            self.wf(),
            public.point@ == generator_multiply(self.secret@),
    {
        proof {
            use_type_invariant(&self.secret);
        }
        PublicKey { point: spending_generator_mul(&self.secret.bytes) }
    }
}

/// The key pair that 64 bytes of randomness determine.
pub fn generate_from(seed: &[u8; 64]) -> (pair: (PublicKey, SpendingKey))
    ensures
        pair.1.wf(),
        pair.1.secret.value() == le_value(seed@) % scalar_modulus(),
        pair.0.point@ == generator_multiply(pair.1.secret@),
{
    let key = SpendingKey { secret: Scalar::from_wide(seed) };
    (key.public_key(), key)
}

/// The key pair for what the randomness source gave: nothing where it
/// gave nothing.
pub fn generate_with(drawn: Option<[u8; 64]>) -> (pair: Option<(PublicKey, SpendingKey)>)
    ensures
        pair is Some <==> drawn is Some,
        pair matches Some(p) ==> {
            &&& p.1.wf()
            &&& p.1.secret.value() == le_value(drawn->0@) % scalar_modulus()
            &&& p.0.point@ == generator_multiply(p.1.secret@)
        },
{
    match drawn {
        Some(seed) => Some(generate_from(&seed)),
        None => None,
    }
}

/// Draws that reduce to different numbers give different spending keys.
pub proof fn law_distinct_draws_give_distinct_keys(first: SpendingKey, second: SpendingKey)
    requires
        first.secret.value() != second.secret.value(),
    ensures
        first@ != second@,
{
}

/// A fresh key pair from the operating system's randomness, or nothing
/// where that source is unavailable.
pub fn generate() -> (pair: Option<(PublicKey, SpendingKey)>)
    ensures
        pair matches Some(p) ==> p.1.wf() && p.0.point@ == generator_multiply(p.1.secret@),
{
    generate_with(os_entropy())
}

impl View for PublicKey {
    type V = Seq<u8>;

    open spec fn view(&self) -> Seq<u8> {
        self.point@
    }
}

impl View for SpendingKey {
    type V = Seq<u8>;

    open spec fn view(&self) -> Seq<u8> {
        self.secret@
    }
}

/// The canonical scalar at the front of `input`: none where fewer than 32
/// bytes are left or they denote a number that is not below the subgroup
/// order.
pub open spec fn parsed_scalar(input: Seq<u8>) -> Option<(Seq<u8>, nat)> {
    if input.len() >= 32 && is_canonical_scalar(input.take(32)) {
        Some((input.take(32), 32nat))
    } else {
        None
    }
}

impl Encodable for Scalar {
    open spec fn encoding(&self) -> Seq<u8> {
        self@
    }

    fn encode(&self, out: &mut Vec<u8>) {
        put_fixed32(out, &self.bytes);
    }
}

impl Decodable for Scalar {
    open spec fn valid(&self) -> bool {
        self.wf()
    }

    open spec fn parsing(input: Seq<u8>) -> Option<(Seq<u8>, nat)> {
        parsed_scalar(input)
    }

    proof fn lemma_round_trip(&self, rest: Seq<u8>) {
        lemma_parsed_fixed32(self@, rest);
    }

    fn decode(input: &[u8]) -> (res: Result<(Scalar, usize), Error>) {
        match take_fixed32(input) {
            Ok((bytes, used)) => match Scalar::from_bytes(bytes) {
                Some(scalar) => Ok((scalar, used)),
                None => Err(Error::DecodeError),
            },
            Err(e) => Err(e),
        }
    }
}

impl Encodable for SpendingKey {
    open spec fn encoding(&self) -> Seq<u8> {
        self.secret@
    }

    fn encode(&self, out: &mut Vec<u8>) {
        self.secret.encode(out);
    }
}

impl Decodable for SpendingKey {
    open spec fn valid(&self) -> bool {
        self.wf()
    }

    open spec fn parsing(input: Seq<u8>) -> Option<(Seq<u8>, nat)> {
        parsed_scalar(input)
    }

    proof fn lemma_round_trip(&self, rest: Seq<u8>) {
        self.secret.lemma_round_trip(rest);
    }

    fn decode(input: &[u8]) -> (res: Result<(SpendingKey, usize), Error>) {
        match Scalar::decode(input) {
            Ok((secret, used)) => Ok((SpendingKey { secret }, used)),
            Err(e) => Err(e),
        }
    }
}

impl Encodable for PublicKey {
    open spec fn encoding(&self) -> Seq<u8> {
        self.point@
    }

    fn encode(&self, out: &mut Vec<u8>) {
        put_fixed32(out, &self.point);
    }
}

impl Decodable for PublicKey {
    open spec fn valid(&self) -> bool {
        true
    }

    open spec fn parsing(input: Seq<u8>) -> Option<(Seq<u8>, nat)> {
        parsed_fixed32(input)
    }

    proof fn lemma_round_trip(&self, rest: Seq<u8>) {
        lemma_parsed_fixed32(self.point@, rest);
    }

    fn decode(input: &[u8]) -> (res: Result<(PublicKey, usize), Error>) {
        match take_fixed32(input) {
            Ok((point, used)) => Ok((PublicKey { point }, used)),
            Err(e) => Err(e),
        }
    }
}

} // verus!
