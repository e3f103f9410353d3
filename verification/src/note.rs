//! Notes, the coins that commit to them, and the nullifiers that retire
//! them.

use crate::codec::{
    encoded_u64, lemma_parsed_fixed32, lemma_parsed_u64, parsed_fixed32, put_fixed32, put_u64,
    take_fixed32, take_u64, Decodable, Encodable,
};
use crate::error::Error;
use crate::keys::{PublicKey, Scalar, SpendingKey};
use crate::merkle::same_digest;
use crate::primitives::{
    is_canonical_scalar, note_digest, nullifier_digest, pedersen_note_hash, prf_nullifier,
};
use vstd::bytes::{lemma_auto_spec_u64_to_from_le_bytes, spec_u64_from_le_bytes};
use vstd::prelude::*;
use vstd::slice::slice_subrange;

verus! {

/// The number of bytes a note encodes to.
pub const NOTE_BYTES: usize = 136;

/// The bits of a byte string, each byte least significant bit first.
pub open spec fn bits_of(bytes: Seq<u8>) -> Seq<bool> {
    Seq::new(8 * bytes.len(), |i: int| (bytes[i / 8] >> ((i % 8) as u8)) & 1u8 == 1u8)
}

/// The bits of a byte string, each byte least significant bit first.
pub fn bytes_to_bits(bytes: &[u8]) -> (bits: Vec<bool>)
    requires
        8 * bytes@.len() <= usize::MAX,
    ensures
        bits@ == bits_of(bytes@),
{
    let mut bits: Vec<bool> = Vec::new();
    let mut i: usize = 0;
    while i < bytes.len()
        invariant
            i <= bytes@.len(),
            8 * bytes@.len() <= usize::MAX,
            bits@.len() == 8 * i,
            forall|k: int| 0 <= k < 8 * i ==> bits@[k] == bits_of(bytes@)[k],
        decreases bytes@.len() - i,
    {
        let byte: u8 = bytes[i];
        let mut j: u8 = 0;
        while j < 8
            invariant
                j <= 8,
                i < bytes@.len(),
                8 * bytes@.len() <= usize::MAX,
                byte == bytes@[i as int],
                bits@.len() == 8 * i + j,
                forall|k: int| 0 <= k < 8 * i + j ==> bits@[k] == bits_of(bytes@)[k],
            decreases 8 - j,
        {
            let bit: bool = (byte >> j) & 1u8 == 1u8;
            proof {
                let at: int = 8 * i + j;
                assert(at / 8 == i as int);
                assert(at % 8 == j as int);
            }
            bits.push(bit);
            j = j + 1;
        }
        i = i + 1;
    }
    assert(bits@ =~= bits_of(bytes@));
    bits
}

/// The commitment to a note that the ledger carries.
#[derive(Clone, Copy, Debug)]
pub struct Coin {
    pub repr: [u8; 32],
}

/// The value published when a note is spent.
#[derive(Clone, Copy, Debug)]
pub struct Nullifier {
    pub repr: [u8; 32],
}

/// A confidential value fragment addressed to a public key. It cannot be
/// printed.
#[derive(Clone, Copy)]
pub struct Note {
    pub value: u64,
    pub serial: Scalar,
    pub coin_blind: Scalar,
    pub valcom_blind: Scalar,
    pub recipient: PublicKey,
}

/// What a note holds, as plain values.
pub ghost struct NoteView {
    pub value: u64,
    pub serial: Seq<u8>,
    pub coin_blind: Seq<u8>,
    pub valcom_blind: Seq<u8>,
    pub recipient: Seq<u8>,
}

impl View for Coin {
    type V = Seq<u8>;

    open spec fn view(&self) -> Seq<u8> {
        self.repr@
    }
}

impl View for Nullifier {
    type V = Seq<u8>;

    open spec fn view(&self) -> Seq<u8> {
        self.repr@
    }
}

impl View for Note {
    type V = NoteView;

    open spec fn view(&self) -> NoteView {
        NoteView {
            value: self.value,
            serial: self.serial@,
            coin_blind: self.coin_blind@,
            valcom_blind: self.valcom_blind@,
            recipient: self.recipient@,
        }
    }
}

impl NoteView {
    /// The three scalars are canonical and the recipient is 32 bytes.
    pub open spec fn wf(self) -> bool {
        &&& is_canonical_scalar(self.serial)
        &&& is_canonical_scalar(self.coin_blind)
        &&& is_canonical_scalar(self.valcom_blind)
        &&& self.recipient.len() == 32
    }

    /// The bytes of a note: value, serial, coin blind, value-commitment
    /// blind, recipient.
    pub open spec fn encoding(self) -> Seq<u8> {
        encoded_u64(self.value) + self.serial + self.coin_blind + self.valcom_blind
            + self.recipient
    }

    /// The coin that commits to the note: the note hash of the bits of its
    /// encoding.
    pub open spec fn commitment(self) -> Seq<u8> {
        note_digest(bits_of(self.encoding()))
    }
}

/// The note at the front of `input`: none where fewer than 136 bytes are
/// left or one of the three scalars is not canonical.
pub open spec fn parsed_note(input: Seq<u8>) -> Option<(NoteView, nat)> {
    if input.len() >= 136 && is_canonical_scalar(input.subrange(8, 40)) && is_canonical_scalar(
        input.subrange(40, 72),
    ) && is_canonical_scalar(input.subrange(72, 104)) {
        Some(
            (
                NoteView {
                    value: spec_u64_from_le_bytes(input.take(8)),
                    serial: input.subrange(8, 40),
                    coin_blind: input.subrange(40, 72),
                    valcom_blind: input.subrange(72, 104),
                    recipient: input.subrange(104, 136),
                },
                136nat,
            ),
        )
    } else {
        None
    }
}

/// A well-formed note encodes to 136 bytes.
pub proof fn lemma_note_length(note: NoteView)
    requires
        note.wf(),
    ensures
        note.encoding().len() == 136,
{
    lemma_auto_spec_u64_to_from_le_bytes();
}

/// An encoded note is read back, whatever follows it.
pub proof fn lemma_parsed_note(note: NoteView, rest: Seq<u8>)
    requires
        note.wf(),
    ensures
        parsed_note(note.encoding() + rest) == Some((note, 136nat)),
{
    let whole = note.encoding() + rest;
    lemma_parsed_u64(
        note.value,
        note.serial + note.coin_blind + note.valcom_blind + note.recipient + rest,
    );
    assert(whole =~= encoded_u64(note.value) + (note.serial + note.coin_blind
        + note.valcom_blind + note.recipient + rest));
    assert(whole.subrange(8, 40) =~= note.serial);
    assert(whole.subrange(40, 72) =~= note.coin_blind);
    assert(whole.subrange(72, 104) =~= note.valcom_blind);
    assert(whole.subrange(104, 136) =~= note.recipient);
}

/// A byte is known by its eight bits.
proof fn lemma_bits_determine_byte(x: u8, y: u8)
    requires
        forall|k: u8| k < 8 ==> ((x >> k) & 1u8 == 1u8) == ((y >> k) & 1u8 == 1u8),
    ensures
        x == y,
{
    assert(((x >> 0u8) & 1u8 == 1u8) == ((y >> 0u8) & 1u8 == 1u8));
    assert(((x >> 1u8) & 1u8 == 1u8) == ((y >> 1u8) & 1u8 == 1u8));
    assert(((x >> 2u8) & 1u8 == 1u8) == ((y >> 2u8) & 1u8 == 1u8));
    assert(((x >> 3u8) & 1u8 == 1u8) == ((y >> 3u8) & 1u8 == 1u8));
    assert(((x >> 4u8) & 1u8 == 1u8) == ((y >> 4u8) & 1u8 == 1u8));
    assert(((x >> 5u8) & 1u8 == 1u8) == ((y >> 5u8) & 1u8 == 1u8));
    assert(((x >> 6u8) & 1u8 == 1u8) == ((y >> 6u8) & 1u8 == 1u8));
    assert(((x >> 7u8) & 1u8 == 1u8) == ((y >> 7u8) & 1u8 == 1u8));
    assert(x == y) by (bit_vector)
        requires
            ((x >> 0u8) & 1u8 == 1u8) == ((y >> 0u8) & 1u8 == 1u8),
            ((x >> 1u8) & 1u8 == 1u8) == ((y >> 1u8) & 1u8 == 1u8),
            ((x >> 2u8) & 1u8 == 1u8) == ((y >> 2u8) & 1u8 == 1u8),
            ((x >> 3u8) & 1u8 == 1u8) == ((y >> 3u8) & 1u8 == 1u8),
            ((x >> 4u8) & 1u8 == 1u8) == ((y >> 4u8) & 1u8 == 1u8),
            ((x >> 5u8) & 1u8 == 1u8) == ((y >> 5u8) & 1u8 == 1u8),
            ((x >> 6u8) & 1u8 == 1u8) == ((y >> 6u8) & 1u8 == 1u8),
            ((x >> 7u8) & 1u8 == 1u8) == ((y >> 7u8) & 1u8 == 1u8),
    ;
}

/// Byte strings with the same bits are the same.
pub proof fn lemma_bits_determine_bytes(a: Seq<u8>, b: Seq<u8>)
    requires
        bits_of(a) == bits_of(b),
    ensures
        a == b,
{
    assert(bits_of(a).len() == 8 * a.len());
    assert(bits_of(b).len() == 8 * b.len());
    assert forall|j: int| 0 <= j < a.len() implies a[j] == b[j] by {
        assert forall|k: u8| k < 8 implies ((a[j] >> k) & 1u8 == 1u8) == ((b[j] >> k) & 1u8
            == 1u8) by {
            let at: int = 8 * j + k;
            assert(at / 8 == j);
            assert(at % 8 == k as int);
            assert(bits_of(a)[at] == ((a[j] >> k) & 1u8 == 1u8));
            assert(bits_of(b)[at] == ((b[j] >> k) & 1u8 == 1u8));
        }
        lemma_bits_determine_byte(a[j], b[j]);
    }
    assert(a =~= b);
}

/// The note hash gives one digest to two different bit strings.
pub open spec fn note_hash_collides() -> bool {
    exists|a: Seq<bool>, b: Seq<bool>|
        a != b && #[trigger] note_digest(a) == #[trigger] note_digest(b)
}

/// A note that differs from another in any field has another coin,
/// unless the note hash collides: a coin is accepted for no note but its
/// own.
pub proof fn law_mutated_note_has_another_coin(note: NoteView, mutated: NoteView)
    requires
        note.wf(),
        mutated.wf(),
        note != mutated,
    ensures
        note.commitment() != mutated.commitment() || note_hash_collides(),
{
    lemma_parsed_note(note, Seq::empty());
    lemma_parsed_note(mutated, Seq::empty());
    if note.encoding() == mutated.encoding() {
        assert(note == mutated);
    }
    if bits_of(note.encoding()) == bits_of(mutated.encoding()) {
        lemma_bits_determine_bytes(note.encoding(), mutated.encoding());
    }
}

impl Coin {
    /// Whether two coins are the same commitment.
    pub fn same(&self, other: &Coin) -> (same: bool)
        ensures
            same == (self@ == other@),
    {
        same_digest(&self.repr, &other.repr)
    }
}

impl Nullifier {
    /// Whether two nullifiers are the same.
    pub fn same(&self, other: &Nullifier) -> (same: bool)
        ensures
            same == (self@ == other@),
    {
        same_digest(&self.repr, &other.repr)
    }
}

impl Note {
    /// The three scalars are canonical.
    pub open spec fn wf(&self) -> bool {
        self@.wf()
    }

    /// The bytes that stand for the note.
    pub fn to_bytes(&self) -> (bytes: Vec<u8>)
        ensures
            bytes@ == self@.encoding(),
    {
        let mut bytes: Vec<u8> = Vec::new();
        self.encode(&mut bytes);
        assert(bytes@ =~= self@.encoding());
        bytes
    }

    /// The coin that commits to this note.
    pub fn commit(&self) -> (coin: Coin)
        ensures
            self.wf(),
            coin@ == self@.commitment(),
    {
        let bytes: Vec<u8> = self.to_bytes();
        proof {
            use_type_invariant(&self.serial);
            use_type_invariant(&self.coin_blind);
            use_type_invariant(&self.valcom_blind);
            lemma_note_length(self@);
        }
        let bits: Vec<bool> = bytes_to_bits(bytes.as_slice());
        Coin { repr: pedersen_note_hash(&bits) }
    }
}

/// The nullifier to publish when the note is spent with the given key: the
/// digest of the key and the note's serial.
pub fn derive_nullifier(key: &SpendingKey, note: &Note) -> (nullifier: Nullifier)
    ensures
        nullifier@ == nullifier_digest(key@, note.serial@),
{
    let secret: [u8; 32] = key.secret.to_bytes();
    let serial: [u8; 32] = note.serial.to_bytes();
    Nullifier { repr: prf_nullifier(&secret, &serial) }
}

impl Encodable for Coin {
    open spec fn encoding(&self) -> Seq<u8> {
        self.repr@
    }

    fn encode(&self, out: &mut Vec<u8>) {
        put_fixed32(out, &self.repr);
    }
}

impl Decodable for Coin {
    open spec fn valid(&self) -> bool {
        true
    }

    open spec fn parsing(input: Seq<u8>) -> Option<(Seq<u8>, nat)> {
        parsed_fixed32(input)
    }

    proof fn lemma_round_trip(&self, rest: Seq<u8>) {
        lemma_parsed_fixed32(self.repr@, rest);
    }

    fn decode(input: &[u8]) -> (res: Result<(Coin, usize), Error>) {
        match take_fixed32(input) {
            Ok((repr, used)) => Ok((Coin { repr }, used)),
            Err(e) => Err(e),
        }
    }
}

impl Encodable for Nullifier {
    open spec fn encoding(&self) -> Seq<u8> {
        self.repr@
    }

    fn encode(&self, out: &mut Vec<u8>) {
        put_fixed32(out, &self.repr);
    }
}

impl Decodable for Nullifier {
    open spec fn valid(&self) -> bool {
        true
    }

    open spec fn parsing(input: Seq<u8>) -> Option<(Seq<u8>, nat)> {
        parsed_fixed32(input)
    }

    proof fn lemma_round_trip(&self, rest: Seq<u8>) {
        lemma_parsed_fixed32(self.repr@, rest);
    }

    fn decode(input: &[u8]) -> (res: Result<(Nullifier, usize), Error>) {
        match take_fixed32(input) {
            Ok((repr, used)) => Ok((Nullifier { repr }, used)),
            Err(e) => Err(e),
        }
    }
}

impl Encodable for Note {
    open spec fn encoding(&self) -> Seq<u8> {
        self@.encoding()
    }

    fn encode(&self, out: &mut Vec<u8>) {
        put_u64(out, self.value);
        self.serial.encode(out);
        self.coin_blind.encode(out);
        self.valcom_blind.encode(out);
        self.recipient.encode(out);
        assert(out@ =~= old(out)@ + self@.encoding());
    }
}

impl Decodable for Note {
    open spec fn valid(&self) -> bool {
        self.wf()
    }

    open spec fn parsing(input: Seq<u8>) -> Option<(NoteView, nat)> {
        parsed_note(input)
    }

    proof fn lemma_round_trip(&self, rest: Seq<u8>) {
        lemma_note_length(self@);
        lemma_parsed_note(self@, rest);
    }

    fn decode(input: &[u8]) -> (res: Result<(Note, usize), Error>) {
        if input.len() < NOTE_BYTES {
            return Err(Error::DecodeError);
        }
        let value: u64 = match take_u64(input) {
            Ok((value, _)) => value,
            Err(e) => {
                return Err(e);
            },
        };
        let first: &[u8] = slice_subrange(input, 8, 40);
        let second: &[u8] = slice_subrange(input, 40, 72);
        let third: &[u8] = slice_subrange(input, 72, 104);
        let fourth: &[u8] = slice_subrange(input, 104, 136);
        proof {
            assert(first@.take(32) =~= input@.subrange(8, 40));
            assert(second@.take(32) =~= input@.subrange(40, 72));
            assert(third@.take(32) =~= input@.subrange(72, 104));
            assert(fourth@.take(32) =~= input@.subrange(104, 136));
        }
        let serial: Scalar = match Scalar::decode(first) {
            Ok((scalar, _)) => scalar,
            Err(e) => {
                return Err(e);
            },
        };
        let coin_blind: Scalar = match Scalar::decode(second) {
            Ok((scalar, _)) => scalar,
            Err(e) => {
                return Err(e);
            },
        };
        let valcom_blind: Scalar = match Scalar::decode(third) {
            Ok((scalar, _)) => scalar,
            Err(e) => {
                return Err(e);
            },
        };
        let recipient: PublicKey = match PublicKey::decode(fourth) {
            Ok((key, _)) => key,
            Err(e) => {
                return Err(e);
            },
        };
        Ok((Note { value, serial, coin_blind, valcom_blind, recipient }, NOTE_BYTES))
    }
}

} // verus!
