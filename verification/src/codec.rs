//! The byte format of everything the wallet stores: fixed-width
//! little-endian integers, fixed 32-byte field elements and points, and
//! length-prefixed byte strings and texts.

use crate::error::Error;
use vstd::bytes::{
    lemma_auto_spec_u64_to_from_le_bytes, spec_u64_from_le_bytes, spec_u64_to_le_bytes,
    u64_from_le_bytes, u64_to_le_bytes,
};
use vstd::prelude::*;
use vstd::slice::slice_subrange;
use vstd::utf8::{
    decode_utf8, decode_utf8_encode_utf8, encode_utf8, encode_utf8_decode_utf8,
    encode_utf8_valid_utf8, valid_utf8,
};

verus! {

/// The encoding of an integer: eight bytes, least significant first.
pub open spec fn encoded_u64(value: u64) -> Seq<u8> {
    spec_u64_to_le_bytes(value)
}

/// The integer at the front of `input` and the bytes it takes.
pub open spec fn parsed_u64(input: Seq<u8>) -> Option<(u64, nat)> {
    if input.len() >= 8 {
        Some((spec_u64_from_le_bytes(input.take(8)), 8nat))
    } else {
        None
    }
}

/// The 32 bytes at the front of `input`.
pub open spec fn parsed_fixed32(input: Seq<u8>) -> Option<(Seq<u8>, nat)> {
    if input.len() >= 32 {
        Some((input.take(32), 32nat))
    } else {
        None
    }
}

/// The encoding of a byte string: its length as an integer, then the
/// bytes.
pub open spec fn encoded_blob(bytes: Seq<u8>) -> Seq<u8> {
    encoded_u64(bytes.len() as u64) + bytes
}

/// The byte string at the front of `input`: none where the length prefix
/// is cut short or exceeds what follows it.
pub open spec fn parsed_blob(input: Seq<u8>) -> Option<(Seq<u8>, nat)> {
    match parsed_u64(input) {
        Some((length, _)) => if length <= input.len() - 8 {
            Some((input.subrange(8, 8 + length), (8 + length) as nat))
        } else {
            None
        },
        None => None,
    }
}

/// The encoding of a text: its UTF-8 bytes as a byte string.
pub open spec fn encoded_text(text: Seq<char>) -> Seq<u8> {
    encoded_blob(encode_utf8(text))
}

/// The text at the front of `input`: none where the byte string is
/// malformed or is not UTF-8.
pub open spec fn parsed_text(input: Seq<u8>) -> Option<(Seq<char>, nat)> {
    match parsed_blob(input) {
        Some((bytes, used)) => if valid_utf8(bytes) {
            Some((decode_utf8(bytes), used))
        } else {
            None
        },
        None => None,
    }
}

/// An encoded integer is read back, whatever follows it.
pub proof fn lemma_parsed_u64(value: u64, rest: Seq<u8>)
    ensures
        encoded_u64(value).len() == 8,
        parsed_u64(encoded_u64(value) + rest) == Some((value, 8nat)),
{
    lemma_auto_spec_u64_to_from_le_bytes();
    assert((encoded_u64(value) + rest).take(8) =~= encoded_u64(value));
}

/// Thirty-two bytes are read back, whatever follows them.
pub proof fn lemma_parsed_fixed32(bytes: Seq<u8>, rest: Seq<u8>)
    requires
        bytes.len() == 32,
    ensures
        parsed_fixed32(bytes + rest) == Some((bytes, 32nat)),
{
    assert((bytes + rest).take(32) =~= bytes);
}

/// An encoded byte string is read back, whatever follows it.
pub proof fn lemma_parsed_blob(bytes: Seq<u8>, rest: Seq<u8>)
    requires
        bytes.len() <= u64::MAX,
    ensures
        encoded_blob(bytes).len() == 8 + bytes.len(),
        parsed_blob(encoded_blob(bytes) + rest) == Some((bytes, (8 + bytes.len()) as nat)),
{
    let length = bytes.len() as u64;
    let whole = encoded_blob(bytes) + rest;
    lemma_parsed_u64(length, bytes + rest);
    assert(whole =~= encoded_u64(length) + (bytes + rest));
    assert(whole.subrange(8, 8 + length) =~= bytes);
}

/// An encoded text is read back, whatever follows it.
pub proof fn lemma_parsed_text(text: Seq<char>, rest: Seq<u8>)
    requires
        encode_utf8(text).len() <= u64::MAX,
    ensures
        encoded_text(text).len() == 8 + encode_utf8(text).len(),
        parsed_text(encoded_text(text) + rest) == Some(
            (text, (8 + encode_utf8(text).len()) as nat),
        ),
{
    lemma_parsed_blob(encode_utf8(text), rest);
    encode_utf8_valid_utf8(text);
    encode_utf8_decode_utf8(text);
}

/// Appends the encoding of an integer.
pub fn put_u64(out: &mut Vec<u8>, value: u64)
    ensures
        final(out)@ == old(out)@ + encoded_u64(value),
{
    let mut bytes: Vec<u8> = u64_to_le_bytes(value);
    out.append(&mut bytes);
}

/// Appends 32 bytes.
pub fn put_fixed32(out: &mut Vec<u8>, bytes: &[u8; 32])
    ensures
        final(out)@ == old(out)@ + bytes@,
{
    let mut i: usize = 0;
    while i < 32
        invariant
            i <= 32,
            out@ == old(out)@ + bytes@.take(i as int),
        decreases 32 - i,
    {
        out.push(bytes[i]);
        assert(bytes@.take(i + 1) =~= bytes@.take(i as int).push(bytes@[i as int]));
        i = i + 1;
    }
    assert(bytes@.take(32) =~= bytes@);
}

/// Appends a run of bytes as they are.
pub fn put_bytes(out: &mut Vec<u8>, bytes: &[u8])
    ensures
        final(out)@ == old(out)@ + bytes@,
{
    let mut i: usize = 0;
    while i < bytes.len()
        invariant
            i <= bytes@.len(),
            out@ == old(out)@ + bytes@.take(i as int),
        decreases bytes@.len() - i,
    {
        out.push(bytes[i]);
        assert(bytes@.take(i + 1) =~= bytes@.take(i as int).push(bytes@[i as int]));
        i = i + 1;
    }
    assert(bytes@.take(bytes@.len() as int) =~= bytes@);
}

/// Appends the encoding of a byte string.
pub fn put_blob(out: &mut Vec<u8>, bytes: &[u8])
    ensures
        final(out)@ == old(out)@ + encoded_blob(bytes@),
{
    put_u64(out, bytes.len() as u64);
    put_bytes(out, bytes);
    assert(out@ =~= old(out)@ + encoded_blob(bytes@));
}

/// Appends the encoding of a text.
pub fn put_text(out: &mut Vec<u8>, text: &str)
    ensures
        final(out)@ == old(out)@ + encoded_text(text@),
{
    put_blob(out, text.as_bytes());
}

/// Reads the integer at the front of `input`.
pub fn take_u64(input: &[u8]) -> (res: Result<(u64, usize), Error>)
    ensures
        match parsed_u64(input@) {
            Some((value, used)) => res == Ok::<(u64, usize), Error>((value, used as usize)),
            None => res == Err::<(u64, usize), Error>(Error::DecodeError),
        },
{
    if input.len() < 8 {
        return Err(Error::DecodeError);
    }
    let front: &[u8] = slice_subrange(input, 0, 8);
    assert(front@ =~= input@.take(8));
    Ok((u64_from_le_bytes(front), 8))
}

/// Reads the 32 bytes at the front of `input`.
pub fn take_fixed32(input: &[u8]) -> (res: Result<([u8; 32], usize), Error>)
    ensures
        match parsed_fixed32(input@) {
            Some((bytes, used)) => res matches Ok((a, n)) && a@ == bytes && n == used,
            None => res == Err::<([u8; 32], usize), Error>(Error::DecodeError),
        },
{
    if input.len() < 32 {
        return Err(Error::DecodeError);
    }
    let mut bytes: [u8; 32] = [0u8; 32];
    let mut i: usize = 0;
    while i < 32
        invariant
            i <= 32 <= input@.len(),
            forall|k: int| 0 <= k < i ==> bytes@[k] == input@[k],
        decreases 32 - i,
    {
        bytes[i] = input[i];
        i = i + 1;
    }
    assert(bytes@ =~= input@.take(32));
    Ok((bytes, 32))
}

/// Reads the byte string at the front of `input`.
pub fn take_blob(input: &[u8]) -> (res: Result<(Vec<u8>, usize), Error>)
    ensures
        match parsed_blob(input@) {
            Some((bytes, used)) => res matches Ok((v, n)) && v@ == bytes && n == used,
            None => res == Err::<(Vec<u8>, usize), Error>(Error::DecodeError),
        },
{
    let length: u64 = match take_u64(input) {
        Ok((length, _)) => length,
        Err(e) => {
            return Err(e);
        },
    };
    if length > (input.len() - 8) as u64 {
        return Err(Error::DecodeError);
    }
    let end: usize = 8 + length as usize;
    let mut bytes: Vec<u8> = Vec::new();
    put_bytes(&mut bytes, slice_subrange(input, 8, end));
    assert(bytes@ =~= input@.subrange(8, 8 + length));
    Ok((bytes, end))
}

/// Calls `String::from_utf8`, which gives the text exactly where the bytes
/// are well-formed UTF-8.
#[verifier::external_body]
fn text_from_utf8(bytes: Vec<u8>) -> (text: Option<String>)
    ensures
        text is Some <==> valid_utf8(bytes@),
        text matches Some(t) ==> t@ == decode_utf8(bytes@),
{
    String::from_utf8(bytes).ok()
}

/// Reads the text at the front of `input`.
pub fn take_text(input: &[u8]) -> (res: Result<(String, usize), Error>)
    ensures
        match parsed_text(input@) {
            Some((text, used)) => res matches Ok((t, n)) && t@ == text && n == used,
            None => res matches Err(e) && e == Error::DecodeError,
        },
{
    match take_blob(input) {
        Ok((bytes, used)) => match text_from_utf8(bytes) {
            Some(text) => Ok((text, used)),
            None => Err(Error::DecodeError),
        },
        Err(e) => Err(e),
    }
}

/// A type with a byte format.
pub trait Encodable {
    /// The bytes that stand for the value.
    spec fn encoding(&self) -> Seq<u8>;

    /// Appends the value's encoding.
    fn encode(&self, out: &mut Vec<u8>)
        ensures
            final(out)@ == old(out)@ + self.encoding(),
    ;
}

/// A type whose values can be read back from their byte format.
pub trait Decodable: Encodable + View + Sized {
    /// The values that decoding can give back.
    spec fn valid(&self) -> bool;

    /// The value at the front of `input` and the bytes it takes, or none
    /// where the front of `input` is not the encoding of a value.
    spec fn parsing(input: Seq<u8>) -> Option<(Self::V, nat)>;

    /// The encoding of a valid value is read back, whatever follows it.
    proof fn lemma_round_trip(&self, rest: Seq<u8>)
        requires
            self.valid(),
        ensures
            Self::parsing(self.encoding() + rest) == Some((self@, self.encoding().len())),
    ;

    /// Reads the value at the front of `input`.
    fn decode(input: &[u8]) -> (res: Result<(Self, usize), Error>)
        ensures
            match Self::parsing(input@) {
                Some((value, used)) => res matches Ok((v, n)) && v@ == value && n == used && n
                    <= input@.len() && v.valid(),
                None => res matches Err(e) && e == Error::DecodeError,
            },
    ;
}

/// What a whole buffer decodes to: a value only where its encoding is the
/// whole of `bytes`.
pub open spec fn decoding<T: Decodable>(bytes: Seq<u8>) -> Option<T::V> {
    match T::parsing(bytes) {
        Some((value, used)) => if used == bytes.len() {
            Some(value)
        } else {
            None
        },
        None => None,
    }
}

/// The encoding of a value.
pub fn serialize<T: Encodable>(value: &T) -> (bytes: Vec<u8>)
    ensures
        bytes@ == value.encoding(),
{
    let mut bytes: Vec<u8> = Vec::new();
    value.encode(&mut bytes);
    assert(bytes@ =~= value.encoding());
    bytes
}

/// The value that `bytes` encode; bytes that are cut short, malformed or
/// followed by more are refused.
pub fn deserialize<T: Decodable>(bytes: &[u8]) -> (res: Result<T, Error>)
    ensures
        match decoding::<T>(bytes@) {
            Some(value) => res matches Ok(v) && v@ == value && v.valid(),
            None => res matches Err(e) && e == Error::DecodeError,
        },
{
    match T::decode(bytes) {
        Ok((value, used)) => if used == bytes.len() {
            Ok(value)
        } else {
            Err(Error::DecodeError)
        },
        Err(e) => Err(e),
    }
}

/// Decoding is the left inverse of encoding: what a valid value encodes to
/// decodes to that value.
pub proof fn law_round_trip<T: Decodable>(value: T)
    requires
        value.valid(),
    ensures
        decoding::<T>(value.encoding()) == Some(value@),
{
    value.lemma_round_trip(Seq::empty());
    assert(value.encoding() + Seq::<u8>::empty() =~= value.encoding());
}

impl Encodable for u64 {
    open spec fn encoding(&self) -> Seq<u8> {
        encoded_u64(*self)
    }

    fn encode(&self, out: &mut Vec<u8>) {
        put_u64(out, *self);
    }
}

impl Decodable for u64 {
    open spec fn valid(&self) -> bool {
        true
    }

    open spec fn parsing(input: Seq<u8>) -> Option<(u64, nat)> {
        parsed_u64(input)
    }

    proof fn lemma_round_trip(&self, rest: Seq<u8>) {
        lemma_parsed_u64(*self, rest);
    }

    fn decode(input: &[u8]) -> (res: Result<(u64, usize), Error>) {
        take_u64(input)
    }
}

impl Encodable for [u8; 32] {
    open spec fn encoding(&self) -> Seq<u8> {
        self@
    }

    fn encode(&self, out: &mut Vec<u8>) {
        put_fixed32(out, self);
    }
}

impl Decodable for [u8; 32] {
    open spec fn valid(&self) -> bool {
        true
    }

    open spec fn parsing(input: Seq<u8>) -> Option<(Seq<u8>, nat)> {
        parsed_fixed32(input)
    }

    proof fn lemma_round_trip(&self, rest: Seq<u8>) {
        lemma_parsed_fixed32(self@, rest);
    }

    fn decode(input: &[u8]) -> (res: Result<([u8; 32], usize), Error>) {
        take_fixed32(input)
    }
}

impl Encodable for Vec<u8> {
    open spec fn encoding(&self) -> Seq<u8> {
        encoded_blob(self@)
    }

    fn encode(&self, out: &mut Vec<u8>) {
        put_blob(out, self.as_slice());
    }
}

impl Decodable for Vec<u8> {
    open spec fn valid(&self) -> bool {
        self@.len() <= u64::MAX
    }

    open spec fn parsing(input: Seq<u8>) -> Option<(Seq<u8>, nat)> {
        parsed_blob(input)
    }

    proof fn lemma_round_trip(&self, rest: Seq<u8>) {
        lemma_parsed_blob(self@, rest);
    }

    fn decode(input: &[u8]) -> (res: Result<(Vec<u8>, usize), Error>) {
        take_blob(input)
    }
}

impl Encodable for String {
    open spec fn encoding(&self) -> Seq<u8> {
        encoded_text(self@)
    }

    fn encode(&self, out: &mut Vec<u8>) {
        put_text(out, self.as_str());
    }
}

impl Decodable for String {
    open spec fn valid(&self) -> bool {
        encode_utf8(self@).len() <= u64::MAX
    }

    open spec fn parsing(input: Seq<u8>) -> Option<(Seq<char>, nat)> {
        parsed_text(input)
    }

    proof fn lemma_round_trip(&self, rest: Seq<u8>) {
        lemma_parsed_text(self@, rest);
    }

    fn decode(input: &[u8]) -> (res: Result<(String, usize), Error>) {
        let res = take_text(input);
        let total: usize = input.len();
        proof {
            lemma_text_fits(input@);
        }
        res
    }
}

/// A text that was read from a buffer encodes to no more bytes than a
/// buffer can hold.
pub proof fn lemma_text_fits(input: Seq<u8>)
    requires
        input.len() <= usize::MAX,
    ensures
        parsed_text(input) matches Some((text, _)) ==> encode_utf8(text).len() <= u64::MAX,
{
    match parsed_blob(input) {
        Some((bytes, _)) => {
            if valid_utf8(bytes) {
                decode_utf8_encode_utf8(bytes);
            }
        },
        None => {},
    }
}

} // verus!
