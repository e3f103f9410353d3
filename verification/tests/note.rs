use darkfi_wallet::codec::{deserialize, serialize};
use darkfi_wallet::error::Error;
use darkfi_wallet::keys::{generate_from, Scalar};
use darkfi_wallet::note::{bytes_to_bits, Coin, Note, Nullifier, NOTE_BYTES};
use group::GroupEncoding;
use zcash_primitives::pedersen_hash::{pedersen_hash, Personalization};

fn small_scalar(value: u8) -> Scalar {
    let mut bytes = [0u8; 32];
    bytes[0] = value;
    Scalar::from_bytes(bytes).unwrap()
}

fn sample_note(value: u64) -> Note {
    Note {
        value,
        serial: small_scalar(11),
        coin_blind: small_scalar(12),
        valcom_blind: small_scalar(13),
        recipient: generate_from(&[1u8; 64]).0,
    }
}

#[test]
fn bits_come_least_significant_first() {
    assert_eq!(
        bytes_to_bits(&[1]),
        vec![true, false, false, false, false, false, false, false]
    );
    assert_eq!(
        bytes_to_bits(&[0x80, 0x03]),
        vec![
            false, false, false, false, false, false, false, true, true, true, false, false,
            false, false, false, false
        ]
    );
    assert!(bytes_to_bits(&[]).is_empty());
}

#[test]
fn note_encoding_lays_out_its_fields() {
    let note = sample_note(10);
    let bytes = note.to_bytes();
    assert_eq!(bytes.len(), NOTE_BYTES);
    assert_eq!(bytes.len(), 136);
    assert_eq!(&bytes[..8], &[10, 0, 0, 0, 0, 0, 0, 0]);
    assert_eq!(&bytes[8..40], &note.serial.to_bytes());
    assert_eq!(&bytes[40..72], &note.coin_blind.to_bytes());
    assert_eq!(&bytes[72..104], &note.valcom_blind.to_bytes());
    assert_eq!(&bytes[104..136], &note.recipient.point);
    assert_eq!(serialize(&note), bytes);
}

#[test]
fn note_round_trip() {
    let note = sample_note(u64::MAX);
    let back: Note = deserialize(&serialize(&note)).unwrap();
    assert_eq!(back.value, note.value);
    assert!(back.serial.same(&note.serial));
    assert!(back.coin_blind.same(&note.coin_blind));
    assert!(back.valcom_blind.same(&note.valcom_blind));
    assert!(back.recipient.same(&note.recipient));
}

#[test]
fn note_decode_refuses_malformed_bytes() {
    let bytes = serialize(&sample_note(1));
    assert_eq!(deserialize::<Note>(&bytes[..135]).err(), Some(Error::DecodeError));
    let mut longer = bytes.clone();
    longer.push(0);
    assert_eq!(deserialize::<Note>(&longer).err(), Some(Error::DecodeError));
    for start in [8usize, 40, 72] {
        let mut broken = bytes.clone();
        for byte in broken[start..start + 32].iter_mut() {
            *byte = 0xff;
        }
        assert_eq!(deserialize::<Note>(&broken).err(), Some(Error::DecodeError));
    }
    let mut any_point = bytes.clone();
    for byte in any_point[104..136].iter_mut() {
        *byte = 0xff;
    }
    assert!(deserialize::<Note>(&any_point).is_ok());
}

#[test]
fn commitment_is_the_pedersen_hash_of_the_encoding() {
    let note = sample_note(10);
    let bytes = note.to_bytes();
    let bits = bytes_to_bits(&bytes);
    assert_eq!(bits.len(), 1088);
    let expected = pedersen_hash(Personalization::NoteCommitment, bits.into_iter()).to_bytes();
    let coin = note.commit();
    assert_eq!(coin.repr, expected);
    assert_ne!(coin.repr.to_vec(), bytes[..32].to_vec());
}

#[test]
fn commitment_changes_with_every_field() {
    let note = sample_note(10);
    let coin = note.commit();
    assert!(coin.same(&sample_note(10).commit()));
    assert!(!coin.same(&sample_note(11).commit()));
    let mut other = sample_note(10);
    other.serial = small_scalar(99);
    assert!(!coin.same(&other.commit()));
    let mut other = sample_note(10);
    other.coin_blind = small_scalar(99);
    assert!(!coin.same(&other.commit()));
    let mut other = sample_note(10);
    other.valcom_blind = small_scalar(99);
    assert!(!coin.same(&other.commit()));
    let mut other = sample_note(10);
    other.recipient = generate_from(&[2u8; 64]).0;
    assert!(!coin.same(&other.commit()));
}

#[test]
fn coin_and_nullifier_round_trip() {
    let coin = Coin { repr: [5u8; 32] };
    let back: Coin = deserialize(&serialize(&coin)).unwrap();
    assert!(back.same(&coin));
    assert_eq!(deserialize::<Coin>(&[5u8; 30]).err(), Some(Error::DecodeError));
    let nullifier = Nullifier { repr: [6u8; 32] };
    let back: Nullifier = deserialize(&serialize(&nullifier)).unwrap();
    assert!(back.same(&nullifier));
    assert!(!back.same(&Nullifier { repr: [7u8; 32] }));
    assert_eq!(deserialize::<Nullifier>(&[5u8; 33]).err(), Some(Error::DecodeError));
}

#[test]
fn nullifier_is_the_personalized_hash_of_key_and_serial() {
    let key = generate_from(&[1u8; 64]).1;
    let note = sample_note(10);
    let nullifier = darkfi_wallet::note::derive_nullifier(&key, &note);
    let expected = blake2s_simd::Params::new()
        .hash_length(32)
        .personal(b"Zcash_nf")
        .to_state()
        .update(&key.secret.to_bytes())
        .update(&note.serial.to_bytes())
        .finalize();
    assert_eq!(&nullifier.repr[..], expected.as_bytes());
    assert_ne!(nullifier.repr, key.secret.to_bytes());
    let other = generate_from(&[2u8; 64]).1;
    assert!(!nullifier.same(&darkfi_wallet::note::derive_nullifier(&other, &note)));
    let mut changed = note;
    changed.serial = small_scalar(77);
    assert!(!nullifier.same(&darkfi_wallet::note::derive_nullifier(&key, &changed)));
    changed = note;
    changed.value = 999;
    assert!(nullifier.same(&darkfi_wallet::note::derive_nullifier(&key, &changed)));
}
