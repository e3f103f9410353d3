use darkfi_wallet::codec::{deserialize, serialize};
use darkfi_wallet::error::Error;
use darkfi_wallet::keys::{
    generate, generate_from, generate_with, is_canonical, PublicKey, Scalar, SpendingKey,
};
use darkfi_wallet::primitives::SCALAR_MODULUS_BYTES;
use group::GroupEncoding;

fn small_scalar(value: u8) -> Scalar {
    let mut bytes = [0u8; 32];
    bytes[0] = value;
    Scalar::from_bytes(bytes).unwrap()
}

#[test]
fn zero_seed_gives_zero_scalar_and_identity_point() {
    let (public, secret) = generate_from(&[0u8; 64]);
    assert_eq!(secret.secret.to_bytes(), [0u8; 32]);
    let mut identity = [0u8; 32];
    identity[0] = 1;
    assert_eq!(public.point, identity);
}

#[test]
fn seed_is_reduced_by_the_subgroup_order() {
    let mut seed = [0u8; 64];
    seed[..32].copy_from_slice(&SCALAR_MODULUS_BYTES);
    let (_, secret) = generate_from(&seed);
    assert_eq!(secret.secret.to_bytes(), [0u8; 32]);
    seed[0] += 5;
    let (_, secret) = generate_from(&seed);
    assert_eq!(secret.secret.to_bytes(), small_scalar(5).to_bytes());
}

#[test]
fn seed_matches_the_field_library() {
    let mut seed = [0u8; 64];
    for (i, byte) in seed.iter_mut().enumerate() {
        *byte = (i * 7 + 3) as u8;
    }
    let (public, secret) = generate_from(&seed);
    let element = jubjub::Fr::from_bytes_wide(&seed);
    assert_eq!(secret.secret.to_bytes(), element.to_bytes());
    let point = zcash_primitives::constants::SPENDING_KEY_GENERATOR * element;
    assert_eq!(public.point, point.to_bytes());
    assert_ne!(public.point, secret.secret.to_bytes());
}

#[test]
fn public_key_is_generator_times_secret() {
    let key = SpendingKey { secret: small_scalar(1) };
    let public = key.public_key();
    assert_eq!(public.point, zcash_primitives::constants::SPENDING_KEY_GENERATOR.to_bytes());
    let key = SpendingKey { secret: small_scalar(2) };
    let twice = zcash_primitives::constants::SPENDING_KEY_GENERATOR
        + zcash_primitives::constants::SPENDING_KEY_GENERATOR;
    assert_eq!(key.public_key().point, twice.to_bytes());
}

#[test]
fn modulus_is_not_canonical() {
    assert!(!is_canonical(&SCALAR_MODULUS_BYTES));
    let mut below = SCALAR_MODULUS_BYTES;
    below[0] -= 1;
    assert!(is_canonical(&below));
    let mut above = SCALAR_MODULUS_BYTES;
    above[0] += 1;
    assert!(!is_canonical(&above));
    assert!(!is_canonical(&[0xff; 32]));
    assert!(is_canonical(&[0u8; 32]));
    assert!(Scalar::from_bytes(SCALAR_MODULUS_BYTES).is_none());
    assert_eq!(Scalar::from_bytes(below).unwrap().to_bytes(), below);
}

#[test]
fn canonical_check_agrees_with_the_field_library() {
    let mut bytes = [0u8; 32];
    for round in 0..200u32 {
        for (i, byte) in bytes.iter_mut().enumerate() {
            *byte = (round.wrapping_mul(2654435761).wrapping_add(i as u32 * 40503) >> 7) as u8;
        }
        if round % 2 == 0 {
            bytes[31] &= 0x0f;
        }
        let expected: bool = jubjub::Fr::from_bytes(&bytes).is_some().into();
        assert_eq!(is_canonical(&bytes), expected);
    }
}

#[test]
fn modulus_bytes_are_the_field_modulus() {
    let mut last = SCALAR_MODULUS_BYTES;
    last[0] -= 1;
    let minus_one = jubjub::Fr::from_bytes(&last).unwrap();
    assert_eq!(minus_one + jubjub::Fr::one(), jubjub::Fr::zero());
}

#[test]
fn generate_twice_gives_different_keys() {
    let first = generate().unwrap();
    let second = generate().unwrap();
    assert!(!first.1.secret.same(&second.1.secret));
    assert!(!first.0.same(&second.0));
    assert_eq!(first.0.point, first.1.public_key().point);
}

#[test]
fn no_randomness_gives_no_keys() {
    assert!(generate_with(None).is_none());
    let pair = generate_with(Some([9u8; 64])).unwrap();
    let again = generate_from(&[9u8; 64]);
    assert!(pair.1.secret.same(&again.1.secret));
    assert!(pair.0.same(&again.0));
}

#[test]
fn scalar_encoding_is_its_32_bytes() {
    let scalar = small_scalar(7);
    let bytes = serialize(&scalar);
    assert_eq!(bytes.len(), 32);
    assert_eq!(bytes[0], 7);
    let back: Scalar = deserialize(&bytes).unwrap();
    assert!(back.same(&scalar));
}

#[test]
fn scalar_decode_refuses_wrong_width_and_large_numbers() {
    assert_eq!(deserialize::<Scalar>(&[0u8; 31]).err(), Some(Error::DecodeError));
    assert_eq!(deserialize::<Scalar>(&[0u8; 33]).err(), Some(Error::DecodeError));
    assert_eq!(deserialize::<Scalar>(&SCALAR_MODULUS_BYTES).err(), Some(Error::DecodeError));
    assert_eq!(deserialize::<SpendingKey>(&[0xffu8; 32]).err(), Some(Error::DecodeError));
    assert!(deserialize::<SpendingKey>(&[0u8; 32]).is_ok());
}

#[test]
fn public_key_round_trip() {
    let (public, _) = generate_from(&[3u8; 64]);
    let bytes = serialize(&public);
    assert_eq!(bytes, public.point.to_vec());
    let back: PublicKey = deserialize(&bytes).unwrap();
    assert!(back.same(&public));
    assert_eq!(deserialize::<PublicKey>(&bytes[..31]).err(), Some(Error::DecodeError));
}
