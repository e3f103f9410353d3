use darkfi_wallet::codec::{deserialize, serialize};
use darkfi_wallet::error::Error;
use darkfi_wallet::keys::{generate_from, Scalar, SpendingKey};
use darkfi_wallet::merkle::MerkleWitness;
use darkfi_wallet::note::{Note, Nullifier};
use darkfi_wallet::walletdb::WalletDB;

fn small_scalar(value: u8) -> Scalar {
    let mut bytes = [0u8; 32];
    bytes[0] = value;
    Scalar::from_bytes(bytes).unwrap()
}

fn note_of(value: u64) -> Note {
    Note {
        value,
        serial: small_scalar(1),
        coin_blind: small_scalar(2),
        valcom_blind: small_scalar(3),
        recipient: generate_from(&[7u8; 64]).0,
    }
}

#[test]
fn new_wallet_has_no_rows_and_no_notes() {
    let mut wallet = WalletDB::new(&[7u8; 64]);
    assert_eq!(wallet.get_public().unwrap().len(), 0);
    assert_eq!(wallet.get_private().unwrap().len(), 0);
    assert_eq!(wallet.get_cashier_public().unwrap().len(), 0);
    assert_eq!(wallet.put_own_coins(), Ok(()));
    assert_eq!(wallet.own_coin_count(), 0);
    assert!(wallet.own_coin(0).is_none());
    assert!(wallet.coin_row(0).is_none());
    assert_eq!(wallet.select_spendable(1), Err(Error::InsufficientFunds));
}

#[test]
fn wallet_from_operating_system_randomness() {
    let wallet = WalletDB::create().unwrap();
    assert_eq!(wallet.own_coin_count(), 0);
    assert_eq!(wallet.get_public().unwrap().len(), 0);
    assert_eq!(wallet.get_private().unwrap().len(), 0);
    assert_eq!(wallet.get_cashier_public().unwrap().len(), 0);
    assert!(wallet.coin_row(0).is_none());
    assert_eq!(wallet.root(), WalletDB::new(&[0u8; 64]).root());
    assert!(WalletDB::new_with(None).is_none());
    assert!(WalletDB::new_with(Some([1u8; 64])).is_some());
}

#[test]
fn key_gen_gives_encoded_pair() {
    let wallet = WalletDB::new(&[7u8; 64]);
    let (pubkey, privkey) = wallet.key_gen_from(&[5u8; 64]);
    assert_eq!(pubkey.len(), 32);
    assert_eq!(privkey.len(), 32);
    let (public, secret) = generate_from(&[5u8; 64]);
    assert_eq!(pubkey, public.point.to_vec());
    assert_eq!(privkey, secret.secret.to_bytes().to_vec());
    assert!(wallet.key_gen_with(None).is_none());
    assert_eq!(wallet.key_gen_with(Some([5u8; 64])), Some((pubkey, privkey)));
}

#[test]
fn key_gen_twice_gives_different_keys() {
    let wallet = WalletDB::new(&[7u8; 64]);
    let first = wallet.key_gen().unwrap();
    let second = wallet.key_gen().unwrap();
    assert_ne!(first.1, second.1);
    assert_ne!(first.0, second.0);
    let secret: SpendingKey = deserialize(&first.1).unwrap();
    assert_eq!(secret.public_key().point.to_vec(), first.0);
}

#[test]
fn two_persisted_keys_are_listed_in_call_order() {
    let mut wallet = WalletDB::new(&[7u8; 64]);
    let first = wallet.key_gen_from(&[1u8; 64]);
    let second = wallet.key_gen_from(&[2u8; 64]);
    assert_eq!(wallet.put_keypair(first.0.clone(), first.1.clone()), Ok(()));
    assert_eq!(wallet.put_keypair(second.0.clone(), second.1.clone()), Ok(()));
    let public = wallet.get_public().unwrap();
    assert_eq!(public.len(), 2);
    assert_eq!(public[0].point.to_vec(), first.0);
    assert_eq!(public[1].point.to_vec(), second.0);
    let private = wallet.get_private().unwrap();
    assert_eq!(private.len(), 2);
    assert_eq!(private[0].secret.to_bytes().to_vec(), first.1);
    assert_eq!(private[1].secret.to_bytes().to_vec(), second.1);
}

#[test]
fn same_key_persisted_twice_is_listed_twice() {
    let mut wallet = WalletDB::new(&[7u8; 64]);
    let pair = wallet.key_gen_from(&[1u8; 64]);
    wallet.put_keypair(pair.0.clone(), pair.1.clone()).unwrap();
    wallet.put_keypair(pair.0.clone(), pair.1.clone()).unwrap();
    assert_eq!(wallet.get_public().unwrap().len(), 2);
}

#[test]
fn malformed_key_rows_fail_to_list() {
    let mut wallet = WalletDB::new(&[7u8; 64]);
    wallet.put_keypair(vec![1, 2, 3], vec![0u8; 32]).unwrap();
    assert_eq!(wallet.get_public().err(), Some(Error::DecodeError));
    assert_eq!(wallet.get_private().unwrap().len(), 1);
    let mut wallet = WalletDB::new(&[7u8; 64]);
    wallet.put_keypair(vec![0u8; 32], vec![0xff; 32]).unwrap();
    assert_eq!(wallet.get_private().err(), Some(Error::DecodeError));
    assert_eq!(wallet.get_public().unwrap().len(), 1);
}

#[test]
fn cashier_keys_are_listed_in_call_order_with_repeats() {
    let mut wallet = WalletDB::new(&[7u8; 64]);
    let first = generate_from(&[1u8; 64]).0;
    let second = generate_from(&[2u8; 64]).0;
    wallet.put_cashier_pub(serialize(&first)).unwrap();
    wallet.put_cashier_pub(serialize(&second)).unwrap();
    wallet.put_cashier_pub(serialize(&first)).unwrap();
    let registry = wallet.get_cashier_public().unwrap();
    assert_eq!(registry.len(), 3);
    assert!(registry.contains(&first));
    assert!(registry.contains(&second));
    assert!(!registry.contains(&generate_from(&[3u8; 64]).0));
    let listed = registry.all();
    assert!(listed[0].same(&first));
    assert!(listed[1].same(&second));
    assert!(listed[2].same(&first));
    assert_eq!(wallet.get_public().unwrap().len(), 0);
    wallet.put_cashier_pub(vec![1]).unwrap();
    assert_eq!(wallet.get_cashier_public().err(), Some(Error::DecodeError));
}

#[test]
fn values_are_serialized_and_back() {
    let wallet = WalletDB::new(&[7u8; 64]);
    assert_eq!(wallet.get_value_serialized(&10u64), vec![10, 0, 0, 0, 0, 0, 0, 0]);
    assert_eq!(wallet.get_value_deserialized::<u64>(vec![10, 0, 0, 0, 0, 0, 0, 0]), Ok(10));
    assert_eq!(wallet.get_value_deserialized::<u64>(vec![10]), Err(Error::DecodeError));
    let note = note_of(3);
    let bytes = wallet.get_value_serialized(&note);
    let back: Note = wallet.get_value_deserialized(bytes).unwrap();
    assert_eq!(back.value, 3);
}

#[test]
fn end_to_end() {
    let mut wallet = WalletDB::new(&[7u8; 64]);
    let (pubkey, privkey) = wallet.key_gen().unwrap();
    assert_eq!(wallet.put_keypair(pubkey.clone(), privkey), Ok(()));
    let listed = wallet.get_public().unwrap();
    assert_eq!(listed.len(), 1);
    assert_eq!(listed[0].point.to_vec(), pubkey);
    let note = note_of(10);
    assert_eq!(wallet.record(note, note.commit()), Ok(0));
    assert_eq!(wallet.select_spendable(5), Ok(vec![0]));
    let chosen = wallet.own_coin(0).unwrap();
    assert_eq!(chosen.note.value, 10);
    assert!(chosen.coin.same(&note.commit()));
    assert_eq!(wallet.select_spendable(15), Err(Error::InsufficientFunds));
    assert!(wallet.own_coin_verifies(0));
}

#[test]
fn record_refuses_a_mismatched_coin() {
    let mut wallet = WalletDB::new(&[7u8; 64]);
    let note = note_of(10);
    assert_eq!(wallet.record(note_of(11), note.commit()), Err(Error::CommitmentMismatch));
    assert_eq!(wallet.own_coin_count(), 0);
    assert_eq!(wallet.record(note, note.commit()), Ok(0));
    let owner = wallet.own_coin(0).unwrap().secret;
    assert!(owner.secret.same(&generate_from(&[7u8; 64]).1.secret));
}

#[test]
fn wallet_tracks_witnesses_and_retires_entries() {
    let mut wallet = WalletDB::new(&[7u8; 64]);
    let note = note_of(10);
    wallet.record(note, note.commit()).unwrap();
    assert_eq!(wallet.observe_append([3u8; 32]), Ok(()));
    assert!(wallet.own_coin_verifies(0));
    let witness = &wallet.own_coin(0).unwrap().witness;
    assert!(witness.verifies(&note.commit().repr, &wallet.root()));
    assert!(wallet.mark_spent(0, Nullifier { repr: [4u8; 32] }));
    assert!(!wallet.mark_spent(0, Nullifier { repr: [5u8; 32] }));
    assert_eq!(wallet.select_spendable(1), Err(Error::InsufficientFunds));
    assert_eq!(wallet.own_coin_count(), 1);
}

#[test]
fn coin_row_needs_the_owner_key_row() {
    let mut wallet = WalletDB::new(&[7u8; 64]);
    assert_eq!(wallet.put_own_coins(), Ok(()));
    let note = note_of(10);
    wallet.record(note, note.commit()).unwrap();
    assert_eq!(wallet.put_own_coins(), Err(Error::StorageError));
    assert!(wallet.coin_row(0).is_none());
    let other = wallet.key_gen_from(&[1u8; 64]);
    wallet.put_keypair(other.0, other.1).unwrap();
    assert_eq!(wallet.put_own_coins(), Err(Error::StorageError));
    let own = wallet.key_gen_from(&[7u8; 64]);
    wallet.put_keypair(own.0, own.1).unwrap();
    assert_eq!(wallet.put_own_coins(), Ok(()));
    let row = wallet.coin_row(0).unwrap();
    assert_eq!(row.key_id, 2);
    assert_eq!(row.coin, note.commit().repr.to_vec());
    assert_eq!(row.serial, note.serial.to_bytes().to_vec());
    assert_eq!(row.value, vec![10, 0, 0, 0, 0, 0, 0, 0]);
    assert_eq!(row.coin_blind, note.coin_blind.to_bytes().to_vec());
    assert_eq!(row.valcom_blind, note.valcom_blind.to_bytes().to_vec());
    let witness: MerkleWitness = deserialize(&row.witness).unwrap();
    assert_eq!(witness.position, 0);
    assert!(witness.verifies(&note.commit().repr, &wallet.root()));
    assert!(wallet.coin_row(1).is_none());
    assert_eq!(wallet.put_own_coins(), Ok(()));
    assert!(wallet.coin_row(1).is_none());
}

#[test]
fn coin_rows_follow_the_entries_in_order() {
    let mut wallet = WalletDB::new(&[7u8; 64]);
    let own = wallet.key_gen_from(&[7u8; 64]);
    wallet.put_keypair(own.0, own.1).unwrap();
    let first = note_of(10);
    let second = note_of(20);
    wallet.record(first, first.commit()).unwrap();
    wallet.record(second, second.commit()).unwrap();
    assert_eq!(wallet.put_own_coins(), Ok(()));
    assert_eq!(wallet.put_own_coins(), Ok(()));
    assert_eq!(wallet.put_own_coins(), Ok(()));
    assert_eq!(wallet.coin_row(0).unwrap().coin, first.commit().repr.to_vec());
    assert_eq!(wallet.coin_row(1).unwrap().coin, second.commit().repr.to_vec());
    assert_eq!(wallet.coin_row(1).unwrap().key_id, 1);
    assert!(wallet.coin_row(2).is_none());
}

#[test]
fn own_keypair_is_the_creation_pair() {
    let mut wallet = WalletDB::new(&[7u8; 64]);
    let (public, secret) = generate_from(&[7u8; 64]);
    let own = wallet.own_keypair();
    assert_eq!(own.0, public.point.to_vec());
    assert_eq!(own.1, secret.secret.to_bytes().to_vec());
    assert_eq!(wallet.unwritten_own_keypair(), Some(own.clone()));
    let other = wallet.key_gen_from(&[1u8; 64]);
    wallet.put_keypair(other.0, other.1).unwrap();
    assert_eq!(wallet.unwritten_own_keypair(), Some(own.clone()));
    wallet.put_keypair(own.0.clone(), own.1.clone()).unwrap();
    assert_eq!(wallet.unwritten_own_keypair(), None);
    assert_eq!(wallet.own_keypair(), own);
}

#[test]
fn first_coin_row_is_written_after_the_own_key_row() {
    let mut wallet = WalletDB::create().unwrap();
    let pair = wallet.unwritten_own_keypair().unwrap();
    wallet.put_keypair(pair.0, pair.1).unwrap();
    let note = note_of(10);
    wallet.record(note, note.commit()).unwrap();
    assert_eq!(wallet.put_own_coins(), Ok(()));
    assert_eq!(wallet.coin_row(0).unwrap().key_id, 1);
}

fn own_note(wallet: &WalletDB, value: u64) -> Note {
    let mut point = [0u8; 32];
    point.copy_from_slice(&wallet.own_keypair().0);
    let mut note = note_of(value);
    note.recipient = darkfi_wallet::keys::PublicKey { point };
    note
}

#[test]
fn stored_coin_reads_the_row_back() {
    let mut wallet = WalletDB::new(&[7u8; 64]);
    let own = wallet.own_keypair();
    wallet.put_keypair(own.0, own.1.clone()).unwrap();
    let note = own_note(&wallet, 10);
    wallet.record(note, note.commit()).unwrap();
    wallet.observe_append([3u8; 32]).unwrap();
    wallet.put_own_coins().unwrap();
    let entry = wallet.stored_coin(0).unwrap();
    let held = wallet.own_coin(0).unwrap();
    assert!(entry.coin.same(&held.coin));
    assert_eq!(entry.note.value, 10);
    assert!(entry.note.serial.same(&note.serial));
    assert!(entry.note.coin_blind.same(&note.coin_blind));
    assert!(entry.note.valcom_blind.same(&note.valcom_blind));
    assert!(entry.note.recipient.same(&note.recipient));
    assert_eq!(entry.secret.secret.to_bytes().to_vec(), own.1);
    assert_eq!(entry.witness.position, held.witness.position);
    assert_eq!(entry.witness.siblings, held.witness.siblings);
    assert!(entry.spent.is_none());
    assert!(entry.witness.verifies(&entry.coin.repr, &wallet.root()));
    assert_eq!(wallet.stored_coin(1).err(), Some(Error::StorageError));
}

#[test]
fn stored_coin_of_a_note_for_someone_else_is_refused() {
    let mut wallet = WalletDB::new(&[7u8; 64]);
    let own = wallet.own_keypair();
    wallet.put_keypair(own.0, own.1).unwrap();
    let mut note = note_of(10);
    note.recipient = generate_from(&[9u8; 64]).0;
    wallet.record(note, note.commit()).unwrap();
    wallet.put_own_coins().unwrap();
    assert_eq!(wallet.stored_coin(0).err(), Some(Error::CommitmentMismatch));
}

#[test]
fn entry_from_row_refuses_malformed_columns() {
    let mut wallet = WalletDB::new(&[7u8; 64]);
    let own = wallet.own_keypair();
    wallet.put_keypair(own.0, own.1).unwrap();
    let note = own_note(&wallet, 10);
    wallet.record(note, note.commit()).unwrap();
    wallet.put_own_coins().unwrap();
    let row = wallet.coin_row(0).unwrap();
    let secret = generate_from(&[7u8; 64]).1;
    let build = |change: usize| darkfi_wallet::store::CoinRow {
        coin: if change == 1 { vec![1] } else { row.coin.clone() },
        serial: if change == 2 { vec![0xff; 32] } else { row.serial.clone() },
        value: if change == 3 { vec![1, 2] } else { row.value.clone() },
        coin_blind: if change == 4 { vec![] } else { row.coin_blind.clone() },
        valcom_blind: if change == 5 { vec![0; 33] } else { row.valcom_blind.clone() },
        witness: if change == 6 { vec![0; 15] } else { row.witness.clone() },
        key_id: 1,
    };
    let read = |change: usize| {
        darkfi_wallet::walletdb::entry_from_row(&build(change), secret, note.recipient)
    };
    assert!(read(0).is_ok());
    for change in 1..=6 {
        assert_eq!(read(change).err(), Some(Error::DecodeError));
    }
    let mut other = build(0);
    other.value = vec![11, 0, 0, 0, 0, 0, 0, 0];
    assert_eq!(
        darkfi_wallet::walletdb::entry_from_row(&other, secret, note.recipient).err(),
        Some(Error::CommitmentMismatch)
    );
}
