use darkfi_wallet::error::Error;
use darkfi_wallet::keys::PublicKey;
use darkfi_wallet::store::{copy_bytes, decode_all, same_bytes, CoinRow, RowStore};

fn coin_row(key_id: u64) -> CoinRow {
    CoinRow {
        coin: vec![1],
        serial: vec![2],
        value: vec![3],
        coin_blind: vec![4],
        valcom_blind: vec![5],
        witness: vec![6],
        key_id,
    }
}

#[test]
fn rows_come_back_in_insertion_order() {
    let mut store = RowStore::new();
    assert_eq!(store.insert_key(vec![1], vec![10]), Ok(1));
    assert_eq!(store.insert_key(vec![2], vec![20]), Ok(2));
    assert_eq!(store.insert_key(vec![1], vec![10]), Ok(3));
    assert_eq!(store.select_all_public_keys(), vec![vec![1], vec![2], vec![1]]);
    assert_eq!(store.select_all_private_keys(), vec![vec![10], vec![20], vec![10]]);
    assert!(store.select_all_cashier_keys().is_empty());
    assert_eq!(store.insert_cashier_key(vec![7]), Ok(1));
    assert_eq!(store.insert_cashier_key(vec![8]), Ok(2));
    assert_eq!(store.select_all_cashier_keys(), vec![vec![7], vec![8]]);
    assert_eq!(store.select_all_public_keys().len(), 3);
}

#[test]
fn opening_twice_changes_nothing() {
    let mut store = RowStore::open_or_create(None);
    assert!(store.select_all_public_keys().is_empty());
    store.insert_key(vec![1], vec![10]).unwrap();
    let store = RowStore::open_or_create(Some(store));
    assert_eq!(store.select_all_public_keys(), vec![vec![1]]);
    let store = RowStore::open_or_create(Some(store));
    assert_eq!(store.select_all_public_keys(), vec![vec![1]]);
    assert_eq!(store.select_all_private_keys(), vec![vec![10]]);
}

#[test]
fn coin_row_must_name_a_key_row() {
    let mut store = RowStore::new();
    assert_eq!(store.insert_coin(coin_row(1)), Err(Error::StorageError));
    assert_eq!(store.insert_coin(coin_row(0)), Err(Error::StorageError));
    assert_eq!(store.coin_count(), 0);
    store.insert_key(vec![1], vec![10]).unwrap();
    assert_eq!(store.insert_coin(coin_row(0)), Err(Error::StorageError));
    assert_eq!(store.insert_coin(coin_row(2)), Err(Error::StorageError));
    assert_eq!(store.insert_coin(coin_row(1)), Ok(()));
    assert_eq!(store.coin_count(), 1);
    assert_eq!(store.coin_row(0).unwrap().witness, vec![6]);
    assert!(store.coin_row(1).is_none());
}

#[test]
fn owner_is_the_oldest_row_with_the_key() {
    let mut store = RowStore::new();
    assert_eq!(store.find_owner(&[10]), None);
    store.insert_key(vec![1], vec![10]).unwrap();
    store.insert_key(vec![2], vec![20]).unwrap();
    store.insert_key(vec![3], vec![20]).unwrap();
    assert_eq!(store.find_owner(&[10]), Some(1));
    assert_eq!(store.find_owner(&[20]), Some(2));
    assert_eq!(store.find_owner(&[30]), None);
    assert_eq!(store.find_owner(&[]), None);
}

#[test]
fn column_decodes_in_order_or_not_at_all() {
    let column = vec![vec![1u8; 32], vec![2u8; 32]];
    let keys: Vec<PublicKey> = decode_all(&column).unwrap();
    assert_eq!(keys.len(), 2);
    assert_eq!(keys[0].point, [1u8; 32]);
    assert_eq!(keys[1].point, [2u8; 32]);
    let column = vec![vec![1u8; 32], vec![2u8; 31]];
    assert_eq!(decode_all::<PublicKey>(&column).err(), Some(Error::DecodeError));
    assert_eq!(decode_all::<u64>(&vec![]), Ok(vec![]));
}

#[test]
fn byte_helpers() {
    assert!(same_bytes(&[1, 2], &[1, 2]));
    assert!(!same_bytes(&[1, 2], &[1, 3]));
    assert!(!same_bytes(&[1, 2], &[1]));
    assert!(same_bytes(&[], &[]));
    assert_eq!(copy_bytes(&[4, 5, 6]), vec![4, 5, 6]);
}

#[test]
fn key_rows_are_found_by_id() {
    let mut store = RowStore::new();
    assert!(store.key_row(0).is_none());
    assert!(store.key_row(1).is_none());
    store.insert_key(vec![1], vec![10]).unwrap();
    store.insert_key(vec![2], vec![20]).unwrap();
    assert!(store.key_row(0).is_none());
    assert_eq!(store.key_row(1).unwrap().key_public, vec![1]);
    assert_eq!(store.key_row(2).unwrap().key_private, vec![20]);
    assert_eq!(store.key_row(2).unwrap().key_id, 2);
    assert!(store.key_row(3).is_none());
}
