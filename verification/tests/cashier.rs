use darkfi_wallet::cashier::CashierKeyRegistry;
use darkfi_wallet::error::Error;
use darkfi_wallet::keys::PublicKey;

#[test]
fn registry_starts_empty() {
    let registry = CashierKeyRegistry::new();
    assert_eq!(registry.len(), 0);
    assert!(registry.all().is_empty());
    assert!(!registry.contains(&PublicKey { point: [1u8; 32] }));
}

#[test]
fn registry_keeps_order_and_repeats() {
    let mut registry = CashierKeyRegistry::new();
    let first = PublicKey { point: [1u8; 32] };
    let second = PublicKey { point: [2u8; 32] };
    registry.register(first);
    registry.register(second);
    registry.register(first);
    assert_eq!(registry.len(), 3);
    let all = registry.all();
    assert_eq!(all.len(), 3);
    assert!(all[0].same(&first));
    assert!(all[1].same(&second));
    assert!(all[2].same(&first));
    assert!(registry.contains(&second));
    assert!(!registry.contains(&PublicKey { point: [3u8; 32] }));
}

#[test]
fn registry_from_a_column_of_encoded_keys() {
    let column = vec![vec![1u8; 32], vec![2u8; 32], vec![1u8; 32]];
    let registry = CashierKeyRegistry::from_column(&column).unwrap();
    assert_eq!(registry.len(), 3);
    assert_eq!(registry.all()[1].point, [2u8; 32]);
    assert!(registry.contains(&PublicKey { point: [1u8; 32] }));
    assert_eq!(CashierKeyRegistry::from_column(&vec![]).unwrap().len(), 0);
    let broken = vec![vec![1u8; 32], vec![2u8; 31]];
    assert_eq!(CashierKeyRegistry::from_column(&broken).err(), Some(Error::DecodeError));
}
