use darkfi_wallet::error::Error;

#[test]
fn only_a_missing_path_is_fatal() {
    assert!(Error::PathNotFound.is_fatal());
    assert!(!Error::StorageError.is_fatal());
    assert!(!Error::DecodeError.is_fatal());
    assert!(!Error::CommitmentMismatch.is_fatal());
    assert!(!Error::InsufficientFunds.is_fatal());
    assert!(!Error::TreeFull.is_fatal());
}
