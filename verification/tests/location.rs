use darkfi_wallet::location::is_file_name;

#[test]
fn plain_names_are_file_names() {
    assert!(is_file_name("wallet.db"));
    assert!(is_file_name("database_client.db"));
    assert!(is_file_name("..."));
    assert!(is_file_name(".hidden"));
    assert!(is_file_name("a..b"));
    assert!(is_file_name("кошелёк"));
}

#[test]
fn names_that_leave_the_directory_are_refused() {
    assert!(!is_file_name(""));
    assert!(!is_file_name("."));
    assert!(!is_file_name(".."));
    assert!(!is_file_name("/etc/passwd"));
    assert!(!is_file_name("../wallet.db"));
    assert!(!is_file_name("dir/wallet.db"));
    assert!(!is_file_name("dir\\wallet.db"));
    assert!(!is_file_name("wallet.db/"));
}
