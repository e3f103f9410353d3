use darkfi_wallet::codec::{deserialize, serialize};
use darkfi_wallet::config::{take_texts, ClientCliConfig, DarkfidCliConfig, DrkCliConfig};
use darkfi_wallet::error::Error;

#[test]
fn client_defaults() {
    let config = DrkCliConfig::default();
    assert_eq!(config.rpc_url, "http://127.0.0.1:8000");
    assert_eq!(config.log_path, "/tmp/drk_cli.log");
}

#[test]
fn daemon_defaults_hold_the_given_database_path() {
    let place = String::from("/home/user/.config/darkfi/database_client.db");
    let config = DarkfidCliConfig::default_at(place.clone());
    assert_eq!(config.connect_url, "127.0.0.1:3333");
    assert_eq!(config.subscriber_url, "127.0.0.1:4444");
    assert_eq!(config.rpc_url, "127.0.0.1:8000");
    assert_eq!(config.database_path, place);
    assert_ne!(config.database_path, "database_client.db");
    assert_eq!(config.log_path, "/tmp/darkfid_service_daemon.log");
    assert_eq!(config.password, "");
    assert_eq!(DarkfidCliConfig::database_file_name(), "database_client.db");
    assert_eq!(DarkfidCliConfig::default_at(String::from("x")).database_path, "x");
}

#[test]
fn client_encoding_is_its_texts_in_order() {
    let config = DrkCliConfig { rpc_url: String::from("ab"), log_path: String::from("c") };
    assert_eq!(
        serialize(&config),
        vec![2, 0, 0, 0, 0, 0, 0, 0, b'a', b'b', 1, 0, 0, 0, 0, 0, 0, 0, b'c']
    );
    assert_eq!(config.save(), serialize(&config));
}

#[test]
fn client_round_trip() {
    let config = DrkCliConfig {
        rpc_url: String::from("http://example.org:1234"),
        log_path: String::from("/var/log/кошелёк.log"),
    };
    let back: DrkCliConfig = deserialize(&serialize(&config)).unwrap();
    assert_eq!(back.rpc_url, config.rpc_url);
    assert_eq!(back.log_path, config.log_path);
}

#[test]
fn daemon_round_trip() {
    let config = DarkfidCliConfig {
        connect_url: String::from("a"),
        subscriber_url: String::from("bb"),
        rpc_url: String::from("ccc"),
        database_path: String::from("dddd"),
        log_path: String::from(""),
        password: String::from("пароль"),
    };
    let bytes = config.save();
    assert_eq!(bytes.len(), 6 * 8 + 1 + 2 + 3 + 4 + 12);
    let back = DarkfidCliConfig::load(&bytes, daemon_at_home()).unwrap();
    assert_eq!(back.connect_url, "a");
    assert_eq!(back.subscriber_url, "bb");
    assert_eq!(back.rpc_url, "ccc");
    assert_eq!(back.database_path, "dddd");
    assert_eq!(back.log_path, "");
    assert_eq!(back.password, "пароль");
}

fn daemon_at_home() -> DarkfidCliConfig {
    DarkfidCliConfig::default_at(String::from("/home/user/.config/darkfi/database_client.db"))
}

#[test]
fn empty_file_stands_for_the_fallback() {
    let config = DrkCliConfig::load(&[], DrkCliConfig::default()).unwrap();
    assert_eq!(config.rpc_url, "http://127.0.0.1:8000");
    assert_eq!(config.log_path, "/tmp/drk_cli.log");
    let other = DrkCliConfig { rpc_url: String::from("a"), log_path: String::from("b") };
    let config = DrkCliConfig::load(&[], other).unwrap();
    assert_eq!(config.rpc_url, "a");
    assert_eq!(config.log_path, "b");
    let config = DarkfidCliConfig::load(&[], daemon_at_home()).unwrap();
    assert_eq!(config.connect_url, "127.0.0.1:3333");
    assert_eq!(config.database_path, "/home/user/.config/darkfi/database_client.db");
    assert_eq!(config.password, "");
}

#[test]
fn saved_settings_load_back_whatever_the_fallback() {
    let bytes = DrkCliConfig::default().save();
    let other = DrkCliConfig { rpc_url: String::from("a"), log_path: String::from("b") };
    let config = DrkCliConfig::load(&bytes, other).unwrap();
    assert_eq!(config.rpc_url, "http://127.0.0.1:8000");
    assert_eq!(config.log_path, "/tmp/drk_cli.log");
    let bytes = daemon_at_home().save();
    let config =
        DarkfidCliConfig::load(&bytes, DarkfidCliConfig::default_at(String::new())).unwrap();
    assert_eq!(config.log_path, "/tmp/darkfid_service_daemon.log");
    assert_eq!(config.database_path, "/home/user/.config/darkfi/database_client.db");
    let blank = DrkCliConfig { rpc_url: String::new(), log_path: String::new() };
    let bytes = blank.save();
    assert_eq!(bytes, vec![0u8; 16]);
    let config = DrkCliConfig::load(&bytes, DrkCliConfig::default()).unwrap();
    assert_eq!(config.rpc_url, "");
    assert_eq!(config.log_path, "");
}

#[test]
fn malformed_files_are_refused() {
    let bytes = DrkCliConfig::default().save();
    let load = |contents: &[u8]| DrkCliConfig::load(contents, DrkCliConfig::default()).err();
    assert_eq!(load(&bytes[..bytes.len() - 1]), Some(Error::DecodeError));
    assert_eq!(load(&bytes[..5]), Some(Error::DecodeError));
    let mut longer = bytes.clone();
    longer.push(0);
    assert_eq!(load(&longer), Some(Error::DecodeError));
    assert_eq!(
        DarkfidCliConfig::load(&bytes, daemon_at_home()).err(),
        Some(Error::DecodeError)
    );
    let mut broken = bytes.clone();
    broken[8] = 0xff;
    assert_eq!(load(&broken), Some(Error::DecodeError));
    let daemon = daemon_at_home().save();
    assert_eq!(load(&daemon), Some(Error::DecodeError));
}

#[test]
fn texts_are_read_one_after_the_other() {
    let bytes = vec![1, 0, 0, 0, 0, 0, 0, 0, b'x', 0, 0, 0, 0, 0, 0, 0, 0, 9];
    assert_eq!(take_texts(&bytes, 0), Ok((vec![], 0)));
    assert_eq!(take_texts(&bytes, 1), Ok((vec![String::from("x")], 9)));
    assert_eq!(take_texts(&bytes, 2), Ok((vec![String::from("x"), String::new()], 17)));
    assert_eq!(take_texts(&bytes, 3), Err(Error::DecodeError));
}
