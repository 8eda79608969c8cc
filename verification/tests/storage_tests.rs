use resp_kv::resp::RESP;
use resp_kv::set::SetArgs;
use resp_kv::storage::{Storage, StorageData};
use std::time::{SystemTime, UNIX_EPOCH};

fn now_nanos() -> i128 {
    SystemTime::now().duration_since(UNIX_EPOCH).unwrap().as_nanos() as i128
}

#[test]
fn test_create_new() {
    let storage: Storage = Storage::new();

    assert_eq!(storage.store.len(), 0);
    assert_eq!(storage.expiry.len(), 0);
    assert_eq!(storage.expiry.get("akey"), None);
    assert!(storage.active_expiry);
}

#[test]
fn test_command_ping() {
    let command = vec![String::from("ping")];
    let storage: Storage = Storage::new();
    let output = storage.command_ping(&command).unwrap();
    assert_eq!(output, RESP::SimpleString(String::from("PONG")));
}

#[test]
fn test_command_ping_uppercase() {
    let command = vec![String::from("PING")];
    let storage: Storage = Storage::new();
    let output = storage.command_ping(&command).unwrap();
    assert_eq!(output, RESP::SimpleString(String::from("PONG")));
}

#[test]
fn test_command_echo() {
    let command = vec![String::from("echo"), String::from("42")];
    let storage: Storage = Storage::new();
    let output = storage.command_echo(&command).unwrap();
    assert_eq!(output, RESP::BulkString(String::from("42")));
}

#[test]
fn test_set_value() {
    let mut storage: Storage = Storage::new();

    let avalue = StorageData::created_at(String::from("avalue"), now_nanos());
    let output = storage
        .set(String::from("akey"), String::from("avalue"), SetArgs::new())
        .unwrap();
    assert_eq!(output, String::from("OK"));
    assert_eq!(storage.store.len(), 1);
    match storage.store.get("akey") {
        Some(value) => assert_eq!(value, &avalue),
        None => panic!(),
    }
}

#[test]
fn test_get_value() {
    let mut storage: Storage = Storage::new();
    storage.store.insert(
        String::from("akey"),
        StorageData::created_at(String::from("avalue"), now_nanos()),
    );

    let result = storage.get(String::from("akey")).unwrap();

    assert_eq!(storage.store.len(), 1);
    assert_eq!(result, Some(String::from("avalue")));
}

#[test]
fn test_get_value_key_does_not_exist() {
    let mut storage = Storage::new();

    let result = storage.get(String::from("akey")).unwrap();

    assert_eq!(storage.store.len(), 0);
    assert_eq!(result, None);
}

#[test]
fn test_process_command_set() {
    let mut storage = Storage::new();
    let command = vec![
        String::from("set"),
        String::from("key"),
        String::from("value"),
    ];

    let output = storage.process_command(&command).unwrap();

    assert_eq!(output, RESP::SimpleString(String::from("OK")));
    assert_eq!(storage.store.len(), 1);
}

#[test]
fn test_process_command_get() {
    let mut storage = Storage::new();
    storage.store.insert(
        String::from("akey"),
        StorageData::created_at(String::from("avalue"), now_nanos()),
    );

    let command = vec![String::from("get"), String::from("akey")];

    let output = storage.process_command(&command).unwrap();

    assert_eq!(output, RESP::BulkString(String::from("avalue")));
    assert_eq!(storage.store.len(), 1);
}

#[test]
fn test_expires_keys() {
    let mut storage: Storage = Storage::new();

    storage
        .set(String::from("akey"), String::from("avalue"), SetArgs::new())
        .unwrap();

    storage
        .expiry
        .insert(String::from("akey"), now_nanos() - 5_000_000_000);

    storage.expire_keys();
    assert_eq!(storage.store.len(), 0);
}

#[test]
fn test_expire_keys_deactivated() {
    let mut storage: Storage = Storage::new();
    storage.active_expiry = false;

    storage
        .set(String::from("akey"), String::from("avalue"), SetArgs::new())
        .unwrap();

    storage
        .expiry
        .insert(String::from("akey"), now_nanos() - 5_000_000_000);

    storage.expire_keys();
    assert_eq!(storage.store.len(), 1);
}
