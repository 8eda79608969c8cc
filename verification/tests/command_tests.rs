use resp_kv::resp::RESP;
use resp_kv::server::request_is_complete;
use resp_kv::set::{parse_set_arguments, parse_set_option, KeyExistence, KeyExpiry, SetArgs};
use resp_kv::storage::{check_command_complete, Storage};
use resp_kv::storage_result::StorageError;

fn words(ws: &[&str]) -> Vec<String> {
    ws.iter().map(|w| String::from(*w)).collect()
}

#[test]
fn run_command_takes_the_lowercase_name() {
    let mut storage = Storage::new();
    let name = String::from("set");
    assert_eq!(
        storage.run_command_at(&name, &words(&["WhatEver", "k", "v"]), 5),
        Ok(RESP::SimpleString(String::from("OK")))
    );
    assert_eq!(
        storage.run_command_at(&String::from("get"), &words(&["x", "k"]), 6),
        Ok(RESP::BulkString(String::from("v")))
    );
    assert_eq!(
        storage.run_command_at(&String::from("echo"), &words(&["ECHO", "hi"]), 6),
        Ok(RESP::BulkString(String::from("hi")))
    );
    assert_eq!(
        storage.run_command_at(&String::from("ping"), &words(&["PING"]), 6),
        Ok(RESP::SimpleString(String::from("PONG")))
    );
    // The name is compared as given: an uppercase name is no command.
    assert_eq!(
        storage.run_command_at(&String::from("GET"), &words(&["GET", "k"]), 6),
        Err(StorageError::CommandNotAvailable(String::from("GET")))
    );
    assert_eq!(
        storage.run_command_at(&String::from("get"), &words(&["GET", "k", "extra"]), 6),
        Err(StorageError::CommandSyntaxError(String::from("GET k extra")))
    );
}

#[test]
fn set_then_get_through_commands() {
    let mut storage = Storage::new();
    storage.process_command(&words(&["set", "other", "o"])).unwrap();
    assert_eq!(
        storage.process_command(&words(&["SET", "k", "v"])),
        Ok(RESP::SimpleString(String::from("OK")))
    );
    assert_eq!(
        storage.process_command(&words(&["get", "k"])),
        Ok(RESP::BulkString(String::from("v")))
    );
    assert_eq!(
        storage.process_command(&words(&["GeT", "other"])),
        Ok(RESP::BulkString(String::from("o")))
    );
    assert_eq!(storage.store.len(), 2);
}

#[test]
fn completeness_of_commands() {
    assert!(!check_command_complete(&words(&[])));
    assert!(!check_command_complete(&words(&["ECHO"])));
    assert!(!check_command_complete(&words(&["echo"])));
    assert!(check_command_complete(&words(&["Echo", "x"])));
    assert!(check_command_complete(&words(&["PING"])));
    assert!(check_command_complete(&words(&["get"])));
    assert!(check_command_complete(&words(&["unknown"])));
}

#[test]
fn completeness_of_requests() {
    assert!(request_is_complete(&RESP::Null));
    assert!(!request_is_complete(&RESP::Array(vec![])));
    assert!(!request_is_complete(&RESP::Array(vec![RESP::BulkString(String::from("eChO"))])));
    assert!(request_is_complete(&RESP::Array(vec![
        RESP::BulkString(String::from("ECHO")),
        RESP::BulkString(String::from("x")),
    ])));
    assert!(request_is_complete(&RESP::Array(vec![RESP::SimpleString(String::from("ECHO"))])));
}

#[test]
fn one_set_option_at_a_time() {
    let arguments = words(&["EX", "10", "NX"]);
    let (next, args) = parse_set_option(&String::from("ex"), &arguments, 0, SetArgs::new()).unwrap();
    assert_eq!(next, 2);
    assert_eq!(args.expiry, Some(KeyExpiry::EX(10)));
    let (next, args) = parse_set_option(&String::from("nx"), &arguments, next, args).unwrap();
    assert_eq!(next, 3);
    assert_eq!(args.existence, Some(KeyExistence::NX));
    assert!(parse_set_option(&String::from("xx"), &arguments, 2, args).is_none());
    assert!(parse_set_option(&String::from("ex"), &words(&["EX"]), 0, SetArgs::new()).is_none());
    assert!(parse_set_option(&String::from("keepttl"), &words(&["KEEPTTL"]), 0, SetArgs::new()).is_none());
    let (next, args) = parse_set_option(&String::from("get"), &words(&["GET"]), 0, SetArgs::new()).unwrap();
    assert_eq!(next, 1);
    assert!(args.get);
}

#[test]
fn set_options_in_any_case_read_alike() {
    let upper = words(&["EX", "7", "XX", "GET"]);
    let lower = words(&["ex", "7", "xx", "get"]);
    let mixed = words(&["Ex", "7", "xX", "gEt"]);
    assert_eq!(parse_set_arguments(&upper), parse_set_arguments(&lower));
    assert_eq!(parse_set_arguments(&mixed), parse_set_arguments(&lower));
    let expected = SetArgs { expiry: Some(KeyExpiry::EX(7)), existence: Some(KeyExistence::XX), get: true };
    assert_eq!(parse_set_arguments(&lower), Ok(expected));
    assert!(parse_set_arguments(&words(&["NX", "xx"])).is_err());
    assert!(parse_set_arguments(&words(&["nx", "xx"])).is_err());
}
