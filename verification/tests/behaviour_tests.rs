use resp_kv::decimal::{parse_integer, signed_decimal_bytes};
use resp_kv::resp::{bytes_to_resp, bytes_to_resp_checked, resp_extract_length, RESP};
use resp_kv::resp_result::RESPError;
use resp_kv::server::process_request;
use resp_kv::set::{parse_set_arguments, KeyExpiry, SetArgs};
use resp_kv::storage::{Storage, StorageData};
use resp_kv::storage_result::StorageError;
use resp_kv::text::{decimal_string, join_with_spaces, same_text, unsigned_decimal_string};

fn words(ws: &[&str]) -> Vec<String> {
    ws.iter().map(|w| String::from(*w)).collect()
}

#[test]
fn encoding_of_each_kind() {
    assert_eq!(RESP::SimpleString(String::from("OK")).to_bytes(), b"+OK\r\n".to_vec());
    assert_eq!(RESP::BulkString(String::from("héllo")).to_bytes(), "$6\r\nhéllo\r\n".as_bytes().to_vec());
    assert_eq!(RESP::Null.to_bytes(), b"$-1\r\n".to_vec());
    assert_eq!(RESP::Array(vec![]).to_bytes(), b"*0\r\n".to_vec());
    assert_eq!(
        RESP::Array(vec![RESP::SimpleString(String::from("a")), RESP::Null]).to_bytes(),
        b"*2\r\n+a\r\n$-1\r\n".to_vec()
    );
}

#[test]
fn reading_back_what_was_written() {
    let value = RESP::Array(vec![
        RESP::BulkString(String::from("SET")),
        RESP::Array(vec![RESP::SimpleString(String::from("inner")), RESP::Null]),
        RESP::BulkString(String::from("ünïcödé\r\n")),
        RESP::Array(vec![]),
    ]);
    let mut buffer = b"xx".to_vec();
    buffer.extend(value.to_bytes());
    buffer.extend(b"tail");
    let mut index: usize = 2;
    let parsed = bytes_to_resp(&buffer, &mut index).unwrap();
    assert_eq!(parsed, value);
    assert_eq!(index, buffer.len() - 4);
}

#[test]
fn truncated_array_has_no_result() {
    let buffer = b"*2\r\n+OK\r\n";
    let mut index: usize = 0;
    assert_eq!(bytes_to_resp_checked(buffer, &mut index), None);
    let mut index: usize = 5;
    assert_eq!(bytes_to_resp_checked(&buffer[..4], &mut index), None);
    let mut index: usize = 0;
    assert_eq!(
        bytes_to_resp_checked(b"*1\r\n+OK\r\n", &mut index),
        Some(Ok(RESP::Array(vec![RESP::SimpleString(String::from("OK"))])))
    );
    assert_eq!(index, 9);
}

#[test]
fn element_errors_stop_an_array() {
    let mut index: usize = 0;
    assert_eq!(bytes_to_resp(b"*2\r\n+OK\r\n?x\r\n", &mut index), Err(RESPError::Unknown));
    assert_eq!(index, 9);
}

#[test]
fn bulk_string_with_invalid_utf8() {
    let buffer: Vec<u8> = vec![b'$', b'2', b'\r', b'\n', 0xFF, 0xFE, b'\r', b'\n'];
    let mut index: usize = 0;
    assert_eq!(bytes_to_resp(&buffer, &mut index), Err(RESPError::FromUtf8));
    assert_eq!(index, 6);
}

#[test]
fn lengths_read_as_rust_reads_i32() {
    let cases: Vec<(&[u8], Result<i32, RESPError>, usize)> = vec![
        (b"+12\r\n", Ok(12), 5),
        (b"0007\r\n", Ok(7), 6),
        (b"-2147483648\r\n", Ok(-2147483648), 13),
        (b"2147483648\r\n", Err(RESPError::ParseInt), 12),
        (b"-\r\n", Err(RESPError::ParseInt), 3),
        (b"\r\n", Err(RESPError::ParseInt), 2),
        (b"1a\r\n", Err(RESPError::ParseInt), 4),
    ];
    for (buffer, expected, end) in cases {
        let mut index: usize = 0;
        assert_eq!(resp_extract_length(buffer, &mut index), expected);
        assert_eq!(index, end);
    }
}

#[test]
fn integers_read_in_range() {
    assert_eq!(parse_integer("+5", 0, u64::MAX as i128), Some(5));
    assert_eq!(parse_integer("-5", 0, u64::MAX as i128), None);
    assert_eq!(parse_integer("18446744073709551615", 0, u64::MAX as i128), Some(u64::MAX as i128));
    assert_eq!(parse_integer("18446744073709551616", 0, u64::MAX as i128), None);
    assert_eq!(parse_integer("99999999999999999999999999", 0, u64::MAX as i128), None);
    assert_eq!(parse_integer("-0", -10, 10), Some(0));
    assert_eq!(parse_integer("", -10, 10), None);
}

#[test]
fn decimal_text() {
    assert_eq!(signed_decimal_bytes(-120), b"-120".to_vec());
    assert_eq!(signed_decimal_bytes(i64::MIN), b"-9223372036854775808".to_vec());
    assert_eq!(decimal_string(0), String::from("0"));
    assert_eq!(unsigned_decimal_string(u64::MAX), String::from("18446744073709551615"));
}

#[test]
fn error_messages() {
    assert_eq!(RESPError::OutOfBounds(7).message(), String::from("Out of bounds at index 7"));
    assert_eq!(RESPError::IncorrectLength(-7).message(), String::from("Incorrect length -7"));
    assert_eq!(RESPError::FromUtf8.message(), String::from("Cannot convert from UTF-8"));
    assert_eq!(RESPError::WrongType.message(), String::from("Wrong prefix for RESP type"));
    assert_eq!(RESPError::Unknown.message(), String::from("Unknown formate for RESP stirng"));
    assert_eq!(RESPError::ParseInt.message(), String::from("Cannot parse string into integer"));
    assert_eq!(
        StorageError::IncorrectRequest.message(),
        String::from("The client sent an incorrect request!")
    );
    assert_eq!(
        StorageError::CommandNotAvailable(String::from("FOO")).message(),
        String::from("The request command FOO is not available!")
    );
    assert_eq!(
        StorageError::CommandInternalError(String::from("get a")).message(),
        String::from("Internal error while processing get a!")
    );
    assert_eq!(
        StorageError::CommandSyntaxError(String::from("get")).message(),
        String::from("Syntax error while processing get!")
    );
}

#[test]
fn command_names_ignore_case() {
    let mut storage = Storage::new();
    assert_eq!(
        storage.process_command(&words(&["PiNg"])),
        Ok(RESP::SimpleString(String::from("PONG")))
    );
    assert_eq!(
        storage.process_command(&words(&["EcHo", "hello"])),
        Ok(RESP::BulkString(String::from("hello")))
    );
    assert_eq!(
        storage.process_command(&words(&["SeT", "k", "v"])),
        Ok(RESP::SimpleString(String::from("OK")))
    );
    assert_eq!(
        storage.process_command(&words(&["GET", "k"])),
        Ok(RESP::BulkString(String::from("v")))
    );
}

#[test]
fn command_errors() {
    let mut storage = Storage::new();
    assert_eq!(
        storage.process_command_at(&words(&["Foo", "bar"]), 10),
        Err(StorageError::CommandNotAvailable(String::from("Foo")))
    );
    assert_eq!(
        storage.process_command_at(&words(&["GET", "a", "b"]), 10),
        Err(StorageError::CommandSyntaxError(String::from("GET a b")))
    );
    assert_eq!(
        storage.process_command_at(&words(&["GET"]), 10),
        Err(StorageError::CommandSyntaxError(String::from("GET")))
    );
    assert_eq!(
        storage.process_command_at(&words(&["SET", "k"]), 10),
        Err(StorageError::CommandSyntaxError(String::from("SET k")))
    );
    assert_eq!(
        storage.process_command_at(&words(&["SET", "k", "v", "NX", "XX"]), 10),
        Err(StorageError::CommandSyntaxError(String::from("NX XX")))
    );
    assert_eq!(storage.store.len(), 0);
    assert_eq!(
        storage.process_command_at(&words(&["get", "missing"]), 10),
        Ok(RESP::Null)
    );
}

#[test]
fn lifetimes_end_at_their_deadline() {
    let mut storage = Storage::new();
    let t0: i128 = 1_000_000_000_000;
    assert_eq!(
        storage.process_command_at(&words(&["set", "k", "v", "EX", "2"]), t0),
        Ok(RESP::SimpleString(String::from("OK")))
    );
    assert_eq!(storage.expiry.get("k"), Some(t0 + 2_000_000_000));
    assert_eq!(storage.store.get("k").unwrap().expiry, Some(2_000_000_000));
    assert_eq!(storage.get_at(String::from("k"), t0 + 1_999_999_999), Ok(Some(String::from("v"))));
    assert_eq!(storage.store.len(), 1);
    assert_eq!(storage.get_at(String::from("k"), t0 + 2_000_000_000), Ok(None));
    assert_eq!(storage.store.len(), 0);
    assert_eq!(storage.expiry.len(), 0);

    storage.set_at(String::from("p"), String::from("w"), SetArgs { expiry: Some(KeyExpiry::PX(5)), existence: None, get: false }, t0).unwrap();
    assert_eq!(storage.expiry.get("p"), Some(t0 + 5_000_000));
}

#[test]
fn expiring_keys_at_an_instant() {
    let mut storage = Storage::new();
    storage.set_at(String::from("a"), String::from("1"), SetArgs::new(), 0).unwrap();
    storage.set_at(String::from("b"), String::from("2"), SetArgs::new(), 0).unwrap();
    storage.set_at(String::from("c"), String::from("3"), SetArgs::new(), 0).unwrap();
    storage.expiry.insert(String::from("a"), 100);
    storage.expiry.insert(String::from("b"), 200);
    storage.expire_keys_at(200);
    assert!(storage.store.get("a").is_none());
    assert!(storage.store.get("b").is_some());
    assert!(storage.store.get("c").is_some());
    assert_eq!(storage.expiry.get("a"), None);
    assert_eq!(storage.expiry.get("b"), Some(200));
    assert_eq!(storage.expiry.len(), 1);
}

#[test]
fn earlier_deadline_stays_after_plain_set() {
    let mut storage = Storage::new();
    storage.process_command_at(&words(&["SET", "k", "v", "PX", "1"]), 0).unwrap();
    storage.process_command_at(&words(&["SET", "k", "w"]), 0).unwrap();
    assert_eq!(storage.expiry.get("k"), Some(1_000_000));
    assert_eq!(storage.process_command_at(&words(&["GET", "k"]), 1_000_000), Ok(RESP::Null));
}

#[test]
fn stored_values_compare_by_text_and_lifetime() {
    let a = StorageData::created_at(String::from("x"), 1);
    let b = StorageData::created_at(String::from("x"), 2);
    assert_eq!(a, b);
    let mut c = StorageData::created_at(String::from("x"), 1);
    c.add_expiry(5);
    assert_ne!(a, c);
    assert_ne!(a, StorageData::created_at(String::from("y"), 1));
}

#[test]
fn set_options_combine() {
    let args = parse_set_arguments(&words(&["ex", "10", "Get", "EX", "20", "nx", "NX"])).unwrap();
    assert_eq!(args.expiry, Some(KeyExpiry::EX(20)));
    assert!(args.get);
    assert_eq!(
        parse_set_arguments(&words(&["PX", "1", "EX", "x"])),
        Err(StorageError::CommandSyntaxError(String::from("PX 1 EX x")))
    );
    assert_eq!(
        parse_set_arguments(&words(&["KEEPTTL"])),
        Err(StorageError::CommandSyntaxError(String::from("KEEPTTL")))
    );
    assert_eq!(parse_set_arguments(&words(&[])), Ok(SetArgs::new()));
}

#[test]
fn requests_of_other_shapes_are_refused() {
    let mut storage = Storage::new();
    assert_eq!(process_request(RESP::Null, &mut storage), Err(StorageError::IncorrectRequest));
    let request = RESP::Array(vec![
        RESP::BulkString(String::from("SET")),
        RESP::BulkString(String::from("k")),
        RESP::Null,
    ]);
    assert_eq!(process_request(request, &mut storage), Err(StorageError::IncorrectRequest));
    assert_eq!(storage.store.len(), 0);
}

#[test]
fn text_helpers() {
    assert_eq!(join_with_spaces(&words(&["a", "b", "c"])), String::from("a b c"));
    assert_eq!(join_with_spaces(&words(&[])), String::new());
    assert!(same_text(&String::from("ok"), "ok"));
    assert!(!same_text(&String::from("ok"), "OK"));
}
