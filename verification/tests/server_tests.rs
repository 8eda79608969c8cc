use resp_kv::resp::RESP;
use resp_kv::server::process_request;
use resp_kv::storage::Storage;
use resp_kv::storage_result::StorageError;

#[test]
fn test_process_request_ping() {
    let request = RESP::Array(vec![RESP::BulkString(String::from("PING"))]);
    let mut storage = Storage::new();

    let output = process_request(request, &mut storage).unwrap();

    assert_eq!(output, RESP::SimpleString(String::from("PONG")));
}

#[test]
fn test_process_request_not_array() {
    let request = RESP::BulkString(String::from("PING"));
    let mut storage = Storage::new();

    let error = process_request(request, &mut storage).unwrap_err();

    assert_eq!(error, StorageError::IncorrectRequest);
}

#[test]
fn test_process_request_not_bulkstrings() {
    let request = RESP::Array(vec![RESP::SimpleString(String::from("PING"))]);
    let mut storage = Storage::new();

    let error = process_request(request, &mut storage).unwrap_err();
    assert_eq!(error, StorageError::IncorrectRequest);
}

#[test]
fn test_process_request_echo() {
    let request = RESP::Array(vec![
        RESP::BulkString(String::from("ECHO")),
        RESP::BulkString(String::from("42")),
    ]);

    let mut storage = Storage::new();

    let outptut = process_request(request, &mut storage).unwrap();

    assert_eq!(outptut, RESP::BulkString(String::from("42")));
}
