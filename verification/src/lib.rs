//! A key-value store that speaks RESP, the Redis wire protocol: a verified parser and
//! writer for RESP values, the SET options, and a storage that answers PING, ECHO, GET
//! and SET, with key lifetimes.

pub mod decimal;
pub mod text;
pub mod resp_result;
pub mod resp;
pub mod roundtrip;
pub mod storage_result;
pub mod set;
pub mod expiry_map;
pub mod storage;
pub mod server;
