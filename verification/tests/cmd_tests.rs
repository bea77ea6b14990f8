//! The command layer: validated conversions from array frames, and
//! execution against the backend store.
use bytes::BytesMut;

use resp_kv::cmd::{CommandExecutor, Get, HGet, HGetAll, HSet, SetCmd};
use resp_kv::store::Backend;
use resp_kv::{RespArray, RespBulkString, RespFrame, RespNull};

#[test]
fn test_hget() {
    let mut bytes_mut = BytesMut::from(&b"*3\r\n$4\r\nhget\r\n$6\r\ntable1\r\n$4\r\nkey1\r\n"[..]);
    let frame = RespArray::decode(&mut bytes_mut).unwrap();
    println!("frame:{frame:?}");
    let hget = HGet::try_from(frame).unwrap();
    println!("hget:{:?}", hget);
    assert_eq!(hget.table_name, "table1");
    assert_eq!(hget.key, "key1");
}

#[test]
fn test_hset() {
    let mut bytes_mut =
        BytesMut::from(&b"*4\r\n$4\r\nhset\r\n$6\r\ntable1\r\n$3\r\nkey\r\n$5\r\nvalue\r\n"[..]);
    let resp_array = RespArray::decode(&mut bytes_mut).unwrap();
    let hset = HSet::try_from(resp_array).unwrap();

    assert_eq!(hset.table_name, "table1");
    assert_eq!(hset.key, "key");
    assert_eq!(
        hset.value,
        RespFrame::BulkString(RespBulkString(b"value".to_vec()))
    );
}

#[test]
fn test_hgetall() {
    let mut bytes_mut = BytesMut::from(&b"*2\r\n$7\r\nhgetall\r\n$4\r\nmap1\r\n"[..]);
    let resp_array = RespArray::decode(&mut bytes_mut).unwrap();

    let hgetall = HGetAll::try_from(resp_array).unwrap();
    assert_eq!(hgetall.table_name, "map1");
}

#[test]
fn test_get_from_resp_array() {
    let mut bytes = BytesMut::new();
    bytes.extend_from_slice(b"*2\r\n$3\r\nget\r\n$5\r\nhello\r\n");

    let frame = RespArray::decode(&mut bytes).unwrap();

    let get = Get::try_from(frame).unwrap();
    assert_eq!(get, Get::new("hello".into()));
}

#[test]
fn test_set_from_resp_array() {
    let mut bytes_mut = BytesMut::from(&b"*3\r\n$3\r\nset\r\n$5\r\nhello\r\n$5\r\nworld\r\n"[..]);
    let frame = RespArray::decode(&mut bytes_mut).unwrap();

    let key = "hello".into();
    let value = RespBulkString(b"world".to_vec());
    let set = SetCmd::new(key, RespFrame::BulkString(value));

    assert_eq!(SetCmd::try_from(frame).unwrap(), set);
}

#[test]
fn hset_value_may_be_any_frame_kind() {
    let mut bytes_mut = BytesMut::from(&b"*4\r\n$4\r\nhset\r\n$2\r\nt1\r\n$1\r\nk\r\n:5\r\n"[..]);
    let resp_array = RespArray::decode(&mut bytes_mut).unwrap();
    let hset = HSet::try_from(resp_array).unwrap();

    assert_eq!(hset.table_name, "t1");
    assert_eq!(hset.key, "k");
    assert_eq!(hset.value, RespFrame::Integer(resp_kv::RespInteger(5)));

    let mut backend = Backend::new();
    hset.execute(&mut backend);
    let got = HGet::new("t1".into(), "k".into()).execute(&mut backend);
    assert_eq!(got, RespFrame::Integer(resp_kv::RespInteger(5)));
}

#[test]
fn test_set_get_cmd_execute() {
    let mut backend = Backend::new();
    let set_cmd = SetCmd::new(
        "hello".into(),
        RespFrame::BulkString(RespBulkString(b"world".to_vec())),
    );
    let resp = set_cmd.execute(&mut backend);
    assert_eq!(resp, resp_kv::cmd::resp_ok());

    let get_cmd = Get::new("hello".into());
    let resp = get_cmd.execute(&mut backend);
    assert_eq!(resp, RespFrame::BulkString(RespBulkString(b"world".to_vec())));

    let get_cmd = Get::new("AAA".into());
    let resp = get_cmd.execute(&mut backend);
    assert_eq!(resp, RespFrame::Null(RespNull));
}
