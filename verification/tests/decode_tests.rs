//! Decoding each frame kind from raw buffers, including incomplete ones.
use bytes::{BufMut, BytesMut};

use resp_kv::{
    RespArray, RespBooleans, RespBulkErrors, RespBulkString, RespDoubles, RespError, RespFrame,
    RespInteger, RespMaps, RespNull, RespNullArray, RespNullBulkString, RespSets, SimpleError,
    SimpleString,
};

#[test]
fn test_decode_simple_string() {
    let mut bytes_mut = BytesMut::new();
    bytes_mut.extend_from_slice(b"+OK\r\n");

    let decoded = SimpleString::decode(&mut bytes_mut).unwrap();
    assert_eq!(decoded, SimpleString("OK".to_string()));

    bytes_mut.extend_from_slice(b"+hello\r");
    let decoded = SimpleString::decode(&mut bytes_mut);
    assert_eq!(decoded.unwrap_err(), RespError::NotComplete);

    bytes_mut.put_u8(b'\n');
    let decoded = SimpleString::decode(&mut bytes_mut).unwrap();
    assert_eq!(decoded, SimpleString("hello".to_string()));
}

#[test]
fn test_decode_simple_error() {
    let mut bytes_mut = BytesMut::from(&b"-error\r\n"[..]);
    let decoded = SimpleError::decode(&mut bytes_mut).unwrap();

    assert_eq!(decoded, SimpleError("error".to_string()));
}

#[test]
fn test_decode_integer() {
    let mut bytes_mut = BytesMut::from(&b":1024\r\n"[..]);
    let decoded = RespInteger::decode(&mut bytes_mut).unwrap();

    assert_eq!(decoded, RespInteger(1024));

    bytes_mut.extend_from_slice(b":-4096\r\n");
    let decoded = RespInteger::decode(&mut bytes_mut).unwrap();
    assert_eq!(decoded, RespInteger(-4096));
}

#[test]
fn test_decode_resp_bulk_string() {
    let mut bytes_mut = BytesMut::from(&b"$5\r\nhello\r\n"[..]);
    let decoded = RespBulkString::decode(&mut bytes_mut).unwrap();
    assert_eq!(decoded, RespBulkString(b"hello".to_vec()));

    bytes_mut.extend_from_slice(b"$5\r\nworld");
    let decoded = RespBulkString::decode(&mut bytes_mut);
    assert_eq!(decoded.unwrap_err(), RespError::NotComplete);

    bytes_mut.extend_from_slice(b"\r\n");
    let decoded = RespBulkString::decode(&mut bytes_mut).unwrap();
    assert_eq!(decoded, RespBulkString(b"world".to_vec()));
}

#[test]
fn test_decode_resp_null_bulk_string() {
    let mut bytes_mut = BytesMut::from(&b"$-1\r\n"[..]);
    let decoded = RespNullBulkString::decode(&mut bytes_mut).unwrap();

    assert_eq!(decoded, RespNullBulkString);
}

#[test]
fn test_resparray_decode() {
    let mut bytesmut = BytesMut::new();
    bytesmut.extend_from_slice(b"*2\r\n$3\r\nset\r\n$5\r\nhello\r\n");

    let resp_array = RespArray::decode(&mut bytesmut).unwrap();

    let frame1: RespFrame = RespFrame::BulkString(RespBulkString(b"set".to_vec()));
    let frame2: RespFrame = RespFrame::BulkString(RespBulkString(b"hello".to_vec()));

    let ra = RespArray(vec![frame1, frame2]);
    assert_eq!(resp_array, ra);
}

#[test]
fn test_decode_null_array() {
    let mut bytes_mut = BytesMut::from(&b"*-1\r\n"[..]);
    let decode = RespNullArray::decode(&mut bytes_mut).unwrap();

    assert_eq!(decode, RespNullArray);
}

#[test]
fn test_decode_resp_null() {
    let mut bytes_mut = BytesMut::from(&b"_\r\n"[..]);
    let decode = RespNull::decode(&mut bytes_mut).unwrap();

    assert_eq!(decode, RespNull);
}

#[test]
fn test_decode_boolean() {
    let mut bytes_mut = BytesMut::from(&b"#t\r\n"[..]);
    let decode = RespBooleans::decode(&mut bytes_mut).unwrap();
    assert_eq!(decode, RespBooleans(true));

    bytes_mut.extend_from_slice(b"#f\r\n");
    let decode = RespBooleans::decode(&mut bytes_mut).unwrap();
    assert_eq!(decode, RespBooleans(false));
}

#[test]
fn test_decode_double() {
    let mut bytes_mut = BytesMut::from(&b",33.44\r\n"[..]);
    let decode = RespDoubles::decode(&mut bytes_mut).unwrap();

    assert_eq!(decode, RespDoubles("33.44".to_string()));

    bytes_mut.extend_from_slice(b",-1.96\r\n");
    let decode = RespDoubles::decode(&mut bytes_mut).unwrap();
    assert_eq!(decode, RespDoubles("-1.96".to_string()));
}

#[test]
fn test_decode_bulk_errors() {
    let mut bytes_mut = BytesMut::from(&b"!21\r\nSYNTAX invalid syntax\r\n"[..]);
    let decoded = RespBulkErrors::decode(&mut bytes_mut).unwrap();
    assert_eq!(decoded, RespBulkErrors(b"SYNTAX invalid syntax".to_vec()));

    bytes_mut.extend_from_slice(b"!21\r\nSYNTAX ");
    let decoded = RespBulkErrors::decode(&mut bytes_mut);
    assert_eq!(decoded.unwrap_err(), RespError::NotComplete);

    bytes_mut.extend_from_slice(b"invalid syntax\r\n");
    let decoded = RespBulkErrors::decode(&mut bytes_mut).unwrap();
    assert_eq!(decoded, RespBulkErrors(b"SYNTAX invalid syntax".to_vec()));
}

#[test]
fn test_decode_resp_map() {
    let mut bytes_mut = BytesMut::from(&b"%2\r\n+first\r\n:1\r\n+second\r\n:2\r\n"[..]);
    let decoded = RespMaps::decode(&mut bytes_mut).unwrap();

    let key1 = "first";
    let value1: RespFrame = RespFrame::Integer(RespInteger(1));

    let key2 = "second";
    let value2: RespFrame = RespFrame::Integer(RespInteger(2));

    let mut map = RespMaps::new();
    map.insert(key1.into(), value1);
    map.insert(key2.into(), value2);

    assert_eq!(decoded, map);
}

#[test]
fn test_decode_resp_set() {
    let mut bytes_mut = BytesMut::from(&b"~2\r\n$3\r\nset\r\n$5\r\nhello\r\n"[..]);
    let decoded = RespSets::decode(&mut bytes_mut).unwrap();

    assert_eq!(
        decoded,
        RespSets(vec![
            RespFrame::BulkString(RespBulkString(b"set".to_vec())),
            RespFrame::BulkString(RespBulkString(b"hello".to_vec()))
        ])
    );
}

#[test]
fn test2() {
    let a = "1000".parse::<u8>().ok();
    println!("{a:?}");

    let option = Ok::<i32, String>(10).ok();
    println!("{option:?}");

    let ret = option.ok_or("value is None");
    println!("{ret:?}");

    let blank = Err::<i32, String>("an error occurred".into()).ok();
    println!("{blank:?}");
}
