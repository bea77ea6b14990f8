//! Encoding each frame kind to its canonical bytes.
use resp_kv::encode::EncodeResp;
use resp_kv::{
    RespArray, RespBooleans, RespBulkErrors, RespBulkString, RespDoubles, RespFrame, RespInteger,
    RespMaps, RespNull, RespNullArray, RespNullBulkString, RespSets, SimpleError, SimpleString,
};

#[test]
fn encode_simple_string_should_work() {
    let ss = SimpleString("OK".to_string());
    let frame: RespFrame = RespFrame::SimpleString(ss);
    assert_eq!(frame.encode(), b"+OK\r\n");
}

#[test]
fn encode_simple_error_should_work() {
    let se = SimpleError("Error".to_string());
    let frame: RespFrame = RespFrame::SimpleError(se);
    assert_eq!(frame.encode(), b"-Error\r\n");
}

#[test]
fn encode_integer_should_work() {
    let resp_integer = RespInteger(123);
    let frame: RespFrame = RespFrame::Integer(resp_integer);
    assert_eq!(frame.encode(), b":+123\r\n");

    let resp_integer = RespInteger(-123);
    let frame: RespFrame = RespFrame::Integer(resp_integer);
    assert_eq!(frame.encode(), b":-123\r\n");
}

#[test]
fn encode_bulk_string_should_work() {
    let bs = RespBulkString(b"aaa".to_vec());
    let frame: RespFrame = RespFrame::BulkString(bs);
    assert_eq!(frame.encode(), b"$3\r\naaa\r\n");

    let bs = RespBulkString(Vec::new());
    let frame: RespFrame = RespFrame::BulkString(bs);
    assert_eq!(frame.encode(), b"$0\r\n\r\n");
}

#[test]
fn encode_null_bulk_string_should_work() {
    let nbs = RespNullBulkString;
    let frame: RespFrame = RespFrame::NullBulkString(nbs);
    assert_eq!(frame.encode(), b"$-1\r\n");
}

#[test]
fn encode_resp_array_should_work() {
    let frame1 = RespFrame::BulkString(RespBulkString(b"set".to_vec()));
    let frame2 = RespFrame::BulkString(RespBulkString(b"hello".to_vec()));
    let frame3 = RespFrame::BulkString(RespBulkString(b"world".to_vec()));

    let resp_array = RespArray(vec![frame1, frame2, frame3]);
    let frame: RespFrame = RespFrame::Arrays(resp_array);

    assert_eq!(
        frame.encode(),
        b"*3\r\n$3\r\nset\r\n$5\r\nhello\r\n$5\r\nworld\r\n"
    );

    let frame1 = RespFrame::SimpleString(SimpleString("set".to_string()));
    let frame2 = RespFrame::SimpleString(SimpleString("hello".to_string()));
    let frame3 = RespFrame::SimpleString(SimpleString("world".to_string()));

    let resp_array = RespArray(vec![frame1, frame2, frame3]);
    let frame: RespFrame = RespFrame::Arrays(resp_array);

    assert_eq!(
        String::from_utf8_lossy(&frame.encode()),
        "*3\r\n+set\r\n+hello\r\n+world\r\n"
    );
}

#[test]
fn encode_resp_null_array_should_work() {
    let rna = RespNullArray;
    let frame: RespFrame = RespFrame::NullArray(rna);

    assert_eq!(frame.encode(), b"*-1\r\n");
}

#[test]
fn encode_resp_null_should_work() {
    let rn = RespNull;
    let frame: RespFrame = RespFrame::Null(rn);

    assert_eq!(frame.encode(), b"_\r\n");
}

#[test]
fn encode_resp_booleans_should_work() {
    let rbt = RespBooleans(true);
    let frame: RespFrame = RespFrame::Booleans(rbt);

    assert_eq!(frame.encode(), b"#t\r\n");

    let rbf = RespBooleans(false);
    let frame: RespFrame = RespFrame::Booleans(rbf);

    assert_eq!(frame.encode(), b"#f\r\n");
}

#[test]
fn encode_resp_doubles_should_work() {
    let resp_double1 = RespDoubles(format!("{}", 1.23f64));
    let frame: RespFrame = RespFrame::Doubles(resp_double1);
    assert_eq!(frame.encode(), b",1.23\r\n");

    let resp_double2 = RespDoubles(format!("{}", 1.23e11f64));
    let frame: RespFrame = RespFrame::Doubles(resp_double2);
    assert_eq!(frame.encode(), b",inf\r\n");

    let resp_double3 = RespDoubles(format!("{}", -1.23e11f64));
    let frame: RespFrame = RespFrame::Doubles(resp_double3);
    assert_eq!(frame.encode(), b",-inf\r\n");

    let resp_double4 = RespDoubles(format!("{}", f64::NAN));
    let frame: RespFrame = RespFrame::Doubles(resp_double4);
    assert_eq!(frame.encode(), b",nan\r\n");
}

#[test]
fn encode_resp_bulk_errors_should_work() {
    let rbe = RespBulkErrors(b"some error".to_vec());
    let frame: RespFrame = RespFrame::BulkErrors(rbe);

    assert_eq!(frame.encode(), b"!10\r\nsome error\r\n");
}

#[test]
fn encode_resp_maps_should_work() {
    let key1: String = "hello".into();
    let value1 = RespFrame::SimpleString(SimpleString("world".to_string()));
    let mut resp_map = RespMaps::new();
    resp_map.insert(key1, value1);
    let frame: RespFrame = RespFrame::Maps(resp_map);

    assert_eq!(frame.encode(), b"%1\r\n+hello\r\n+world\r\n");

    let key2 = "A".to_string();
    let value2 = RespFrame::Doubles(RespDoubles(format!("{}", 1.23f64)));
    let key3 = "B".to_string();
    let value3 = RespFrame::Doubles(RespDoubles(format!("{}", -1.23f64)));
    let mut resp_map = RespMaps::new();
    resp_map.insert(key2, value2);
    resp_map.insert(key3, value3);
    let frame: RespFrame = RespFrame::Maps(resp_map);

    assert_eq!(
        String::from_utf8_lossy(&frame.encode()),
        "%2\r\n+A\r\n,1.23\r\n+B\r\n,-1.23\r\n"
    );
}

#[test]
fn encode_resp_sets_should_work() {
    let element1 = RespFrame::SimpleString(SimpleString("element1".to_string()));
    let element2 = RespFrame::Integer(RespInteger(42));
    let resp_set = RespSets(vec![element1, element2]);
    let frame: RespFrame = RespFrame::Sets(resp_set);

    assert_eq!(
        String::from_utf8_lossy(&frame.encode()),
        "~2\r\n+element1\r\n:+42\r\n"
    );

    let element3 = RespFrame::Doubles(RespDoubles(format!("{}", 3.33f64)));
    let element4 = RespFrame::SimpleError(SimpleError("error".to_string()));
    let resp_set = RespSets(vec![element3, element4]);
    let frame: RespFrame = RespFrame::Sets(resp_set);

    assert_eq!(
        String::from_utf8_lossy(&frame.encode()),
        "~2\r\n,3.33\r\n-error\r\n"
    );
}
