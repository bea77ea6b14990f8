//! Round trips, incremental feeding, length calculation, error variants,
//! the double collapse threshold and the ordering of map keys.
use bytes::BytesMut;

use resp_kv::cmd::{Command, CommandExecutor, HGet, HSet};
use resp_kv::encode::EncodeResp;
use resp_kv::store::Backend;
use resp_kv::{
    RespArray, RespBooleans, RespBulkString, RespDoubles, RespError, RespFrame, RespInteger,
    RespMaps, RespNull, RespSets, SimpleString,
};

#[test]
fn scenario_integer_signs() {
    assert_eq!(
        RespFrame::Integer(RespInteger(-4096)).encode(),
        b":-4096\r\n"
    );
    assert_eq!(RespFrame::Integer(RespInteger(123)).encode(), b":+123\r\n");
}

#[test]
fn scenario_map_sorted_iteration() {
    let mut bytes_mut = BytesMut::from(&b"%2\r\n+first\r\n:1\r\n+second\r\n:2\r\n"[..]);
    let decoded = RespMaps::decode(&mut bytes_mut).unwrap();
    assert_eq!(decoded.0.len(), 2);
    assert_eq!(decoded.0[0].0, "first");
    assert_eq!(decoded.0[0].1, RespFrame::Integer(RespInteger(1)));
    assert_eq!(decoded.0[1].0, "second");
    assert_eq!(decoded.0[1].1, RespFrame::Integer(RespInteger(2)));
}

#[test]
fn map_insert_sorts_and_last_write_wins() {
    let mut map = RespMaps::new();
    map.insert("zeta".to_string(), RespFrame::Integer(RespInteger(1)));
    map.insert("alpha".to_string(), RespFrame::Integer(RespInteger(2)));
    map.insert("zeta".to_string(), RespFrame::Integer(RespInteger(3)));
    assert_eq!(map.0.len(), 2);
    assert_eq!(map.0[0].0, "alpha");
    assert_eq!(map.0[1].0, "zeta");
    assert_eq!(map.0[1].1, RespFrame::Integer(RespInteger(3)));
    assert_eq!(
        RespFrame::Maps(map).encode(),
        b"%2\r\n+alpha\r\n:+2\r\n+zeta\r\n:+3\r\n"
    );
}

#[test]
fn hset_same_key_twice_keeps_later_value() {
    let mut backend = Backend::new();
    let first = HSet::new(
        "t".into(),
        "k".into(),
        RespFrame::BulkString(RespBulkString(b"one".to_vec())),
    );
    first.execute(&mut backend);
    let second = HSet::new(
        "t".into(),
        "k".into(),
        RespFrame::BulkString(RespBulkString(b"two".to_vec())),
    );
    second.execute(&mut backend);
    let got = HGet::new("t".into(), "k".into()).execute(&mut backend);
    assert_eq!(got, RespFrame::BulkString(RespBulkString(b"two".to_vec())));
}

#[test]
fn round_trip_nested_aggregate() {
    let mut inner_map = RespMaps::new();
    inner_map.insert("first".to_string(), RespFrame::Integer(RespInteger(1)));
    inner_map.insert("second".to_string(), RespFrame::Integer(RespInteger(2)));
    let frame = RespFrame::Arrays(RespArray(vec![
        RespFrame::SimpleString(SimpleString("hi".to_string())),
        RespFrame::BulkString(RespBulkString(b"raw\r\nbytes".to_vec())),
        RespFrame::Booleans(RespBooleans(true)),
        RespFrame::Maps(inner_map),
        RespFrame::Sets(RespSets(vec![RespFrame::Integer(RespInteger(7))])),
        RespFrame::Doubles(RespDoubles("3.5".to_string())),
        RespFrame::Null(RespNull),
    ]));
    let encoded = frame.clone().encode();
    let mut buf = BytesMut::from(encoded.as_slice());
    let decoded = RespFrame::decode(&mut buf).unwrap();
    assert_eq!(decoded, frame);
    assert_eq!(buf.len(), 0);
}

#[test]
fn prefixes_stay_incomplete_until_the_last_byte() {
    let frame = RespFrame::Arrays(RespArray(vec![
        RespFrame::BulkString(RespBulkString(b"get".to_vec())),
        RespFrame::Integer(RespInteger(-12)),
    ]));
    let encoded = frame.clone().encode();
    for n in 0..encoded.len() {
        let mut buf = BytesMut::from(&encoded[..n]);
        let r = RespFrame::decode(&mut buf);
        assert_eq!(r.unwrap_err(), RespError::NotComplete);
        assert_eq!(buf.len(), n, "nothing may be consumed at prefix {n}");
    }
    let mut buf = BytesMut::from(encoded.as_slice());
    assert_eq!(RespFrame::decode(&mut buf).unwrap(), frame);
    assert_eq!(buf.len(), 0);
}

#[test]
fn expect_length_walks_nested_frames() {
    let bytes = b"*2\r\n$3\r\nget\r\n$5\r\nhello\r\n";
    assert_eq!(RespFrame::expect_length(bytes).unwrap(), bytes.len());
    assert_eq!(
        RespFrame::expect_length(&bytes[..7]).unwrap_err(),
        RespError::NotComplete
    );
    assert_eq!(RespFrame::expect_length(b"+OK\r\ntrailing").unwrap(), 5);
}

#[test]
fn per_kind_expect_length_matches_the_frame() {
    assert_eq!(SimpleString::expect_length(b"+OK\r\nmore").unwrap(), 5);
    assert_eq!(RespBulkString::expect_length(b"$5\r\nhe").unwrap(), 11);
    assert_eq!(
        resp_kv::RespBulkErrors::expect_length(b"!3\r\nabc\r\n").unwrap(),
        9
    );
    let arr = b"*2\r\n$3\r\nget\r\n$5\r\nhello\r\n";
    assert_eq!(RespArray::expect_length(arr).unwrap(), arr.len());
    let map = b"%1\r\n+k\r\n:1\r\n";
    assert_eq!(RespMaps::expect_length(map).unwrap(), map.len());
    let set = b"~1\r\n#t\r\n";
    assert_eq!(RespSets::expect_length(set).unwrap(), set.len());
    assert_eq!(
        RespMaps::expect_length(b"%1\r\n+k\r").unwrap_err(),
        RespError::NotComplete
    );
}

#[test]
fn malformed_integer_is_a_parse_error() {
    let mut buf = BytesMut::from(&b":abc\r\n"[..]);
    let r = RespFrame::decode(&mut buf);
    assert!(matches!(r.unwrap_err(), RespError::ParseIntError(_)));
}

#[test]
fn malformed_double_is_a_float_error() {
    let mut buf = BytesMut::from(&b",xyz\r\n"[..]);
    let r = RespFrame::decode(&mut buf);
    assert!(matches!(r.unwrap_err(), RespError::ParseFloatError(_)));
}

#[test]
fn unknown_marker_is_a_type_error() {
    let mut buf = BytesMut::from(&b"?hi\r\n"[..]);
    let r = RespFrame::decode(&mut buf);
    assert!(matches!(r.unwrap_err(), RespError::InvalidFrameType(_)));
}

#[test]
fn unknown_marker_leaves_the_buffer_untouched() {
    let mut buf = BytesMut::from(&b"?hi\r\n"[..]);
    let r = RespFrame::decode(&mut buf);
    assert!(matches!(r.unwrap_err(), RespError::InvalidFrameType(_)));
    assert_eq!(&buf[..], b"?hi\r\n");
}

#[test]
fn failed_null_fallback_leaves_the_buffer_untouched() {
    let mut buf = BytesMut::from(&b"$-2\r\n"[..]);
    let r = RespFrame::decode(&mut buf);
    assert!(matches!(r.unwrap_err(), RespError::InvalidFrameType(_)));
    assert_eq!(&buf[..], b"$-2\r\n");

    let mut buf = BytesMut::from(&b"*-2\r\n"[..]);
    let r = RespFrame::decode(&mut buf);
    assert!(matches!(r.unwrap_err(), RespError::InvalidFrameType(_)));
    assert_eq!(&buf[..], b"*-2\r\n");
}

#[test]
fn short_null_literal_is_a_length_error() {
    let mut buf = BytesMut::from(&b"_"[..]);
    let r = RespNull::decode(&mut buf);
    assert!(matches!(r.unwrap_err(), RespError::InvalidFrameLength(1)));
}

#[test]
fn mismatched_null_literal_is_a_type_error() {
    let mut buf = BytesMut::from(&b"_ab\r\n"[..]);
    let r = RespNull::decode(&mut buf);
    assert!(matches!(r.unwrap_err(), RespError::InvalidFrameType(_)));
}

#[test]
fn double_collapse_threshold_is_exact() {
    let keep = RespFrame::Doubles(RespDoubles("100000000000".to_string()));
    assert_eq!(keep.encode(), b",100000000000\r\n");

    let above = RespFrame::Doubles(RespDoubles("100000000001".to_string()));
    assert_eq!(above.encode(), b",inf\r\n");

    let exp_form = RespFrame::Doubles(RespDoubles("1e12".to_string()));
    assert_eq!(exp_form.encode(), b",inf\r\n");

    let negative = RespFrame::Doubles(RespDoubles("-2e11".to_string()));
    assert_eq!(negative.encode(), b",-inf\r\n");

    let tiny = RespFrame::Doubles(RespDoubles("0.5e12".to_string()));
    assert_eq!(tiny.encode(), b",inf\r\n");

    let zero = RespFrame::Doubles(RespDoubles("0e99999999999999999999".to_string()));
    assert_eq!(zero.encode(), b",0e99999999999999999999\r\n");

    let huge_exp = RespFrame::Doubles(RespDoubles("1e99999999999999999999".to_string()));
    assert_eq!(huge_exp.encode(), b",inf\r\n");

    let infinity = RespFrame::Doubles(RespDoubles("-Infinity".to_string()));
    assert_eq!(infinity.encode(), b",-inf\r\n");
}

#[test]
fn integer_extremes_round_trip() {
    let min = RespFrame::Integer(RespInteger(i64::MIN));
    let encoded = min.clone().encode();
    assert_eq!(encoded, b":-9223372036854775808\r\n");
    let mut buf = BytesMut::from(encoded.as_slice());
    assert_eq!(RespFrame::decode(&mut buf).unwrap(), min);

    let max = RespFrame::Integer(RespInteger(i64::MAX));
    let encoded = max.clone().encode();
    assert_eq!(encoded, b":+9223372036854775807\r\n");
    let mut buf = BytesMut::from(encoded.as_slice());
    assert_eq!(RespFrame::decode(&mut buf).unwrap(), max);
}

#[test]
fn verbs_match_case_insensitively() {
    let mut bytes = BytesMut::from(&b"*2\r\n$3\r\nGeT\r\n$5\r\nhello\r\n"[..]);
    let frame = RespArray::decode(&mut bytes).unwrap();
    let cmd = Command::try_from(frame).unwrap();
    assert!(matches!(cmd, Command::Get(_)));
}

#[test]
fn unknown_verb_is_an_invalid_command() {
    let mut bytes = BytesMut::from(&b"*1\r\n$4\r\nping\r\n"[..]);
    let frame = RespArray::decode(&mut bytes).unwrap();
    let r = Command::try_from(frame);
    assert!(matches!(
        r.unwrap_err(),
        resp_kv::cmd::CommandError::InvalidCommand(_)
    ));
}

#[test]
fn wrong_arity_is_an_invalid_argument() {
    let mut bytes = BytesMut::from(&b"*1\r\n$3\r\nget\r\n"[..]);
    let frame = RespArray::decode(&mut bytes).unwrap();
    let r = resp_kv::cmd::Get::try_from(frame);
    assert!(matches!(
        r.unwrap_err(),
        resp_kv::cmd::CommandError::InvalidArgument(_)
    ));
}

#[test]
fn invalid_utf8_key_is_a_text_error() {
    let mut bytes = BytesMut::from(&b"*2\r\n$3\r\nget\r\n$2\r\n\xff\xfe\r\n"[..]);
    let frame = RespArray::decode(&mut bytes).unwrap();
    let r = resp_kv::cmd::Get::try_from(frame);
    assert!(matches!(
        r.unwrap_err(),
        resp_kv::cmd::CommandError::FromUtf8Error(_)
    ));
}

#[test]
fn lossy_text_reaches_the_stored_frame() {
    let mut buf = BytesMut::from(&b"+caf\xc3\xa9\r\n"[..]);
    let decoded = SimpleString::decode(&mut buf).unwrap();
    assert_eq!(decoded.0, "caf\u{e9}");

    let mut buf = BytesMut::from(&b"#t\r\n"[..]);
    let decoded = RespBooleans::decode(&mut buf).unwrap();
    assert!(decoded.0);
}

#[test]
fn hgetall_snapshots_the_table() {
    let mut backend = Backend::new();
    assert!(backend.hgetall("missing").is_none());
    HSet::new(
        "t".into(),
        "a".into(),
        RespFrame::Integer(RespInteger(1)),
    )
    .execute(&mut backend);
    let snapshot = backend.hgetall("t").unwrap();
    assert_eq!(snapshot.len(), 1);
}

#[test]
fn bulk_string_keeps_raw_bytes() {
    let payload: Vec<u8> = vec![0, 255, 13, 10, 7];
    let frame = RespFrame::BulkString(RespBulkString(payload.clone()));
    let encoded = frame.clone().encode();
    let mut buf = BytesMut::from(encoded.as_slice());
    let decoded = RespFrame::decode(&mut buf).unwrap();
    assert_eq!(decoded, frame);
}

#[test]
fn null_array_falls_back_from_the_shared_marker() {
    let mut buf = BytesMut::from(&b"*-1\r\nrest"[..]);
    let decoded = RespFrame::decode(&mut buf).unwrap();
    assert_eq!(decoded, RespFrame::NullArray(resp_kv::RespNullArray));
    assert_eq!(&buf[..], b"rest");
}
