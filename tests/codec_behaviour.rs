use asyncresp::asyncresp::{R02Error, RedisValueCodec};
use asyncresp::types::RedisValue;
use bytes::BytesMut;

fn decode_all(input: &[u8]) -> (Result<Option<RedisValue>, R02Error>, Vec<u8>) {
    let mut codec = RedisValueCodec::default();
    let mut buf = BytesMut::from(input);
    let r = codec.decode(&mut buf);
    (r, buf.as_ref().to_vec())
}

fn encoded(v: RedisValue) -> Vec<u8> {
    let mut codec = RedisValueCodec::default();
    let mut buf = BytesMut::new();
    codec.encode(v, &mut buf).unwrap();
    buf.as_ref().to_vec()
}

fn nested() -> RedisValue {
    RedisValue::Array(vec![
        RedisValue::Array(vec![
            RedisValue::Int(1),
            RedisValue::Int(-2),
            RedisValue::BulkString(b"a\r\nb".to_vec()),
        ]),
        RedisValue::NullBulkString,
        RedisValue::Array(vec![]),
        RedisValue::NullArray,
        RedisValue::Array(vec![
            RedisValue::SimpleString(b"Foo".to_vec()),
            RedisValue::Error(b"Bar".to_vec()),
        ]),
    ])
}

#[test]
fn scenario_simple_string() {
    let (r, rest) = decode_all(b"+hello\r\n");
    assert_eq!(r.unwrap(), Some(RedisValue::SimpleString(b"hello".to_vec())));
    assert!(rest.is_empty());
}

#[test]
fn scenario_empty_and_null_array() {
    assert_eq!(decode_all(b"*0\r\n").0.unwrap(), Some(RedisValue::Array(vec![])));
    assert_eq!(decode_all(b"*-1\r\n").0.unwrap(), Some(RedisValue::NullArray));
}

#[test]
fn scenario_null_bulk_string() {
    assert_eq!(decode_all(b"$-1\r\n").0.unwrap(), Some(RedisValue::NullBulkString));
}

#[test]
fn scenario_integer() {
    assert_eq!(decode_all(b":123\r\n").0.unwrap(), Some(RedisValue::Int(123)));
}

#[test]
fn scenario_nested_arrays() {
    let expected = RedisValue::Array(vec![
        RedisValue::Array(vec![RedisValue::Int(1), RedisValue::Int(2), RedisValue::Int(3)]),
        RedisValue::Array(vec![
            RedisValue::SimpleString(b"Foo".to_vec()),
            RedisValue::Error(b"Bar".to_vec()),
        ]),
    ]);
    let (r, rest) = decode_all(b"*2\r\n*3\r\n:1\r\n:2\r\n:3\r\n*2\r\n+Foo\r\n-Bar\r\n");
    assert_eq!(r.unwrap(), Some(expected));
    assert!(rest.is_empty());
}

#[test]
fn integer_words() {
    assert_eq!(decode_all(b": 42 \r\n").0.unwrap(), Some(RedisValue::Int(42)));
    assert_eq!(decode_all(b":+7\r\n").0.unwrap(), Some(RedisValue::Int(7)));
    assert_eq!(decode_all(b":007\r\n").0.unwrap(), Some(RedisValue::Int(7)));
    assert_eq!(
        decode_all(b":-9223372036854775808\r\n").0.unwrap(),
        Some(RedisValue::Int(i64::MIN))
    );
    assert_eq!(
        decode_all(b":9223372036854775807\r\n").0.unwrap(),
        Some(RedisValue::Int(i64::MAX))
    );
}

#[test]
fn protocol_errors() {
    for input in [
        &b"?x\r\n"[..],
        b":abc\r\n",
        b":\r\n",
        b":-\r\n",
        b":1 2\r\n",
        b":9223372036854775808\r\n",
        b"$3\r\nfooXY",
        b"*1\r\n!\r\n",
        b"$x\r\n",
        b":\xff\xfe\r\n",
    ] {
        let (r, rest) = decode_all(input);
        assert!(matches!(r, Err(R02Error::Else(_))), "{:?}", input);
        assert_eq!(rest, input.to_vec());
    }
}

#[test]
fn empty_buffer_gives_nothing() {
    let (r, rest) = decode_all(b"");
    assert!(matches!(r, Ok(None)));
    assert!(rest.is_empty());
}

#[test]
fn following_messages_stay_in_buffer() {
    let (r, rest) = decode_all(b":1\r\n+OK\r\n$1");
    assert_eq!(r.unwrap(), Some(RedisValue::Int(1)));
    assert_eq!(rest, b"+OK\r\n$1".to_vec());
}

#[test]
fn encode_exact_bytes() {
    assert_eq!(encoded(RedisValue::Int(-5)), b":-5\r\n".to_vec());
    assert_eq!(encoded(RedisValue::Int(0)), b":0\r\n".to_vec());
    assert_eq!(encoded(RedisValue::Int(i64::MIN)), b":-9223372036854775808\r\n".to_vec());
    assert_eq!(encoded(RedisValue::BulkString(b"a\r\nb".to_vec())), b"$4\r\na\r\nb\r\n".to_vec());
    assert_eq!(encoded(RedisValue::NullBulkString), b"$-1\r\n".to_vec());
    assert_eq!(encoded(RedisValue::NullArray), b"*-1\r\n".to_vec());
    assert_eq!(
        encoded(nested()),
        b"*5\r\n*3\r\n:1\r\n:-2\r\n$4\r\na\r\nb\r\n$-1\r\n*0\r\n*-1\r\n*2\r\n+Foo\r\n-Bar\r\n".to_vec()
    );
}

#[test]
fn round_trip_nested() {
    let v = nested();
    let wire = encoded(v.clone());
    let (r, rest) = decode_all(&wire);
    assert_eq!(r.unwrap(), Some(v));
    assert!(rest.is_empty());
}

#[test]
fn every_split_gives_the_same_value() {
    let v = nested();
    let wire = encoded(v.clone());
    for i in 0..wire.len() {
        let mut codec = RedisValueCodec::default();
        let mut buf = BytesMut::from(&wire[..i]);
        let first = codec.decode(&mut buf);
        assert!(matches!(first, Ok(None)), "split at {}", i);
        assert_eq!(buf.as_ref(), &wire[..i]);
        buf.extend_from_slice(&wire[i..]);
        let second = codec.decode(&mut buf);
        assert_eq!(second.unwrap(), Some(v.clone()), "split at {}", i);
        assert!(buf.is_empty());
    }
}

#[test]
fn byte_by_byte_feeding() {
    let v = nested();
    let wire = encoded(v.clone());
    let mut codec = RedisValueCodec::default();
    let mut buf = BytesMut::new();
    let mut got = Vec::new();
    for b in wire.iter().chain(wire.iter()) {
        buf.extend_from_slice(&[*b]);
        if let Some(x) = codec.decode(&mut buf).unwrap() {
            got.push(x);
        }
    }
    assert_eq!(got, vec![v.clone(), v]);
    assert!(buf.is_empty());
}

#[test]
fn unrelated_buffer_starts_over() {
    let mut codec = RedisValueCodec::default();
    let mut partial = BytesMut::from(&b"*2\r\n:1\r\n"[..]);
    assert!(matches!(codec.decode(&mut partial), Ok(None)));
    let mut other = BytesMut::from(&b"+OK\r\n"[..]);
    assert_eq!(
        codec.decode(&mut other).unwrap(),
        Some(RedisValue::SimpleString(b"OK".to_vec()))
    );
}

#[test]
fn arbitrary_bytes_do_not_crash() {
    let mut seed: u32 = 12345;
    for len in 0..200usize {
        let mut input = Vec::new();
        for _ in 0..len {
            seed = seed.wrapping_mul(1103515245).wrapping_add(12345);
            let pick = (seed >> 16) as u8;
            let b = match pick % 8 {
                0 => b'*',
                1 => b'$',
                2 => b'\r',
                3 => b'\n',
                4 => b'1',
                _ => pick,
            };
            input.push(b);
        }
        let half = input.len() / 2;
        let mut codec = RedisValueCodec::default();
        let mut first = BytesMut::from(&input[..half]);
        let _ = codec.decode(&mut first);
        let mut second = BytesMut::from(&input[half..]);
        let _ = codec.decode(&mut second);
    }
}

#[test]
fn error_from_string() {
    let e: R02Error = String::from("boom").into();
    assert!(matches!(e, R02Error::Else(ref m) if m == "boom"));
}

#[test]
fn error_from_io_error() {
    let e: R02Error = std::io::Error::new(std::io::ErrorKind::Other, "down").into();
    assert!(matches!(e, R02Error::IOError(_)));
}
