use asyncresp::asyncresp::RedisValueCodec;
use asyncresp::types::{RedisValue, Value};
use bytes::BytesMut;

fn generic_test(input: &'static str, output: RedisValue) {
    let mut decoder = RedisValueCodec::default();
    let result_read = decoder.decode(&mut BytesMut::from(input));

    let mut encoder = RedisValueCodec::default();
    let mut buf = BytesMut::new();
    let result_write = encoder.encode(output.clone(), &mut buf);

    assert!(
        result_write.as_ref().is_ok(),
        "{:?}",
        result_write.unwrap_err()
    );

    assert_eq!(input.as_bytes(), buf.as_ref());

    assert!(
        result_read.as_ref().is_ok(),
        "{:?}",
        result_read.unwrap_err()
    );
    let values = result_read.unwrap().unwrap();

    let generic_arr_test_case = vec![output.clone(), output.clone()];
    let doubled = input.to_owned() + &input.to_owned();

    assert_eq!(output, values);
    generic_test_arr(&doubled, generic_arr_test_case)
}

fn generic_test_arr(input: &str, output: Vec<RedisValue>) {
    let first: usize = input.len() / 2;
    let second = input.len() - first;
    let mut seq = vec![
        BytesMut::from(&input[0..first]),
        BytesMut::from(&input[second..]),
    ];

    let mut decoder = RedisValueCodec::default();
    let mut res = Vec::new();
    loop {
        match decoder.decode(&mut seq[0]) {
            Ok(Some(value)) => {
                res.push(value);
            }
            Err(e) => panic!("Should not error, {:?}", e),
            _ => break,
        }
    }
    loop {
        match decoder.decode(&mut seq[1]) {
            Ok(Some(value)) => {
                res.push(value);
            }
            Err(e) => panic!("Should not error, {:?}", e),
            _ => break,
        }
    }
    assert_eq!(output, res);
}

fn ezs() -> Value {
    "hello".as_bytes().to_vec()
}

#[test]
fn test_simple_string() {
    let t = RedisValue::SimpleString(ezs());
    let s = "+hello\r\n";
    generic_test(s, t);

    let t = RedisValue::SimpleString(ezs());
    let s = "+hello\r\n+hello\r\n";
    generic_test_arr(s, vec![t.clone(), t.clone()]);
}

#[test]
fn test_error() {
    let t = RedisValue::Error(ezs());
    let s = "-hello\r\n";
    generic_test(s, t);

    let t = RedisValue::Error(ezs());
    let s = "-hello\r\n-hello\r\n";
    generic_test_arr(s, vec![t.clone(), t.clone()]);
}

#[test]
fn test_array() {
    let t = RedisValue::Array(vec![]);
    let s = "*0\r\n";
    generic_test(s, t);

    let inner = vec![
        RedisValue::BulkString("foo".as_bytes().to_vec()),
        RedisValue::BulkString("bar".as_bytes().to_vec()),
    ];
    let t = RedisValue::Array(inner);
    let s = "*2\r\n$3\r\nfoo\r\n$3\r\nbar\r\n";
    generic_test(s, t);

    let inner = vec![RedisValue::Int(1), RedisValue::Int(2), RedisValue::Int(3)];
    let t = RedisValue::Array(inner);
    let s = "*3\r\n:1\r\n:2\r\n:3\r\n";
    generic_test(s, t);

    let inner = vec![
        RedisValue::Int(1),
        RedisValue::Int(2),
        RedisValue::Int(3),
        RedisValue::Int(4),
        RedisValue::BulkString("foobar".as_bytes().to_vec()),
    ];
    let t = RedisValue::Array(inner);
    let s = "*5\r\n:1\r\n:2\r\n:3\r\n:4\r\n$6\r\nfoobar\r\n";
    generic_test(s, t);

    let inner = vec![
        RedisValue::Array(vec![
            RedisValue::Int(1),
            RedisValue::Int(2),
            RedisValue::Int(3),
        ]),
        RedisValue::Array(vec![
            RedisValue::SimpleString("Foo".as_bytes().to_vec()),
            RedisValue::Error("Bar".as_bytes().to_vec()),
        ]),
    ];
    let t = RedisValue::Array(inner);
    let s = "*2\r\n*3\r\n:1\r\n:2\r\n:3\r\n*2\r\n+Foo\r\n-Bar\r\n";
    generic_test(s, t);

    let inner = vec![
        RedisValue::BulkString("foo".as_bytes().to_vec()),
        RedisValue::NullBulkString,
        RedisValue::BulkString("bar".as_bytes().to_vec()),
    ];
    let t = RedisValue::Array(inner);
    let s = "*3\r\n$3\r\nfoo\r\n$-1\r\n$3\r\nbar\r\n";
    generic_test(s, t);

    let t = RedisValue::NullArray;
    let s = "*-1\r\n";
    generic_test(s, t);
}

#[test]
fn test_bulk_string() {
    let t = RedisValue::BulkString(ezs());
    let s = "$5\r\nhello\r\n";
    generic_test(s, t);

    let t = RedisValue::BulkString("".as_bytes().to_vec());
    let s = "$0\r\n\r\n";
    generic_test(s, t);
}
