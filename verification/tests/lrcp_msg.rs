use protohackers::lrcp::msg::{decode, Ack, Close, Connect, Data, DecodeError, Decoded};

#[test]
fn decode_error_too_few_parts() {
    let decoded = decode(b"/connect/");
    assert!(decoded.is_err());
    let decoded = decoded.unwrap_err();
    assert!(matches!(decoded, DecodeError::Invalid));
}

#[test]
fn decode_error_invalid_integer() {
    let decoded = decode(b"/connect/123\\/33/");
    assert!(decoded.is_err());
    let decoded = decoded.unwrap_err();
    assert!(matches!(decoded, DecodeError::Invalid));
}

#[test]
fn decode_error_too_many_parts() {
    let decoded = decode(b"/data/1734379091/0/illegal data/has too many/parts/");
    assert!(decoded.is_err());
    let decoded = decoded.unwrap_err();
    assert!(matches!(decoded, DecodeError::Invalid));
}

#[test]
fn decode_error_too_large_integer() {
    let decoded = decode(b"/data/2147483648/0/session number too long/");
    assert!(decoded.is_err());
    let decoded = decoded.unwrap_err();
    assert!(matches!(decoded, DecodeError::ParseIntError));
}

#[test]
fn decode_error_message_too_long() {
    let data: String = (1..1000).map(|_| 'X').collect();
    let decoded = decode(format!("/data/1734379091/0/{data}/").as_bytes());
    assert!(decoded.is_err());
    let decoded = decoded.unwrap_err();
    assert!(matches!(decoded, DecodeError::Invalid));
}

#[test]
fn decode_connect() {
    let decoded = decode(b"/connect/1234567/");
    assert!(decoded.is_ok());
    let decoded = decoded.unwrap();
    assert_eq!(decoded, Decoded::Connect(Connect::new(1234567)));
}

#[test]
fn decode_close() {
    let decoded = decode(b"/close/1234567/");
    assert!(decoded.is_ok());
    let decoded = decoded.unwrap();
    assert_eq!(decoded, Decoded::Close(Close::new(1234567)));
}

#[test]
fn encode_close() {
    assert_eq!(Close::new(1234567).encode(), "/close/1234567/");
}

#[test]
fn decode_ack() {
    let decoded = decode(b"/ack/1234567/1024/");
    assert!(decoded.is_ok());
    let decoded = decoded.unwrap();
    assert_eq!(decoded, Decoded::Ack(Ack::new(1234567, 1024)));
}

#[test]
fn encode_ack() {
    assert_eq!(Ack::new(1234567, 1024).encode(), "/ack/1234567/1024/");
}

#[test]
fn decode_data() {
    let decoded = decode(b"/data/1234567/1024/hello/");
    assert!(decoded.is_ok());
    let decoded = decoded.unwrap();
    assert_eq!(decoded, Decoded::Data(Data::new(1234567, 1024, "hello")));
}

#[test]
fn encode_data() {
    assert_eq!(
        Data::new(1234567, 1024, "hello").encode(),
        "/data/1234567/1024/hello/"
    );
}

#[test]
fn decode_escaped_data() {
    let decoded = decode(b"/data/1234567/1024/hel\\/lo\\\\/");
    assert!(decoded.is_ok());
    let decoded = decoded.unwrap();
    assert_eq!(decoded, Decoded::Data(Data::new(1234567, 1024, "hel/lo\\")));
}

#[test]
fn encode_escaped_data() {
    assert_eq!(
        Data::new(1234567, 1024, "hel/lo\\").encode(),
        "/data/1234567/1024/hel\\/lo\\\\/"
    );
}

#[test]
fn decode_errors_on_other_shapes() {
    assert!(matches!(decode(b"connect/1/"), Err(DecodeError::Invalid)));
    assert!(matches!(decode(b"/connect/1"), Err(DecodeError::Invalid)));
    assert!(matches!(decode(b"/hello/1/"), Err(DecodeError::Invalid)));
    assert!(matches!(decode(b"/ack/1/x/"), Err(DecodeError::ParseIntError)));
    assert!(matches!(decode(&[b'/', b'd', b'a', b't', b'a', b'/', b'1', b'/', b'0', b'/', 0xff, b'/']), Err(DecodeError::ParseUtf8Error)));
}

#[test]
fn data_round_trip() {
    let data = Data::new(5, 17, "a/b\\c");
    let encoded = data.encode();
    assert_eq!(decode(encoded.as_bytes()), Ok(Decoded::Data(data)));
}
