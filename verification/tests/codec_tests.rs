use nia_console_client::codec::{
    decode_request, decode_response, encode_request, encode_response, request_loopback,
    response_loopback,
};
use nia_console_client::messages::{DecodeError, Request, Response};

#[test]
fn handshake_request_exact_bytes() {
    let bytes = encode_request(&Request::Handshake);
    assert_eq!(bytes, vec![1u8]);
}

#[test]
fn execute_code_request_exact_bytes() {
    let bytes = encode_request(&Request::ExecuteCode { code: b"ab".to_vec() });
    let expected = vec![2u8, 2, 0, 0, 0, 0, 0, 0, 0, b'a', b'b'];
    assert_eq!(bytes, expected);
}

#[test]
fn handshake_request_round_trips() {
    let bytes = encode_request(&Request::Handshake);
    assert_eq!(decode_request(&bytes), Ok(Request::Handshake));
}

#[test]
fn execute_code_request_round_trips() {
    let original = Request::ExecuteCode { code: b"(+ 1 2)".to_vec() };
    let bytes = encode_request(&original);
    assert_eq!(decode_request(&bytes), Ok(original));
}

#[test]
fn empty_code_request_round_trips() {
    let original = Request::ExecuteCode { code: Vec::new() };
    let bytes = encode_request(&original);
    assert_eq!(decode_request(&bytes), Ok(original));
}

#[test]
fn request_loopback_is_identity() {
    let original = Request::ExecuteCode { code: b"6*7".to_vec() };
    assert_eq!(request_loopback(&original), original);
    assert_eq!(request_loopback(&Request::Handshake), Request::Handshake);
}

#[test]
fn every_response_variant_round_trips() {
    let samples = vec![
        Response::HandshakeOk { version: b"1.0".to_vec(), info: b"nia server".to_vec() },
        Response::HandshakeError { message: b"not today".to_vec() },
        Response::ExecuteSuccess { message: b"42".to_vec() },
        Response::ExecuteError { message: b"unbound symbol".to_vec() },
        Response::ExecuteFailure { message: b"worker died".to_vec() },
        Response::GetDevices,
        Response::GetDeviceInfo,
    ];
    for original in samples {
        let bytes = encode_response(&original);
        assert_eq!(decode_response(&bytes), Ok(original.clone()));
        assert_eq!(response_loopback(&original), original);
    }
}

#[test]
fn empty_input_is_truncated() {
    assert_eq!(decode_response(&Vec::new()), Err(DecodeError::Truncated));
    assert_eq!(decode_request(&Vec::new()), Err(DecodeError::Truncated));
}

#[test]
fn unknown_tag_is_rejected() {
    assert_eq!(decode_response(&vec![9u8]), Err(DecodeError::UnknownTag));
    assert_eq!(decode_request(&vec![9u8]), Err(DecodeError::UnknownTag));
    assert_eq!(decode_response(&vec![0u8]), Err(DecodeError::UnknownTag));
}

#[test]
fn short_length_field_is_truncated() {
    // tag says execute-success, but only three of the eight length bytes follow
    assert_eq!(decode_response(&vec![3u8, 1, 0, 0]), Err(DecodeError::Truncated));
}

#[test]
fn missing_payload_is_truncated() {
    // length says five bytes of payload, none follow
    let bytes = vec![3u8, 5, 0, 0, 0, 0, 0, 0, 0];
    assert_eq!(decode_response(&bytes), Err(DecodeError::Truncated));
}

#[test]
fn trailing_bytes_are_rejected() {
    let mut bytes = encode_response(&Response::GetDevices);
    bytes.push(0);
    assert_eq!(decode_response(&bytes), Err(DecodeError::TrailingBytes));

    let mut req = encode_request(&Request::Handshake);
    req.push(7);
    assert_eq!(decode_request(&req), Err(DecodeError::TrailingBytes));

    let mut ok = encode_response(&Response::ExecuteSuccess { message: b"42".to_vec() });
    ok.push(1);
    assert_eq!(decode_response(&ok), Err(DecodeError::TrailingBytes));
}

#[test]
fn distinct_requests_encode_distinctly() {
    let a = encode_request(&Request::Handshake);
    let b = encode_request(&Request::ExecuteCode { code: Vec::new() });
    let c = encode_request(&Request::ExecuteCode { code: b"x".to_vec() });
    assert_ne!(a, b);
    assert_ne!(a, c);
    assert_ne!(b, c);
}

#[test]
fn handshake_ok_two_field_layout() {
    let bytes = encode_response(&Response::HandshakeOk {
        version: b"v".to_vec(),
        info: b"io".to_vec(),
    });
    let expected = vec![
        1u8, // tag
        1, 0, 0, 0, 0, 0, 0, 0, b'v', // version field
        2, 0, 0, 0, 0, 0, 0, 0, b'i', b'o', // info field
    ];
    assert_eq!(bytes, expected);
}
