use resp_client::decode_frame;
use resp_client::DecodeError;
use resp_client::Error;
use resp_client::Reply;

fn decode_ok(bytes: &[u8]) -> (Reply, usize) {
    decode_frame(bytes, 0).expect("expected a complete frame")
}

fn decode_err(bytes: &[u8]) -> DecodeError {
    decode_frame(bytes, 0).expect_err("expected no reply")
}

#[test]
fn single_line_decodes_verbatim() {
    let (reply, used) = decode_ok(b"+OK\r\n");
    assert_eq!(reply, Reply::SingleLine(b"OK".to_vec()));
    assert_eq!(used, 5);
}

#[test]
fn empty_status_line_decodes_to_empty_text() {
    let (reply, used) = decode_ok(b"+\r\n");
    assert_eq!(reply, Reply::SingleLine(Vec::new()));
    assert_eq!(used, 3);
}

#[test]
fn integer_decodes() {
    let (reply, used) = decode_ok(b":1000\r\n");
    assert_eq!(reply, Reply::Integer(1000));
    assert_eq!(used, 7);
}

#[test]
fn negative_and_signed_integers_decode() {
    assert_eq!(decode_ok(b":-42\r\n").0, Reply::Integer(-42));
    assert_eq!(decode_ok(b":+42\r\n").0, Reply::Integer(42));
    assert_eq!(decode_ok(b":0\r\n").0, Reply::Integer(0));
}

#[test]
fn integer_range_ends_decode() {
    assert_eq!(
        decode_ok(b":9223372036854775807\r\n").0,
        Reply::Integer(i64::MAX)
    );
    assert_eq!(
        decode_ok(b":-9223372036854775808\r\n").0,
        Reply::Integer(i64::MIN)
    );
}

#[test]
fn integer_out_of_range_is_malformed() {
    assert_eq!(
        decode_err(b":9223372036854775808\r\n"),
        DecodeError::Failed(Error::MalformedInteger)
    );
    assert_eq!(
        decode_err(b":-9223372036854775809\r\n"),
        DecodeError::Failed(Error::MalformedInteger)
    );
}

#[test]
fn integer_junk_is_malformed() {
    assert_eq!(
        decode_err(b":abc\r\n"),
        DecodeError::Failed(Error::MalformedInteger)
    );
    assert_eq!(
        decode_err(b":12a3\r\n"),
        DecodeError::Failed(Error::MalformedInteger)
    );
    assert_eq!(
        decode_err(b":\r\n"),
        DecodeError::Failed(Error::MalformedInteger)
    );
    assert_eq!(
        decode_err(b":-\r\n"),
        DecodeError::Failed(Error::MalformedInteger)
    );
}

#[test]
fn bulk_payload_decodes_with_exact_bytes() {
    let (reply, used) = decode_ok(b"$5\r\nHello\r\n");
    assert_eq!(reply, Reply::BulkPayload(b"Hello".to_vec()));
    assert_eq!(used, 11);
}

#[test]
fn bulk_payload_is_binary_safe() {
    let (reply, used) = decode_ok(b"$5\r\nHe\r\no\r\n");
    assert_eq!(reply, Reply::BulkPayload(b"He\r\no".to_vec()));
    assert_eq!(used, 11);
    let (reply, _) = decode_ok(b"$3\r\n\x00\xff\n\r\n");
    assert_eq!(reply, Reply::BulkPayload(vec![0, 255, 10]));
}

#[test]
fn absent_bulk_is_key_not_found_not_empty() {
    assert_eq!(
        decode_err(b"$-1\r\n"),
        DecodeError::Failed(Error::KeyNotFound)
    );
    let (reply, used) = decode_ok(b"$0\r\n\r\n");
    assert_eq!(reply, Reply::BulkPayload(Vec::new()));
    assert_eq!(used, 6);
}

#[test]
fn key_not_found_is_not_a_protocol_violation() {
    let err = decode_err(b"$-1\r\n");
    assert_ne!(err, DecodeError::Failed(Error::ProtocolViolation));
    assert_ne!(err, DecodeError::Incomplete);
    // A caller doing a "get" maps the sentinel to an absent value.
    let outcome: Option<Vec<u8>> = match decode_frame(b"$-1\r\n", 0) {
        Ok((Reply::BulkPayload(data), _)) => Some(data),
        Err(DecodeError::Failed(Error::KeyNotFound)) => None,
        other => panic!("unexpected outcome: {:?}", other),
    };
    assert_eq!(outcome, None);
}

#[test]
fn bulk_with_bad_length_is_a_protocol_violation() {
    assert_eq!(
        decode_err(b"$abc\r\n"),
        DecodeError::Failed(Error::ProtocolViolation)
    );
}

#[test]
fn bulk_with_bad_terminator_is_a_protocol_violation() {
    assert_eq!(
        decode_err(b"$2\r\nabXY"),
        DecodeError::Failed(Error::ProtocolViolation)
    );
}

#[test]
fn absent_array_is_distinct_from_empty_array() {
    let (reply, used) = decode_ok(b"*-1\r\n");
    assert_eq!(reply, Reply::AbsentArray);
    assert_eq!(used, 5);
    let (reply, used) = decode_ok(b"*0\r\n");
    assert_eq!(reply, Reply::Array(Vec::new()));
    assert_eq!(used, 4);
    assert_ne!(Reply::AbsentArray, Reply::Array(Vec::new()));
}

#[test]
fn array_preserves_element_order() {
    let (reply, used) = decode_ok(b"*2\r\n:1\r\n:2\r\n");
    assert_eq!(
        reply,
        Reply::Array(vec![Reply::Integer(1), Reply::Integer(2)])
    );
    assert_eq!(used, 12);
}

#[test]
fn minus_zero_length_is_zero_not_absent() {
    // "-0" parses as zero, so this is an empty payload still waiting for
    // its terminator, not the absent-value sentinel.
    assert_eq!(decode_err(b"$-0\r\n"), DecodeError::Incomplete);
    let (reply, used) = decode_ok(b"$-0\r\n\r\n");
    assert_eq!(reply, Reply::BulkPayload(Vec::new()));
    assert_eq!(used, 7);
}

#[test]
fn nested_array_decodes() {
    let (reply, used) = decode_ok(b"*2\r\n*1\r\n+a\r\n$2\r\nhi\r\n");
    assert_eq!(
        reply,
        Reply::Array(vec![
            Reply::Array(vec![Reply::SingleLine(b"a".to_vec())]),
            Reply::BulkPayload(b"hi".to_vec()),
        ])
    );
    assert_eq!(used, 20);
}

#[test]
fn array_with_bad_count_is_a_protocol_violation() {
    assert_eq!(
        decode_err(b"*x\r\n"),
        DecodeError::Failed(Error::ProtocolViolation)
    );
}

#[test]
fn unknown_tag_is_reported_not_a_crash() {
    assert_eq!(
        decode_err(b"%foo\r\n"),
        DecodeError::Failed(Error::UnknownTypeTag)
    );
    assert_eq!(
        decode_err(b"!\r\n"),
        DecodeError::Failed(Error::UnknownTypeTag)
    );
}

#[test]
fn error_line_becomes_a_server_error() {
    let (reply, used) = decode_ok(b"-ERR some message\r\n");
    assert_eq!(reply, Reply::ErrorLine(b"ERR some message".to_vec()));
    assert_eq!(used, 19);
    let surfaced = reply.into_result();
    assert_eq!(
        surfaced,
        Err(Error::ServerError(b"ERR some message".to_vec()))
    );
}

#[test]
fn non_error_replies_pass_through_into_result() {
    assert_eq!(
        Reply::SingleLine(b"OK".to_vec()).into_result(),
        Ok(Reply::SingleLine(b"OK".to_vec()))
    );
    assert_eq!(
        Reply::Integer(7).into_result(),
        Ok(Reply::Integer(7))
    );
}

#[test]
fn partial_frames_ask_for_more_bytes() {
    assert_eq!(decode_err(b""), DecodeError::Incomplete);
    assert_eq!(decode_err(b"+OK"), DecodeError::Incomplete);
    assert_eq!(decode_err(b"$5\r\nab"), DecodeError::Incomplete);
    assert_eq!(decode_err(b"$5\r\nHello\r"), DecodeError::Incomplete);
    assert_eq!(decode_err(b"*2\r\n:1\r\n"), DecodeError::Incomplete);
}

#[test]
fn lone_line_feed_is_a_protocol_violation() {
    assert_eq!(
        decode_err(b"+OK\n"),
        DecodeError::Failed(Error::ProtocolViolation)
    );
    assert_eq!(
        decode_err(b"\r\n"),
        DecodeError::Failed(Error::ProtocolViolation)
    );
    assert_eq!(
        decode_err(b"\n"),
        DecodeError::Failed(Error::ProtocolViolation)
    );
}

#[test]
fn decode_consumes_exactly_one_frame() {
    let stream = b"+OK\r\n:5\r\n";
    let (first, used) = decode_ok(stream);
    assert_eq!(first, Reply::SingleLine(b"OK".to_vec()));
    assert_eq!(used, 5);
    let (second, used) = decode_frame(stream, used).expect("second frame");
    assert_eq!(second, Reply::Integer(5));
    assert_eq!(used, stream.len());
}

#[test]
fn nesting_is_followed_to_the_cap_and_no_further() {
    let mut shallow = Vec::new();
    for _ in 0..63 {
        shallow.extend_from_slice(b"*1\r\n");
    }
    shallow.extend_from_slice(b":1\r\n");
    assert!(decode_frame(&shallow, 0).is_ok());

    let mut deep = Vec::new();
    for _ in 0..64 {
        deep.extend_from_slice(b"*1\r\n");
    }
    deep.extend_from_slice(b":1\r\n");
    assert_eq!(
        decode_frame(&deep, 0),
        Err(DecodeError::Failed(Error::ProtocolViolation))
    );
}
