use resp_client::decode_frame;
use resp_client::Command;
use resp_client::Error;
use resp_client::Reply;
use resp_client::ReplyKind;

fn command(args: &[&[u8]]) -> Command {
    let mut c = Command::new();
    for a in args {
        c.arg(a.to_vec());
    }
    c
}

#[test]
fn set_command_encodes_byte_exact() {
    let c = command(&[b"SET", b"mykey", b"Hello"]);
    assert_eq!(
        c.to_vec(),
        b"*3\r\n$3\r\nSET\r\n$5\r\nmykey\r\n$5\r\nHello\r\n".to_vec()
    );
}

#[test]
fn set_then_ok_reply_is_a_single_line() {
    let c = command(&[b"SET", b"mykey", b"Hello"]);
    let _request = c.to_vec();
    let (reply, _) = decode_frame(b"+OK\r\n", 0).unwrap();
    assert_eq!(reply.into_result(), Ok(Reply::SingleLine(b"OK".to_vec())));
}

#[test]
fn get_missing_key_maps_to_absent_value() {
    let c = command(&[b"GET", b"missing"]);
    assert_eq!(c.to_vec(), b"*2\r\n$3\r\nGET\r\n$7\r\nmissing\r\n".to_vec());
    let got: Option<Vec<u8>> = match decode_frame(b"$-1\r\n", 0) {
        Ok((Reply::BulkPayload(data), _)) => Some(data),
        Err(resp_client::DecodeError::Failed(Error::KeyNotFound)) => None,
        other => panic!("a get should see a value or the sentinel: {:?}", other),
    };
    assert_eq!(got, None);
}

#[test]
fn empty_command_still_encodes_as_an_array() {
    let c = command(&[]);
    assert_eq!(c.len(), 0);
    assert_eq!(c.to_vec(), b"*0\r\n".to_vec());
}

#[test]
fn empty_argument_encodes_with_zero_length() {
    let c = command(&[b"ECHO", b""]);
    assert_eq!(c.to_vec(), b"*2\r\n$4\r\nECHO\r\n$0\r\n\r\n".to_vec());
}

#[test]
fn binary_arguments_round_trip_through_the_wire() {
    let args: Vec<Vec<u8>> = vec![
        b"MSET".to_vec(),
        b"key\r\nwith\nnewlines".to_vec(),
        vec![0, 1, 2, 255, 13, 10, 0],
        Vec::new(),
    ];
    let mut c = Command::new();
    for a in &args {
        c.arg(a.clone());
    }
    let wire = c.to_vec();
    let (reply, used) = decode_frame(&wire, 0).expect("an encoded command is a valid frame");
    assert_eq!(used, wire.len());
    let expected = Reply::Array(args.into_iter().map(Reply::BulkPayload).collect());
    assert_eq!(reply, expected);
}

#[test]
fn ten_argument_command_round_trips() {
    let args: Vec<Vec<u8>> = (0..10u8).map(|i| vec![i; i as usize]).collect();
    let mut c = Command::new();
    for a in &args {
        c.arg(a.clone());
    }
    assert_eq!(c.len(), 10);
    let wire = c.to_vec();
    let (reply, used) = decode_frame(&wire, 0).unwrap();
    assert_eq!(used, wire.len());
    assert_eq!(
        reply,
        Reply::Array(args.into_iter().map(Reply::BulkPayload).collect())
    );
}

#[test]
fn reply_new_builds_line_replies() {
    assert_eq!(
        Reply::new(ReplyKind::SingleLine, b"OK".to_vec()),
        Ok(Reply::SingleLine(b"OK".to_vec()))
    );
    assert_eq!(
        Reply::new(ReplyKind::ErrorLine, b"ERR oops".to_vec()),
        Ok(Reply::ErrorLine(b"ERR oops".to_vec()))
    );
    assert_eq!(
        Reply::new(ReplyKind::BulkPayload, vec![1, 2, 3]),
        Ok(Reply::BulkPayload(vec![1, 2, 3]))
    );
}

#[test]
fn reply_new_parses_integer_payloads() {
    assert_eq!(
        Reply::new(ReplyKind::Integer, b"-7".to_vec()),
        Ok(Reply::Integer(-7))
    );
    assert_eq!(
        Reply::new(ReplyKind::Integer, b"1000".to_vec()),
        Ok(Reply::Integer(1000))
    );
    assert_eq!(
        Reply::new(ReplyKind::Integer, b"oops".to_vec()),
        Err(Error::MalformedInteger)
    );
}

#[test]
fn reply_kind_names_the_wire_tag() {
    assert_eq!(Reply::SingleLine(Vec::new()).kind(), ReplyKind::SingleLine);
    assert_eq!(Reply::ErrorLine(Vec::new()).kind(), ReplyKind::ErrorLine);
    assert_eq!(Reply::Integer(1).kind(), ReplyKind::Integer);
    assert_eq!(Reply::BulkPayload(Vec::new()).kind(), ReplyKind::BulkPayload);
    assert_eq!(Reply::Array(Vec::new()).kind(), ReplyKind::Array);
    assert_eq!(Reply::AbsentArray.kind(), ReplyKind::Array);
}

#[test]
fn error_kinds_stay_distinct() {
    assert_ne!(Error::KeyNotFound, Error::ProtocolViolation);
    assert_ne!(Error::KeyNotFound, Error::ConnectionClosed);
    assert_ne!(Error::MalformedInteger, Error::ProtocolViolation);
    assert_ne!(
        Error::ServerError(b"ERR".to_vec()),
        Error::ServerError(b"WRONGTYPE".to_vec())
    );
}
