use minikv::backend::Backend;
use minikv::buffer::BufferedStream;
use minikv::connection::{respond_to_frame, Connection};
use minikv::decimal::{parse_decimal, u64_to_string};
use minikv::frame::{Frame, FrameSimple};

fn bulk(s: &[u8]) -> FrameSimple {
    FrameSimple::Bulk(s.to_vec())
}

/// Feeds one request's bytes and carries the reply bytes back.
fn one_request(backend: &mut Backend, conn: &mut Connection, bytes: &[u8]) -> Vec<u8> {
    conn.feed(bytes);
    let frame = conn.read_frame().expect("terminal protocol error").expect("incomplete frame");
    let reply = respond_to_frame(backend, frame);
    let mut out: Vec<u8> = Vec::new();
    conn.write_frame(&reply, &mut out);
    out
}

#[test]
fn ping_without_payload_answers_pong() {
    let mut backend = Backend::new();
    let mut conn = Connection::new();
    let out = one_request(&mut backend, &mut conn, b"*1\r\n$4\r\nPING\r\n");
    assert_eq!(out, b"+PONG\r\n".to_vec());
}

#[test]
fn ping_with_payload_echoes_it() {
    let mut backend = Backend::new();
    let mut conn = Connection::new();
    let out = one_request(&mut backend, &mut conn, b"*2\r\n$4\r\nPING\r\n$2\r\nhi\r\n");
    assert_eq!(out, b"*2\r\n+PONG\r\n$2\r\nhi\r\n".to_vec());
}

#[test]
fn set_then_get_returns_the_value() {
    let mut backend = Backend::new();
    let mut conn = Connection::new();
    let out = one_request(&mut backend, &mut conn, b"*3\r\n$3\r\nSET\r\n$3\r\nfoo\r\n$3\r\nbar\r\n");
    assert_eq!(out, b"+OK\r\n".to_vec());
    let out = one_request(&mut backend, &mut conn, b"*2\r\n$3\r\nGET\r\n$3\r\nfoo\r\n");
    assert_eq!(out, b"$3\r\nbar\r\n".to_vec());
}

#[test]
fn get_missing_returns_null_bulk() {
    let mut backend = Backend::new();
    let mut conn = Connection::new();
    let out = one_request(&mut backend, &mut conn, b"*2\r\n$3\r\nGET\r\n$7\r\nmissing\r\n");
    assert_eq!(out, b"$-1\r\n".to_vec());
}

#[test]
fn set_overwrites_unconditionally() {
    let mut backend = Backend::new();
    let mut conn = Connection::new();
    one_request(&mut backend, &mut conn, b"*3\r\n$3\r\nSET\r\n$1\r\nk\r\n$2\r\nv1\r\n");
    one_request(&mut backend, &mut conn, b"*3\r\n$3\r\nSET\r\n$1\r\nk\r\n$2\r\nv2\r\n");
    let out = one_request(&mut backend, &mut conn, b"*2\r\n$3\r\nGET\r\n$1\r\nk\r\n");
    assert_eq!(out, b"$2\r\nv2\r\n".to_vec());
}

#[test]
fn split_set_behaves_like_an_unsplit_one() {
    // The same SET frame, split at an arbitrary byte offset inside the bulk value.
    let bytes: &[u8] = b"*3\r\n$3\r\nSET\r\n$3\r\nfoo\r\n$3\r\nbar\r\n";
    let mut backend = Backend::new();
    let mut conn = Connection::new();
    conn.feed(&bytes[..24]);
    assert!(conn.read_frame().unwrap().is_none());
    let out = one_request(&mut backend, &mut conn, &bytes[24..]);
    assert_eq!(out, b"+OK\r\n".to_vec());
    let out = one_request(&mut backend, &mut conn, b"*2\r\n$3\r\nGET\r\n$3\r\nfoo\r\n");
    assert_eq!(out, b"$3\r\nbar\r\n".to_vec());
}

#[test]
fn every_split_point_parses_like_the_whole() {
    let bytes: &[u8] = b"*3\r\n$3\r\nSET\r\n$3\r\nfoo\r\n$3\r\nbar\r\n";
    for cut in 1..bytes.len() {
        let mut conn = Connection::new();
        conn.feed(&bytes[..cut]);
        assert!(conn.read_frame().unwrap().is_none(), "prefix of {} bytes should be incomplete", cut);
        conn.feed(&bytes[cut..]);
        let frame = conn.read_frame().unwrap().unwrap();
        assert_eq!(
            frame,
            Frame::Array(vec![bulk(b"SET"), bulk(b"foo"), bulk(b"bar")])
        );
    }
}

#[test]
fn truncated_array_is_incomplete_not_a_panic() {
    // Declared three elements; the stream closes after one.
    let mut conn = Connection::new();
    conn.feed(b"*3\r\n$3\r\nSET\r\n");
    assert!(conn.read_frame().unwrap().is_none());
}

#[test]
fn unknown_command_without_args_is_answered_by_name() {
    let mut backend = Backend::new();
    let mut conn = Connection::new();
    let out = one_request(&mut backend, &mut conn, b"*1\r\n$10\r\nUNKNOWNCMD\r\n");
    assert_eq!(out, b"-unimplemented unknowncmd\r\n".to_vec());
}

#[test]
fn unknown_command_with_args_keeps_the_connection_open() {
    // An unrecognized name decodes as Unknown; its arguments are ignored, the
    // reply names it, and the connection goes on serving.
    let mut backend = Backend::new();
    let mut conn = Connection::new();
    let out = one_request(
        &mut backend,
        &mut conn,
        b"*3\r\n$10\r\nUNKNOWNCMD\r\n$1\r\na\r\n$1\r\nb\r\n",
    );
    assert_eq!(out, b"-unimplemented unknowncmd\r\n".to_vec());
    // The connection still serves the next request.
    let out = one_request(&mut backend, &mut conn, b"*1\r\n$4\r\nPING\r\n");
    assert_eq!(out, b"+PONG\r\n".to_vec());
}

#[test]
fn a_non_utf8_key_is_a_protocol_error() {
    let mut backend = Backend::new();
    let mut conn = Connection::new();
    let out = one_request(
        &mut backend,
        &mut conn,
        b"*3\r\n$3\r\nSET\r\n$1\r\n\xff\r\n$1\r\nv\r\n",
    );
    assert_eq!(out, b"-parse error\r\n".to_vec());
}

#[test]
fn a_non_utf8_ping_payload_is_echoed() {
    // PING's payload goes through the raw byte accessor, so it needs no text
    // check.
    let mut backend = Backend::new();
    let mut conn = Connection::new();
    let out = one_request(&mut backend, &mut conn, b"*2\r\n$4\r\nPING\r\n$1\r\n\xff\r\n");
    assert_eq!(out, b"*2\r\n+PONG\r\n$1\r\n\xff\r\n".to_vec());
}

#[test]
fn get_arity_is_enforced() {
    let mut backend = Backend::new();
    let mut conn = Connection::new();
    let out = one_request(&mut backend, &mut conn, b"*1\r\n$3\r\nGET\r\n");
    assert_eq!(out, b"-parse error\r\n".to_vec());
    let out = one_request(&mut backend, &mut conn, b"*3\r\n$3\r\nGET\r\n$1\r\na\r\n$1\r\nb\r\n");
    assert_eq!(out, b"-parse error\r\n".to_vec());
}

#[test]
fn set_rejects_a_trailing_token_other_than_expiry() {
    let mut backend = Backend::new();
    let mut conn = Connection::new();
    let out = one_request(
        &mut backend,
        &mut conn,
        b"*4\r\n$3\r\nSET\r\n$1\r\nk\r\n$1\r\nv\r\n$3\r\nFOO\r\n",
    );
    assert_eq!(out, b"-parse error\r\n".to_vec());
    let out = one_request(
        &mut backend,
        &mut conn,
        b"*5\r\n$3\r\nSET\r\n$1\r\nk\r\n$1\r\nv\r\n$2\r\nex\r\n$2\r\n10\r\n",
    );
    assert_eq!(out, b"+OK\r\n".to_vec());
}

#[test]
fn bad_null_marker_is_a_terminal_error() {
    let mut conn = Connection::new();
    conn.feed(b"$-2\r\n");
    assert!(conn.read_frame().is_err());
}

#[test]
fn frames_round_trip_through_the_codec() {
    let frames = vec![
        Frame::Simple(FrameSimple::Simple(b"hello".to_vec())),
        Frame::Simple(FrameSimple::Error(b"oops".to_vec())),
        Frame::Simple(FrameSimple::Integer(0)),
        Frame::Simple(FrameSimple::Integer(u64::MAX)),
        Frame::Simple(FrameSimple::Bulk(Vec::new())),
        Frame::Simple(FrameSimple::Bulk(b"binary \x00\xff data".to_vec())),
        Frame::Simple(FrameSimple::Null),
        Frame::Array(vec![]),
        Frame::Array(vec![bulk(b"SET"), FrameSimple::Integer(7), FrameSimple::Null]),
    ];
    for frame in frames {
        let mut bytes: Vec<u8> = Vec::new();
        frame.write(&mut bytes);
        let mut stream = BufferedStream::new();
        stream.feed(&bytes);
        let parsed = Frame::parse(&mut stream).expect("round trip should parse");
        assert_eq!(parsed, frame);
    }
}

#[test]
fn null_and_empty_bulk_encode_differently() {
    let mut bytes: Vec<u8> = Vec::new();
    Frame::Simple(FrameSimple::Null).write(&mut bytes);
    assert_eq!(bytes, b"$-1\r\n".to_vec());
    let mut bytes: Vec<u8> = Vec::new();
    Frame::Simple(FrameSimple::Bulk(Vec::new())).write(&mut bytes);
    assert_eq!(bytes, b"$0\r\n\r\n".to_vec());
}

#[test]
fn bare_carriage_return_is_data_inside_a_line() {
    let mut stream = BufferedStream::new();
    stream.feed(b"+a\rb\r\n");
    let parsed = Frame::parse(&mut stream).unwrap();
    assert_eq!(parsed, Frame::Simple(FrameSimple::Simple(b"a\rb".to_vec())));
}

#[test]
fn decimal_parsing_is_strict() {
    assert_eq!(parse_decimal(&b"0".to_vec()), Some(0));
    assert_eq!(parse_decimal(&b"18446744073709551615".to_vec()), Some(u64::MAX));
    assert_eq!(parse_decimal(&b"18446744073709551616".to_vec()), None);
    assert_eq!(parse_decimal(&b"".to_vec()), None);
    assert_eq!(parse_decimal(&b"12x".to_vec()), None);
    assert_eq!(parse_decimal(&b"-1".to_vec()), None);
}

#[test]
fn formatting_matches_parsing() {
    assert_eq!(u64_to_string(0), "0");
    assert_eq!(u64_to_string(1024), "1024");
    assert_eq!(u64_to_string(u64::MAX), "18446744073709551615");
}

#[test]
fn advance_test() {
    let mut buffer = BufferedStream::new();
    buffer.feed(&[0, 1, 2, 3]);
    buffer.feed(&[4, 5, 6, 7]);
    buffer.feed(&[8, 9, 10, 11]);
    assert_eq!(buffer.get_u8().unwrap(), 0);
    assert_eq!(buffer.get_u8().unwrap(), 1);
    assert_eq!(buffer.get_u8().unwrap(), 2);
    buffer.skip(8).unwrap();
    assert_eq!(buffer.get_u8().unwrap(), 11);
    assert_eq!(buffer.get_u8().is_err(), true);
}

#[test]
fn end_of_stream_is_classified_by_leftover_bytes() {
    let mut conn = Connection::new();
    assert!(conn.classify_eof().is_ok());
    conn.feed(b"*3\r\n$3\r\nSET\r\n");
    assert!(conn.read_frame().unwrap().is_none());
    // A peer that stops mid-frame left bytes behind: a connection reset.
    assert!(conn.classify_eof().is_err());
}
