use minikv::buffer::BufferedStream;
use minikv::memcached::{CacheBackend, Request, RequestParseError, Response};

fn parse_one(bytes: &[u8]) -> Result<Request, RequestParseError> {
    let mut stream = BufferedStream::new();
    stream.feed(bytes);
    Request::parse(&mut stream)
}

#[test]
fn stored_value_is_served_back() {
    let mut backend = CacheBackend::new();
    let set = parse_one(b"set foo 7 0\r\nbar\r\n").unwrap();
    let reply = backend.process(set);
    let mut out: Vec<u8> = Vec::new();
    reply.write(&mut out);
    assert_eq!(out, b"STORED\r\n".to_vec());

    let get = parse_one(b"get foo\r\n").unwrap();
    let reply = backend.process(get);
    let mut out: Vec<u8> = Vec::new();
    reply.write(&mut out);
    assert_eq!(out, b"VALUE foo 7 3 \r\nbarEND\r\n".to_vec());
}

#[test]
fn missing_key_answers_end() {
    let mut backend = CacheBackend::new();
    let get = parse_one(b"get nothing\r\n").unwrap();
    let reply = backend.process(get);
    let mut out: Vec<u8> = Vec::new();
    reply.write(&mut out);
    assert_eq!(out, b"END\r\n".to_vec());
}

#[test]
fn noreply_stores_quietly() {
    let mut backend = CacheBackend::new();
    let set = parse_one(b"set k 1 2 3 noreply\r\nv\r\n").unwrap();
    assert!(matches!(set, Request::Store(_, 1, 2, _, true)));
    let reply = backend.process(set);
    let mut out: Vec<u8> = Vec::new();
    reply.write(&mut out);
    assert_eq!(out, b"".to_vec());
}

#[test]
fn unknown_command_is_a_terminal_error() {
    assert!(matches!(parse_one(b"frob x\r\n"), Err(RequestParseError::Other(_))));
}

#[test]
fn malformed_flags_are_a_terminal_error() {
    assert!(matches!(parse_one(b"set k zz 0\r\nv\r\n"), Err(RequestParseError::Other(_))));
}

#[test]
fn a_partial_request_is_incomplete() {
    assert!(matches!(parse_one(b"get foo"), Err(RequestParseError::Incomplete)));
    assert!(matches!(parse_one(b"set k 1 2\r\nda"), Err(RequestParseError::Incomplete)));
}
