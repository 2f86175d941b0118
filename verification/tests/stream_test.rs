use kvstore::encode::encode_response;
use kvstore::store::KVStore;
use kvstore::encode::binary_safe_encode;
use kvstore::parse::{Command, CommandStream, ParseError, StreamAction};

fn stream_of(bytes: &[u8]) -> CommandStream {
    let mut s = CommandStream::new();
    assert!(matches!(s.receive(bytes), StreamAction::ReadMore));
    s
}

fn parse_all(bytes: &[u8]) -> Result<Command, ParseError> {
    let mut s = CommandStream::new();
    match s.receive(bytes) {
        StreamAction::Emit(c) => Ok(c),
        StreamAction::Stop => Err(ParseError::InvalidPrefix),
        StreamAction::ReadMore => Err(ParseError::NeedMoreData),
    }
}

fn key_of(c: &Command) -> Vec<u8> {
    match c {
        Command::Get(k) | Command::Delete(k) => k.clone(),
        Command::Put(k, _) => k.clone(),
        Command::Clear => Vec::new(),
    }
}

#[test]
fn parses_each_request_kind() {
    match parse_all(b"GET$3$foo\n") {
        Ok(Command::Get(k)) => assert_eq!(k, b"foo".to_vec()),
        _ => panic!("expected GET"),
    }
    match parse_all(b"SET$3$foo$3$bar\n") {
        Ok(Command::Put(k, v)) => {
            assert_eq!(k, b"foo".to_vec());
            assert_eq!(v, b"bar".to_vec());
        }
        _ => panic!("expected SET"),
    }
    match parse_all(b"DEL$1$a\n") {
        Ok(Command::Delete(k)) => assert_eq!(k, b"a".to_vec()),
        _ => panic!("expected DEL"),
    }
    assert!(matches!(parse_all(b"CLR\n"), Ok(Command::Clear)));
}

#[test]
fn data_may_hold_any_byte() {
    match parse_all(b"GET$4$a$\n\x00\n") {
        Ok(Command::Get(k)) => assert_eq!(k, b"a$\n\x00".to_vec()),
        _ => panic!("expected GET"),
    }
}

#[test]
fn multi_digit_length() {
    let data = vec![b'z'; 12];
    let mut req = b"GET".to_vec();
    req.extend_from_slice(&binary_safe_encode(&data));
    req.push(b'\n');
    match parse_all(&req) {
        Ok(c) => assert_eq!(key_of(&c), data),
        _ => panic!("expected GET"),
    }
}

#[test]
fn incomplete_requests_need_more_data() {
    for partial in [&b"GE"[..], b"GET", b"GET$", b"SET$3$foo", b"SET$3$foo$", b"GET$3$fo", b"GET$3$foo", b"SET$3$foo$3$ba", b"CLR", b"GET$12"] {
        assert!(matches!(parse_all(partial), Err(ParseError::NeedMoreData)), "{:?}", partial);
    }
}

#[test]
fn broken_requests_are_invalid() {
    for bad in [
        &b"PUT$3$foo\n"[..],
        b"GET$0$\n",
        b"GET$03$foo\n",
        b"GET$3x$foo\n",
        b"GET3$foo\n",
        b"GET$$foo\n",
        b"GET$3$fooX",
        b"CLRX",
        b"GET$33554433$",
        b"GET$99999999999999999999999999$",
    ] {
        assert!(matches!(parse_all(bad), Err(ParseError::InvalidPrefix)), "{:?}", bad);
    }
}

#[test]
fn largest_length_is_accepted_in_header() {
    assert!(matches!(parse_all(b"GET$33554432$abc"), Err(ParseError::NeedMoreData)));
}

#[test]
fn requests_split_across_reads() {
    let mut s = CommandStream::new();
    assert!(matches!(s.resume(), StreamAction::ReadMore));
    assert!(matches!(s.receive(b"SE"), StreamAction::ReadMore));
    assert!(matches!(s.receive(b"T$3$fo"), StreamAction::ReadMore));
    assert!(matches!(s.receive(b"o$3$bar"), StreamAction::ReadMore));
    match s.receive(b"\nGET$3$foo\nCL") {
        StreamAction::Emit(Command::Put(k, v)) => {
            assert_eq!(k, b"foo".to_vec());
            assert_eq!(v, b"bar".to_vec());
        }
        _ => panic!("expected SET"),
    }
    match s.resume() {
        StreamAction::Emit(Command::Get(k)) => assert_eq!(k, b"foo".to_vec()),
        _ => panic!("expected GET"),
    }
    assert!(matches!(s.resume(), StreamAction::ReadMore));
    assert!(matches!(s.receive(b"R\n"), StreamAction::Emit(Command::Clear)));
    assert!(matches!(s.resume(), StreamAction::ReadMore));
    assert!(matches!(s.receive(b""), StreamAction::Stop));
}

#[test]
fn end_of_stream_takes_a_last_complete_request() {
    let mut s = stream_of(b"GET$1$a");
    assert!(matches!(s.receive(b"\n"), StreamAction::Emit(Command::Get(_))));
    let mut s = stream_of(b"GET$1$a");
    assert!(matches!(s.receive(b""), StreamAction::Stop));
}

#[test]
fn broken_stream_stops() {
    let mut s = CommandStream::new();
    assert!(matches!(s.receive(b"HELLO\n"), StreamAction::Stop));
}

#[test]
fn parse_command_takes_one_request_at_a_time() {
    let mut s = CommandStream::new();
    assert!(matches!(s.receive(b"DEL$1$k\nGET$1$"), StreamAction::Emit(Command::Delete(_))));
    assert!(matches!(s.parse_command(), Err(ParseError::NeedMoreData)));
    let mut t = CommandStream::new();
    assert!(matches!(t.receive(b"CLR\nCLR\n"), StreamAction::Emit(Command::Clear)));
    assert!(matches!(t.parse_command(), Ok(Command::Clear)));
    assert!(matches!(t.parse_command(), Err(ParseError::NeedMoreData)));
}

fn request(op: &[u8], fields: &[&[u8]]) -> Vec<u8> {
    let mut r = op.to_vec();
    for f in fields {
        r.extend_from_slice(&binary_safe_encode(f));
    }
    r.push(b'\n');
    r
}

#[test]
fn encoded_requests_read_back_with_anything_after() {
    let long = vec![0xffu8; 1000];
    let cases: Vec<Vec<u8>> = vec![
        request(b"GET", &[b"key"]),
        request(b"SET", &[b"key", &long]),
        request(b"DEL", &[b"\n$"]),
        request(b"CLR", &[]),
    ];
    for req in cases {
        let mut bytes = req.clone();
        bytes.extend_from_slice(b"junk");
        let mut s = CommandStream::new();
        let c = match s.receive(&bytes) {
            StreamAction::Emit(c) => c,
            _ => panic!("expected a request"),
        };
        match (&c, &req[..3]) {
            (Command::Get(k), b"GET") => assert_eq!(k, b"key"),
            (Command::Put(k, v), b"SET") => {
                assert_eq!(k, b"key");
                assert_eq!(v, &long);
            }
            (Command::Delete(k), b"DEL") => assert_eq!(k, b"\n$"),
            (Command::Clear, b"CLR") => {}
            _ => panic!("wrong request"),
        }
        // What is left is exactly the bytes after the request.
        assert!(matches!(s.receive(b""), StreamAction::Stop));
        assert!(matches!(s.parse_command(), Err(ParseError::InvalidPrefix)));
    }
}

#[test]
fn more_bytes_do_not_change_a_complete_request() {
    for tail in [&b""[..], b"X", b"GET$1$b\n"] {
        let mut bytes = b"GET$1$a\n".to_vec();
        bytes.extend_from_slice(tail);
        match parse_all(&bytes) {
            Ok(Command::Get(k)) => assert_eq!(k, b"a"),
            _ => panic!("expected GET"),
        }
    }
}

#[test]
fn refusals_are_final() {
    // Broken in its own bytes: no continuation helps.
    for (head, tail) in [(&b"PUT"[..], &b"$1$a\n"[..]), (b"GET$0", b"1$a\n"), (b"GET$1$aX", b"\n")] {
        let mut bytes = head.to_vec();
        bytes.extend_from_slice(tail);
        assert!(matches!(parse_all(head), Err(ParseError::InvalidPrefix)));
        assert!(matches!(parse_all(&bytes), Err(ParseError::InvalidPrefix)));
    }
    // Ending where a field begins is waited on: more bytes complete it.
    assert!(matches!(parse_all(b"GET"), Err(ParseError::NeedMoreData)));
    assert!(matches!(parse_all(b"GET$1$a\n"), Ok(Command::Get(_))));
}

#[test]
fn value_reply_data_reads_back() {
    let reply = kvstore::encode::encode_response(kvstore::store::Reponse::Value(b"v\n1".to_vec()));
    let mut req = b"GET".to_vec();
    req.extend_from_slice(&reply[5..]);
    match parse_all(&req) {
        Ok(Command::Get(k)) => assert_eq!(k, b"v\n1"),
        _ => panic!("expected GET"),
    }
}

#[test]
fn any_split_of_requests_yields_them() {
    let mut all = request(b"SET", &[b"foo", b"bar"]);
    all.extend_from_slice(&request(b"GET", &[b"foo"]));
    all.extend_from_slice(&request(b"CLR", &[]));
    for size in 1..all.len() + 1 {
        let mut s = CommandStream::new();
        let mut got = Vec::new();
        let mut action = s.resume();
        let mut chunks = all.chunks(size);
        loop {
            match action {
                StreamAction::Emit(c) => {
                    got.push(c);
                    action = s.resume();
                }
                StreamAction::Stop => break,
                StreamAction::ReadMore => {
                    action = s.receive(chunks.next().unwrap_or(&[]));
                }
            }
        }
        assert_eq!(got.len(), 3, "reads of {} bytes", size);
        assert!(matches!(&got[0], Command::Put(k, v) if k == b"foo" && v == b"bar"));
        assert!(matches!(&got[1], Command::Get(k) if k == b"foo"));
        assert!(matches!(got[2], Command::Clear));
    }
}

#[test]
fn split_right_after_the_operation() {
    let mut s = CommandStream::new();
    assert!(matches!(s.receive(b"GET"), StreamAction::ReadMore));
    match s.receive(b"$3$foo\n") {
        StreamAction::Emit(Command::Get(k)) => assert_eq!(k, b"foo"),
        _ => panic!("expected GET"),
    }
}

#[test]
fn a_stopped_stream_stays_stopped() {
    let mut s = CommandStream::new();
    assert!(matches!(s.receive(b"GET$0$"), StreamAction::Stop));
    assert!(matches!(s.resume(), StreamAction::Stop));
    assert!(matches!(s.receive(b"\nGET$1$a\n"), StreamAction::Stop));
    assert!(matches!(s.receive(b""), StreamAction::Stop));
}

#[test]
fn field_reader_on_its_own() {
    let mut s = CommandStream::new();
    assert!(matches!(s.receive(b"xx$3$abc$"), StreamAction::Stop));
    match s.parse_string(2) {
        Ok((d, e)) => {
            assert_eq!(d, b"abc");
            assert_eq!(e, 8);
        }
        _ => panic!("expected a field"),
    }
    assert!(matches!(s.parse_string(8), Err(ParseError::NeedMoreData)));
    assert!(matches!(s.parse_string(9), Err(ParseError::NeedMoreData)));
    assert!(matches!(s.parse_string(0), Err(ParseError::InvalidPrefix)));
}

#[test]
fn describe_requests() {
    assert_eq!(Command::Get(b"foo".to_vec()).describe(), b"Get foo".to_vec());
    assert_eq!(
        Command::Put(b"foo".to_vec(), b"bar".to_vec()).describe(),
        b"Set foo bar".to_vec()
    );
    assert_eq!(Command::Delete(vec![0xff]).describe(), b"Delete [Invalid ASCII]".to_vec());
    assert_eq!(Command::Clear.describe(), b"Purge".to_vec());
}

#[test]
fn any_split_gets_the_same_replies() {
    let mut all = request(b"GET", &[b"k"]);
    all.extend_from_slice(&request(b"SET", &[b"k", b"v1"]));
    all.extend_from_slice(&request(b"GET", &[b"k"]));
    all.extend_from_slice(&request(b"DEL", &[b"k"]));
    all.extend_from_slice(&request(b"DEL", &[b"k"]));
    let expected = b"ERR\nOK\nVALUE$2$v1\nOK\nERR\n".to_vec();
    for size in 1..all.len() + 1 {
        let mut store = KVStore::new();
        let mut s = CommandStream::new();
        let mut written = Vec::new();
        let mut action = s.resume();
        let mut chunks = all.chunks(size);
        loop {
            match action {
                StreamAction::Emit(c) => {
                    written.extend_from_slice(&encode_response(store.exec_command(c)));
                    action = s.resume();
                }
                StreamAction::Stop => break,
                StreamAction::ReadMore => action = s.receive(chunks.next().unwrap_or(&[])),
            }
        }
        assert_eq!(written, expected, "reads of {} bytes", size);
    }
}
