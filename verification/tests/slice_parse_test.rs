use kvstore::store::parse::{parse_command, parse_string, Command};

#[test]
fn slice_parser_reads_get_and_set() {
    match parse_command(b"GET$3$foo") {
        Some(Command::Get(k)) => assert_eq!(k, b"foo"),
        _ => panic!("expected GET"),
    }
    match parse_command(b"SET$3$foo$5$hello trailing") {
        Some(Command::Put(k, v)) => {
            assert_eq!(k, b"foo");
            assert_eq!(v, b"hello");
        }
        _ => panic!("expected SET"),
    }
}

#[test]
fn slice_parser_rejects_other_input() {
    assert!(parse_command(b"GE").is_none());
    assert!(parse_command(b"DEL$1$a").is_none());
    assert!(parse_command(b"GET$3$fo").is_none());
    assert!(parse_command(b"GET$3x$foo").is_none());
    assert!(parse_command(b"GET$99999999999999999999999$a").is_none());
    assert!(parse_command(b"SET$3$foo").is_none());
    assert!(parse_command(b"GET$12").is_none());
}

#[test]
fn slice_parser_follows_the_grammar() {
    // A zero length, a leading zero and a field without `$` break the grammar.
    assert!(parse_command(b"GET$0$").is_none());
    assert!(parse_command(b"GET$003$abc").is_none());
    assert!(parse_command(b"GETxy").is_none());
    assert!(parse_command(b"GET$$").is_none());
    assert!(parse_command(b"GET$1$x").is_some());
}

#[test]
fn slice_field_reader_hands_on_the_rest() {
    let mut bytes = kvstore::encode::binary_safe_encode(b"key");
    bytes.extend_from_slice(b"tail");
    match parse_string(&bytes) {
        Some((d, rest)) => {
            assert_eq!(d, b"key");
            assert_eq!(rest, b"tail");
        }
        None => panic!("expected a field"),
    }
    assert!(parse_string(b"ab").is_none());
}

#[test]
fn describe_slice_requests() {
    assert_eq!(parse_command(b"GET$3$foo").unwrap().describe(), b"Get foo".to_vec());
    assert_eq!(
        parse_command(b"SET$1$a$1$\xff").unwrap().describe(),
        b"Set a [Invalid ASCII]".to_vec()
    );
}
