use kvstore::decimal::usize_to_decimal;
use kvstore::encode::{binary_safe_encode, encode_response};
use kvstore::store::Reponse;

#[test]
fn encode_1() {
    let hello = "Hello, World!";

    let enc = binary_safe_encode(hello.as_bytes());

    assert_eq!("$13$Hello, World!".as_bytes(), enc);
}

#[test]
fn encode_empty_field() {
    assert_eq!(b"$0$".to_vec(), binary_safe_encode(b""));
}

#[test]
fn encode_long_field_has_multi_digit_length() {
    let data = vec![b'x'; 1234];
    let enc = binary_safe_encode(&data);
    assert_eq!(b"$1234$".to_vec(), enc[..6].to_vec());
    assert_eq!(enc.len(), 6 + 1234);
    assert_eq!(enc[6..].to_vec(), data);
}

#[test]
fn encode_replies() {
    assert_eq!(b"OK\n".to_vec(), encode_response(Reponse::Okay));
    assert_eq!(b"ERR\n".to_vec(), encode_response(Reponse::Error));
    assert_eq!(
        b"VALUE$3$bar\n".to_vec(),
        encode_response(Reponse::Value(b"bar".to_vec()))
    );
    assert_eq!(b"VALUE$0$\n".to_vec(), encode_response(Reponse::Value(Vec::new())));
}

#[test]
fn decimal_numerals() {
    assert_eq!(b"0".to_vec(), usize_to_decimal(0));
    assert_eq!(b"9".to_vec(), usize_to_decimal(9));
    assert_eq!(b"10".to_vec(), usize_to_decimal(10));
    assert_eq!(b"33554432".to_vec(), usize_to_decimal(33554432));
    assert_eq!(usize::MAX.to_string().into_bytes(), usize_to_decimal(usize::MAX));
}
