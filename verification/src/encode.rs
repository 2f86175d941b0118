//! The replies of the protocol, as bytes.
//!
//! A successful `SET`, `DEL` or `CLR` is answered `OK\n`, a successful `GET`
//! `VALUE` data `\n`, and a request that cannot be executed `ERR\n`.
use vstd::prelude::*;

use crate::decimal::{decimal_digits, usize_to_decimal};
use crate::parse::{law_data_field_roundtrip, spec_parse_string, valid_data, ParseError};
use crate::store::{Reponse, ReponseView};

verus! {

/// The data field of `s`: `$`, the length of `s` in decimal, `$`, then `s`.
pub open spec fn spec_binary_safe_encode(s: Seq<u8>) -> Seq<u8> {
    seq![36u8] + decimal_digits(s.len()) + seq![36u8] + s
}

pub open spec fn reply_ok() -> Seq<u8> {
    seq![79u8, 75u8, 10u8]
}

pub open spec fn reply_err() -> Seq<u8> {
    seq![69u8, 82u8, 82u8, 10u8]
}

/// The bytes `VALUE`.
pub open spec fn value_tag() -> Seq<u8> {
    seq![86u8, 65u8, 76u8, 85u8, 69u8]
}

/// The reply that carries the value `v`.
pub open spec fn reply_value(v: Seq<u8>) -> Seq<u8> {
    value_tag() + spec_binary_safe_encode(v) + seq![10u8]
}

/// The bytes that answer a response.
pub open spec fn spec_encode_response(r: ReponseView) -> Seq<u8> {
    match r {
        ReponseView::Okay => reply_ok(),
        ReponseView::Error => reply_err(),
        ReponseView::Value(v) => reply_value(v),
    }
}

/// The bytes sent back for `resp`.
pub fn encode_response(resp: Reponse) -> (r: Vec<u8>)
    ensures
        r@ == spec_encode_response(resp@),
{
    match resp {
        Reponse::Okay => encode_ok(),
        Reponse::Error => encode_err(),
        Reponse::Value(data) => encode_value(data.as_slice()),
    }
}

fn encode_value(value: &[u8]) -> (r: Vec<u8>)
    ensures
        r@ == reply_value(value@),
{
    let mut value_v = binary_safe_encode(value);
    let mut ret: Vec<u8> = Vec::new();
    ret.push(86);
    ret.push(65);
    ret.push(76);
    ret.push(85);
    ret.push(69);
    assert(ret@ =~= value_tag());
    ret.append(&mut value_v);
    ret.push(10);
    assert(ret@ =~= reply_value(value@));
    ret
}

fn encode_ok() -> (r: Vec<u8>)
    ensures
        r@ == reply_ok(),
{
    let r = vec![79u8, 75u8, 10u8];
    assert(r@ =~= reply_ok());
    r
}

fn encode_err() -> (r: Vec<u8>)
    ensures
        r@ == reply_err(),
{
    let r = vec![69u8, 82u8, 82u8, 10u8];
    assert(r@ =~= reply_err());
    r
}

/// `string` as a data field: `$`, its length in decimal, `$`, then its bytes.
pub fn binary_safe_encode(string: &[u8]) -> (r: Vec<u8>)
    ensures
        r@ == spec_binary_safe_encode(string@),
{
    let mut length = usize_to_decimal(string.len());
    let mut ret: Vec<u8> = Vec::new();
    ret.push(36);
    ret.append(&mut length);
    ret.push(36);
    assert(ret@ =~= seq![36u8] + decimal_digits(string@.len()) + seq![36u8] + string@.take(0));
    let mut i: usize = 0;
    while i < string.len()
        invariant
            i <= string@.len(),
            ret@ == seq![36u8] + decimal_digits(string@.len()) + seq![36u8] + string@.take(
                i as int,
            ),
        decreases string@.len() - i,
    {
        ret.push(string[i]);
        i += 1;
        assert(ret@ =~= seq![36u8] + decimal_digits(string@.len()) + seq![36u8] + string@.take(
            i as int,
        ));
    }
    assert(string@.take(i as int) =~= string@);
    ret
}

/// The data of a `VALUE` reply is read back whole by the grammar's own field
/// reader, whatever bytes it carries.
pub proof fn law_value_reply_readable(v: Seq<u8>, rest: Seq<u8>)
    requires
        valid_data(v),
    ensures
        spec_parse_string(reply_value(v) + rest, 5) == Ok::<(Seq<u8>, int), ParseError>(
            (v, reply_value(v).len() - 1),
        ),
{
    law_data_field_roundtrip(value_tag(), v, seq![10u8] + rest);
    assert(reply_value(v) + rest =~= value_tag() + spec_binary_safe_encode(v) + (seq![10u8]
        + rest));
}

/// Every reply ends with a newline: `OK\n`, `ERR\n`, and for a value `v`
/// the bytes `VALUE`, the field of `v`, then a newline, whatever the length
/// of `v`.
pub proof fn law_replies_end_in_newline(v: Seq<u8>)
    ensures
        spec_encode_response(ReponseView::Okay) == seq![79u8, 75u8, 10u8],
        spec_encode_response(ReponseView::Error) == seq![69u8, 82u8, 82u8, 10u8],
        spec_encode_response(ReponseView::Value(v)) == seq![86u8, 65u8, 76u8, 85u8, 69u8]
            + seq![36u8] + decimal_digits(v.len()) + seq![36u8] + v + seq![10u8],
        spec_encode_response(ReponseView::Value(v)).last() == 10,
{
    let r = spec_encode_response(ReponseView::Value(v));
    assert(r =~= seq![86u8, 65u8, 76u8, 85u8, 69u8] + seq![36u8] + decimal_digits(v.len())
        + seq![36u8] + v + seq![10u8]);
}

} // verus!
