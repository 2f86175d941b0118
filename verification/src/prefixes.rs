//! Which buffers the stream waits on: exactly the beginnings of requests.
use vstd::prelude::*;

use crate::decimal::{
    decimal_digits, decimal_value, digit_run, is_digit, lemma_canonical_numeral,
    lemma_decimal_digits_shape, lemma_decimal_value_grows, lemma_decimal_value_of_digits,
    lemma_digit_run_bound, lemma_digit_run_exact,
};
use crate::encode::spec_binary_safe_encode;
use crate::parse::{
    law_data_field_roundtrip, law_parsed_request_is_canonical, lemma_parsed_field_is_canonical,
    spec_encode_request,
    spec_parse_command, spec_parse_string, tag_clr, tag_del, tag_get, tag_set, valid_data,
    valid_request, CommandView, ParseError,
};

verus! {

/// `s` from position `p` on is a proper beginning of the data field of `d`.
pub open spec fn starts_field(s: Seq<u8>, p: int, d: Seq<u8>) -> bool {
    &&& 0 <= p <= s.len()
    &&& s.len() - p < spec_binary_safe_encode(d).len()
    &&& s.skip(p) == spec_binary_safe_encode(d).take(s.len() - p)
}

/// What has arrived of a valid field is waited on, not refused.
pub proof fn lemma_field_start_needs_more(s: Seq<u8>, p: int, d: Seq<u8>)
    requires
        valid_data(d),
        starts_field(s, p, d),
    ensures
        spec_parse_string(s, p) == Err::<(Seq<u8>, int), ParseError>(ParseError::NeedMoreData),
{
    let e = spec_binary_safe_encode(d);
    let m = s.len() - p;
    let digits = decimal_digits(d.len());
    let l = digits.len() as int;
    lemma_decimal_digits_shape(d.len());
    lemma_decimal_value_of_digits(d.len());
    assert(e =~= seq![36u8] + digits + seq![36u8] + d);
    assert forall|j: int| p <= j < s.len() implies s[j] == e[j - p] by {
        assert(s[j] == s.skip(p)[j - p]);
    }
    if m >= 2 {
        assert(s[p] == e[0]);
        let t = s.skip(p + 1);
        assert forall|j: int| 0 <= j < t.len() implies t[j] == e[j + 1] by {
            assert(t[j] == s[p + 1 + j]);
        }
        assert(s[p + 1] == digits[0]);
        if m - 1 <= l {
            assert forall|j: int| 0 <= j < t.len() implies is_digit(#[trigger] t[j]) by {
                assert(t[j] == digits[j]);
            }
            lemma_digit_run_exact(t, t.len() as int);
            let run = t.len() as int;
            assert(s.subrange(p + 1, p + 1 + run) =~= digits.take(run));
            lemma_decimal_value_grows(digits, run);
        } else {
            assert forall|j: int| 0 <= j < l implies is_digit(#[trigger] t[j]) by {
                assert(t[j] == digits[j]);
            }
            assert(t[l] == 36);
            lemma_digit_run_exact(t, l);
            assert(s.subrange(p + 1, p + 1 + l) =~= digits);
            assert(s[p + 1 + l] == 36);
        }
    } else if m == 1 {
        assert(s[p] == e[0]);
    }
}

/// The data of `len` zero bytes.
pub open spec fn zeros(len: nat) -> Seq<u8> {
    Seq::new(len, |i: int| 0u8)
}

/// A field that the stream waits on is the beginning of the field of some
/// valid data: this gives such data.
pub proof fn lemma_field_needs_more_completes(s: Seq<u8>, p: int) -> (d: Seq<u8>)
    requires
        0 <= p <= s.len(),
        spec_parse_string(s, p) == Err::<(Seq<u8>, int), ParseError>(ParseError::NeedMoreData),
    ensures
        valid_data(d),
        starts_field(s, p, d),
{
    if p == s.len() || p + 1 == s.len() {
        let d = zeros(1);
        let e = spec_binary_safe_encode(d);
        lemma_decimal_digits_shape(1);
        assert(e.len() >= 4);
        assert(s.skip(p) =~= e.take(s.len() - p));
        d
    } else {
        let t = s.skip(p + 1);
        lemma_digit_run_bound(t);
        let run = digit_run(t) as int;
        let digits = s.subrange(p + 1, p + 1 + run);
        let len = decimal_value(digits);
        assert forall|j: int| 0 <= j < digits.len() implies is_digit(#[trigger] digits[j]) by {
            assert(digits[j] == t[j]);
        }
        assert(digits[0] == s[p + 1]);
        lemma_canonical_numeral(digits);
        if p + 1 + run == s.len() {
            let d = zeros(len);
            let e = spec_binary_safe_encode(d);
            assert(s.skip(p) =~= seq![36u8] + digits);
            assert(e.take(s.len() - p) =~= seq![36u8] + digits);
            d
        } else {
            let have = s.skip(p + run + 2);
            let d = have + zeros((len - have.len()) as nat);
            let e = spec_binary_safe_encode(d);
            assert(d.len() == len);
            assert(s.skip(p) =~= seq![36u8] + digits + seq![36u8] + have);
            assert(e.take(s.len() - p) =~= seq![36u8] + digits + seq![36u8] + have);
            d
        }
    }
}

/// `s` is a proper beginning of the encoding of the request `c`.
pub open spec fn starts_encoding(s: Seq<u8>, c: CommandView) -> bool {
    &&& s.len() < spec_encode_request(c).len()
    &&& s == spec_encode_request(c).take(s.len() as int)
}

/// `s` is a proper beginning of the encoding of some valid request.
pub open spec fn starts_request(s: Seq<u8>) -> bool {
    exists|c: CommandView| valid_request(c) && #[trigger] starts_encoding(s, c)
}

/// The bytes `s` hold the request tag `tag` and then the start of a field
/// whose data is `d`; when the field is incomplete it is waited on.
proof fn lemma_first_field(s: Seq<u8>, tag: Seq<u8>, d: Seq<u8>, after: Seq<u8>)
    requires
        tag.len() == 3,
        valid_data(d),
        3 <= s.len() <= (tag + spec_binary_safe_encode(d) + after).len(),
        s == (tag + spec_binary_safe_encode(d) + after).take(s.len() as int),
    ensures
        s.len() < 3 + spec_binary_safe_encode(d).len() ==> spec_parse_string(s, 3) == Err::<
            (Seq<u8>, int),
            ParseError,
        >(ParseError::NeedMoreData),
        s.len() >= 3 + spec_binary_safe_encode(d).len() ==> spec_parse_string(s, 3) == Ok::<
            (Seq<u8>, int),
            ParseError,
        >((d, 3 + spec_binary_safe_encode(d).len() as int)),
        s.take(3) == tag,
{
    let e = spec_binary_safe_encode(d);
    let full = tag + e + after;
    assert forall|j: int| 0 <= j < s.len() implies s[j] == full[j] by {
        assert(s[j] == full.take(s.len() as int)[j]);
    }
    assert forall|j: int| 0 <= j < 3 implies s[j] == tag[j] by {
        assert(full[j] == (tag + e)[j]);
    }
    assert(s.take(3) =~= tag);
    if s.len() < 3 + e.len() {
        assert(s.skip(3) =~= e.take(s.len() - 3));
        lemma_field_start_needs_more(s, 3, d);
    } else {
        let rest = s.skip(3 + e.len() as int);
        assert forall|j: int| 3 <= j < 3 + e.len() implies s[j] == e[j - 3] by {
            assert(full[j] == (tag + e)[j]);
        }
        assert(s =~= tag + e + rest);
        law_data_field_roundtrip(tag, d, rest);
    }
}

/// A proper beginning of a valid request is waited on: the stream asks for
/// more bytes, and never refuses it.
pub proof fn law_request_beginning_needs_more(s: Seq<u8>, c: CommandView)
    requires
        valid_request(c),
        starts_encoding(s, c),
    ensures
        spec_parse_command(s) == Err::<(CommandView, int), ParseError>(ParseError::NeedMoreData),
{
    if s.len() >= 3 {
        let nl = seq![10u8];
        match c {
            CommandView::Get(k) => {
                lemma_first_field(s, tag_get(), k, nl);
            },
            CommandView::Delete(k) => {
                lemma_first_field(s, tag_del(), k, nl);
                assert(tag_del() != tag_get()) by {
                    assert(tag_del()[0] != tag_get()[0]);
                }
                assert(tag_del() != tag_set()) by {
                    assert(tag_del()[0] != tag_set()[0]);
                }
            },
            CommandView::Put(k, v) => {
                let ek = spec_binary_safe_encode(k);
                let ev = spec_binary_safe_encode(v);
                assert(spec_encode_request(c) =~= tag_set() + ek + (ev + nl));
                lemma_first_field(s, tag_set(), k, ev + nl);
                assert(tag_set() != tag_get()) by {
                    assert(tag_set()[0] != tag_get()[0]);
                }
                if s.len() >= 3 + ek.len() {
                    let p = 3 + ek.len() as int;
                    assert(spec_encode_request(c) =~= (tag_set() + ek) + ev + nl);
                    if s.len() < p + ev.len() {
                        assert(s.skip(p) =~= ev.take(s.len() - p));
                        lemma_field_start_needs_more(s, p, v);
                    } else {
                        let rest = s.skip(p + ev.len() as int);
                        assert(s =~= (tag_set() + ek) + ev + rest);
                        law_data_field_roundtrip(tag_set() + ek, v, rest);
                    }
                }
            },
            CommandView::Clear => {
                assert(s.take(3) =~= tag_clr());
                assert(tag_clr() != tag_get()) by {
                    assert(tag_clr()[0] != tag_get()[0]);
                }
                assert(tag_clr() != tag_set()) by {
                    assert(tag_clr()[0] != tag_set()[0]);
                }
                assert(tag_clr() != tag_del()) by {
                    assert(tag_clr()[0] != tag_del()[0]);
                }
            },
        }
    }
}

/// A buffer of at least three bytes that the stream waits on is a proper
/// beginning of a valid request: this gives such a request.
pub proof fn law_needs_more_is_request_beginning(s: Seq<u8>) -> (c: CommandView)
    requires
        s.len() >= 3,
        spec_parse_command(s) == Err::<(CommandView, int), ParseError>(ParseError::NeedMoreData),
    ensures
        valid_request(c),
        starts_encoding(s, c),
{
    let op = s.take(3);
    let nl = seq![10u8];
    let m = s.len() as int;
    if op == tag_get() || op == tag_del() {
        let k = if spec_parse_string(s, 3) is Ok {
            lemma_parsed_field_is_canonical(s, 3);
            spec_parse_string(s, 3).unwrap().0
        } else {
            lemma_field_needs_more_completes(s, 3)
        };
        let c = if op == tag_get() {
            CommandView::Get(k)
        } else {
            CommandView::Delete(k)
        };
        let ek = spec_binary_safe_encode(k);
        assert(spec_encode_request(c) =~= op + ek + nl);
        assert(s =~= op + s.skip(3));
        assert(s =~= spec_encode_request(c).take(m));
        c
    } else if op == tag_set() {
        let k = if spec_parse_string(s, 3) is Ok {
            lemma_parsed_field_is_canonical(s, 3);
            spec_parse_string(s, 3).unwrap().0
        } else {
            lemma_field_needs_more_completes(s, 3)
        };
        let ek = spec_binary_safe_encode(k);
        let v = if spec_parse_string(s, 3) is Ok {
            let p = spec_parse_string(s, 3).unwrap().1;
            if spec_parse_string(s, p) is Ok {
                lemma_parsed_field_is_canonical(s, p);
                spec_parse_string(s, p).unwrap().0
            } else {
                lemma_field_needs_more_completes(s, p)
            }
        } else {
            zeros(1)
        };
        let c = CommandView::Put(k, v);
        let ev = spec_binary_safe_encode(v);
        lemma_decimal_digits_shape(1);
        assert(spec_encode_request(c) =~= op + ek + ev + nl);
        if spec_parse_string(s, 3) is Ok {
            let p = 3 + ek.len() as int;
            assert(s =~= op + ek + s.skip(p));
        } else {
            assert(s =~= op + s.skip(3));
        }
        assert(s =~= spec_encode_request(c).take(m));
        c
    } else {
        assert(op == tag_clr());
        let c = CommandView::Clear;
        assert(s =~= spec_encode_request(c).take(m));
        c
    }
}

/// The stream waits on a buffer of at least three bytes exactly when it is a
/// proper beginning of some valid request.
pub proof fn law_needs_more_exactly_on_beginnings(s: Seq<u8>)
    requires
        s.len() >= 3,
    ensures
        (spec_parse_command(s) == Err::<(CommandView, int), ParseError>(ParseError::NeedMoreData))
            <==> starts_request(s),
{
    if spec_parse_command(s) == Err::<(CommandView, int), ParseError>(ParseError::NeedMoreData) {
        let c = law_needs_more_is_request_beginning(s);
        assert(valid_request(c) && starts_encoding(s, c));
    }
    if starts_request(s) {
        let c = choose|c: CommandView| valid_request(c) && #[trigger] starts_encoding(s, c);
        law_request_beginning_needs_more(s, c);
    }
}

/// `s` starts with the whole encoding of the request `c`.
pub open spec fn starts_with_encoding(s: Seq<u8>, c: CommandView) -> bool {
    &&& spec_encode_request(c).len() <= s.len()
    &&& s.take(spec_encode_request(c).len() as int) == spec_encode_request(c)
}

/// A buffer of at least three bytes that neither starts with a valid request
/// nor is a proper beginning of one breaks the grammar: it is refused, and the
/// stream stops on it.
pub proof fn law_violation_is_refused(s: Seq<u8>)
    requires
        s.len() >= 3,
        !starts_request(s),
        forall|c: CommandView| valid_request(c) ==> !#[trigger] starts_with_encoding(s, c),
    ensures
        spec_parse_command(s) == Err::<(CommandView, int), ParseError>(ParseError::InvalidPrefix),
{
    if spec_parse_command(s) is Ok {
        law_parsed_request_is_canonical(s);
        let (c, n) = spec_parse_command(s).unwrap();
        assert(starts_with_encoding(s, c));
    } else if spec_parse_command(s) == Err::<(CommandView, int), ParseError>(
        ParseError::NeedMoreData,
    ) {
        let c = law_needs_more_is_request_beginning(s);
        assert(valid_request(c) && starts_encoding(s, c));
    }
}

} // verus!
