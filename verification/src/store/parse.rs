//! A parser for `GET` and `SET` requests held whole in one byte slice; the
//! parts of a request are handed back as slices of it.
use vstd::prelude::*;

use crate::decimal::{
    decimal_digits, decimal_value, digit_run, is_digit, lemma_decimal_digits_shape,
    lemma_decimal_value_grows, lemma_decimal_value_of_digits, lemma_decimal_value_step,
    lemma_digit_run_bound, lemma_digit_run_exact,
};
use crate::encode::spec_binary_safe_encode;

verus! {

/// A request whose byte strings borrow from the parsed slice.
pub enum Command<'a> {
    Get(&'a [u8]),
    Put(&'a [u8], &'a [u8]),
}

pub enum CommandView {
    Get(Seq<u8>),
    Put(Seq<u8>, Seq<u8>),
}

impl<'a> View for Command<'a> {
    type V = CommandView;

    open spec fn view(&self) -> CommandView {
        match self {
            Command::Get(k) => CommandView::Get(k@),
            Command::Put(k, v) => CommandView::Put(k@, v@),
        }
    }
}

/// The string field at the start of `s`, and what follows it.
///
/// A field is `$`, a length, `$`, then as many bytes as the length says. The
/// length is a non-empty run of digits that does not start with `0`. Anything
/// else in the header, or a field longer than `s`, gives nothing.
pub open spec fn spec_parse_string(s: Seq<u8>) -> Option<(Seq<u8>, Seq<u8>)> {
    if s.len() > 0 && s[0] == 36 {
        let run = digit_run(s.skip(1)) as int;
        let len = decimal_value(s.subrange(1, 1 + run));
        if run == 0 || s[1] == 48 || (1 + run < s.len() && s[1 + run] != 36) {
            None
        } else if run + 2 + len <= s.len() {
            Some((s.subrange(run + 2, run + 2 + len), s.skip(run + 2 + len)))
        } else {
            None
        }
    } else {
        None
    }
}

/// The request that `command` holds: `GET` and one field, or `SET` and two
/// fields; what follows them is not looked at.
pub open spec fn spec_parse_command(command: Seq<u8>) -> Option<CommandView> {
    if command.len() < 3 {
        None
    } else if command.take(3) == seq![71u8, 69u8, 84u8] {
        match spec_parse_string(command.skip(3)) {
            Some((k, _)) => Some(CommandView::Get(k)),
            None => None,
        }
    } else if command.take(3) == seq![83u8, 69u8, 84u8] {
        match spec_parse_string(command.skip(3)) {
            Some((k, next)) => match spec_parse_string(next) {
                Some((v, _)) => Some(CommandView::Put(k, v)),
                None => None,
            },
            None => None,
        }
    } else {
        None
    }
}

/// The request held in `command`.
pub fn parse_command<'a>(command: &'a [u8]) -> (r: Option<Command<'a>>)
    ensures
        match spec_parse_command(command@) {
            Some(c) => r matches Some(x) && x@ == c,
            None => r is None,
        },
{
    let n = command.len();
    if n >= 3 {
        let rest = &command[3..n];
        proof {
            assert(rest@ =~= command@.skip(3));
            assert(command@.take(3) =~= seq![command@[0], command@[1], command@[2]]);
        }
        if command[0] == 71 && command[1] == 69 && command[2] == 84 {
            return parse_get(rest);
        } else if command[0] == 83 && command[1] == 69 && command[2] == 84 {
            return parse_set(rest);
        }
    }
    None
}

fn parse_get<'a>(command: &'a [u8]) -> (r: Option<Command<'a>>)
    ensures
        match spec_parse_string(command@) {
            Some((k, _)) => r matches Some(x) && x@ == CommandView::Get(k),
            None => r is None,
        },
{
    match parse_string(command) {
        Some((key, _)) => Some(Command::Get(key)),
        None => None,
    }
}

fn parse_set<'a>(command: &'a [u8]) -> (r: Option<Command<'a>>)
    ensures
        match spec_parse_string(command@) {
            Some((k, next)) => match spec_parse_string(next) {
                Some((v, _)) => r matches Some(x) && x@ == CommandView::Put(k, v),
                None => r is None,
            },
            None => r is None,
        },
{
    match parse_string(command) {
        Some((key, next)) => match parse_string(next) {
            Some((value, _)) => Some(Command::Put(key, value)),
            None => None,
        },
        None => None,
    }
}

/// The field at the start of `command`, and the bytes after it.
pub fn parse_string<'a>(command: &'a [u8]) -> (r: Option<(&'a [u8], &'a [u8])>)
    ensures
        match spec_parse_string(command@) {
            Some((d, rest)) => r matches Some((a, b)) && a@ == d && b@ == rest,
            None => r is None,
        },
{
    let n = command.len();
    let ghost s = command@;
    if n == 0 || command[0] != 36 {
        return None;
    }
    let ghost t = s.skip(1);
    proof {
        lemma_digit_run_bound(t);
    }
    let mut i: usize = 1;
    let mut length: usize = 0;
    while i < n
        invariant_except_break
            s == command@,
            n == s.len(),
            t == s.skip(1),
            n > 0 && s[0] == 36,
            1 <= i <= n,
            forall|j: int| 1 <= j < i ==> is_digit(#[trigger] s[j]),
            length == decimal_value(t.take(i - 1)),
            length <= n,
            i > 1 ==> s[1] != 48,
            digit_run(t) <= t.len(),
            forall|j: int| 0 <= j < digit_run(t) ==> is_digit(#[trigger] t[j]),
            digit_run(t) < t.len() ==> !is_digit(t[digit_run(t) as int]),
        ensures
            s == command@,
            n == s.len(),
            t == s.skip(1),
            n > 0 && s[0] == 36,
            1 <= i <= n,
            forall|j: int| 1 <= j < i ==> is_digit(#[trigger] s[j]),
            length == decimal_value(t.take(i - 1)),
            length <= n,
            i > 1 ==> s[1] != 48,
            i < n ==> s[i as int] == 36,
        decreases n - i,
    {
        let b = command[i];
        if b == 36 {
            break;
        }
        if b < 48 || b > 57 {
            proof {
                let k = i - 1;
                assert forall|j: int| 0 <= j < k implies is_digit(#[trigger] t[j]) by {
                    assert(t[j] == s[1 + j]);
                }
                assert(t[k] == s[i as int]);
                lemma_digit_run_exact(t, k);
            }
            return None;
        }
        let d = (b - 48) as usize;
        if i == 1 && d == 0 {
            proof {
                assert(t[0] == s[1]);
            }
            return None;
        }
        proof {
            lemma_decimal_value_step(t, i - 1);
            assert(t[i - 1] == s[i as int]);
        }
        if d > n || length > (n - d) / 10 {
            proof {
                assert(length * 10 + d > n) by (nonlinear_arith)
                    requires
                        d > n || length > (n - d) / 10,
                ;
                let k = i as int;
                let r = digit_run(t) as int;
                assert forall|j: int| 0 <= j < k implies is_digit(#[trigger] t[j]) by {
                    assert(t[j] == s[1 + j]);
                }
                if r < k {
                    assert(is_digit(t[r]));
                }
                let run_digits = t.take(r);
                assert(run_digits.take(k) =~= t.take(k));
                lemma_decimal_value_grows(run_digits, k);
                assert(s.subrange(1, 1 + r) =~= run_digits);
            }
            return None;
        }
        proof {
            assert(length * 10 + d <= n) by (nonlinear_arith)
                requires
                    d <= n,
                    length <= (n - d) / 10,
            ;
        }
        length = length * 10 + d;
        i += 1;
    }
    let k = i - 1;
    proof {
        assert forall|j: int| 0 <= j < k implies is_digit(#[trigger] t[j]) by {
            assert(t[j] == s[1 + j]);
        }
        if i < n {
            assert(t[k as int] == s[i as int]);
        }
        lemma_digit_run_exact(t, k as int);
        assert(s.subrange(1, 1 + k) =~= t.take(k as int));
    }
    if k == 0 || i == n || length > n - (i + 1) {
        return None;
    }
    let h = i + 1;
    let string = &command[h..h + length];
    let next = &command[h + length..n];
    proof {
        assert(next@ =~= s.skip(h + length));
    }
    Some((string, next))
}

/// A non-empty field as `binary_safe_encode` writes it is read back whole,
/// and what follows it is handed on untouched.
pub proof fn law_field_roundtrip(d: Seq<u8>, rest: Seq<u8>)
    requires
        d.len() >= 1,
    ensures
        spec_parse_string(spec_binary_safe_encode(d) + rest) == Some((d, rest)),
{
    let digits = decimal_digits(d.len());
    let s = spec_binary_safe_encode(d) + rest;
    let m = digits.len() as int;
    lemma_decimal_digits_shape(d.len());
    lemma_decimal_value_of_digits(d.len());
    let t = s.skip(1);
    assert(t =~= digits + seq![36u8] + d + rest);
    assert forall|j: int| 0 <= j < m implies is_digit(#[trigger] t[j]) by {
        assert(t[j] == digits[j]);
    }
    assert(t[m] == 36);
    lemma_digit_run_exact(t, m);
    assert(s.subrange(1, 1 + m) =~= digits);
    assert(s[1] == digits[0]);
    assert(s[1 + m] == 36);
    assert(s.subrange(m + 2, m + 2 + d.len()) =~= d);
    assert(s.skip(m + 2 + d.len()) =~= rest);
}

/// `GET` and a non-empty field as `binary_safe_encode` writes it is read as a
/// `GET` of that key, whatever follows.
pub proof fn law_get_roundtrip(k: Seq<u8>, rest: Seq<u8>)
    requires
        k.len() >= 1,
    ensures
        spec_parse_command(seq![71u8, 69u8, 84u8] + spec_binary_safe_encode(k) + rest) == Some(
            CommandView::Get(k),
        ),
{
    let s = seq![71u8, 69u8, 84u8] + spec_binary_safe_encode(k) + rest;
    law_field_roundtrip(k, rest);
    assert(s.skip(3) =~= spec_binary_safe_encode(k) + rest);
    assert(s.take(3) =~= seq![71u8, 69u8, 84u8]);
}

/// `SET` and two non-empty fields as `binary_safe_encode` writes them is read
/// as a `SET` of that key to that value, whatever follows.
pub proof fn law_set_roundtrip(k: Seq<u8>, v: Seq<u8>, rest: Seq<u8>)
    requires
        k.len() >= 1,
        v.len() >= 1,
    ensures
        spec_parse_command(
            seq![83u8, 69u8, 84u8] + spec_binary_safe_encode(k) + spec_binary_safe_encode(v) + rest,
        ) == Some(CommandView::Put(k, v)),
{
    let s = seq![83u8, 69u8, 84u8] + spec_binary_safe_encode(k) + spec_binary_safe_encode(v) + rest;
    let next = spec_binary_safe_encode(v) + rest;
    law_field_roundtrip(k, next);
    law_field_roundtrip(v, rest);
    assert(s.skip(3) =~= spec_binary_safe_encode(k) + next);
    assert(s.take(3) =~= seq![83u8, 69u8, 84u8]);
    assert(s.take(3) != seq![71u8, 69u8, 84u8]) by {
        assert(s.take(3)[0] != seq![71u8, 69u8, 84u8][0]);
    }
}

/// The slice parser gives a request only for input that starts with `GET` or
/// `SET`: a `GET` comes only from input starting with `GET`, a `SET` only from
/// input starting with `SET`, and anything else (`DEL`, `CLR`, fewer than
/// three bytes, ...) gives nothing.
pub proof fn law_only_get_and_set(command: Seq<u8>)
    ensures
        spec_parse_command(command) matches Some(CommandView::Get(_)) ==> command.len() >= 3
            && command.take(3) == seq![71u8, 69u8, 84u8],
        spec_parse_command(command) matches Some(CommandView::Put(_, _)) ==> command.len() >= 3
            && command.take(3) == seq![83u8, 69u8, 84u8],
        (command.len() < 3 || (command.take(3) != seq![71u8, 69u8, 84u8] && command.take(3)
            != seq![83u8, 69u8, 84u8])) ==> spec_parse_command(command) is None,
{
    if command.len() >= 3 && command.take(3) == seq![83u8, 69u8, 84u8] {
        assert(command.take(3) != seq![71u8, 69u8, 84u8]) by {
            assert(command.take(3)[0] != seq![71u8, 69u8, 84u8][0]);
        }
    }
}

} // verus!
