//! The request grammar of the protocol, read from a growing byte buffer.
//!
//! ```text
//! command = get | set | delete | clear
//! get     = "GET" data "\n"
//! set     = "SET" data data "\n"
//! delete  = "DEL" data "\n"
//! clear   = "CLR\n"
//! data    = "$" length "$" char+
//! length  = [1-9] [0-9]*          (at most 2^25)
//! ```
use vstd::prelude::*;

use crate::bytes::copy_range;
use crate::decimal::{
    decimal_digits, decimal_value, digit_run, is_digit, lemma_decimal_digits_shape,
    lemma_canonical_numeral, lemma_decimal_value_grows, lemma_decimal_value_of_digits,
    lemma_decimal_value_step, lemma_digit_run_bound, lemma_digit_run_exact,
};
use crate::encode::spec_binary_safe_encode;

verus! {

/// The capacity that a fresh stream's buffer starts with.
const BUF_SIZE: usize = 4096;

/// The largest length that a data field may announce.
pub const MAX_DATA_LEN: usize = 33554432usize;

/// A request of the protocol.
pub enum Command {
    Get(Vec<u8>),
    Put(Vec<u8>, Vec<u8>),
    Delete(Vec<u8>),
    Clear,
}

/// A request, with its byte strings as sequences.
pub enum CommandView {
    Get(Seq<u8>),
    Put(Seq<u8>, Seq<u8>),
    Delete(Seq<u8>),
    Clear,
}

impl View for Command {
    type V = CommandView;

    open spec fn view(&self) -> CommandView {
        match self {
            Command::Get(k) => CommandView::Get(k@),
            Command::Put(k, v) => CommandView::Put(k@, v@),
            Command::Delete(k) => CommandView::Delete(k@),
            Command::Clear => CommandView::Clear,
        }
    }
}

fn copy_all(v: &Vec<u8>) -> (r: Vec<u8>)
    ensures
        r@ == v@,
{
    let s = v.as_slice();
    assert(s@.subrange(0, s@.len() as int) =~= s@);
    copy_range(s, 0, s.len())
}

impl Clone for Command {
    fn clone(&self) -> (r: Self)
        ensures
            r@ == self@,
    {
        match self {
            Command::Get(k) => Command::Get(copy_all(k)),
            Command::Put(k, v) => Command::Put(copy_all(k), copy_all(v)),
            Command::Delete(k) => Command::Delete(copy_all(k)),
            Command::Clear => Command::Clear,
        }
    }
}

/// Why the buffer does not start with a complete request.
#[derive(PartialEq, Eq, Structural, Clone, Copy, Debug)]
pub enum ParseError {
    /// The buffer breaks the grammar: the connection is to be closed.
    InvalidPrefix,
    /// The buffer may still become a request once more bytes arrive.
    NeedMoreData,
}

/// The three-byte operation names.
pub open spec fn tag_get() -> Seq<u8> {
    seq![71u8, 69u8, 84u8]
}

pub open spec fn tag_set() -> Seq<u8> {
    seq![83u8, 69u8, 84u8]
}

pub open spec fn tag_del() -> Seq<u8> {
    seq![68u8, 69u8, 76u8]
}

pub open spec fn tag_clr() -> Seq<u8> {
    seq![67u8, 76u8, 82u8]
}

/// The data field that starts at position `p` of `s`: on success the data and
/// the position just past it.
///
/// The field is `$`, a run of digits, `$`, then as many bytes as the digits
/// say. The run must be non-empty, must not start with `0`, must denote at most
/// `MAX_DATA_LEN`, and must be followed by `$` or by the end of `s`. When `s`
/// ends before the field does and what arrived of it is sound (nothing yet,
/// only its first `$`, or a sound header), more data is needed.
pub open spec fn spec_parse_string(s: Seq<u8>, p: int) -> Result<(Seq<u8>, int), ParseError> {
    if p < 0 || p > s.len() {
        Err(ParseError::InvalidPrefix)
    } else if p == s.len() {
        Err(ParseError::NeedMoreData)
    } else if s[p] != 36 {
        Err(ParseError::InvalidPrefix)
    } else if p + 1 == s.len() {
        Err(ParseError::NeedMoreData)
    } else {
        let run = digit_run(s.skip(p + 1)) as int;
        let len = decimal_value(s.subrange(p + 1, p + 1 + run));
        if run == 0 || s[p + 1] == 48 || len > MAX_DATA_LEN || (p + 1 + run < s.len() && s[p + 1
            + run] != 36) {
            Err(ParseError::InvalidPrefix)
        } else if p + run + 2 + len > s.len() {
            Err(ParseError::NeedMoreData)
        } else {
            Ok((s.subrange(p + run + 2, p + run + 2 + len), p + run + 2 + len))
        }
    }
}

/// The body of the request named by the first three bytes of `s`, before its
/// final newline, with the position just past the body.
pub open spec fn spec_parse_body(s: Seq<u8>) -> Result<(CommandView, int), ParseError> {
    let op = s.take(3);
    if op == tag_get() {
        match spec_parse_string(s, 3) {
            Ok((k, e)) => Ok((CommandView::Get(k), e)),
            Err(x) => Err(x),
        }
    } else if op == tag_set() {
        match spec_parse_string(s, 3) {
            Ok((k, e)) => match spec_parse_string(s, e) {
                Ok((v, e2)) => Ok((CommandView::Put(k, v), e2)),
                Err(x) => Err(x),
            },
            Err(x) => Err(x),
        }
    } else if op == tag_del() {
        match spec_parse_string(s, 3) {
            Ok((k, e)) => Ok((CommandView::Delete(k), e)),
            Err(x) => Err(x),
        }
    } else if op == tag_clr() {
        Ok((CommandView::Clear, 3))
    } else {
        Err(ParseError::InvalidPrefix)
    }
}

/// The request at the start of `s`, with the number of bytes that it takes.
pub open spec fn spec_parse_command(s: Seq<u8>) -> Result<(CommandView, int), ParseError> {
    if s.len() < 3 {
        Err(ParseError::NeedMoreData)
    } else {
        match spec_parse_body(s) {
            Err(x) => Err(x),
            Ok((c, e)) => if e >= s.len() {
                Err(ParseError::NeedMoreData)
            } else if s[e] != 10 {
                Err(ParseError::InvalidPrefix)
            } else {
                Ok((c, e + 1))
            },
        }
    }
}

/// What the reader of a connection is to do next.
pub enum StreamAction {
    /// Hand this request on.
    Emit(Command),
    /// Close the connection.
    Stop,
    /// Read more bytes, then call `receive` with them.
    ReadMore,
}

pub enum StreamActionView {
    Emit(CommandView),
    Stop,
    ReadMore,
}

impl View for StreamAction {
    type V = StreamActionView;

    open spec fn view(&self) -> StreamActionView {
        match self {
            StreamAction::Emit(c) => StreamActionView::Emit(c@),
            StreamAction::Stop => StreamActionView::Stop,
            StreamAction::ReadMore => StreamActionView::ReadMore,
        }
    }
}

/// The action on a buffer `buf` before anything more is read, and the
/// buffer after it: a complete request is emitted and taken, a broken one
/// stops the stream, an incomplete one asks for more bytes.
pub open spec fn spec_resume(buf: Seq<u8>) -> (StreamActionView, Seq<u8>) {
    match spec_parse_command(buf) {
        Ok((c, n)) => (StreamActionView::Emit(c), buf.skip(n)),
        Err(ParseError::NeedMoreData) => (StreamActionView::ReadMore, buf),
        Err(ParseError::InvalidPrefix) => (StreamActionView::Stop, buf),
    }
}

/// The action once a read returned `bytes`, and the buffer after it. An empty
/// read is the end of the stream: what is left in the buffer gives one last
/// request if it is complete, and the stream stops otherwise.
pub open spec fn spec_receive(buf: Seq<u8>, bytes: Seq<u8>) -> (StreamActionView, Seq<u8>) {
    if bytes.len() == 0 {
        if buf.len() == 0 {
            (StreamActionView::Stop, buf)
        } else {
            match spec_parse_command(buf) {
                Ok((c, n)) => (StreamActionView::Emit(c), buf.skip(n)),
                Err(_) => (StreamActionView::Stop, buf),
            }
        }
    } else {
        spec_resume(buf + bytes)
    }
}

/// Requests taken one after another from the bytes of a connection.
pub struct CommandStream {
    buffer: Vec<u8>,
}

impl View for CommandStream {
    type V = Seq<u8>;

    /// The bytes received and not yet taken by a request.
    closed spec fn view(&self) -> Seq<u8> {
        self.buffer@
    }
}

impl CommandStream {
    /// A stream that has received nothing yet.
    pub fn new() -> (r: Self)
        ensures
            r@ == Seq::<u8>::empty(),
    {
        CommandStream { buffer: Vec::with_capacity(BUF_SIZE) }
    }

    /// The step taken before reading: try the bytes already buffered.
    pub fn resume(&mut self) -> (a: StreamAction)
        ensures
            (a@, final(self)@) == spec_resume(old(self)@),
    {
        match self.parse_command() {
            Ok(c) => StreamAction::Emit(c),
            Err(ParseError::NeedMoreData) => StreamAction::ReadMore,
            Err(ParseError::InvalidPrefix) => StreamAction::Stop,
        }
    }

    /// The step taken after a read that returned `bytes` (none at the end of
    /// the stream).
    pub fn receive(&mut self, bytes: &[u8]) -> (a: StreamAction)
        ensures
            (a@, final(self)@) == spec_receive(old(self)@, bytes@),
    {
        if bytes.len() == 0 {
            if self.buffer.len() == 0 {
                return StreamAction::Stop;
            }
            return match self.parse_command() {
                Ok(c) => StreamAction::Emit(c),
                Err(_) => StreamAction::Stop,
            };
        }
        let mut i: usize = 0;
        while i < bytes.len()
            invariant
                i <= bytes@.len(),
                self.buffer@ == old(self)@ + bytes@.take(i as int),
            decreases bytes@.len() - i,
        {
            self.buffer.push(bytes[i]);
            i += 1;
            assert(self.buffer@ =~= old(self)@ + bytes@.take(i as int));
        }
        assert(bytes@.take(i as int) =~= bytes@);
        self.resume()
    }

    /// Takes the request at the start of the buffer, if it is complete.
    /// On success the request's bytes leave the buffer; otherwise the buffer
    /// is unchanged.
    pub fn parse_command(&mut self) -> (r: Result<Command, ParseError>)
        ensures
            match spec_parse_command(old(self)@) {
                Ok((c, n)) => r matches Ok(cmd) && cmd@ == c && final(self)@ == old(self)@.skip(n),
                Err(x) => r == Err::<Command, ParseError>(x) && final(self)@ == old(self)@,
            },
    {
        let len = self.buffer.len();
        if len < 3 {
            return Err(ParseError::NeedMoreData);
        }
        let ghost s = self.buffer@;
        let b0 = self.buffer[0];
        let b1 = self.buffer[1];
        let b2 = self.buffer[2];
        proof {
            assert(s.take(3) =~= seq![b0, b1, b2]);
        }
        let parsed = if b0 == 71 && b1 == 69 && b2 == 84 {
            self.parse_get(3)
        } else if b0 == 83 && b1 == 69 && b2 == 84 {
            self.parse_set(3)
        } else if b0 == 68 && b1 == 69 && b2 == 76 {
            self.parse_delete(3)
        } else if b0 == 67 && b1 == 76 && b2 == 82 {
            Ok((Command::Clear, 3))
        } else {
            return Err(ParseError::InvalidPrefix);
        };
        let (cmd, end) = match parsed {
            Ok(x) => x,
            Err(e) => {
                return Err(e);
            },
        };
        if end >= len {
            return Err(ParseError::NeedMoreData);
        }
        if self.buffer[end] != 10 {
            return Err(ParseError::InvalidPrefix);
        }
        let rest = self.buffer.split_off(end + 1);
        self.buffer = rest;
        Ok(cmd)
    }

    /// The body of a `GET` request whose key starts at `start`.
    fn parse_get(&self, start: usize) -> (r: Result<(Command, usize), ParseError>)
        requires
            start <= self.buffer@.len(),
        ensures
            match spec_parse_string(self.buffer@, start as int) {
                Ok((k, e)) => r matches Ok((cmd, e2)) && cmd@ == CommandView::Get(k) && e2 == e,
                Err(x) => r == Err::<(Command, usize), ParseError>(x),
            },
    {
        match self.parse_string(start) {
            Ok((key, e)) => Ok((Command::Get(key), e)),
            Err(x) => Err(x),
        }
    }

    /// The body of a `SET` request whose key starts at `start`.
    fn parse_set(&self, start: usize) -> (r: Result<(Command, usize), ParseError>)
        requires
            start <= self.buffer@.len(),
        ensures
            match spec_parse_string(self.buffer@, start as int) {
                Ok((k, e)) => match spec_parse_string(self.buffer@, e) {
                    Ok((v, e2)) => r matches Ok((cmd, e3)) && cmd@ == CommandView::Put(k, v) && e3
                        == e2,
                    Err(x) => r == Err::<(Command, usize), ParseError>(x),
                },
                Err(x) => r == Err::<(Command, usize), ParseError>(x),
            },
    {
        match self.parse_string(start) {
            Ok((key, e)) => match self.parse_string(e) {
                Ok((value, e2)) => Ok((Command::Put(key, value), e2)),
                Err(x) => Err(x),
            },
            Err(x) => Err(x),
        }
    }

    /// The body of a `DEL` request whose key starts at `start`.
    fn parse_delete(&self, start: usize) -> (r: Result<(Command, usize), ParseError>)
        requires
            start <= self.buffer@.len(),
        ensures
            match spec_parse_string(self.buffer@, start as int) {
                Ok((k, e)) => r matches Ok((cmd, e2)) && cmd@ == CommandView::Delete(k) && e2 == e,
                Err(x) => r == Err::<(Command, usize), ParseError>(x),
            },
    {
        match self.parse_string(start) {
            Ok((key, e)) => Ok((Command::Delete(key), e)),
            Err(x) => Err(x),
        }
    }

    /// The data field that starts at `start`, and the position past it.
    pub fn parse_string(&self, start: usize) -> (r: Result<(Vec<u8>, usize), ParseError>)
        requires
            start <= self@.len(),
        ensures
            match spec_parse_string(self@, start as int) {
                Ok((d, e)) => r matches Ok((v, e2)) && v@ == d && e2 == e && e <= self@.len(),
                Err(x) => r == Err::<(Vec<u8>, usize), ParseError>(x),
            },
    {
        let buf = self.buffer.as_slice();
        let n = buf.len();
        let ghost s = buf@;
        if start == n {
            return Err(ParseError::NeedMoreData);
        }
        if buf[start] != 36 {
            return Err(ParseError::InvalidPrefix);
        }
        if start + 1 == n {
            return Err(ParseError::NeedMoreData);
        }
        let ghost t = s.skip(start + 1);
        proof {
            lemma_digit_run_bound(t);
        }
        let mut i = start + 1;
        let mut value: usize = 0;
        while i < n
            invariant_except_break
                s == buf@,
                s == self.buffer@,
                n == s.len(),
                start < n,
                t == s.skip(start + 1),
                start + 1 <= i <= n,
                forall|j: int| start + 1 <= j < i ==> is_digit(#[trigger] s[j]),
                value == decimal_value(t.take(i - start - 1)),
                value <= MAX_DATA_LEN,
                i > start + 1 ==> value >= 1 && s[start + 1] != 48,
                digit_run(t) <= t.len(),
                forall|j: int| 0 <= j < digit_run(t) ==> is_digit(#[trigger] t[j]),
                digit_run(t) < t.len() ==> !is_digit(t[digit_run(t) as int]),
            ensures
                s == buf@,
                s == self.buffer@,
                n == s.len(),
                start < n,
                t == s.skip(start + 1),
                start + 1 <= i <= n,
                forall|j: int| start + 1 <= j < i ==> is_digit(#[trigger] s[j]),
                value == decimal_value(t.take(i - start - 1)),
                value <= MAX_DATA_LEN,
                i > start + 1 ==> value >= 1 && s[start + 1] != 48,
                i < n ==> s[i as int] == 36,
            decreases n - i,
        {
            let b = buf[i];
            if b == 36 {
                break;
            }
            if b < 48 || b > 57 {
                proof {
                    let k = i - start - 1;
                    assert forall|j: int| 0 <= j < k implies is_digit(#[trigger] t[j]) by {
                        assert(t[j] == s[start + 1 + j]);
                    }
                    assert(t[k] == s[i as int]);
                    lemma_digit_run_exact(t, k);
                    assert(s[start + 1 + digit_run(t)] != 36);
                }
                return Err(ParseError::InvalidPrefix);
            }
            let d = (b - 48) as usize;
            if value == 0 && d == 0 {
                proof {
                    assert(i == start + 1);
                    assert(b == 48);
                    assert(s[start + 1] == 48);
                }
                return Err(ParseError::InvalidPrefix);
            }
            proof {
                lemma_decimal_value_step(t, i - start - 1);
                assert(t[i - start - 1] == s[i as int]);
            }
            value = value * 10 + d;
            if value > MAX_DATA_LEN {
                proof {
                    let k = i + 1 - start - 1;
                    let r = digit_run(t) as int;
                    assert forall|j: int| 0 <= j < k implies is_digit(#[trigger] t[j]) by {
                        assert(t[j] == s[start + 1 + j]);
                    }
                    if r < k {
                        assert(is_digit(t[r]));
                    }
                    let run_digits = t.take(r);
                    assert(run_digits.take(k) =~= t.take(k));
                    lemma_decimal_value_grows(run_digits, k);
                    assert(s.subrange(start + 1, start + 1 + r) =~= run_digits);
                }
                return Err(ParseError::InvalidPrefix);
            }
            i += 1;
        }
        let k = i - start - 1;
        proof {
            assert forall|j: int| 0 <= j < k implies is_digit(#[trigger] t[j]) by {
                assert(t[j] == s[start + 1 + j]);
            }
            if i < n {
                assert(t[k as int] == s[i as int]);
            }
            lemma_digit_run_exact(t, k as int);
            assert(s.subrange(start as int + 1, start as int + 1 + k) =~= t.take(k as int));
        }
        if value == 0 {
            return Err(ParseError::InvalidPrefix);
        }
        if i == n || value > n - (i + 1) {
            return Err(ParseError::NeedMoreData);
        }
        let data = copy_range(buf, i + 1, i + 1 + value);
        Ok((data, i + 1 + value))
    }
}

/// The bytes of a request as the grammar writes it.
pub open spec fn spec_encode_request(c: CommandView) -> Seq<u8> {
    match c {
        CommandView::Get(k) => tag_get() + spec_binary_safe_encode(k) + seq![10u8],
        CommandView::Put(k, v) => tag_set() + spec_binary_safe_encode(k) + spec_binary_safe_encode(
            v,
        ) + seq![10u8],
        CommandView::Delete(k) => tag_del() + spec_binary_safe_encode(k) + seq![10u8],
        CommandView::Clear => tag_clr() + seq![10u8],
    }
}

/// A data field of the grammar holds at least one and at most `MAX_DATA_LEN` bytes.
pub open spec fn valid_data(d: Seq<u8>) -> bool {
    1 <= d.len() <= MAX_DATA_LEN
}

/// Every data field of the request is valid.
pub open spec fn valid_request(c: CommandView) -> bool {
    match c {
        CommandView::Get(k) => valid_data(k),
        CommandView::Put(k, v) => valid_data(k) && valid_data(v),
        CommandView::Delete(k) => valid_data(k),
        CommandView::Clear => true,
    }
}

/// A data field as `binary_safe_encode` writes it is read back whole, whatever
/// precedes or follows it.
pub proof fn law_data_field_roundtrip(prefix: Seq<u8>, d: Seq<u8>, rest: Seq<u8>)
    requires
        valid_data(d),
    ensures
        spec_parse_string(prefix + spec_binary_safe_encode(d) + rest, prefix.len() as int) == Ok::<
            (Seq<u8>, int),
            ParseError,
        >((d, prefix.len() + spec_binary_safe_encode(d).len() as int)),
{
    let digits = decimal_digits(d.len());
    let e = spec_binary_safe_encode(d);
    let s = prefix + e + rest;
    let p = prefix.len() as int;
    let m = digits.len() as int;
    lemma_decimal_digits_shape(d.len());
    lemma_decimal_value_of_digits(d.len());
    assert(s[p] == 36);
    let t = s.skip(p + 1);
    assert(t =~= digits + seq![36u8] + d + rest);
    assert forall|j: int| 0 <= j < m implies is_digit(#[trigger] t[j]) by {
        assert(t[j] == digits[j]);
    }
    assert(t[m] == 36);
    lemma_digit_run_exact(t, m);
    assert(s.subrange(p + 1, p + 1 + m) =~= digits);
    assert(s[p + 1] == digits[0]);
    assert(s[p + 1 + m] == 36);
    assert(s.subrange(p + m + 2, p + m + 2 + d.len()) =~= d);
}

/// A field that was read from `s` is read the same from `s` followed by
/// anything.
pub proof fn lemma_parse_string_extend(s: Seq<u8>, t: Seq<u8>, p: int)
    requires
        spec_parse_string(s, p) is Ok,
    ensures
        spec_parse_string(s + t, p) == spec_parse_string(s, p),
{
    let u = s + t;
    let a = s.skip(p + 1);
    let b = u.skip(p + 1);
    let run = digit_run(a) as int;
    lemma_digit_run_bound(a);
    assert(b =~= a + t);
    assert forall|j: int| 0 <= j < run implies is_digit(#[trigger] b[j]) by {
        assert(b[j] == a[j]);
    }
    assert(b[run] == a[run]);
    lemma_digit_run_exact(b, run);
    assert(u.subrange(p + 1, p + 1 + run) =~= s.subrange(p + 1, p + 1 + run));
    let len = decimal_value(s.subrange(p + 1, p + 1 + run));
    assert(u.subrange(p + run + 2, p + run + 2 + len) =~= s.subrange(p + run + 2, p + run + 2 + len));
}

/// Once the buffer starts with a complete request, bytes that arrive after it
/// do not change which request is read, nor how many bytes it takes.
pub proof fn law_parse_prefix_stable(s: Seq<u8>, t: Seq<u8>)
    requires
        spec_parse_command(s) is Ok,
    ensures
        spec_parse_command(s + t) == spec_parse_command(s),
{
    let u = s + t;
    assert(u.take(3) =~= s.take(3));
    let op = s.take(3);
    if op == tag_get() || op == tag_del() || op == tag_set() {
        lemma_parse_string_extend(s, t, 3);
        if op == tag_set() && op != tag_get() {
            let (_, e) = spec_parse_string(s, 3).unwrap();
            lemma_parse_string_extend(s, t, e);
        }
    }
    let (_, e) = spec_parse_body(s).unwrap();
    assert(spec_parse_body(u) == spec_parse_body(s));
    assert(u[e] == s[e]);
}

/// Reading back a request whose body ends at `e`, followed by a newline.
proof fn lemma_newline_after_body(s: Seq<u8>, c: CommandView, e: int)
    requires
        s.len() >= 3,
        spec_parse_body(s) == Ok::<(CommandView, int), ParseError>((c, e)),
        0 <= e < s.len(),
        s[e] == 10,
    ensures
        spec_parse_command(s) == Ok::<(CommandView, int), ParseError>((c, e + 1)),
{
}

proof fn lemma_roundtrip_get(k: Seq<u8>, rest: Seq<u8>)
    requires
        valid_data(k),
    ensures
        spec_parse_command(spec_encode_request(CommandView::Get(k)) + rest) == Ok::<
            (CommandView, int),
            ParseError,
        >((CommandView::Get(k), spec_encode_request(CommandView::Get(k)).len() as int)),
{
    let s = spec_encode_request(CommandView::Get(k)) + rest;
    let ek = spec_binary_safe_encode(k);
    let nl = seq![10u8];
    law_data_field_roundtrip(tag_get(), k, nl + rest);
    assert(s =~= tag_get() + ek + (nl + rest));
    assert(s.take(3) =~= tag_get());
    assert(spec_parse_body(s) == Ok::<(CommandView, int), ParseError>(
        (CommandView::Get(k), 3 + ek.len() as int),
    ));
    assert(s[3 + ek.len() as int] == 10);
    lemma_newline_after_body(s, CommandView::Get(k), 3 + ek.len() as int);
}

proof fn lemma_roundtrip_put(k: Seq<u8>, v: Seq<u8>, rest: Seq<u8>)
    requires
        valid_data(k),
        valid_data(v),
    ensures
        spec_parse_command(spec_encode_request(CommandView::Put(k, v)) + rest) == Ok::<
            (CommandView, int),
            ParseError,
        >((CommandView::Put(k, v), spec_encode_request(CommandView::Put(k, v)).len() as int)),
{
    let s = spec_encode_request(CommandView::Put(k, v)) + rest;
    let ek = spec_binary_safe_encode(k);
    let ev = spec_binary_safe_encode(v);
    let nl = seq![10u8];
    law_data_field_roundtrip(tag_set(), k, ev + nl + rest);
    assert(s =~= tag_set() + ek + (ev + nl + rest));
    law_data_field_roundtrip(tag_set() + ek, v, nl + rest);
    assert(s =~= (tag_set() + ek) + ev + (nl + rest));
    assert(s.take(3) =~= tag_set());
    assert(tag_set() != tag_get()) by {
        assert(tag_set()[0] != tag_get()[0]);
    }
    let e = 3 + ek.len() + ev.len() as int;
    assert(spec_parse_body(s) == Ok::<(CommandView, int), ParseError>((CommandView::Put(k, v), e)));
    assert(s[e] == 10);
    lemma_newline_after_body(s, CommandView::Put(k, v), e);
}

proof fn lemma_roundtrip_delete(k: Seq<u8>, rest: Seq<u8>)
    requires
        valid_data(k),
    ensures
        spec_parse_command(spec_encode_request(CommandView::Delete(k)) + rest) == Ok::<
            (CommandView, int),
            ParseError,
        >((CommandView::Delete(k), spec_encode_request(CommandView::Delete(k)).len() as int)),
{
    let s = spec_encode_request(CommandView::Delete(k)) + rest;
    let ek = spec_binary_safe_encode(k);
    let nl = seq![10u8];
    law_data_field_roundtrip(tag_del(), k, nl + rest);
    assert(s =~= tag_del() + ek + (nl + rest));
    assert(s.take(3) =~= tag_del());
    assert(tag_del() != tag_get()) by {
        assert(tag_del()[0] != tag_get()[0]);
    }
    assert(tag_del() != tag_set()) by {
        assert(tag_del()[0] != tag_set()[0]);
    }
    let e = 3 + ek.len() as int;
    assert(spec_parse_body(s) == Ok::<(CommandView, int), ParseError>((CommandView::Delete(k), e)));
    assert(s[e] == 10);
    lemma_newline_after_body(s, CommandView::Delete(k), e);
}

proof fn lemma_roundtrip_clear(rest: Seq<u8>)
    ensures
        spec_parse_command(spec_encode_request(CommandView::Clear) + rest) == Ok::<
            (CommandView, int),
            ParseError,
        >((CommandView::Clear, 4)),
{
    let s = spec_encode_request(CommandView::Clear) + rest;
    assert(s.take(3) =~= tag_clr());
    assert(tag_clr() != tag_get()) by {
        assert(tag_clr()[0] != tag_get()[0]);
    }
    assert(tag_clr() != tag_set()) by {
        assert(tag_clr()[0] != tag_set()[0]);
    }
    assert(tag_clr() != tag_del()) by {
        assert(tag_clr()[0] != tag_del()[0]);
    }
    assert(spec_parse_body(s) == Ok::<(CommandView, int), ParseError>((CommandView::Clear, 3)));
    assert(s[3] == 10);
    lemma_newline_after_body(s, CommandView::Clear, 3);
}

/// A valid request as the grammar writes it is read back whole, whatever
/// follows it.
pub proof fn law_request_roundtrip(c: CommandView, rest: Seq<u8>)
    requires
        valid_request(c),
    ensures
        spec_parse_command(spec_encode_request(c) + rest) == Ok::<(CommandView, int), ParseError>(
            (c, spec_encode_request(c).len() as int),
        ),
{
    match c {
        CommandView::Get(k) => lemma_roundtrip_get(k, rest),
        CommandView::Put(k, v) => lemma_roundtrip_put(k, v, rest),
        CommandView::Delete(k) => lemma_roundtrip_delete(k, rest),
        CommandView::Clear => lemma_roundtrip_clear(rest),
    }
}

/// A stream whose buffer starts with a valid request as the grammar writes it
/// emits that request and keeps exactly the bytes after it.
pub proof fn law_stream_emits_request(c: CommandView, rest: Seq<u8>)
    requires
        valid_request(c),
    ensures
        spec_resume(spec_encode_request(c) + rest) == (StreamActionView::Emit(c), rest),
{
    law_request_roundtrip(c, rest);
    let s = spec_encode_request(c) + rest;
    assert(s.skip(spec_encode_request(c).len() as int) =~= rest);
}

/// A field that was read holds valid data, and its bytes are exactly those
/// that `binary_safe_encode` writes for that data.
pub proof fn lemma_parsed_field_is_canonical(s: Seq<u8>, p: int)
    requires
        spec_parse_string(s, p) is Ok,
    ensures
        ({
            let (d, e) = spec_parse_string(s, p).unwrap();
            &&& valid_data(d)
            &&& p < e <= s.len()
            &&& s.subrange(p, e) == spec_binary_safe_encode(d)
        }),
{
    let (d, e) = spec_parse_string(s, p).unwrap();
    let t = s.skip(p + 1);
    let run = digit_run(t) as int;
    lemma_digit_run_bound(t);
    let digits = s.subrange(p + 1, p + 1 + run);
    assert forall|i: int| 0 <= i < digits.len() implies is_digit(#[trigger] digits[i]) by {
        assert(digits[i] == t[i]);
    }
    lemma_canonical_numeral(digits);
    assert(s.subrange(p, e) =~= seq![36u8] + digits + seq![36u8] + d);
}

/// A request that was read holds valid data, and the bytes that it took are
/// exactly those that the grammar writes for it: reading accepts nothing but
/// the one encoding of each request.
pub proof fn law_parsed_request_is_canonical(s: Seq<u8>)
    requires
        spec_parse_command(s) is Ok,
    ensures
        ({
            let (c, n) = spec_parse_command(s).unwrap();
            &&& valid_request(c)
            &&& n <= s.len()
            &&& s.take(n) == spec_encode_request(c)
        }),
{
    let (c, n) = spec_parse_command(s).unwrap();
    let op = s.take(3);
    let nl = seq![10u8];
    if op == tag_get() || op == tag_del() {
        lemma_parsed_field_is_canonical(s, 3);
        let (k, e) = spec_parse_string(s, 3).unwrap();
        assert(s.take(n) =~= op + s.subrange(3, e) + nl);
    } else if op == tag_set() {
        lemma_parsed_field_is_canonical(s, 3);
        let (k, e) = spec_parse_string(s, 3).unwrap();
        lemma_parsed_field_is_canonical(s, e);
        let (v, e2) = spec_parse_string(s, e).unwrap();
        assert(s.take(n) =~= op + s.subrange(3, e) + s.subrange(e, e2) + nl);
    } else {
        assert(s.take(n) =~= op + nl);
    }
}

/// A field refused as broken stays refused whatever follows.
pub proof fn lemma_broken_field_stays_broken(s: Seq<u8>, t: Seq<u8>, p: int)
    requires
        0 <= p <= s.len(),
        spec_parse_string(s, p) == Err::<(Seq<u8>, int), ParseError>(ParseError::InvalidPrefix),
    ensures
        spec_parse_string(s + t, p) == Err::<(Seq<u8>, int), ParseError>(ParseError::InvalidPrefix),
{
    let u = s + t;
    assert(u[p] == s[p]);
    if s[p] == 36 {
        let a = s.skip(p + 1);
        let b = u.skip(p + 1);
        assert(b =~= a + t);
        lemma_digit_run_bound(a);
        lemma_digit_run_bound(b);
        let ra = digit_run(a) as int;
        let rb = digit_run(b) as int;
        assert(u[p + 1] == s[p + 1]);
        assert forall|j: int| 0 <= j < ra implies is_digit(#[trigger] b[j]) by {
            assert(b[j] == a[j]);
        }
        if ra < a.len() {
            assert(b[ra] == a[ra]);
            lemma_digit_run_exact(b, ra);
            assert(u.subrange(p + 1, p + 1 + ra) =~= s.subrange(p + 1, p + 1 + ra));
            assert(u[p + 1 + ra] == s[p + 1 + ra]);
        } else {
            if rb < ra {
                assert(is_digit(b[rb]));
            }
            let db = b.take(rb);
            assert forall|j: int| 0 <= j < db.len() implies is_digit(#[trigger] db[j]) by {
                assert(db[j] == b[j]);
            }
            assert(db.take(ra) =~= s.subrange(p + 1, p + 1 + ra));
            lemma_decimal_value_grows(db, ra);
            assert(u.subrange(p + 1, p + 1 + rb) =~= db);
        }
    }
}

/// A buffer refused as broken stays refused whatever bytes follow it: a
/// refusal is never premature.
pub proof fn law_broken_stays_broken(s: Seq<u8>, t: Seq<u8>)
    requires
        spec_parse_command(s) == Err::<(CommandView, int), ParseError>(ParseError::InvalidPrefix),
    ensures
        spec_parse_command(s + t) == Err::<(CommandView, int), ParseError>(
            ParseError::InvalidPrefix,
        ),
{
    let u = s + t;
    assert(u.take(3) =~= s.take(3));
    let op = s.take(3);
    if op == tag_get() || op == tag_del() || op == tag_set() {
        if spec_parse_string(s, 3) is Ok {
            lemma_parse_string_extend(s, t, 3);
            lemma_parsed_field_is_canonical(s, 3);
            if op == tag_set() && op != tag_get() {
                let (_, e) = spec_parse_string(s, 3).unwrap();
                if spec_parse_string(s, e) is Ok {
                    lemma_parse_string_extend(s, t, e);
                    lemma_parsed_field_is_canonical(s, e);
                    let (_, e2) = spec_parse_string(s, e).unwrap();
                    assert(u[e2] == s[e2]);
                } else {
                    lemma_broken_field_stays_broken(s, t, e);
                }
            } else {
                let (_, e) = spec_parse_string(s, 3).unwrap();
                assert(u[e] == s[e]);
            }
        } else {
            lemma_broken_field_stays_broken(s, t, 3);
        }
    } else if op == tag_clr() {
        assert(u[3] == s[3]);
    }
}

/// A buffer whose first three bytes name no operation stops the stream, and
/// keeps its bytes.
pub proof fn law_unknown_operation_stops(s: Seq<u8>)
    requires
        s.len() >= 3,
        s.take(3) != tag_get(),
        s.take(3) != tag_set(),
        s.take(3) != tag_del(),
        s.take(3) != tag_clr(),
    ensures
        spec_resume(s) == (StreamActionView::Stop, s),
{
}

} // verus!
