//! How requests are shown to people: `Get foo`, `Set foo bar`, `Delete foo`,
//! `Purge`, with `[Invalid ASCII]` in place of a byte string that is not UTF-8.
use vstd::prelude::*;
use vstd::utf8::valid_utf8;

use crate::bytes::push_all;
use crate::parse::{Command, CommandView};
use crate::store::parse::{Command as SliceCommand, CommandView as SliceCommandView};

verus! {

/// Whether `bytes` are valid UTF-8, as `std::str::from_utf8` decides. Its
/// contract claims that `from_utf8` accepts exactly the byte strings that
/// vstd's `valid_utf8` describes, which the documentation of `from_utf8`
/// ("valid UTF-8") says.
#[verifier::external_body]
fn is_utf8(bytes: &[u8]) -> (r: bool)
    ensures
        r == valid_utf8(bytes@),
{
    std::str::from_utf8(bytes).is_ok()
}

/// The text `[Invalid ASCII]`.
pub open spec fn invalid_text() -> Seq<u8> {
    seq![91u8, 73u8, 110u8, 118u8, 97u8, 108u8, 105u8, 100u8, 32u8, 65u8, 83u8, 67u8, 73u8, 73u8, 93u8]
}

/// A byte string as it is shown: itself when it is UTF-8 text, and
/// `[Invalid ASCII]` otherwise.
pub open spec fn spec_shown(b: Seq<u8>) -> Seq<u8> {
    if valid_utf8(b) {
        b
    } else {
        invalid_text()
    }
}

/// The words that start a shown request.
pub open spec fn word_get() -> Seq<u8> {
    seq![71u8, 101u8, 116u8, 32u8]
}

pub open spec fn word_set() -> Seq<u8> {
    seq![83u8, 101u8, 116u8, 32u8]
}

pub open spec fn word_delete() -> Seq<u8> {
    seq![68u8, 101u8, 108u8, 101u8, 116u8, 101u8, 32u8]
}

pub open spec fn word_purge() -> Seq<u8> {
    seq![80u8, 117u8, 114u8, 103u8, 101u8]
}

/// The text of a request of the stream parser.
pub open spec fn spec_describe(c: CommandView) -> Seq<u8> {
    match c {
        CommandView::Get(k) => word_get() + spec_shown(k),
        CommandView::Put(k, v) => word_set() + spec_shown(k) + seq![32u8] + spec_shown(v),
        CommandView::Delete(k) => word_delete() + spec_shown(k),
        CommandView::Clear => word_purge(),
    }
}

/// The text of a request of the slice parser.
pub open spec fn spec_describe_slice(c: SliceCommandView) -> Seq<u8> {
    match c {
        SliceCommandView::Get(k) => word_get() + spec_shown(k),
        SliceCommandView::Put(k, v) => word_set() + spec_shown(k) + seq![32u8] + spec_shown(v),
    }
}

/// Appends `b` as it is shown.
fn push_shown(dst: &mut Vec<u8>, b: &[u8])
    ensures
        final(dst)@ == old(dst)@ + spec_shown(b@),
{
    if is_utf8(b) {
        push_all(dst, b);
    } else {
        let t = [91u8, 73u8, 110u8, 118u8, 97u8, 108u8, 105u8, 100u8, 32u8, 65u8, 83u8, 67u8, 73u8, 73u8, 93u8];
        assert(t@ =~= invalid_text());
        push_all(dst, &t);
    }
}

fn word(kind: u8) -> (r: Vec<u8>)
    requires
        kind < 4,
    ensures
        kind == 0 ==> r@ == word_get(),
        kind == 1 ==> r@ == word_set(),
        kind == 2 ==> r@ == word_delete(),
        kind == 3 ==> r@ == word_purge(),
{
    let r = if kind == 0 {
        vec![71u8, 101u8, 116u8, 32u8]
    } else if kind == 1 {
        vec![83u8, 101u8, 116u8, 32u8]
    } else if kind == 2 {
        vec![68u8, 101u8, 108u8, 101u8, 116u8, 101u8, 32u8]
    } else {
        vec![80u8, 117u8, 114u8, 103u8, 101u8]
    };
    assert(kind == 0 ==> r@ =~= word_get());
    assert(kind == 1 ==> r@ =~= word_set());
    assert(kind == 2 ==> r@ =~= word_delete());
    assert(kind == 3 ==> r@ =~= word_purge());
    r
}

impl Command {
    /// The request as text, for people to read.
    pub fn describe(&self) -> (r: Vec<u8>)
        ensures
            r@ == spec_describe(self@),
    {
        match self {
            Command::Get(k) => {
                let mut r = word(0);
                push_shown(&mut r, k.as_slice());
                r
            },
            Command::Put(k, v) => {
                let mut r = word(1);
                push_shown(&mut r, k.as_slice());
                r.push(32);
                push_shown(&mut r, v.as_slice());
                r
            },
            Command::Delete(k) => {
                let mut r = word(2);
                push_shown(&mut r, k.as_slice());
                r
            },
            Command::Clear => word(3),
        }
    }
}

impl<'a> SliceCommand<'a> {
    /// The request as text, for people to read.
    pub fn describe(&self) -> (r: Vec<u8>)
        ensures
            r@ == spec_describe_slice(self@),
    {
        match self {
            SliceCommand::Get(k) => {
                let mut r = word(0);
                push_shown(&mut r, k);
                r
            },
            SliceCommand::Put(k, v) => {
                let mut r = word(1);
                push_shown(&mut r, k);
                r.push(32);
                push_shown(&mut r, v);
                r
            },
        }
    }
}

/// A request's text shows each byte string as itself when it is valid UTF-8,
/// and as `[Invalid ASCII]` only when it is not, after `Get `, `Set ` (key, a
/// space, value), `Delete `, or as `Purge`; for either parser.
pub proof fn law_describe_shows_text(k: Seq<u8>, v: Seq<u8>)
    ensures
        ({
            let sk = if valid_utf8(k) {
                k
            } else {
                seq![91u8, 73u8, 110u8, 118u8, 97u8, 108u8, 105u8, 100u8, 32u8, 65u8, 83u8, 67u8, 73u8, 73u8, 93u8]
            };
            let sv = if valid_utf8(v) {
                v
            } else {
                seq![91u8, 73u8, 110u8, 118u8, 97u8, 108u8, 105u8, 100u8, 32u8, 65u8, 83u8, 67u8, 73u8, 73u8, 93u8]
            };
            &&& spec_describe(CommandView::Get(k)) == seq![71u8, 101u8, 116u8, 32u8] + sk
            &&& spec_describe(CommandView::Put(k, v)) == seq![83u8, 101u8, 116u8, 32u8] + sk
                + seq![32u8] + sv
            &&& spec_describe(CommandView::Delete(k)) == seq![68u8, 101u8, 108u8, 101u8, 116u8, 101u8, 32u8] + sk
            &&& spec_describe(CommandView::Clear) == seq![80u8, 117u8, 114u8, 103u8, 101u8]
            &&& spec_describe_slice(SliceCommandView::Get(k)) == seq![71u8, 101u8, 116u8, 32u8]
                + sk
            &&& spec_describe_slice(SliceCommandView::Put(k, v)) == seq![83u8, 101u8, 116u8, 32u8]
                + sk + seq![32u8] + sv
        }),
{
}

} // verus!
