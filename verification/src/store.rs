//! The store that executes the requests of the protocol.
use vstd::prelude::*;

use crate::encode::{reply_ok, reply_value, spec_encode_response};
use crate::parse::{
    law_stream_emits_request, spec_encode_request, spec_resume, valid_data, Command, CommandView,
    StreamActionView,
};
use crate::table::ByteTable;

pub mod parse;

verus! {

/// The outcome of a request.
#[derive(PartialEq, Eq, Debug)]
pub enum Reponse {
    Okay,
    Error,
    Value(Vec<u8>),
}

pub enum ReponseView {
    Okay,
    Error,
    Value(Seq<u8>),
}

impl View for Reponse {
    type V = ReponseView;

    open spec fn view(&self) -> ReponseView {
        match self {
            Reponse::Okay => ReponseView::Okay,
            Reponse::Error => ReponseView::Error,
            Reponse::Value(v) => ReponseView::Value(v@),
        }
    }
}

impl Reponse {
    /// The value that a `Value` response carries.
    pub fn unwrap(self) -> (r: Vec<u8>)
        requires
            self is Value,
        ensures
            self@ == ReponseView::Value(r@),
    {
        match self {
            Reponse::Value(v) => v,
            _ => {
                assert(false);
                Vec::new()
            },
        }
    }
}

/// What a request does to the store's contents `m`: the contents after it,
/// and the response.
///
/// `GET` answers the stored value, or `Error` when there is none; `SET` stores
/// its value; `DEL` removes the key, and answers `Error` when it was absent;
/// `CLR` empties the store.
pub open spec fn spec_exec(m: Map<Seq<u8>, Seq<u8>>, c: CommandView) -> (
    Map<Seq<u8>, Seq<u8>>,
    ReponseView,
) {
    match c {
        CommandView::Get(k) => (m, if m.contains_key(k) {
            ReponseView::Value(m[k])
        } else {
            ReponseView::Error
        }),
        CommandView::Put(k, v) => (m.insert(k, v), ReponseView::Okay),
        CommandView::Delete(k) => if m.contains_key(k) {
            (m.remove(k), ReponseView::Okay)
        } else {
            (m, ReponseView::Error)
        },
        CommandView::Clear => (Map::empty(), ReponseView::Okay),
    }
}

/// The key-value store.
pub struct KVStore {
    data: ByteTable,
}

impl View for KVStore {
    type V = Map<Seq<u8>, Seq<u8>>;

    closed spec fn view(&self) -> Map<Seq<u8>, Seq<u8>> {
        self.data@
    }
}

impl KVStore {
    #[verifier::type_invariant]
    spec fn inv(&self) -> bool {
        self.data.wf()
    }

    /// An empty store.
    pub fn new() -> (r: Self)
        ensures
            r@ == Map::<Seq<u8>, Seq<u8>>::empty(),
    {
        KVStore { data: ByteTable::new() }
    }

    fn lookup(&self, key: &[u8]) -> (r: Option<Vec<u8>>)
        ensures
            match r {
                Some(v) => self@.contains_key(key@) && v@ == self@[key@],
                None => !self@.contains_key(key@),
            },
    {
        proof {
            use_type_invariant(self);
        }
        self.data.get(key)
    }

    fn insert(&mut self, key: Vec<u8>, value: Vec<u8>)
        ensures
            final(self)@ == old(self)@.insert(key@, value@),
    {
        proof {
            use_type_invariant(&*self);
        }
        let mut data = ByteTable::new();
        std::mem::swap(&mut data, &mut self.data);
        data.insert(key, value);
        self.data = data;
    }

    /// Executes `command` and answers it.
    pub fn exec_command(&mut self, command: Command) -> (r: Reponse)
        ensures
            (final(self)@, r@) == spec_exec(old(self)@, command@),
    {
        match command {
            Command::Get(key) => self.exec_get(key),
            Command::Put(key, value) => self.exec_set(key, value),
            Command::Delete(key) => self.exec_delete(key),
            Command::Clear => self.exec_clear(),
        }
    }

    fn exec_get(&self, key: Vec<u8>) -> (r: Reponse)
        ensures
            (self@, r@) == spec_exec(self@, CommandView::Get(key@)),
    {
        match self.lookup(key.as_slice()) {
            Some(val) => Reponse::Value(val),
            None => Reponse::Error,
        }
    }

    fn exec_set(&mut self, key: Vec<u8>, value: Vec<u8>) -> (r: Reponse)
        ensures
            (final(self)@, r@) == spec_exec(old(self)@, CommandView::Put(key@, value@)),
    {
        self.insert(key, value);
        Reponse::Okay
    }

    fn exec_delete(&mut self, key: Vec<u8>) -> (r: Reponse)
        ensures
            (final(self)@, r@) == spec_exec(old(self)@, CommandView::Delete(key@)),
    {
        proof {
            use_type_invariant(&*self);
        }
        let mut data = ByteTable::new();
        std::mem::swap(&mut data, &mut self.data);
        let removed = data.remove(key.as_slice());
        self.data = data;
        if removed {
            Reponse::Okay
        } else {
            Reponse::Error
        }
    }

    fn exec_clear(&mut self) -> (r: Reponse)
        ensures
            (final(self)@, r@) == spec_exec(old(self)@, CommandView::Clear),
    {
        proof {
            use_type_invariant(&*self);
        }
        let mut data = ByteTable::new();
        std::mem::swap(&mut data, &mut self.data);
        data.clear();
        self.data = data;
        Reponse::Okay
    }
}

impl Default for KVStore {
    fn default() -> (r: Self)
        ensures
            r@ == Map::<Seq<u8>, Seq<u8>>::empty(),
    {
        Self::new()
    }
}

/// A `GET` after a `SET` of the same key answers the value just stored.
pub proof fn law_get_after_set(m: Map<Seq<u8>, Seq<u8>>, k: Seq<u8>, v: Seq<u8>)
    ensures
        spec_exec(spec_exec(m, CommandView::Put(k, v)).0, CommandView::Get(k)).1
            == ReponseView::Value(v),
{
}

/// A `SET` leaves what every other key answers unchanged.
pub proof fn law_set_keeps_other_keys(
    m: Map<Seq<u8>, Seq<u8>>,
    k: Seq<u8>,
    v: Seq<u8>,
    other: Seq<u8>,
)
    requires
        other != k,
    ensures
        spec_exec(spec_exec(m, CommandView::Put(k, v)).0, CommandView::Get(other)).1 == spec_exec(
            m,
            CommandView::Get(other),
        ).1,
{
}

/// A second `SET` of a key replaces the first: the store ends as if only the
/// second had been made.
pub proof fn law_set_overwrites(m: Map<Seq<u8>, Seq<u8>>, k: Seq<u8>, v1: Seq<u8>, v2: Seq<u8>)
    ensures
        spec_exec(spec_exec(m, CommandView::Put(k, v1)).0, CommandView::Put(k, v2)).0 == spec_exec(
            m,
            CommandView::Put(k, v2),
        ).0,
{
    assert(m.insert(k, v1).insert(k, v2) =~= m.insert(k, v2));
}

/// A `GET` changes nothing.
pub proof fn law_get_is_read_only(m: Map<Seq<u8>, Seq<u8>>, k: Seq<u8>)
    ensures
        spec_exec(m, CommandView::Get(k)).0 == m,
{
}

/// After a `DEL` of a key, a `GET` of it answers `Error`, and so does a second
/// `DEL`.
pub proof fn law_get_after_delete(m: Map<Seq<u8>, Seq<u8>>, k: Seq<u8>)
    ensures
        spec_exec(spec_exec(m, CommandView::Delete(k)).0, CommandView::Get(k)).1
            == ReponseView::Error,
        spec_exec(spec_exec(m, CommandView::Delete(k)).0, CommandView::Delete(k)).1
            == ReponseView::Error,
{
}

/// A `DEL` answers `Okay` exactly when the key was stored, and leaves every
/// other key as it was.
pub proof fn law_delete_answers_presence(m: Map<Seq<u8>, Seq<u8>>, k: Seq<u8>, other: Seq<u8>)
    requires
        other != k,
    ensures
        (spec_exec(m, CommandView::Delete(k)).1 == ReponseView::Okay) == m.contains_key(k),
        spec_exec(spec_exec(m, CommandView::Delete(k)).0, CommandView::Get(other)).1 == spec_exec(
            m,
            CommandView::Get(other),
        ).1,
{
}

/// After a `CLR` every `GET` answers `Error`.
pub proof fn law_get_after_clear(m: Map<Seq<u8>, Seq<u8>>, k: Seq<u8>)
    ensures
        spec_exec(spec_exec(m, CommandView::Clear).0, CommandView::Get(k)).1 == ReponseView::Error,
{
}

/// Over the wire: a connection that sends a `SET` of `k` to `v` and then a
/// `GET` of `k` has both requests read in turn, is answered `OK\n` and then
/// `VALUE` with `v`, and keeps whatever it sent after them for later.
pub proof fn law_protocol_read_after_write(
    m: Map<Seq<u8>, Seq<u8>>,
    k: Seq<u8>,
    v: Seq<u8>,
    rest: Seq<u8>,
)
    requires
        valid_data(k),
        valid_data(v),
    ensures
        ({
            let set = CommandView::Put(k, v);
            let get = CommandView::Get(k);
            let bytes = spec_encode_request(set) + spec_encode_request(get) + rest;
            let (first, after_first) = spec_resume(bytes);
            let (second, after_second) = spec_resume(after_first);
            let (m1, reply1) = spec_exec(m, set);
            let (m2, reply2) = spec_exec(m1, get);
            &&& first == StreamActionView::Emit(set)
            &&& second == StreamActionView::Emit(get)
            &&& after_second == rest
            &&& spec_encode_response(reply1) == reply_ok()
            &&& spec_encode_response(reply2) == reply_value(v)
            &&& m2 == m.insert(k, v)
        }),
{
    let set = CommandView::Put(k, v);
    let get = CommandView::Get(k);
    let tail = spec_encode_request(get) + rest;
    law_stream_emits_request(set, tail);
    assert(spec_encode_request(set) + spec_encode_request(get) + rest =~= spec_encode_request(set)
        + tail);
    law_stream_emits_request(get, rest);
}

} // verus!
