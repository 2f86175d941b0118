//! A plain byte-string map with reads and writes.
use vstd::prelude::*;

use crate::bytes::copy_range;
use crate::table::ByteTable;

verus! {

/// Values stored under keys.
pub struct RuntimeState {
    data: ByteTable,
}

impl View for RuntimeState {
    type V = Map<Seq<u8>, Seq<u8>>;

    closed spec fn view(&self) -> Map<Seq<u8>, Seq<u8>> {
        self.data@
    }
}

impl RuntimeState {
    #[verifier::type_invariant]
    spec fn inv(&self) -> bool {
        self.data.wf()
    }

    /// A state with nothing stored.
    pub fn new() -> (r: Self)
        ensures
            r@ == Map::<Seq<u8>, Seq<u8>>::empty(),
    {
        RuntimeState { data: ByteTable::new() }
    }

    /// A copy of the value stored under `key`.
    pub fn get(&self, key: &[u8]) -> (r: Option<Vec<u8>>)
        ensures
            match r {
                Some(v) => self@.contains_key(key@) && v@ == self@[key@],
                None => !self@.contains_key(key@),
            },
    {
        proof {
            use_type_invariant(self);
        }
        self.data.get(key)
    }

    /// Stores a copy of `value` under `key`.
    pub fn set(&mut self, key: &[u8], value: &[u8])
        ensures
            final(self)@ == old(self)@.insert(key@, value@),
    {
        proof {
            use_type_invariant(&*self);
        }
        let k = copy_range(key, 0, key.len());
        let v = copy_range(value, 0, value.len());
        assert(key@.subrange(0, key@.len() as int) =~= key@);
        assert(value@.subrange(0, value@.len() as int) =~= value@);
        let mut data = ByteTable::new();
        std::mem::swap(&mut data, &mut self.data);
        data.insert(k, v);
        self.data = data;
    }
}

impl Default for RuntimeState {
    fn default() -> (r: Self)
        ensures
            r@ == Map::<Seq<u8>, Seq<u8>>::empty(),
    {
        Self::new()
    }
}

/// The contents after setting, in order, each key of `sets` to its value,
/// starting from `m`.
pub open spec fn after_sets(m: Map<Seq<u8>, Seq<u8>>, sets: Seq<(Seq<u8>, Seq<u8>)>) -> Map<
    Seq<u8>,
    Seq<u8>,
>
    decreases sets.len(),
{
    if sets.len() == 0 {
        m
    } else {
        after_sets(m, sets.drop_last()).insert(sets.last().0, sets.last().1)
    }
}

/// The value of the last of `sets` whose key is `k`, if any is.
pub open spec fn last_value(sets: Seq<(Seq<u8>, Seq<u8>)>, k: Seq<u8>) -> Option<Seq<u8>>
    decreases sets.len(),
{
    if sets.len() == 0 {
        None
    } else if sets.last().0 == k {
        Some(sets.last().1)
    } else {
        last_value(sets.drop_last(), k)
    }
}

/// After a run of sets on a fresh state, a key reads the value of the last
/// set of that key (keys compared by their bytes), and nothing when no set
/// named it.
pub proof fn law_get_after_sets(sets: Seq<(Seq<u8>, Seq<u8>)>, k: Seq<u8>)
    ensures
        match last_value(sets, k) {
            Some(v) => after_sets(Map::empty(), sets).contains_key(k) && after_sets(
                Map::empty(),
                sets,
            )[k] == v,
            None => !after_sets(Map::empty(), sets).contains_key(k),
        },
    decreases sets.len(),
{
    if sets.len() > 0 {
        law_get_after_sets(sets.drop_last(), k);
    }
}

} // verus!
