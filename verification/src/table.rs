//! A finite map from byte strings to byte strings.
use vstd::prelude::*;

use crate::bytes::{bytes_eq, copy_range};

verus! {

/// The entries of a table, kept as two parallel vectors without repeated keys.
pub struct ByteTable {
    keys: Vec<Vec<u8>>,
    values: Vec<Vec<u8>>,
    contents: Ghost<Map<Seq<u8>, Seq<u8>>>,
}

impl View for ByteTable {
    type V = Map<Seq<u8>, Seq<u8>>;

    closed spec fn view(&self) -> Map<Seq<u8>, Seq<u8>> {
        self.contents@
    }
}

impl ByteTable {
    /// The vectors hold exactly the entries of the map, each key once.
    pub closed spec fn wf(&self) -> bool {
        &&& self.keys@.len() == self.values@.len()
        &&& forall|i: int|
            0 <= i < self.keys@.len() ==> #[trigger] self.contents@.contains_key(self.keys@[i]@)
                && self.contents@[self.keys@[i]@] == self.values@[i]@
        &&& forall|k: Seq<u8>| #[trigger]
            self.contents@.contains_key(k) ==> exists|i: int|
                0 <= i < self.keys@.len() && #[trigger] self.keys@[i]@ == k
        &&& forall|i: int, j: int|
            0 <= i < self.keys@.len() && 0 <= j < self.keys@.len() && i != j ==> #[trigger] self.keys@[i]@
                != #[trigger] self.keys@[j]@
    }

    /// The empty table.
    pub fn new() -> (r: Self)
        ensures
            r.wf(),
            r@ == Map::<Seq<u8>, Seq<u8>>::empty(),
    {
        ByteTable { keys: Vec::new(), values: Vec::new(), contents: Ghost(Map::empty()) }
    }

    /// The position of `key` among the keys.
    fn find(&self, key: &[u8]) -> (r: Option<usize>)
        requires
            self.wf(),
        ensures
            match r {
                Some(i) => i < self.keys@.len() && self.keys@[i as int]@ == key@,
                None => !self@.contains_key(key@),
            },
    {
        let mut i: usize = 0;
        while i < self.keys.len()
            invariant
                self.wf(),
                i <= self.keys@.len(),
                forall|j: int| 0 <= j < i ==> #[trigger] self.keys@[j]@ != key@,
            decreases self.keys@.len() - i,
        {
            if bytes_eq(self.keys[i].as_slice(), key) {
                return Some(i);
            }
            i += 1;
        }
        None
    }

    /// A copy of the value stored under `key`.
    pub fn get(&self, key: &[u8]) -> (r: Option<Vec<u8>>)
        requires
            self.wf(),
        ensures
            match r {
                Some(v) => self@.contains_key(key@) && v@ == self@[key@],
                None => !self@.contains_key(key@),
            },
    {
        match self.find(key) {
            Some(i) => {
                let v = self.values[i].as_slice();
                proof {
                    assert(self.contents@.contains_key(self.keys@[i as int]@));
                    assert(v@.subrange(0, v@.len() as int) =~= v@);
                }
                Some(copy_range(v, 0, v.len()))
            },
            None => None,
        }
    }

    /// Stores `value` under `key`, replacing what was stored there.
    pub fn insert(&mut self, key: Vec<u8>, value: Vec<u8>)
        requires
            old(self).wf(),
        ensures
            final(self).wf(),
            final(self)@ == old(self)@.insert(key@, value@),
    {
        let ghost kv = key@;
        let ghost vv = value@;
        match self.find(key.as_slice()) {
            Some(i) => {
                self.values.set(i, value);
                self.contents = Ghost(self.contents@.insert(kv, vv));
                assert forall|a: int|
                    0 <= a < self.keys@.len() implies #[trigger] self.contents@.contains_key(
                    self.keys@[a]@,
                ) && self.contents@[self.keys@[a]@] == self.values@[a]@ by {
                    if a != i {
                        assert(self.keys@[a] == old(self).keys@[a]);
                        assert(self.values@[a] == old(self).values@[a]);
                        assert(old(self).keys@[a]@ != old(self).keys@[i as int]@);
                        assert(old(self).contents@.contains_key(old(self).keys@[a]@));
                    }
                }
                assert forall|k: Seq<u8>| #[trigger]
                    self.contents@.contains_key(k) implies exists|j: int|
                        0 <= j < self.keys@.len() && #[trigger] self.keys@[j]@ == k by {
                    if k == kv {
                        assert(self.keys@[i as int]@ == k);
                    } else {
                        assert(old(self).contents@.contains_key(k));
                    }
                }
            },
            None => {
                self.keys.push(key);
                self.values.push(value);
                self.contents = Ghost(self.contents@.insert(kv, vv));
                let ghost n = self.keys@.len() - 1;
                assert(self.keys@[n]@ == kv);
                assert forall|i: int|
                    0 <= i < self.keys@.len() implies #[trigger] self.contents@.contains_key(
                    self.keys@[i]@,
                ) && self.contents@[self.keys@[i]@] == self.values@[i]@ by {
                    if i < n {
                        assert(self.keys@[i] == old(self).keys@[i]);
                        assert(self.values@[i] == old(self).values@[i]);
                        assert(old(self).contents@.contains_key(old(self).keys@[i]@));
                    }
                }
                assert forall|k: Seq<u8>| #[trigger]
                    self.contents@.contains_key(k) implies exists|j: int|
                        0 <= j < self.keys@.len() && #[trigger] self.keys@[j]@ == k by {
                    if k == kv {
                        assert(self.keys@[n]@ == k);
                    } else {
                        assert(old(self).contents@.contains_key(k));
                        let j = choose|j: int|
                            0 <= j < old(self).keys@.len() && #[trigger] old(self).keys@[j]@ == k;
                        assert(self.keys@[j] == old(self).keys@[j]);
                    }
                }
                assert forall|i: int, j: int|
                    0 <= i < self.keys@.len() && 0 <= j < self.keys@.len() && i != j implies #[trigger] self.keys@[i]@
                    != #[trigger] self.keys@[j]@ by {
                    if i < n && j < n {
                        assert(self.keys@[i] == old(self).keys@[i]);
                        assert(self.keys@[j] == old(self).keys@[j]);
                    } else if i < n {
                        assert(self.keys@[i] == old(self).keys@[i]);
                        assert(old(self).contents@.contains_key(old(self).keys@[i]@));
                    } else {
                        assert(self.keys@[j] == old(self).keys@[j]);
                        assert(old(self).contents@.contains_key(old(self).keys@[j]@));
                    }
                }
            },
        }
        assert(self.contents@ =~= old(self).contents@.insert(kv, vv));
    }

    /// Removes the entry of `key`; says whether there was one.
    pub fn remove(&mut self, key: &[u8]) -> (r: bool)
        requires
            old(self).wf(),
        ensures
            final(self).wf(),
            r == old(self)@.contains_key(key@),
            final(self)@ == old(self)@.remove(key@),
    {
        match self.find(key) {
            Some(i) => {
                let ghost kv = key@;
                let ghost ok = old(self).keys@;
                let ghost ov = old(self).values@;
                let ghost last = ok.len() - 1;
                self.keys.swap_remove(i);
                self.values.swap_remove(i);
                self.contents = Ghost(self.contents@.remove(kv));
                assert forall|a: int|
                    0 <= a < self.keys@.len() implies #[trigger] self.contents@.contains_key(
                    self.keys@[a]@,
                ) && self.contents@[self.keys@[a]@] == self.values@[a]@ by {
                    let b = if a == i {
                        last
                    } else {
                        a
                    };
                    assert(self.keys@[a] == ok[b]);
                    assert(self.values@[a] == ov[b]);
                    assert(b != i);
                    assert(ok[b]@ != ok[i as int]@);
                    assert(old(self).contents@.contains_key(ok[b]@));
                }
                assert forall|k: Seq<u8>| #[trigger]
                    self.contents@.contains_key(k) implies exists|j: int|
                        0 <= j < self.keys@.len() && #[trigger] self.keys@[j]@ == k by {
                    assert(old(self).contents@.contains_key(k));
                    let j = choose|j: int| 0 <= j < ok.len() && #[trigger] ok[j]@ == k;
                    assert(j != i);
                    if j == last {
                        assert(self.keys@[i as int]@ == k);
                    } else {
                        assert(self.keys@[j]@ == k);
                    }
                }
                assert forall|a: int, c: int|
                    0 <= a < self.keys@.len() && 0 <= c < self.keys@.len() && a != c implies #[trigger] self.keys@[a]@
                    != #[trigger] self.keys@[c]@ by {
                    let a2 = if a == i {
                        last
                    } else {
                        a
                    };
                    let c2 = if c == i {
                        last
                    } else {
                        c
                    };
                    assert(self.keys@[a] == ok[a2]);
                    assert(self.keys@[c] == ok[c2]);
                    assert(ok[a2]@ != ok[c2]@);
                }
                assert(self.contents@ =~= old(self).contents@.remove(kv));
                true
            },
            None => {
                assert(self.contents@ =~= old(self).contents@.remove(key@));
                false
            },
        }
    }

    /// Removes every entry.
    pub fn clear(&mut self)
        requires
            old(self).wf(),
        ensures
            final(self).wf(),
            final(self)@ == Map::<Seq<u8>, Seq<u8>>::empty(),
    {
        self.keys.clear();
        self.values.clear();
        self.contents = Ghost(Map::empty());
    }
}

} // verus!
