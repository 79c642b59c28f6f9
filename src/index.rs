//! The in-memory index: a map from keys to the offsets of their records.

use vstd::prelude::*;

use crate::codec::copy_range;

verus! {

/// Whether two byte strings are equal.
pub(crate) fn same_bytes(a: &[u8], b: &[u8]) -> (r: bool)
    ensures
        r == (a@ == b@),
{
    if a.len() != b.len() {
        return false;
    }
    let mut i: usize = 0;
    while i < a.len()
        invariant
            a@.len() == b@.len(),
            i <= a@.len(),
            a@.subrange(0, i as int) == b@.subrange(0, i as int),
        decreases a@.len() - i,
    {
        if a[i] != b[i] {
            assert(a@[i as int] != b@[i as int]);
            return false;
        }
        assert(a@.subrange(0, i + 1) =~= a@.subrange(0, i as int).push(a@[i as int]));
        assert(b@.subrange(0, i + 1) =~= b@.subrange(0, i as int).push(b@[i as int]));
        i = i + 1;
    }
    assert(a@ =~= a@.subrange(0, i as int));
    assert(b@ =~= b@.subrange(0, i as int));
    true
}

/// A map from keys to offsets, each key held once.
pub struct Index {
    entries: Vec<(Vec<u8>, u64)>,
    map: Ghost<Map<Seq<u8>, u64>>,
}

impl View for Index {
    type V = Map<Seq<u8>, u64>;

    closed spec fn view(&self) -> Map<Seq<u8>, u64> {
        self.map@
    }
}

impl Index {
    /// The entries hold each key once, and hold exactly the map's pairs.
    pub closed spec fn wf(&self) -> bool {
        &&& forall|i: int|
            0 <= i < self.entries@.len() ==> #[trigger] self.map@.contains_key(
                self.entries@[i].0@,
            ) && self.map@[self.entries@[i].0@] == self.entries@[i].1
        &&& forall|k: Seq<u8>|
            #[trigger] self.map@.contains_key(k) ==> exists|i: int|
                0 <= i < self.entries@.len() && #[trigger] self.entries@[i].0@ == k
        &&& forall|i: int, j: int|
            0 <= i < j < self.entries@.len() ==> #[trigger] self.entries@[i].0@
                != #[trigger] self.entries@[j].0@
    }

    /// An empty index.
    pub fn new() -> (r: Index)
        ensures
            r.wf(),
            r@ == Map::<Seq<u8>, u64>::empty(),
    {
        Index { entries: Vec::new(), map: Ghost(Map::empty()) }
    }

    /// Where `key` is held in the entries, if it is.
    fn position(&self, key: &[u8]) -> (r: Option<usize>)
        requires
            self.wf(),
        ensures
            match r {
                Some(j) => j < self.entries@.len() && self.entries@[j as int].0@ == key@,
                None => !self@.contains_key(key@),
            },
    {
        let mut i: usize = 0;
        while i < self.entries.len()
            invariant
                self.wf(),
                i <= self.entries@.len(),
                forall|j: int| 0 <= j < i ==> self.entries@[j].0@ != key@,
            decreases self.entries@.len() - i,
        {
            if same_bytes(self.entries[i].0.as_slice(), key) {
                return Some(i);
            }
            i = i + 1;
        }
        None
    }

    /// The offset held for `key`, if any.
    pub fn get(&self, key: &[u8]) -> (r: Option<u64>)
        requires
            self.wf(),
        ensures
            r == (if self@.contains_key(key@) {
                Some(self@[key@])
            } else {
                None
            }),
    {
        match self.position(key) {
            Some(j) => Some(self.entries[j].1),
            None => None,
        }
    }

    /// Maps `key` to `offset`, replacing what it was mapped to before.
    pub fn insert(&mut self, key: &[u8], offset: u64)
        requires
            old(self).wf(),
        ensures
            final(self).wf(),
            final(self)@ == old(self)@.insert(key@, offset),
    {
        let k = copy_range(key, 0, key.len());
        assert(key@.subrange(0, key@.len() as int) =~= key@);
        let ghost m = self.map@.insert(key@, offset);
        let ghost mut at: int = self.entries@.len() as int;
        match self.position(key) {
            Some(j) => {
                self.entries.set(j, (k, offset));
                proof {
                    at = j as int;
                }
            },
            None => {
                self.entries.push((k, offset));
            },
        }
        assert(self.entries@[at].0@ == key@);
        self.map = Ghost(m);
        assert forall|q: Seq<u8>| #[trigger] self.map@.contains_key(q) implies exists|i: int|
            0 <= i < self.entries@.len() && #[trigger] self.entries@[i].0@ == q by {
            if q == key@ {
                assert(0 <= at < self.entries@.len() && self.entries@[at].0@ == q);
            } else {
                let i = choose|i: int|
                    0 <= i < old(self).entries@.len() && old(self).entries@[i].0@ == q;
                assert(i != at);
                assert(self.entries@[i] == old(self).entries@[i]);
                assert(self.entries@[i].0@ == q);
            }
        }
        assert forall|i: int| 0 <= i < self.entries@.len() && i != at implies #[trigger] self.entries@[i]
            == old(self).entries@[i] && self.entries@[i].0@ != key@ by {
            assert(old(self).map@.contains_key(old(self).entries@[i].0@));
        }
        assert forall|i: int|
            0 <= i < self.entries@.len() implies #[trigger] self.map@.contains_key(
            self.entries@[i].0@,
        ) && self.map@[self.entries@[i].0@] == self.entries@[i].1 by {
            if i != at {
                assert(self.entries@[i] == old(self).entries@[i]);
            }
        }
        assert forall|i: int, j: int|
            0 <= i < j < self.entries@.len() implies #[trigger] self.entries@[i].0@
            != #[trigger] self.entries@[j].0@ by {
            if i != at && j != at {
                assert(self.entries@[i] == old(self).entries@[i]);
                assert(self.entries@[j] == old(self).entries@[j]);
            }
        }
    }

    /// Removes `key`, giving back the offset it was mapped to.
    pub fn remove(&mut self, key: &[u8]) -> (r: Option<u64>)
        requires
            old(self).wf(),
        ensures
            final(self).wf(),
            final(self)@ == old(self)@.remove(key@),
            r == (if old(self)@.contains_key(key@) {
                Some(old(self)@[key@])
            } else {
                None
            }),
    {
        match self.position(key) {
            Some(j) => {
                let (_, offset) = self.entries.remove(j);
                self.map = Ghost(self.map@.remove(key@));
                assert forall|q: Seq<u8>| #[trigger] self.map@.contains_key(q) implies exists|
                    i: int,
                |
                    0 <= i < self.entries@.len() && #[trigger] self.entries@[i].0@ == q by {
                    let i = choose|i: int|
                        0 <= i < old(self).entries@.len() && old(self).entries@[i].0@ == q;
                    if i < j {
                        assert(self.entries@[i].0@ == q);
                    } else {
                        assert(self.entries@[i - 1].0@ == q);
                    }
                }
                Some(offset)
            },
            None => {
                assert(self.map@.remove(key@) =~= self.map@);
                None
            },
        }
    }

    /// The pairs of the index, each key once, in no particular order.
    pub fn entries(&self) -> (r: Vec<(Vec<u8>, u64)>)
        requires
            self.wf(),
        ensures
            forall|i: int|
                0 <= i < r@.len() ==> #[trigger] self@.contains_key(r@[i].0@) && self@[r@[i].0@]
                    == r@[i].1,
            forall|k: Seq<u8>|
                #[trigger] self@.contains_key(k) ==> exists|i: int|
                    0 <= i < r@.len() && #[trigger] r@[i].0@ == k,
            forall|i: int, j: int| 0 <= i < j < r@.len() ==> #[trigger] r@[i].0@ != #[trigger] r@[j].0@,
    {
        let mut out: Vec<(Vec<u8>, u64)> = Vec::new();
        let mut i: usize = 0;
        while i < self.entries.len()
            invariant
                self.wf(),
                i <= self.entries@.len(),
                out@.len() == i,
                forall|j: int| 0 <= j < i ==> #[trigger] out@[j].0@ == self.entries@[j].0@,
                forall|j: int| 0 <= j < i ==> #[trigger] out@[j].1 == self.entries@[j].1,
            decreases self.entries@.len() - i,
        {
            let key = &self.entries[i].0;
            let k = copy_range(key.as_slice(), 0, key.len());
            assert(key@.subrange(0, key@.len() as int) =~= key@);
            let ghost before = out@;
            assert(k@ == self.entries@[i as int].0@);
            out.push((k, self.entries[i].1));
            assert(out@[i as int].0@ == self.entries@[i as int].0@);
            assert forall|j: int| 0 <= j <= i implies out@[j] == (
            if j < i {
                before[j]
            } else {
                out@[j]
            }) by {}
            i = i + 1;
        }
        assert forall|k: Seq<u8>| #[trigger] self@.contains_key(k) implies exists|i: int|
            0 <= i < out@.len() && #[trigger] out@[i].0@ == k by {
            let i = choose|i: int| 0 <= i < self.entries@.len() && self.entries@[i].0@ == k;
            assert(out@[i].0@ == k);
        }
        assert forall|i: int, j: int| 0 <= i < j < out@.len() implies #[trigger] out@[i].0@
            != #[trigger] out@[j].0@ by {
            assert(out@[i].0@ == self.entries@[i].0@);
            assert(out@[j].0@ == self.entries@[j].0@);
        }
        out
    }
}

} // verus!
