//! A map from byte strings, for a handful of keys.

use vstd::prelude::*;
use vstd::slice::slice_to_vec;

use crate::fs::path;

verus! {

/// A map from byte strings, for a handful of keys.
pub struct ByteMap<V> {
    entries: Vec<(Vec<u8>, V)>,
}

impl<V> View for ByteMap<V> {
    type V = Map<Seq<u8>, V>;

    closed spec fn view(&self) -> Map<Seq<u8>, V> {
        Map::new(
            |k: Seq<u8>| exists|i: int| self.at(i, k),
            |k: Seq<u8>| self.entries@[self.place(k)].1,
        )
    }
}

impl<V> ByteMap<V> {
    spec fn at(&self, i: int, k: Seq<u8>) -> bool {
        0 <= i < self.entries@.len() && self.entries@[i].0@ == k
    }

    spec fn place(&self, k: Seq<u8>) -> int {
        choose|i: int| self.at(i, k)
    }

    /// No key occurs twice.
    pub closed spec fn inv(&self) -> bool {
        forall|i: int, j: int|
            0 <= i < j < self.entries@.len() ==> (#[trigger] self.entries@[i]).0@ != (
            #[trigger] self.entries@[j]).0@
    }

    proof fn lemma_place(&self, i: int, k: Seq<u8>)
        requires
            self.inv(),
            self.at(i, k),
        ensures
            self.place(k) == i,
            self@.contains_key(k),
            self@[k] == self.entries@[i].1,
    {
        let j = self.place(k);
        assert(self.at(j, k));
    }

    pub fn new() -> (m: ByteMap<V>)
        ensures
            m.inv(),
            m@ == Map::<Seq<u8>, V>::empty(),
    {
        let m = ByteMap { entries: Vec::new() };
        assert(m@ =~= Map::<Seq<u8>, V>::empty());
        m
    }

    pub fn is_empty(&self) -> (b: bool)
        ensures
            b == (self@ == Map::<Seq<u8>, V>::empty()),
    {
        let b: bool = self.entries.len() == 0;
        proof {
            if b {
                assert(self@ =~= Map::<Seq<u8>, V>::empty());
            } else {
                let k = self.entries@[0].0@;
                assert(self.at(0, k));
                assert(self@.contains_key(k));
            }
        }
        b
    }

    fn find(&self, key: &[u8]) -> (r: Option<usize>)
        ensures
            match r {
                Some(i) => self.at(i as int, key@),
                None => forall|i: int| !self.at(i, key@),
            },
    {
        let mut i: usize = 0;
        while i < self.entries.len()
            invariant
                i <= self.entries@.len(),
                forall|k: int| 0 <= k < i ==> !self.at(k, key@),
            decreases self.entries@.len() - i,
        {
            if path::same_bytes(self.entries[i].0.as_slice(), key) {
                return Some(i);
            }
            i = i + 1;
        }
        None
    }

    pub fn get(&self, key: &[u8]) -> (r: Option<&V>)
        requires
            self.inv(),
        ensures
            match r {
                Some(v) => self@.contains_key(key@) && *v == self@[key@],
                None => !self@.contains_key(key@),
            },
    {
        match self.find(key) {
            Some(i) => {
                proof {
                    self.lemma_place(i as int, key@);
                }
                Some(&self.entries[i].1)
            },
            None => None,
        }
    }

    pub fn insert(&mut self, key: &[u8], value: V)
        requires
            old(self).inv(),
        ensures
            final(self).inv(),
            final(self)@ == old(self)@.insert(key@, value),
    {
        let ghost before = *self;
        let ghost target = before@.insert(key@, value);
        let at: usize = match self.find(key) {
            Some(i) => {
                self.entries.set(i, (slice_to_vec(key), value));
                i
            },
            None => {
                let i: usize = self.entries.len();
                self.entries.push((slice_to_vec(key), value));
                i
            },
        };
        proof {
            let n = before.entries@.len() as int;
            assert forall|a: int, b: int| 0 <= a < b < self.entries@.len() implies (
            #[trigger] self.entries@[a]).0@ != (#[trigger] self.entries@[b]).0@ by {
                if a < n {
                    assert(before.at(a, before.entries@[a].0@));
                }
                if b < n {
                    assert(before.at(b, before.entries@[b].0@));
                }
                if at == n {
                    assert(!before.at(a, key@));
                }
            }
            assert(self.at(at as int, key@));
            self.lemma_place(at as int, key@);
            assert forall|k: Seq<u8>|
                (#[trigger] self@.dom().contains(k) == target.dom().contains(k)) && (
                target.dom().contains(k) ==> self@[k] == target[k]) by {
                if k != key@ && self@.contains_key(k) {
                    let i = choose|i: int| self.at(i, k);
                    assert(before.at(i, k));
                    self.lemma_place(i, k);
                    before.lemma_place(i, k);
                }
                if k != key@ && before@.contains_key(k) {
                    let i = choose|i: int| before.at(i, k);
                    assert(self.at(i, k));
                }
            }
            assert(self@ =~= target);
        }
    }

    pub fn remove(&mut self, key: &[u8])
        requires
            old(self).inv(),
        ensures
            final(self).inv(),
            final(self)@ == old(self)@.remove(key@),
    {
        let ghost before = *self;
        let ghost target = before@.remove(key@);
        match self.find(key) {
            Some(at) => {
                self.entries.remove(at);
                proof {
                    assert forall|a: int, b: int| 0 <= a < b < self.entries@.len() implies (
                    #[trigger] self.entries@[a]).0@ != (#[trigger] self.entries@[b]).0@ by {
                        let x = if a < at {
                            a
                        } else {
                            a + 1
                        };
                        let y = if b < at {
                            b
                        } else {
                            b + 1
                        };
                        assert(before.entries@[x] == self.entries@[a]);
                        assert(before.entries@[y] == self.entries@[b]);
                    }
                    assert forall|k: Seq<u8>|
                        (#[trigger] self@.dom().contains(k) == target.dom().contains(k)) && (
                        target.dom().contains(k) ==> self@[k] == target[k]) by {
                        if self@.contains_key(k) {
                            let i = choose|i: int| self.at(i, k);
                            let x = if i < at {
                                i
                            } else {
                                i + 1
                            };
                            assert(before.entries@[x] == self.entries@[i]);
                            assert(before.at(x, k));
                            self.lemma_place(i, k);
                            before.lemma_place(x, k);
                            before.lemma_place(at as int, key@);
                        }
                        if k != key@ && before@.contains_key(k) {
                            let x = choose|x: int| before.at(x, k);
                            let i = if x < at {
                                x
                            } else {
                                x - 1
                            };
                            assert(before.entries@[x] == self.entries@[i]);
                            assert(self.at(i, k));
                        }
                    }
                    assert(self@ =~= target);
                }
            },
            None => {
                assert(self@ =~= target);
            },
        }
    }
}

} // verus!
