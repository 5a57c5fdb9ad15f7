//! A map that holds a bounded number of entries and forgets the oldest.

use vstd::prelude::*;
use vstd::string::StringExecFns;

verus! {

/// The keys of `entries`.
pub open spec fn keys<V>(entries: Seq<(Seq<char>, V)>) -> Seq<Seq<char>> {
    Seq::new(entries.len(), |i: int| entries[i].0)
}

/// Where `key` is in `entries`; their number if it is not there.
pub open spec fn place<V>(entries: Seq<(Seq<char>, V)>, key: Seq<char>) -> int
    decreases entries.len(),
{
    if entries.len() == 0 || entries[0].0 == key {
        0
    } else {
        1 + place(entries.skip(1), key)
    }
}

/// The entries once `key` is set to `value`: where it was, or last. Where that is one too
/// many, the oldest goes.
pub open spec fn inserted<V>(
    entries: Seq<(Seq<char>, V)>,
    cap: nat,
    key: Seq<char>,
    value: V,
) -> Seq<(Seq<char>, V)> {
    let at = place(entries, key);
    if at < entries.len() {
        entries.update(at, (key, value))
    } else if entries.len() < cap {
        entries.push((key, value))
    } else {
        entries.skip(1).push((key, value))
    }
}

/// The entries without `key`.
pub open spec fn removed<V>(entries: Seq<(Seq<char>, V)>, key: Seq<char>) -> Seq<(Seq<char>, V)> {
    let at = place(entries, key);
    if at < entries.len() {
        entries.remove(at)
    } else {
        entries
    }
}

proof fn lemma_place<V>(entries: Seq<(Seq<char>, V)>, key: Seq<char>, at: int)
    requires
        0 <= at <= entries.len(),
        forall|i: int| 0 <= i < at ==> (#[trigger] entries[i]).0 != key,
        at == entries.len() || entries[at].0 == key,
    ensures
        place(entries, key) == at,
    decreases at,
{
    if at > 0 {
        assert(entries[0].0 != key);
        let rest = entries.skip(1);
        assert forall|i: int| 0 <= i < at - 1 implies (#[trigger] rest[i]).0 != key by {
            assert(rest[i] == entries[i + 1]);
        }
        lemma_place(rest, key, at - 1);
    }
}

/// A map that holds a bounded number of entries and forgets the oldest.
pub struct BoundedMap<V> {
    entries: Vec<(String, V)>,
    cap: usize,
}

impl<V> View for BoundedMap<V> {
    type V = Seq<(Seq<char>, V)>;

    /// The entries, the oldest first.
    closed spec fn view(&self) -> Seq<(Seq<char>, V)> {
        Seq::new(self.entries@.len(), |i: int| (self.entries@[i].0@, self.entries@[i].1))
    }
}

impl<V> BoundedMap<V> {
    pub closed spec fn cap(&self) -> nat {
        self.cap as nat
    }

    pub open spec fn inv(&self) -> bool {
        self.cap() >= 1 && self@.len() <= self.cap() && keys(self@).no_duplicates()
    }

    /// A map of at most `cap` entries.
    pub fn new(cap: usize) -> (m: BoundedMap<V>)
        requires
            cap >= 1,
        ensures
            m.inv(),
            m.cap() == cap,
            m@ == Seq::<(Seq<char>, V)>::empty(),
    {
        let m = BoundedMap { entries: Vec::new(), cap };
        assert(m@ =~= Seq::<(Seq<char>, V)>::empty());
        m
    }

    pub fn len(&self) -> (n: usize)
        ensures
            n as nat == self@.len(),
    {
        self.entries.len()
    }

    fn find(&self, key: &str) -> (at: usize)
        ensures
            at == place(self@, key@),
            at <= self@.len(),
    {
        let wanted: String = key.to_owned();
        let n: usize = self.entries.len();
        let mut i: usize = 0;
        while i < n
            invariant
                i <= n == self.entries@.len() == self@.len(),
                wanted@ == key@,
                forall|k: int| 0 <= k < i ==> (#[trigger] self@[k]).0 != key@,
            decreases n - i,
        {
            if self.entries[i].0 == wanted {
                proof {
                    lemma_place(self@, key@, i as int);
                }
                return i;
            }
            i = i + 1;
        }
        proof {
            lemma_place(self@, key@, n as int);
        }
        n
    }

    pub fn get(&self, key: &str) -> (r: Option<&V>)
        ensures
            match r {
                Some(v) => place(self@, key@) < self@.len() && *v == self@[place(self@, key@)].1,
                None => place(self@, key@) == self@.len(),
            },
    {
        let at: usize = self.find(key);
        if at < self.entries.len() {
            Some(&self.entries[at].1)
        } else {
            None
        }
    }

    pub fn insert(&mut self, key: &str, value: V)
        requires
            old(self).inv(),
        ensures
            final(self).inv(),
            final(self).cap() == old(self).cap(),
            final(self)@ == inserted(old(self)@, old(self).cap(), key@, value),
    {
        let ghost before = self@;
        let at: usize = self.find(key);
        if at < self.entries.len() {
            self.entries.set(at, (key.to_owned(), value));
        } else {
            if self.entries.len() >= self.cap {
                self.entries.remove(0);
            }
            self.entries.push((key.to_owned(), value));
        }
        assert(self@ =~= inserted(before, self.cap(), key@, value));
        proof {
            lemma_inserted(before, self.cap(), key@, value);
        }
    }

    pub fn remove(&mut self, key: &str)
        requires
            old(self).inv(),
        ensures
            final(self).inv(),
            final(self).cap() == old(self).cap(),
            final(self)@ == removed(old(self)@, key@),
    {
        let ghost before = self@;
        let at: usize = self.find(key);
        if at < self.entries.len() {
            self.entries.remove(at);
        }
        assert(self@ =~= removed(before, key@));
        assert forall|i: int, j: int|
            0 <= i < j < self@.len() implies keys(self@)[i] != keys(self@)[j] by {
            let a = if i < at {
                i
            } else {
                i + 1
            };
            let b = if j < at {
                j
            } else {
                j + 1
            };
            if at < before.len() {
                assert(keys(before)[a] == before[a].0);
                assert(keys(before)[b] == before[b].0);
            } else {
                assert(keys(before)[i] != keys(before)[j]);
            }
        }
    }
}

/// A key that was set is found, with its value, and never more entries are held than agreed.
pub proof fn lemma_inserted<V>(entries: Seq<(Seq<char>, V)>, cap: nat, key: Seq<char>, value: V)
    requires
        cap >= 1,
        entries.len() <= cap,
        keys(entries).no_duplicates(),
    ensures
        ({
            let after = inserted(entries, cap, key, value);
            &&& after.len() <= cap
            &&& keys(after).no_duplicates()
            &&& place(after, key) < after.len()
            &&& after[place(after, key)] == (key, value)
        }),
{
    let after = inserted(entries, cap, key, value);
    let at = place(entries, key);
    lemma_place_spec(entries, key);
    let spot = if at < entries.len() {
        at
    } else {
        after.len() - 1
    };
    assert(after[spot] == (key, value));
    assert forall|i: int, j: int| 0 <= i < j < after.len() implies keys(after)[i] != keys(after)[j] by {
        let shift: int = if at < entries.len() || entries.len() < cap {
            0
        } else {
            1
        };
        if i + shift < entries.len() {
            assert(keys(entries)[i + shift] == entries[i + shift].0);
        }
        if j + shift < entries.len() {
            assert(keys(entries)[j + shift] == entries[j + shift].0);
        }
        if at < entries.len() {
            assert(keys(entries)[at] == key);
        }
    }
    assert forall|i: int| 0 <= i < spot implies (#[trigger] after[i]).0 != key by {
        assert(keys(after)[i] != keys(after)[spot]);
    }
    lemma_place(after, key, spot);
}

/// Setting a key that is there changes its value and nothing else. A new key comes last, and
/// costs the oldest entry its place only where the map is full.
pub proof fn lemma_only_the_oldest_is_forgotten<V>(
    entries: Seq<(Seq<char>, V)>,
    cap: nat,
    key: Seq<char>,
    value: V,
    p: int,
)
    requires
        cap >= 1,
        entries.len() <= cap,
        keys(entries).no_duplicates(),
    ensures
        0 <= p < entries.len() && entries[p].0 == key ==> inserted(entries, cap, key, value)
            == entries.update(p, (key, value)) && removed(entries, key) == entries.remove(p),
        (forall|i: int| 0 <= i < entries.len() ==> (#[trigger] entries[i]).0 != key) ==> {
            &&& entries.len() < cap ==> inserted(entries, cap, key, value) == entries.push(
                (key, value),
            )
            &&& entries.len() == cap ==> inserted(entries, cap, key, value) == entries.subrange(
                1,
                entries.len() as int,
            ).push((key, value))
            &&& removed(entries, key) == entries
        },
{
    lemma_place_spec(entries, key);
    let at = place(entries, key);
    if 0 <= p < entries.len() && entries[p].0 == key && at < entries.len() {
        assert(keys(entries)[p] == keys(entries)[at]);
    }
    if entries.len() == cap {
        assert(entries.skip(1) =~= entries.subrange(1, entries.len() as int));
    }
    if at < entries.len() {
        assert(entries[at].0 == key);
    }
}

proof fn lemma_place_spec<V>(entries: Seq<(Seq<char>, V)>, key: Seq<char>)
    ensures
        0 <= place(entries, key) <= entries.len(),
        place(entries, key) < entries.len() ==> entries[place(entries, key)].0 == key,
        forall|i: int| 0 <= i < place(entries, key) ==> (#[trigger] entries[i]).0 != key,
    decreases entries.len(),
{
    if entries.len() > 0 && entries[0].0 != key {
        let rest = entries.skip(1);
        lemma_place_spec(rest, key);
        assert forall|i: int| 0 <= i < place(entries, key) implies (#[trigger] entries[i]).0 != key by {
            if i > 0 {
                assert(rest[i - 1] == entries[i]);
            }
        }
    }
}

} // verus!
