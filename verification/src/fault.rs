//! Failures on schedule, so that what only runs on failing hardware can be tried on hardware
//! that works.

use vstd::prelude::*;
use vstd::slice::slice_to_vec;

use crate::fs::path;
use crate::fs::path::PathView;

verus! {

/// Whether the next flush of the file `p` fails.
pub open spec fn fails(scheduled: Map<PathView, nat>, p: PathView) -> bool {
    scheduled.contains_key(p) && scheduled[p] > 0
}

/// What is scheduled after a flush of the file `p`: one failure fewer, or nothing.
pub open spec fn flushed(scheduled: Map<PathView, nat>, p: PathView) -> Map<PathView, nat> {
    if fails(scheduled, p) {
        scheduled.insert(p, (scheduled[p] - 1) as nat)
    } else {
        scheduled.remove(p)
    }
}

/// What is scheduled after `n` flushes of the file `p`.
pub open spec fn flushed_often(scheduled: Map<PathView, nat>, p: PathView, n: nat) -> Map<
    PathView,
    nat,
>
    decreases n,
{
    if n == 0 {
        scheduled
    } else {
        flushed(flushed_often(scheduled, p, (n - 1) as nat), p)
    }
}

/// Exactly the next `times` flushes of a file fail once that is scheduled, and those of other
/// files fail or not as they did.
pub proof fn lemma_as_many_flushes_fail_as_scheduled(
    scheduled: Map<PathView, nat>,
    p: PathView,
    times: nat,
    n: nat,
    other: PathView,
)
    ensures
        ({
            let after = flushed_often(scheduled.insert(p, times), p, n);
            &&& fails(after, p) <==> n < times
            &&& other != p ==> fails(after, other) == fails(scheduled, other)
        }),
        !fails(scheduled.remove(p), p),
    decreases n,
{
    lemma_left_to_fail(scheduled, p, times, n, other);
}

proof fn lemma_left_to_fail(
    scheduled: Map<PathView, nat>,
    p: PathView,
    times: nat,
    n: nat,
    other: PathView,
)
    ensures
        ({
            let after = flushed_often(scheduled.insert(p, times), p, n);
            &&& n <= times ==> after.contains_key(p) && after[p] == times - n
            &&& n > times ==> !after.contains_key(p)
            &&& other != p ==> (after.contains_key(other) == scheduled.contains_key(other)) && (
            scheduled.contains_key(other) ==> after[other] == scheduled[other])
        }),
    decreases n,
{
    if n > 0 {
        lemma_left_to_fail(scheduled, p, times, (n - 1) as nat, other);
    }
}

/// The failures that are still to come, by path.
pub struct Faults {
    scheduled: Vec<(Vec<u8>, u32)>,
}

impl View for Faults {
    type V = Map<PathView, nat>;

    closed spec fn view(&self) -> Map<PathView, nat> {
        Map::new(
            |p: PathView| exists|i: int| self.at(i, p),
            |p: PathView| self.scheduled@[self.place(p)].1 as nat,
        )
    }
}

impl Faults {
    spec fn at(&self, i: int, p: PathView) -> bool {
        0 <= i < self.scheduled@.len() && path::named(self.scheduled@[i].0@) == p
    }

    spec fn place(&self, p: PathView) -> int {
        choose|i: int| self.at(i, p)
    }

    /// No path is scheduled twice.
    pub closed spec fn inv(&self) -> bool {
        forall|i: int, j: int|
            0 <= i < j < self.scheduled@.len() ==> path::named((#[trigger] self.scheduled@[i]).0@)
                != path::named((#[trigger] self.scheduled@[j]).0@)
    }

    proof fn lemma_place(&self, i: int, p: PathView)
        requires
            self.inv(),
            self.at(i, p),
        ensures
            self.place(p) == i,
            self@.contains_key(p),
            self@[p] == self.scheduled@[i].1,
    {
        let j = self.place(p);
        assert(self.at(j, p));
    }

    /// Nothing fails.
    pub fn new() -> (f: Faults)
        ensures
            f.inv(),
            f@ == Map::<PathView, nat>::empty(),
    {
        let f = Faults { scheduled: Vec::new() };
        assert(f@ =~= Map::<PathView, nat>::empty());
        f
    }

    /// Where `path` is scheduled.
    fn find(&self, path: &[u8]) -> (r: Option<usize>)
        ensures
            match r {
                Some(i) => self.at(i as int, path::named(path@)),
                None => forall|i: int| !self.at(i, path::named(path@)),
            },
    {
        let mut i: usize = 0;
        while i < self.scheduled.len()
            invariant
                i <= self.scheduled@.len(),
                forall|k: int| 0 <= k < i ==> !self.at(k, path::named(path@)),
            decreases self.scheduled@.len() - i,
        {
            if path::same_path(self.scheduled[i].0.as_slice(), path) {
                return Some(i);
            }
            i = i + 1;
        }
        None
    }

    /// The next `times` flushes of the file at `path` fail.
    pub fn fail_flushes(&mut self, path: &[u8], times: u32)
        requires
            old(self).inv(),
        ensures
            final(self).inv(),
            final(self)@ == old(self)@.insert(path::named(path@), times as nat),
    {
        let ghost before = *self;
        let ghost name = path::named(path@);
        match self.find(path) {
            Some(i) => {
                self.scheduled.set(i, (slice_to_vec(path), times));
                proof {
                    assert forall|a: int, b: int|
                        0 <= a < b < self.scheduled@.len() implies path::named(
                        (#[trigger] self.scheduled@[a]).0@,
                    ) != path::named((#[trigger] self.scheduled@[b]).0@) by {
                        assert(before.scheduled@[a] == before.scheduled@[a]);
                        assert(before.scheduled@[b] == before.scheduled@[b]);
                    }
                    assert(self@ =~= before@.insert(name, times as nat)) by {
                        assert(self.at(i as int, name));
                        self.lemma_place(i as int, name);
                        let target = before@.insert(name, times as nat);
                        assert forall|p: PathView|
                            (#[trigger] self@.dom().contains(p) == target.dom().contains(p)) && (
                            target.dom().contains(p) ==> self@[p] == target[p]) by {
                            if p != name && self@.contains_key(p) {
                                let k = choose|k: int| self.at(k, p);
                                assert(before.at(k, p));
                                self.lemma_place(k, p);
                                before.lemma_place(k, p);
                            }
                            if before@.contains_key(p) {
                                let k = choose|k: int| before.at(k, p);
                                assert(self.at(k, p));
                            }
                        }
                    }
                }
            },
            None => {
                self.scheduled.push((slice_to_vec(path), times));
                let ghost n = before.scheduled@.len() as int;
                proof {
                    assert forall|a: int, b: int|
                        0 <= a < b < self.scheduled@.len() implies path::named(
                        (#[trigger] self.scheduled@[a]).0@,
                    ) != path::named((#[trigger] self.scheduled@[b]).0@) by {
                        assert(!before.at(a, name));
                        assert(before.scheduled@[a] == self.scheduled@[a]);
                        if b < n {
                            assert(before.scheduled@[b] == self.scheduled@[b]);
                        }
                    }
                    assert(self@ =~= before@.insert(name, times as nat)) by {
                        assert(self.at(n, name));
                        self.lemma_place(n, name);
                        let target = before@.insert(name, times as nat);
                        assert forall|p: PathView|
                            (#[trigger] self@.dom().contains(p) == target.dom().contains(p)) && (
                            target.dom().contains(p) ==> self@[p] == target[p]) by {
                            if p != name && self@.contains_key(p) {
                                let k = choose|k: int| self.at(k, p);
                                assert(before.at(k, p));
                                self.lemma_place(k, p);
                                before.lemma_place(k, p);
                            }
                            if before@.contains_key(p) {
                                let k = choose|k: int| before.at(k, p);
                                assert(self.at(k, p));
                            }
                        }
                    }
                }
            },
        }
    }

    /// Flushes of the file at `path` do not fail any more.
    pub fn heal(&mut self, path: &[u8])
        requires
            old(self).inv(),
        ensures
            final(self).inv(),
            final(self)@ == old(self)@.remove(path::named(path@)),
    {
        let ghost before = *self;
        let ghost name = path::named(path@);
        match self.find(path) {
            Some(i) => {
                self.scheduled.remove(i);
                proof {
                    assert forall|a: int, b: int|
                        0 <= a < b < self.scheduled@.len() implies path::named(
                        (#[trigger] self.scheduled@[a]).0@,
                    ) != path::named((#[trigger] self.scheduled@[b]).0@) by {
                        let x = if a < i {
                            a
                        } else {
                            a + 1
                        };
                        let y = if b < i {
                            b
                        } else {
                            b + 1
                        };
                        assert(before.scheduled@[x] == self.scheduled@[a]);
                        assert(before.scheduled@[y] == self.scheduled@[b]);
                    }
                    assert(self@ =~= before@.remove(name)) by {
                        let target = before@.remove(name);
                        assert forall|p: PathView|
                            (#[trigger] self@.dom().contains(p) == target.dom().contains(p)) && (
                            target.dom().contains(p) ==> self@[p] == target[p]) by {
                            if self@.contains_key(p) {
                                let k = choose|k: int| self.at(k, p);
                                let x = if k < i {
                                    k
                                } else {
                                    k + 1
                                };
                                assert(before.scheduled@[x] == self.scheduled@[k]);
                                assert(before.at(x, p));
                                self.lemma_place(k, p);
                                before.lemma_place(x, p);
                                before.lemma_place(i as int, name);
                            }
                            if p != name && before@.contains_key(p) {
                                let x = choose|x: int| before.at(x, p);
                                let k = if x < i {
                                    x
                                } else {
                                    x - 1
                                };
                                assert(before.scheduled@[x] == self.scheduled@[k]);
                                assert(self.at(k, p));
                            }
                        }
                    }
                }
            },
            None => {
                assert(self@ =~= before@.remove(name));
            },
        }
    }

    /// Whether this flush of the file at `path` fails, which uses one failure up.
    pub fn take_failure(&mut self, path: &[u8]) -> (b: bool)
        requires
            old(self).inv(),
        ensures
            final(self).inv(),
            b == fails(old(self)@, path::named(path@)),
            final(self)@ == flushed(old(self)@, path::named(path@)),
    {
        let ghost before = *self;
        let ghost name = path::named(path@);
        match self.find(path) {
            Some(i) => {
                let left: u32 = self.scheduled[i].1;
                proof {
                    self.lemma_place(i as int, name);
                }
                if left == 0 {
                    self.heal(path);
                    false
                } else {
                    self.fail_flushes(path, left - 1);
                    true
                }
            },
            None => {
                assert(self@ =~= before@.remove(name));
                false
            },
        }
    }
}

} // verus!
