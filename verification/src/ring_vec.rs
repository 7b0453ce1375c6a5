//! `RingVec`: a fixed-size circular buffer that, once full, overwrites its
//! oldest item on every further push.

use vstd::prelude::*;
use vstd::std_specs::cmp::PartialEqSpec;

verus! {

/// Physical slot of logical index `i` in a ring of capacity `cap` whose
/// oldest item sits at slot `start`. Wraps around at most once, which is all
/// that is needed while `start < cap` and `0 <= i <= cap`.
pub open spec fn ring_pos(start: int, i: int, cap: int) -> int {
    if start + i < cap {
        start + i
    } else {
        start + i - cap
    }
}

/// One push into a ring holding `view` with capacity `cap`: appended while
/// there is room, otherwise the oldest item is dropped to make room.
pub open spec fn ring_push<T>(view: Seq<T>, cap: nat, item: T) -> Seq<T> {
    if view.len() < cap {
        view.push(item)
    } else {
        view.drop_first().push(item)
    }
}

/// The ring contents after pushing `items`, in order, into an empty ring of
/// capacity `cap`.
pub open spec fn ring_fold<T>(cap: nat, items: Seq<T>) -> Seq<T>
    decreases items.len(),
{
    if items.len() == 0 {
        Seq::<T>::empty()
    } else {
        ring_push(ring_fold(cap, items.drop_last()), cap, items.last())
    }
}

/// After pushing any sequence of items into an empty ring of positive
/// capacity, the ring retains exactly the most recent `cap` of them, oldest
/// first; with fewer pushes than the capacity it retains them all.
pub proof fn lemma_ring_fold_keeps_newest<T>(cap: nat, items: Seq<T>)
    requires
        cap > 0,
    ensures
        ring_fold(cap, items) == if items.len() <= cap {
            items
        } else {
            items.skip(items.len() - cap)
        },
    decreases items.len(),
{
    if items.len() == 0 {
        assert(ring_fold(cap, items) =~= items);
    } else {
        lemma_ring_fold_keeps_newest(cap, items.drop_last());
        let prev = ring_fold(cap, items.drop_last());
        if items.len() <= cap {
            assert(prev == items.drop_last());
            assert(ring_push(prev, cap, items.last()) =~= items);
        } else if items.len() == cap + 1 {
            assert(prev == items.drop_last());
            assert(prev.len() == cap);
            assert(prev.drop_first().push(items.last()) =~= items.skip(1));
        } else {
            assert(prev == items.drop_last().skip(items.len() - 1 - cap));
            assert(prev.len() == cap);
            assert(prev.drop_first().push(items.last()) =~= items.skip(items.len() - cap));
        }
    }
}

/// A fixed-length array of optional slots with a start cursor and a logical
/// length; pushing past the capacity overwrites the oldest item.
pub struct RingVec<T> {
    inner: Vec<Option<T>>,
    start: usize,
    len: usize,
}

impl<T> View for RingVec<T> {
    type V = Seq<T>;

    /// The retained items, oldest first.
    closed spec fn view(&self) -> Seq<T> {
        Seq::new(
            self.len as nat,
            |i: int| self.inner@[ring_pos(self.start as int, i, self.inner@.len() as int)].unwrap(),
        )
    }
}

impl<T: Copy + PartialEq> RingVec<T> {
    /// Number of physical slots; fixed at construction.
    pub closed spec fn spec_cap(&self) -> nat {
        self.inner@.len()
    }

    /// Cursors stay inside the array, every slot of the logical window is
    /// occupied, and every slot outside it is empty — so the physically
    /// resident values are exactly the retained items.
    pub closed spec fn wf(&self) -> bool {
        &&& self.len <= self.inner@.len()
        &&& (self.inner@.len() == 0 ==> self.start == 0)
        &&& (self.inner@.len() > 0 ==> self.start < self.inner@.len())
        &&& forall|i: int|
            0 <= i < self.len ==> self.inner@[ring_pos(
                self.start as int,
                i,
                self.inner@.len() as int,
            )] is Some
        &&& forall|i: int|
            self.len <= i < self.inner@.len() ==> self.inner@[ring_pos(
                self.start as int,
                i,
                self.inner@.len() as int,
            )] is None
    }

    /// An empty ring of `n` slots.
    pub fn new(n: usize) -> (r: RingVec<T>)
        ensures
            r.wf(),
            r@ == Seq::<T>::empty(),
            r.spec_cap() == n,
    {
        let mut inner: Vec<Option<T>> = Vec::new();
        let mut i: usize = 0;
        while i < n
            invariant
                i <= n,
                inner@.len() == i,
                forall|t: int| 0 <= t < i ==> inner@[t] is None,
            decreases n - i,
        {
            inner.push(None);
            i += 1;
        }
        let r = Self { inner, start: 0, len: 0 };
        proof {
            assert(r@ =~= Seq::<T>::empty());
            assert forall|i: int| 0 <= i < n implies r.inner@[ring_pos(0, i, n as int)] is None by {
                assert(ring_pos(0, i, n as int) == i);
            }
        }
        r
    }

    /// Inserts at the logical end; once the ring is full the oldest item is
    /// overwritten and the start cursor advances.
    pub fn push(&mut self, item: T)
        requires
            old(self).wf(),
            old(self).spec_cap() > 0,
        ensures
            final(self).wf(),
            final(self).spec_cap() == old(self).spec_cap(),
            final(self)@ == ring_push(old(self)@, old(self).spec_cap(), item),
    {
        let cap = self.inner.len();
        if self.len < cap {
            let room = cap - self.len;
            let p = if self.start >= room {
                self.start - room
            } else {
                self.start + self.len
            };
            proof {
                assert(p == ring_pos(self.start as int, self.len as int, cap as int));
            }
            self.inner.set(p, Some(item));
            self.len = self.len + 1;
            proof {
                let cap_i = cap as int;
                let s = self.start as int;
                assert forall|i: int|
                    self.len <= i < cap implies self.inner@[ring_pos(s, i, cap_i)] is None by {
                    assert(ring_pos(s, i, cap_i) != ring_pos(s, old(self).len as int, cap_i));
                }
                assert(self@ =~= ring_push(old(self)@, old(self).spec_cap(), item));
            }
        } else {
            self.inner.set(self.start, Some(item));
            self.start = if self.start + 1 == cap {
                0
            } else {
                self.start + 1
            };
            proof {
                let cap_i = cap as int;
                let s0 = old(self).start as int;
                let s1 = self.start as int;
                assert forall|i: int| 0 <= i < self.len implies self.inner@[ring_pos(
                    s1,
                    i,
                    cap_i,
                )] is Some by {
                    if i < self.len - 1 {
                        assert(ring_pos(s1, i, cap_i) == ring_pos(s0, i + 1, cap_i));
                    } else {
                        assert(ring_pos(s1, i, cap_i) == s0);
                    }
                }
                assert(self@ =~= ring_push(old(self)@, old(self).spec_cap(), item));
            }
        }
    }

    /// The item at logical index `idx`, oldest first; `None` when `idx` is
    /// outside the current logical length.
    pub fn get(&self, idx: usize) -> (r: Option<&T>)
        requires
            self.wf(),
        ensures
            (r is Some) == (idx < self@.len()),
            r matches Some(x) ==> *x == self@[idx as int],
    {
        if idx >= self.len {
            return None;
        }
        let cap = self.inner.len();
        let p = if idx < cap - self.start {
            self.start + idx
        } else {
            idx - (cap - self.start)
        };
        proof {
            assert(p == ring_pos(self.start as int, idx as int, cap as int));
        }
        self.inner[p].as_ref()
    }

    /// Whether some retained item equals `item`. The code scans every
    /// physical slot holding a value, as the design fixes; a slot holds a
    /// value exactly while it is inside the logical window, so the scan
    /// decides equality against the retained items.
    pub fn contains(&self, item: &T) -> (r: bool)
        requires
            self.wf(),
        ensures
            T::obeys_eq_spec() ==> r == (exists|i: int|
                0 <= i < self@.len() && (#[trigger] self@[i]).eq_spec(item)),
    {
        let n = self.inner.len();
        let mut j: usize = 0;
        while j < n
            invariant
                self.wf(),
                n == self.inner@.len(),
                j <= n,
                T::obeys_eq_spec() ==> !(exists|t: int|
                    0 <= t < j && ((#[trigger] self.inner@[t]) matches Some(x)
                        && x.eq_spec(item))),
            decreases n - j,
        {
            match &self.inner[j] {
                Some(x) => {
                    if x == item {
                        proof {
                            if T::obeys_eq_spec() {
                                let s = self.start as int;
                                let c = n as int;
                                let ji = j as int;
                                let i0 = if ji >= s {
                                    ji - s
                                } else {
                                    ji + c - s
                                };
                                assert(ring_pos(s, i0, c) == ji);
                                if i0 >= self.len {
                                    assert(self.inner@[ring_pos(s, i0, c)] is None);
                                }
                                assert((#[trigger] self@[i0]).eq_spec(item));
                            }
                        }
                        return true;
                    }
                },
                None => {},
            }
            j += 1;
        }
        proof {
            if T::obeys_eq_spec() {
                assert forall|i: int|
                    0 <= i < self@.len() implies !(#[trigger] self@[i]).eq_spec(item) by {
                    let s = self.start as int;
                    let c = self.inner@.len() as int;
                    let p = ring_pos(s, i, c);
                    assert(0 <= p < c);
                    assert(self.inner@[p] is Some);
                    assert(self@[i] == self.inner@[p].unwrap());
                }
            }
        }
        false
    }
}

} // verus!

