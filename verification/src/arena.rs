//! A slot-recycling arena: records addressed by stable small-integer handles.
//!
//! A handle stays valid until it is freed and may be handed out again by a
//! later insertion. Handle `0` is reserved and never names a record, so it can
//! serve as a null link in intrusive structures built on top of the arena.

use vstd::prelude::*;

verus! {

/// A growable pool of records with handle reuse.
pub struct Arena<T> {
    slots: Vec<Option<T>>,
    free: Vec<usize>,
}

impl<T> Arena<T> {
    /// The live records, by handle.
    pub closed spec fn view(&self) -> Map<usize, T> {
        Map::new(
            |id: usize| 0 < id < self.slots@.len() && self.slots@[id as int] is Some,
            |id: usize| self.slots@[id as int]->0,
        )
    }

    /// One more than the largest handle that was ever handed out.
    pub closed spec fn bound(&self) -> nat {
        self.slots@.len()
    }

    /// The representation invariant.
    pub closed spec fn wf(&self) -> bool {
        &&& 1 <= self.slots@.len() <= usize::MAX
        &&& self.slots@[0] is None
        &&& self.free@.no_duplicates()
        &&& forall|k: int|
            0 <= k < self.free@.len() ==> 0 < #[trigger] self.free@[k] < self.slots@.len()
                && self.slots@[self.free@[k] as int] is None
    }

    /// The handle that the next insertion will return: the one freed last
    /// if any is free, else the lowest one never used.
    pub closed spec fn next_id(&self) -> usize {
        if self.free@.len() > 0 {
            self.free@[self.free@.len() - 1]
        } else {
            self.slots@.len() as usize
        }
    }

    /// Whether `id` names a live record.
    pub open spec fn has(&self, id: usize) -> bool {
        self@.contains_key(id)
    }

    /// An empty arena.
    pub fn new() -> (r: Self)
        ensures
            r.wf(),
            r@ == Map::<usize, T>::empty(),
            r.next_id() == 1,
    {
        let mut slots: Vec<Option<T>> = Vec::new();
        slots.push(None);
        let r = Arena { slots, free: Vec::new() };
        assert(r@ =~= Map::<usize, T>::empty());
        r
    }

    /// Stores `value` and returns its handle: a recycled one if any is free,
    /// else a fresh one.
    pub fn insert(&mut self, value: T) -> (id: usize)
        requires
            old(self).wf(),
        ensures
            final(self).wf(),
            id != 0,
            id == old(self).next_id(),
            !old(self)@.contains_key(id),
            final(self)@ == old(self)@.insert(id, value),
    {
        if self.free.len() > 0 {
            let ghost free0 = self.free@;
            let id = self.free.pop().unwrap();
            assert(free0[free0.len() - 1] == id);
            assert(self.free@ =~= free0.drop_last());
            self.slots[id] = Some(value);
            assert(final(self)@ =~= old(self)@.insert(id, value));
            assert forall|k: int| 0 <= k < self.free@.len() implies 0 < #[trigger] self.free@[k]
                < self.slots@.len() && self.slots@[self.free@[k] as int] is None by {
                assert(free0[k] == self.free@[k]);
                assert(free0[k] != free0[free0.len() - 1]);
            }
            id
        } else {
            let id = self.slots.len();
            self.slots.push(Some(value));
            let n = self.slots.len();
            assert(final(self)@ =~= old(self)@.insert(id, value));
            id
        }
    }

    /// Frees the record named by `id` and returns it. The next insertion
    /// hands the handle out again.
    pub fn remove(&mut self, id: usize) -> (value: T)
        requires
            old(self).wf(),
            old(self).has(id),
        ensures
            final(self).wf(),
            value == old(self)@[id],
            final(self)@ == old(self)@.remove(id),
            final(self).next_id() == id,
    {
        let value = self.slots[id].take().unwrap();
        proof {
            if self.free@.contains(id) {
                let k = self.free@.index_of(id);
                assert(self.free@[k] == id);
            }
        }
        self.free.push(id);
        assert(final(self)@ =~= old(self)@.remove(id));
        value
    }

    /// Whether `id` names a live record.
    pub fn contains(&self, id: usize) -> (r: bool)
        requires
            self.wf(),
        ensures
            r == self.has(id),
    {
        id > 0 && id < self.slots.len() && self.slots[id].is_some()
    }

    /// The record named by `id`, if it is live.
    pub fn get(&self, id: usize) -> (r: Option<&T>)
        requires
            self.wf(),
        ensures
            r matches Some(v) ==> self.has(id) && *v == self@[id],
            r is None ==> !self.has(id),
    {
        if id > 0 && id < self.slots.len() {
            self.slots[id].as_ref()
        } else {
            None
        }
    }

    /// The live record named by `id`.
    pub fn at(&self, id: usize) -> (r: &T)
        requires
            self.wf(),
            self.has(id),
        ensures
            *r == self@[id],
    {
        self.slots[id].as_ref().unwrap()
    }

    /// Mutable access to the live record named by `id`.
    pub fn at_mut(&mut self, id: usize) -> (r: &mut T)
        requires
            old(self).wf(),
            old(self).has(id),
        ensures
            *r == old(self)@[id],
            final(self).wf(),
            final(self)@ == old(self)@.insert(id, *final(r)),
            final(self).bound() == old(self).bound(),
    {
        let slot = &mut self.slots[id];
        let r = slot.as_mut().unwrap();
        r
    }

    /// Handles are positive and below `bound()`, so a list of distinct live
    /// handles can never be long enough to overflow a `usize` counter.
    pub proof fn lemma_distinct_handles_fit(&self, s: Seq<usize>)
        requires
            self.wf(),
            s.no_duplicates(),
            forall|i: int| 0 <= i < s.len() ==> self.has(#[trigger] s[i]),
        ensures
            s.len() < usize::MAX,
    {
        assert forall|i: int| 0 <= i < s.len() implies 0 < #[trigger] s[i] < self.slots@.len() by {
            assert(self.has(s[i]));
        }
        lemma_distinct_below(s, self.slots@.len());
    }
}

/// A sequence of distinct positive numbers below `n` has fewer than `n` elements.
pub proof fn lemma_distinct_below(s: Seq<usize>, n: nat)
    requires
        s.no_duplicates(),
        n >= 1,
        forall|i: int| 0 <= i < s.len() ==> 0 < #[trigger] s[i] < n,
    ensures
        s.len() < n,
    decreases n,
{
    if n == 1 {
        if s.len() > 0 {
            assert(0 < s[0] < 1);
        }
    } else {
        let top = (n - 1) as usize;
        if s.contains(top) {
            let k = s.index_of(top);
            let t = s.remove(k);
            assert forall|i: int| 0 <= i < t.len() implies 0 < #[trigger] t[i] < n - 1 by {
                if i < k {
                    assert(t[i] == s[i]);
                } else {
                    assert(t[i] == s[i + 1]);
                }
            }
            assert(t.no_duplicates()) by {
                assert forall|i: int, j: int| 0 <= i < t.len() && 0 <= j < t.len() && i != j implies t[i] != t[j] by {
                    let i2 = if i < k { i } else { i + 1 };
                    let j2 = if j < k { j } else { j + 1 };
                    assert(t[i] == s[i2] && t[j] == s[j2]);
                }
            }
            lemma_distinct_below(t, (n - 1) as nat);
        } else {
            assert forall|i: int| 0 <= i < s.len() implies 0 < #[trigger] s[i] < n - 1 by {
                assert(s.contains(s[i]));
            }
            lemma_distinct_below(s, (n - 1) as nat);
        }
    }
}

} // verus!
