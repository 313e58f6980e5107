//! The scratch store: per-query mutable state addressable by every grid
//! cell, reset in time proportional to the cells actually visited rather
//! than the grid size.
//!
//! Every slot carries a hidden last-written generation tag; one counter is
//! advanced per query, so a slot written in an older generation reads as the
//! configured default without being touched.

use vstd::prelude::*;

verus! {

/// A fixed-universe store of per-cell values with O(visited) reset.
pub struct RegionCache<T> {
    default: T,
    generation: u64,
    slots: Vec<(u64, T)>,
}

impl<T> View for RegionCache<T> {
    type V = Seq<T>;

    /// The value the current query sees at each index.
    closed spec fn view(&self) -> Seq<T> {
        Seq::new(
            self.slots@.len(),
            |i: int| if self.slots@[i].0 == self.generation {
                self.slots@[i].1
            } else {
                self.default
            },
        )
    }
}

impl<T: Copy> RegionCache<T> {
    /// Internal consistency: no slot tag is ahead of the generation counter.
    pub closed spec fn wf(self) -> bool {
        forall|i: int| 0 <= i < self.slots@.len() ==> (#[trigger] self.slots@[i]).0 <= self.generation
    }

    /// The default value every slot shows when untouched in the current query.
    pub closed spec fn spec_default(self) -> T {
        self.default
    }

    /// A store over `size` slots, all showing `default`.
    pub fn new(default: T, size: usize) -> (r: Self)
        ensures
            r.wf(),
            r@.len() == size,
            r.spec_default() == default,
            forall|i: int| 0 <= i < size ==> #[trigger] r@[i] == default,
    {
        let mut slots: Vec<(u64, T)> = Vec::new();
        let mut k: usize = 0;
        while k < size
            invariant
                0 <= k <= size,
                slots@.len() == k,
                forall|i: int| 0 <= i < k ==> (#[trigger] slots@[i]).0 == 0,
            decreases size - k,
        {
            slots.push((0, default));
            k = k + 1;
        }
        RegionCache { default, generation: 1, slots }
    }

    /// The number of slots.
    pub fn len(&self) -> (n: usize)
        ensures n == self@.len(),
    {
        self.slots.len()
    }

    /// Start a new query: every index reads as the default again, without
    /// touching the slots (except in the far-off case that the generation
    /// counter would wrap, where all slots are rewritten instead).
    pub fn new_generation(&mut self)
        requires
            old(self).wf(),
        ensures
            final(self).wf(),
            final(self)@.len() == old(self)@.len(),
            final(self).spec_default() == old(self).spec_default(),
            forall|i: int| 0 <= i < final(self)@.len() ==> #[trigger] final(self)@[i] == final(self).spec_default(),
    {
        if self.generation < u64::MAX {
            self.generation = self.generation + 1;
        } else {
            let n = self.slots.len();
            let mut k: usize = 0;
            while k < n
                invariant
                    0 <= k <= n,
                    self.slots@.len() == n,
                    self.default == old(self).default,
                    forall|i: int| 0 <= i < k ==> (#[trigger] self.slots@[i]).0 == 0,
                decreases n - k,
            {
                self.slots.set(k, (0, self.default));
                k = k + 1;
            }
            self.generation = 1;
        }
    }

    /// The value at `index` as the current query sees it.
    pub fn get(&self, index: usize) -> (v: T)
        requires
            self.wf(),
            index < self@.len(),
        ensures
            v == self@[index as int],
    {
        let (tag, value) = self.slots[index];
        if tag == self.generation {
            value
        } else {
            self.default
        }
    }

    /// Record `value` at `index` for the current query.
    pub fn set(&mut self, index: usize, value: T)
        requires
            old(self).wf(),
            index < old(self)@.len(),
        ensures
            final(self).wf(),
            final(self)@ == old(self)@.update(index as int, value),
            final(self).spec_default() == old(self).spec_default(),
    {
        self.slots.set(index, (self.generation, value));
        assert(self@ =~= old(self)@.update(index as int, value));
    }
}

} // verus!
