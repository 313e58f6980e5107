//! The frontier: the "next cheapest unfinished cell" abstraction the search
//! draws from, with two interchangeable strategies.
//!
//! Extraction is deterministic: among the entries of lowest cost, the one
//! inserted first leaves first, so every strategy that meets this contract
//! explores in the same order.

use vstd::prelude::*;

verus! {

/// The position of the first entry of minimal cost in `s`.
pub open spec fn first_min_index(s: Seq<(u32, u32)>) -> int
    decreases s.len(),
{
    if s.len() <= 1 {
        0
    } else {
        let r = 1 + first_min_index(s.drop_first());
        if s[0].0 <= s[r].0 {
            0
        } else {
            r
        }
    }
}

/// `first_min_index` points at an entry of minimal cost, and every entry
/// before it costs strictly more.
pub proof fn lemma_first_min_index(s: Seq<(u32, u32)>)
    requires
        s.len() > 0,
    ensures
        0 <= first_min_index(s) < s.len(),
        forall|j: int| 0 <= j < s.len() ==> (#[trigger] s[j]).0 >= s[first_min_index(s)].0,
        forall|j: int| 0 <= j < first_min_index(s) ==> (#[trigger] s[j]).0 > s[first_min_index(s)].0,
    decreases s.len(),
{
    if s.len() > 1 {
        let t = s.drop_first();
        lemma_first_min_index(t);
        let rt = first_min_index(t);
        let r = 1 + rt;
        let k = first_min_index(s);
        assert(s[r] == t[rt]);
        assert(k == if s[0].0 <= s[r].0 { 0int } else { r });
        assert forall|j: int| 0 <= j < s.len() implies (#[trigger] s[j]).0 >= s[k].0 by {
            if j > 0 {
                assert(s[j] == t[j - 1]);
                assert(t[j - 1].0 >= t[rt].0);
            }
        }
        assert forall|j: int| 0 <= j < k implies (#[trigger] s[j]).0 > s[k].0 by {
            if j > 0 {
                assert(s[j] == t[j - 1]);
                assert(t[j - 1].0 > t[rt].0);
            }
        }
    }
}

/// A priority structure of (cost, cell index) entries. `offer` inserts,
/// `take_minimum` removes and returns the first-inserted entry of lowest
/// cost, `reset` clears for reuse. A strategy may bound the costs it can
/// accept at a given moment (`valid_offer`); after extracting an entry of
/// cost `c` it accepts at least the costs in `[c, c + weight_cap()]`.
pub trait Frontier: Sized {
    /// Internal consistency; established by the constructor and preserved
    /// by every operation.
    spec fn inv(&self) -> bool;

    /// The current entries, in insertion order.
    spec fn entries(&self) -> Seq<(u32, u32)>;

    /// Whether an entry of the given cost may be inserted now.
    spec fn valid_offer(&self, cost: int) -> bool;

    /// How far above the last extracted cost insertions stay valid.
    spec fn weight_cap(&self) -> int;

    /// Insert an entry.
    fn offer(&mut self, cost: u32, index: u32)
        requires
            old(self).inv(),
            old(self).valid_offer(cost as int),
        ensures
            final(self).inv(),
            final(self).entries() == old(self).entries().push((cost, index)),
            forall|c: int| final(self).valid_offer(c) == old(self).valid_offer(c),
            final(self).weight_cap() == old(self).weight_cap(),
    ;

    /// Remove and return the first-inserted entry of lowest cost.
    fn take_minimum(&mut self) -> (r: Option<(u32, u32)>)
        requires
            old(self).inv(),
        ensures
            final(self).inv(),
            final(self).weight_cap() == old(self).weight_cap(),
            match r {
                Option::None => {
                    &&& old(self).entries().len() == 0
                    &&& final(self).entries() == old(self).entries()
                },
                Option::Some(p) => {
                    let k = first_min_index(old(self).entries());
                    &&& old(self).entries().len() > 0
                    &&& p == old(self).entries()[k]
                    &&& final(self).entries() == old(self).entries().remove(k)
                    &&& forall|c: int|
                        p.0 as int <= c <= p.0 as int + final(self).weight_cap()
                            ==> final(self).valid_offer(c)
                },
            },
    ;

    /// Clear all entries without giving up backing storage, for reuse
    /// across sequential queries.
    fn reset(&mut self)
        requires
            old(self).inv(),
        ensures
            final(self).inv(),
            final(self).weight_cap() == old(self).weight_cap(),
            final(self).entries() == Seq::<(u32, u32)>::empty(),
            forall|c: int| 0 <= c <= final(self).weight_cap() ==> final(self).valid_offer(c),
    ;
}

/// The comparison-based strategy: general, with no bound on costs.
pub struct ComparisonFrontier {
    items: Vec<(u32, u32)>,
}

impl ComparisonFrontier {
    /// An empty frontier.
    pub fn new() -> (r: Self)
        ensures
            r.inv(),
            r.entries() == Seq::<(u32, u32)>::empty(),
            r.weight_cap() == u32::MAX as int,
            forall|c: int| 0 <= c <= r.weight_cap() ==> r.valid_offer(c),
    {
        let r = ComparisonFrontier { items: Vec::new() };
        proof {
            assert(r.items@ =~= Seq::<(u32, u32)>::empty());
        }
        r
    }
}

impl Frontier for ComparisonFrontier {
    closed spec fn inv(&self) -> bool {
        true
    }

    closed spec fn entries(&self) -> Seq<(u32, u32)> {
        self.items@
    }

    closed spec fn valid_offer(&self, cost: int) -> bool {
        true
    }

    closed spec fn weight_cap(&self) -> int {
        u32::MAX as int
    }

    fn offer(&mut self, cost: u32, index: u32) {
        self.items.push((cost, index));
    }

    fn take_minimum(&mut self) -> (r: Option<(u32, u32)>) {
        let n = self.items.len();
        if n == 0 {
            return None;
        }
        let ghost s = self.items@;
        let mut best: usize = n - 1;
        let mut i: usize = n - 1;
        proof {
            assert(s.subrange(n - 1, n as int).len() == 1);
        }
        while i > 0
            invariant
                self.items@ == s,
                n == s.len(),
                0 <= i < n,
                i <= best < n,
                best as int == i + first_min_index(s.subrange(i as int, n as int)),
            decreases i,
        {
            i = i - 1;
            proof {
                let sub = s.subrange(i as int, n as int);
                assert(sub.drop_first() =~= s.subrange(i as int + 1, n as int));
                lemma_first_min_index(sub.drop_first());
            }
            if self.items[i].0 <= self.items[best].0 {
                best = i;
            }
        }
        proof {
            assert(s.subrange(0, n as int) =~= s);
        }
        let p = self.items.remove(best);
        Some(p)
    }

    fn reset(&mut self) {
        self.items.clear();
        proof {
            assert(self.items@ =~= Seq::<(u32, u32)>::empty());
        }
    }
}

} // verus!
