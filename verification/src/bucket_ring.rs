//! The bucket-ring frontier strategy: a bounded-integer-weight priority
//! structure. Entries live in `max_weight + 1` buckets indexed by cost
//! modulo the ring size; extraction scans from the last extracted cost
//! upward, so it is amortized constant time, and `reset` clears the buckets
//! without giving up their backing storage.

use vstd::prelude::*;

use crate::frontier::first_min_index;
use crate::frontier::lemma_first_min_index;
use crate::frontier::Frontier;

verus! {

/// Entries whose cost falls in bucket `b` of a ring of size `ringsz`.
pub open spec fn in_class(ringsz: int, b: int) -> spec_fn((u32, u32)) -> bool {
    |e: (u32, u32)| (e.0 as int) % ringsz == b
}

/// A filter over elements none of which match is empty.
proof fn lemma_filter_all_false<A>(s: Seq<A>, p: spec_fn(A) -> bool)
    requires
        forall|j: int| 0 <= j < s.len() ==> !p(#[trigger] s[j]),
    ensures
        s.filter(p) == Seq::<A>::empty(),
    decreases s.len(),
{
    reveal(Seq::filter);
    if s.len() > 0 {
        lemma_filter_all_false(s.drop_last(), p);
    }
}

/// Removing the first matching element drops exactly the head of the filter.
proof fn lemma_filter_first<A>(s: Seq<A>, p: spec_fn(A) -> bool, k0: int)
    requires
        0 <= k0 < s.len(),
        p(s[k0]),
        forall|j: int| 0 <= j < k0 ==> !p(#[trigger] s[j]),
    ensures
        s.filter(p).len() > 0,
        s.filter(p)[0] == s[k0],
        s.filter(p).drop_first() == s.remove(k0).filter(p),
    decreases s.len(),
{
    reveal(Seq::filter);
    if k0 == s.len() - 1 {
        lemma_filter_all_false(s.drop_last(), p);
        assert(s.remove(k0) =~= s.drop_last());
        assert(s.filter(p) == s.drop_last().filter(p).push(s.last()));
        assert(s.filter(p).drop_first() =~= s.remove(k0).filter(p));
    } else {
        lemma_filter_first(s.drop_last(), p, k0);
        assert(s.remove(k0).drop_last() =~= s.drop_last().remove(k0));
        assert(s.remove(k0).last() == s.last());
        if p(s.last()) {
            assert(s.filter(p) == s.drop_last().filter(p).push(s.last()));
            assert(s.remove(k0).filter(p) == s.remove(k0).drop_last().filter(p).push(s.last()));
            assert(s.filter(p).drop_first() =~= s.remove(k0).filter(p));
        } else {
            assert(s.filter(p) == s.drop_last().filter(p));
            assert(s.remove(k0).filter(p) == s.remove(k0).drop_last().filter(p));
        }
    }
}

/// Removing an element that does not match leaves the filter unchanged.
proof fn lemma_filter_remove_other<A>(s: Seq<A>, p: spec_fn(A) -> bool, k0: int)
    requires
        0 <= k0 < s.len(),
        !p(s[k0]),
    ensures
        s.remove(k0).filter(p) == s.filter(p),
    decreases s.len(),
{
    reveal(Seq::filter);
    if k0 == s.len() - 1 {
        assert(s.remove(k0) =~= s.drop_last());
    } else {
        lemma_filter_remove_other(s.drop_last(), p, k0);
        assert(s.remove(k0).drop_last() =~= s.drop_last().remove(k0));
        assert(s.remove(k0).last() == s.last());
    }
}

/// Appending an element extends the filter by it exactly when it matches.
proof fn lemma_filter_push<A>(s: Seq<A>, p: spec_fn(A) -> bool, e: A)
    ensures
        s.push(e).filter(p) == if p(e) { s.filter(p).push(e) } else { s.filter(p) },
    decreases s.len(),
{
    reveal(Seq::filter);
    assert(s.push(e).drop_last() =~= s);
    assert(s.push(e).last() == e);
}

/// Two costs in one window of `ringsz` consecutive values with the same
/// residue are equal.
proof fn lemma_window_unique(c1: int, c2: int, lo: int, ringsz: int)
    requires
        0 < ringsz,
        lo <= c1 < lo + ringsz,
        lo <= c2 < lo + ringsz,
        c1 % ringsz == c2 % ringsz,
    ensures
        c1 == c2,
{
    vstd::arithmetic::div_mod::lemma_fundamental_div_mod(c1, ringsz);
    vstd::arithmetic::div_mod::lemma_fundamental_div_mod(c2, ringsz);
    let d1 = c1 / ringsz;
    let d2 = c2 / ringsz;
    let rr = c1 % ringsz;
    assert(c1 - c2 == ringsz * (d1 - d2)) by (nonlinear_arith)
        requires
            c1 == ringsz * d1 + rr,
            c2 == ringsz * d2 + rr;
    assert(d1 == d2) by (nonlinear_arith)
        requires
            c1 - c2 == ringsz * (d1 - d2),
            -ringsz < c1 - c2 < ringsz,
            0 < ringsz;
}

/// The position of the first element of `s` matching `p`.
pub open spec fn first_match<A>(s: Seq<A>, p: spec_fn(A) -> bool) -> int
    decreases s.len(),
{
    if s.len() == 0 {
        0
    } else if p(s[0]) {
        0
    } else {
        1 + first_match(s.drop_first(), p)
    }
}

/// When some element matches, `first_match` points at the first one.
proof fn lemma_first_match<A>(s: Seq<A>, p: spec_fn(A) -> bool, w: int)
    requires
        0 <= w < s.len(),
        p(s[w]),
    ensures
        0 <= first_match(s, p) <= w,
        p(s[first_match(s, p)]),
        forall|j: int| 0 <= j < first_match(s, p) ==> !p(#[trigger] s[j]),
    decreases s.len(),
{
    if !p(s[0]) {
        let t = s.drop_first();
        lemma_first_match(t, p, w - 1);
        assert(forall|j: int| 0 <= j < t.len() ==> #[trigger] t[j] == s[j + 1]);
        assert(s[first_match(s, p)] == t[first_match(t, p)]);
        assert forall|j: int| 0 <= j < first_match(s, p) implies !p(#[trigger] s[j]) by {
            if j > 0 {
                assert(s[j] == t[j - 1]);
            }
        }
    }
}

/// The bucket-ring strategy: amortized constant-time extraction for costs
/// within `max_weight` of the last extracted cost.
pub struct BucketRingBuffer {
    max_weight: u32,
    cursor: u32,
    buckets: Vec<Vec<(u32, u32)>>,
    order: Ghost<Seq<(u32, u32)>>,
}

impl BucketRingBuffer {
    /// The ring size.
    closed spec fn ring(self) -> int {
        self.max_weight as int + 1
    }

    /// An empty ring for costs up to `max_weight` above the last extraction.
    pub fn new(max_weight: u32) -> (r: Self)
        requires
            max_weight < u32::MAX,
        ensures
            r.inv(),
            r.entries() == Seq::<(u32, u32)>::empty(),
            r.weight_cap() == max_weight as int,
            forall|c: int| 0 <= c <= r.weight_cap() ==> r.valid_offer(c),
    {
        let n = max_weight + 1;
        let mut buckets: Vec<Vec<(u32, u32)>> = Vec::new();
        let mut k: u32 = 0;
        while k < n
            invariant
                0 <= k <= n,
                buckets@.len() == k,
                forall|b: int| 0 <= b < k ==> (#[trigger] buckets@[b])@.len() == 0,
            decreases n - k,
        {
            buckets.push(Vec::new());
            k = k + 1;
        }
        let r = BucketRingBuffer { max_weight, cursor: 0, buckets, order: Ghost(Seq::empty()) };
        proof {
            assert forall|b: int| 0 <= b < r.ring() implies (#[trigger] r.buckets@[b])@
                == r.order@.filter(in_class(r.ring(), b)) by {
                lemma_filter_all_false(r.order@, in_class(r.ring(), b));
                assert(r.buckets@[b]@ =~= Seq::<(u32, u32)>::empty());
            }
        }
        r
    }
}

impl Frontier for BucketRingBuffer {
    closed spec fn inv(&self) -> bool {
        &&& self.max_weight < u32::MAX
        &&& self.buckets@.len() == self.ring()
        &&& forall|k: int|
                0 <= k < self.order@.len()
                ==> self.cursor as int <= (#[trigger] self.order@[k]).0 as int
                    <= self.cursor as int + self.max_weight as int
        &&& forall|b: int|
                0 <= b < self.ring()
                ==> (#[trigger] self.buckets@[b])@ == self.order@.filter(in_class(self.ring(), b))
    }

    closed spec fn entries(&self) -> Seq<(u32, u32)> {
        self.order@
    }

    closed spec fn valid_offer(&self, cost: int) -> bool {
        self.cursor as int <= cost <= self.cursor as int + self.max_weight as int
    }

    closed spec fn weight_cap(&self) -> int {
        self.max_weight as int
    }

    fn offer(&mut self, cost: u32, index: u32) {
        let ring = self.max_weight + 1;
        let b = (cost % ring) as usize;
        proof {
            assert(cost as int % self.ring() == b as int);
            assert(0 <= b < self.ring()) by {
                assert(cost as int % self.ring() < self.ring());
            }
        }
        let mut bucket: Vec<(u32, u32)> = Vec::new();
        self.buckets.set_and_swap(b, &mut bucket);
        bucket.push((cost, index));
        self.buckets.set_and_swap(b, &mut bucket);
        proof {
            let oldorder = self.order@;
            self.order = Ghost(self.order@.push((cost, index)));
            assert forall|bb: int| 0 <= bb < self.ring() implies (#[trigger] self.buckets@[bb])@
                == self.order@.filter(in_class(self.ring(), bb)) by {
                lemma_filter_push(oldorder, in_class(self.ring(), bb), (cost, index));
            }
        }
    }

    fn take_minimum(&mut self) -> (r: Option<(u32, u32)>) {
        let ring = self.max_weight + 1;
        let ghost s = self.order@;
        let mut j: u32 = 0;
        while j < ring
            invariant
                self == old(self),
                s == self.order@,
                self.inv(),
                ring == self.ring(),
                0 <= j <= ring,
                forall|jj: int|
                    0 <= jj < j
                    ==> (#[trigger] self.buckets@[(self.cursor as int + jj) % (ring as int)])@.len() == 0,
            decreases ring - j,
        {
            let b = ((self.cursor as u64 + j as u64) % ring as u64) as usize;
            proof {
                assert(b as int == (self.cursor as int + j as int) % (ring as int));
                assert(0 <= b < self.ring()) by {
                    assert((self.cursor as int + j as int) % (ring as int) < ring as int);
                }
            }
            let blen = self.buckets[b].len();
            if blen > 0 {
                // The cheapest entries live here: pop the first-inserted one.
                let ghost ringsz = self.ring();
                let ghost pred = in_class(ringsz, b as int);
                let ghost m = self.cursor as int + j as int;
                let ghost lo = self.cursor as int;
                proof {
                    assert(self.buckets@[b as int]@ == s.filter(pred));
                }
                let mut bucket: Vec<(u32, u32)> = Vec::new();
                self.buckets.set_and_swap(b, &mut bucket);
                let p = bucket.remove(0);
                self.buckets.set_and_swap(b, &mut bucket);
                self.cursor = p.0;
                let ghost filt = s.filter(pred);
                proof {
                    s.filter_lemma(pred);
                    assert(filt.len() > 0);
                    assert(filt[0] == p);
                    assert(self.buckets@[b as int]@ =~= filt.drop_first());
                    // Some entry of s is in this class; find the first.
                    assert(exists|w: int| 0 <= w < s.len() && pred(#[trigger] s[w])) by {
                        if forall|w: int| 0 <= w < s.len() ==> !pred(#[trigger] s[w]) {
                            lemma_filter_all_false(s, pred);
                        }
                    }
                    let wit = choose|w: int| 0 <= w < s.len() && pred(#[trigger] s[w]);
                    lemma_first_match(s, pred, wit);
                    let k0 = first_match(s, pred);
                    lemma_filter_first(s, pred, k0);
                    assert(s[k0] == p);
                    // The popped entry costs exactly the scanned value.
                    assert(m % ringsz == b as int);
                    lemma_window_unique(p.0 as int, m, lo, ringsz);
                    assert(p.0 as int == m);
                    // No entry anywhere costs less: its bucket was seen empty.
                    assert forall|k: int| 0 <= k < s.len() implies (#[trigger] s[k]).0 as int >= m by {
                        let c = s[k].0 as int;
                        if c < m {
                            let jj = c - lo;
                            assert(0 <= jj < j as int);
                            let bb = (lo + jj) % (ringsz as int);
                            assert(self.buckets@[bb]@.len() == 0);
                            assert(in_class(ringsz, bb)(s[k]));
                            assert(s.filter(in_class(ringsz, bb)).contains(s[k]));
                            assert(false);
                        }
                    }
                    // The first entry of this class is the first minimum.
                    lemma_first_min_index(s);
                    let km = first_min_index(s);
                    assert(s[km].0 as int >= m);
                    assert(s[km].0 <= s[k0].0);
                    assert(s[km].0 as int == m);
                    if km < k0 {
                        assert(!pred(s[km]));
                        lemma_window_unique(s[km].0 as int, m, lo, ringsz);
                        assert(false);
                    }
                    if k0 < km {
                        assert(s[k0].0 > s[km].0);
                        assert(false);
                    }
                    assert(k0 == km);
                    // Re-establish the invariant over the remaining entries.
                    self.order = Ghost(s.remove(k0));
                    assert(self.buckets@[b as int]@ == self.order@.filter(pred));
                    assert forall|bb: int| 0 <= bb < ringsz implies (#[trigger] self.buckets@[bb])@
                        == self.order@.filter(in_class(ringsz, bb)) by {
                        if bb != b as int {
                            lemma_filter_remove_other(s, in_class(ringsz, bb), k0);
                        }
                    }
                    assert forall|k: int| 0 <= k < self.order@.len() implies
                        self.cursor as int <= (#[trigger] self.order@[k]).0 as int
                            <= self.cursor as int + self.max_weight as int by {
                        if k < k0 {
                            assert(self.order@[k] == s[k]);
                        } else {
                            assert(self.order@[k] == s[k + 1]);
                        }
                    }
                }
                return Some(p);
            }
            j = j + 1;
        }
        proof {
            // Every bucket is empty, so there are no entries at all.
            if s.len() > 0 {
                let e = s[0];
                let c = e.0 as int;
                let jj = c - self.cursor as int;
                assert(0 <= jj < ring as int);
                let bb = (self.cursor as int + jj) % (self.ring() as int);
                assert(self.buckets@[bb]@.len() == 0);
                assert(in_class(self.ring(), bb)(e));
                s.filter_lemma(in_class(self.ring(), bb));
                assert(s.filter(in_class(self.ring(), bb)).contains(e));
                assert(false);
            }
            assert(s =~= Seq::<(u32, u32)>::empty());
        }
        None
    }

    fn reset(&mut self) {
        let n = self.buckets.len();
        let mut k: usize = 0;
        while k < n
            invariant
                0 <= k <= n,
                self.buckets@.len() == n,
                self.max_weight == old(self).max_weight,
                forall|b: int| 0 <= b < k ==> (#[trigger] self.buckets@[b])@.len() == 0,
            decreases n - k,
        {
            let mut bucket: Vec<(u32, u32)> = Vec::new();
            self.buckets.set_and_swap(k, &mut bucket);
            bucket.clear();
            self.buckets.set_and_swap(k, &mut bucket);
            k = k + 1;
        }
        self.cursor = 0;
        proof {
            self.order = Ghost(Seq::empty());
            assert forall|b: int| 0 <= b < self.ring() implies (#[trigger] self.buckets@[b])@
                == self.order@.filter(in_class(self.ring(), b)) by {
                lemma_filter_all_false(self.order@, in_class(self.ring(), b));
                assert(self.buckets@[b]@ =~= Seq::<(u32, u32)>::empty());
            }
        }
    }
}

} // verus!
