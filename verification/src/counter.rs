//! A bounded-alphabet letter multiset, analogous to a counting map from
//! letters (bytes) to non-negative counts.
//!
//! A count fits in a single byte: words are short, and every verified caller
//! establishes the bound before inserting.

use vstd::prelude::*;

use crate::cnt;
use crate::cnt_prefix;
use crate::error::SolverError;
use crate::lemma_cnt_prefix_bounds;

verus! {

/// A multiset over the 256 possible letter values, as a dense table of
/// counts. A letter that was never inserted has count 0.
pub struct Counter {
    counts: Vec<u8>,
}

impl Counter {
    /// The table always covers the whole alphabet.
    pub closed spec fn wf(self) -> bool {
        self.counts@.len() == 256
    }

    /// The count recorded for letter `l`.
    pub closed spec fn cnt_of(self, l: u8) -> int {
        self.counts@[l as int] as int
    }

    /// An empty multiset: every letter has count 0.
    pub fn new() -> (r: Counter)
        ensures
            r.wf(),
            forall|l: u8| r.cnt_of(l) == 0,
    {
        Counter { counts: vec![0u8; 256] }
    }

    /// The multiset of the letters of `w`: each letter's count is its number
    /// of occurrences in `w`.
    pub fn from_word(w: &Vec<u8>) -> (r: Counter)
        requires
            w@.len() <= 255,
        ensures
            r.wf(),
            forall|l: u8| r.cnt_of(l) == cnt(w@, l),
    {
        let mut r = Counter::new();
        let n = w.len();
        for i in 0..n
            invariant
                n == w@.len() <= 255,
                r.wf(),
                forall|l: u8| r.cnt_of(l) == cnt_prefix(w@, l, i as int),
        {
            proof {
                lemma_cnt_prefix_bounds(w@, w@[i as int], i as int);
            }
            r.insert(w[i]);
        }
        r
    }

    /// Increment the count of `k` by one.
    pub fn insert(&mut self, k: u8)
        requires
            old(self).wf(),
            old(self).cnt_of(k) < 255,
        ensures
            final(self).wf(),
            final(self).cnt_of(k) == old(self).cnt_of(k) + 1,
            forall|l: u8| l != k ==> final(self).cnt_of(l) == old(self).cnt_of(l),
    {
        let idx = k as usize;
        let v = self.counts[idx];
        self.counts[idx] = v + 1;
    }

    /// Whether `key` has a positive count.
    pub fn contains_key(&self, key: u8) -> (r: bool)
        requires
            self.wf(),
        ensures
            r == (self.cnt_of(key) > 0),
    {
        self.counts[key as usize] > 0
    }

    /// The count of `key`; 0 for a letter never inserted.
    pub fn get(&self, key: u8) -> (r: u8)
        requires
            self.wf(),
        ensures
            r as int == self.cnt_of(key),
    {
        self.counts[key as usize]
    }

    /// Whether every letter has count 0.
    pub fn is_empty(&self) -> (r: bool)
        requires
            self.wf(),
        ensures
            r == forall|l: u8| self.cnt_of(l) == 0,
    {
        for i in 0..256usize
            invariant
                self.wf(),
                forall|l: u8| l < i ==> self.cnt_of(l) == 0,
        {
            if self.counts[i] > 0 {
                proof {
                    assert(self.cnt_of(i as u8) > 0);
                }
                return false;
            }
        }
        true
    }

    /// Decrement the count of `k` by one; an `Underflow` error if the count
    /// is already 0 (a caller invariant violation, never reached from the
    /// verified algorithms).
    pub fn pop_one(&mut self, k: u8) -> (r: Result<(), SolverError>)
        requires
            old(self).wf(),
        ensures
            final(self).wf(),
            old(self).cnt_of(k) > 0 ==> {
                &&& r is Ok
                &&& final(self).cnt_of(k) == old(self).cnt_of(k) - 1
                &&& forall|l: u8| l != k ==> final(self).cnt_of(l) == old(self).cnt_of(l)
            },
            old(self).cnt_of(k) == 0 ==> {
                &&& r == Err::<(), SolverError>(SolverError::Underflow)
                &&& forall|l: u8| final(self).cnt_of(l) == old(self).cnt_of(l)
            },
    {
        let idx = k as usize;
        let v = self.counts[idx];
        if v == 0 {
            return Err(SolverError::Underflow);
        }
        self.counts[idx] = v - 1;
        Ok(())
    }

    /// The multiset intersection: each letter's count is the minimum of the
    /// two counts.
    pub fn intersect(&self, other: &Counter) -> (r: Counter)
        requires
            self.wf(),
            other.wf(),
        ensures
            r.wf(),
            forall|l: u8| r.cnt_of(l) == if self.cnt_of(l) <= other.cnt_of(l) {
                self.cnt_of(l)
            } else {
                other.cnt_of(l)
            },
    {
        let mut counts: Vec<u8> = Vec::new();
        for i in 0..256usize
            invariant
                self.wf(),
                other.wf(),
                counts@.len() == i,
                forall|l: u8| l < i ==> counts@[l as int] as int == if self.cnt_of(l)
                    <= other.cnt_of(l) {
                    self.cnt_of(l)
                } else {
                    other.cnt_of(l)
                },
        {
            let a = self.counts[i];
            let b = other.counts[i];
            counts.push(if a <= b {
                a
            } else {
                b
            });
        }
        Counter { counts }
    }

    /// The saturating multiset difference: each letter's count is
    /// `self[l] - other[l]` when that is positive, and 0 otherwise.
    pub fn subtract(&self, other: &Counter) -> (r: Counter)
        requires
            self.wf(),
            other.wf(),
        ensures
            r.wf(),
            forall|l: u8| r.cnt_of(l) == if self.cnt_of(l) >= other.cnt_of(l) {
                self.cnt_of(l) - other.cnt_of(l)
            } else {
                0
            },
    {
        let mut counts: Vec<u8> = Vec::new();
        for i in 0..256usize
            invariant
                self.wf(),
                other.wf(),
                counts@.len() == i,
                forall|l: u8| l < i ==> counts@[l as int] as int == if self.cnt_of(l)
                    >= other.cnt_of(l) {
                    self.cnt_of(l) - other.cnt_of(l)
                } else {
                    0
                },
        {
            let a = self.counts[i];
            let b = other.counts[i];
            counts.push(if a >= b {
                a - b
            } else {
                0
            });
        }
        Counter { counts }
    }

    /// The letters with a positive count, each paired with its count, in
    /// ascending letter order.
    pub fn iter(&self) -> (r: Vec<(u8, u8)>)
        requires
            self.wf(),
        ensures
            forall|j: int| 0 <= j < r@.len() ==> #[trigger] r@[j].1 as int == self.cnt_of(r@[j].0)
                && r@[j].1 > 0,
            forall|j: int, j2: int| 0 <= j < j2 < r@.len() ==> r@[j].0 < r@[j2].0,
            forall|l: u8| self.cnt_of(l) > 0 ==> exists|j: int|
                0 <= j < r@.len() && #[trigger] r@[j].0 == l,
    {
        let mut r: Vec<(u8, u8)> = Vec::new();
        for i in 0..256usize
            invariant
                self.wf(),
                forall|j: int| 0 <= j < r@.len() ==> #[trigger] r@[j].1 as int == self.cnt_of(
                    r@[j].0,
                ) && r@[j].1 > 0 && (r@[j].0 as int) < i as int,
                forall|j: int, j2: int| 0 <= j < j2 < r@.len() ==> r@[j].0 < r@[j2].0,
                forall|l: u8| (l as int) < i as int && self.cnt_of(l) > 0 ==> exists|j: int|
                    0 <= j < r@.len() && #[trigger] r@[j].0 == l,
        {
            let c = self.counts[i];
            let ghost prev = r@;
            if c > 0 {
                r.push((i as u8, c));
            }
            proof {
                assert forall|j: int, j2: int| 0 <= j < j2 < r@.len() implies r@[j].0 < r@[j2].0 by {
                    if j2 == prev.len() {
                        assert(prev[j].1 as int == self.cnt_of(prev[j].0));
                        assert((prev[j].0 as int) < i as int);
                        assert(r@[j2].0 == i as u8);
                    } else {
                        assert(prev[j].0 < prev[j2].0);
                    }
                }
                assert forall|l: u8| (l as int) < i as int + 1 && self.cnt_of(l) > 0 implies exists|
                    j: int,
                |
                    0 <= j < r@.len() && #[trigger] r@[j].0 == l by {
                    if (l as int) < i as int {
                        assert(exists|j: int| 0 <= j < prev.len() && #[trigger] prev[j].0 == l);
                        let j = choose|j: int| 0 <= j < prev.len() && #[trigger] prev[j].0 == l;
                        assert(r@[j].0 == l);
                    } else {
                        assert(self.cnt_of(i as u8) > 0);
                        assert(r@[r@.len() - 1].0 == l);
                    }
                }
            }
        }
        r
    }

    /// The letters with a positive count, in ascending order.
    pub fn keys(&self) -> (r: Vec<u8>)
        requires
            self.wf(),
        ensures
            forall|j: int| 0 <= j < r@.len() ==> self.cnt_of(#[trigger] r@[j]) > 0,
            forall|j: int, j2: int| 0 <= j < j2 < r@.len() ==> r@[j] < r@[j2],
            forall|l: u8| self.cnt_of(l) > 0 ==> r@.contains(l),
    {
        let mut r: Vec<u8> = Vec::new();
        for i in 0..256usize
            invariant
                self.wf(),
                forall|j: int| 0 <= j < r@.len() ==> self.cnt_of(#[trigger] r@[j]) > 0 && (
                r@[j] as int) < i as int,
                forall|j: int, j2: int| 0 <= j < j2 < r@.len() ==> r@[j] < r@[j2],
                forall|l: u8| (l as int) < i as int && self.cnt_of(l) > 0 ==> r@.contains(l),
        {
            let c = self.counts[i];
            let ghost prev = r@;
            if c > 0 {
                r.push(i as u8);
            }
            proof {
                assert forall|l: u8| (l as int) < i as int + 1 && self.cnt_of(l) > 0 implies
                    r@.contains(l) by {
                    if (l as int) < i as int {
                        assert(prev.contains(l));
                        let j = choose|j: int| 0 <= j < prev.len() && prev[j] == l;
                        assert(r@[j] == l);
                        assert(r@.contains(l));
                    } else {
                        assert(self.cnt_of(i as u8) > 0);
                        assert(r@[r@.len() - 1] == l);
                        assert(r@.contains(l));
                    }
                }
            }
        }
        r
    }

    /// The sum of all counts, as the total number of letters held.
    pub fn total(&self) -> (r: usize)
        requires
            self.wf(),
        ensures
            r as int == self.total_spec(),
    {
        let mut sum: usize = 0;
        for i in 0..256usize
            invariant
                self.wf(),
                sum as int == self.total_prefix(i as int),
                sum <= 255 * i,
        {
            proof {
                self.lemma_total_prefix_bound(i as int + 1);
            }
            sum = sum + self.counts[i] as usize;
        }
        sum
    }

    /// The sum of the counts of the letters below `n`.
    pub closed spec fn total_prefix(self, n: int) -> int
        decreases n,
    {
        if n <= 0 {
            0
        } else {
            self.total_prefix(n - 1) + self.counts@[n - 1] as int
        }
    }

    /// The sum of all counts.
    pub open spec fn total_spec(self) -> int {
        self.total_prefix(256)
    }

    proof fn lemma_total_prefix_bound(self, n: int)
        requires
            self.wf(),
            0 <= n <= 256,
        ensures
            0 <= self.total_prefix(n) <= 255 * n,
        decreases n,
    {
        if n > 0 {
            self.lemma_total_prefix_bound(n - 1);
        }
    }
}

/// The no-surplus law of the multiset difference: for counters `a`, `b` and
/// `c` where `c` is the saturating difference `a - b` (as `subtract`
/// computes it), `c` is empty exactly when every letter's count in `a` is at
/// most its count in `b`.
pub proof fn lemma_subtract_empty_iff_le(a: Counter, b: Counter, c: Counter)
    requires
        forall|l: u8| c.cnt_of(l) == if a.cnt_of(l) >= b.cnt_of(l) {
            a.cnt_of(l) - b.cnt_of(l)
        } else {
            0
        },
    ensures
        (forall|l: u8| c.cnt_of(l) == 0) <==> (forall|l: u8| a.cnt_of(l) <= b.cnt_of(l)),
{
    if forall|l: u8| c.cnt_of(l) == 0 {
        assert forall|l: u8| a.cnt_of(l) <= b.cnt_of(l) by {
            assert(c.cnt_of(l) == 0);
        }
    }
    if forall|l: u8| a.cnt_of(l) <= b.cnt_of(l) {
        assert forall|l: u8| c.cnt_of(l) == 0 by {
            assert(a.cnt_of(l) <= b.cnt_of(l));
        }
    }
}

} // verus!
