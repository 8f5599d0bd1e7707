//! The segment sieve: one bounded, half-open range of integers, a mark per
//! integer, and trial divisors struck out one at a time.  It is created fresh
//! for each segment, populated by `strike_out`, read once by `read_holes`,
//! and then discarded.

use core::ops::Range;
use vstd::prelude::*;
use crate::primality::{
    lemma_between_multiples, lemma_first_multiple_offset, lemma_mod_plus_divisor,
};

verus! {

/// The integers of the still-marked positions of `marks`, in increasing
/// order, restricted to the first `n` positions; position `i` stands for the
/// integer `base + i`.
pub open spec fn holes_prefix(marks: Seq<bool>, base: int, n: int) -> Seq<int>
    decreases n,
{
    if n <= 0 {
        Seq::empty()
    } else {
        holes_prefix(marks, base, n - 1) + if marks[n - 1] {
            seq![base + n - 1]
        } else {
            Seq::empty()
        }
    }
}

/// The integers of all still-marked positions of `marks`, in increasing order.
pub open spec fn holes(marks: Seq<bool>, base: int) -> Seq<int> {
    holes_prefix(marks, base, marks.len() as int)
}

/// What `holes_prefix` yields: values within the range, strictly increasing,
/// and exactly the integers whose position is still marked.
pub proof fn lemma_holes_prefix_props(marks: Seq<bool>, base: int, n: int)
    requires
        0 <= n <= marks.len(),
    ensures
        forall|k: int|
            0 <= k < holes_prefix(marks, base, n).len() ==> base <= #[trigger] holes_prefix(
                marks,
                base,
                n,
            )[k] < base + n,
        forall|k1: int, k2: int|
            0 <= k1 < k2 < holes_prefix(marks, base, n).len() ==> holes_prefix(marks, base, n)[k1]
                < holes_prefix(marks, base, n)[k2],
        forall|x: int|
            #[trigger] holes_prefix(marks, base, n).contains(x) <==> exists|i: int|
                0 <= i < n && marks[i] && x == base + i,
    decreases n,
{
    if n > 0 {
        lemma_holes_prefix_props(marks, base, n - 1);
        let prev = holes_prefix(marks, base, n - 1);
        let cur = holes_prefix(marks, base, n);
        assert forall|x: int| #[trigger] cur.contains(x) implies exists|i: int|
            0 <= i < n && marks[i] && x == base + i by {
            let k = choose|k: int| 0 <= k < cur.len() && cur[k] == x;
            if k < prev.len() {
                assert(prev.contains(x)) by {
                    assert(prev[k] == x);
                }
            } else {
                assert(marks[n - 1] && x == base + n - 1);
            }
        }
        assert forall|x: int|
            (exists|i: int| 0 <= i < n && marks[i] && x == base + i) implies #[trigger] cur.contains(
            x,
        ) by {
            let i = choose|i: int| 0 <= i < n && marks[i] && x == base + i;
            if i < n - 1 {
                assert(prev.contains(x));
                let k = choose|k: int| 0 <= k < prev.len() && prev[k] == x;
                assert(cur[k] == x);
            } else {
                assert(cur[prev.len() as int] == base + n - 1);
            }
        }
    }
}

/// One segment under examination: position `i` of `is_prime` stands for the
/// integer `base + i`, and is true while that integer has not been struck
/// out by any divisor handed to `strike_out`.
pub struct Sieve {
    base: usize,
    is_prime: Vec<bool>,
}

impl Sieve {
    /// The first integer of the half-open range under examination.
    pub closed spec fn start(self) -> int {
        self.base as int
    }

    /// The marks, one per integer of the range.
    pub closed spec fn marks(self) -> Seq<bool> {
        self.is_prime@
    }

    /// A sieve over the half-open range `[range.start, range.end)`, every
    /// position still marked as possibly prime.
    pub fn new(range: Range<usize>) -> (s: Sieve)
        requires
            range.start <= range.end,
        ensures
            s.start() == range.start as int,
            s.marks().len() == range.end - range.start,
            forall|i: int| 0 <= i < s.marks().len() ==> s.marks()[i],
    {
        let n = range.end - range.start;
        let mut m: Vec<bool> = Vec::new();
        let mut i: usize = 0;
        while i < n
            invariant
                i <= n,
                m@.len() == i,
                forall|j: int| 0 <= j < i ==> m@[j],
            decreases n - i,
        {
            m.push(true);
            i += 1;
        }
        Sieve { base: range.start, is_prime: m }
    }

    /// Strike every multiple of `divisor` in the range: afterwards a position
    /// is marked exactly when it was marked before and its integer is not a
    /// multiple of `divisor`.
    pub fn strike_out(&mut self, divisor: usize)
        requires
            divisor >= 1,
        ensures
            final(self).start() == old(self).start(),
            final(self).marks().len() == old(self).marks().len(),
            forall|i: int|
                0 <= i < old(self).marks().len() ==> final(self).marks()[i] == (old(self).marks()[i]
                    && (old(self).start() + i) % (divisor as int) != 0),
    {
        let ghost base = self.base as int;
        let ghost p = divisor as int;
        let ghost orig = self.is_prime@;
        let mut offset: usize = (divisor - self.base % divisor) % divisor;
        proof {
            lemma_first_multiple_offset(base, p);
        }
        while offset < self.is_prime.len()
            invariant
                self.base as int == base,
                divisor as int == p,
                p >= 1,
                self.is_prime@.len() == orig.len(),
                offset < orig.len() ==> (base + offset) % p == 0,
                forall|i: int| #![trigger self.is_prime@[i]] #![trigger orig[i]]
                    0 <= i < orig.len() ==> self.is_prime@[i] == (orig[i] && !((base + i) % p == 0
                        && i < offset)),
            decreases orig.len() - offset,
        {
            let ghost prev = self.is_prime@;
            self.is_prime[offset] = false;
            proof {
                assert(self.is_prime@ == prev.update(offset as int, false));
            }
            let len = self.is_prime.len();
            if divisor <= len - offset {
                proof {
                    assert forall|i: int| offset < i < offset + p implies #[trigger] ((base + i)
                        % p) != 0 by {
                        lemma_between_multiples(base + offset, i - offset, p);
                    }
                    if offset + p < orig.len() {
                        lemma_mod_plus_divisor(base + offset, p);
                    }
                    assert forall|i: int| #![trigger self.is_prime@[i]] #![trigger orig[i]]
                        0 <= i < orig.len() implies self.is_prime@[i] == (orig[i]
                        && !((base + i) % p == 0 && i < offset + p)) by {
                        if i < offset {
                            assert(self.is_prime@[i] == prev[i]);
                        } else if i == offset {
                            assert((base + i) % p == 0);
                        } else if i < offset + p {
                            assert((base + i) % p != 0);
                            assert(self.is_prime@[i] == prev[i]);
                        } else {
                            assert(self.is_prime@[i] == prev[i]);
                        }
                    }
                }
                offset = offset + divisor;
            } else {
                proof {
                    assert forall|i: int| offset < i < orig.len() implies #[trigger] ((base + i)
                        % p) != 0 by {
                        lemma_between_multiples(base + offset, i - offset, p);
                    }
                    assert forall|i: int| #![trigger self.is_prime@[i]] #![trigger orig[i]]
                        0 <= i < orig.len() implies self.is_prime@[i] == (orig[i]
                        && !((base + i) % p == 0 && i < orig.len())) by {
                        if i < offset {
                            assert(self.is_prime@[i] == prev[i]);
                        } else if i == offset {
                            assert((base + i) % p == 0);
                        } else {
                            assert((base + i) % p != 0);
                            assert(self.is_prime@[i] == prev[i]);
                        }
                    }
                }
                offset = len;
            }
        }
    }

    /// Append to `out`, in increasing order, the integer of every position
    /// still marked as possibly prime.
    pub fn read_holes(&self, out: &mut Vec<usize>)
        requires
            self.start() + self.marks().len() <= usize::MAX as int + 1,
        ensures
            final(out)@.len() == old(out)@.len() + holes(self.marks(), self.start()).len(),
            forall|k: int| 0 <= k < old(out)@.len() ==> final(out)@[k] == old(out)@[k],
            forall|k: int|
                0 <= k < holes(self.marks(), self.start()).len() ==> final(out)@[old(out)@.len()
                    + k] == holes(self.marks(), self.start())[k],
    {
        let ghost base = self.base as int;
        let mut i: usize = 0;
        while i < self.is_prime.len()
            invariant
                i <= self.is_prime@.len(),
                base == self.base as int,
                self.base + self.is_prime@.len() <= usize::MAX as int + 1,
                out@.len() == old(out)@.len() + holes_prefix(self.is_prime@, base, i as int).len(),
                forall|k: int| 0 <= k < old(out)@.len() ==> #[trigger] out@[k] == old(out)@[k],
                forall|k: int|
                    0 <= k < holes_prefix(self.is_prime@, base, i as int).len()
                        ==> #[trigger] out@[old(out)@.len() + k] == holes_prefix(
                        self.is_prime@,
                        base,
                        i as int,
                    )[k],
            decreases self.is_prime@.len() - i,
        {
            let ghost hp = holes_prefix(self.is_prime@, base, i as int);
            let ghost hp1 = holes_prefix(self.is_prime@, base, i + 1);
            if self.is_prime[i] {
                let v = self.base + i;
                out.push(v);
                proof {
                    assert(hp1 == hp + seq![base + i]);
                    assert(hp1.len() == hp.len() + 1);
                    assert forall|k: int| 0 <= k < hp1.len() implies #[trigger] out@[old(
                        out,
                    )@.len() + k] == hp1[k] by {
                        if k < hp.len() {
                            assert(hp1[k] == hp[k]);
                        } else {
                            assert(hp1[k] == base + i);
                        }
                    }
                }
            } else {
                proof {
                    assert(hp1 == hp + Seq::<int>::empty());
                    assert(hp1.len() == hp.len());
                    assert forall|k: int| 0 <= k < hp1.len() implies #[trigger] out@[old(
                        out,
                    )@.len() + k] == hp1[k] by {
                        assert(hp1[k] == hp[k]);
                    }
                }
            }
            i += 1;
        }
    }
}

} // verus!
