//! The incremental prime sequence: an append-only list of confirmed primes,
//! a high-water mark up to which every integer is classified, and a lazy
//! cursor that pulls one prime at a time.  Pulling past the end of the list
//! sieves exactly one new segment, bounded by a fixed chunk size and by the
//! square of the largest known prime, so that the known primes are always a
//! sufficient divisor set.

use vstd::prelude::*;
use crate::primality::{
    complete_prime_seq, coprime_to_first, is_nth_prime, is_prime,
    lemma_complete_seq_nth, lemma_composite_has_small_prime_factor, lemma_small_primes,
    seq_contains_int,
};
use crate::sieve::{holes, lemma_holes_prefix_props, Sieve};

verus! {

/// The growing prime sequence: every integer in `[2, high()]` is classified,
/// and `list()` holds exactly the primes among them, in increasing order.
pub struct Primes {
    prime_list: Vec<usize>,
    highest_checked: usize,
    sieve_chunk: usize,
}

/// A lazy cursor over one `Primes` instance: a position into its list,
/// advanced by one on each pull.  Independent cursors over the same instance
/// each hold their own position.
pub struct PrimesIterator {
    place: usize,
}

impl Primes {
    /// The confirmed primes found so far, in the order they were confirmed.
    pub closed spec fn list(self) -> Seq<usize> {
        self.prime_list@
    }

    /// The high-water mark: the largest integer already classified.
    pub closed spec fn high(self) -> int {
        self.highest_checked as int
    }

    /// How many integers at most one extension step examines.
    pub closed spec fn chunk(self) -> int {
        self.sieve_chunk as int
    }

    /// The largest confirmed prime.
    pub open spec fn last_prime(self) -> int {
        self.list().last() as int
    }

    /// The invariant: the list is exactly the primes in `[2, high()]` in
    /// increasing order, and the largest one's square exceeds `high() + 1`,
    /// so the known primes suffice as divisors for the next segment.
    pub open spec fn wf(self) -> bool {
        &&& self.list().len() >= 1
        &&& self.high() >= 7
        &&& self.chunk() >= 2
        &&& complete_prime_seq(self.list(), self.high())
        &&& self.last_prime() * self.last_prime() >= self.high() + 2
    }

    /// Where the next extension step stops: one chunk past the high-water
    /// mark, or the square of the largest known prime, whichever is first.
    pub open spec fn next_segment_end(self) -> int {
        vstd::math::min(self.high() + self.chunk(), self.last_prime() * self.last_prime())
    }

    /// The square of the largest known prime is representable; past that
    /// point the numeric domain is exhausted and extension stops.
    pub open spec fn square_fits(self) -> bool {
        self.last_prime() * self.last_prime() <= usize::MAX as int
    }

    /// The next segment contains at least one prime, so an extension step
    /// makes the list longer.
    pub open spec fn segment_has_prime(self) -> bool {
        exists|n: int| self.high() < n < self.next_segment_end() && is_prime(n)
    }

    /// A fresh sequence, seeded with the primes up to 7.
    pub fn new() -> (p: Primes)
        ensures
            p.wf(),
            p.list() == seq![2usize, 3usize, 5usize, 7usize],
            p.high() == 7,
            p.chunk() == 1024,
    {
        let mut found: Vec<usize> = Vec::new();
        found.push(2);
        found.push(3);
        found.push(5);
        found.push(7);
        let p = Primes { prime_list: found, highest_checked: 7, sieve_chunk: 1024 };
        proof {
            assert(p.list() =~= seq![2usize, 3usize, 5usize, 7usize]);
            lemma_small_primes();
            assert forall|i: int| 0 <= i < p.list().len() implies 2 <= #[trigger] p.list()[i]
                && p.list()[i] <= 7 && is_prime(p.list()[i] as int) by {
                if i == 0 {
                    assert(p.list()[0] == 2);
                } else if i == 1 {
                    assert(p.list()[1] == 3);
                } else if i == 2 {
                    assert(p.list()[2] == 5);
                } else {
                    assert(p.list()[3] == 7);
                }
            }
            assert(p.list()[0] < p.list()[1] < p.list()[2] < p.list()[3]);
            assert forall|i: int, j: int| 0 <= i < j < p.list().len() implies p.list()[i]
                < p.list()[j] by {
                assert(p.list()[0] == 2 && p.list()[1] == 3 && p.list()[2] == 5 && p.list()[3]
                    == 7);
            }
            assert(p.last_prime() == 7);
            assert forall|q: int| 2 <= q <= 7 && is_prime(q) implies #[trigger] seq_contains_int(
                p.list(),
                q,
            ) by {
                if q == 2 {
                    assert(p.list()[0] == 2);
                } else if q == 3 {
                    assert(p.list()[1] == 3);
                } else if q == 5 {
                    assert(p.list()[2] == 5);
                } else if q == 7 {
                    assert(p.list()[3] == 7);
                } else if q == 4 {
                    assert(4int % 2int == 0);
                } else {
                    assert(q == 6);
                    assert(6int % 2int == 0);
                }
            }
        }
        p
    }

    /// One extension step.  Sieve the segment `[high()+1, next_segment_end())`
    /// with every known prime as trial divisor and append the holes, each now
    /// proven prime, to the list.  The segment stops before the square of the
    /// largest known prime, so any composite in it has a known prime factor:
    /// the divisor set is sufficient and every hole is truly prime.  The
    /// high-water mark advances unless that would break the invariant, which
    /// happens only if the segment ends exactly at that square and contains
    /// no prime at all; the step is then a no-op.  If the square itself
    /// exceeds the numeric domain, the step is a no-op as well: the domain
    /// is exhausted.
    fn extend(&mut self)
        requires
            old(self).wf(),
        ensures
            final(self).wf(),
            final(self).chunk() == old(self).chunk(),
            final(self).list().len() >= old(self).list().len(),
            forall|i: int|
                0 <= i < old(self).list().len() ==> final(self).list()[i] == old(self).list()[i],
            final(self).high() >= old(self).high(),
            !old(self).square_fits() ==> final(self).list() == old(self).list()
                && final(self).high() == old(self).high(),
            old(self).square_fits() && old(self).segment_has_prime()
                ==> final(self).high() == old(self).next_segment_end() - 1
                && final(self).list().len() > old(self).list().len(),
            old(self).square_fits() && !old(self).segment_has_prime()
                ==> final(self).list() == old(self).list()
                && final(self).high() == (if old(self).next_segment_end()
                    < old(self).last_prime() * old(self).last_prime() {
                    old(self).next_segment_end() - 1
                } else {
                    old(self).high()
                }),
    {
        let len = self.prime_list.len();
        let l = self.prime_list[len - 1];
        proof {
            assert(l as int == old(self).last_prime());
            assert(2 <= l);
        }
        let lsq = match l.checked_mul(l) {
            Some(v) => v,
            None => {
                return;
            },
        };
        // high + 2 <= l * l <= usize::MAX, so neither high + 1 nor end - 1 wraps
        let base = self.highest_checked + 1;
        let end = match self.highest_checked.checked_add(self.sieve_chunk) {
            Some(c) => if c < lsq {
                c
            } else {
                lsq
            },
            None => lsq,
        };
        let ghost lst = self.prime_list@;
        let ghost basei = base as int;
        let ghost endi = end as int;
        let ghost old_high = self.highest_checked as int;
        proof {
            assert(endi == old(self).next_segment_end());
            assert(basei <= endi);
        }
        let mut sieve = Sieve::new(base..end);
        let mut j: usize = 0;
        while j < len
            invariant
                j <= len,
                len == lst.len(),
                self.prime_list@ == lst,
                complete_prime_seq(lst, old_high),
                sieve.start() == basei,
                sieve.marks().len() == endi - basei,
                forall|i: int|
                    0 <= i < sieve.marks().len() ==> (#[trigger] sieve.marks()[i]
                        <==> coprime_to_first(lst, j as int, basei + i)),
            decreases len - j,
        {
            let d = self.prime_list[j];
            proof {
                assert(2 <= lst[j as int]);
            }
            let ghost before = sieve.marks();
            sieve.strike_out(d);
            proof {
                assert forall|i: int|
                    0 <= i < sieve.marks().len() implies (#[trigger] sieve.marks()[i]
                    <==> coprime_to_first(lst, j + 1, basei + i)) by {
                    let x = basei + i;
                    assert(sieve.marks()[i] == (before[i] && x % (d as int) != 0));
                    if sieve.marks()[i] {
                        assert(coprime_to_first(lst, j as int, x));
                        assert forall|k: int| 0 <= k < j + 1 implies x % (#[trigger] lst[k] as int)
                            != 0 by {
                            if k == j {
                                assert(lst[k] == d);
                            }
                        }
                    }
                    if coprime_to_first(lst, j + 1, x) {
                        assert(x % (lst[j as int] as int) != 0);
                        assert forall|k: int| 0 <= k < j implies x % (#[trigger] lst[k] as int)
                            != 0 by {}
                        assert(before[i]);
                    }
                }
            }
            j += 1;
        }
        proof {
            assert forall|i: int| 0 <= i < sieve.marks().len() implies (#[trigger] sieve.marks()[i]
                <==> is_prime(basei + i)) by {
                let n = basei + i;
                assert(n >= 8);
                if is_prime(n) {
                    assert forall|k: int| 0 <= k < len implies n % (#[trigger] lst[k] as int)
                        != 0 by {
                        assert(2 <= lst[k] && lst[k] <= old_high);
                        assert(lst[k] < n);
                    }
                    assert(coprime_to_first(lst, len as int, n));
                }
                if sieve.marks()[i] && !is_prime(n) {
                    let pf = lemma_composite_has_small_prime_factor(n);
                    assert(pf < l as int) by (nonlinear_arith)
                        requires
                            pf * pf <= n,
                            n < (l as int) * (l as int),
                            pf >= 0,
                            l as int >= 0,
                    ;
                    assert(lst[len - 1] <= old_high);
                    assert(seq_contains_int(lst, pf));
                    let k = choose|k: int| 0 <= k < lst.len() && lst[k] == pf;
                    assert(coprime_to_first(lst, len as int, n));
                    assert(n % (lst[k] as int) != 0);
                    assert(false);
                }
            }
        }
        let ghost marks = sieve.marks();
        let ghost hp = holes(marks, basei);
        proof {
            lemma_holes_prefix_props(marks, basei, marks.len() as int);
        }
        sieve.read_holes(&mut self.prime_list);
        let new_len = self.prime_list.len();
        if new_len > len || end < lsq {
            self.highest_checked = end - 1;
        }
        proof {
            let s = self.prime_list@;
            assert(s.len() == lst.len() + hp.len());
            // whether the segment held a prime is exactly whether holes came back
            assert(hp.len() > 0 <==> old(self).segment_has_prime()) by {
                if hp.len() > 0 {
                    assert(hp.contains(hp[0]));
                    let i2 = choose|i2: int| 0 <= i2 < marks.len() && marks[i2] && hp[0] == basei
                        + i2;
                    assert(is_prime(basei + i2));
                }
                if old(self).segment_has_prime() {
                    let n = choose|n: int| old_high < n < endi && is_prime(n);
                    assert(marks[n - basei]);
                    assert(hp.contains(n));
                    let k = choose|k: int| 0 <= k < hp.len() && hp[k] == n;
                }
            }
            if new_len > len || endi < lsq as int {
                // the high-water mark advanced to end - 1: re-establish wf
                let high2 = endi - 1;
                assert(self.highest_checked as int == high2);
                assert forall|i: int| 0 <= i < s.len() implies 2 <= #[trigger] s[i] && s[i] <= high2
                    && is_prime(s[i] as int) by {
                    if i < len {
                        assert(s[i] == lst[i]);
                        assert(lst[i] <= old_high);
                    } else {
                        let k = i - len;
                        assert(s[i] == hp[k]);
                        assert(basei <= hp[k] < basei + marks.len());
                        assert(hp.contains(hp[k]));
                        let i2 = choose|i2: int| 0 <= i2 < marks.len() && marks[i2] && hp[k]
                            == basei + i2;
                        assert(is_prime(basei + i2));
                    }
                }
                assert forall|i: int, j2: int| 0 <= i < j2 < s.len() implies s[i] < s[j2] by {
                    if j2 < len {
                        assert(s[i] == lst[i] && s[j2] == lst[j2]);
                    } else if i >= len {
                        assert(s[i] == hp[i - len] && s[j2] == hp[j2 - len]);
                    } else {
                        assert(s[i] == lst[i]);
                        assert(lst[i] <= old_high);
                        assert(s[j2] == hp[j2 - len]);
                        assert(basei <= hp[j2 - len]);
                    }
                }
                assert forall|q: int| 2 <= q <= high2 && is_prime(q) implies
                    #[trigger] seq_contains_int(s, q) by {
                    if q <= old_high {
                        assert(seq_contains_int(lst, q));
                        let k = choose|k: int| 0 <= k < lst.len() && lst[k] == q;
                        assert(s[k] == q);
                    } else {
                        let i = q - basei;
                        assert(0 <= i < marks.len());
                        assert(marks[i]);
                        assert(hp.contains(q));
                        let k = choose|k: int| 0 <= k < hp.len() && hp[k] == q;
                        assert(s[len + k] == q);
                    }
                }
                if new_len > len {
                    let newlast = s[s.len() - 1] as int;
                    assert(newlast == hp[hp.len() - 1]);
                    assert(newlast >= basei);
                    assert(newlast * newlast >= endi + 1) by (nonlinear_arith)
                        requires
                            newlast >= (l as int) + 1,
                            l as int >= 2,
                            endi <= (l as int) * (l as int),
                    ;
                } else {
                    assert(s =~= lst);
                    assert(s[s.len() - 1] == l);
                    assert(lsq as int >= endi + 1);
                }
            } else {
                // no hole and the segment reached the square: leave the state as it was
                assert(s =~= lst);
                assert(self.highest_checked as int == old_high);
            }
        }
    }

    /// The high-water mark: every integer up to it is already classified.
    pub fn highest_checked(&self) -> (h: usize)
        ensures
            h as int == self.high(),
    {
        self.highest_checked
    }

    /// A fresh cursor over this sequence, starting at the first prime.
    pub fn iter(&self) -> (it: PrimesIterator)
        ensures
            it.position() == 0,
    {
        PrimesIterator { place: 0 }
    }
}

/// The confirmed list is the prime sequence itself: in any well-formed
/// instance, the element at index `i` is the prime with exactly `i` smaller
/// primes — so the list is strictly increasing, and any two cursors see the
/// same value at the same logical position.
pub proof fn lemma_list_gives_nth_primes(p: Primes)
    requires
        p.wf(),
    ensures
        forall|i: int|
            0 <= i < p.list().len() ==> is_nth_prime(i, #[trigger] p.list()[i] as int),
{
    lemma_complete_seq_nth(p.list(), p.high());
}

/// Pulling the same logical position always yields the same value: any two
/// well-formed instances — in particular the same instance before and after
/// further extension, as seen by independent cursors — agree on every
/// position both have reached.
pub proof fn lemma_positions_agree(p1: Primes, p2: Primes)
    requires
        p1.wf(),
        p2.wf(),
    ensures
        forall|i: int|
            0 <= i < p1.list().len() && i < p2.list().len() ==> p1.list()[i] == #[trigger] p2.list()[i],
{
    lemma_complete_seq_nth(p1.list(), p1.high());
    lemma_complete_seq_nth(p2.list(), p2.high());
    assert forall|i: int|
        0 <= i < p1.list().len() && i < p2.list().len() implies p1.list()[i]
        == #[trigger] p2.list()[i] by {
        crate::primality::lemma_nth_prime_unique(i, p1.list()[i] as int, p2.list()[i] as int);
    }
}

impl PrimesIterator {
    /// How many primes this cursor has already pulled.
    pub closed spec fn position(self) -> int {
        self.place as int
    }

    /// The lazy pull.  If the cursor is within the list, return the prime at
    /// its position and advance; otherwise run exactly one extension step
    /// first.  The value returned at position `i` is the `(i+1)`-th prime.
    /// `None` comes back only when the one extension step could not confirm
    /// a new prime: the segment ended at the square of the largest known
    /// prime with no prime in it, or that square exceeds the numeric domain.
    pub fn next(&mut self, primes: &mut Primes) -> (r: Option<usize>)
        requires
            old(primes).wf(),
            old(self).position() <= old(primes).list().len(),
        ensures
            final(primes).wf(),
            final(primes).chunk() == old(primes).chunk(),
            final(primes).list().len() >= old(primes).list().len(),
            forall|i: int|
                0 <= i < old(primes).list().len() ==> final(primes).list()[i] == old(
                    primes,
                ).list()[i],
            final(self).position() <= final(primes).list().len(),
            (r is Some) <==> (old(self).position() < old(primes).list().len() || (old(
                primes,
            ).square_fits() && old(primes).segment_has_prime())),
            r matches Some(v) ==> final(self).position() == old(self).position() + 1 && old(
                self,
            ).position() < final(primes).list().len() && v == final(primes).list()[old(
                self,
            ).position()] && is_nth_prime(old(self).position(), v as int),
            r is None ==> final(self).position() == old(self).position() && final(primes).list()
                == old(primes).list() && final(primes).high() == (if old(primes).square_fits()
                && old(primes).next_segment_end() < old(primes).last_prime() * old(
                primes,
            ).last_prime() {
                old(primes).next_segment_end() - 1
            } else {
                old(primes).high()
            }),
            r is Some && old(self).position() == old(primes).list().len() ==> final(primes).high()
                == old(primes).next_segment_end() - 1,
            old(self).position() < old(primes).list().len() ==> final(primes).list() == old(
                primes,
            ).list() && final(primes).high() == old(primes).high(),
    {
        if self.place >= primes.prime_list.len() {
            primes.extend();
        }
        if self.place < primes.prime_list.len() {
            let v = primes.prime_list[self.place];
            proof {
                lemma_complete_seq_nth(primes.list(), primes.high());
            }
            self.place = self.place + 1;
            Some(v)
        } else {
            None
        }
    }
}

} // verus!
