//! The mathematical model: what it means to be prime, counting primes, and
//! the facts about divisors that justify sieving a segment with only the
//! primes below its square root.

use vstd::prelude::*;
use vstd::arithmetic::div_mod::{
    lemma_fundamental_div_mod, lemma_mod_multiples_basic, lemma_mod_multiples_vanish,
    lemma_small_mod,
};

verus! {

/// `n` is prime: at least 2, and no integer strictly between 1 and `n` divides it.
pub open spec fn is_prime(n: int) -> bool {
    n >= 2 && forall|d: int| 2 <= d < n ==> #[trigger] (n % d) != 0
}

/// How many primes lie in the interval `[2, n)`.
pub open spec fn count_primes_below(n: int) -> nat
    decreases n,
{
    if n <= 2 {
        0
    } else {
        count_primes_below(n - 1) + if is_prime(n - 1) {
            1nat
        } else {
            0nat
        }
    }
}

/// `p` is the prime preceded by exactly `i` smaller primes; that is, `p` is
/// the `(i + 1)`-th prime when counting from one.
pub open spec fn is_nth_prime(i: int, p: int) -> bool {
    is_prime(p) && count_primes_below(p) == i
}

/// The integer `n` occurs in the sequence `s`.
pub open spec fn seq_contains_int(s: Seq<usize>, n: int) -> bool {
    exists|i: int| 0 <= i < s.len() && s[i] == n
}

/// `s` lists, in strictly increasing order, exactly the primes in `[2, bound]`.
pub open spec fn complete_prime_seq(s: Seq<usize>, bound: int) -> bool {
    &&& forall|i: int|
        0 <= i < s.len() ==> 2 <= #[trigger] s[i] && s[i] <= bound && is_prime(s[i] as int)
    &&& forall|i: int, j: int| 0 <= i < j < s.len() ==> s[i] < s[j]
    &&& forall|p: int| 2 <= p <= bound && is_prime(p) ==> #[trigger] seq_contains_int(s, p)
}

/// Divisibility is transitive: if `a` divides `b` and `b` divides `c`,
/// then `a` divides `c`.
proof fn lemma_divides_transitive(a: int, b: int, c: int)
    requires
        1 <= a,
        1 <= b,
        b % a == 0,
        c % b == 0,
    ensures
        c % a == 0,
{
    lemma_fundamental_div_mod(b, a);
    lemma_fundamental_div_mod(c, b);
    assert(c == ((b / a) * (c / b)) * a) by (nonlinear_arith)
        requires
            b == a * (b / a),
            c == b * (c / b),
    ;
    lemma_mod_multiples_basic((b / a) * (c / b), a);
}

/// A positive divisor of a positive number is no larger than it.
proof fn lemma_divisor_le(d: int, n: int)
    requires
        1 <= d,
        1 <= n,
        n % d == 0,
    ensures
        d <= n,
{
    if d > n {
        lemma_small_mod(n as nat, d as nat);
    }
}

/// Scanning upward from `c`, the first divisor of `n` found is prime, and no
/// integer in `[2, c)` divides `n`.
proof fn lemma_least_prime_factor_from(n: int, c: int) -> (p: int)
    requires
        2 <= c <= n,
        forall|q: int| 2 <= q < c ==> #[trigger] (n % q) != 0,
    ensures
        is_prime(p),
        n % p == 0,
        c <= p <= n,
        forall|q: int| 2 <= q < p ==> #[trigger] (n % q) != 0,
    decreases n - c,
{
    if n % c == 0 {
        assert forall|e: int| 2 <= e < c implies #[trigger] (c % e) != 0 by {
            if c % e == 0 {
                lemma_divides_transitive(e, c, n);
            }
        }
        c
    } else {
        assert(c < n) by {
            if c == n {
                lemma_mod_multiples_basic(1, n);
                assert(1 * n == n);
            }
        }
        lemma_least_prime_factor_from(n, c + 1)
    }
}

/// Every composite number has a prime factor whose square does not exceed it.
/// This is the divisor-sufficiency fact behind segment sieving: trial
/// division by the primes up to `sqrt(n)` classifies `n` completely.
pub proof fn lemma_composite_has_small_prime_factor(n: int) -> (p: int)
    requires
        n >= 2,
        !is_prime(n),
    ensures
        is_prime(p),
        n % p == 0,
        2 <= p < n,
        p * p <= n,
{
    let p = lemma_least_prime_factor_from(n, 2);
    assert(p < n) by {
        if p == n {
            assert(is_prime(n));
        }
    }
    lemma_fundamental_div_mod(n, p);
    let m = n / p;
    assert(n == p * m);
    assert(m >= 2) by (nonlinear_arith)
        requires
            n == p * m,
            2 <= p < n,
            n >= 2,
    ;
    assert(m < n) by (nonlinear_arith)
        requires
            n == p * m,
            2 <= p,
            m >= 2,
    ;
    lemma_mod_multiples_basic(p, m);
    assert(n % m == 0);
    let q = lemma_least_prime_factor_from(m, 2);
    lemma_divides_transitive(q, m, n);
    // by minimality of p among divisors of n, the prime factor q of m is >= p
    assert(q >= p);
    lemma_divisor_le(q, m);
    assert(p * p <= n) by (nonlinear_arith)
        requires
            n == p * m,
            m >= q,
            q >= p,
            p >= 2,
    ;
    p
}

/// If `x` is a multiple of `p`, the next multiple is `x + p`: no integer
/// strictly between them is one.
pub proof fn lemma_between_multiples(x: int, j: int, p: int)
    requires
        p >= 1,
        x >= 0,
        x % p == 0,
        0 <= j < p,
    ensures
        (x + j) % p == j,
{
    lemma_fundamental_div_mod(x, p);
    lemma_mod_multiples_vanish(x / p, j, p);
    lemma_small_mod(j as nat, p as nat);
}

/// A multiple of `p` stays a multiple after stepping forward by `p`.
pub proof fn lemma_mod_plus_divisor(x: int, p: int)
    requires
        p >= 1,
        x % p == 0,
    ensures
        (x + p) % p == 0,
{
    lemma_fundamental_div_mod(x, p);
    assert(x + p == (x / p + 1) * p) by (nonlinear_arith)
        requires
            x == p * (x / p),
    ;
    lemma_mod_multiples_basic(x / p + 1, p);
}

/// The offset `(p - base % p) % p` points at the first multiple of `p` at or
/// after `base`: it is a multiple, and nothing before it is.
pub proof fn lemma_first_multiple_offset(base: int, p: int)
    requires
        p >= 1,
        base >= 0,
    ensures
        0 <= (p - base % p) % p < p,
        (base + (p - base % p) % p) % p == 0,
        forall|i: int|
            0 <= i < (p - base % p) % p ==> #[trigger] ((base + i) % p) != 0,
{
    let r = base % p;
    lemma_fundamental_div_mod(base, p);
    if r == 0 {
        lemma_mod_multiples_basic(1, p);
        assert(1 * p == p);
        assert((p - base % p) % p == 0);
    } else {
        lemma_small_mod((p - r) as nat, p as nat);
        let off = p - r;
        assert((p - base % p) % p == off);
        assert(base + off == p * (base / p + 1)) by (nonlinear_arith)
            requires
                base == p * (base / p) + r,
                off == p - r,
        ;
        lemma_mod_multiples_basic(base / p + 1, p);
        assert((p * (base / p + 1)) % p == 0) by {
            assert(p * (base / p + 1) == (base / p + 1) * p) by (nonlinear_arith);
        }
        assert forall|i: int| 0 <= i < off implies #[trigger] ((base + i) % p) != 0 by {
            assert(base + i == p * (base / p) + (r + i));
            lemma_mod_multiples_vanish(base / p, r + i, p);
            lemma_small_mod((r + i) as nat, p as nat);
        }
    }
}

/// `x` is divisible by none of the first `j` elements of `s`.
pub open spec fn coprime_to_first(s: Seq<usize>, j: int, x: int) -> bool {
    forall|k: int| 0 <= k < j ==> x % (#[trigger] s[k] as int) != 0
}

/// The four seed primes, small enough to check by direct division.
pub proof fn lemma_small_primes()
    ensures
        is_prime(2),
        is_prime(3),
        is_prime(5),
        is_prime(7),
{
    assert forall|d: int| 2 <= d < 7 implies #[trigger] (7int % d) != 0 by {
        if d == 2 {
            assert(7int % 2int == 1);
        } else if d == 3 {
            assert(7int % 3int == 1);
        } else if d == 4 {
            assert(7int % 4int == 3);
        } else if d == 5 {
            assert(7int % 5int == 2);
        } else {
            assert(7int % 6int == 1);
        }
    }
    assert forall|d: int| 2 <= d < 5 implies #[trigger] (5int % d) != 0 by {
        if d == 2 {
            assert(5int % 2int == 1);
        } else if d == 3 {
            assert(5int % 3int == 2);
        } else {
            assert(5int % 4int == 1);
        }
    }
    assert forall|d: int| 2 <= d < 3 implies #[trigger] (3int % d) != 0 by {
        assert(3int % 2int == 1);
    }
}

/// How many elements of `s` are smaller than `m`.
pub open spec fn count_lt(s: Seq<usize>, m: int) -> nat
    decreases s.len(),
{
    if s.len() == 0 {
        0
    } else {
        count_lt(s.drop_last(), m) + if s.last() < m {
            1nat
        } else {
            0nat
        }
    }
}

proof fn lemma_count_lt_all_ge(s: Seq<usize>, m: int)
    requires
        forall|i: int| 0 <= i < s.len() ==> #[trigger] s[i] >= m,
    ensures
        count_lt(s, m) == 0,
    decreases s.len(),
{
    if s.len() > 0 {
        lemma_count_lt_all_ge(s.drop_last(), m);
    }
}

proof fn lemma_count_lt_all_lt(s: Seq<usize>, m: int)
    requires
        forall|i: int| 0 <= i < s.len() ==> #[trigger] s[i] < m,
    ensures
        count_lt(s, m) == s.len(),
    decreases s.len(),
{
    if s.len() > 0 {
        lemma_count_lt_all_lt(s.drop_last(), m);
    }
}

proof fn lemma_count_lt_step(s: Seq<usize>, m: int)
    requires
        forall|i: int, j: int| 0 <= i < j < s.len() ==> s[i] < s[j],
    ensures
        count_lt(s, m + 1) == count_lt(s, m) + if seq_contains_int(s, m) {
            1int
        } else {
            0int
        },
    decreases s.len(),
{
    if s.len() == 0 {
        assert(!seq_contains_int(s, m));
    } else {
        let t = s.drop_last();
        lemma_count_lt_step(t, m);
        if s.last() == m {
            // the strictly increasing order puts every other element below m
            assert(!seq_contains_int(t, m)) by {
                if seq_contains_int(t, m) {
                    let k = choose|k: int| 0 <= k < t.len() && t[k] == m;
                    assert(s[k] < s[s.len() - 1]);
                }
            }
            assert(seq_contains_int(s, m)) by {
                assert(s[s.len() - 1] == m);
            }
        } else {
            assert(seq_contains_int(s, m) <==> seq_contains_int(t, m)) by {
                if seq_contains_int(s, m) {
                    let k = choose|k: int| 0 <= k < s.len() && s[k] == m;
                    assert(t[k] == m);
                }
                if seq_contains_int(t, m) {
                    let k = choose|k: int| 0 <= k < t.len() && t[k] == m;
                    assert(s[k] == m);
                }
            }
        }
    }
}

/// Counting primes below `m` agrees with counting, in a complete prime
/// sequence, the elements below `m`.
proof fn lemma_count_primes_eq_count_lt(s: Seq<usize>, bound: int, m: int)
    requires
        complete_prime_seq(s, bound),
        2 <= m <= bound + 1,
    ensures
        count_primes_below(m) == count_lt(s, m),
    decreases m,
{
    if m == 2 {
        lemma_count_lt_all_ge(s, 2);
    } else {
        lemma_count_primes_eq_count_lt(s, bound, m - 1);
        lemma_count_lt_step(s, m - 1);
        if is_prime(m - 1) {
            assert(seq_contains_int(s, m - 1));
        } else {
            assert(!seq_contains_int(s, m - 1)) by {
                if seq_contains_int(s, m - 1) {
                    let k = choose|k: int| 0 <= k < s.len() && s[k] == m - 1;
                    assert(is_prime(s[k] as int));
                }
            }
        }
    }
}

proof fn lemma_sorted_count_lt_index(s: Seq<usize>, i: int)
    requires
        forall|i1: int, j1: int| 0 <= i1 < j1 < s.len() ==> s[i1] < s[j1],
        0 <= i < s.len(),
    ensures
        count_lt(s, s[i] as int) == i,
    decreases s.len(),
{
    let t = s.drop_last();
    if i == s.len() - 1 {
        lemma_count_lt_all_lt(t, s[i] as int);
    } else {
        lemma_sorted_count_lt_index(t, i);
        assert(t[i] == s[i]);
        assert(s.last() > s[i]);
    }
}

/// In a complete prime sequence, the element at index `i` is the prime with
/// exactly `i` smaller primes.
pub proof fn lemma_complete_seq_nth(s: Seq<usize>, bound: int)
    requires
        complete_prime_seq(s, bound),
    ensures
        forall|i: int| 0 <= i < s.len() ==> is_nth_prime(i, #[trigger] s[i] as int),
{
    assert forall|i: int| 0 <= i < s.len() implies is_nth_prime(i, #[trigger] s[i] as int) by {
        lemma_count_primes_eq_count_lt(s, bound, s[i] as int);
        lemma_sorted_count_lt_index(s, i);
    }
}

proof fn lemma_count_primes_monotone(a: int, b: int)
    requires
        a <= b,
    ensures
        count_primes_below(a) <= count_primes_below(b),
    decreases b - a,
{
    if a < b {
        lemma_count_primes_monotone(a, b - 1);
    }
}

/// There is at most one `i`-th prime: two primes preceded by the same number
/// of primes are equal.  Together with the contract of the lazy pull, this
/// says that any two cursors over the same sequence see the same value at the
/// same logical position.
pub proof fn lemma_nth_prime_unique(i: int, p: int, q: int)
    requires
        is_nth_prime(i, p),
        is_nth_prime(i, q),
    ensures
        p == q,
{
    if p < q {
        lemma_count_primes_monotone(p + 1, q);
        assert(count_primes_below(p + 1) == count_primes_below(p) + 1);
    }
    if q < p {
        lemma_count_primes_monotone(q + 1, p);
        assert(count_primes_below(q + 1) == count_primes_below(q) + 1);
    }
}

/// The primes are strictly increasing in their index: a later prime is larger.
pub proof fn lemma_nth_prime_increasing(i: int, j: int, p: int, q: int)
    requires
        is_nth_prime(i, p),
        is_nth_prime(j, q),
        i < j,
    ensures
        p < q,
{
    if q <= p {
        lemma_count_primes_monotone(q, p);
    }
}

/// No earlier prime divides a later one: the `j`-th prime is smaller than the
/// `i`-th and does not divide it.
pub proof fn lemma_earlier_prime_not_divisor(i: int, j: int, p: int, q: int)
    requires
        is_nth_prime(i, p),
        is_nth_prime(j, q),
        j < i,
    ensures
        2 <= q < p,
        p % q != 0,
{
    lemma_nth_prime_increasing(j, i, q, p);
}

} // verus!
