//! A sieve of Eratosthenes over the odd numbers, used to check results of
//! allocation-heavy workloads.
use vstd::prelude::*;

verus! {

/// `n` is prime.
pub open spec fn is_prime(n: int) -> bool {
    n >= 2 && forall|d: int| 2 <= d < n ==> #[trigger] (n % d) != 0
}

/// `m` has a divisor `d` with `3 <= d < bound` whose cofactor is at least 3:
/// the sieve has crossed `m` out once every `d` below `bound` is done.
pub open spec fn crossed_out(m: int, bound: int) -> bool {
    exists|d: int| 3 <= d < bound && #[trigger] (m % d) == 0 && m / d >= 3
}

/// The odd number that index `i` of the sieve stands for.
pub open spec fn odd_at(i: int) -> int {
    2 * i + 3
}

/// Index `idx` is an odd multiple of `n` (index `i`) from `3 n` on.
spec fn multiple_index(idx: int, i: int, n: int) -> bool {
    idx >= i + n && (idx - i) % n == 0
}

/// Primality of the odd numbers from 3 on, up to a limit.
pub struct Sieve {
    sieve: Vec<bool>,
}

impl Sieve {
    /// The largest number the sieve answers for.
    pub closed spec fn limit(self) -> int {
        odd_at(self.sieve@.len() - 1) + 1
    }

    pub closed spec fn wf(self) -> bool {
        &&& self.sieve@.len() >= 1
        &&& forall|i: int| 0 <= i < self.sieve@.len() ==> #[trigger] self.sieve@[i] == !is_prime(odd_at(i))
    }

    /// Sieves the numbers up to `limit`.
    pub fn new(limit: u64) -> (r: Sieve)
        requires
            3 <= limit,
            limit <= usize::MAX / 2,
        ensures
            r.wf(),
            r.limit() >= limit,
    {
        let len = ((limit - 3) / 2 + 1) as usize;
        let mut sieve: Vec<bool> = Vec::new();
        let mut k: usize = 0;
        while k < len
            invariant
                k <= len,
                sieve@.len() == k,
                forall|q: int| 0 <= q < k ==> #[trigger] sieve@[q] == false,
            decreases len - k,
        {
            sieve.push(false);
            k = k + 1;
        }
        proof {
            assert forall|q: int| 0 <= q < len implies #[trigger] sieve@[q] == crossed_out(odd_at(q), 3) by {}
        }
        let mut n: usize = 3;
        loop
            invariant
                len == sieve@.len(),
                len == (limit - 3) / 2 + 1,
                1 <= len,
                3 * len + 3 <= usize::MAX,
                3 <= n,
                n % 2 == 1,
                (n - 3) / 2 < len,
                forall|q: int| 0 <= q < len ==> #[trigger] sieve@[q] == crossed_out(odd_at(q), n as int),
            decreases len - (n - 3) / 2,
        {
            let i = (n - 3) / 2;
            let mut j = i + n;
            if j >= len {
                proof {
                    assert forall|q: int| 0 <= q < len implies #[trigger] sieve@[q] == !is_prime(odd_at(q)) by {
                        lemma_crossed_out_iff_composite(odd_at(q), n as int);
                    }
                }
                return Sieve { sieve };
            }
            if !sieve[i] {
                cross_out_multiples(&mut sieve, i, n);
                proof {
                    assert forall|q: int| 0 <= q < len implies #[trigger] sieve@[q] == crossed_out(
                        odd_at(q),
                        n + 2,
                    ) by {
                        lemma_step(q, i as int, n as int);
                    }
                }
            } else {
                proof {
                    assert forall|q: int| 0 <= q < len implies #[trigger] sieve@[q] == crossed_out(
                        odd_at(q),
                        n + 2,
                    ) by {
                        lemma_step(q, i as int, n as int);
                        lemma_index_multiple(q, q, i as int, n as int);
                        if multiple_index(q, i as int, n as int) {
                            assert(sieve@[i as int] == crossed_out(odd_at(i as int), n as int));
                            lemma_composite_multiple(odd_at(q), n as int);
                        }
                    }
                }
            }
            n = n + 2;
        }
    }

    /// Whether `value` is prime.
    pub fn is_prime(&self, value: u64) -> (r: bool)
        requires
            self.wf(),
            2 <= value <= self.limit(),
        ensures
            r == is_prime(value as int),
    {
        if value % 2 == 0 {
            proof {
                if value > 2 {
                    assert((value as int) % 2 == 0);
                }
            }
            value == 2
        } else {
            proof {
                assert(value >= 3);
                vstd::std_specs::vec::axiom_spec_len(&self.sieve);
                assert((value - 3) % 2 == 0);
                vstd::arithmetic::div_mod::lemma_fundamental_div_mod((value - 3) as int, 2);
            }
            let i = ((value - 3) / 2) as usize;
            proof {
                assert(odd_at(i as int) == value);
            }
            !self.sieve[i]
        }
    }
}

/// Crosses out the odd multiples of `n` (index `i`) from `3 n` on.
fn cross_out_multiples(sieve: &mut Vec<bool>, i: usize, n: usize)
    requires
        3 * old(sieve)@.len() + 3 <= usize::MAX,
        n == 2 * i + 3,
        n < 2 * old(sieve)@.len() + 3,
    ensures
        final(sieve)@.len() == old(sieve)@.len(),
        forall|q: int|
            0 <= q < old(sieve)@.len() ==> #[trigger] final(sieve)@[q] == (old(sieve)@[q] || multiple_index(
                q,
                i as int,
                n as int,
            )),
{
    let len = sieve.len();
    let ghost orig = sieve@;
    let mut j = i + n;
    proof {
        vstd::arithmetic::div_mod::lemma_mod_self_0(n as int);
    }
    while j < len
        invariant
            len == sieve@.len(),
            orig.len() == len,
            3 * len + 3 <= usize::MAX,
            n < 2 * len + 3,
            n >= 3,
            n == 2 * i + 3,
            i + n <= j,
            j < len + n,
            (j - i) % (n as int) == 0,
            forall|q: int|
                0 <= q < len ==> #[trigger] sieve@[q] == (orig[q] || (multiple_index(q, i as int, n as int)
                    && q < j)),
        decreases len + n - j,
    {
        sieve.set(j, true);
        proof {
            vstd::arithmetic::div_mod::lemma_mod_adds(j - i, n as int, n as int);
            vstd::arithmetic::div_mod::lemma_mod_self_0(n as int);
            assert forall|q: int|
                0 <= q < len implies #[trigger] sieve@[q] == (orig[q] || (multiple_index(q, i as int, n as int)
                    && q < j + n)) by {
                if j < q < j + n {
                    lemma_no_multiple_between(q, j as int, i as int, n as int);
                }
            }
        }
        j = j + n;
    }
}

/// An odd `m` is crossed out below `bound` exactly when it is composite,
/// once `3 * bound` exceeds it.
proof fn lemma_crossed_out_iff_composite(m: int, bound: int)
    requires
        m >= 3,
        m % 2 == 1,
        m < 3 * bound,
    ensures
        crossed_out(m, bound) == !is_prime(m),
{
    if crossed_out(m, bound) {
        let d = choose|d: int| 3 <= d < bound && #[trigger] (m % d) == 0 && m / d >= 3;
        vstd::arithmetic::div_mod::lemma_fundamental_div_mod(m, d);
        assert(d < m) by (nonlinear_arith)
            requires
                m == d * (m / d) + m % d,
                m % d == 0,
                m / d >= 3,
                d >= 3,
        ;
        assert(m % d == 0);
    }
    if !is_prime(m) {
        let d = choose|d: int| 2 <= d < m && #[trigger] (m % d) == 0;
        vstd::arithmetic::div_mod::lemma_fundamental_div_mod(m, d);
        let q = m / d;
        assert(m == d * q);
        assert(q >= 2) by (nonlinear_arith)
            requires
                m == d * q,
                d < m,
                d >= 2,
        ;
        lemma_odd_factors(m, d, q);
        assert(3 * d <= m) by (nonlinear_arith)
            requires
                m == d * q,
                q >= 3,
                d >= 3,
        ;
        assert(m % d == 0 && m / d >= 3);
    }
}

/// Both factors of an odd number are odd.
proof fn lemma_odd_factors(m: int, d: int, q: int)
    requires
        m == d * q,
        m % 2 == 1,
        d >= 2,
        q >= 2,
    ensures
        d >= 3,
        q >= 3,
{
    if d == 2 {
        vstd::arithmetic::div_mod::lemma_mod_multiples_basic(q, 2);
        vstd::arithmetic::mul::lemma_mul_is_commutative(q, 2);
    }
    if q == 2 {
        vstd::arithmetic::div_mod::lemma_mod_multiples_basic(d, 2);
    }
}

/// Index `q` is an odd multiple of `n = odd_at(i)` from `3 n` on exactly
/// when `n` divides `odd_at(q)` with a cofactor of at least 3.
proof fn lemma_index_multiple(q0: int, q: int, i: int, n: int)
    requires
        n == 2 * i + 3,
        i >= 0,
        q >= 0,
    ensures
        multiple_index(q, i, n) == (odd_at(q) % n == 0 && odd_at(q) / n >= 3),
{
    let m = odd_at(q);
    if multiple_index(q, i, n) {
        vstd::arithmetic::div_mod::lemma_fundamental_div_mod(q - i, n);
        let t = (q - i) / n;
        assert(q - i == n * t);
        assert(t >= 1) by (nonlinear_arith)
            requires
                q - i == n * t,
                q - i >= n,
                n >= 3,
        ;
        assert(m == n * (2 * t + 1)) by (nonlinear_arith)
            requires
                q - i == n * t,
                n == 2 * i + 3,
                m == 2 * q + 3,
        ;
        vstd::arithmetic::div_mod::lemma_fundamental_div_mod_converse(m, n, 2 * t + 1, 0);
    }
    if m % n == 0 && m / n >= 3 {
        vstd::arithmetic::div_mod::lemma_fundamental_div_mod(m, n);
        let c = m / n;
        assert(m == n * c);
        // The cofactor is odd, since `m` and `n` are.
        assert(c % 2 == 1) by {
            if c % 2 == 0 {
                vstd::arithmetic::div_mod::lemma_fundamental_div_mod(c, 2);
                let h = c / 2;
                assert(m == 2 * (n * h)) by (nonlinear_arith)
                    requires
                        m == n * c,
                        c == 2 * h + c % 2,
                        c % 2 == 0,
                ;
                vstd::arithmetic::div_mod::lemma_mod_multiples_basic(n * h, 2);
                vstd::arithmetic::mul::lemma_mul_is_commutative(n * h, 2);
            }
        }
        vstd::arithmetic::div_mod::lemma_fundamental_div_mod(c, 2);
        let t = c / 2;
        assert(q - i == n * t) by (nonlinear_arith)
            requires
                m == n * c,
                c == 2 * t + 1,
                n == 2 * i + 3,
                m == 2 * q + 3,
        ;
        assert(t >= 1);
        assert(q - i >= n) by (nonlinear_arith)
            requires
                q - i == n * t,
                t >= 1,
                n >= 3,
        ;
        vstd::arithmetic::div_mod::lemma_mod_multiples_basic(t, n);
        vstd::arithmetic::mul::lemma_mul_is_commutative(t, n);
    }
}

/// Between two consecutive marked indices there is no multiple index.
proof fn lemma_no_multiple_between(q: int, j: int, i: int, n: int)
    requires
        n >= 3,
        (j - i) % n == 0,
        j < q < j + n,
    ensures
        !multiple_index(q, i, n),
{
    vstd::arithmetic::div_mod::lemma_fundamental_div_mod(j - i, n);
    let t = (j - i) / n;
    vstd::arithmetic::mul::lemma_mul_is_commutative(n, t);
    assert(q - i == t * n + (q - j));
    vstd::arithmetic::div_mod::lemma_fundamental_div_mod_converse(q - i, n, t, q - j);
}

/// Crossing out the odd multiples of `n` extends the bound from `n` to
/// `n + 2`: `n + 1` is even and divides no odd number.
proof fn lemma_step(q: int, i: int, n: int)
    requires
        n == 2 * i + 3,
        i >= 0,
        q >= 0,
    ensures
        crossed_out(odd_at(q), n + 2) == (crossed_out(odd_at(q), n) || multiple_index(q, i, n)),
{
    let m = odd_at(q);
    lemma_index_multiple(q, q, i, n);
    if crossed_out(m, n + 2) {
        let d = choose|d: int| 3 <= d < n + 2 && #[trigger] (m % d) == 0 && m / d >= 3;
        if d == n + 1 {
            vstd::arithmetic::div_mod::lemma_fundamental_div_mod(m, d);
            let c = m / d;
            assert(m == 2 * ((i + 2) * c)) by (nonlinear_arith)
                requires
                    m == d * c + m % d,
                    m % d == 0,
                    d == 2 * i + 4,
            ;
            vstd::arithmetic::div_mod::lemma_mod_multiples_basic((i + 2) * c, 2);
            vstd::arithmetic::mul::lemma_mul_is_commutative((i + 2) * c, 2);
        } else if d < n {
            assert(crossed_out(m, n));
        }
    }
    if crossed_out(m, n) {
        let d = choose|d: int| 3 <= d < n && #[trigger] (m % d) == 0 && m / d >= 3;
        assert(3 <= d < n + 2);
    }
    if multiple_index(q, i, n) {
        assert(m % n == 0 && m / n >= 3);
    }
}

/// A multiple of a crossed-out `n` with cofactor at least 3 is crossed out
/// by the divisor that crossed out `n`.
proof fn lemma_composite_multiple(m: int, n: int)
    requires
        crossed_out(n, n),
        m % n == 0,
        m / n >= 3,
        n >= 3,
    ensures
        crossed_out(m, n),
{
    let d = choose|d: int| 3 <= d < n && #[trigger] (n % d) == 0 && n / d >= 3;
    vstd::arithmetic::div_mod::lemma_fundamental_div_mod(n, d);
    vstd::arithmetic::div_mod::lemma_fundamental_div_mod(m, n);
    let r = n / d;
    let c = m / n;
    assert(m == d * (r * c)) by (nonlinear_arith)
        requires
            n == d * r,
            m == n * c,
    ;
    assert(r * c >= 3) by (nonlinear_arith)
        requires
            r >= 3,
            c >= 3,
    ;
    vstd::arithmetic::div_mod::lemma_fundamental_div_mod_converse(m, d, r * c, 0);
    assert(m % d == 0 && m / d >= 3);
}

} // verus!
