use vstd::arithmetic::div_mod::{lemma_fundamental_div_mod, lemma_mod_multiples_basic};
use vstd::prelude::*;

verus! {

/// A number is prime when it is at least 2 and no number from 2 up to
/// (but excluding) itself divides it.
pub open spec fn is_prime(m: int) -> bool {
    m >= 2 && forall|d: int| 2 <= d < m ==> #[trigger] (m % d) != 0
}

/// The primes up to `n` inclusive, in ascending order.
pub open spec fn primes_upto(n: int) -> Seq<int>
    decreases n,
{
    if n < 2 {
        Seq::empty()
    } else if is_prime(n) {
        primes_upto(n - 1).push(n)
    } else {
        primes_upto(n - 1)
    }
}

/// Some prime greater than or equal to 2 and strictly below `bound`
/// divides `m`.
pub open spec fn has_prime_factor_below(m: int, bound: int) -> bool {
    exists|p: int| is_prime(p) && 2 <= p < bound && #[trigger] (m % p) == 0
}

/// If `d` divides `m` and `p` divides `d`, then `p` divides `m`.
proof fn lemma_divides_transitive(p: int, d: int, m: int)
    requires
        1 <= p,
        1 <= d,
        m % d == 0,
        d % p == 0,
    ensures
        m % p == 0,
{
    lemma_fundamental_div_mod(m, d);
    lemma_fundamental_div_mod(d, p);
    assert(m == ((d / p) * (m / d)) * p) by (nonlinear_arith)
        requires
            m == d * (m / d) + m % d,
            d == p * (d / p) + d % p,
            m % d == 0,
            d % p == 0,
    ;
    lemma_mod_multiples_basic((d / p) * (m / d), p);
}

/// Every number that is at least 2 and not prime has a prime factor
/// strictly smaller than itself.
proof fn lemma_composite_has_prime_factor(m: int)
    requires
        m >= 2,
        !is_prime(m),
    ensures
        has_prime_factor_below(m, m),
    decreases m,
{
    assert(exists|d: int| 2 <= d < m && #[trigger] (m % d) == 0);
    let d = choose|d: int| 2 <= d < m && #[trigger] (m % d) == 0;
    if is_prime(d) {
        assert(is_prime(d) && 2 <= d < m && m % d == 0);
    } else {
        lemma_composite_has_prime_factor(d);
        let p = choose|p: int| is_prime(p) && 2 <= p < d && #[trigger] (d % p) == 0;
        lemma_divides_transitive(p, d, m);
        assert(is_prime(p) && 2 <= p < m && m % p == 0);
    }
}

/// Law: `primes_upto(n)`, the sequence the sieve returns, holds exactly
/// the primes up to `n` (every entry is prime and at most `n`, and every
/// prime at most `n` appears), and it is strictly ascending.
pub proof fn lemma_primes_upto_exactly_the_primes(n: int)
    ensures
        forall|k: int| 0 <= k < primes_upto(n).len() ==> is_prime(
            #[trigger] primes_upto(n)[k],
        ) && primes_upto(n)[k] <= n,
        forall|p: int| is_prime(p) && p <= n ==> primes_upto(n).contains(p),
        forall|k1: int, k2: int| 0 <= k1 < k2 < primes_upto(n).len() ==> primes_upto(n)[k1]
            < primes_upto(n)[k2],
    decreases n,
{
    if n < 2 {
    } else {
        lemma_primes_upto_exactly_the_primes(n - 1);
        let prev = primes_upto(n - 1);
        assert forall|p: int| is_prime(p) && p <= n implies primes_upto(n).contains(p) by {
            if p <= n - 1 {
                let k = choose|k: int| 0 <= k < prev.len() && prev[k] == p;
                assert(primes_upto(n)[k] == p);
            } else {
                assert(p == n);
                assert(primes_upto(n).last() == n);
            }
        }
    }
}

/// Eliminates composites from the table of candidates `2..=n` and returns
/// the primes up to `n` in ascending order, each still wrapped in `Some`
/// as it was recorded from the table. A bound below 2 yields an empty
/// result.
pub fn sieve_of_eratosthenes(n: usize) -> (primes: Vec<Option<usize>>)
    requires
        n < usize::MAX,
    ensures
        primes@.len() == primes_upto(n as int).len(),
        forall|k: int| 0 <= k < primes@.len() ==> #[trigger] primes@[k] == Some(
            primes_upto(n as int)[k] as usize,
        ),
{
    let mut table: Vec<Option<usize>> = Vec::new();
    let mut m: usize = 2;
    while m <= n
        invariant
            n < usize::MAX,
            2 <= m,
            m <= n + 1 || m == 2,
            m == 2 + table@.len(),
            forall|j: int| 0 <= j < table@.len() ==> #[trigger] table@[j] == Some(
                (j + 2) as usize,
            ),
        decreases n + 1 - m,
    {
        table.push(Some(m));
        m = m + 1;
    }
    let ghost tlen: int = table@.len() as int;
    proof {
        assert(n >= 2 ==> tlen == n - 1);
        assert(n < 2 ==> tlen == 0);
    }

    let mut primes: Vec<Option<usize>> = Vec::new();
    let mut i: usize = 0;
    while i < table.len()
        invariant
            n < usize::MAX,
            table@.len() == tlen,
            tlen <= usize::MAX - 2,
            n >= 2 ==> tlen == n - 1,
            n < 2 ==> tlen == 0,
            i <= tlen,
            forall|k: int| 0 <= k < tlen ==> #[trigger] table@[k] == (if k < i
                || has_prime_factor_below(k + 2, i + 2) {
                None
            } else {
                Some((k + 2) as usize)
            }),
            primes@.len() == primes_upto(i + 1).len(),
            forall|k: int| 0 <= k < primes@.len() ==> #[trigger] primes@[k] == Some(
                primes_upto(i + 1)[k] as usize,
            ),
        decreases tlen - i,
    {
        if let Some(a) = table[i] {
            proof {
                assert(a == (i + 2) as usize);
                assert(!has_prime_factor_below(i + 2, i + 2));
                if !is_prime(i + 2) {
                    lemma_composite_has_prime_factor(i + 2);
                    assert(false);
                }
                assert(primes_upto(i + 2) == primes_upto(i + 1).push(i + 2));
            }
            primes.push(Some(a));
            let mut j: usize = i;
            while j < table.len()
                invariant
                    n < usize::MAX,
                    table@.len() == tlen,
                    tlen <= usize::MAX - 2,
                    i < tlen,
                    i <= j <= tlen,
                    a == (i + 2) as usize,
                    is_prime(i + 2),
                    forall|k: int| 0 <= k < tlen ==> #[trigger] table@[k] == (if k == i {
                        Some((i + 2) as usize)
                    } else if k < i || has_prime_factor_below(
                        k + 2,
                        if k < j {
                            i + 3
                        } else {
                            i + 2
                        },
                    ) {
                        None
                    } else {
                        Some((k + 2) as usize)
                    }),
                decreases tlen - j,
            {
                if let Some(b) = table[j] {
                    if i != j && b % a == 0 {
                        proof {
                            assert(b == (j + 2) as usize);
                            assert((j + 2) % (i + 2) == 0);
                            assert(is_prime(i + 2) && 2 <= i + 2 < i + 3 && (j + 2) % (i + 2)
                                == 0);
                            assert(has_prime_factor_below(j + 2, i + 3));
                        }
                        table[j] = None;
                    } else {
                        proof {
                            if i != j {
                                assert(b == (j + 2) as usize);
                                assert(!has_prime_factor_below(j + 2, i + 2));
                                if has_prime_factor_below(j + 2, i + 3) {
                                    let p = choose|p: int|
                                        is_prime(p) && 2 <= p < i + 3 && #[trigger] ((j + 2) % p)
                                            == 0;
                                    if p < i + 2 {
                                        assert(has_prime_factor_below(j + 2, i + 2));
                                    } else {
                                        assert(p == i + 2);
                                        assert((j + 2) % (i + 2) == 0);
                                        assert(false);
                                    }
                                }
                            }
                        }
                    }
                } else {
                    proof {
                        assert(has_prime_factor_below(j + 2, i + 2));
                        let p = choose|p: int|
                            is_prime(p) && 2 <= p < i + 2 && #[trigger] ((j + 2) % p) == 0;
                        assert(is_prime(p) && 2 <= p < i + 3 && (j + 2) % p == 0);
                        assert(has_prime_factor_below(j + 2, i + 3));
                    }
                }
                j = j + 1;
            }
            table[i] = None;
            proof {
                assert((i + 2) % (i + 2) == 0) by {
                    lemma_mod_multiples_basic(1, i + 2);
                };
                assert(has_prime_factor_below(i + 2, i + 3));
                assert(forall|k: int| 0 <= k < tlen ==> #[trigger] table@[k] == (if k < i + 1
                    || has_prime_factor_below(k + 2, i + 3) {
                    None
                } else {
                    Some((k + 2) as usize)
                }));
            }
        } else {
            proof {
                assert(has_prime_factor_below(i + 2, i + 2));
                let p = choose|p: int|
                    is_prime(p) && 2 <= p < i + 2 && #[trigger] ((i + 2) % p) == 0;
                assert(!is_prime(i + 2));
                assert(primes_upto(i + 2) == primes_upto(i + 1));
                assert forall|k: int| 0 <= k < tlen implies #[trigger] table@[k] == (if k < i + 1
                    || has_prime_factor_below(k + 2, i + 3) {
                    None
                } else {
                    Some((k + 2) as usize)
                }) by {
                    if k > i && !has_prime_factor_below(k + 2, i + 2) {
                        if has_prime_factor_below(k + 2, i + 3) {
                            let q = choose|q: int|
                                is_prime(q) && 2 <= q < i + 3 && #[trigger] ((k + 2) % q) == 0;
                            if q < i + 2 {
                                assert(has_prime_factor_below(k + 2, i + 2));
                            } else {
                                assert(q == i + 2);
                                assert(false);
                            }
                        }
                    }
                }
            }
        }
        i = i + 1;
    }
    proof {
        if n >= 2 {
            assert(i + 1 == n as int);
        } else {
            assert(primes_upto(i + 1) == primes_upto(n as int));
        }
    }
    primes
}

} // verus!
