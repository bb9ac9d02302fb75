//! Primality of a 64-bit number, by trial division.
use vstd::prelude::*;

verus! {

/// `n` is prime: at least 2, and no number strictly between 1 and `n`
/// divides it.
pub open spec fn prime(n: nat) -> bool {
    n >= 2 && forall|d: nat| 2 <= d < n ==> #[trigger] (n % d) != 0
}

/// Whether `n` is prime.
pub fn is_prime(n: u64) -> (r: bool)
    ensures
        r == prime(n as nat),
{
    if n < 2 {
        return false;
    }
    let mut d: u64 = 2;
    while d <= n / d
        invariant
            2 <= d <= n,
            forall|k: nat| 2 <= k < d ==> #[trigger] ((n as nat) % k) != 0,
        decreases n - d,
    {
        assert(d * d <= n) by (nonlinear_arith)
            requires
                d <= n / d,
                d >= 2,
        {
            vstd::arithmetic::div_mod::lemma_fundamental_div_mod(n as int, d as int);
            vstd::arithmetic::mul::lemma_mul_inequality(d as int, n as int / d as int, d as int);
        }
        if n % d == 0 {
            assert(d < n) by (nonlinear_arith)
                requires
                    d >= 2,
                    d * d <= n,
            ;
            return false;
        }
        assert(d + 1 <= n) by (nonlinear_arith)
            requires
                d >= 2,
                d * d <= n,
        ;
        d += 1;
    }
    assert(d * d > n) by (nonlinear_arith)
        requires
            d > n / d,
            d >= 2,
    {
        vstd::arithmetic::div_mod::lemma_fundamental_div_mod(n as int, d as int);
    }
    assert forall|k: nat| 2 <= k < n implies #[trigger] ((n as nat) % k) != 0 by {
        if k >= d && (n as nat) % k == 0 {
            let e = (n as nat) / k;
            assert(n == e * k) by {
                vstd::arithmetic::div_mod::lemma_fundamental_div_mod(n as int, k as int);
            }
            assert(e >= 2) by (nonlinear_arith)
                requires
                    n == e * k,
                    k < n,
            ;
            assert(e < d) by (nonlinear_arith)
                requires
                    n == e * k,
                    k >= d,
                    d * d > n,
            ;
            assert((n as nat) % e == 0) by {
                vstd::arithmetic::div_mod::lemma_mod_multiples_basic(k as int, e as int);
            }
        }
    }
    true
}

} // verus!
