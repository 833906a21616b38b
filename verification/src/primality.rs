//! Primality of 64-bit unsigned integers by trial division.

use crate::sorting::ascending;
use vstd::arithmetic::div_mod::lemma_mod_multiples_basic;
use vstd::multiset::{group_multiset_axioms, group_multiset_properties};
use vstd::prelude::*;
use vstd::seq_lib::group_to_multiset_ensures;

verus! {

/// `n` is prime: at least 2, and no integer strictly between 1 and `n`
/// divides it.
pub open spec fn prime(n: int) -> bool {
    n >= 2 && forall|d: int| 2 <= d < n ==> #[trigger] (n % d) != 0
}

/// The primes from 2 up to `limit`, inclusive, in ascending order.
pub open spec fn primes_up_to(limit: u64) -> Seq<u64>
    decreases limit,
{
    if limit < 2 {
        Seq::empty()
    } else if prime(limit as int) {
        primes_up_to((limit - 1) as u64).push(limit)
    } else {
        primes_up_to((limit - 1) as u64)
    }
}

/// `primes_up_to(limit)` is in ascending order and holds each prime up to
/// `limit` once, and nothing else.
pub proof fn lemma_primes_up_to(limit: u64)
    ensures
        ascending(primes_up_to(limit)),
        forall|i: int| 0 <= i < primes_up_to(limit).len() ==> primes_up_to(limit)[i] <= limit,
        forall|v: u64| #[trigger]
            primes_up_to(limit).to_multiset().count(v) == if prime(v as int) && v <= limit {
                1nat
            } else {
                0nat
            },
    decreases limit,
{
    broadcast use {group_to_multiset_ensures, group_multiset_axioms, group_multiset_properties};

    if limit >= 2 {
        lemma_primes_up_to((limit - 1) as u64);
    }
}

/// A multiple of `d` is a multiple of every divisor `p` of `d`.
proof fn lemma_divisor_of_divisor(n: int, d: int, p: int)
    requires
        n >= 0,
        d > 0,
        p > 0,
        n % d == 0,
        d % p == 0,
    ensures
        n % p == 0,
{
    let a = n / d;
    let b = d / p;
    assert(n == d * a) by (nonlinear_arith)
        requires
            d > 0,
            n % d == 0,
            a == n / d,
    ;
    assert(d == p * b) by (nonlinear_arith)
        requires
            p > 0,
            d % p == 0,
            b == d / p,
    ;
    assert(n == (b * a) * p) by (nonlinear_arith)
        requires
            n == d * a,
            d == p * b,
    ;
    lemma_mod_multiples_basic(b * a, p);
}

/// A proper divisor `d` of `n` has a cofactor `n / d` that is again a proper
/// divisor of `n`.
proof fn lemma_cofactor(n: int, d: int)
    requires
        2 <= d < n,
        n % d == 0,
    ensures
        2 <= n / d < n,
        n % (n / d) == 0,
        d * (n / d) == n,
{
    let q = n / d;
    assert(d * q == n) by (nonlinear_arith)
        requires
            d > 0,
            n % d == 0,
            q == n / d,
    ;
    assert(2 <= q < n) by (nonlinear_arith)
        requires
            2 <= d < n,
            d * q == n,
    ;
    assert(n % q == 0) by (nonlinear_arith)
        requires
            q > 0,
            d * q == n,
    ;
}

/// With no divisor in `[2, bound)` and `bound` past the square root of `n`,
/// `n` has no proper divisor at all.
proof fn lemma_no_divisor_below_root(n: int, bound: int)
    requires
        n >= 2,
        bound >= 2,
        bound * bound > n,
        forall|d: int| 2 <= d < bound ==> #[trigger] (n % d) != 0,
    ensures
        prime(n),
{
    assert forall|d: int| 2 <= d < n implies #[trigger] (n % d) != 0 by {
        if d >= bound && n % d == 0 {
            lemma_cofactor(n, d);
            let q = n / d;
            assert(q < bound) by (nonlinear_arith)
                requires
                    d >= bound,
                    bound >= 2,
                    d * q == n,
                    bound * bound > n,
            ;
        }
    }
}

/// Whether `number` is prime.
///
/// Trial division: after 2 and 3, only divisors of the forms 6k - 1 and
/// 6k + 1 are tried, up to the square root of `number`. The bound is tested
/// as `i <= number / i`, which is `i * i <= number` without the product, so
/// the answer is right for every `u64`.
pub fn is_prime(number: u64) -> (result: bool)
    ensures
        result == prime(number as int),
        number <= 1 ==> !result,
        number == 2 || number == 3 ==> result,
{
    if number <= 1 {
        return false;
    }
    if number == 2 || number == 3 {
        return true;
    }
    if number % 2 == 0 || number % 3 == 0 {
        return false;
    }
    proof {
        let n = number as int;
        assert forall|d: int| 2 <= d < 5 implies #[trigger] (n % d) != 0 by {
            if d == 4 && n % d == 0 {
                lemma_divisor_of_divisor(n, d, 2);
            }
        }
    }
    let mut i: u64 = 5;
    while i <= number / i
        invariant
            number >= 5,
            5 <= i <= 0x1_0000_0005,
            i % 6 == 5,
            number % 2 != 0,
            number % 3 != 0,
            forall|d: int| 2 <= d < i ==> #[trigger] (number as int % d) != 0,
        decreases 0x1_0000_0006 - i,
    {
        assert(i < 0x1_0000_0000 && i + 2 < number) by (nonlinear_arith)
            requires
                i <= number / i,
                i >= 5,
                number <= u64::MAX,
        ;
        if number % i == 0 || number % (i + 2) == 0 {
            return false;
        }
        proof {
            let n = number as int;
            assert forall|d: int| 2 <= d < i + 6 implies #[trigger] (n % d) != 0 by {
                if d >= i && n % d == 0 {
                    if d == i + 4 {
                        lemma_divisor_of_divisor(n, d, 3);
                    } else if d != i && d != i + 2 {
                        lemma_divisor_of_divisor(n, d, 2);
                    }
                }
            }
        }
        i += 6;
    }
    proof {
        let n = number as int;
        let b = i as int;
        assert(b * b > n) by (nonlinear_arith)
            requires
                b > n / b,
                b > 0,
                n >= 0,
        ;
        lemma_no_divisor_below_root(n, b);
    }
    true
}

} // verus!
