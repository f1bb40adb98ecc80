//! Square roots modulo a prime: one root of each parity.

use vstd::prelude::*;
use vstd::arithmetic::div_mod::{lemma_fundamental_div_mod, lemma_mod_multiples_basic};

verus! {

/// `m` is prime.
pub open spec fn is_prime(m: nat) -> bool {
    m > 1 && forall|d: nat| 1 < d < m ==> #[trigger] (m % d) != 0
}

/// Euclid's lemma: a prime that divides `a * b`, with `0 < a < m`, divides `b`.
pub proof fn lemma_euclid(m: nat, a: nat, b: nat)
    requires
        is_prime(m),
        0 < a < m,
        (a * b) % m == 0,
    ensures
        b % m == 0,
    decreases a,
{
    if a == 1 {
        assert(a * b == b);
    } else {
        let q = m / a;
        let r = m % a;
        assert(r != 0);
        lemma_fundamental_div_mod(m as int, a as int);
        lemma_fundamental_div_mod((a * b) as int, m as int);
        let k = (a * b) / m;
        assert((r * b) as int == m * (b - q * k)) by (nonlinear_arith)
            requires
                m == a * q + r,
                a * b == m * k,
        ;
        lemma_mod_multiples_basic(b - q * k, m as int);
        assert(m * (b - q * k) == (b - q * k) * m) by (nonlinear_arith);
        lemma_euclid(m, r, b);
    }
}

/// Modulo an odd prime, two residues with one square and one parity are equal.
pub proof fn lemma_root_of_parity_unique(m: nat, y1: nat, y2: nat)
    requires
        is_prime(m),
        m % 2 == 1,
        y1 < m,
        y2 < m,
        (y1 * y1) % m == (y2 * y2) % m,
        y1 % 2 == y2 % 2,
    ensures
        y1 == y2,
{
    if y1 != y2 {
        let hi = if y1 > y2 { y1 } else { y2 };
        let lo = if y1 > y2 { y2 } else { y1 };
        let a = (hi - lo) as nat;
        let s = hi + lo;
        lemma_fundamental_div_mod((hi * hi) as int, m as int);
        lemma_fundamental_div_mod((lo * lo) as int, m as int);
        let q1 = (hi * hi) / m;
        let q2 = (lo * lo) / m;
        assert(a * s == (q1 - q2) * m) by (nonlinear_arith)
            requires
                a == hi - lo,
                s == hi + lo,
                hi * hi == m * q1 + (hi * hi) % m,
                lo * lo == m * q2 + (lo * lo) % m,
                (hi * hi) % m == (lo * lo) % m,
        ;
        lemma_mod_multiples_basic(q1 - q2, m as int);
        lemma_euclid(m, a, s);
        lemma_fundamental_div_mod(s as int, m as int);
        let k = s / m;
        assert(k == 1) by (nonlinear_arith)
            requires
                s == m * k,
                0 < s < 2 * m,
        ;
        assert(hi + lo == m);
        assert(hi % 2 == lo % 2);
        assert((hi + lo) % 2 == (hi % 2 + lo % 2) % 2);
    }
}

} // verus!
