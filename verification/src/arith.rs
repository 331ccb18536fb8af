//! Divisibility and coprimality: the facts key generation rests on.
//!
//! A private key must share no divisor with the message modulus.  The
//! executable test is Euclid's algorithm on the key's residue; the lemmas
//! here connect that computation to the specification-level notion of
//! coprimality.

use vstd::prelude::*;
use vstd::arithmetic::div_mod::{lemma_fundamental_div_mod, lemma_mod_bound};

verus! {

/// `d` divides `a`.
pub open spec fn divides(d: int, a: int) -> bool {
    exists|k: int| a == #[trigger] (d * k)
}

/// `a` and `b` have no common divisor of 2 or more.
pub open spec fn coprime(a: int, b: int) -> bool {
    forall|d: int| 2 <= d ==> !(#[trigger] divides(d, a) && divides(d, b))
}

/// Nothing of 2 or more divides 1.
pub proof fn lemma_unit_has_no_big_divisor(d: int)
    requires
        2 <= d,
    ensures
        !divides(d, 1),
{
    if divides(d, 1) {
        let k = choose|k: int| 1 == #[trigger] (d * k);
        assert(false) by (nonlinear_arith)
            requires
                2 <= d,
                1 == d * k,
        ;
    }
}

/// For positive `y`, the common divisors of `x` and `y` are exactly the
/// common divisors of `x % y` and `y`.
pub proof fn lemma_divides_mod(d: int, x: int, y: int)
    requires
        1 <= d,
        0 < y,
    ensures
        divides(d, x) && divides(d, y) ==> divides(d, x % y),
        divides(d, y) && divides(d, x % y) ==> divides(d, x),
{
    lemma_fundamental_div_mod(x, y);
    let quot = x / y;
    if divides(d, x) && divides(d, y) {
        let kx = choose|k: int| x == #[trigger] (d * k);
        let ky = choose|k: int| y == #[trigger] (d * k);
        assert(x % y == d * (kx - ky * quot)) by (nonlinear_arith)
            requires
                x == d * kx,
                y == d * ky,
                x % y == x - y * quot,
        ;
    }
    if divides(d, y) && divides(d, x % y) {
        let ky = choose|k: int| y == #[trigger] (d * k);
        let kr = choose|k: int| x % y == #[trigger] (d * k);
        assert(x == d * (ky * quot + kr)) by (nonlinear_arith)
            requires
                y == d * ky,
                x % y == d * kr,
                x == y * quot + x % y,
        ;
    }
}

/// Coprimality to `n` is decided by the residue modulo `n`.
pub proof fn lemma_coprime_mod(a: int, n: int)
    requires
        0 <= a,
        1 <= n,
    ensures
        coprime(a % n, n) <==> coprime(a, n),
{
    if coprime(a % n, n) {
        assert forall|d: int| 2 <= d implies !(#[trigger] divides(d, a) && divides(d, n)) by {
            lemma_divides_mod(d, a, n);
        }
    }
    if coprime(a, n) {
        assert forall|d: int| 2 <= d implies !(#[trigger] divides(d, a % n) && divides(
            d,
            n,
        )) by {
            lemma_divides_mod(d, a, n);
        }
    }
}

/// A number congruent to 1 modulo `n` is coprime to `n`.
pub proof fn lemma_coprime_of_unit_residue(a: int, n: int)
    requires
        0 <= a,
        2 <= n,
        a % n == 1,
    ensures
        coprime(a, n),
{
    assert forall|d: int| 2 <= d implies !(#[trigger] divides(d, a) && divides(d, n)) by {
        lemma_divides_mod(d, a, n);
        lemma_unit_has_no_big_divisor(d);
    }
}

/// A number coprime to 2 is odd.
pub proof fn lemma_coprime_two_odd(a: int)
    requires
        0 <= a,
        coprime(a, 2),
    ensures
        a % 2 == 1,
{
    lemma_mod_bound(a, 2);
    if a % 2 == 0 {
        lemma_fundamental_div_mod(a, 2);
        assert(a == 2 * (a / 2));
        assert(divides(2, a));
        assert(2 == 2 * 1);
        assert(divides(2, 2));
        assert(false);
    }
}

/// Euclid's algorithm.  The result has exactly the common divisors of the
/// two arguments, which is what the coprimality test needs.
pub fn gcd_usize(a: usize, b: usize) -> (g: usize)
    ensures
        forall|d: int|
            2 <= d ==> ((divides(d, a as int) && divides(d, b as int)) <==> #[trigger] divides(
                d,
                g as int,
            )),
{
    let mut x: usize = a;
    let mut y: usize = b;
    while y != 0
        invariant
            forall|d: int|
                2 <= d ==> ((divides(d, a as int) && divides(d, b as int)) <==> (#[trigger] divides(
                    d,
                    x as int,
                ) && divides(d, y as int))),
        decreases y,
    {
        let t: usize = x % y;
        proof {
            assert forall|d: int| 2 <= d implies ((divides(d, a as int) && divides(d, b as int))
                <==> (#[trigger] divides(d, y as int) && divides(d, t as int))) by {
                assert((divides(d, a as int) && divides(d, b as int)) <==> (divides(d, x as int)
                    && divides(d, y as int)));
                lemma_divides_mod(d, x as int, y as int);
            }
        }
        x = y;
        y = t;
    }
    proof {
        assert forall|d: int| 2 <= d implies #[trigger] divides(d, 0int) by {
            assert(0int == d * 0);
        }
    }
    x
}

/// The coprimality test used by key generation: `a` and `b` are coprime
/// exactly when their greatest common divisor is 1.
pub fn is_coprime_usize(a: usize, b: usize) -> (r: bool)
    ensures
        r == coprime(a as int, b as int),
{
    let g = gcd_usize(a, b);
    proof {
        if g == 1 {
            assert forall|d: int| 2 <= d implies !(#[trigger] divides(d, a as int) && divides(
                d,
                b as int,
            )) by {
                lemma_unit_has_no_big_divisor(d);
            }
        } else if g == 0 {
            assert(0int == 2 * 0);
            assert(divides(2, g as int));
            assert(divides(2, a as int) && divides(2, b as int));
            assert(!coprime(a as int, b as int));
        } else {
            assert(g as int == g as int * 1);
            assert(divides(g as int, g as int));
            assert(divides(g as int, a as int) && divides(g as int, b as int));
            assert(!coprime(a as int, b as int));
        }
    }
    g == 1
}

} // verus!
