//! Divisibility and the greatest common divisor.
//!
//! `gcd_spec` is Euclid's recursion; the executable `gcd` runs Stein's
//! binary algorithm and is proved to return `gcd_spec`. The lemmas below
//! establish that `gcd_spec` is the greatest common divisor: it divides
//! both arguments and every common divisor divides it.

use vstd::prelude::*;

verus! {

use vstd::arithmetic::div_mod::{
    lemma_add_mod_noop,
    lemma_fundamental_div_mod,
    lemma_mod_multiples_basic,
    lemma_mod_self_0,
    lemma_small_mod,
    lemma_sub_mod_noop,
    lemma_truncate_middle,
};

/// `d` divides `n`: some multiple of `d` equals `n`.
pub open spec fn divides(d: nat, n: nat) -> bool {
    if d == 0 {
        n == 0
    } else {
        n % d == 0
    }
}

/// The greatest common divisor, by Euclid's recursion.
pub open spec fn gcd_spec(a: nat, b: nat) -> nat
    decreases b,
{
    if b == 0 {
        a
    } else {
        gcd_spec(b, a % b)
    }
}

/// A divisor of a positive number is positive and no larger than it.
pub proof fn lemma_divides_le(d: nat, n: nat)
    requires
        divides(d, n),
        n > 0,
    ensures
        1 <= d <= n,
{
    if d > n {
        lemma_small_mod(n, d);
    }
}

/// Every number divides its multiples.
pub proof fn lemma_divides_mul(d: nat, k: nat)
    ensures
        divides(d, d * k),
{
    if d > 0 {
        lemma_mod_multiples_basic(k as int, d as int);
        assert(d * k == k * d) by (nonlinear_arith);
    } else {
        assert(d * k == 0) by (nonlinear_arith)
            requires
                d == 0,
        ;
    }
}

/// A divisor of `n` reaches `n` by the quotient: `n == d * (n / d)`.
pub proof fn lemma_divides_witness(d: nat, n: nat)
    requires
        divides(d, n),
        d > 0,
    ensures
        n == d * (n / d),
{
    lemma_fundamental_div_mod(n as int, d as int);
}

/// A divisor of a number divides all multiples of that number.
proof fn lemma_divides_mul_right(d: nat, b: nat, k: nat)
    requires
        divides(d, b),
    ensures
        divides(d, b * k),
{
    if d == 0 {
        assert(b * k == 0) by (nonlinear_arith)
            requires
                b == 0,
        ;
    } else {
        lemma_divides_witness(d, b);
        let j = b / d;
        assert(b * k == d * (j * k)) by (nonlinear_arith)
            requires
                b == d * j,
        ;
        lemma_divides_mul(d, j * k);
    }
}

/// Divisibility carries along a chain.
pub proof fn lemma_divides_transitive(a: nat, b: nat, c: nat)
    requires
        divides(a, b),
        divides(b, c),
    ensures
        divides(a, c),
{
    if b == 0 {
        if a > 0 {
            lemma_small_mod(0, a);
        }
    } else if a > 0 {
        lemma_divides_witness(b, c);
        lemma_divides_witness(a, b);
        let q = c / b;
        let j = b / a;
        assert(c == a * (j * q)) by (nonlinear_arith)
            requires
                c == b * q,
                b == a * j,
        ;
        lemma_divides_mul(a, j * q);
    }
}

/// Divisibility carries over sums.
pub proof fn lemma_divides_add(d: nat, a: nat, b: nat)
    requires
        divides(d, a),
        divides(d, b),
    ensures
        divides(d, a + b),
{
    if d > 0 {
        lemma_add_mod_noop(a as int, b as int, d as int);
        lemma_small_mod(0, d);
    }
}

/// Divisibility carries over differences.
pub proof fn lemma_divides_sub(d: nat, a: nat, b: nat)
    requires
        divides(d, a),
        divides(d, b),
        a <= b,
    ensures
        divides(d, (b - a) as nat),
{
    if d > 0 {
        lemma_sub_mod_noop(b as int, a as int, d as int);
        lemma_small_mod(0, d);
    }
}

/// A common divisor of `a` and `b` divides the remainder `a % b`.
proof fn lemma_divides_mod(d: nat, a: nat, b: nat)
    requires
        divides(d, a),
        divides(d, b),
        b > 0,
    ensures
        divides(d, a % b),
{
    lemma_fundamental_div_mod(a as int, b as int);
    let q = (a / b) as nat;
    lemma_divides_mul_right(d, b, q);
    assert(b * q + a % b == a);
    lemma_divides_sub(d, b * q, a);
    assert((a - b * q) as nat == a % b);
}

/// A common divisor of `b` and `a % b` divides `a`.
proof fn lemma_divides_from_mod(d: nat, a: nat, b: nat)
    requires
        divides(d, b),
        divides(d, a % b),
        b > 0,
    ensures
        divides(d, a),
{
    lemma_fundamental_div_mod(a as int, b as int);
    let q = (a / b) as nat;
    lemma_divides_mul_right(d, b, q);
    lemma_divides_add(d, b * q, a % b);
    assert(b * q + a % b == a);
}

/// The greatest common divisor divides both of its arguments.
pub proof fn lemma_gcd_divides_both(a: nat, b: nat)
    ensures
        divides(gcd_spec(a, b), a),
        divides(gcd_spec(a, b), b),
    decreases b,
{
    if b == 0 {
        if a > 0 {
            lemma_mod_self_0(a as int);
            lemma_small_mod(0, a);
        }
    } else {
        lemma_gcd_divides_both(b, a % b);
        lemma_divides_from_mod(gcd_spec(a, b), a, b);
    }
}

/// Every common divisor of `a` and `b` divides their greatest common
/// divisor.
pub proof fn lemma_gcd_greatest(a: nat, b: nat, d: nat)
    requires
        divides(d, a),
        divides(d, b),
    ensures
        divides(d, gcd_spec(a, b)),
    decreases b,
{
    if b != 0 {
        lemma_divides_mod(d, a, b);
        lemma_gcd_greatest(b, a % b, d);
    }
}

/// Two numbers that divide each other are equal.
proof fn lemma_divides_antisymmetric(a: nat, b: nat)
    requires
        divides(a, b),
        divides(b, a),
    ensures
        a == b,
{
    if a > 0 && b > 0 {
        lemma_divides_le(a, b);
        lemma_divides_le(b, a);
    }
}

/// A common divisor that every common divisor divides is the greatest
/// common divisor.
proof fn lemma_gcd_characterization(a: nat, b: nat, g: nat)
    requires
        divides(g, a),
        divides(g, b),
        forall|d: nat| divides(d, a) && divides(d, b) ==> divides(d, g),
    ensures
        g == gcd_spec(a, b),
{
    lemma_gcd_divides_both(a, b);
    assert(divides(gcd_spec(a, b), g));
    lemma_gcd_greatest(a, b, g);
    lemma_divides_antisymmetric(g, gcd_spec(a, b));
}

/// Zero is neutral: `gcd_spec(a, 0) == a` and `gcd_spec(0, a) == a`.
pub proof fn lemma_gcd_zero(a: nat)
    ensures
        gcd_spec(a, 0) == a,
        gcd_spec(0, a) == a,
{
    if a > 0 {
        lemma_small_mod(0, a);
        assert(gcd_spec(0, a) == gcd_spec(a, 0));
    }
}

/// The greatest common divisor is symmetric in its arguments.
pub proof fn lemma_gcd_commutative(a: nat, b: nat)
    ensures
        gcd_spec(a, b) == gcd_spec(b, a),
{
    let g = gcd_spec(b, a);
    lemma_gcd_divides_both(b, a);
    assert forall|d: nat| divides(d, a) && divides(d, b) implies divides(d, g) by {
        lemma_gcd_greatest(b, a, d);
    }
    lemma_gcd_characterization(a, b, g);
}

/// Among the common divisors of two numbers, not both zero, the greatest
/// common divisor is the largest.
pub proof fn lemma_gcd_largest(a: nat, b: nat, d: nat)
    requires
        divides(d, a),
        divides(d, b),
        a > 0 || b > 0,
    ensures
        d <= gcd_spec(a, b),
{
    lemma_gcd_greatest(a, b, d);
    lemma_gcd_divides_both(a, b);
    if gcd_spec(a, b) == 0 {
        assert(a == 0 && b == 0);
    }
    if d > 0 {
        lemma_divides_le(d, gcd_spec(a, b));
    }
}

/// A shared factor of two comes out of the greatest common divisor.
proof fn lemma_gcd_even_even(a: nat, b: nat)
    ensures
        gcd_spec(2 * a, 2 * b) == 2 * gcd_spec(a, b),
    decreases b,
{
    if b == 0 {
        assert(2 * b == 0);
    } else {
        lemma_truncate_middle(a as int, 2, b as int);
        assert((2 * a) % (2 * b) == 2 * (a % b));
        lemma_gcd_even_even(b, a % b);
        assert(gcd_spec(2 * a, 2 * b) == gcd_spec(2 * b, 2 * (a % b)));
    }
}

/// An odd divisor of a double divides the single.
proof fn lemma_odd_divides_double(d: nat, b: nat)
    requires
        d % 2 == 1,
        divides(d, 2 * b),
    ensures
        divides(d, b),
{
    lemma_divides_witness(d, 2 * b);
    let k = (2 * b) / d;
    if k % 2 == 0 {
        lemma_fundamental_div_mod(k as int, 2);
        let h = (k / 2) as nat;
        assert(b == d * h) by (nonlinear_arith)
            requires
                2 * b == d * k,
                k == 2 * h,
        ;
        lemma_divides_mul(d, h);
    } else {
        lemma_fundamental_div_mod(k as int, 2);
        lemma_fundamental_div_mod(d as int, 2);
        let dh = (d / 2) as nat;
        let kh = (k / 2) as nat;
        assert(d * k == 2 * (2 * dh * kh + dh + kh) + 1) by (nonlinear_arith)
            requires
                d == 2 * dh + 1,
                k == 2 * kh + 1,
        ;
        assert(false);
    }
}

/// A divisor of an odd number is odd.
proof fn lemma_divides_odd(d: nat, a: nat)
    requires
        divides(d, a),
        a % 2 == 1,
    ensures
        d % 2 == 1,
{
    assert(a > 0) by {
        if a == 0 {
            lemma_small_mod(0, 2);
        }
    }
    lemma_divides_witness(d, a);
    if d % 2 == 0 {
        lemma_fundamental_div_mod(d as int, 2);
        let dh = (d / 2) as nat;
        let q = (a / d) as nat;
        assert(a == 2 * (dh * q)) by (nonlinear_arith)
            requires
                a == d * q,
                d == 2 * dh,
        ;
        lemma_mod_multiples_basic((dh * q) as int, 2);
        assert(a % 2 == 0) by {
            assert(a == (dh * q) * 2) by (nonlinear_arith)
                requires
                    a == 2 * (dh * q),
            ;
        }
    }
}

/// Doubling the second argument changes nothing when the first is odd.
proof fn lemma_gcd_odd_even(a: nat, b: nat)
    requires
        a % 2 == 1,
    ensures
        gcd_spec(a, 2 * b) == gcd_spec(a, b),
{
    let g = gcd_spec(a, b);
    lemma_gcd_divides_both(a, b);
    lemma_divides_mul_right(g, b, 2);
    assert(b * 2 == 2 * b);
    assert forall|d: nat| divides(d, a) && divides(d, 2 * b) implies divides(d, g) by {
        lemma_divides_odd(d, a);
        lemma_odd_divides_double(d, b);
        lemma_gcd_greatest(a, b, d);
    }
    lemma_gcd_characterization(a, 2 * b, g);
}

/// Halving an even first argument changes nothing when the second is odd.
proof fn lemma_gcd_even_odd(a: nat, b: nat)
    requires
        b % 2 == 1,
    ensures
        gcd_spec(2 * a, b) == gcd_spec(a, b),
{
    lemma_gcd_commutative(2 * a, b);
    lemma_gcd_odd_even(b, a);
    lemma_gcd_commutative(b, a);
}

/// Subtracting the smaller argument from the larger keeps the greatest
/// common divisor.
proof fn lemma_gcd_sub(a: nat, b: nat)
    requires
        a <= b,
    ensures
        gcd_spec(a, b) == gcd_spec(a, (b - a) as nat),
{
    let c = (b - a) as nat;
    let g = gcd_spec(a, c);
    lemma_gcd_divides_both(a, c);
    lemma_divides_add(g, a, c);
    assert(a + c == b);
    assert forall|d: nat| divides(d, a) && divides(d, b) implies divides(d, g) by {
        lemma_divides_sub(d, a, b);
        lemma_gcd_greatest(a, c, d);
    }
    lemma_gcd_characterization(a, b, g);
}

/// The greatest common divisor, by Stein's binary algorithm.
///
/// Shared factors of two come off both operands first; the surviving odd
/// values then shrink by swap, subtraction and halving until one reaches
/// zero, and the shared factor goes back on at the end.
pub fn gcd(n: usize, m: usize) -> (r: usize)
    ensures
        r as nat == gcd_spec(n as nat, m as nat),
{
    if n == 0 {
        proof {
            lemma_gcd_zero(m as nat);
        }
        return m;
    }
    if m == 0 {
        return n;
    }
    let mut a: usize = n;
    let mut b: usize = m;
    let mut mult: usize = 1;
    while a % 2 == 0 && b % 2 == 0
        invariant
            1 <= a,
            1 <= b,
            1 <= mult,
            mult as nat * a as nat == n as nat,
            mult as nat * b as nat == m as nat,
            gcd_spec(n as nat, m as nat) == mult as nat * gcd_spec(a as nat, b as nat),
        decreases a,
    {
        proof {
            lemma_gcd_even_even((a / 2) as nat, (b / 2) as nat);
            assert(2 * ((a / 2) as nat) == a as nat && 2 * ((b / 2) as nat) == b as nat);
            assert(mult as nat * 2 <= mult as nat * a as nat) by (nonlinear_arith)
                requires
                    2 <= a as nat,
                    1 <= mult as nat,
            ;
            assert((mult as nat * 2) * ((a / 2) as nat) == mult as nat * a as nat
                && (mult as nat * 2) * ((b / 2) as nat) == mult as nat * b as nat
                && (mult as nat * 2) * gcd_spec((a / 2) as nat, (b / 2) as nat) == mult as nat * (
            2 * gcd_spec((a / 2) as nat, (b / 2) as nat))) by (nonlinear_arith)
                requires
                    a as nat == 2 * ((a / 2) as nat),
                    b as nat == 2 * ((b / 2) as nat),
            ;
        }
        a = a / 2;
        b = b / 2;
        mult = mult * 2;
    }
    while a % 2 == 0
        invariant
            1 <= a,
            1 <= b,
            a % 2 == 0 ==> b % 2 == 1,
            gcd_spec(n as nat, m as nat) == mult as nat * gcd_spec(a as nat, b as nat),
        decreases a,
    {
        proof {
            lemma_gcd_even_odd((a / 2) as nat, b as nat);
            assert(2 * ((a / 2) as nat) == a as nat);
        }
        a = a / 2;
    }
    while b % 2 == 0
        invariant
            1 <= a,
            1 <= b,
            a % 2 == 1,
            gcd_spec(n as nat, m as nat) == mult as nat * gcd_spec(a as nat, b as nat),
        decreases b,
    {
        proof {
            lemma_gcd_odd_even(a as nat, (b / 2) as nat);
            assert(2 * ((b / 2) as nat) == b as nat);
        }
        b = b / 2;
    }
    loop
        invariant
            1 <= a,
            1 <= b,
            1 <= n,
            a % 2 == 1,
            b % 2 == 1,
            gcd_spec(n as nat, m as nat) == mult as nat * gcd_spec(a as nat, b as nat),
        decreases a + b,
    {
        if a > b {
            proof {
                lemma_gcd_commutative(a as nat, b as nat);
            }
            let t: usize = a;
            a = b;
            b = t;
        }
        proof {
            lemma_gcd_sub(a as nat, b as nat);
        }
        b = b - a;
        if b == 0 {
            proof {
                lemma_gcd_divides_both(n as nat, m as nat);
                lemma_divides_le(gcd_spec(n as nat, m as nat), n as nat);
            }
            return mult * a;
        }
        let ghost b_entry: usize = b;
        while b % 2 == 0
            invariant
                1 <= a,
                1 <= b,
                b <= b_entry,
                a % 2 == 1,
                gcd_spec(n as nat, m as nat) == mult as nat * gcd_spec(a as nat, b as nat),
            decreases b,
        {
            proof {
                lemma_gcd_odd_even(a as nat, (b / 2) as nat);
                assert(2 * ((b / 2) as nat) == b as nat);
            }
            b = b / 2;
        }
    }
}

} // verus!
