//! Modular exponentiation, multiplicative orders, and primitive roots.

use vstd::prelude::*;

verus! {

use vstd::arithmetic::div_mod::{lemma_mod_bound, lemma_mul_mod_noop_general, lemma_small_mod};
use vstd::arithmetic::power::{
    lemma_pow0,
    lemma_pow_mod_noop,
    lemma_pow_multiplies,
    lemma_square_is_pow2,
    pow,
};

/// The reason a number-theory query yields no number.
#[derive(Clone, Copy, Debug, PartialEq, Eq, Structural)]
pub enum NumberTheoryError {
    /// Modular exponentiation was asked for a result modulo zero.
    ZeroModulus,
    /// A multiplicative order was asked for the base zero.
    ZeroBase,
    /// A multiplicative order was asked modulo a number below two.
    ModulusTooSmall,
    /// No positive exponent up to the modulus returns the base to one, as
    /// happens whenever base and modulus share a factor.
    NoMultiplicativeOrder,
}

/// What modular exponentiation returns: one for exponent zero and the
/// bare base for exponent one, and `x^n mod p` from exponent two on.
pub open spec fn modpow_spec(x: nat, n: nat, p: nat) -> nat
    recommends
        p >= 1,
{
    if n == 0 {
        1
    } else if n == 1 {
        x
    } else {
        (pow(x as int, n) % (p as int)) as nat
    }
}

/// `i` is the multiplicative order of `g` modulo `p`: the smallest
/// positive exponent, at most `p`, whose power returns `g` to one.
pub open spec fn is_order_of(g: nat, p: nat, i: nat) -> bool {
    &&& 1 <= i <= p
    &&& modpow_spec(g, i, p) == 1
    &&& forall|j: nat| 1 <= j < i ==> modpow_spec(g, j, p) != 1
}

/// Modular exponentiation by iterated squaring.
///
/// The modulus zero is rejected; any other modulus yields
/// `modpow_spec(x, n, p)`, so exponent zero gives one, exponent one gives
/// the bare base, and larger exponents give `x^n mod p`.
pub fn exp_with_mod(x: usize, n: usize, p: usize) -> (r: Result<usize, NumberTheoryError>)
    ensures
        p == 0 ==> r == Err::<usize, NumberTheoryError>(NumberTheoryError::ZeroModulus),
        p >= 1 ==> (r matches Ok(v) && v as nat == modpow_spec(x as nat, n as nat, p as nat)),
{
    if p == 0 {
        return Err(NumberTheoryError::ZeroModulus);
    }
    if n == 0 {
        return Ok(1);
    }
    if n == 1 {
        return Ok(x);
    }
    let pw: u128 = p as u128;
    let mut base: u128 = (x as u128) % pw;
    let mut acc: u128 = 1 % pw;
    let mut e: usize = n;
    proof {
        lemma_pow_mod_noop(x as int, n as nat, p as int);
        lemma_mod_bound(x as int, p as int);
        lemma_mod_bound(1, p as int);
        if p == 1 {
            lemma_mod_bound(pow(x as int, n as nat), 1);
            lemma_mod_bound(pow((x as int) % 1, n as nat), 1);
        } else {
            lemma_small_mod(1, p as nat);
        }
    }
    while e > 0
        invariant
            1 <= p,
            pw == p as u128,
            base < pw,
            acc < pw,
            (acc as int * pow(base as int, e as nat)) % (p as int) == pow(x as int, n as nat) % (
            p as int),
        decreases e,
    {
        proof {
            assert((acc as int) * (base as int) < 0x1_0000_0000_0000_0000_0000_0000_0000_0000)
                by (nonlinear_arith)
                requires
                    (acc as int) <= 0xffff_ffff_ffff_ffff,
                    (base as int) <= 0xffff_ffff_ffff_ffff,
                    acc >= 0,
                    base >= 0,
            ;
            assert((base as int) * (base as int) < 0x1_0000_0000_0000_0000_0000_0000_0000_0000)
                by (nonlinear_arith)
                requires
                    (base as int) <= 0xffff_ffff_ffff_ffff,
                    base >= 0,
            ;
        }
        if e % 2 == 1 {
            proof {
                reveal(pow);
                assert(pow(base as int, e as nat) == base as int * pow(base as int, (e - 1) as nat));
                lemma_mul_mod_noop_general(
                    acc as int * base as int,
                    pow(base as int, (e - 1) as nat),
                    p as int,
                );
                assert((acc as int * base as int) * pow(base as int, (e - 1) as nat) == acc as int
                    * pow(base as int, e as nat)) by (nonlinear_arith)
                    requires
                        pow(base as int, e as nat) == base as int * pow(
                            base as int,
                            (e - 1) as nat,
                        ),
                ;
                lemma_mod_bound(acc as int * base as int, p as int);
            }
            acc = (acc * base) % pw;
            e = e - 1;
        } else {
            proof {
                lemma_pow_multiplies(base as int, 2, (e / 2) as nat);
                lemma_square_is_pow2(base as int);
                lemma_pow_mod_noop(base as int * base as int, (e / 2) as nat, p as int);
                lemma_mul_mod_noop_general(
                    acc as int,
                    pow(base as int * base as int, (e / 2) as nat),
                    p as int,
                );
                lemma_mul_mod_noop_general(
                    acc as int,
                    pow((base as int * base as int) % (p as int), (e / 2) as nat),
                    p as int,
                );
                lemma_mod_bound(base as int * base as int, p as int);
            }
            base = (base * base) % pw;
            e = e / 2;
        }
    }
    proof {
        lemma_pow0(base as int);
        lemma_small_mod(acc as nat, p as nat);
    }
    Ok(acc as usize)
}

/// The multiplicative order of `g` modulo `p`, by linear scan.
///
/// The base zero and moduli below two are rejected outright. Otherwise
/// the smallest exponent in `[1, p]` whose power returns `g` to one comes
/// back; when no exponent in that range does — as happens whenever `g`
/// and `p` share a factor — the scan reports that no order exists. The
/// scan keeps a running power instead of recomputing each one, and every
/// running value is proved equal to the corresponding modular power.
pub fn find_order_of(g: usize, p: usize) -> (r: Result<usize, NumberTheoryError>)
    ensures
        g == 0 ==> r == Err::<usize, NumberTheoryError>(NumberTheoryError::ZeroBase),
        g >= 1 && p < 2 ==> r == Err::<usize, NumberTheoryError>(
            NumberTheoryError::ModulusTooSmall,
        ),
        g >= 1 && p >= 2 ==> match r {
            Ok(i) => is_order_of(g as nat, p as nat, i as nat),
            Err(e) => {
                &&& e == NumberTheoryError::NoMultiplicativeOrder
                &&& forall|i: nat| 1 <= i <= p ==> modpow_spec(g as nat, i, p as nat) != 1
            },
        },
{
    if g == 0 {
        return Err(NumberTheoryError::ZeroBase);
    }
    if p < 2 {
        return Err(NumberTheoryError::ModulusTooSmall);
    }
    if g == 1 {
        return Ok(1);
    }
    let pw: u128 = p as u128;
    let gm: u128 = (g as u128) % pw;
    proof {
        assert((gm as int) * (gm as int) < 0x1_0000_0000_0000_0000_0000_0000_0000_0000)
            by (nonlinear_arith)
            requires
                (gm as int) <= 0xffff_ffff_ffff_ffff,
                gm >= 0,
        ;
        lemma_mod_bound(g as int, p as int);
        lemma_mod_bound((gm as int) * (gm as int), p as int);
        lemma_square_is_pow2(g as int);
        lemma_mul_mod_noop_general(g as int, g as int, p as int);
    }
    let mut acc: u128 = (gm * gm) % pw;
    let mut i: usize = 2;
    while i < p
        invariant
            2 <= g,
            2 <= p,
            pw == p as u128,
            gm == (g as u128) % pw,
            gm < pw,
            2 <= i <= p,
            acc < pw,
            acc as int == pow(g as int, i as nat) % (p as int),
            forall|j: nat| 1 <= j < i ==> modpow_spec(g as nat, j, p as nat) != 1,
        decreases p - i,
    {
        if acc == 1 {
            return Ok(i);
        }
        proof {
            assert((acc as int) * (gm as int) < 0x1_0000_0000_0000_0000_0000_0000_0000_0000)
                by (nonlinear_arith)
                requires
                    (acc as int) <= 0xffff_ffff_ffff_ffff,
                    (gm as int) <= 0xffff_ffff_ffff_ffff,
                    acc >= 0,
                    gm >= 0,
            ;
            reveal(pow);
            assert(pow(g as int, (i + 1) as nat) == (g as int) * pow(g as int, i as nat));
            lemma_mul_mod_noop_general(pow(g as int, i as nat), g as int, p as int);
            lemma_mod_bound((acc as int) * (gm as int), p as int);
        }
        acc = (acc * gm) % pw;
        i += 1;
    }
    if acc == 1 {
        return Ok(p);
    }
    Err(NumberTheoryError::NoMultiplicativeOrder)
}

/// All generators of the multiplicative group modulo `p`, ascending.
///
/// Intended for a prime modulus: the result lists exactly those `g` in
/// `[1, p)` whose multiplicative order is `p - 1`, in ascending order.
/// For a composite modulus the same description holds, and candidates
/// without any order are simply not generators.
pub fn generators_of_int_mod(p: usize) -> (r: Vec<usize>)
    ensures
        forall|u: int, v: int| 0 <= u < v < r@.len() ==> r@[u] < r@[v],
        forall|u: int| 0 <= u < r@.len() ==> 1 <= #[trigger] r@[u] && r@[u] < p,
        forall|g: usize|
            1 <= g < p ==> (r@.contains(g) <==> is_order_of(g as nat, p as nat, (p - 1) as nat)),
{
    let mut result: Vec<usize> = Vec::new();
    let mut g: usize = 1;
    while g < p
        invariant
            1 <= g,
            g <= p || g == 1,
            forall|u: int, v: int| 0 <= u < v < result@.len() ==> result@[u] < result@[v],
            forall|u: int| 0 <= u < result@.len() ==> 1 <= #[trigger] result@[u] && result@[u] < g,
            forall|h: usize|
                1 <= h < g ==> (result@.contains(h) <==> is_order_of(
                    h as nat,
                    p as nat,
                    (p - 1) as nat,
                )),
        decreases p - g,
    {
        match find_order_of(g, p) {
            Ok(i) => {
                if i == p - 1 {
                    let ghost prev = result@;
                    result.push(g);
                    proof {
                        assert forall|h: usize| 1 <= h < g + 1 implies (result@.contains(h)
                            <==> is_order_of(h as nat, p as nat, (p - 1) as nat)) by {
                            if h < g {
                                if prev.contains(h) {
                                    let u = choose|u: int|
                                        0 <= u < prev.len() && prev[u] == h;
                                    assert(result@[u] == h);
                                }
                                if result@.contains(h) {
                                    let u = choose|u: int|
                                        0 <= u < result@.len() && result@[u] == h;
                                    assert(prev[u] == h);
                                }
                            } else {
                                assert(result@[prev.len() as int] == g);
                            }
                        }
                    }
                } else {
                    proof {
                        if is_order_of(g as nat, p as nat, (p - 1) as nat) {
                            if (i as int) < p - 1 {
                                assert(modpow_spec(g as nat, i as nat, p as nat) != 1);
                            } else {
                                assert(modpow_spec(g as nat, (p - 1) as nat, p as nat) != 1);
                            }
                            assert(false);
                        }
                    }
                }
            },
            Err(_) => {
                proof {
                    if is_order_of(g as nat, p as nat, (p - 1) as nat) {
                        assert(modpow_spec(g as nat, (p - 1) as nat, p as nat) != 1);
                        assert(false);
                    }
                }
            },
        }
        g += 1;
    }
    result
}

} // verus!
