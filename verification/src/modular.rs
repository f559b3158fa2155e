//! Arithmetic in the prime field `Z/p`, with field elements carried as
//! `u128` values in `[0, p)`. The modulus is a runtime parameter, so the
//! gadgets stay field-agnostic; it must fit in 127 bits so that sums of
//! two reduced values never overflow a `u128`.

use vstd::prelude::*;
use vstd::arithmetic::div_mod::*;
use vstd::arithmetic::mul::*;

verus! {

/// Upper bound on moduli: sums of two reduced values must fit in a `u128`.
pub const MAX_MODULUS: u128 = 0x8000_0000_0000_0000_0000_0000_0000_0000;

/// A prime modulus: at least 2, and no integer in `[2, p)` divides it.
pub open spec fn is_prime(p: int) -> bool {
    p >= 2 && forall|d: int| 2 <= d < p ==> #[trigger] (p % d) != 0
}

/// Greatest common divisor, by Euclid's recursion.
pub open spec fn gcd(a: nat, b: nat) -> nat
    decreases b,
{
    if b == 0 {
        a
    } else {
        gcd(b, a % b)
    }
}

/// The gcd of `a > 0` and `b` is positive and divides both arguments.
pub proof fn lemma_gcd_divides(a: nat, b: nat)
    requires
        a > 0,
    ensures
        gcd(a, b) > 0,
        a % gcd(a, b) == 0,
        b % gcd(a, b) == 0,
    decreases b,
{
    let g = gcd(a, b);
    if b == 0 {
        lemma_mod_self_0(a as int);
        lemma_small_mod(0, a);
    } else {
        lemma_mod_division_less_than_divisor(a as int, b as int);
        lemma_gcd_divides(b, a % b);
        assert(g == gcd(b, a % b));
        assert(b % g == 0 && (a % b) % g == 0 && g > 0);
        lemma_fundamental_div_mod(a as int, b as int);
        let q = a as int / b as int;
        assert(a as int == q * (b as int) + (a as int % b as int));
        // q * b is a multiple of g, since b is.
        lemma_mul_mod_noop_right(q, b as int, g as int);
        assert((q * (b as int)) % g as int == (q * ((b as int) % g as int)) % g as int);
        assert((q * (b as int)) % g as int == 0) by {
            lemma_mod_of_zero_is_zero(g as int);
        }
        lemma_add_mod_noop(q * (b as int), a as int % b as int, g as int);
        assert((a as int) % g as int == 0) by {
            lemma_mod_of_zero_is_zero(g as int);
        }
    }
}

proof fn lemma_mod_of_zero_is_zero(m: int)
    requires
        m > 0,
    ensures
        0int % m == 0,
{
    lemma_small_mod(0, m as nat);
}

/// A prime is coprime to every smaller positive integer.
pub proof fn lemma_prime_gcd_one(p: nat, v: nat)
    requires
        is_prime(p as int),
        0 < v < p,
    ensures
        gcd(p, v) == 1,
{
    lemma_gcd_divides(p, v);
    let g = gcd(p, v);
    if g >= 2 {
        if g < p {
            assert(p as int % g as int != 0);
            assert(false);
        } else {
            lemma_small_mod(v, g);
            assert(false);
        }
    }
}

/// Descending Euclid, carried out in ghost code: a pair of remainders
/// with gcd 1, each congruent to a multiple of `v`, yields an inverse
/// of `v` modulo `p`.
proof fn lemma_bezout_step(p: int, v: int, r0: int, r1: int, s0: int, s1: int)
    requires
        2 <= p,
        0 < v < p,
        0 < r0 <= p,
        0 <= r1 <= p,
        0 <= s0 < p,
        0 <= s1 < p,
        gcd(r0 as nat, r1 as nat) == 1,
        (s0 * v) % p == r0 % p,
        (s1 * v) % p == r1 % p,
    ensures
        exists|s: int| 0 <= s < p && #[trigger] ((s * v) % p) == 1,
    decreases r1,
{
    if r1 == 0 {
        assert(gcd(r0 as nat, 0) == r0 as nat);
        assert(r0 == 1);
        lemma_small_mod(1, p as nat);
        assert(0 <= s0 < p && (s0 * v) % p == 1);
    } else {
        let q = r0 / r1;
        let r2 = r0 % r1;
        let s2 = (s0 - q * s1) % p;
        lemma_mod_division_less_than_divisor(r0, r1);
        lemma_mod_division_less_than_divisor(s0 - q * s1, p);
        assert(gcd(r1 as nat, r2 as nat) == gcd(r0 as nat, r1 as nat));
        // Bezout step: s2 * v == (s0 - q * s1) * v == r0 - q * r1 == r2 (mod p).
        lemma_mul_mod_noop_left(s0 - q * s1, v, p);
        assert((s2 * v) % p == ((s0 - q * s1) * v) % p);
        lemma_mul_is_distributive_sub_other_way(v, s0, q * s1);
        assert((s0 - q * s1) * v == s0 * v - (q * s1) * v);
        lemma_mul_is_associative(q, s1, v);
        lemma_sub_mod_noop(s0 * v, q * (s1 * v), p);
        lemma_mul_mod_noop_right(q, s1 * v, p);
        lemma_mul_mod_noop_right(q, r1 % p, p);
        lemma_mul_mod_noop_right(q, r1, p);
        lemma_mod_twice(r1, p);
        assert((q * (s1 * v)) % p == (q * r1) % p);
        lemma_sub_mod_noop(r0, q * r1, p);
        lemma_mod_twice(r0, p);
        assert((s0 * v - q * (s1 * v)) % p == (r0 - q * r1) % p);
        lemma_fundamental_div_mod(r0, r1);
        assert(r0 - q * r1 == r2) by {
            lemma_mul_is_commutative(r1, q);
        }
        assert((s2 * v) % p == r2 % p);
        lemma_bezout_step(p, v, r1, r2, s1, s2);
    }
}

/// Every nonzero residue has a multiplicative inverse modulo a prime.
pub proof fn lemma_inverse_exists(p: int, v: int)
    requires
        is_prime(p),
        0 < v < p,
    ensures
        exists|s: int| 0 <= s < p && #[trigger] ((s * v) % p) == 1,
{
    lemma_prime_gcd_one(p as nat, v as nat);
    lemma_mod_self_0(p);
    lemma_small_mod(0, p as nat);
    lemma_small_mod(v as nat, p as nat);
    lemma_mul_basics(v);
    lemma_bezout_step(p, v, p, v, 0, 1);
}

/// A prime field has no zero divisors: a vanishing product of reduced
/// values has a vanishing factor.
pub proof fn lemma_prime_zero_product(p: int, a: int, b: int)
    requires
        is_prime(p),
        0 <= a < p,
        0 <= b < p,
        (a * b) % p == 0,
    ensures
        a == 0 || b == 0,
{
    if a != 0 && b != 0 {
        lemma_inverse_exists(p, a);
        let s = choose|s: int| 0 <= s < p && #[trigger] ((s * a) % p) == 1;
        // b == (1 * b) % p == ((s * a) % p * b) % p == (s * (a * b)) % p == 0
        lemma_mul_is_associative(s, a, b);
        lemma_mul_mod_noop_left(s * a, b, p);
        lemma_mul_basics(b);
        lemma_small_mod(b as nat, p as nat);
        assert((s * (a * b)) % p == b);
        lemma_mul_mod_noop_right(s, a * b, p);
        lemma_mul_basics(s);
        lemma_small_mod(0, p as nat);
        assert((s * (a * b)) % p == 0);
        assert(false);
    }
}

/// For reduced values, the residue of a difference is zero exactly on
/// equal arguments.
pub proof fn lemma_sub_mod_eq_zero(a: int, b: int, p: int)
    requires
        0 < p,
        0 <= a < p,
        0 <= b < p,
    ensures
        ((a - b) % p == 0) <==> a == b,
{
    if a == b {
        lemma_small_mod(0, p as nat);
    } else if a > b {
        lemma_small_mod((a - b) as nat, p as nat);
    } else {
        lemma_mod_add_multiples_vanish(a - b, p);
        lemma_small_mod((a - b + p) as nat, p as nat);
    }
}

/// Modular addition of two reduced values.
pub fn add_mod(a: u128, b: u128, p: u128) -> (r: u128)
    requires
        0 < p <= MAX_MODULUS,
        a < p,
        b < p,
    ensures
        r == (a + b) % (p as int),
        r < p,
{
    let s: u128 = a + b;
    if s >= p {
        proof {
            lemma_mod_sub_multiples_vanish(s as int, p as int);
            lemma_small_mod((s - p) as nat, p as nat);
        }
        s - p
    } else {
        proof {
            lemma_small_mod(s as nat, p as nat);
        }
        s
    }
}

/// Modular subtraction of two reduced values.
pub fn sub_mod(a: u128, b: u128, p: u128) -> (r: u128)
    requires
        0 < p <= MAX_MODULUS,
        a < p,
        b < p,
    ensures
        r == (a - b) % (p as int),
        r < p,
{
    let s: u128 = a + (p - b);
    proof {
        lemma_mod_add_multiples_vanish(a as int - b as int, p as int);
    }
    if s >= p {
        proof {
            lemma_mod_sub_multiples_vanish(s as int, p as int);
            lemma_small_mod((s - p) as nat, p as nat);
        }
        s - p
    } else {
        proof {
            lemma_small_mod(s as nat, p as nat);
        }
        s
    }
}

/// Modular multiplication by binary double-and-add, so that no
/// intermediate product overflows a `u128`.
pub fn mul_mod(a: u128, b: u128, p: u128) -> (r: u128)
    requires
        0 < p <= MAX_MODULUS,
        a < p,
        b < p,
    ensures
        r == (a * b) % (p as int),
        r < p,
{
    let mut acc: u128 = 0;
    let mut x: u128 = a;
    let mut y: u128 = b;
    proof {
        lemma_small_mod(0, p as nat);
    }
    while y > 0
        invariant
            0 < p <= MAX_MODULUS,
            acc < p,
            x < p,
            (acc + x * y) % (p as int) == (a * b) % (p as int),
        decreases y,
    {
        let ghost acc0 = acc as int;
        let ghost x0 = x as int;
        let ghost y0 = y as int;
        if y % 2 == 1 {
            acc = add_mod(acc, x, p);
            proof {
                // acc' + x * (y - 1) == acc0 + x * y - x, and adding x mod p
                // commutes with the outer mod.
                lemma_add_mod_noop_right(x0 * (y0 - 1), acc0 + x0, p as int);
                lemma_add_mod_noop_right(x0 * (y0 - 1), (acc0 + x0) % (p as int), p as int);
                lemma_mul_is_distributive_sub(x0, y0, 1);
                assert((acc as int + x0 * (y0 - 1)) % (p as int) == (acc0 + x0 * y0) % (
                p as int));
            }
            y = y - 1;
        }
        let ghost acc1 = acc as int;
        let ghost y1 = y as int;
        assert(y1 % 2 == 0);
        let half: u128 = y / 2;
        x = add_mod(x, x, p);
        y = half;
        proof {
            // x doubles while y halves: x1 * y1 == (2 x0) * (y1 / 2).
            assert(y1 == 2 * (y1 / 2)) by {
                lemma_fundamental_div_mod(y1, 2);
            }
            assert(x0 * y1 == (x0 + x0) * (y1 / 2)) by (nonlinear_arith)
                requires
                    y1 == 2 * (y1 / 2),
            ;
            lemma_add_mod_noop_right(acc1, (x0 + x0) * (y1 / 2), p as int);
            lemma_mul_mod_noop_left(x0 + x0, y1 / 2, p as int);
            lemma_add_mod_noop_right(acc1, ((x0 + x0) % (p as int)) * (y1 / 2), p as int);
        }
    }
    proof {
        lemma_mul_basics_2(x as int);
        lemma_small_mod(acc as nat, p as nat);
    }
    acc
}

/// Modular inverse by the extended Euclidean algorithm, with the Bezout
/// coefficient tracked modulo `p`. Termination and correctness rest on
/// `gcd(p, v) == 1`, which `lemma_prime_gcd_one` gives for a prime modulus.
pub fn inv_mod(v: u128, p: u128) -> (r: u128)
    requires
        0 < p <= MAX_MODULUS,
        is_prime(p as int),
        0 < v < p,
    ensures
        r < p,
        (v * r) % (p as int) == 1,
{
    let mut r0: u128 = p;
    let mut r1: u128 = v;
    let mut s0: u128 = 0;
    let mut s1: u128 = 1;
    proof {
        lemma_prime_gcd_one(p as nat, v as nat);
        lemma_small_mod(0, p as nat);
        lemma_mod_self_0(p as int);
        lemma_small_mod(v as nat, p as nat);
        lemma_mul_basics_3(v as int);
        lemma_mul_basics_1(v as int);
    }
    while r1 > 0
        invariant
            0 < p <= MAX_MODULUS,
            is_prime(p as int),
            0 < v < p,
            r0 > 0,
            r1 <= p,
            r0 <= p,
            s0 < p,
            s1 < p,
            (s0 * v) % (p as int) == r0 as int % (p as int),
            (s1 * v) % (p as int) == r1 as int % (p as int),
            gcd(r0 as nat, r1 as nat) == 1,
        decreases r1,
    {
        let ghost gr0 = r0 as int;
        let ghost gr1 = r1 as int;
        let ghost gs0 = s0 as int;
        let ghost gs1 = s1 as int;
        let q: u128 = r0 / r1;
        let r2: u128 = r0 % r1;
        // s2 = s0 - q * s1  (mod p)
        let qm: u128 = q % p;
        let t: u128 = mul_mod(qm, s1, p);
        let s2: u128 = sub_mod(s0, t, p);
        proof {
            lemma_mod_division_less_than_divisor(gr0, gr1);
            lemma_div_pos_is_pos(gr0, gr1);
            // gcd is preserved: gcd(r1, r0 % r1) == gcd(r0, r1) by definition.
            assert(gcd(gr1 as nat, (gr0 % gr1) as nat) == gcd(gr0 as nat, gr1 as nat));
            // Bezout step: s2 * v == (s0 - q * s1) * v == r0 - q * r1 == r2 (mod p).
            lemma_mul_mod_noop_left(q as int, gs1, p as int);
            assert(t as int == (q as int * gs1) % (p as int));
            lemma_sub_mod_noop_right(gs0, q as int * gs1, p as int);
            assert(s2 as int == (gs0 - q as int * gs1) % (p as int));
            lemma_mul_mod_noop_left(gs0 - q as int * gs1, v as int, p as int);
            assert((s2 as int * v as int) % (p as int) == ((gs0 - q as int * gs1) * v as int)
                % (p as int));
            lemma_mul_is_distributive_sub_other_way(v as int, gs0, q as int * gs1);
            assert((gs0 - q as int * gs1) * v as int == gs0 * v as int - (q as int * gs1)
                * v as int);
            lemma_mul_is_associative(q as int, gs1, v as int);
            // Replace s0 * v and q * (s1 * v) by their residues.
            lemma_sub_mod_noop(gs0 * v as int, q as int * (gs1 * v as int), p as int);
            lemma_mul_mod_noop_right(q as int, gs1 * v as int, p as int);
            lemma_mul_mod_noop_right(q as int, gr1 % (p as int), p as int);
            lemma_mul_mod_noop_right(q as int, gr1, p as int);
            lemma_mod_twice(gr1, p as int);
            assert((q as int * (gs1 * v as int)) % (p as int) == (q as int * gr1) % (
            p as int));
            lemma_sub_mod_noop(gr0, q as int * gr1, p as int);
            lemma_mod_twice(gr0, p as int);
            assert((gs0 * v as int - q as int * (gs1 * v as int)) % (p as int) == (gr0
                - q as int * gr1) % (p as int));
            lemma_fundamental_div_mod(gr0, gr1);
            assert(gr0 - q as int * gr1 == r2 as int) by {
                lemma_mul_is_commutative(gr1, q as int);
            }
            assert((s2 as int * v as int) % (p as int) == r2 as int % (p as int));
        }
        r0 = r1;
        r1 = r2;
        s0 = s1;
        s1 = s2;
    }
    proof {
        assert(gcd(r0 as nat, 0) == r0 as nat);
        assert(r0 == 1);
        lemma_small_mod(1, p as nat);
        lemma_mul_is_commutative(v as int, s0 as int);
    }
    s0
}

} // verus!
