//! Arithmetic of the prime field of size `P`, at the specification level:
//! addition, negation, multiplication, exponentiation and inverses of
//! residues, together with the lemmas the rest of the library builds on.
//!
//! `P = 65537 = 2^16 + 1` is prime, so the nonzero residues form a cyclic
//! group of order `2^16`; `3` generates it.  Every multiplicative subgroup
//! whose order is a power of two up to `2^16` therefore exists, which is
//! what the evaluation domains of the prover require.

use vstd::prelude::*;
use vstd::arithmetic::div_mod::*;
use vstd::arithmetic::mul::*;
use vstd::arithmetic::power2::pow2;

verus! {

/// The field modulus.
pub const P: u64 = 65537;

/// A generator of the multiplicative group of the field.
pub const GEN: u64 = 3;

/// Sum of two residues.
pub open spec fn fadd(a: nat, b: nat) -> nat {
    (a + b) % (P as nat)
}

/// Additive inverse of a residue.
pub open spec fn fneg(a: nat) -> nat {
    (((P as nat) - a % (P as nat)) % (P as int)) as nat
}

/// Difference of two residues.
pub open spec fn fsub(a: nat, b: nat) -> nat {
    fadd(a, fneg(b))
}

/// Product of two residues.
pub open spec fn fmul(a: nat, b: nat) -> nat {
    (a * b) % (P as nat)
}

/// `a^e` in the field.
pub open spec fn fpow(a: nat, e: nat) -> nat
    decreases e,
{
    if e == 0 {
        1
    } else {
        fmul(a, fpow(a, (e - 1) as nat))
    }
}

/// `a^(2^k)` in the field, by repeated squaring: a ladder whose steps
/// the concrete generator facts unfold one at a time.
pub open spec fn fpow2(a: nat, k: nat) -> nat
    decreases k,
{
    if k == 0 {
        a % (P as nat)
    } else {
        let h = fpow2(a, (k - 1) as nat);
        fmul(h, h)
    }
}

/// `b` is the multiplicative inverse of `a`.
pub open spec fn is_inv(a: nat, b: nat) -> bool {
    b < (P as nat) && fmul(a, b) == 1
}

/// The multiplicative inverse of a nonzero residue; `0` maps to `0`.
pub open spec fn finv(a: nat) -> nat {
    if exists|b: nat| is_inv(a, b) {
        choose|b: nat| is_inv(a, b)
    } else {
        0
    }
}

/// Field division: `a / b`, with division by zero giving `0`.
pub open spec fn fdiv(a: nat, b: nat) -> nat {
    fmul(a, finv(b))
}

pub proof fn lemma_fadd_comm(a: nat, b: nat)
    ensures
        fadd(a, b) == fadd(b, a),
{
}

pub proof fn lemma_fmul_comm(a: nat, b: nat)
    ensures
        fmul(a, b) == fmul(b, a),
{
    lemma_mul_is_commutative(a as int, b as int);
}

/// Multiplication ignores prior reduction of either factor.
pub proof fn lemma_fmul_mod(a: nat, b: nat)
    ensures
        fmul(a % (P as nat), b) == fmul(a, b),
        fmul(a, b % (P as nat)) == fmul(a, b),
{
    lemma_mul_mod_noop_left(a as int, b as int, P as int);
    lemma_mul_mod_noop_right(a as int, b as int, P as int);
}

/// Addition ignores prior reduction of either summand.
pub proof fn lemma_fadd_mod(a: nat, b: nat)
    ensures
        fadd(a % (P as nat), b) == fadd(a, b),
        fadd(a, b % (P as nat)) == fadd(a, b),
{
    lemma_add_mod_noop(a as int, b as int, P as int);
    lemma_mod_twice(a as int, P as int);
    lemma_mod_twice(b as int, P as int);
    lemma_add_mod_noop(a as int, (b % (P as nat)) as int, P as int);
    lemma_add_mod_noop((a % (P as nat)) as int, b as int, P as int);
}

pub proof fn lemma_fmul_assoc(a: nat, b: nat, c: nat)
    ensures
        fmul(fmul(a, b), c) == fmul(a, fmul(b, c)),
{
    lemma_fmul_mod(a * b, c);
    lemma_fmul_mod(a, b * c);
    lemma_mul_is_associative(a as int, b as int, c as int);
}

pub proof fn lemma_fmul_distributes(a: nat, b: nat, c: nat)
    ensures
        fmul(a, fadd(b, c)) == fadd(fmul(a, b), fmul(a, c)),
{
    lemma_fmul_mod(a, b + c);
    lemma_mul_is_distributive_add(a as int, b as int, c as int);
    lemma_add_mod_noop((a * b) as int, (a * c) as int, P as int);
}

pub proof fn lemma_fadd_assoc(a: nat, b: nat, c: nat)
    ensures
        fadd(fadd(a, b), c) == fadd(a, fadd(b, c)),
{
    lemma_fadd_mod(a + b, c);
    lemma_fadd_mod(a, b + c);
}

/// `a + (-a) = 0`.
pub proof fn lemma_fneg_cancels(a: nat)
    ensures
        fadd(a, fneg(a)) == 0,
{
    let m = P as int;
    lemma_fadd_mod(a, fneg(a));
    lemma_fadd_mod(fneg(a), a % (P as nat));
    lemma_fadd_comm(a % (P as nat), fneg(a));
    assert((((a % (P as nat)) + ((P as nat) - a % (P as nat))) % m) as nat == 0) by {
        lemma_mod_self_0(m);
    }
    assert(fadd(a % (P as nat), ((P as nat) - a % (P as nat)) as nat) == 0);
    assert(fneg(a) == (((P as nat) - a % (P as nat)) as nat % (P as nat))) by {
        lemma_mod_twice(((P as nat) - a % (P as nat)) as int, m);
    }
    lemma_fadd_mod(a % (P as nat), ((P as nat) - a % (P as nat)) as nat);
}

proof fn lemma_p_has_no_small_factor()
    ensures
        forall|d: int| 2 <= d < 257 ==> #[trigger] ((P as int) % d) != 0,
{
    assert(forall|d: u64| 2 <= d < 257 ==> #[trigger] (65537u64 % d) != 0) by (bit_vector);
    assert forall|d: int| 2 <= d < 257 implies #[trigger] ((P as int) % d) != 0 by {
        let du = d as u64;
        assert(65537u64 % du != 0);
        assert((P as int) % d == (65537u64 % du) as int);
    }
}

/// The modulus is prime: it has no divisor strictly between 1 and itself.
pub proof fn lemma_p_prime()
    ensures
        forall|d: int| 1 < d < P ==> #[trigger] ((P as int) % d) != 0,
{
    lemma_p_has_no_small_factor();
    assert forall|d: int| 1 < d < P implies #[trigger] ((P as int) % d) != 0 by {
        if d >= 257 && (P as int) % d == 0 {
            lemma_fundamental_div_mod(P as int, d);
            let e = (P as int) / d;
            assert(P as int == d * e);
            assert(e >= 0) by {
                lemma_div_pos_is_pos(P as int, d);
            }
            assert(e >= 2) by {
                if e <= 1 {
                    lemma_mul_inequality(e, 1, d);
                    assert(d * e <= d * 1) by {
                        lemma_mul_is_commutative(d, e);
                        lemma_mul_inequality(e, 1, d);
                    }
                    assert(d * 1 == d);
                }
            }
            assert(e < 257) by {
                if e >= 257 {
                    lemma_mul_inequality(257, e, d);
                    assert(d * 257 <= d * e) by {
                        lemma_mul_left_inequality(d, 257, e);
                    }
                    assert(d * 257 >= 257 * 257) by {
                        lemma_mul_inequality(257, d, 257);
                        lemma_mul_is_commutative(d, 257);
                    }
                }
            }
            assert((P as int) % e == 0) by {
                lemma_mod_multiples_basic(d, e);
                lemma_mul_is_commutative(d, e);
            }
        }
    }
}

/// Greatest common divisor, by Euclid's recursion.
pub open spec fn gcd(a: nat, b: nat) -> nat
    decreases a,
{
    if a == 0 {
        b
    } else {
        gcd(b % a, a)
    }
}

/// The gcd of two numbers, not both zero, is positive and divides both.
pub proof fn lemma_gcd_divides(a: nat, b: nat)
    requires
        a > 0 || b > 0,
    ensures
        gcd(a, b) > 0,
        a % gcd(a, b) == 0,
        b % gcd(a, b) == 0,
    decreases a,
{
    if a == 0 {
        lemma_mod_self_0(b as int);
        assert(0int % (b as int) == 0) by {
            lemma_small_mod(0, b);
        }
    } else {
        lemma_mod_bound(b as int, a as int);
        lemma_gcd_divides(b % a, a);
        let g = gcd(b % a, a);
        lemma_fundamental_div_mod(b as int, a as int);
        let q = (b as int) / (a as int);
        assert(b as int == q * (a as int) + (b as int) % (a as int));
        assert((q * (a as int)) % (g as int) == 0) by {
            lemma_mul_mod_noop_right(q, a as int, g as int);
            assert((q * (((a as int) % (g as int)))) % (g as int) == (q * (a as int)) % (
            g as int));
            assert(q * 0 == 0) by {
                lemma_mul_by_zero_is_zero(q);
            }
            lemma_small_mod(0, g);
        }
        assert((b as int) % (g as int) == 0) by {
            lemma_add_mod_noop(q * (a as int), (b as int) % (a as int), g as int);
            lemma_small_mod(0, g);
        }
    }
}

/// `x` and `y` witness Bezout's identity for `a` and `b`.
pub open spec fn is_bezout(a: nat, b: nat, x: int, y: int) -> bool {
    (a as int) * x + (b as int) * y == gcd(a, b)
}

/// Bezout's identity: the gcd is an integer combination of its arguments.
pub proof fn lemma_bezout(a: nat, b: nat)
    ensures
        exists|x: int, y: int| #[trigger] is_bezout(a, b, x, y),
    decreases a,
{
    if a == 0 {
        assert(is_bezout(a, b, 0, 1)) by {
            lemma_mul_by_zero_is_zero(a as int);
            lemma_mul_basics(b as int);
        }
    } else {
        lemma_mod_bound(b as int, a as int);
        lemma_bezout(b % a, a);
        let (x, y): (int, int) = choose|x: int, y: int| #[trigger] is_bezout(b % a, a, x, y);
        lemma_fundamental_div_mod(b as int, a as int);
        let q = (b as int) / (a as int);
        let ai = a as int;
        let bi = b as int;
        let r = bi - q * ai;
        assert(((b % a) as int) == r);
        assert(r * x + ai * y == gcd(a, b));
        assert(ai * (y - q * x) + bi * x == (bi - q * ai) * x + ai * y) by (nonlinear_arith);
        assert(is_bezout(a, b, y - q * x, x));
    }
}

/// Every nonzero residue has a multiplicative inverse.
pub proof fn lemma_inv_exists(a: nat)
    requires
        0 < a < (P as nat),
    ensures
        is_inv(a, finv(a)),
        fmul(a, finv(a)) == 1,
        finv(a) < (P as nat),
    decreases a,
{
    let g = gcd(a, (P as nat));
    lemma_gcd_divides(a, (P as nat));
    assert(g <= a) by {
        if g > a {
            lemma_small_mod(a, g);
        }
    }
    assert(g == 1) by {
        if g > 1 {
            lemma_p_prime();
            assert((P as int) % (g as int) == 0);
        }
    }
    lemma_bezout(a, (P as nat));
    let (x, y): (int, int) = choose|x: int, y: int| #[trigger] is_bezout(a, (P as nat), x, y);
    let ai = a as int;
    let m = P as int;
    lemma_mod_bound(x, m);
    let b = x % m;
    assert((ai * b) % m == (ai * x) % m) by {
        lemma_mul_mod_noop_right(ai, x, m);
        lemma_mod_twice(x, m);
        lemma_mul_mod_noop_right(ai, x % m, m);
    }
    assert(ai * x == 1 - m * y);
    assert((1 - m * y) % m == 1) by {
        lemma_mod_multiples_vanish(-y, 1, m);
        assert(m * -y + 1 == 1 - m * y) by {
            lemma_mul_unary_negation(m, y);
        }
        lemma_small_mod(1, (P as nat));
    }
    assert(is_inv(a, b as nat));
}

/// Inverses are unique.
pub proof fn lemma_inv_unique(a: nat, b1: nat, b2: nat)
    requires
        is_inv(a, b1),
        is_inv(a, b2),
    ensures
        b1 == b2,
{
    assert(fmul(b1, fmul(a, b2)) == fmul(fmul(b1, a), b2)) by {
        lemma_fmul_assoc(b1, a, b2);
        lemma_fmul_comm(b1, a);
        lemma_fmul_comm(a, b2);
        lemma_fmul_assoc(a, b1, b2);
    }
    assert(fmul(b1, 1) == b1) by {
        lemma_mul_basics(b1 as int);
        lemma_small_mod(b1, (P as nat));
    }
    assert(fmul(fmul(b1, a), b2) == fmul(1, b2)) by {
        lemma_fmul_comm(b1, a);
    }
    assert(fmul(1, b2) == b2) by {
        lemma_mul_basics(b2 as int);
        lemma_small_mod(b2, (P as nat));
    }
}

/// Zero has no inverse, so `finv(0) == 0`.
pub proof fn lemma_finv_zero()
    ensures
        finv(0) == 0,
{
    assert forall|b: nat| !is_inv(0, b) by {
        assert(fmul(0, b) == 0) by {
            lemma_mul_by_zero_is_zero(b as int);
            lemma_small_mod(0, (P as nat));
        }
    }
}

pub proof fn lemma_fpow_bound(a: nat, e: nat)
    ensures
        fpow(a, e) < (P as nat),
    decreases e,
{
    if e == 0 {
    } else {
        lemma_mod_bound((a * fpow(a, (e - 1) as nat)) as int, P as int);
    }
}

/// Exponents add: `a^(e1+e2) = a^e1 * a^e2`.
pub proof fn lemma_fpow_adds(a: nat, e1: nat, e2: nat)
    ensures
        fpow(a, e1 + e2) == fmul(fpow(a, e1), fpow(a, e2)),
    decreases e1,
{
    if e1 == 0 {
        lemma_fpow_bound(a, e2);
        assert(fmul(1, fpow(a, e2)) == fpow(a, e2)) by {
            lemma_mul_basics(fpow(a, e2) as int);
            lemma_small_mod(fpow(a, e2), (P as nat));
        }
    } else {
        lemma_fpow_adds(a, (e1 - 1) as nat, e2);
        assert(fpow(a, e1 + e2) == fmul(a, fpow(a, (e1 - 1 + e2) as nat)));
        assert(fmul(a, fmul(fpow(a, (e1 - 1) as nat), fpow(a, e2))) == fmul(
            fmul(a, fpow(a, (e1 - 1) as nat)),
            fpow(a, e2),
        )) by {
            lemma_fmul_assoc(a, fpow(a, (e1 - 1) as nat), fpow(a, e2));
        }
    }
}

/// The base of a power may be reduced first.
pub proof fn lemma_fpow_mod_base(a: nat, e: nat)
    ensures
        fpow(a % (P as nat), e) == fpow(a, e),
    decreases e,
{
    if e == 0 {
    } else {
        lemma_fpow_mod_base(a, (e - 1) as nat);
        lemma_fmul_mod(a, fpow(a, (e - 1) as nat));
    }
}

/// Exponents multiply: `a^(e1*e2) = (a^e1)^e2`.
pub proof fn lemma_fpow_multiplies(a: nat, e1: nat, e2: nat)
    ensures
        fpow(a, e1 * e2) == fpow(fpow(a, e1), e2),
    decreases e2,
{
    if e2 == 0 {
        assert(e1 * 0 == 0) by {
            lemma_mul_by_zero_is_zero(e1 as int);
        }
    } else {
        lemma_fpow_multiplies(a, e1, (e2 - 1) as nat);
        assert(e1 * e2 == e1 * (e2 - 1) + e1) by {
            lemma_mul_is_distributive_sub(e1 as int, e2 as int, 1);
            lemma_mul_basics(e1 as int);
        }
        lemma_fpow_adds(a, e1 * (e2 - 1) as nat, e1);
        assert(fpow(fpow(a, e1), e2) == fmul(fpow(a, e1), fpow(fpow(a, e1), (e2 - 1) as nat)));
        lemma_fmul_comm(fpow(a, e1 * (e2 - 1) as nat), fpow(a, e1));
    }
}

/// Relates the squaring ladder to plain exponentiation.
pub proof fn lemma_fpow2(a: nat, k: nat)
    ensures
        fpow2(a, k) == fpow(a, pow2(k)),
    decreases k,
{
    vstd::arithmetic::power2::lemma_pow2_pos(k);
    if k == 0 {
        reveal_with_fuel(fpow, 2);
        assert(pow2(0) == 1) by {
            vstd::arithmetic::power2::lemma2_to64();
        }
        assert(fpow(a, 1) == fmul(a, 1));
        assert(a * 1 == a) by {
            lemma_mul_basics(a as int);
        }
    } else {
        lemma_fpow2(a, (k - 1) as nat);
        assert(pow2(k) == pow2((k - 1) as nat) + pow2((k - 1) as nat)) by {
            vstd::arithmetic::power2::lemma_pow2_unfold(k);
            vstd::arithmetic::power2::lemma_pow2_pos((k - 1) as nat);
        }
        lemma_fpow_adds(a, pow2((k - 1) as nat), pow2((k - 1) as nat));
    }
}

/// The generator has order exactly `2^16`: its `2^16`-th power is one and
/// its `2^15`-th power is not.
pub proof fn lemma_generator_order()
    ensures
        fpow(GEN as nat, 65536) == 1,
        fpow(GEN as nat, 32768) == (P - 1) as nat,
{
    reveal_with_fuel(fpow2, 3);
    assert(fpow2(3, 0) == 3);
    assert(fpow2(3, 1) == fmul(fpow2(3, 0), fpow2(3, 0)));
    assert(fpow2(3, 1) == 9);
    assert(fpow2(3, 2) == fmul(fpow2(3, 1), fpow2(3, 1)));
    assert(fpow2(3, 2) == 81);
    assert(fpow2(3, 3) == fmul(fpow2(3, 2), fpow2(3, 2)));
    assert(fpow2(3, 3) == 6561);
    assert(fpow2(3, 4) == fmul(fpow2(3, 3), fpow2(3, 3)));
    assert(fpow2(3, 4) == 54449);
    assert(fpow2(3, 5) == fmul(fpow2(3, 4), fpow2(3, 4)));
    assert(fpow2(3, 5) == 61869);
    assert(fpow2(3, 6) == fmul(fpow2(3, 5), fpow2(3, 5)));
    assert(fpow2(3, 6) == 19139);
    assert(fpow2(3, 7) == fmul(fpow2(3, 6), fpow2(3, 6)));
    assert(fpow2(3, 7) == 15028);
    assert(fpow2(3, 8) == fmul(fpow2(3, 7), fpow2(3, 7)));
    assert(fpow2(3, 8) == 282);
    assert(fpow2(3, 9) == fmul(fpow2(3, 8), fpow2(3, 8)));
    assert(fpow2(3, 9) == 13987);
    assert(fpow2(3, 10) == fmul(fpow2(3, 9), fpow2(3, 9)));
    assert(fpow2(3, 10) == 8224);
    assert(fpow2(3, 11) == fmul(fpow2(3, 10), fpow2(3, 10)));
    assert(fpow2(3, 11) == 65529);
    assert(fpow2(3, 12) == fmul(fpow2(3, 11), fpow2(3, 11)));
    assert(fpow2(3, 12) == 64);
    assert(fpow2(3, 13) == fmul(fpow2(3, 12), fpow2(3, 12)));
    assert(fpow2(3, 13) == 4096);
    assert(fpow2(3, 14) == fmul(fpow2(3, 13), fpow2(3, 13)));
    assert(fpow2(3, 14) == 65281);
    assert(fpow2(3, 15) == fmul(fpow2(3, 14), fpow2(3, 14)));
    assert(fpow2(3, 15) == 65536);
    assert(fpow2(3, 16) == fmul(fpow2(3, 15), fpow2(3, 15)));
    assert(fpow2(3, 16) == 1);
    lemma_fpow2(3, 16);
    lemma_fpow2(3, 15);
    assert(pow2(16) == 65536 && pow2(15) == 32768) by {
        vstd::arithmetic::power2::lemma2_to64();
    }
}

/// Multiplying by a nonzero residue is cancellable.
pub proof fn lemma_fmul_cancel(a: nat, b: nat, c: nat)
    requires
        0 < a < (P as nat),
        b < (P as nat),
        c < (P as nat),
        fmul(a, b) == fmul(a, c),
    ensures
        b == c,
{
    lemma_inv_exists(a);
    let i = finv(a);
    assert(fmul(i, fmul(a, b)) == b) by {
        lemma_fmul_assoc(i, a, b);
        lemma_fmul_comm(i, a);
        assert(fmul(1, b) == b) by {
            lemma_mul_basics(b as int);
            lemma_small_mod(b, (P as nat));
        }
    }
    assert(fmul(i, fmul(a, c)) == c) by {
        lemma_fmul_assoc(i, a, c);
        lemma_fmul_comm(i, a);
        assert(fmul(1, c) == c) by {
            lemma_mul_basics(c as int);
            lemma_small_mod(c, (P as nat));
        }
    }
}

/// Squaring the base halves the exponent.
pub proof fn lemma_fpow_even(a: nat, k: nat)
    ensures
        fpow(a, 2 * k) == fpow(fmul(a, a), k),
{
    lemma_fpow_multiplies(a, 2, k);
    reveal_with_fuel(fpow, 3);
    assert(fpow(a, 2) == fmul(a, fmul(a, 1)));
    assert(fmul(a, 1) == a % (P as nat)) by {
        lemma_mul_basics(a as int);
    }
    lemma_fmul_mod(a, a);
}

/// One is its own inverse.
pub proof fn lemma_finv_one()
    ensures
        finv(1) == 1,
{
    assert(is_inv(1, 1)) by {
        lemma_mul_basics(1int);
        lemma_small_mod(1, P as nat);
    }
    lemma_inv_unique(1, finv(1), 1);
}

/// Adding and subtracting the same residue cancel on reduced values.
pub proof fn lemma_fsub_cancel(a: nat, b: nat)
    requires
        a < P,
    ensures
        fadd(fsub(a, b), b) == a,
        fsub(fadd(a, b), b) == a,
{
    lemma_fneg_cancels(b);
    lemma_fadd_assoc(a, fneg(b), b % (P as nat));
    assert(fadd(fneg(b), b % (P as nat)) == 0) by {
        lemma_fadd_mod(fneg(b), b);
        lemma_fadd_comm(fneg(b), b);
    }
    assert(fadd(fsub(a, b), b) == fadd(a, fadd(fneg(b), b))) by {
        lemma_fadd_mod(fadd(a, fneg(b)), b);
        lemma_fadd_mod(a, fadd(fneg(b), b % (P as nat)));
        lemma_fadd_assoc(a, fneg(b), b);
    }
    assert(fadd(a, 0) == a) by {
        lemma_small_mod(a, P as nat);
    }
    assert(fsub(fadd(a, b), b) == fadd(a, fadd(b, fneg(b)))) by {
        lemma_fadd_mod(fadd(a, b), fneg(b));
        lemma_fadd_assoc(a, b, fneg(b));
    }
    assert(fadd(b, fneg(b)) == 0) by {
        lemma_fneg_cancels(b);
    }
}

/// Subtracting from zero then adding back under a sum cancels.
pub proof fn lemma_sub_then_add(c: nat, b: nat)
    requires
        c < P,
    ensures
        fadd(fsub(0, b), fadd(c, b)) == c,
{
    assert(fsub(0, b) == fneg(b)) by {
        lemma_mod_bound(((P as nat) - b % (P as nat)) as int, P as int);
        lemma_small_mod(fneg(b), P as nat);
    }
    lemma_fadd_comm(c, b);
    lemma_fadd_mod(fneg(b), b + c);
    lemma_fadd_mod(fneg(b) + b, c);
    assert(fadd(fneg(b), b + c) == fadd(fneg(b) + b, c));
    assert(fadd(fneg(b) + b, c) == fadd(fadd(fneg(b), b), c)) by {
        lemma_fadd_mod(fneg(b) + b, c);
    }
    assert(fadd(fneg(b), b) == 0) by {
        lemma_fadd_comm(fneg(b), b);
        lemma_fneg_cancels(b);
    }
    assert(fadd(0, c) == c) by {
        lemma_small_mod(c, P as nat);
    }
}

/// Powers of one stay one.
pub proof fn lemma_fpow_ones(e: nat)
    ensures
        fpow(1, e) == 1,
    decreases e,
{
    if e > 0 {
        lemma_fpow_ones((e - 1) as nat);
        assert(fmul(1, 1) == 1) by {
            lemma_mul_basics(1int);
            lemma_small_mod(1, P as nat);
        }
    }
}

/// Negation commutes with multiplication.
pub proof fn lemma_fneg_fmul(b: nat, c: nat)
    ensures
        fmul(fneg(b), c) == fneg(fmul(b, c)),
{
    let m = P as int;
    let bm = (b % (P as nat)) as int;
    let bi = b as int;
    let ci = c as int;
    assert(fmul(fneg(b), c) == (((P - bm) * ci) % m) as nat) by {
        lemma_mul_mod_noop_left(P - bm, ci, m);
    }
    assert((P - bm) * ci == m * ci - bm * ci) by {
        lemma_mul_is_distributive_sub_other_way(ci, m, bm);
    }
    assert((m * ci - bm * ci) % m == (0 - bm * ci) % m) by {
        lemma_mod_multiples_vanish(ci, 0 - bm * ci, m);
    }
    assert((0 - bm * ci) % m == (0 - bi * ci) % m) by {
        lemma_sub_mod_noop_right(0, bm * ci, m);
        assert((bm * ci) % m == (bi * ci) % m) by {
            lemma_mul_mod_noop_left(bi, ci, m);
        }
        lemma_sub_mod_noop_right(0, bi * ci, m);
    }
    let bc = (fmul(b, c)) as int;
    assert(fneg(fmul(b, c)) == ((m - bc % m) % m) as nat) by {
        lemma_mod_twice(bc, m);
        assert(bc % m == bc) by {
            lemma_mod_bound(bi * ci, m);
            lemma_mod_twice(bi * ci, m);
        }
    }
    assert((m - bc) % m == (0 - bc) % m) by {
        lemma_mod_multiples_vanish(1, 0 - bc, m);
        assert(m * 1 == m) by {
            lemma_mul_basics(m);
        }
    }
    assert((0 - bc) % m == (0 - bi * ci) % m) by {
        lemma_sub_mod_noop_right(0, bi * ci, m);
    }
    assert(bc % m == bc) by {
        lemma_mod_bound(bi * ci, m);
        lemma_mod_twice(bi * ci, m);
    }
}

/// Multiplication distributes over addition from the right.
pub proof fn lemma_fmul_distributes_right(a: nat, b: nat, c: nat)
    ensures
        fmul(fadd(a, b), c) == fadd(fmul(a, c), fmul(b, c)),
{
    lemma_fmul_comm(fadd(a, b), c);
    lemma_fmul_distributes(c, a, b);
    lemma_fmul_comm(c, a);
    lemma_fmul_comm(c, b);
}

/// Multiplication distributes over subtraction from the right.
pub proof fn lemma_fmul_distributes_sub(a: nat, b: nat, c: nat)
    ensures
        fmul(fsub(a, b), c) == fsub(fmul(a, c), fmul(b, c)),
{
    assert(fmul(fadd(a, fneg(b)), c) == fadd(fmul(a, c), fmul(fneg(b), c))) by {
        lemma_fmul_distributes_right(a, fneg(b), c);
    }
    lemma_fneg_fmul(b, c);
}

/// Zero minus a value is its negation.
pub proof fn lemma_fsub_zero(x: nat)
    ensures
        fsub(0, x) == fneg(x),
{
    lemma_mod_bound(((P as nat) - x % (P as nat)) as int, P as int);
    lemma_small_mod(fneg(x), P as nat);
}

/// Adding after subtracting inside a sum commute.
pub proof fn lemma_fadd_fsub_swap(a: nat, b: nat, x: nat)
    ensures
        fadd(fsub(a, x), b) == fsub(fadd(a, b), x),
{
    lemma_fadd_assoc(a, fneg(x), b);
    lemma_fadd_comm(fneg(x), b);
    lemma_fadd_mod(a, fadd(fneg(x), b));
    lemma_fadd_mod(a, fadd(b, fneg(x)));
    assert(fadd(a, (fneg(x) + b) % (P as nat)) == fadd(a, fneg(x) + b)) by {
        lemma_fadd_mod(a, fneg(x) + b);
    }
    assert(fadd(a, (b + fneg(x)) % (P as nat)) == fadd(a, b + fneg(x))) by {
        lemma_fadd_mod(a, b + fneg(x));
    }
    assert(fadd(fadd(a, b), fneg(x)) == fadd(a, fadd(b, fneg(x)))) by {
        lemma_fadd_assoc(a, b, fneg(x));
    }
}

/// Negation distributes over addition.
pub proof fn lemma_fneg_fadd(x: nat, y: nat)
    ensures
        fadd(fneg(x), fneg(y)) == fneg(fadd(x, y)),
{
    let m = P as int;
    let xm = (x % (P as nat)) as int;
    let ym = (y % (P as nat)) as int;
    assert(fadd(fneg(x), fneg(y)) == (((m - xm) % m + (m - ym) % m) % m) as nat);
    assert(((m - xm) % m + (m - ym) % m) % m == ((m - xm) + (m - ym)) % m) by {
        lemma_add_mod_noop(m - xm, m - ym, m);
    }
    assert((2 * m - xm - ym) % m == (0 - xm - ym) % m) by {
        lemma_mod_multiples_vanish(2, 0 - xm - ym, m);
    }
    assert((0 - xm - ym) % m == (0 - (x as int) - (y as int)) % m) by {
        lemma_sub_mod_noop_right(0 - xm, y as int, m);
        lemma_sub_mod_noop_right(0 - (x as int), y as int, m);
        assert((0 - xm) % m == (0 - (x as int)) % m) by {
            lemma_sub_mod_noop_right(0, x as int, m);
            lemma_mod_twice(x as int, m);
            lemma_sub_mod_noop_right(0, xm, m);
        }
        lemma_sub_mod_noop(0 - xm, y as int, m);
        lemma_sub_mod_noop(0 - (x as int), y as int, m);
    }
    let s = (fadd(x, y)) as int;
    assert(fneg(fadd(x, y)) == ((m - s % m) % m) as nat) by {
        lemma_mod_bound((x + y) as int, m);
        lemma_mod_twice((x + y) as int, m);
    }
    assert((m - s) % m == (0 - s) % m) by {
        lemma_mod_multiples_vanish(1, 0 - s, m);
        lemma_mul_basics(m);
    }
    assert(s % m == s) by {
        lemma_mod_bound((x + y) as int, m);
        lemma_mod_twice((x + y) as int, m);
    }
    assert((0 - s) % m == (0 - (x as int) - (y as int)) % m) by {
        lemma_sub_mod_noop_right(0, (x + y) as int, m);
        assert(0 - (x + y) as int == 0 - (x as int) - (y as int));
    }
}

/// Two subtractions in a row subtract the sum.
pub proof fn lemma_fsub_fsub(a: nat, x: nat, y: nat)
    ensures
        fsub(fsub(a, x), y) == fsub(a, fadd(x, y)),
{
    lemma_fadd_assoc(a, fneg(x), fneg(y));
    assert(fadd(fadd(a, fneg(x)), fneg(y)) == fadd(a, fadd(fneg(x), fneg(y)))) by {
        lemma_fadd_mod(fadd(a, fneg(x)), fneg(y));
        lemma_fadd_mod(a, fadd(fneg(x), fneg(y)));
        lemma_fadd_assoc(a, fneg(x), fneg(y));
    }
    lemma_fneg_fadd(x, y);
    assert(fsub(a, fadd(x, y)) == fadd(a, fneg(fadd(x, y))));
}

/// Regrouping a product of two products.
pub proof fn lemma_fmul_regroup(a: nat, b: nat, x: nat, y: nat)
    ensures
        fmul(fmul(a, b), fmul(x, y)) == fmul(fmul(a, x), fmul(b, y)),
{
    lemma_fmul_assoc(a, b, fmul(x, y));
    assert(fmul(a, fmul(b, fmul(x, y))) == fmul(a, fmul(fmul(b, x), y))) by {
        lemma_fmul_mod(a, fmul(b, fmul(x, y)));
        lemma_fmul_mod(a, fmul(fmul(b, x), y));
        lemma_fmul_assoc(b, x, y);
    }
    assert(fmul(fmul(b, x), y) == fmul(fmul(x, b), y)) by {
        lemma_fmul_comm(b, x);
    }
    assert(fmul(fmul(x, b), y) == fmul(x, fmul(b, y))) by {
        lemma_fmul_assoc(x, b, y);
    }
    assert(fmul(a, fmul(x, fmul(b, y))) == fmul(fmul(a, x), fmul(b, y))) by {
        lemma_fmul_assoc(a, x, fmul(b, y));
    }
    assert(fmul(a, fmul(fmul(b, x), y)) == fmul(a, fmul(x, fmul(b, y)))) by {
        lemma_fmul_mod(a, fmul(fmul(b, x), y));
        lemma_fmul_mod(a, fmul(x, fmul(b, y)));
    }
}

/// Units are closed under multiplication, and inversion distributes
/// over a product of units.
pub proof fn lemma_finv_mul(a: nat, b: nat)
    requires
        0 < a < P,
        0 < b < P,
    ensures
        fmul(a, b) != 0,
        finv(fmul(a, b)) == fmul(finv(a), finv(b)),
{
    lemma_inv_exists(a);
    lemma_inv_exists(b);
    let ia = finv(a);
    let ib = finv(b);
    lemma_fmul_regroup(a, b, ia, ib);
    assert(fmul(fmul(a, ia), fmul(b, ib)) == 1) by {
        lemma_small_mod(1, P as nat);
        lemma_mul_basics(1int);
    }
    assert(fmul(ia, ib) < P) by {
        lemma_mod_bound((ia * ib) as int, P as int);
    }
    assert(is_inv(fmul(a, b), fmul(ia, ib)));
    if fmul(a, b) == 0 {
        assert(fmul(0, fmul(ia, ib)) == 0) by {
            lemma_mul_basics(fmul(ia, ib) as int);
            lemma_small_mod(0nat, P as nat);
        }
        assert(false);
    }
    lemma_inv_exists(fmul(a, b));
    lemma_inv_unique(fmul(a, b), fmul(ia, ib), finv(fmul(a, b)));
}

} // verus!
