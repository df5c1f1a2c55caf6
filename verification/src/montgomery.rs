//! Multiplication in the field.
//!
//! The product of two elements is formed in full, eight limbs long, and
//! brought below the modulus by Montgomery reduction, which divides by
//! `2^256` modulo the field order; a second product, with the square of
//! `2^256`, and a second reduction take the two divisions back.

use crate::field::{adc, below_modulus, fmul, limbs_value, modulus, sub_modulus, Fr};
use vstd::arithmetic::div_mod::*;
use vstd::arithmetic::mul::*;
use vstd::prelude::*;

verus! {

/// Eight limbs, least significant first.
pub type Wide = (u64, u64, u64, u64, u64, u64, u64, u64);

/// `2^64`.
#[verifier::inline]
pub open spec fn base() -> int {
    0x1_0000_0000_0000_0000int
}

/// `2^256`.
#[verifier::inline]
pub open spec fn radix() -> int {
    0x1_0000_0000_0000_0000_0000_0000_0000_0000_0000_0000_0000_0000_0000_0000_0000_0000int
}

/// The square of `2^256`, modulo the field order.
#[verifier::inline]
pub open spec fn radix_squared() -> int {
    0x748d9d99f59ff1105d314967254398f2b6cedcb87925c23c999e990f3f29c6dint
}

/// The inverse of `2^256`, modulo the field order.
#[verifier::inline]
pub open spec fn radix_inverse() -> int {
    0x1bbe869330009d577204078a4f77266aab6fca8f09dc705f13f75b69fe75c040int
}

/// The value that five limbs stand for.
pub open spec fn value5(t0: u64, t1: u64, t2: u64, t3: u64, t4: u64) -> int {
    limbs_value(t0, t1, t2, t3) + t4 * radix()
}

/// The value that eight limbs stand for.
pub open spec fn wide_value(t: Wide) -> int {
    limbs_value(t.0, t.1, t.2, t.3) + limbs_value(t.4, t.5, t.6, t.7) * radix()
}

/// The multiplier that makes a limb vanish: the negative of the inverse of
/// the lowest limb of the modulus, modulo `2^64`.
pub const INV: u64 = 0xfffffffeffffffff;

/// `a * b + c + d`, as a limb and what is carried out of it.
fn mac(a: u64, b: u64, c: u64, d: u64) -> (r: (u64, u64))
    ensures
        r.0 + r.1 * base() == a * b + c + d,
{
    assert(a * b <= 0xffff_ffff_ffff_fffe_0000_0000_0000_0001) by (nonlinear_arith)
        requires
            a <= 0xffff_ffff_ffff_ffff,
            b <= 0xffff_ffff_ffff_ffff,
    ;
    let t: u128 = (a as u128) * (b as u128) + (c as u128) + (d as u128);
    ((t % 0x1_0000_0000_0000_0000) as u64, (t / 0x1_0000_0000_0000_0000) as u64)
}

/// Adds the product of four limbs with `b` to four limbs.
fn mul_row(a0: u64, a1: u64, a2: u64, a3: u64, b: u64, t0: u64, t1: u64, t2: u64, t3: u64) -> (r:
    (u64, u64, u64, u64, u64))
    ensures
        value5(r.0, r.1, r.2, r.3, r.4) == limbs_value(t0, t1, t2, t3) + limbs_value(
            a0,
            a1,
            a2,
            a3,
        ) * b,
{
    let (r0, c) = mac(a0, b, t0, 0);
    let (r1, c) = mac(a1, b, t1, c);
    let (r2, c) = mac(a2, b, t2, c);
    let (r3, c) = mac(a3, b, t3, c);
    proof {
        let av = limbs_value(a0, a1, a2, a3) as int;
        assert(av * b == a0 * b + (a1 * b) * 0x1_0000_0000_0000_0000int + (a2 * b)
            * 0x1_0000_0000_0000_0000_0000_0000_0000_0000int + (a3 * b)
            * 0x1_0000_0000_0000_0000_0000_0000_0000_0000_0000_0000_0000_0000int)
            by (nonlinear_arith)
            requires
                av == a0 + a1 * 0x1_0000_0000_0000_0000int + a2
                    * 0x1_0000_0000_0000_0000_0000_0000_0000_0000int + a3
                    * 0x1_0000_0000_0000_0000_0000_0000_0000_0000_0000_0000_0000_0000int,
        ;
    }
    (r0, r1, r2, r3, c)
}

/// The product of the values of two elements, in full.
fn mul_wide(a: &Fr, b: &Fr) -> (t: Wide)
    ensures
        wide_value(t) == a@ * b@,
{
    let x = a.to_limbs();
    let y = b.to_limbs();
    let (t0, u1, u2, u3, u4) = mul_row(x[0], x[1], x[2], x[3], y[0], 0, 0, 0, 0);
    let (t1, q2, q3, q4, q5) = mul_row(x[0], x[1], x[2], x[3], y[1], u1, u2, u3, u4);
    let (t2, r3, r4, r5, r6) = mul_row(x[0], x[1], x[2], x[3], y[2], q2, q3, q4, q5);
    let (t3, t4, t5, t6, t7) = mul_row(x[0], x[1], x[2], x[3], y[3], r3, r4, r5, r6);
    proof {
        let av = a@ as int;
        let bv = b@ as int;
        assert(av * bv == av * y[0] + (av * y[1]) * 0x1_0000_0000_0000_0000int + (av * y[2])
            * 0x1_0000_0000_0000_0000_0000_0000_0000_0000int + (av * y[3])
            * 0x1_0000_0000_0000_0000_0000_0000_0000_0000_0000_0000_0000_0000int)
            by (nonlinear_arith)
            requires
                bv == y[0] + y[1] * 0x1_0000_0000_0000_0000int + y[2]
                    * 0x1_0000_0000_0000_0000_0000_0000_0000_0000int + y[3]
                    * 0x1_0000_0000_0000_0000_0000_0000_0000_0000_0000_0000_0000_0000int,
        ;
    }
    (t0, t1, t2, t3, t4, t5, t6, t7)
}

/// One round of the reduction: a multiple of the modulus is added to five
/// limbs that makes the lowest of them zero, and the other four and the carry
/// are handed back.
fn redc_round(t0: u64, t1: u64, t2: u64, t3: u64, t4: u64, carry: u64) -> (r: (
    u64,
    u64,
    u64,
    u64,
    u64,
))
    requires
        carry <= 1,
    ensures
        r.4 <= 1,
        value5(r.0, r.1, r.2, r.3, r.4) * base() == value5(t0, t1, t2, t3, t4) + ((t0 * INV)
            % base()) * modulus() + carry * radix(),
{
    assert(t0 * INV <= 0xffff_ffff_ffff_fffe_0000_0000_0000_0001) by (nonlinear_arith)
        requires
            t0 <= 0xffff_ffff_ffff_ffff,
            INV <= 0xffff_ffff_ffff_ffff,
    ;
    let k = (((t0 as u128) * (INV as u128)) % 0x1_0000_0000_0000_0000) as u64;
    let (z, c) = mac(k, 0xffffffff00000001, t0, 0);
    let (r0, c) = mac(k, 0x53bda402fffe5bfe, t1, c);
    let (r1, c) = mac(k, 0x3339d80809a1d805, t2, c);
    let (r2, c) = mac(k, 0x73eda753299d7d48, t3, c);
    let (r3, top) = adc(t4, c, carry);
    proof {
        lemma_low_limb_vanishes(t0);
        let p = modulus() as int;
        assert(k * p == k * 0xffffffff00000001 + (k * 0x53bda402fffe5bfe)
            * 0x1_0000_0000_0000_0000int + (k * 0x3339d80809a1d805)
            * 0x1_0000_0000_0000_0000_0000_0000_0000_0000int + (k * 0x73eda753299d7d48)
            * 0x1_0000_0000_0000_0000_0000_0000_0000_0000_0000_0000_0000_0000int)
            by (nonlinear_arith)
            requires
                p == 0x73eda753299d7d483339d80809a1d80553bda402fffe5bfeffffffff00000001,
        ;
    }
    (r0, r1, r2, r3, top)
}

/// The multiple of the modulus that a round adds makes the lowest limb zero.
proof fn lemma_low_limb_vanishes(t0: u64)
    ensures
        (((t0 * INV) % base()) * 0xffffffff00000001 + t0) % base() == 0,
{
    let b = base();
    let x = t0 * INV;
    let k = x % b;
    let q = x / b;
    lemma_fundamental_div_mod(x, b);
    // INV * 0xffffffff00000001 + 1 == 0xfffffffe00000001 * 2^64
    let c: int = 0xfffffffe00000001;
    assert(k * 0xffffffff00000001 + t0 == b * (t0 * c - q * 0xffffffff00000001))
        by (nonlinear_arith)
        requires
            x == b * q + k,
            x == t0 * 0xfffffffeffffffff,
            c == 0xfffffffe00000001,
            b == 0x1_0000_0000_0000_0000,
    ;
    lemma_mod_multiples_basic(t0 * c - q * 0xffffffff00000001, b);
    lemma_mul_is_commutative(b, t0 * c - q * 0xffffffff00000001);
}

/// Montgomery reduction: the element whose product with `2^256` is congruent
/// to the value of the eight limbs.
fn redc(t: Wide) -> (r: Fr)
    requires
        wide_value(t) < modulus() * radix(),
    ensures
        r.wf(),
        (r@ * radix()) % (modulus() as int) == wide_value(t) % (modulus() as int),
{
    let (a1, a2, a3, a4, c0) = redc_round(t.0, t.1, t.2, t.3, t.4, 0);
    let (b2, b3, b4, b5, c1) = redc_round(a1, a2, a3, a4, t.5, c0);
    let (d3, d4, d5, d6, c2) = redc_round(b2, b3, b4, b5, t.6, c1);
    let (e4, e5, e6, e7, c3) = redc_round(d3, d4, d5, d6, t.7, c2);
    let ghost p = modulus() as int;
    let ghost k = (t.0 * INV) % base() + ((a1 * INV) % base()) * base() + ((b2 * INV) % base())
        * 0x1_0000_0000_0000_0000_0000_0000_0000_0000int + ((d3 * INV) % base())
        * 0x1_0000_0000_0000_0000_0000_0000_0000_0000_0000_0000_0000_0000int;
    let ghost v = limbs_value(e4, e5, e6, e7) as int;
    assert(value5(e4, e5, e6, e7, c3) * radix() == wide_value(t) + k * p);
    assert(c3 == 0);
    proof {
        lemma_mod_multiples_vanish(k, wide_value(t), p);
        assert((v * radix()) % p == wide_value(t) % p);
    }
    if below_modulus(e4, e5, e6, e7) {
        Fr::from_parts(e4, e5, e6, e7)
    } else {
        let r = sub_modulus(e4, e5, e6, e7);
        proof {
            lemma_mod_multiples_vanish(-radix(), v * radix(), p);
        }
        r
    }
}

/// Two reductions after two products, the second with the square of
/// `2^256`, give the product modulo the field order.
proof fn lemma_two_reductions(ab: int, x1: int, x2: int)
    requires
        0 <= x2 < modulus(),
        (x1 * radix()) % (modulus() as int) == ab % (modulus() as int),
        (x2 * radix()) % (modulus() as int) == (x1 * radix_squared()) % (modulus() as int),
    ensures
        x2 == ab % (modulus() as int),
{
    let p = modulus() as int;
    let big = radix();
    let inv = radix_inverse();
    assert(radix_squared() == (big * big) % p);
    assert((big * inv) % p == 1);
    // x2 * R is congruent to x1 * R * R, and so to a * b * R
    lemma_mul_mod_noop_right(x1, big * big, p);
    assert(x1 * (big * big) == (x1 * big) * big) by (nonlinear_arith);
    lemma_mul_mod_noop_left(x1 * big, big, p);
    lemma_mul_mod_noop_left(ab, big, p);
    assert((x2 * big) % p == (ab * big) % p);
    // and the inverse of R takes the factor R away
    lemma_mul_mod_noop_left(x2 * big, inv, p);
    lemma_mul_mod_noop_left(ab * big, inv, p);
    assert((x2 * big) * inv == x2 * (big * inv)) by (nonlinear_arith);
    assert((ab * big) * inv == ab * (big * inv)) by (nonlinear_arith);
    lemma_mul_mod_noop_right(x2, big * inv, p);
    lemma_mul_mod_noop_right(ab, big * inv, p);
    lemma_small_mod(x2 as nat, modulus());
}

/// The product of two elements.
pub(crate) fn fr_mul(a: &Fr, b: &Fr) -> (r: Fr)
    requires
        a.wf(),
        b.wf(),
    ensures
        r.wf(),
        r@ == fmul(a@, b@),
{
    let ghost p = modulus() as int;
    let ghost ab = a@ * b@;
    let ghost big = radix();
    assert(0 <= ab < p * p) by (nonlinear_arith)
        requires
            ab == a@ * b@,
            a@ < p,
            b@ < p,
    ;
    let t = mul_wide(a, b);
    let m1 = redc(t);
    let r2 = Fr::from_parts(
        0xc999e990f3f29c6d,
        0x2b6cedcb87925c23,
        0x05d314967254398f,
        0x0748d9d99f59ff11,
    );
    let ghost c = r2@ as int;
    let ghost m1c = m1@ * r2@;
    assert(0 <= m1c < p * p) by (nonlinear_arith)
        requires
            m1c == m1@ * r2@,
            m1@ < p,
            r2@ < p,
    ;
    let t2 = mul_wide(&m1, &r2);
    let m2 = redc(t2);
    proof {
        reveal(fmul);
        lemma_two_reductions(ab as int, m1@ as int, m2@ as int);
    }
    m2
}

} // verus!
