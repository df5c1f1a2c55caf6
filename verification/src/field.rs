//! The scalar field of BLS12-381.
//!
//! An element is held by the four 64-bit limbs of its canonical
//! representative; its view is that representative, a natural number below
//! [`modulus`].  Sums and differences are computed here, and products in
//! [`crate::montgomery`].  Inverses, powers and the constants of the field
//! are those of the `paired` crate: each such operation hands the limbs over,
//! lets `paired` compute, and takes the limbs of the result back.  What such
//! a call returns is stated over the specification functions of this module
//! and is not proved.

use fff::Field;
use fff::PrimeField;
use vstd::arithmetic::div_mod::*;
use vstd::arithmetic::mul::*;
use vstd::arithmetic::power2::*;
use vstd::prelude::*;

verus! {

/// The order of the field.
pub open spec fn modulus() -> nat {
    0x73eda753299d7d483339d80809a1d80553bda402fffe5bfeffffffff00000001nat
}

/// `modulus() - 1` is `2^TWO_ADICITY` times an odd number.
pub const TWO_ADICITY: u32 = 32;

/// Sum of two field values.
#[verifier::opaque]
pub open spec fn fadd(a: nat, b: nat) -> nat {
    (a + b) % modulus()
}

/// Difference of two field values.
#[verifier::opaque]
pub open spec fn fsub(a: nat, b: nat) -> nat {
    ((a as int - b as int) % (modulus() as int)) as nat
}

/// Product of two field values.
#[verifier::opaque]
pub open spec fn fmul(a: nat, b: nat) -> nat {
    (a * b) % modulus()
}

/// The field value `-1`.
pub open spec fn neg_one() -> nat {
    (modulus() - 1) as nat
}

/// `b` raised to the power `e`.
pub open spec fn fpow(b: nat, e: nat) -> nat
    decreases e,
{
    if e == 0 {
        1
    } else {
        fmul(fpow(b, (e - 1) as nat), b)
    }
}

pub proof fn lemma_fadd_bound(a: nat, b: nat)
    ensures
        fadd(a, b) < modulus(),
{
    reveal(fadd);
    lemma_mod_bound((a + b) as int, modulus() as int);
}

pub proof fn lemma_fsub_bound(a: nat, b: nat)
    ensures
        fsub(a, b) < modulus(),
{
    reveal(fsub);
    lemma_mod_bound(a as int - b as int, modulus() as int);
}

pub proof fn lemma_fmul_bound(a: nat, b: nat)
    ensures
        fmul(a, b) < modulus(),
{
    reveal(fmul);
    lemma_mul_nonnegative(a as int, b as int);
    lemma_mod_bound((a * b) as int, modulus() as int);
}

pub proof fn lemma_fpow_bound(b: nat, e: nat)
    ensures
        fpow(b, e) < modulus(),
{
    if e > 0 {
        lemma_fmul_bound(fpow(b, (e - 1) as nat), b);
    }
}

pub proof fn lemma_fadd_comm(a: nat, b: nat)
    ensures
        fadd(a, b) == fadd(b, a),
{
    reveal(fadd);
}

pub proof fn lemma_fadd_assoc(a: nat, b: nat, c: nat)
    ensures
        fadd(fadd(a, b), c) == fadd(a, fadd(b, c)),
{
    reveal(fadd);
    let p = modulus() as int;
    lemma_add_mod_noop((a + b) as int, c as int, p);
    lemma_add_mod_noop(a as int, (b + c) as int, p);
    lemma_mod_twice((a + b) as int, p);
    lemma_mod_twice((b + c) as int, p);
    lemma_add_mod_noop(((a + b) % modulus()) as int, c as int, p);
    lemma_add_mod_noop(a as int, ((b + c) % modulus()) as int, p);
}

pub proof fn lemma_fadd_zero(a: nat)
    requires
        a < modulus(),
    ensures
        fadd(a, 0) == a,
        fadd(0, a) == a,
{
    reveal(fadd);
    lemma_small_mod(a, modulus());
}

pub proof fn lemma_fmul_comm(a: nat, b: nat)
    ensures
        fmul(a, b) == fmul(b, a),
{
    reveal(fmul);
    lemma_mul_is_commutative(a as int, b as int);
}

pub proof fn lemma_fmul_assoc(a: nat, b: nat, c: nat)
    ensures
        fmul(fmul(a, b), c) == fmul(a, fmul(b, c)),
{
    reveal(fmul);
    let p = modulus() as int;
    lemma_mul_nonnegative(a as int, b as int);
    lemma_mul_nonnegative(b as int, c as int);
    lemma_mul_mod_noop_left((a * b) as int, c as int, p);
    lemma_mul_mod_noop_right(a as int, (b * c) as int, p);
    lemma_mul_is_associative(a as int, b as int, c as int);
}

pub proof fn lemma_fmul_one(a: nat)
    requires
        a < modulus(),
    ensures
        fmul(a, 1) == a,
        fmul(1, a) == a,
{
    reveal(fmul);
    lemma_small_mod(a, modulus());
}

pub proof fn lemma_fmul_zero(a: nat)
    ensures
        fmul(a, 0) == 0,
        fmul(0, a) == 0,
{
    reveal(fmul);
    lemma_small_mod(0, modulus());
}

pub proof fn lemma_fmul_fadd(a: nat, b: nat, c: nat)
    ensures
        fmul(a, fadd(b, c)) == fadd(fmul(a, b), fmul(a, c)),
        fmul(fadd(b, c), a) == fadd(fmul(b, a), fmul(c, a)),
{
    reveal(fmul);
    reveal(fadd);
    let p = modulus() as int;
    lemma_mul_nonnegative(a as int, b as int);
    lemma_mul_nonnegative(a as int, c as int);
    lemma_mul_mod_noop_right(a as int, (b + c) as int, p);
    lemma_mul_is_distributive_add(a as int, b as int, c as int);
    lemma_add_mod_noop((a * b) as int, (a * c) as int, p);
    lemma_mul_is_commutative(a as int, ((b + c) % modulus()) as int);
    lemma_mul_is_commutative(a as int, b as int);
    lemma_mul_is_commutative(a as int, c as int);
}

/// Subtracting is adding the product with `-1`.
pub proof fn lemma_fsub_is_fadd(a: nat, b: nat)
    ensures
        fsub(a, b) == fadd(a, fmul(b, neg_one())),
{
    reveal(fmul);
    reveal(fadd);
    reveal(fsub);
    let p = modulus() as int;
    let bn = (b * neg_one()) as int;
    lemma_mul_nonnegative(b as int, neg_one() as int);
    lemma_add_mod_noop_right(a as int, bn, p);
    // b * (p - 1) == b * p - b
    lemma_mul_is_distributive_sub(b as int, p, 1);
    lemma_mul_is_commutative(b as int, p);
    // a + b * p - b is congruent to a - b
    lemma_mod_multiples_vanish(b as int, a as int - b as int, p);
}

pub proof fn lemma_neg_one_squared()
    ensures
        fmul(neg_one(), neg_one()) == 1,
{
    reveal(fmul);
    let p = modulus() as int;
    let m = p - 1;
    assert(m * m == (p - 2) * p + 1) by (nonlinear_arith)
        requires
            m == p - 1,
    ;
    lemma_mod_multiples_vanish(p - 2, 1, p);
    lemma_small_mod(1, modulus());
}

/// A value and its product with `-1` sum to zero.
pub proof fn lemma_fadd_neg(a: nat)
    ensures
        fadd(a, fmul(a, neg_one())) == 0,
{
    reveal(fmul);
    reveal(fadd);
    let p = modulus() as int;
    let an = (a * neg_one()) as int;
    lemma_mul_nonnegative(a as int, neg_one() as int);
    lemma_add_mod_noop_right(a as int, an, p);
    lemma_mul_is_distributive_sub(a as int, p, 1);
    lemma_mul_is_commutative(a as int, p);
    lemma_mod_multiples_vanish(a as int, 0, p);
    lemma_small_mod(0, modulus());
}

pub proof fn lemma_fpow_one(b: nat)
    requires
        b < modulus(),
    ensures
        fpow(b, 1) == b,
{
    reveal_with_fuel(fpow, 2);
    lemma_fmul_one(b);
}

pub proof fn lemma_fpow_of_one(e: nat)
    ensures
        fpow(1, e) == 1,
    decreases e,
{
    if e > 0 {
        lemma_fpow_of_one((e - 1) as nat);
        lemma_fmul_one(1);
    }
}

/// Exponents add when powers of one base are multiplied.
pub proof fn lemma_fpow_add(b: nat, e1: nat, e2: nat)
    ensures
        fpow(b, e1 + e2) == fmul(fpow(b, e1), fpow(b, e2)),
    decreases e2,
{
    if e2 == 0 {
        lemma_fpow_bound(b, e1);
        lemma_fmul_one(fpow(b, e1));
    } else {
        lemma_fpow_add(b, e1, (e2 - 1) as nat);
        lemma_fmul_assoc(fpow(b, e1), fpow(b, (e2 - 1) as nat), b);
        assert(((e1 + e2) - 1) as nat == e1 + (e2 - 1) as nat);
    }
}

/// A power of a product is the product of the powers.
pub proof fn lemma_fpow_fmul(a: nat, b: nat, e: nat)
    ensures
        fpow(fmul(a, b), e) == fmul(fpow(a, e), fpow(b, e)),
    decreases e,
{
    if e == 0 {
        lemma_fmul_one(1);
    } else {
        let d = (e - 1) as nat;
        lemma_fpow_fmul(a, b, d);
        let x = fpow(a, d);
        let y = fpow(b, d);
        // (x y)(a b) == (x a)(y b)
        lemma_fmul_assoc(fmul(x, y), a, b);
        lemma_fmul_assoc(x, y, a);
        lemma_fmul_comm(y, a);
        lemma_fmul_assoc(x, a, y);
        lemma_fmul_assoc(fmul(x, a), y, b);
    }
}

/// A power of a power multiplies the exponents.
pub proof fn lemma_fpow_fpow(b: nat, e1: nat, e2: nat)
    ensures
        fpow(fpow(b, e1), e2) == fpow(b, e1 * e2),
    decreases e2,
{
    if e2 == 0 {
        assert(e1 * e2 == 0) by (nonlinear_arith)
            requires
                e2 == 0,
        ;
    } else {
        let d = (e2 - 1) as nat;
        lemma_fpow_fpow(b, e1, d);
        lemma_fpow_add(b, e1 * d, e1);
        assert(e1 * d + e1 == e1 * e2) by (nonlinear_arith)
            requires
                d == e2 - 1,
        ;
    }
}

/// The value that four limbs stand for, least significant first.
pub open spec fn limbs_value(l0: u64, l1: u64, l2: u64, l3: u64) -> nat {
    (l0 as nat) + (l1 as nat) * 0x1_0000_0000_0000_0000nat + (l2 as nat)
        * 0x1_0000_0000_0000_0000_0000_0000_0000_0000nat + (l3 as nat)
        * 0x1_0000_0000_0000_0000_0000_0000_0000_0000_0000_0000_0000_0000nat
}

/// Whether the four limbs hold a value below the modulus.
pub(crate) fn below_modulus(l0: u64, l1: u64, l2: u64, l3: u64) -> (below: bool)
    ensures
        below == (limbs_value(l0, l1, l2, l3) < modulus()),
{
    if l3 != 0x73eda753299d7d48 {
        l3 < 0x73eda753299d7d48
    } else if l2 != 0x3339d80809a1d805 {
        l2 < 0x3339d80809a1d805
    } else if l1 != 0x53bda402fffe5bfe {
        l1 < 0x53bda402fffe5bfe
    } else {
        l0 < 0xffffffff00000001
    }
}

/// The sum of two limbs and a carry: a limb and the carry out of it.
pub(crate) fn adc(a: u64, b: u64, carry: u64) -> (r: (u64, u64))
    requires
        carry <= 1,
    ensures
        r.1 <= 1,
        r.0 + r.1 * 0x1_0000_0000_0000_0000 == a + b + carry,
{
    let t: u128 = a as u128 + b as u128 + carry as u128;
    ((t % 0x1_0000_0000_0000_0000) as u64, (t / 0x1_0000_0000_0000_0000) as u64)
}

/// The difference of two limbs less a borrow: a limb and the borrow out of
/// it.
fn sbb(a: u64, b: u64, borrow: u64) -> (r: (u64, u64))
    requires
        borrow <= 1,
    ensures
        r.1 <= 1,
        r.0 - r.1 * 0x1_0000_0000_0000_0000 == a - b - borrow,
{
    let t: u128 = 0x1_0000_0000_0000_0000 + a as u128 - b as u128 - borrow as u128;
    ((t % 0x1_0000_0000_0000_0000) as u64, 1 - (t / 0x1_0000_0000_0000_0000) as u64)
}

/// An element of the field.
#[derive(Clone, Copy, Debug, PartialEq, Eq)]
pub struct Fr {
    l0: u64,
    l1: u64,
    l2: u64,
    l3: u64,
}

impl View for Fr {
    type V = nat;

    closed spec fn view(&self) -> nat {
        limbs_value(self.l0, self.l1, self.l2, self.l3)
    }
}

impl Fr {
    /// The limbs hold a value below the modulus.
    pub open spec fn wf(&self) -> bool {
        self@ < modulus()
    }

    /// The element whose value is `v`.
    pub closed spec fn of(v: nat) -> Fr {
        Fr {
            l0: (v % 0x1_0000_0000_0000_0000nat) as u64,
            l1: ((v / 0x1_0000_0000_0000_0000nat) % 0x1_0000_0000_0000_0000nat) as u64,
            l2: ((v / 0x1_0000_0000_0000_0000_0000_0000_0000_0000nat) % 0x1_0000_0000_0000_0000nat) as u64,
            l3: ((v / 0x1_0000_0000_0000_0000_0000_0000_0000_0000_0000_0000_0000_0000nat)
                % 0x1_0000_0000_0000_0000nat) as u64,
        }
    }

    /// An element is the element of its value.
    pub proof fn lemma_of_view(self)
        ensures
            Fr::of(self@) == self,
    {
        let b: int = 0x1_0000_0000_0000_0000int;
        let b2: int = 0x1_0000_0000_0000_0000_0000_0000_0000_0000int;
        let x = self@ as int;
        let v3 = self.l3 as int;
        let v2 = self.l2 as int + b * v3;
        let v1 = self.l1 as int + b * v2;
        assert(x == self.l0 as int + b * v1);
        lemma_fundamental_div_mod_converse(x, b, v1, self.l0 as int);
        lemma_fundamental_div_mod_converse(v1, b, v2, self.l1 as int);
        lemma_fundamental_div_mod_converse(v2, b, v3, self.l2 as int);
        lemma_small_mod(self.l3 as nat, b as nat);
        assert(x / b2 == v2) by {
            lemma_div_denominator(x, b, b);
        }
        assert(x / (b2 * b) == v3) by {
            lemma_div_denominator(x, b2, b);
        }
    }

    /// The value of the element of `v` is `v`.
    pub proof fn lemma_view_of(v: nat)
        requires
            v < modulus(),
        ensures
            Fr::of(v)@ == v,
            Fr::of(v).wf(),
    {
        let b: int = 0x1_0000_0000_0000_0000int;
        let b2: int = 0x1_0000_0000_0000_0000_0000_0000_0000_0000int;
        let x = v as int;
        let v1 = x / b;
        let v2 = v1 / b;
        let v3 = v2 / b;
        assert(x / b2 == v2) by {
            lemma_div_denominator(x, b, b);
        }
        assert(x / (b2 * b) == v3) by {
            lemma_div_denominator(x, b2, b);
        }
        assert(x == b * v1 + x % b);
        assert(v1 == b * v2 + v1 % b);
        assert(v2 == b * v3 + v2 % b);
        assert(v3 < b);
    }

    /// The additive identity.
    pub fn zero() -> (r: Fr)
        ensures
            r.wf(),
            r@ == 0,
    {
        Fr { l0: 0, l1: 0, l2: 0, l3: 0 }
    }

    /// The multiplicative identity.
    pub fn one() -> (r: Fr)
        ensures
            r.wf(),
            r@ == 1,
    {
        Fr { l0: 1, l1: 0, l2: 0, l3: 0 }
    }

    /// The element with the given limbs, least significant first, if they
    /// hold a value below the modulus.
    pub fn from_limbs(limbs: [u64; 4]) -> (r: Option<Fr>)
        ensures
            match r {
                Some(x) => x.wf() && x@ == limbs_value(limbs[0], limbs[1], limbs[2], limbs[3]),
                None => limbs_value(limbs[0], limbs[1], limbs[2], limbs[3]) >= modulus(),
            },
    {
        let l0: u64 = limbs[0];
        let l1: u64 = limbs[1];
        let l2: u64 = limbs[2];
        let l3: u64 = limbs[3];
        let below = below_modulus(l0, l1, l2, l3);
        if below {
            Some(Fr { l0, l1, l2, l3 })
        } else {
            None
        }
    }

    /// The element with the given limbs, which hold a value below the
    /// modulus.
    pub(crate) fn from_parts(l0: u64, l1: u64, l2: u64, l3: u64) -> (r: Fr)
        requires
            limbs_value(l0, l1, l2, l3) < modulus(),
        ensures
            r.wf(),
            r@ == limbs_value(l0, l1, l2, l3),
    {
        Fr { l0, l1, l2, l3 }
    }

    /// The limbs of the element, least significant first.
    pub fn to_limbs(&self) -> (limbs: [u64; 4])
        ensures
            limbs_value(limbs[0], limbs[1], limbs[2], limbs[3]) == self@,
    {
        [self.l0, self.l1, self.l2, self.l3]
    }
}

/// `w` is a primitive `2^k`-th root of unity: its `2^k`-th power is one and,
/// for `k > 0`, its `2^(k-1)`-th power is `-1`.
pub open spec fn is_primitive_root(w: nat, k: nat) -> bool {
    &&& w < modulus()
    &&& fpow(w, pow2(k)) == 1
    &&& k > 0 ==> fpow(w, pow2((k - 1) as nat)) == neg_one()
}

/// A factor counts modulo the field order.
pub proof fn lemma_fmul_mod(a: nat, b: nat)
    ensures
        fmul(a % modulus(), b) == fmul(a, b),
{
    reveal(fmul);
    lemma_mul_mod_noop_left(a as int, b as int, modulus() as int);
}

/// The multiplicative inverse of `a`, where it has one.
pub open spec fn finv(a: nat) -> nat {
    choose|b: nat| b < modulus() && fmul(a, b) == 1
}

/// A value has at most one inverse.
pub proof fn lemma_finv(a: nat, b: nat)
    requires
        b < modulus(),
        fmul(a, b) == 1,
    ensures
        finv(a) == b,
{
    let c = finv(a);
    lemma_fmul_one(c);
    lemma_fmul_one(b);
    lemma_fmul_assoc(c, a, b);
    lemma_fmul_comm(c, a);
}

pub proof fn lemma_fsub_self(a: nat)
    ensures
        fsub(a, a) == 0,
{
    reveal(fsub);
    lemma_small_mod(0, modulus());
}

/// Two field values whose difference is zero are equal.
pub proof fn lemma_fsub_zero(a: nat, b: nat)
    requires
        a < modulus(),
        b < modulus(),
        fsub(a, b) == 0,
    ensures
        a == b,
{
    reveal(fsub);
    let p = modulus() as int;
    let d = a as int - b as int;
    if d >= 0 {
        lemma_small_mod(d as nat, modulus());
    } else {
        lemma_mod_add_multiples_vanish(d, p);
        lemma_small_mod((p + d) as nat, modulus());
    }
}

/// The square of a primitive `2^k`-th root of unity is a primitive
/// `2^(k-1)`-th root of unity.
pub proof fn lemma_root_squared(w: nat, k: nat)
    requires
        k >= 1,
        is_primitive_root(w, k),
    ensures
        is_primitive_root(fmul(w, w), (k - 1) as nat),
{
    let h = pow2((k - 1) as nat);
    lemma_fmul_bound(w, w);
    lemma_pow2_unfold(k);
    lemma_fpow_fmul(w, w, h);
    lemma_fpow_add(w, h, h);
    if k >= 2 {
        let q = pow2((k - 2) as nat);
        lemma_pow2_unfold((k - 1) as nat);
        lemma_fpow_fmul(w, w, q);
        lemma_fpow_add(w, q, q);
    }
}

/// The inverse of a primitive `2^k`-th root of unity is one too.
pub proof fn lemma_inverse_root(w: nat, winv: nat, k: nat)
    requires
        is_primitive_root(w, k),
        winv < modulus(),
        fmul(w, winv) == 1,
    ensures
        is_primitive_root(winv, k),
{
    let n = pow2(k);
    lemma_fmul_comm(w, winv);
    lemma_fpow_fmul(winv, w, n);
    lemma_fpow_of_one(n);
    lemma_fpow_bound(winv, n);
    lemma_fmul_one(fpow(winv, n));
    if k > 0 {
        let h = pow2((k - 1) as nat);
        let y = fpow(winv, h);
        lemma_fpow_fmul(winv, w, h);
        lemma_fpow_of_one(h);
        lemma_fpow_bound(winv, h);
        // y * -1 == 1, so y == y * (-1 * -1) == -1
        lemma_fmul_assoc(y, neg_one(), neg_one());
        lemma_neg_one_squared();
        lemma_fmul_one(y);
        lemma_fmul_one(neg_one());
    }
}

/// A root of unity is not zero.
pub proof fn lemma_root_nonzero(w: nat, k: nat)
    requires
        is_primitive_root(w, k),
    ensures
        w != 0,
{
    lemma_pow2_pos(k);
    if w == 0 {
        lemma_fmul_zero(fpow(w, (pow2(k) - 1) as nat));
    }
}

/// The powers of two in the field are the powers of two, reduced.
pub proof fn lemma_fpow_two(k: nat)
    ensures
        fpow(2, k) == pow2(k) % modulus(),
    decreases k,
{
    reveal(fmul);
    lemma2_to64();
    if k == 0 {
        lemma_small_mod(1, modulus());
    } else {
        lemma_fpow_two((k - 1) as nat);
        lemma_pow2_unfold(k);
        lemma_mul_mod_noop_left(pow2((k - 1) as nat) as int, 2, modulus() as int);
    }
}

/// The sum of a value with itself is its product with two.
pub proof fn lemma_fadd_self(a: nat)
    ensures
        fadd(a, a) == fmul(a, 2),
{
    reveal(fadd);
    reveal(fmul);
}

/// The root of unity of order `2^TWO_ADICITY` that `paired` fixes for the
/// field: the generator raised to the odd part of `modulus() - 1`.
pub open spec fn root_of_unity() -> nat {
    fpow(generator(), ((modulus() - 1) / (pow2(TWO_ADICITY as nat) as int)) as nat)
}

/// `g` generates the multiplicative group of the field: no power of it below
/// the order of that group is one.
pub open spec fn is_generator(g: nat) -> bool {
    &&& 0 < g < modulus()
    &&& forall|e: nat| 0 < e < modulus() - 1 ==> #[trigger] fpow(g, e) != 1
}

/// The generator of the multiplicative group that `paired` fixes for the field.
pub open spec fn generator() -> nat {
    7
}

/// The limbs of the sum of the values of two elements.
fn add_limbs(a: &Fr, b: &Fr) -> (s: (u64, u64, u64, u64))
    requires
        a.wf(),
        b.wf(),
    ensures
        limbs_value(s.0, s.1, s.2, s.3) == a@ + b@,
{
    let (s0, c) = adc(a.l0, b.l0, 0);
    let (s1, c) = adc(a.l1, b.l1, c);
    let (s2, c) = adc(a.l2, b.l2, c);
    let (s3, c) = adc(a.l3, b.l3, c);
    (s0, s1, s2, s3)
}

/// The element whose value is that of the limbs less the modulus.
pub(crate) fn sub_modulus(s0: u64, s1: u64, s2: u64, s3: u64) -> (r: Fr)
    requires
        modulus() <= limbs_value(s0, s1, s2, s3) < 2 * modulus(),
    ensures
        r@ == limbs_value(s0, s1, s2, s3) - modulus(),
{
    let (d0, w) = sbb(s0, 0xffffffff00000001, 0);
    let (d1, w) = sbb(s1, 0x53bda402fffe5bfe, w);
    let (d2, w) = sbb(s2, 0x3339d80809a1d805, w);
    let (d3, w) = sbb(s3, 0x73eda753299d7d48, w);
    Fr { l0: d0, l1: d1, l2: d2, l3: d3 }
}

/// The sum of two elements.
pub(crate) fn fr_add(a: &Fr, b: &Fr) -> (r: Fr)
    requires
        a.wf(),
        b.wf(),
    ensures
        r.wf(),
        r@ == fadd(a@, b@),
{
    let (s0, s1, s2, s3) = add_limbs(a, b);
    let ghost s = a@ + b@;
    if below_modulus(s0, s1, s2, s3) {
        let r = Fr { l0: s0, l1: s1, l2: s2, l3: s3 };
        proof {
            reveal(fadd);
            lemma_small_mod(s, modulus());
        }
        r
    } else {
        let r = sub_modulus(s0, s1, s2, s3);
        proof {
            reveal(fadd);
            lemma_fundamental_div_mod_converse(
                s as int,
                modulus() as int,
                1,
                s as int - modulus() as int,
            );
        }
        r
    }
}

/// The difference of two elements.
pub(crate) fn fr_sub(a: &Fr, b: &Fr) -> (r: Fr)
    requires
        a.wf(),
        b.wf(),
    ensures
        r.wf(),
        r@ == fsub(a@, b@),
{
    let (d0, w) = sbb(a.l0, b.l0, 0);
    let (d1, w) = sbb(a.l1, b.l1, w);
    let (d2, w) = sbb(a.l2, b.l2, w);
    let (d3, w) = sbb(a.l3, b.l3, w);
    let ghost d = a@ as int - b@ as int;
    assert(limbs_value(d0, d1, d2, d3) - w
        * 0x1_0000_0000_0000_0000_0000_0000_0000_0000_0000_0000_0000_0000_0000_0000_0000_0000int
        == d);
    proof {
        reveal(fsub);
    }
    if w == 0 {
        proof {
            lemma_small_mod(d as nat, modulus());
        }
        Fr { l0: d0, l1: d1, l2: d2, l3: d3 }
    } else {
        let (s0, c) = adc(d0, 0xffffffff00000001, 0);
        let (s1, c) = adc(d1, 0x53bda402fffe5bfe, c);
        let (s2, c) = adc(d2, 0x3339d80809a1d805, c);
        let (s3, c) = adc(d3, 0x73eda753299d7d48, c);
        proof {
            assert(limbs_value(s0, s1, s2, s3) == d + modulus());
            lemma_fundamental_div_mod_converse(d, modulus() as int, -1, d + modulus());
        }
        Fr { l0: s0, l1: s1, l2: s2, l3: s3 }
    }
}

/// `paired`'s `inverse` on `Fr`: nothing for zero, else the element whose
/// product with the argument is one.
#[verifier::external_body]
pub(crate) fn fr_inverse(a: &Fr) -> (r: Option<Fr>)
    requires
        a.wf(),
    ensures
        a@ == 0 ==> r is None,
        a@ != 0 ==> r is Some && r->0.wf() && fmul(a@, r->0@) == 1,
{
    let x = paired::bls12_381::Fr::from_repr(
        paired::bls12_381::FrRepr([a.l0, a.l1, a.l2, a.l3]),
    ).unwrap();
    match x.inverse() {
        Some(y) => {
            let l = y.into_repr().0;
            Some(Fr { l0: l[0], l1: l[1], l2: l[2], l3: l[3] })
        },
        None => None,
    }
}

/// `fff`'s `pow` on `paired`'s `Fr`, with an exponent of one limb: the element
/// raised to that exponent.
#[verifier::external_body]
pub(crate) fn fr_pow(a: &Fr, e: u64) -> (r: Fr)
    requires
        a.wf(),
    ensures
        r.wf(),
        r@ == fpow(a@, e as nat),
{
    let x = paired::bls12_381::Fr::from_repr(
        paired::bls12_381::FrRepr([a.l0, a.l1, a.l2, a.l3]),
    ).unwrap();
    let l = x.pow(&[e]).into_repr().0;
    Fr { l0: l[0], l1: l[1], l2: l[2], l3: l[3] }
}

/// `fff`'s `from_str` on `paired`'s `Fr`, given the decimal digits of `n`: the
/// element of value `n`.
#[verifier::external_body]
pub(crate) fn fr_from_u64(n: u64) -> (r: Fr)
    ensures
        r.wf(),
        r@ == n,
{
    let l = paired::bls12_381::Fr::from_str(&format!("{}", n)).unwrap().into_repr().0;
    Fr { l0: l[0], l1: l[1], l2: l[2], l3: l[3] }
}

/// `paired`'s `multiplicative_generator` for `Fr`: the element 7, whose
/// multiplicative order is the field order less one.
#[verifier::external_body]
pub(crate) fn fr_multiplicative_generator() -> (r: Fr)
    ensures
        r.wf(),
        r@ == generator(),
        is_generator(r@),
{
    let l = paired::bls12_381::Fr::multiplicative_generator().into_repr().0;
    Fr { l0: l[0], l1: l[1], l2: l[2], l3: l[3] }
}

/// `paired`'s `root_of_unity` for `Fr`: the generator raised to the odd part
/// of the order of the multiplicative group, which is a primitive `2^32`-th
/// root of unity.
#[verifier::external_body]
pub(crate) fn fr_root_of_unity() -> (r: Fr)
    ensures
        r.wf(),
        r@ == root_of_unity(),
        is_primitive_root(r@, TWO_ADICITY as nat),
{
    let l = paired::bls12_381::Fr::root_of_unity().into_repr().0;
    Fr { l0: l[0], l1: l[1], l2: l[2], l3: l[3] }
}

/// `paired`'s constant `S` for `Fr`: the two-adicity of the field.
#[verifier::external_body]
pub(crate) fn fr_two_adicity() -> (s: u32)
    ensures
        s == TWO_ADICITY,
{
    paired::bls12_381::Fr::S
}

} // verus!
