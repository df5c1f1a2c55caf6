//! The values that an evaluation domain holds.
//!
//! A domain is a sequence of values that can be added, subtracted and scaled
//! by field elements: a module over the field.  [`Group`] is that capability
//! set together with the laws of a module, which every implementation proves;
//! the transforms are verified against the laws alone.  [`Scalar`] is the
//! field acting on itself.

use crate::field::{
    fadd, fmul, fr_add, fr_sub, fsub, lemma_fadd_assoc, lemma_fadd_bound, lemma_fadd_comm,
    lemma_fadd_zero, lemma_fmul_assoc, lemma_fmul_bound, lemma_fmul_fadd, lemma_fmul_one,
    lemma_fadd_neg, lemma_fadd_self, lemma_fmul_comm, lemma_fmul_zero, lemma_fsub_bound,
    lemma_fsub_is_fadd, lemma_neg_one_squared, neg_one, Fr,
};
use crate::montgomery::fr_mul;
use vstd::prelude::*;

verus! {

/// A module over the field.
///
/// The specification functions say what the methods compute.  Scalars are
/// given by their values, and a scalar value counts modulo the field order.
pub trait Group: Sized + Copy {
    /// The value is one that the methods accept.
    spec fn wf(&self) -> bool;

    spec fn zero_spec() -> Self;

    spec fn add_spec(self, other: Self) -> Self;

    spec fn sub_spec(self, other: Self) -> Self;

    spec fn scale_spec(self, k: nat) -> Self;

    fn group_zero() -> (z: Self)
        ensures
            z.wf(),
            z == Self::zero_spec(),
    ;

    fn group_mul_assign(&mut self, by: &Fr)
        requires
            old(self).wf(),
            by.wf(),
        ensures
            final(self).wf(),
            *final(self) == old(self).scale_spec(by@),
    ;

    fn group_add_assign(&mut self, other: &Self)
        requires
            old(self).wf(),
            other.wf(),
        ensures
            final(self).wf(),
            *final(self) == old(self).add_spec(*other),
    ;

    fn group_sub_assign(&mut self, other: &Self)
        requires
            old(self).wf(),
            other.wf(),
        ensures
            final(self).wf(),
            *final(self) == old(self).sub_spec(*other),
    ;

    /// Whatever the operations give is well formed.
    proof fn lemma_wf(a: Self, b: Self, k: nat)
        ensures
            Self::zero_spec().wf(),
            a.add_spec(b).wf(),
            a.sub_spec(b).wf(),
            a.scale_spec(k).wf(),
    ;

    proof fn lemma_add_comm(a: Self, b: Self)
        ensures
            a.add_spec(b) == b.add_spec(a),
    ;

    proof fn lemma_add_assoc(a: Self, b: Self, c: Self)
        ensures
            a.add_spec(b).add_spec(c) == a.add_spec(b.add_spec(c)),
    ;

    proof fn lemma_add_zero(a: Self)
        requires
            a.wf(),
        ensures
            a.add_spec(Self::zero_spec()) == a,
    ;

    /// Subtracting is adding the value scaled by `-1`.
    proof fn lemma_sub(a: Self, b: Self)
        ensures
            a.sub_spec(b) == a.add_spec(b.scale_spec(neg_one())),
    ;

    proof fn lemma_scale_zero(k: nat)
        ensures
            Self::zero_spec().scale_spec(k) == Self::zero_spec(),
    ;

    proof fn lemma_scale_by_zero(a: Self)
        ensures
            a.scale_spec(0) == Self::zero_spec(),
    ;

    proof fn lemma_scale_one(a: Self)
        requires
            a.wf(),
        ensures
            a.scale_spec(1) == a,
    ;

    proof fn lemma_scale_add(a: Self, b: Self, k: nat)
        ensures
            a.add_spec(b).scale_spec(k) == a.scale_spec(k).add_spec(b.scale_spec(k)),
    ;

    proof fn lemma_scale_scale(a: Self, k1: nat, k2: nat)
        ensures
            a.scale_spec(k1).scale_spec(k2) == a.scale_spec(fmul(k1, k2)),
    ;

    proof fn lemma_scale_fadd(a: Self, k1: nat, k2: nat)
        ensures
            a.scale_spec(fadd(k1, k2)) == a.scale_spec(k1).add_spec(a.scale_spec(k2)),
    ;
}

/// A field element as a value of a domain.
#[derive(Clone, Copy, Debug, PartialEq, Eq)]
pub struct Scalar(pub Fr);

impl Group for Scalar {
    open spec fn wf(&self) -> bool {
        self.0.wf()
    }

    open spec fn zero_spec() -> Self {
        Scalar(Fr::of(0))
    }

    open spec fn add_spec(self, other: Self) -> Self {
        Scalar(Fr::of(fadd(self.0@, other.0@)))
    }

    open spec fn sub_spec(self, other: Self) -> Self {
        Scalar(Fr::of(fsub(self.0@, other.0@)))
    }

    open spec fn scale_spec(self, k: nat) -> Self {
        Scalar(Fr::of(fmul(self.0@, k)))
    }

    fn group_zero() -> (z: Self) {
        let r = Fr::zero();
        proof {
            r.lemma_of_view();
        }
        Scalar(r)
    }

    fn group_mul_assign(&mut self, by: &Fr) {
        let r = fr_mul(&self.0, by);
        proof {
            r.lemma_of_view();
        }
        self.0 = r;
    }

    fn group_add_assign(&mut self, other: &Self) {
        let r = fr_add(&self.0, &other.0);
        proof {
            r.lemma_of_view();
        }
        self.0 = r;
    }

    fn group_sub_assign(&mut self, other: &Self) {
        let r = fr_sub(&self.0, &other.0);
        proof {
            r.lemma_of_view();
        }
        self.0 = r;
    }

    proof fn lemma_wf(a: Self, b: Self, k: nat) {
        lemma_fadd_bound(a.0@, b.0@);
        lemma_fsub_bound(a.0@, b.0@);
        lemma_fmul_bound(a.0@, k);
        Fr::lemma_view_of(0);
        Fr::lemma_view_of(fadd(a.0@, b.0@));
        Fr::lemma_view_of(fsub(a.0@, b.0@));
        Fr::lemma_view_of(fmul(a.0@, k));
    }

    proof fn lemma_add_comm(a: Self, b: Self) {
        lemma_fadd_comm(a.0@, b.0@);
    }

    proof fn lemma_add_assoc(a: Self, b: Self, c: Self) {
        lemma_fadd_bound(a.0@, b.0@);
        lemma_fadd_bound(b.0@, c.0@);
        Fr::lemma_view_of(fadd(a.0@, b.0@));
        Fr::lemma_view_of(fadd(b.0@, c.0@));
        lemma_fadd_assoc(a.0@, b.0@, c.0@);
    }

    proof fn lemma_add_zero(a: Self) {
        Fr::lemma_view_of(0);
        lemma_fadd_zero(a.0@);
        a.0.lemma_of_view();
    }

    proof fn lemma_sub(a: Self, b: Self) {
        lemma_fmul_bound(b.0@, neg_one());
        Fr::lemma_view_of(fmul(b.0@, neg_one()));
        lemma_fsub_is_fadd(a.0@, b.0@);
    }

    proof fn lemma_scale_zero(k: nat) {
        Fr::lemma_view_of(0);
        lemma_fmul_zero(k);
    }

    proof fn lemma_scale_by_zero(a: Self) {
        lemma_fmul_zero(a.0@);
    }

    proof fn lemma_scale_one(a: Self) {
        lemma_fmul_one(a.0@);
        a.0.lemma_of_view();
    }

    proof fn lemma_scale_add(a: Self, b: Self, k: nat) {
        lemma_fadd_bound(a.0@, b.0@);
        lemma_fmul_bound(a.0@, k);
        lemma_fmul_bound(b.0@, k);
        Fr::lemma_view_of(fadd(a.0@, b.0@));
        Fr::lemma_view_of(fmul(a.0@, k));
        Fr::lemma_view_of(fmul(b.0@, k));
        lemma_fmul_fadd(k, a.0@, b.0@);
    }

    proof fn lemma_scale_scale(a: Self, k1: nat, k2: nat) {
        lemma_fmul_bound(a.0@, k1);
        Fr::lemma_view_of(fmul(a.0@, k1));
        lemma_fmul_assoc(a.0@, k1, k2);
    }

    proof fn lemma_scale_fadd(a: Self, k1: nat, k2: nat) {
        lemma_fmul_bound(a.0@, k1);
        lemma_fmul_bound(a.0@, k2);
        Fr::lemma_view_of(fmul(a.0@, k1));
        Fr::lemma_view_of(fmul(a.0@, k2));
        lemma_fmul_fadd(a.0@, k1, k2);
    }
}

/// Scaling by two scalars in turn does not depend on their order.
pub proof fn lemma_scale_comm<G: Group>(a: G, k1: nat, k2: nat)
    ensures
        a.scale_spec(k1).scale_spec(k2) == a.scale_spec(k2).scale_spec(k1),
{
    G::lemma_scale_scale(a, k1, k2);
    G::lemma_scale_scale(a, k2, k1);
    lemma_fmul_comm(k1, k2);
}

/// Scaling a difference scales both of its terms.
pub proof fn lemma_scale_sub<G: Group>(a: G, b: G, k: nat)
    ensures
        a.sub_spec(b).scale_spec(k) == a.scale_spec(k).sub_spec(b.scale_spec(k)),
{
    G::lemma_sub(a, b);
    G::lemma_scale_add(a, b.scale_spec(neg_one()), k);
    lemma_scale_comm(b, neg_one(), k);
    G::lemma_sub(a.scale_spec(k), b.scale_spec(k));
}

/// A value and the same value scaled by `-1` sum to zero.
pub proof fn lemma_add_neg<G: Group>(a: G)
    requires
        a.wf(),
    ensures
        a.add_spec(a.scale_spec(neg_one())) == G::zero_spec(),
{
    G::lemma_scale_one(a);
    G::lemma_scale_fadd(a, 1, neg_one());
    lemma_fadd_neg(1);
    lemma_fmul_one(neg_one());
    G::lemma_scale_by_zero(a);
}

/// Zero added on the left changes nothing.
pub proof fn lemma_zero_add<G: Group>(a: G)
    requires
        a.wf(),
    ensures
        G::zero_spec().add_spec(a) == a,
{
    G::lemma_add_comm(G::zero_spec(), a);
    G::lemma_add_zero(a);
}

/// `(a + b) + (a - b) == a + a`.
pub proof fn lemma_sum_plus_diff<G: Group>(a: G, b: G)
    requires
        a.wf(),
        b.wf(),
    ensures
        a.add_spec(b).add_spec(a.sub_spec(b)) == a.add_spec(a),
{
    let nb = b.scale_spec(neg_one());
    G::lemma_sub(a, b);
    G::lemma_add_assoc(a.add_spec(b), a, nb);
    G::lemma_add_assoc(a, b, a);
    G::lemma_add_comm(b, a);
    G::lemma_add_assoc(a, a, b);
    G::lemma_add_assoc(a.add_spec(a), b, nb);
    lemma_add_neg(b);
    G::lemma_wf(a, a, 0);
    G::lemma_add_zero(a.add_spec(a));
}

/// `(a + b) - (a - b) == b + b`.
pub proof fn lemma_sum_minus_diff<G: Group>(a: G, b: G)
    requires
        a.wf(),
        b.wf(),
    ensures
        a.add_spec(b).sub_spec(a.sub_spec(b)) == b.add_spec(b),
{
    let na = a.scale_spec(neg_one());
    let nb = b.scale_spec(neg_one());
    // -(a - b) == -a + b
    G::lemma_sub(a.add_spec(b), a.sub_spec(b));
    G::lemma_sub(a, b);
    G::lemma_scale_add(a, nb, neg_one());
    G::lemma_scale_scale(b, neg_one(), neg_one());
    lemma_neg_one_squared();
    G::lemma_scale_one(b);
    // (a + b) + (-a + b) == (a + -a) + (b + b)
    G::lemma_add_assoc(a.add_spec(b), na, b);
    G::lemma_add_assoc(a, b, na);
    G::lemma_add_comm(b, na);
    G::lemma_add_assoc(a, na, b);
    G::lemma_add_assoc(a.add_spec(na), b, b);
    lemma_add_neg(a);
    G::lemma_wf(b, b, 0);
    lemma_zero_add(b.add_spec(b));
}

/// A value added to itself is the value scaled by two.
pub proof fn lemma_scale_double<G: Group>(a: G, k: nat)
    ensures
        a.scale_spec(k).add_spec(a.scale_spec(k)) == a.scale_spec(fmul(k, 2)),
{
    G::lemma_scale_fadd(a, k, k);
    lemma_fadd_self(k);
}

} // verus!
