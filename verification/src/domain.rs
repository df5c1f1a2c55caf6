//! Evaluation domains: a buffer of `2^k` values together with the constants
//! of the subgroup of `2^k`-th roots of unity, and polynomial arithmetic on
//! that buffer.

use crate::error::SynthesisError;
use crate::fft::{best_fft, done_by_accelerator, pow2_usize};
use crate::field::{
    finv, fmul, fpow, fr_from_u64, fr_inverse, fr_multiplicative_generator, fr_pow,
    fr_root_of_unity, fr_sub, fr_two_adicity, fsub, generator, is_generator,
    is_primitive_root, lemma_finv, lemma_fpow_add, lemma_fpow_bound, lemma_fpow_one,
    lemma_fsub_zero, lemma_inverse_root, lemma_root_nonzero, lemma_root_squared, modulus,
    root_of_unity, Fr, TWO_ADICITY,
};
use crate::gpu::GPUError;
use crate::montgomery::fr_mul;
use crate::group::{Group, Scalar};
use crate::transform::{all_wf, dft, scale_all, with_powers};
use crate::worker::Worker;
use vstd::arithmetic::power2::*;
use vstd::prelude::*;

verus! {

/// `e` is the exponent of the least power of two that is no less than `n`.
pub open spec fn is_domain_exp(n: nat, e: nat) -> bool {
    &&& n <= pow2(e)
    &&& e > 0 ==> pow2((e - 1) as nat) < n
}

/// `x`, filled up with zeros to `m` entries.
pub open spec fn padded<G: Group>(x: Seq<G>, m: nat) -> Seq<G> {
    Seq::new(
        m,
        |i: int|
            if i < x.len() {
                x[i]
            } else {
                G::zero_spec()
            },
    )
}

/// Entry `i` of `x` scaled by entry `i` of `y`.
pub open spec fn pointwise_scaled<G: Group>(x: Seq<G>, y: Seq<Scalar>) -> Seq<G> {
    Seq::new(x.len(), |i: int| x[i].scale_spec(y[i].0@))
}

/// Entry `i` of `x` less entry `i` of `y`.
pub open spec fn pointwise_sub<G: Group>(x: Seq<G>, y: Seq<G>) -> Seq<G> {
    Seq::new(x.len(), |i: int| x[i].sub_spec(y[i]))
}

/// The vanishing polynomial of the subgroup of order `m` at `tau`:
/// `tau^m - 1`.
pub open spec fn vanishing(tau: nat, m: nat) -> nat {
    fsub(fpow(tau, m), 1)
}

/// The exponent of the least power of two that is no less than `len`, where
/// that exponent is no more than `two_adicity`.
pub fn domain_exp(len: usize, two_adicity: u32) -> (r: Result<u32, SynthesisError>)
    ensures
        match r {
            Ok(e) => e <= two_adicity && is_domain_exp(len as nat, e as nat),
            Err(e) => e == SynthesisError::PolynomialDegreeTooLarge && len > pow2(
                two_adicity as nat,
            ),
        },
{
    let mut m: u128 = 1;
    let mut exp: u32 = 0;
    proof {
        lemma2_to64();
    }
    while m < len as u128
        invariant
            m == pow2(exp as nat),
            m >= 1,
            exp <= two_adicity,
            exp > 0 ==> pow2((exp - 1) as nat) < len,
        decreases two_adicity - exp,
    {
        if exp >= two_adicity {
            return Err(SynthesisError::PolynomialDegreeTooLarge);
        }
        proof {
            lemma_pow2_unfold((exp + 1) as nat);
        }
        m = m * 2;
        exp = exp + 1;
    }
    Ok(exp)
}

/// Scales the entries from `start` up to `end` by `k`.
fn scale_range<G: Group>(coeffs: &mut Vec<G>, start: usize, end: usize, k: &Fr)
    requires
        start <= end <= old(coeffs)@.len(),
        all_wf(old(coeffs)@),
        k.wf(),
    ensures
        final(coeffs)@.len() == old(coeffs)@.len(),
        all_wf(final(coeffs)@),
        forall|i: int|
            0 <= i < old(coeffs)@.len() ==> #[trigger] final(coeffs)@[i] == (if start <= i < end {
                old(coeffs)@[i].scale_spec(k@)
            } else {
                old(coeffs)@[i]
            }),
{
    let ghost x = coeffs@;
    let mut i: usize = start;
    while i < end
        invariant
            start <= i <= end <= x.len(),
            coeffs@.len() == x.len(),
            all_wf(coeffs@),
            k.wf(),
            forall|c: int|
                0 <= c < x.len() ==> #[trigger] coeffs@[c] == (if start <= c < i {
                    x[c].scale_spec(k@)
                } else {
                    x[c]
                }),
        decreases end - i,
    {
        let mut v = coeffs[i];
        v.group_mul_assign(k);
        coeffs[i] = v;
        i = i + 1;
    }
}

/// Scales every entry by `k`, chunk by chunk.
fn scale_chunks<G: Group>(coeffs: &mut Vec<G>, worker: &Worker, k: &Fr)
    requires
        worker.wf(),
        all_wf(old(coeffs)@),
        k.wf(),
    ensures
        final(coeffs)@ == scale_all(old(coeffs)@, k@),
        all_wf(final(coeffs)@),
{
    let ghost x = coeffs@;
    let len = coeffs.len();
    let chunk = worker.chunk_size(len);
    let mut start: usize = 0;
    while start < len
        invariant
            start <= len,
            chunk >= 1,
            len == x.len(),
            coeffs@.len() == len,
            all_wf(coeffs@),
            k.wf(),
            forall|c: int|
                0 <= c < len ==> #[trigger] coeffs@[c] == (if c < start {
                    x[c].scale_spec(k@)
                } else {
                    x[c]
                }),
        decreases len - start,
    {
        let end = Worker::chunk_end(start, chunk, len);
        scale_range(coeffs, start, end, k);
        start = end;
    }
    assert(coeffs@ =~= scale_all(x, k@));
}

/// Scales the entries from `start` up to `end` by the powers of `g` that
/// belong to their places.  The first power is computed outright, so that
/// the chunks do not depend on one another; each further one is the one
/// before times `g`.
fn powers_range<G: Group>(coeffs: &mut Vec<G>, start: usize, end: usize, g: &Fr)
    requires
        start <= end <= old(coeffs)@.len(),
        all_wf(old(coeffs)@),
        g.wf(),
    ensures
        final(coeffs)@.len() == old(coeffs)@.len(),
        all_wf(final(coeffs)@),
        forall|i: int|
            0 <= i < old(coeffs)@.len() ==> #[trigger] final(coeffs)@[i] == (if start <= i < end {
                old(coeffs)@[i].scale_spec(fpow(g@, i as nat))
            } else {
                old(coeffs)@[i]
            }),
{
    let ghost x = coeffs@;
    let mut u = fr_pow(g, start as u64);
    let mut i: usize = start;
    while i < end
        invariant
            start <= i <= end <= x.len(),
            coeffs@.len() == x.len(),
            all_wf(coeffs@),
            g.wf(),
            u.wf(),
            u@ == fpow(g@, i as nat),
            forall|c: int|
                0 <= c < x.len() ==> #[trigger] coeffs@[c] == (if start <= c < i {
                    x[c].scale_spec(fpow(g@, c as nat))
                } else {
                    x[c]
                }),
        decreases end - i,
    {
        let mut v = coeffs[i];
        v.group_mul_assign(&u);
        coeffs[i] = v;
        u = fr_mul(&u, g);
        i = i + 1;
    }
}

/// Scales the entries from `start` up to `end` by those of `other`.
fn mul_range<G: Group>(coeffs: &mut Vec<G>, other: &Vec<Scalar>, start: usize, end: usize)
    requires
        start <= end <= old(coeffs)@.len(),
        other@.len() == old(coeffs)@.len(),
        all_wf(old(coeffs)@),
        all_wf(other@),
    ensures
        final(coeffs)@.len() == old(coeffs)@.len(),
        all_wf(final(coeffs)@),
        forall|i: int|
            0 <= i < old(coeffs)@.len() ==> #[trigger] final(coeffs)@[i] == (if start <= i < end {
                old(coeffs)@[i].scale_spec(other@[i].0@)
            } else {
                old(coeffs)@[i]
            }),
{
    let ghost x = coeffs@;
    let mut i: usize = start;
    while i < end
        invariant
            start <= i <= end <= x.len(),
            coeffs@.len() == x.len(),
            other@.len() == x.len(),
            all_wf(coeffs@),
            all_wf(other@),
            forall|c: int|
                0 <= c < x.len() ==> #[trigger] coeffs@[c] == (if start <= c < i {
                    x[c].scale_spec(other@[c].0@)
                } else {
                    x[c]
                }),
        decreases end - i,
    {
        let mut v = coeffs[i];
        let b = other[i];
        assert(other@[i as int].wf());
        v.group_mul_assign(&b.0);
        coeffs[i] = v;
        i = i + 1;
    }
}

/// Takes the entries of `other` from `start` up to `end` off those of
/// `coeffs`.
fn sub_range<G: Group>(coeffs: &mut Vec<G>, other: &Vec<G>, start: usize, end: usize)
    requires
        start <= end <= old(coeffs)@.len(),
        other@.len() == old(coeffs)@.len(),
        all_wf(old(coeffs)@),
        all_wf(other@),
    ensures
        final(coeffs)@.len() == old(coeffs)@.len(),
        all_wf(final(coeffs)@),
        forall|i: int|
            0 <= i < old(coeffs)@.len() ==> #[trigger] final(coeffs)@[i] == (if start <= i < end {
                old(coeffs)@[i].sub_spec(other@[i])
            } else {
                old(coeffs)@[i]
            }),
{
    let ghost x = coeffs@;
    let mut i: usize = start;
    while i < end
        invariant
            start <= i <= end <= x.len(),
            coeffs@.len() == x.len(),
            other@.len() == x.len(),
            all_wf(coeffs@),
            all_wf(other@),
            forall|c: int|
                0 <= c < x.len() ==> #[trigger] coeffs@[c] == (if start <= c < i {
                    x[c].sub_spec(other@[c])
                } else {
                    x[c]
                }),
        decreases end - i,
    {
        let mut v = coeffs[i];
        let b = other[i];
        v.group_sub_assign(&b);
        coeffs[i] = v;
        i = i + 1;
    }
}

/// A polynomial over the subgroup of `2^k`-th roots of unity: `2^k` values,
/// which are its coefficients or its values on the subgroup or on a coset of
/// it, and the constants of the subgroup.
pub struct EvaluationDomain<G: Group> {
    coeffs: Vec<G>,
    exp: u32,
    omega: Fr,
    omegainv: Fr,
    geninv: Fr,
    minv: Fr,
}

impl<G: Group> View for EvaluationDomain<G> {
    type V = Seq<G>;

    closed spec fn view(&self) -> Seq<G> {
        self.coeffs@
    }
}

impl<G: Group> EvaluationDomain<G> {
    /// The `k` of the `2^k` values.
    pub closed spec fn log_size(&self) -> nat {
        self.exp as nat
    }

    /// The root of unity that generates the subgroup.
    pub closed spec fn root(&self) -> nat {
        self.omega@
    }

    /// The inverse of that root.
    pub closed spec fn root_inv(&self) -> nat {
        self.omegainv@
    }

    /// The inverse of the generator of the multiplicative group of the field.
    pub closed spec fn gen_inv(&self) -> nat {
        self.geninv@
    }

    /// The inverse of the number of values.
    pub closed spec fn size_inv(&self) -> nat {
        self.minv@
    }

    /// The domain holds `2^k` well-formed values for a `k` that the field
    /// allows, a primitive `2^k`-th root of unity, and the three inverses.
    pub open spec fn wf(&self) -> bool {
        &&& self@.len() == pow2(self.log_size())
        &&& self.log_size() <= TWO_ADICITY
        &&& all_wf(self@)
        &&& is_primitive_root(self.root(), self.log_size())
        &&& self.root_inv() < modulus()
        &&& fmul(self.root(), self.root_inv()) == 1
        &&& self.gen_inv() < modulus()
        &&& fmul(generator(), self.gen_inv()) == 1
        &&& self.size_inv() < modulus()
        &&& fmul(pow2(self.log_size()), self.size_inv()) == 1
    }

    /// The two domains have the same constants.
    pub open spec fn same_constants(&self, other: &Self) -> bool {
        &&& self.log_size() == other.log_size()
        &&& self.root() == other.root()
        &&& self.root_inv() == other.root_inv()
        &&& self.gen_inv() == other.gen_inv()
        &&& self.size_inv() == other.size_inv()
    }

    /// The values of the domain, to read.
    pub fn as_ref(&self) -> (values: &[G])
        ensures
            values@ == self@,
    {
        self.coeffs.as_slice()
    }

    /// The values of the domain, to change in place.  The number of values
    /// stays as it is.
    pub fn as_mut(&mut self) -> (values: &mut [G])
        ensures
            values@ == old(self)@,
            final(self)@ == final(values)@,
            final(self).same_constants(old(self)),
    {
        self.coeffs.as_mut_slice()
    }

    /// The `k` of the `2^k` values.
    pub fn exp(&self) -> (exp: u32)
        ensures
            exp == self.log_size(),
    {
        self.exp
    }

    /// The root of unity that generates the subgroup.
    pub fn omega(&self) -> (omega: Fr)
        requires
            self.wf(),
        ensures
            omega.wf(),
            omega@ == self.root(),
    {
        self.omega
    }

    /// The inverse of the root of unity that generates the subgroup.
    pub fn omegainv(&self) -> (omegainv: Fr)
        requires
            self.wf(),
        ensures
            omegainv.wf(),
            omegainv@ == self.root_inv(),
    {
        self.omegainv
    }

    /// The inverse of the generator of the multiplicative group of the field.
    pub fn geninv(&self) -> (geninv: Fr)
        requires
            self.wf(),
        ensures
            geninv.wf(),
            geninv@ == self.gen_inv(),
    {
        self.geninv
    }

    /// The inverse of the number of values.
    pub fn minv(&self) -> (minv: Fr)
        requires
            self.wf(),
        ensures
            minv.wf(),
            minv@ == self.size_inv(),
    {
        self.minv
    }

    /// The values of the domain.
    pub fn into_coeffs(self) -> (coeffs: Vec<G>)
        ensures
            coeffs@ == self@,
    {
        self.coeffs
    }

    /// The domain of the polynomial with the given coefficients: the least
    /// one that holds them, with zeros for the coefficients that are not
    /// given.
    ///
    /// Fails where there are more than `2^TWO_ADICITY` coefficients, and
    /// where the domain would have more values than the machine can address.
    pub fn from_coeffs(coeffs: Vec<G>) -> (r: Result<EvaluationDomain<G>, SynthesisError>)
        requires
            all_wf(coeffs@),
        ensures
            r is Err <==> (coeffs@.len() > pow2(TWO_ADICITY as nat) || 2 * coeffs@.len()
                > usize::MAX + 1),
            match r {
                Ok(d) => {
                    &&& d.wf()
                    &&& is_domain_exp(coeffs@.len(), d.log_size())
                    &&& d@ == padded(coeffs@, pow2(d.log_size()))
                    &&& d.root() == fpow(
                        root_of_unity(),
                        pow2((TWO_ADICITY - d.log_size()) as nat),
                    )
                },
                Err(e) => e == SynthesisError::PolynomialDegreeTooLarge,
            },
    {
        let mut coeffs = coeffs;
        let ghost given = coeffs@;
        let s = fr_two_adicity();
        let exp = match domain_exp(coeffs.len(), s) {
            Ok(exp) => exp,
            Err(e) => {
                proof {
                    lemma_size_limit(given.len(), TWO_ADICITY as nat);
                }
                return Err(e);
            },
        };
        proof {
            lemma_size_limit(given.len(), exp as nat);
        }
        if exp >= usize::BITS {
            return Err(SynthesisError::PolynomialDegreeTooLarge);
        }
        let m = pow2_usize(exp);
        // omega, the primitive 2^exp-th root of unity
        let mut omega = fr_root_of_unity();
        let mut i: u32 = exp;
        proof {
            lemma2_to64();
            lemma_fpow_one(root_of_unity());
        }
        while i < s
            invariant
                exp <= i <= s,
                s == TWO_ADICITY,
                omega.wf(),
                is_primitive_root(omega@, (s - (i - exp)) as nat),
                omega@ == fpow(root_of_unity(), pow2((i - exp) as nat)),
            decreases s - i,
        {
            proof {
                lemma_root_squared(omega@, (s - (i - exp)) as nat);
                lemma_fpow_add(
                    root_of_unity(),
                    pow2((i - exp) as nat),
                    pow2((i - exp) as nat),
                );
                lemma_pow2_unfold((i - exp + 1) as nat);
            }
            omega = fr_mul(&omega, &omega);
            i = i + 1;
        }
        // the coefficients that are not given are zero
        while coeffs.len() < m
            invariant
                given.len() <= coeffs@.len() <= m,
                all_wf(coeffs@),
                forall|c: int|
                    0 <= c < coeffs@.len() ==> #[trigger] coeffs@[c] == (if c < given.len() {
                        given[c]
                    } else {
                        G::zero_spec()
                    }),
            decreases m - coeffs@.len(),
        {
            coeffs.push(G::group_zero());
        }
        proof {
            lemma_root_nonzero(omega@, exp as nat);
            lemma2_to64();
            if exp < 32 {
                lemma_pow2_strictly_increases(exp as nat, 32);
            }
            lemma_pow2_pos(exp as nat);
        }
        let omegainv = fr_inverse(&omega).unwrap();
        let geninv = fr_inverse(&fr_multiplicative_generator()).unwrap();
        let minv = fr_inverse(&fr_from_u64(m as u64)).unwrap();
        let d = EvaluationDomain { coeffs, exp, omega, omegainv, geninv, minv };
        proof {
            assert(d@ =~= padded(given, pow2(exp as nat)));
        }
        Ok(d)
    }

    /// Replaces the coefficients of the polynomial by its values on the
    /// subgroup.
    ///
    /// `accel` is what the accelerator answered when the transform was
    /// offered to it, and nothing where there is none; see
    /// [`best_fft`](crate::fft::best_fft).
    pub fn fft(&mut self, worker: &Worker, accel: Option<Result<(), GPUError>>) -> (r: Result<
        (),
        GPUError,
    >)
        requires
            old(self).wf(),
            worker.wf(),
        ensures
            r is Ok,
            final(self).wf(),
            final(self).same_constants(old(self)),
            final(self)@ == (if done_by_accelerator(accel) {
                old(self)@
            } else {
                dft(old(self)@, old(self).root())
            }),
    {
        best_fft(accel, self.coeffs.as_mut_slice(), worker, &self.omega, self.exp)
    }

    /// Replaces the values of the polynomial on the subgroup by its
    /// coefficients: the transform with respect to the inverse root, and
    /// then every value divided by the number of values.
    ///
    /// `accel` is what the accelerator answered when that transform was
    /// offered to it, and nothing where there is none.
    pub fn ifft(&mut self, worker: &Worker, accel: Option<Result<(), GPUError>>) -> (r: Result<
        (),
        GPUError,
    >)
        requires
            old(self).wf(),
            worker.wf(),
        ensures
            r is Ok,
            final(self).wf(),
            final(self).same_constants(old(self)),
            final(self)@ == scale_all(
                if done_by_accelerator(accel) {
                    old(self)@
                } else {
                    dft(old(self)@, old(self).root_inv())
                },
                old(self).size_inv(),
            ),
    {
        proof {
            lemma_inverse_root(self.omega@, self.omegainv@, self.exp as nat);
        }
        let r = best_fft(accel, self.coeffs.as_mut_slice(), worker, &self.omegainv, self.exp);
        scale_chunks(&mut self.coeffs, worker, &self.minv);
        r
    }

    /// Scales value `i` by the `i`-th power of `g`, for every `i`.
    pub fn distribute_powers(&mut self, worker: &Worker, g: Fr)
        requires
            old(self).wf(),
            worker.wf(),
            g.wf(),
        ensures
            final(self).wf(),
            final(self).same_constants(old(self)),
            final(self)@ == with_powers(old(self)@, g@),
    {
        let ghost x = self.coeffs@;
        let len = self.coeffs.len();
        let chunk = worker.chunk_size(len);
        let mut start: usize = 0;
        while start < len
            invariant
                start <= len,
                chunk >= 1,
                len == x.len(),
                self.coeffs@.len() == len,
                all_wf(self.coeffs@),
                g.wf(),
                self.same_constants(old(self)),
                forall|c: int|
                    0 <= c < len ==> #[trigger] self.coeffs@[c] == (if c < start {
                        x[c].scale_spec(fpow(g@, c as nat))
                    } else {
                        x[c]
                    }),
            decreases len - start,
        {
            let end = Worker::chunk_end(start, chunk, len);
            powers_range(&mut self.coeffs, start, end, &g);
            start = end;
        }
        assert(self.coeffs@ =~= with_powers(x, g@));
    }

    /// Replaces the coefficients of the polynomial by its values on the
    /// coset of the subgroup by the generator of the field.
    ///
    /// `accel` reports on the transform that follows the scaling by the
    /// powers of the generator.  A caller that drives an accelerator offers
    /// it the scaled values, and so calls
    /// [`distribute_powers`](Self::distribute_powers) and [`fft`](Self::fft)
    /// itself; every other caller passes nothing.
    pub fn coset_fft(&mut self, worker: &Worker, accel: Option<Result<(), GPUError>>) -> (r:
        Result<(), GPUError>)
        requires
            old(self).wf(),
            worker.wf(),
        ensures
            r is Ok,
            final(self).wf(),
            final(self).same_constants(old(self)),
            final(self)@ == (if done_by_accelerator(accel) {
                with_powers(old(self)@, generator())
            } else {
                dft(with_powers(old(self)@, generator()), old(self).root())
            }),
    {
        self.distribute_powers(worker, fr_multiplicative_generator());
        self.fft(worker, accel)
    }

    /// Replaces the values of the polynomial on the coset by its
    /// coefficients.
    ///
    /// `accel` is what the accelerator answered when the transform was
    /// offered to it, and nothing where there is none.
    pub fn icoset_fft(&mut self, worker: &Worker, accel: Option<Result<(), GPUError>>) -> (r:
        Result<(), GPUError>)
        requires
            old(self).wf(),
            worker.wf(),
        ensures
            r is Ok,
            final(self).wf(),
            final(self).same_constants(old(self)),
            final(self)@ == with_powers(
                scale_all(
                    if done_by_accelerator(accel) {
                        old(self)@
                    } else {
                        dft(old(self)@, old(self).root_inv())
                    },
                    old(self).size_inv(),
                ),
                old(self).gen_inv(),
            ),
    {
        let geninv = self.geninv;
        let r = self.ifft(worker, accel);
        self.distribute_powers(worker, geninv);
        r
    }

    /// The vanishing polynomial of the subgroup at `tau`.
    pub fn z(&self, tau: &Fr) -> (r: Fr)
        requires
            self.wf(),
            tau.wf(),
        ensures
            r.wf(),
            r@ == vanishing(tau@, self@.len()),
    {
        let tmp = fr_pow(tau, self.coeffs.len() as u64);
        fr_sub(&tmp, &Fr::one())
    }

    /// Divides the values of a polynomial on the coset by those of the
    /// vanishing polynomial, which has the same value at every point of the
    /// coset, and not zero.
    pub fn divide_by_z_on_coset(&mut self, worker: &Worker)
        requires
            old(self).wf(),
            worker.wf(),
        ensures
            final(self).wf(),
            final(self).same_constants(old(self)),
            vanishing(generator(), old(self)@.len()) != 0,
            final(self)@ == scale_all(
                old(self)@,
                finv(vanishing(generator(), old(self)@.len())),
            ),
    {
        let g = fr_multiplicative_generator();
        let zg = self.z(&g);
        proof {
            lemma_coset_z(self.exp as nat);
        }
        let i = fr_inverse(&zg).unwrap();
        proof {
            lemma_finv(zg@, i@);
        }
        scale_chunks(&mut self.coeffs, worker, &i);
    }

    /// Multiplies two polynomials that are held by their values: value by
    /// value.
    pub fn mul_assign(&mut self, worker: &Worker, other: &EvaluationDomain<Scalar>)
        requires
            old(self).wf(),
            other.wf(),
            worker.wf(),
            old(self)@.len() == other@.len(),
        ensures
            final(self).wf(),
            final(self).same_constants(old(self)),
            final(self)@ == pointwise_scaled(old(self)@, other@),
    {
        let ghost x = self.coeffs@;
        let len = self.coeffs.len();
        let chunk = worker.chunk_size(len);
        let mut start: usize = 0;
        while start < len
            invariant
                start <= len,
                chunk >= 1,
                len == x.len(),
                self.coeffs@.len() == len,
                other.coeffs@.len() == len,
                all_wf(self.coeffs@),
                all_wf(other.coeffs@),
                self.same_constants(old(self)),
                forall|c: int|
                    0 <= c < len ==> #[trigger] self.coeffs@[c] == (if c < start {
                        x[c].scale_spec(other.coeffs@[c].0@)
                    } else {
                        x[c]
                    }),
            decreases len - start,
        {
            let end = Worker::chunk_end(start, chunk, len);
            mul_range(&mut self.coeffs, &other.coeffs, start, end);
            start = end;
        }
        assert(self.coeffs@ =~= pointwise_scaled(x, other@));
    }

    /// Subtracts a polynomial from another: value by value.
    pub fn sub_assign(&mut self, worker: &Worker, other: &EvaluationDomain<G>)
        requires
            old(self).wf(),
            other.wf(),
            worker.wf(),
            old(self)@.len() == other@.len(),
        ensures
            final(self).wf(),
            final(self).same_constants(old(self)),
            final(self)@ == pointwise_sub(old(self)@, other@),
    {
        let ghost x = self.coeffs@;
        let len = self.coeffs.len();
        let chunk = worker.chunk_size(len);
        let mut start: usize = 0;
        while start < len
            invariant
                start <= len,
                chunk >= 1,
                len == x.len(),
                self.coeffs@.len() == len,
                other.coeffs@.len() == len,
                all_wf(self.coeffs@),
                all_wf(other.coeffs@),
                self.same_constants(old(self)),
                forall|c: int|
                    0 <= c < len ==> #[trigger] self.coeffs@[c] == (if c < start {
                        x[c].sub_spec(other.coeffs@[c])
                    } else {
                        x[c]
                    }),
            decreases len - start,
        {
            let end = Worker::chunk_end(start, chunk, len);
            sub_range(&mut self.coeffs, &other.coeffs, start, end);
            start = end;
        }
        assert(self.coeffs@ =~= pointwise_sub(x, other@));
    }
}

/// A buffer of `n` entries, of which the least power of two that holds them
/// is `2^e`, is more than `2^limit` entries long only if `e` is more than
/// `limit`; and `2^e` is less than twice `n`.
proof fn lemma_size_limit(n: nat, e: nat)
    ensures
        is_domain_exp(n, e) && n > 1 ==> pow2(e) < 2 * n,
        is_domain_exp(n, e) && e >= usize::BITS ==> 2 * n > usize::MAX + 1,
        e < usize::BITS ==> pow2(e) <= usize::MAX,
        2 * n > usize::MAX + 1 && n <= pow2(e) ==> e >= usize::BITS,
{
    lemma2_to64();
    lemma_pow2_unfold(32);
    lemma_pow2_unfold(64);
    let b: nat = usize::BITS as nat;
    if e > 0 {
        lemma_pow2_unfold(e);
    }
    if e >= b {
        if e > b {
            lemma_pow2_strictly_increases((b - 1) as nat, (e - 1) as nat);
        }
    } else {
        if e < b - 1 {
            lemma_pow2_strictly_increases(e, (b - 1) as nat);
        }
    }
}

/// The vanishing polynomial of a subgroup of order `2^k`, for a `k` that the
/// field allows, is not zero at the generator of the field.
pub proof fn lemma_coset_z(k: nat)
    requires
        k <= TWO_ADICITY,
        is_generator(generator()),
    ensures
        vanishing(generator(), pow2(k)) != 0,
{
    lemma2_to64();
    lemma_pow2_pos(k);
    if k < 32 {
        lemma_pow2_strictly_increases(k, 32);
    }
    lemma_fpow_bound(generator(), pow2(k));
    if vanishing(generator(), pow2(k)) == 0 {
        lemma_fsub_zero(fpow(generator(), pow2(k)), 1);
    }
}

} // verus!
