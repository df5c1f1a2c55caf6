use evaldomain::domain::{domain_exp, EvaluationDomain};
use evaldomain::error::SynthesisError;
use evaldomain::fft::{best_fft, parallel_fft, serial_fft};
use evaldomain::field::Fr;
use evaldomain::gpu::GPUError;
use evaldomain::group::{Group, Scalar};
use evaldomain::worker::Worker;
use fff::{Field, PrimeField};
use rand_core::RngCore;
use std::cmp::min;

fn lift(x: &paired::bls12_381::Fr) -> Fr {
    Fr::from_limbs(x.into_repr().0).unwrap()
}

fn lower(x: &Fr) -> paired::bls12_381::Fr {
    paired::bls12_381::Fr::from_repr(paired::bls12_381::FrRepr(x.to_limbs())).unwrap()
}

fn random_scalar<R: RngCore>(rng: &mut R) -> Scalar {
    Scalar(lift(&paired::bls12_381::Fr::random(rng)))
}

fn random_scalars<R: RngCore>(rng: &mut R, n: usize) -> Vec<Scalar> {
    (0..n).map(|_| random_scalar(rng)).collect()
}

fn zero() -> Scalar {
    Scalar(Fr::zero())
}

fn small(n: u64) -> Scalar {
    Scalar(Fr::from_limbs([n, 0, 0, 0]).unwrap())
}

fn test_mul<R: RngCore>(rng: &mut R) {
    let worker = Worker::new(4);

    for coeffs_a in 0..70 {
        for coeffs_b in 0..70 {
            let mut a: Vec<_> = (0..coeffs_a).map(|_| random_scalar(rng)).collect();
            let mut b: Vec<_> = (0..coeffs_b).map(|_| random_scalar(rng)).collect();

            // naive evaluation
            let mut naive = vec![zero(); coeffs_a + coeffs_b];
            for (i1, a) in a.iter().enumerate() {
                for (i2, b) in b.iter().enumerate() {
                    let mut prod = *a;
                    prod.group_mul_assign(&b.0);
                    naive[i1 + i2].group_add_assign(&prod);
                }
            }

            a.resize(coeffs_a + coeffs_b, zero());
            b.resize(coeffs_a + coeffs_b, zero());

            let mut a = EvaluationDomain::from_coeffs(a).unwrap();
            let mut b = EvaluationDomain::from_coeffs(b).unwrap();

            a.fft(&worker, None).unwrap();
            b.fft(&worker, None).unwrap();
            a.mul_assign(&worker, &b);
            a.ifft(&worker, None).unwrap();

            for (naive, fft) in naive.iter().zip(a.as_ref().iter()) {
                assert!(naive == fft);
            }
        }
    }
}

// Multiplies polynomials of low degree and compares with the naive product.
#[test]
fn polynomial_arith() {
    let rng = &mut rand::thread_rng();

    test_mul(rng);
}

fn test_comp<R: RngCore>(rng: &mut R) {
    let worker = Worker::new(4);

    for coeffs in 0..10 {
        let coeffs = 1 << coeffs;

        let mut v = vec![];
        for _ in 0..coeffs {
            v.push(random_scalar(rng));
        }

        let mut domain = EvaluationDomain::from_coeffs(v.clone()).unwrap();
        domain.ifft(&worker, None).unwrap();
        domain.fft(&worker, None).unwrap();
        assert!(v == domain.as_ref());
        domain.fft(&worker, None).unwrap();
        domain.ifft(&worker, None).unwrap();
        assert!(v == domain.as_ref());
        domain.icoset_fft(&worker, None).unwrap();
        domain.coset_fft(&worker, None).unwrap();
        assert!(v == domain.as_ref());
        domain.coset_fft(&worker, None).unwrap();
        domain.icoset_fft(&worker, None).unwrap();
        assert!(v == domain.as_ref());
    }
}

#[test]
fn fft_composition() {
    let rng = &mut rand::thread_rng();

    test_comp(rng);
}

fn test_consistency<R: RngCore>(rng: &mut R) {
    for _ in 0..5 {
        for log_d in 0..10 {
            let d = 1 << log_d;

            let v1 = (0..d).map(|_| random_scalar(rng)).collect::<Vec<_>>();
            let v1 = EvaluationDomain::from_coeffs(v1).unwrap();
            let omega = v1.omega();
            let mut v1 = v1.into_coeffs();
            let mut v2 = v1.clone();

            for log_cpus in log_d..min(log_d + 1, 3) {
                parallel_fft(&mut v1, &omega, log_d, log_cpus);
                serial_fft(&mut v2, &omega, log_d);

                assert!(v1 == v2);
            }
        }
    }
}

#[test]
fn parallel_fft_consistency() {
    let rng = &mut rand::thread_rng();

    test_consistency(rng);
}

// The transform in parts against the serial one, for every split.
#[test]
fn parallel_matches_serial_for_every_split() {
    let rng = &mut rand::thread_rng();
    for log_n in 0..10u32 {
        let v = random_scalars(rng, 1 << log_n);
        let d = EvaluationDomain::from_coeffs(v).unwrap();
        let omega = d.omega();
        let input = d.into_coeffs();
        let mut serial = input.clone();
        serial_fft(&mut serial, &omega, log_n);
        for log_p in 0..=log_n {
            let mut parallel = input.clone();
            parallel_fft(&mut parallel, &omega, log_n, log_p);
            assert_eq!(parallel, serial);
        }
    }
}

// The serial transform against the sum that defines it.
#[test]
fn serial_fft_is_the_dft() {
    let rng = &mut rand::thread_rng();
    for log_n in 0..6u32 {
        let n = 1usize << log_n;
        let v = random_scalars(rng, n);
        let d = EvaluationDomain::from_coeffs(v.clone()).unwrap();
        let omega = lower(&d.omega());
        let mut a = d.into_coeffs();
        serial_fft(&mut a, &lift(&omega), log_n);
        for k in 0..n {
            let mut sum = paired::bls12_381::Fr::zero();
            for j in 0..n {
                let mut term = lower(&v[j].0);
                term.mul_assign(&omega.pow(&[(j * k) as u64]));
                sum.add_assign(&term);
            }
            assert_eq!(lower(&a[k].0), sum);
        }
    }
}

#[test]
fn serial_fft_of_two_entries() {
    // the primitive second root of unity is -1: (a, b) goes to (a + b, a - b)
    let d = EvaluationDomain::from_coeffs(vec![small(5), small(3)]).unwrap();
    let omega = d.omega();
    let mut minus_one = paired::bls12_381::Fr::one();
    minus_one.negate();
    assert_eq!(lower(&omega), minus_one);
    let mut a = d.into_coeffs();
    serial_fft(&mut a, &omega, 1);
    assert_eq!(a, vec![small(8), small(2)]);
}

#[test]
fn best_fft_keeps_what_the_accelerator_did() {
    let rng = &mut rand::thread_rng();
    let worker = Worker::new(2);
    let v = random_scalars(rng, 8);
    let d = EvaluationDomain::from_coeffs(v.clone()).unwrap();
    let omega = d.omega();
    let mut expected = v.clone();
    serial_fft(&mut expected, &omega, 3);

    let mut a = v.clone();
    assert_eq!(best_fft(Some(Ok(())), &mut a, &worker, &omega, 3), Ok(()));
    assert_eq!(a, v);

    let mut a = v.clone();
    assert_eq!(best_fft(Some(Err(GPUError::DeviceFailure)), &mut a, &worker, &omega, 3), Ok(()));
    assert_eq!(a, expected);

    let mut a = v.clone();
    assert_eq!(best_fft(None, &mut a, &worker, &omega, 3), Ok(()));
    assert_eq!(a, expected);
}

#[test]
fn best_fft_is_the_same_on_any_number_of_processors() {
    let rng = &mut rand::thread_rng();
    let v = random_scalars(rng, 64);
    let d = EvaluationDomain::from_coeffs(v.clone()).unwrap();
    let omega = d.omega();
    let mut expected = v.clone();
    serial_fft(&mut expected, &omega, 6);
    for cpus in [0usize, 1, 2, 3, 4, 7, 8, 64, 100, 1000] {
        let mut a = v.clone();
        best_fft(None, &mut a, &Worker::new(cpus), &omega, 6).unwrap();
        assert_eq!(a, expected);
    }
}

#[test]
fn from_coeffs_pads_with_zeros() {
    let rng = &mut rand::thread_rng();
    for (n, m, exp) in [(0usize, 1usize, 0u32), (1, 1, 0), (2, 2, 1), (3, 4, 2), (4, 4, 2), (5, 8, 3), (9, 16, 4), (17, 32, 5), (100, 128, 7)] {
        let v = random_scalars(rng, n);
        let d = EvaluationDomain::from_coeffs(v.clone()).unwrap();
        assert_eq!(d.exp(), exp);
        assert_eq!(d.as_ref().len(), m);
        assert_eq!(&d.as_ref()[..n], &v[..]);
        for c in &d.as_ref()[n..] {
            assert_eq!(*c, zero());
        }
    }
}

#[test]
fn from_coeffs_gives_the_constants_of_the_subgroup() {
    let rng = &mut rand::thread_rng();
    for exp in 0..8u32 {
        let m = 1u64 << exp;
        let d = EvaluationDomain::from_coeffs(random_scalars(rng, m as usize)).unwrap();
        let omega = lower(&d.omega());
        let one = paired::bls12_381::Fr::one();
        let mut minus_one = one;
        minus_one.negate();
        // a primitive root of unity of order m
        assert_eq!(omega.pow(&[m]), one);
        if exp > 0 {
            assert_eq!(omega.pow(&[m / 2]), minus_one);
        }
        let mut root = paired::bls12_381::Fr::root_of_unity();
        for _ in exp..32 {
            root.square();
        }
        assert_eq!(omega, root);
        // the three inverses
        let mut t = lower(&d.omegainv());
        t.mul_assign(&omega);
        assert_eq!(t, one);
        let mut t = lower(&d.geninv());
        t.mul_assign(&paired::bls12_381::Fr::multiplicative_generator());
        assert_eq!(t, one);
        let mut t = lower(&d.minv());
        t.mul_assign(&paired::bls12_381::Fr::from_str(&format!("{}", m)).unwrap());
        assert_eq!(t, one);
    }
}

#[test]
fn degree_too_large() {
    // a field with two-adicity 8
    assert_eq!(domain_exp(257, 8), Err(SynthesisError::PolynomialDegreeTooLarge));
    assert_eq!(domain_exp(256, 8), Ok(8));
    assert_eq!(domain_exp(255, 8), Ok(8));
    assert_eq!(domain_exp(129, 8), Ok(8));
    assert_eq!(domain_exp(128, 8), Ok(7));
    assert_eq!(domain_exp(0, 8), Ok(0));
    assert_eq!(domain_exp(1, 8), Ok(0));
    assert_eq!(domain_exp(2, 8), Ok(1));
    assert_eq!(domain_exp(3, 8), Ok(2));
    assert_eq!(domain_exp(1, 0), Ok(0));
    assert_eq!(domain_exp(2, 0), Err(SynthesisError::PolynomialDegreeTooLarge));
}

#[test]
fn largest_domain_of_the_field() {
    let most = 1u64 << 32;
    if let Ok(most) = usize::try_from(most) {
        assert_eq!(domain_exp(most, 32), Ok(32));
        assert_eq!(domain_exp(most + 1, 32), Err(SynthesisError::PolynomialDegreeTooLarge));
    }
}

#[test]
fn short_inputs_survive_the_transforms() {
    let rng = &mut rand::thread_rng();
    let worker = Worker::new(4);
    let mut empty = EvaluationDomain::<Scalar>::from_coeffs(vec![]).unwrap();
    let x = random_scalar(rng);
    let mut single = EvaluationDomain::from_coeffs(vec![x]).unwrap();
    assert_eq!(empty.as_ref(), &[zero()][..]);
    assert_eq!(single.as_ref(), &[x][..]);
    empty.fft(&worker, None).unwrap();
    single.fft(&worker, None).unwrap();
    assert_eq!(empty.as_ref(), &[zero()][..]);
    assert_eq!(single.as_ref(), &[x][..]);
    empty.ifft(&worker, None).unwrap();
    single.ifft(&worker, None).unwrap();
    assert_eq!(empty.as_ref(), &[zero()][..]);
    assert_eq!(single.as_ref(), &[x][..]);
    empty.coset_fft(&worker, None).unwrap();
    single.coset_fft(&worker, None).unwrap();
    assert_eq!(empty.as_ref(), &[zero()][..]);
    assert_eq!(single.as_ref(), &[x][..]);
    empty.icoset_fft(&worker, None).unwrap();
    single.icoset_fft(&worker, None).unwrap();
    assert_eq!(empty.as_ref(), &[zero()][..]);
    assert_eq!(single.as_ref(), &[x][..]);
    let mut a = vec![x];
    serial_fft(&mut a, &Fr::one(), 0);
    assert_eq!(a, vec![x]);
    parallel_fft(&mut a, &Fr::one(), 0, 0);
    assert_eq!(a, vec![x]);
}

#[test]
fn two_ffts_then_two_iffts() {
    let rng = &mut rand::thread_rng();
    let worker = Worker::new(3);
    for log_n in 0..8 {
        let v = random_scalars(rng, 1 << log_n);
        let mut d = EvaluationDomain::from_coeffs(v.clone()).unwrap();
        d.fft(&worker, None).unwrap();
        d.fft(&worker, None).unwrap();
        d.ifft(&worker, None).unwrap();
        d.ifft(&worker, None).unwrap();
        assert!(v == d.as_ref());
    }
}

#[test]
fn distribute_powers_scales_by_the_powers() {
    let rng = &mut rand::thread_rng();
    for cpus in [1usize, 2, 3, 5, 16, 100] {
        let worker = Worker::new(cpus);
        let v = random_scalars(rng, 32);
        let g = paired::bls12_381::Fr::random(rng);
        let mut d = EvaluationDomain::from_coeffs(v.clone()).unwrap();
        d.distribute_powers(&worker, lift(&g));
        for (i, (got, given)) in d.as_ref().iter().zip(v.iter()).enumerate() {
            let mut expected = lower(&given.0);
            expected.mul_assign(&g.pow(&[i as u64]));
            assert_eq!(lower(&got.0), expected);
        }
    }
}

#[test]
fn distribute_powers_and_back() {
    let rng = &mut rand::thread_rng();
    let worker = Worker::new(4);
    let v = random_scalars(rng, 64);
    let mut d = EvaluationDomain::from_coeffs(v.clone()).unwrap();
    let g = paired::bls12_381::Fr::multiplicative_generator();
    d.distribute_powers(&worker, lift(&g));
    assert!(v != d.as_ref());
    let geninv = d.geninv();
    d.distribute_powers(&worker, geninv);
    assert!(v == d.as_ref());
}

#[test]
fn vanishing_polynomial() {
    let rng = &mut rand::thread_rng();
    for exp in 0..8u32 {
        let m = 1u64 << exp;
        let d = EvaluationDomain::from_coeffs(random_scalars(rng, m as usize)).unwrap();
        // tau^m - 1 at a random point
        let tau = paired::bls12_381::Fr::random(rng);
        let mut expected = tau.pow(&[m]);
        expected.sub_assign(&paired::bls12_381::Fr::one());
        assert_eq!(lower(&d.z(&lift(&tau))), expected);
        // zero on the subgroup
        let omega = lower(&d.omega());
        for k in [0u64, 1, 2, 3, 5, m, m + 1, 1000] {
            assert_eq!(d.z(&lift(&omega.pow(&[k]))), Fr::zero());
        }
        // not zero at the generator
        let g = paired::bls12_381::Fr::multiplicative_generator();
        assert!(d.z(&lift(&g)) != Fr::zero());
    }
    // exact values: 3^4 - 1 and 2^1 - 1
    let d = EvaluationDomain::from_coeffs(vec![zero(); 4]).unwrap();
    assert_eq!(d.z(&small(3).0), small(80).0);
    let d = EvaluationDomain::from_coeffs(vec![zero(); 1]).unwrap();
    assert_eq!(d.z(&small(2).0), small(1).0);
}

#[test]
fn divide_by_z_on_coset_scales_by_the_inverse() {
    let rng = &mut rand::thread_rng();
    let worker = Worker::new(4);
    for exp in 0..7u32 {
        let m = 1u64 << exp;
        let v = random_scalars(rng, m as usize);
        let mut d = EvaluationDomain::from_coeffs(v).unwrap();
        d.coset_fft(&worker, None).unwrap();
        let on_coset: Vec<Scalar> = d.as_ref().to_vec();
        d.divide_by_z_on_coset(&worker);
        let mut zinv = paired::bls12_381::Fr::multiplicative_generator().pow(&[m]);
        zinv.sub_assign(&paired::bls12_381::Fr::one());
        let zinv = zinv.inverse().unwrap();
        for (got, before) in d.as_ref().iter().zip(on_coset.iter()) {
            let mut expected = lower(&before.0);
            expected.mul_assign(&zinv);
            assert_eq!(lower(&got.0), expected);
        }
    }
}

#[test]
fn mul_assign_and_sub_assign_work_entry_by_entry() {
    let worker = Worker::new(3);
    let mut a = EvaluationDomain::from_coeffs(vec![small(2), small(3), small(5), small(7)]).unwrap();
    let b = EvaluationDomain::from_coeffs(vec![small(10), small(20), small(30), small(40)]).unwrap();
    a.mul_assign(&worker, &b);
    assert_eq!(a.as_ref(), &[small(20), small(60), small(150), small(280)][..]);
    let c = EvaluationDomain::from_coeffs(vec![small(1), small(60), small(50), small(80)]).unwrap();
    a.sub_assign(&worker, &c);
    assert_eq!(a.as_ref(), &[small(19), small(0), small(100), small(200)][..]);
    // a difference below zero wraps round the field order
    let mut z = EvaluationDomain::from_coeffs(vec![small(0)]).unwrap();
    let one = EvaluationDomain::from_coeffs(vec![small(1)]).unwrap();
    z.sub_assign(&worker, &one);
    let mut minus_one = paired::bls12_381::Fr::one();
    minus_one.negate();
    assert_eq!(lower(&z.as_ref()[0].0), minus_one);
}

#[test]
fn into_coeffs_hands_the_values_out() {
    let v = vec![small(1), small(2), small(3)];
    let d = EvaluationDomain::from_coeffs(v).unwrap();
    assert_eq!(d.into_coeffs(), vec![small(1), small(2), small(3), small(0)]);
}

#[test]
fn domain_keeps_what_the_accelerator_did() {
    let rng = &mut rand::thread_rng();
    let worker = Worker::new(2);
    let v = random_scalars(rng, 16);

    let mut by_library = EvaluationDomain::from_coeffs(v.clone()).unwrap();
    by_library.fft(&worker, None).unwrap();

    // the transform done outside, in the buffer of the domain
    let mut d = EvaluationDomain::from_coeffs(v.clone()).unwrap();
    let omega = d.omega();
    let exp = d.exp();
    serial_fft(d.as_mut(), &omega, exp);
    assert_eq!(d.fft(&worker, Some(Ok(()))), Ok(()));
    assert_eq!(d.as_ref(), by_library.as_ref());

    // and back: only the division by the length is left to the library
    let omegainv = d.omegainv();
    serial_fft(d.as_mut(), &omegainv, exp);
    assert_eq!(d.ifft(&worker, Some(Ok(()))), Ok(()));
    assert!(v == d.as_ref());

    // a failure of the accelerator leaves the transform to the library
    let mut d = EvaluationDomain::from_coeffs(v.clone()).unwrap();
    assert_eq!(d.fft(&worker, Some(Err(GPUError::KernelUninitialized))), Ok(()));
    assert_eq!(d.as_ref(), by_library.as_ref());
    assert_eq!(d.ifft(&worker, Some(Err(GPUError::GPUDisabled))), Ok(()));
    assert!(v == d.as_ref());
}

#[test]
fn polynomial_product_of_degrees_five_and_four() {
    let rng = &mut rand::thread_rng();
    let worker = Worker::new(4);
    let a = random_scalars(rng, 6);
    let b = random_scalars(rng, 5);
    let mut naive = vec![zero(); 10];
    for (i, x) in a.iter().enumerate() {
        for (j, y) in b.iter().enumerate() {
            let mut prod = *x;
            prod.group_mul_assign(&y.0);
            naive[i + j].group_add_assign(&prod);
        }
    }
    let mut a = a;
    let mut b = b;
    a.resize(10, zero());
    b.resize(10, zero());
    let mut a = EvaluationDomain::from_coeffs(a).unwrap();
    let mut b = EvaluationDomain::from_coeffs(b).unwrap();
    assert_eq!(a.as_ref().len(), 16);
    assert_eq!(b.as_ref().len(), 16);
    a.fft(&worker, None).unwrap();
    b.fft(&worker, None).unwrap();
    a.mul_assign(&worker, &b);
    a.ifft(&worker, None).unwrap();
    assert_eq!(&a.as_ref()[..10], &naive[..]);
}

#[test]
fn transforms_of_small_values() {
    let worker = Worker::new(1);
    // with respect to -1, (5, 3) goes to (8, 2) and comes back
    let mut d = EvaluationDomain::from_coeffs(vec![small(5), small(3)]).unwrap();
    d.fft(&worker, None).unwrap();
    assert_eq!(d.as_ref(), &[small(8), small(2)][..]);
    d.ifft(&worker, None).unwrap();
    assert_eq!(d.as_ref(), &[small(5), small(3)][..]);
    // the powers of two
    let mut d = EvaluationDomain::from_coeffs(vec![small(1), small(1), small(3), small(10)]).unwrap();
    d.distribute_powers(&worker, small(2).0);
    assert_eq!(d.as_ref(), &[small(1), small(2), small(12), small(80)][..]);
    // on the coset of the generator 7, (5, 3) is (5, 21) before the transform
    let mut d = EvaluationDomain::from_coeffs(vec![small(5), small(3)]).unwrap();
    d.coset_fft(&worker, None).unwrap();
    let mut minus_sixteen = paired::bls12_381::Fr::from_str("16").unwrap();
    minus_sixteen.negate();
    assert_eq!(d.as_ref(), &[small(26), Scalar(lift(&minus_sixteen))][..]);
    // and the vanishing polynomial is 7^2 - 1 everywhere on it
    d.divide_by_z_on_coset(&worker);
    let inv48 = paired::bls12_381::Fr::from_str("48").unwrap().inverse().unwrap();
    let mut first = paired::bls12_381::Fr::from_str("26").unwrap();
    first.mul_assign(&inv48);
    let mut second = minus_sixteen;
    second.mul_assign(&inv48);
    assert_eq!(d.as_ref(), &[Scalar(lift(&first)), Scalar(lift(&second))][..]);
}
