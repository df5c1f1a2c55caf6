use evaldomain::field::Fr;
use evaldomain::gpu::{create_fft_kernel, kernel_size, GPUError};
use evaldomain::group::{Group, Scalar};
use evaldomain::worker::Worker;
use fff::{Field, PrimeField};

fn lift(x: &paired::bls12_381::Fr) -> Fr {
    Fr::from_limbs(x.into_repr().0).unwrap()
}

fn lower(x: &Fr) -> paired::bls12_381::Fr {
    paired::bls12_381::Fr::from_repr(paired::bls12_381::FrRepr(x.to_limbs())).unwrap()
}

const MODULUS: [u64; 4] = [
    0xffffffff00000001,
    0x53bda402fffe5bfe,
    0x3339d80809a1d805,
    0x73eda753299d7d48,
];

#[test]
fn limbs_below_the_modulus_are_elements() {
    assert_eq!(Fr::from_limbs([0, 0, 0, 0]), Some(Fr::zero()));
    assert_eq!(Fr::from_limbs([1, 0, 0, 0]), Some(Fr::one()));
    assert_eq!(Fr::from_limbs(MODULUS), None);
    let mut below = MODULUS;
    below[0] -= 1;
    assert_eq!(Fr::from_limbs(below).unwrap().to_limbs(), below);
    let mut above = MODULUS;
    above[0] += 1;
    assert_eq!(Fr::from_limbs(above), None);
    assert_eq!(Fr::from_limbs([0, 0, 0, 0x73eda753299d7d49]), None);
    assert_eq!(Fr::from_limbs([u64::MAX, u64::MAX, u64::MAX, 0x73eda753299d7d47]).map(|x| x.to_limbs()),
        Some([u64::MAX, u64::MAX, u64::MAX, 0x73eda753299d7d47]));
    assert_eq!(Fr::from_limbs([0, 0x53bda402fffe5bff, 0x3339d80809a1d805, 0x73eda753299d7d48]), None);
    assert_eq!(Fr::from_limbs([u64::MAX; 4]), None);
    assert_eq!(paired::bls12_381::Fr::char().0, MODULUS);
}

#[test]
fn limbs_agree_with_the_field_of_the_curve() {
    let rng = &mut rand::thread_rng();
    for _ in 0..100 {
        let x = paired::bls12_381::Fr::random(rng);
        assert_eq!(lower(&lift(&x)), x);
    }
    assert_eq!(lower(&Fr::zero()), paired::bls12_381::Fr::zero());
    assert_eq!(lower(&Fr::one()), paired::bls12_381::Fr::one());
}

#[test]
fn scalar_operations_are_those_of_the_field() {
    let rng = &mut rand::thread_rng();
    for _ in 0..100 {
        let a = paired::bls12_381::Fr::random(rng);
        let b = paired::bls12_381::Fr::random(rng);

        let mut got = Scalar(lift(&a));
        got.group_add_assign(&Scalar(lift(&b)));
        let mut expected = a;
        expected.add_assign(&b);
        assert_eq!(lower(&got.0), expected);

        let mut got = Scalar(lift(&a));
        got.group_sub_assign(&Scalar(lift(&b)));
        let mut expected = a;
        expected.sub_assign(&b);
        assert_eq!(lower(&got.0), expected);

        let mut got = Scalar(lift(&a));
        got.group_mul_assign(&lift(&b));
        let mut expected = a;
        expected.mul_assign(&b);
        assert_eq!(lower(&got.0), expected);
    }
    assert_eq!(Scalar::group_zero(), Scalar(Fr::zero()));
}

#[test]
fn scalar_operations_on_small_values() {
    let n = |k: u64| Scalar(Fr::from_limbs([k, 0, 0, 0]).unwrap());
    let mut x = n(6);
    x.group_add_assign(&n(7));
    assert_eq!(x, n(13));
    x.group_sub_assign(&n(3));
    assert_eq!(x, n(10));
    x.group_mul_assign(&n(12).0);
    assert_eq!(x, n(120));
    // the largest element and one sum to zero
    let mut below = MODULUS;
    below[0] -= 1;
    let mut y = Scalar(Fr::from_limbs(below).unwrap());
    y.group_add_assign(&n(1));
    assert_eq!(y, n(0));
    // and its square is one
    let mut y = Scalar(Fr::from_limbs(below).unwrap());
    y.group_mul_assign(&Fr::from_limbs(below).unwrap());
    assert_eq!(y, n(1));
}

#[test]
fn worker_counts_processors_in_powers_of_two() {
    for (cpus, log) in [(0usize, 0u32), (1, 0), (2, 1), (3, 1), (4, 2), (7, 2), (8, 3), (9, 3), (1023, 9), (1024, 10), (usize::MAX, usize::BITS - 1)] {
        assert_eq!(Worker::new(cpus).log_num_cpus(), log);
    }
}

#[test]
fn worker_cuts_a_buffer_into_chunks() {
    let w = Worker::new(4);
    assert_eq!(w.chunk_size(0), 1);
    assert_eq!(w.chunk_size(3), 1);
    assert_eq!(w.chunk_size(4), 1);
    assert_eq!(w.chunk_size(7), 1);
    assert_eq!(w.chunk_size(8), 2);
    assert_eq!(w.chunk_size(1000), 250);
    assert_eq!(Worker::new(0).chunk_size(10), 10);
    assert_eq!(Worker::chunk_end(0, 3, 10), 3);
    assert_eq!(Worker::chunk_end(9, 3, 10), 10);
    assert_eq!(Worker::chunk_end(7, 3, 10), 10);
    assert_eq!(Worker::chunk_end(6, 3, 10), 9);
    assert_eq!(Worker::chunk_end(usize::MAX - 1, usize::MAX, usize::MAX), usize::MAX);
}

#[test]
fn kernel_is_made_where_the_device_agrees() {
    let k = create_fft_kernel(10, true, Ok(())).unwrap();
    assert_eq!(k.max_size(), 1024);
    assert!(k.priority());
    let k = create_fft_kernel(0, false, Ok(())).unwrap();
    assert_eq!(k.max_size(), 1);
    assert!(!k.priority());
    assert_eq!(create_fft_kernel(10, true, Err(GPUError::GPUDisabled)), None);
    assert_eq!(create_fft_kernel(10, false, Err(GPUError::DeviceFailure)), None);
    assert_eq!(create_fft_kernel(10, false, Err(GPUError::KernelUninitialized)), None);
    assert_eq!(create_fft_kernel(usize::BITS as usize, false, Ok(())), None);
    assert_eq!(create_fft_kernel(usize::MAX, false, Ok(())), None);
    assert_eq!(kernel_size(usize::BITS as usize - 1), Some(1 << (usize::BITS - 1)));
    assert_eq!(kernel_size(usize::BITS as usize), None);
    assert_eq!(kernel_size(5), Some(32));
}

fn check_against_the_curve(a: &paired::bls12_381::Fr, b: &paired::bls12_381::Fr) {
    let mut got = Scalar(lift(a));
    got.group_mul_assign(&lift(b));
    let mut expected = *a;
    expected.mul_assign(b);
    assert_eq!(lower(&got.0), expected);

    let mut got = Scalar(lift(a));
    got.group_add_assign(&Scalar(lift(b)));
    let mut expected = *a;
    expected.add_assign(b);
    assert_eq!(lower(&got.0), expected);

    let mut got = Scalar(lift(a));
    got.group_sub_assign(&Scalar(lift(b)));
    let mut expected = *a;
    expected.sub_assign(b);
    assert_eq!(lower(&got.0), expected);
}

#[test]
fn arithmetic_agrees_with_the_curve_on_many_values() {
    let rng = &mut rand::thread_rng();
    for _ in 0..3000 {
        let a = paired::bls12_381::Fr::random(rng);
        let b = paired::bls12_381::Fr::random(rng);
        check_against_the_curve(&a, &b);
    }
}

#[test]
fn arithmetic_agrees_with_the_curve_at_the_edges() {
    let mut below = MODULUS;
    below[0] -= 1;
    let edges: Vec<paired::bls12_381::Fr> = [
        [0u64, 0, 0, 0],
        [1, 0, 0, 0],
        [2, 0, 0, 0],
        [u64::MAX, 0, 0, 0],
        [0, 1, 0, 0],
        [u64::MAX, u64::MAX, 0, 0],
        [0, 0, 1, 0],
        [u64::MAX, u64::MAX, u64::MAX, 0],
        [0, 0, 0, 1],
        [u64::MAX, u64::MAX, u64::MAX, 0x73eda753299d7d47],
        [0, 0, 0, 0x73eda753299d7d48],
        [0xffffffff00000000, 0x53bda402fffe5bfe, 0x3339d80809a1d805, 0x73eda753299d7d48],
        [0x7fffffff80000000, 0xa9ded2017fff2dff, 0x199cec0404d0ec02, 0x39f6d3a994cebea4],
        [0x7fffffff80000001, 0xa9ded2017fff2dff, 0x199cec0404d0ec02, 0x39f6d3a994cebea4],
        below,
    ]
    .iter()
    .map(|l| lower(&Fr::from_limbs(*l).unwrap()))
    .collect();
    for a in &edges {
        for b in &edges {
            check_against_the_curve(a, b);
        }
    }
}
