//! The radix-2 number-theoretic transforms: the serial one, in place, and the
//! one that splits the work into independent shorter transforms.

use crate::field::{
    fmul, fpow, fr_pow, is_primitive_root, lemma_fmul_one, lemma_fpow_add,
    lemma_fpow_bound, lemma_fpow_fpow, lemma_fpow_of_one, lemma_fpow_one, neg_one, Fr,
};
use crate::gpu::GPUError;
use crate::montgomery::fr_mul;
use crate::group::Group;
use crate::worker::Worker;
use crate::sums::{gsum, lemma_gsum_columns, lemma_gsum_one, lemma_gsum_scale};
use crate::transform::{all_wf, dft, dft_at, dft_term, evens, lemma_butterfly, odds};
use vstd::arithmetic::div_mod::*;
use vstd::arithmetic::mul::*;
use vstd::arithmetic::power2::*;
use vstd::prelude::*;

verus! {

/// The number whose `bits` lowest binary digits are those of `b` in reverse
/// order.
pub open spec fn bitrev(b: nat, bits: nat) -> nat
    decreases bits,
{
    if bits == 0 {
        0
    } else {
        (if b % 2 == 1 {
            pow2((bits - 1) as nat)
        } else {
            0
        }) + bitrev(b / 2, (bits - 1) as nat)
    }
}

pub proof fn lemma_bitrev_bound(b: nat, bits: nat)
    ensures
        bitrev(b, bits) < pow2(bits),
    decreases bits,
{
    if bits == 0 {
        lemma2_to64();
    } else {
        lemma_bitrev_bound(b / 2, (bits - 1) as nat);
        lemma_pow2_unfold(bits);
    }
}

/// Reversal moves the highest digit to the lowest place.
proof fn lemma_bitrev_top(c: bool, z: nat, w: nat)
    requires
        w >= 1,
        z < pow2((w - 1) as nat),
    ensures
        bitrev((if c { pow2((w - 1) as nat) } else { 0 }) + z, w)
            == 2 * bitrev(z, (w - 1) as nat) + (if c { 1nat } else { 0nat }),
    decreases w,
{
    let y = (if c { pow2((w - 1) as nat) } else { 0 }) + z;
    if w == 1 {
        lemma2_to64();
        reveal_with_fuel(bitrev, 2);
    } else {
        lemma_pow2_unfold((w - 1) as nat);
        let half = pow2((w - 2) as nat);
        assert(y % 2 == z % 2);
        assert(y / 2 == (if c { half } else { 0 }) + z / 2);
        lemma_bitrev_top(c, z / 2, (w - 1) as nat);
    }
}

/// Reversing twice gives the number back.
pub proof fn lemma_bitrev_involution(x: nat, w: nat)
    requires
        x < pow2(w),
    ensures
        bitrev(bitrev(x, w), w) == x,
    decreases w,
{
    if w == 0 {
        lemma2_to64();
    } else {
        lemma_pow2_unfold(w);
        let q = x / 2;
        let z = bitrev(q, (w - 1) as nat);
        lemma_bitrev_bound(q, (w - 1) as nat);
        lemma_bitrev_involution(q, (w - 1) as nat);
        lemma_bitrev_top(x % 2 == 1, z, w);
    }
}

/// `n` with its `l` lowest binary digits in reverse order.
fn bitreverse(n: usize, l: u32) -> (r: usize)
    requires
        n < pow2(l as nat) <= usize::MAX,
    ensures
        r == bitrev(n as nat, l as nat),
{
    let mut r: usize = 0;
    let mut n: usize = n;
    let ghost n0 = n;
    let mut i: u32 = 0;
    proof {
        lemma2_to64();
    }
    while i < l
        invariant
            i <= l,
            pow2(l as nat) <= usize::MAX,
            r < pow2(i as nat),
            bitrev(n0 as nat, l as nat) == r * pow2((l - i) as nat) + bitrev(
                n as nat,
                (l - i) as nat,
            ),
        decreases l - i,
    {
        proof {
            lemma_pow2_unfold((i + 1) as nat);
            lemma_pow2_unfold((l - i) as nat);
            if i + 1 < l {
                lemma_pow2_strictly_increases((i + 1) as nat, l as nat);
            }
            let rest = pow2((l - i - 1) as nat);
            assert((r * 2 + n % 2) * rest == r * (2 * rest) + (n % 2) * rest)
                by (nonlinear_arith);
            assert((n % 2) * rest == if n % 2 == 1 { rest } else { 0 }) by (nonlinear_arith)
                requires
                    n % 2 == 0 || n % 2 == 1,
            ;
        }
        r = r * 2 + n % 2;
        n = n / 2;
        i = i + 1;
    }
    proof {
        lemma2_to64();
        assert(r * pow2(0) == r) by (nonlinear_arith)
            requires
                pow2(0) == 1,
        ;
    }
    r
}

/// The `len` entries of `x` from place `r` on, `stride` apart.
pub open spec fn block_input<G>(x: Seq<G>, r: nat, stride: nat, len: nat) -> Seq<G> {
    Seq::new(len, |j: int| x[r + j * stride])
}

/// What the serial transform of `x`, `2^l` entries long, holds at place `i`
/// once `s` rounds of butterflies are done: blocks of `2^s` places, each the
/// transform of the entries of `x` that lie `2^(l - s)` apart from the
/// reversed number of the block on.
pub open spec fn staged_at<G: Group>(x: Seq<G>, w: nat, l: nat, s: nat, i: int) -> G {
    let size = pow2(s);
    let stride = pow2((l - s) as nat);
    dft_at(
        block_input(x, bitrev((i / (size as int)) as nat, (l - s) as nat), stride, size),
        fpow(w, stride),
        (i % (size as int)) as nat,
    )
}

/// The places from `lo` up to `hi` hold what `s` rounds leave there.
pub open spec fn staged<G: Group>(
    a: Seq<G>,
    x: Seq<G>,
    w: nat,
    l: nat,
    s: nat,
    lo: int,
    hi: int,
) -> bool {
    forall|i: int| lo <= i < hi ==> #[trigger] a[i] == staged_at(x, w, l, s, i)
}

/// Before any round, place `i` holds the entry whose number is `i` reversed.
proof fn lemma_staged_first<G: Group>(x: Seq<G>, w: nat, l: nat, i: int)
    requires
        x.len() == pow2(l),
        all_wf(x),
        0 <= i < x.len(),
    ensures
        staged_at(x, w, l, 0, i) == x[bitrev(i as nat, l) as int],
{
    lemma2_to64();
    let r = bitrev(i as nat, l);
    lemma_bitrev_bound(i as nat, l);
    let y = block_input(x, r, pow2(l), 1);
    let t = dft_term(y, fpow(w, pow2(l)), 0);
    assert(y[0] == x[r as int]);
    G::lemma_scale_one(x[r as int]);
    lemma_gsum_one(t);
}

/// After the last round, place `i` holds the transform at `i`.
proof fn lemma_staged_last<G: Group>(x: Seq<G>, w: nat, l: nat, i: int)
    requires
        x.len() == pow2(l),
        w < crate::field::modulus(),
        0 <= i < x.len(),
    ensures
        staged_at(x, w, l, l, i) == dft_at(x, w, i as nat),
{
    lemma2_to64();
    lemma_fpow_one(w);
    lemma_small_mod(i as nat, pow2(l));
    lemma_basic_div(i, pow2(l) as int);
    assert(block_input(x, 0, 1, pow2(l)) =~= x);
}

/// One round: the places `t` and `2^s + t` of the block of `2^(s + 1)` places
/// with number `q` after round `s + 1`, from the same two places after round
/// `s`.
proof fn lemma_stage<G: Group>(x: Seq<G>, w: nat, l: nat, s: nat, q: nat, t: nat)
    requires
        s < l,
        x.len() == pow2(l),
        q < pow2((l - s - 1) as nat),
        t < pow2(s),
        fpow(w, pow2((l - 1) as nat)) == neg_one(),
    ensures
        ({
            let m = pow2(s) as int;
            let lo = q * (2 * m) + t;
            let hi = q * (2 * m) + m + t;
            let c = fpow(fpow(w, pow2((l - s - 1) as nat)), t);
            let u = staged_at(x, w, l, s, lo);
            let v = staged_at(x, w, l, s, hi).scale_spec(c);
            &&& staged_at(x, w, l, s + 1, lo) == u.add_spec(v)
            &&& staged_at(x, w, l, s + 1, hi) == u.sub_spec(v)
        }),
{
    let m = pow2(s) as int;
    let m2 = pow2(s + 1) as int;
    let st = pow2((l - s - 1) as nat);
    let st2 = pow2((l - s) as nat);
    let lo = q * (2 * m) + t;
    let hi = q * (2 * m) + m + t;
    lemma_pow2_pos(s);
    lemma_pow2_unfold(s + 1);
    lemma_pow2_unfold((l - s) as nat);
    assert(m2 == 2 * m);
    assert(st2 == 2 * st);
    // where the two places lie, in blocks of either size
    assert(q * (2 * m) == (2 * q) * m) by (nonlinear_arith);
    assert(q * (2 * m) + m == (2 * q + 1) * m) by (nonlinear_arith);
    lemma_fundamental_div_mod_converse(lo, m2, q as int, t as int);
    lemma_fundamental_div_mod_converse(hi, m2, q as int, m + t);
    lemma_fundamental_div_mod_converse(lo, m, 2 * (q as int), t as int);
    lemma_fundamental_div_mod_converse(hi, m, 2 * (q as int) + 1, t as int);
    // the block and its two halves
    let r = bitrev(q, (l - s - 1) as nat);
    let y = block_input(x, r, st, m2 as nat);
    let v = fpow(w, st);
    assert(bitrev(2 * q, (l - s) as nat) == r);
    assert(bitrev(2 * q + 1, (l - s) as nat) == st + r);
    let ye = block_input(x, r, st2, m as nat);
    let yo = block_input(x, st + r, st2, m as nat);
    assert(evens(y) =~= ye) by {
        assert forall|i: int| 0 <= i < m implies evens(y)[i] == ye[i] by {
            assert((2 * i) * st == i * st2) by (nonlinear_arith)
                requires
                    st2 == 2 * st,
            ;
        }
    }
    assert(odds(y) =~= yo) by {
        assert forall|i: int| 0 <= i < m implies odds(y)[i] == yo[i] by {
            assert((2 * i + 1) * st == st + i * st2) by (nonlinear_arith)
                requires
                    st2 == 2 * st,
            ;
        }
    }
    lemma_fpow_add(w, st, st);
    assert(fmul(v, v) == fpow(w, st2));
    lemma_fpow_fpow(w, st, m as nat);
    lemma_pow2_adds((l - s - 1) as nat, s);
    assert(fpow(v, m as nat) == neg_one());
    lemma_butterfly(y, v, t);
}

/// The transform of `a` with respect to `omega`, in place: the entries are
/// put in bit-reversed order and then combined by `log_n` rounds of
/// butterflies.
pub fn serial_fft<G: Group>(a: &mut [G], omega: &Fr, log_n: u32)
    requires
        old(a)@.len() == pow2(log_n as nat),
        all_wf(old(a)@),
        is_primitive_root(omega@, log_n as nat),
    ensures
        final(a)@ == dft(old(a)@, omega@),
        all_wf(final(a)@),
{
    let n = a.len();
    let ghost x = a@;
    let ghost w = omega@;
    let ghost l = log_n as nat;
    proof {
        assert forall|i: int| 0 <= i < n implies bitrev(#[trigger] bitrev(i as nat, l), l) == i
            && bitrev(i as nat, l) < n by {
            lemma_bitrev_involution(i as nat, l);
            lemma_bitrev_bound(i as nat, l);
        }
    }
    let mut k: usize = 0;
    while k < n
        invariant
            k <= n,
            n == pow2(l),
            l == log_n,
            a@.len() == n,
            x.len() == n,
            all_wf(x),
            forall|i: int|
                0 <= i < n ==> bitrev(#[trigger] bitrev(i as nat, l), l) == i && bitrev(
                    i as nat,
                    l,
                ) < n,
            forall|i: int|
                0 <= i < n ==> #[trigger] a@[i] == (if i < k || bitrev(i as nat, l) < k {
                    x[bitrev(i as nat, l) as int]
                } else {
                    x[i]
                }),
        decreases n - k,
    {
        let rk = bitreverse(k, log_n);
        if k < rk {
            let t = a[k];
            a[k] = a[rk];
            a[rk] = t;
        }
        k = k + 1;
    }
    proof {
        assert(all_wf(a@)) by {
            assert forall|i: int| 0 <= i < n implies (#[trigger] a@[i]).wf() by {
                assert(x[bitrev(i as nat, l) as int].wf());
            }
        }
        assert(staged(a@, x, w, l, 0, 0, n as int)) by {
            assert forall|i: int| 0 <= i < n implies #[trigger] a@[i] == staged_at(
                x,
                w,
                l,
                0,
                i,
            ) by {
                lemma_staged_first(x, w, l, i);
            }
        }
        lemma2_to64();
    }
    let mut m: usize = 1;
    let mut s: u32 = 0;
    while s < log_n
        invariant
            s <= log_n,
            l == log_n,
            w == omega@,
            is_primitive_root(w, l),
            m == pow2(s as nat),
            n == pow2(l),
            a@.len() == n,
            x.len() == n,
            all_wf(a@),
            staged(a@, x, w, l, s as nat, 0, n as int),
        decreases log_n - s,
    {
        let ghost st = pow2((l - s - 1) as nat);
        proof {
            lemma_pow2_adds((l - s - 1) as nat, (s + 1) as nat);
            lemma_pow2_unfold((s + 1) as nat);
            lemma_pow2_pos(s as nat);
            lemma_pow2_pos((l - s - 1) as nat);
            assert(n == st * (2 * m));
            lemma_mul_is_commutative(st as int, 2 * m);
            lemma_div_multiples_vanish(st as int, 2 * m);
            assert(st <= n && 2 * m <= n) by (nonlinear_arith)
                requires
                    n == st * (2 * m),
                    m >= 1,
                    st >= 1,
            ;
        }
        let w_m = fr_pow(omega, (n / (2 * m)) as u64);
        let mut k: usize = 0;
        let ghost mut q: nat = 0;
        while k < n
            invariant
                s < log_n,
                l == log_n,
                is_primitive_root(w, l),
                m == pow2(s as nat),
                n == pow2(l),
                st == pow2((l - s - 1) as nat),
                n == st * (2 * m),
                m >= 1,
                a@.len() == n,
                x.len() == n,
                all_wf(a@),
                w_m.wf(),
                w_m@ == fpow(w, st),
                k == q * (2 * m),
                q <= st,
                staged(a@, x, w, l, (s + 1) as nat, 0, k as int),
                staged(a@, x, w, l, s as nat, k as int, n as int),
            decreases n - k,
        {
            proof {
                assert(q < st) by (nonlinear_arith)
                    requires
                        k < n,
                        k == q * (2 * m),
                        n == st * (2 * m),
                        m >= 1,
                ;
                assert((q + 1) * (2 * m) <= st * (2 * m)) by (nonlinear_arith)
                    requires
                        q < st,
                        m >= 1,
                ;
                assert((q + 1) * (2 * m) == q * (2 * m) + 2 * m) by (nonlinear_arith);
            }
            let mut w_j = Fr::one();
            let mut j: usize = 0;
            while j < m
                invariant
                    j <= m,
                    s < log_n,
                    l == log_n,
                    is_primitive_root(w, l),
                    m == pow2(s as nat),
                    n == pow2(l),
                    st == pow2((l - s - 1) as nat),
                    a@.len() == n,
                    x.len() == n,
                    all_wf(a@),
                    w_m.wf(),
                    w_m@ == fpow(w, st),
                    w_j.wf(),
                    w_j@ == fpow(w_m@, j as nat),
                    k == q * (2 * m),
                    q < st,
                    k + 2 * m <= n,
                    staged(a@, x, w, l, (s + 1) as nat, 0, k as int),
                    staged(a@, x, w, l, (s + 1) as nat, k as int, k + j),
                    staged(a@, x, w, l, s as nat, k + j, k + m),
                    staged(a@, x, w, l, (s + 1) as nat, k + m, k + m + j),
                    staged(a@, x, w, l, s as nat, k + m + j, n as int),
                decreases m - j,
            {
                let ghost before = a@;
                let mut t = a[k + j + m];
                t.group_mul_assign(&w_j);
                let mut tmp = a[k + j];
                tmp.group_sub_assign(&t);
                a[k + j + m] = tmp;
                let mut sum = a[k + j];
                sum.group_add_assign(&t);
                a[k + j] = sum;
                w_j = fr_mul(&w_j, &w_m);
                proof {
                    lemma_stage(x, w, l, s as nat, q, j as nat);
                    assert(before[k + j] == staged_at(x, w, l, s as nat, k + j));
                    assert(before[k + j + m] == staged_at(x, w, l, s as nat, k + j + m));
                    assert(a@[k + j] == staged_at(x, w, l, (s + 1) as nat, k + j));
                    assert(a@[k + j + m] == staged_at(x, w, l, (s + 1) as nat, k + j + m));
                    assert forall|i: int| 0 <= i < n && i != k + j && i != k + j + m implies a@[i]
                        == before[i] by {}
                }
                j = j + 1;
            }
            k = k + 2 * m;
            proof {
                q = q + 1;
            }
        }
        m = m * 2;
        s = s + 1;
    }
    proof {
        assert(a@ =~= dft(x, w)) by {
            assert forall|i: int| 0 <= i < n implies a@[i] == dft(x, w)[i] by {
                lemma_staged_last(x, w, l, i);
            }
        }
    }
}

/// `2^e`, where it fits.
pub fn pow2_usize(e: u32) -> (r: usize)
    requires
        pow2(e as nat) <= usize::MAX,
    ensures
        r == pow2(e as nat),
{
    let mut r: usize = 1;
    let mut i: u32 = 0;
    proof {
        lemma2_to64();
    }
    while i < e
        invariant
            i <= e,
            r == pow2(i as nat),
            pow2(e as nat) <= usize::MAX,
        decreases e - i,
    {
        proof {
            lemma_pow2_unfold((i + 1) as nat);
            if i + 1 < e {
                lemma_pow2_strictly_increases((i + 1) as nat, e as nat);
            }
        }
        r = r * 2;
        i = i + 1;
    }
    r
}

/// The term for row `s` of entry `i` of stripe `j`.
pub open spec fn stripe_term<G: Group>(x: Seq<G>, w: nat, j: nat, i: int, n1: nat) -> spec_fn(
    int,
) -> G {
    |s: int| x[i + s * n1].scale_spec(fpow(w, (j * (i + s * n1)) as nat))
}

/// Stripe `j` of `x`, which is read as `p` rows of `n1` entries: entry `i` is
/// the sum over the rows of the entry in column `i`, scaled by `w` to the
/// power of `j` times the place of that entry in `x`.
pub open spec fn stripe<G: Group>(x: Seq<G>, w: nat, j: nat, n1: nat, p: nat) -> Seq<G> {
    Seq::new(n1, |i: int| gsum(stripe_term(x, w, j, i, n1), p))
}

/// The transform of stripe `j` with respect to `w^p` holds the transform of
/// `x` at the places `j`, `j + p`, `j + 2 p`, and so on.
pub proof fn lemma_stripe<G: Group>(x: Seq<G>, w: nat, j: nat, n1: nat, p: nat, k: nat)
    requires
        x.len() == p * n1,
        fpow(w, x.len()) == 1,
    ensures
        dft_at(stripe(x, w, j, n1, p), fpow(w, p), k) == dft_at(x, w, j + p * k),
{
    let n = x.len();
    let sj = stripe(x, w, j, n1, p);
    let wp = fpow(w, p);
    let f = dft_term(x, w, j + p * k);
    let r = dft_term(sj, wp, k);
    let col = |i: int| |s: int| stripe_term(x, w, j, i, n1)(s).scale_spec(fpow(wp, (i * k) as nat));
    assert forall|i: int, s: int| 0 <= i < n1 && 0 <= s < p implies #[trigger] col(i)(s) == f(
        i + s * n1,
    ) by {
        let t = i + s * n1;
        lemma_mul_nonnegative(s, n1 as int);
        lemma_mul_nonnegative(i, k as int);
        lemma_mul_nonnegative(j as int, t);
        lemma_mul_nonnegative(k as int, s);
        let jt = (j * t) as nat;
        let ik = (i * k) as nat;
        let ks = (k * s) as nat;
        lemma_mul_nonnegative(p as int, ik as int);
        lemma_mul_nonnegative(n as int, ks as int);
        G::lemma_scale_scale(x[t], fpow(w, jt), fpow(wp, ik));
        lemma_fpow_fpow(w, p, ik);
        lemma_fpow_add(w, jt, p * ik);
        // the exponent of the transform of x differs by a multiple of n
        assert(t * (j + p * k) == (jt + p * ik) + n * ks) by (nonlinear_arith)
            requires
                t == i + s * n1,
                n == p * n1,
                jt == j * t,
                ik == i * k,
                ks == k * s,
        ;
        lemma_fpow_add(w, jt + p * ik, n * ks);
        lemma_fpow_fpow(w, n, ks);
        lemma_fpow_of_one(ks);
        lemma_fpow_bound(w, jt + p * ik);
        lemma_fmul_one(fpow(w, jt + p * ik));
    }
    assert forall|i: int| 0 <= i < n1 implies #[trigger] r(i) == gsum(col(i), p) by {
        lemma_mul_nonnegative(i, k as int);
        lemma_gsum_scale(stripe_term(x, w, j, i, n1), fpow(wp, (i * k) as nat), col(i), p);
    }
    lemma_gsum_columns(f, col, r, n1, p);
}

/// The transform of stripe `j` of `a`, for the transform of `a` in
/// `2^log_cpus` independent parts.
pub fn sub_fft<G: Group>(
    a: &[G],
    omega: &Fr,
    new_omega: &Fr,
    j: usize,
    log_n: u32,
    log_cpus: u32,
) -> (tmp: Vec<G>)
    requires
        log_cpus <= log_n,
        a@.len() == pow2(log_n as nat),
        all_wf(a@),
        is_primitive_root(omega@, log_n as nat),
        j < pow2(log_cpus as nat),
        new_omega.wf(),
        new_omega@ == fpow(omega@, pow2(log_cpus as nat)),
    ensures
        tmp@ == dft(
            stripe(
                a@,
                omega@,
                j as nat,
                pow2((log_n - log_cpus) as nat),
                pow2(log_cpus as nat),
            ),
            new_omega@,
        ),
        all_wf(tmp@),
{
    let n = a.len();
    let log_new_n = log_n - log_cpus;
    let ghost w = omega@;
    let ghost x = a@;
    let ghost l1 = log_new_n as nat;
    let ghost pn = pow2(log_cpus as nat);
    let ghost nn = pow2(l1);
    proof {
        lemma_pow2_adds(log_cpus as nat, l1);
        lemma_pow2_pos(log_cpus as nat);
        lemma_pow2_pos(l1);
        assert(n == pn * nn);
        assert(pn <= n && nn <= n && j * nn < n) by (nonlinear_arith)
            requires
                n == pn * nn,
                pn >= 1,
                nn >= 1,
                j < pn,
        ;
    }
    let num_cpus = pow2_usize(log_cpus);
    let new_n = pow2_usize(log_new_n);
    let omega_j = fr_pow(omega, j as u64);
    let omega_step = fr_pow(omega, (j * new_n) as u64);
    let mut elt = Fr::one();
    let mut tmp: Vec<G> = Vec::new();
    let mut i: usize = 0;
    proof {
        assert(j * 0 == 0) by (nonlinear_arith);
    }
    while i < new_n
        invariant
            i <= new_n,
            n == a@.len(),
            x == a@,
            w == omega@,
            all_wf(x),
            n == pn * nn,
            num_cpus == pn,
            new_n == nn,
            j < pn,
            fpow(w, n as nat) == 1,
            omega_j.wf(),
            omega_j@ == fpow(w, j as nat),
            omega_step.wf(),
            omega_step@ == fpow(w, (j * nn) as nat),
            elt.wf(),
            elt@ == fpow(w, (j * i) as nat),
            tmp@.len() == i,
            all_wf(tmp@),
            forall|c: int|
                0 <= c < i ==> #[trigger] tmp@[c] == gsum(
                    stripe_term(x, w, j as nat, c, nn),
                    pn,
                ),
        decreases new_n - i,
    {
        let mut acc = G::group_zero();
        let mut s: usize = 0;
        proof {
            assert(i + 0 * nn == i) by (nonlinear_arith);
        }
        while s < num_cpus
            invariant
                s <= num_cpus,
                i < new_n,
                n == a@.len(),
                x == a@,
                w == omega@,
                all_wf(x),
                n == pn * nn,
                num_cpus == pn,
                new_n == nn,
                j < pn,
                omega_step.wf(),
                omega_step@ == fpow(w, (j * nn) as nat),
                elt.wf(),
                elt@ == fpow(w, (j * (i + s * nn)) as nat),
                acc.wf(),
                acc == gsum(stripe_term(x, w, j as nat, i as int, nn), s as nat),
            decreases num_cpus - s,
        {
            proof {
                assert(i + s * nn < n && s * nn <= n) by (nonlinear_arith)
                    requires
                        i < nn,
                        s < pn,
                        n == pn * nn,
                ;
                lemma_small_mod((i + s * nn) as nat, n as nat);
                assert(j * (i + (s + 1) * nn) == j * (i + s * nn) + j * nn) by (nonlinear_arith);
                lemma_mul_nonnegative(j as int, (i + s * nn) as int);
                lemma_mul_nonnegative(j as int, nn as int);
                lemma_fpow_add(w, (j * (i + s * nn)) as nat, (j * nn) as nat);
            }
            let idx = (i + s * new_n) % n;
            let mut t = a[idx];
            t.group_mul_assign(&elt);
            acc.group_add_assign(&t);
            elt = fr_mul(&elt, &omega_step);
            s = s + 1;
        }
        proof {
            // the power of elt has gone once round: j * n more than j * i
            assert(j * (i + pn * nn) == j * i + n * j) by (nonlinear_arith)
                requires
                    n == pn * nn,
            ;
            lemma_mul_nonnegative(j as int, i as int);
            lemma_mul_nonnegative(n as int, j as int);
            lemma_fpow_add(w, (j * i) as nat, (n * j) as nat);
            lemma_fpow_fpow(w, n as nat, j as nat);
            lemma_fpow_of_one(j as nat);
            lemma_fpow_bound(w, (j * i) as nat);
            lemma_fmul_one(fpow(w, (j * i) as nat));
            assert(j * (i + 1) == j * i + j) by (nonlinear_arith);
            lemma_fpow_add(w, (j * i) as nat, j as nat);
        }
        elt = fr_mul(&elt, &omega_j);
        tmp.push(acc);
        i = i + 1;
    }
    proof {
        assert(tmp@ =~= stripe(x, w, j as nat, nn, pn));
        // the root for the shorter transform
        lemma_fpow_fpow(w, pn, nn);
        if l1 > 0 {
            lemma_pow2_adds(log_cpus as nat, (l1 - 1) as nat);
            lemma_fpow_fpow(w, pn, pow2((l1 - 1) as nat));
        }
    }
    serial_fft(tmp.as_mut_slice(), new_omega, log_new_n);
    tmp
}

/// The root for the shorter transforms: `omega` to the power `2^log_cpus`.
pub fn stripe_omega(omega: &Fr, log_cpus: u32) -> (new_omega: Fr)
    requires
        omega.wf(),
        pow2(log_cpus as nat) <= usize::MAX,
    ensures
        new_omega.wf(),
        new_omega@ == fpow(omega@, pow2(log_cpus as nat)),
{
    let num_cpus = pow2_usize(log_cpus);
    fr_pow(omega, num_cpus as u64)
}

/// Puts the parts of a transform together: place `idx` of `a` is taken from
/// part `idx mod p` at `idx / p`, where `p` is the number of parts.
pub fn recombine<G: Group>(a: &mut [G], parts: &Vec<Vec<G>>)
    requires
        parts@.len() >= 1,
        forall|c: int|
            0 <= c < parts@.len() ==> (#[trigger] parts@[c])@.len() * parts@.len() == old(
                a,
            )@.len(),
    ensures
        final(a)@.len() == old(a)@.len(),
        forall|idx: int|
            0 <= idx < old(a)@.len() ==> #[trigger] final(a)@[idx] == parts@[idx % (
            parts@.len() as int)]@[idx / (parts@.len() as int)],
{
    let n = a.len();
    let p = parts.len();
    let mut idx: usize = 0;
    while idx < n
        invariant
            idx <= n,
            p == parts@.len(),
            p >= 1,
            a@.len() == n,
            forall|c: int| 0 <= c < p ==> (#[trigger] parts@[c])@.len() * p == n,
            forall|i: int|
                0 <= i < idx ==> #[trigger] a@[i] == parts@[i % (p as int)]@[i / (p as int)],
        decreases n - idx,
    {
        let c = idx % p;
        let k = idx / p;
        proof {
            lemma_fundamental_div_mod(idx as int, p as int);
            lemma_mod_bound(idx as int, p as int);
            let n1 = parts@[c as int]@.len();
            assert(k < n1) by (nonlinear_arith)
                requires
                    idx == p * k + c,
                    idx < n1 * p,
                    c >= 0,
                    p >= 1,
            ;
        }
        a[idx] = parts[c][k];
        idx = idx + 1;
    }
}

/// The transform of `a` with respect to `omega`, by `2^log_cpus` shorter
/// transforms that do not depend on one another: stripe `j` is gathered from
/// `a` and transformed, and place `idx` of the result is then taken from
/// stripe `idx mod 2^log_cpus` at `idx / 2^log_cpus`.
pub fn parallel_fft<G: Group>(a: &mut [G], omega: &Fr, log_n: u32, log_cpus: u32)
    requires
        log_n >= log_cpus,
        old(a)@.len() == pow2(log_n as nat),
        all_wf(old(a)@),
        is_primitive_root(omega@, log_n as nat),
    ensures
        final(a)@ == dft(old(a)@, omega@),
        all_wf(final(a)@),
{
    let n = a.len();
    let ghost w = omega@;
    let ghost x = a@;
    let ghost pn = pow2(log_cpus as nat);
    let ghost nn = pow2((log_n - log_cpus) as nat);
    proof {
        lemma_pow2_adds(log_cpus as nat, (log_n - log_cpus) as nat);
        lemma_pow2_pos(log_cpus as nat);
        lemma_pow2_pos((log_n - log_cpus) as nat);
        assert(pn <= n) by (nonlinear_arith)
            requires
                n == pn * nn,
                nn >= 1,
        ;
    }
    let num_cpus = pow2_usize(log_cpus);
    let new_omega = stripe_omega(omega, log_cpus);
    let mut tmp: Vec<Vec<G>> = Vec::new();
    let mut j: usize = 0;
    while j < num_cpus
        invariant
            j <= num_cpus,
            num_cpus == pn,
            log_n >= log_cpus,
            pn == pow2(log_cpus as nat),
            nn == pow2((log_n - log_cpus) as nat),
            a@ == x,
            w == omega@,
            x.len() == pow2(log_n as nat),
            all_wf(x),
            is_primitive_root(w, log_n as nat),
            new_omega.wf(),
            new_omega@ == fpow(w, pn),
            tmp@.len() == j,
            forall|c: int|
                0 <= c < j ==> (#[trigger] tmp@[c])@ == dft(
                    stripe(x, w, c as nat, nn, pn),
                    fpow(w, pn),
                ) && all_wf(tmp@[c]@),
        decreases num_cpus - j,
    {
        let part = sub_fft(a, omega, &new_omega, j, log_n, log_cpus);
        tmp.push(part);
        j = j + 1;
    }
    proof {
        assert forall|c: int| 0 <= c < tmp@.len() implies (#[trigger] tmp@[c])@.len() * tmp@.len()
            == n by {
            assert(nn * pn == pn * nn) by (nonlinear_arith);
        }
    }
    recombine(a, &tmp);
    proof {
        assert forall|idx: int| 0 <= idx < n implies a@[idx] == dft(x, w)[idx] && (
        #[trigger] a@[idx]).wf() by {
            let c = idx % (pn as int);
            let k = idx / (pn as int);
            lemma_fundamental_div_mod(idx, pn as int);
            lemma_mod_bound(idx, pn as int);
            assert(0 <= k < nn) by (nonlinear_arith)
                requires
                    idx == pn * k + c,
                    0 <= idx < pn * nn,
                    0 <= c < pn,
            ;
            assert(tmp@[c]@.len() == nn);
            assert(tmp@[c]@[k].wf());
            lemma_stripe(x, w, c as nat, nn, pn, k as nat);
        }
        assert(a@ =~= dft(x, w));
    }
}

/// Whether the accelerator has done the transform.
pub open spec fn done_by_accelerator(accel: Option<Result<(), GPUError>>) -> bool {
    accel is Some && accel->0 is Ok
}

/// The transform of `a` with respect to `omega`, by the best means at hand.
///
/// `accel` is what the accelerator answered when the transform was offered to
/// it, and nothing where there is no accelerator.  Where it did the transform,
/// `a` holds the result already and is left as it is.  In every other case
/// the transform is computed here: serially where there are no more entries
/// than processors, and in independent parts otherwise.  A failure of the
/// accelerator is never handed on.
pub fn best_fft<G: Group>(
    accel: Option<Result<(), GPUError>>,
    a: &mut [G],
    worker: &Worker,
    omega: &Fr,
    log_n: u32,
) -> (r: Result<(), GPUError>)
    requires
        worker.wf(),
        old(a)@.len() == pow2(log_n as nat),
        all_wf(old(a)@),
        is_primitive_root(omega@, log_n as nat),
    ensures
        r is Ok,
        all_wf(final(a)@),
        final(a)@ == (if done_by_accelerator(accel) {
            old(a)@
        } else {
            dft(old(a)@, omega@)
        }),
{
    if let Some(Ok(_)) = accel {
        return Ok(());
    }
    let log_cpus = worker.log_num_cpus();
    if log_n <= log_cpus {
        serial_fft(a, omega, log_n);
    } else {
        parallel_fft(a, omega, log_n, log_cpus);
    }
    Ok(())
}

} // verus!
