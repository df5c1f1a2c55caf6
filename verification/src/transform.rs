//! The discrete Fourier transform over the field, as a specification, and
//! the recurrences by which the radix-2 algorithms compute it.

use crate::field::{
    fmul, fpow, is_primitive_root, lemma_fmul_assoc, lemma_fmul_comm, lemma_fmul_one,
    lemma_fpow_add, lemma_fpow_bound, lemma_fpow_fmul, lemma_fpow_fpow, lemma_fpow_of_one,
    lemma_neg_one_squared, lemma_root_squared, neg_one,
};
use crate::group::{
    lemma_scale_comm, lemma_scale_double, lemma_scale_sub, lemma_sum_minus_diff,
    lemma_sum_plus_diff, Group,
};
use crate::sums::{
    gsum, lemma_gsum_even_odd, lemma_gsum_ext, lemma_gsum_halves, lemma_gsum_one,
    lemma_gsum_scale, lemma_gsum_wf,
};
use vstd::arithmetic::mul::*;
use vstd::arithmetic::power2::*;
use vstd::prelude::*;

verus! {

/// The `j`-th term of the transform at `k`: `x[j]` scaled by `w^(j k)`.
pub open spec fn dft_term<G: Group>(x: Seq<G>, w: nat, k: nat) -> spec_fn(int) -> G {
    |j: int| x[j].scale_spec(fpow(w, (j * k) as nat))
}

/// The transform of `x` at `k`: the sum over `j` of `x[j]` scaled by `w^(j k)`.
pub open spec fn dft_at<G: Group>(x: Seq<G>, w: nat, k: nat) -> G {
    gsum(dft_term(x, w, k), x.len())
}

/// The discrete Fourier transform of `x` with respect to `w`: the values at
/// `w^0, w^1, ...` of the polynomial whose coefficients are `x`.
pub open spec fn dft<G: Group>(x: Seq<G>, w: nat) -> Seq<G> {
    Seq::new(x.len(), |k: int| dft_at(x, w, k as nat))
}

/// The entries of `x` at even places.
pub open spec fn evens<G>(x: Seq<G>) -> Seq<G> {
    Seq::new(x.len() / 2, |i: int| x[2 * i])
}

/// The entries of `x` at odd places.
pub open spec fn odds<G>(x: Seq<G>) -> Seq<G> {
    Seq::new(x.len() / 2, |i: int| x[2 * i + 1])
}

/// Every entry of `x` scaled by `k`.
pub open spec fn scale_all<G: Group>(x: Seq<G>, k: nat) -> Seq<G> {
    Seq::new(x.len(), |i: int| x[i].scale_spec(k))
}

/// Entry `i` of `x` scaled by the `i`-th power of `g`.
pub open spec fn with_powers<G: Group>(x: Seq<G>, g: nat) -> Seq<G> {
    Seq::new(x.len(), |i: int| x[i].scale_spec(fpow(g, i as nat)))
}

/// Every entry is well formed.
pub open spec fn all_wf<G: Group>(x: Seq<G>) -> bool {
    forall|i: int| 0 <= i < x.len() ==> (#[trigger] x[i]).wf()
}

/// The powers of a square are the even powers of its root.
pub proof fn lemma_fpow_square(v: nat, e: nat)
    ensures
        fpow(fmul(v, v), e) == fpow(v, 2 * e),
{
    lemma_fpow_fmul(v, v, e);
    lemma_fpow_add(v, e, e);
}

/// The transform of a sequence of even length, from the transforms of its
/// entries at even and at odd places.
pub proof fn lemma_dft_split<G: Group>(y: Seq<G>, v: nat, k: nat)
    requires
        y.len() % 2 == 0,
    ensures
        dft_at(y, v, k) == dft_at(evens(y), fmul(v, v), k).add_spec(
            dft_at(odds(y), fmul(v, v), k).scale_spec(fpow(v, k)),
        ),
{
    let h = y.len() / 2;
    let v2 = fmul(v, v);
    let t = dft_term(y, v, k);
    let e = dft_term(evens(y), v2, k);
    let o = dft_term(odds(y), v2, k);
    let c = fpow(v, k);
    let os = |i: int| o(i).scale_spec(c);
    assert forall|i: int| 0 <= i < h implies #[trigger] e(i) == t(2 * i) by {
        lemma_mul_nonnegative(i, k as int);
        lemma_fpow_square(v, (i * k) as nat);
        assert((2 * i) * k == 2 * (i * k)) by (nonlinear_arith);
    }
    assert forall|i: int| 0 <= i < h implies #[trigger] os(i) == t(2 * i + 1) by {
        lemma_mul_nonnegative(i, k as int);
        let ik = (i * k) as nat;
        lemma_fpow_square(v, ik);
        lemma_fpow_add(v, 2 * ik, k);
        G::lemma_scale_scale(odds(y)[i], fpow(v2, ik), c);
        assert((2 * i + 1) * k == 2 * (i * k) + k) by (nonlinear_arith);
    }
    lemma_gsum_even_odd(t, e, os, h);
    lemma_gsum_scale(o, c, os, h);
}

/// Where the `h`-th power of `u` is one, the transform of `h` entries with
/// respect to `u` repeats after `h` places.
pub proof fn lemma_dft_period<G: Group>(z: Seq<G>, u: nat, k: nat)
    requires
        fpow(u, z.len()) == 1,
    ensures
        dft_at(z, u, k + z.len()) == dft_at(z, u, k),
{
    let h = z.len();
    let a = dft_term(z, u, k + h);
    let b = dft_term(z, u, k);
    assert forall|j: int| 0 <= j < h implies #[trigger] a(j) == b(j) by {
        lemma_mul_nonnegative(j, k as int);
        let jk = (j * k) as nat;
        assert(j * (k + h) == j * k + h * j) by (nonlinear_arith);
        lemma_mul_nonnegative(h as int, j);
        lemma_fpow_add(u, jk, h * (j as nat));
        lemma_fpow_fpow(u, h, j as nat);
        lemma_fpow_of_one(j as nat);
        lemma_fpow_bound(u, jk);
        lemma_fmul_one(fpow(u, jk));
    }
    lemma_gsum_ext(a, b, h);
}

/// One butterfly: where the `h`-th power of `v` is `-1`, the transform of
/// `2 h` entries at `k` and at `k + h` is the sum and the difference of the
/// transform of the even entries at `k` and of that of the odd entries at `k`
/// scaled by `v^k`.
pub proof fn lemma_butterfly<G: Group>(y: Seq<G>, v: nat, k: nat)
    requires
        y.len() % 2 == 0,
        k < y.len() / 2,
        fpow(v, y.len() / 2) == neg_one(),
    ensures
        dft_at(y, v, k) == dft_at(evens(y), fmul(v, v), k).add_spec(
            dft_at(odds(y), fmul(v, v), k).scale_spec(fpow(v, k)),
        ),
        dft_at(y, v, k + y.len() / 2) == dft_at(evens(y), fmul(v, v), k).sub_spec(
            dft_at(odds(y), fmul(v, v), k).scale_spec(fpow(v, k)),
        ),
{
    let h = y.len() / 2;
    let v2 = fmul(v, v);
    let ek = dft_at(evens(y), v2, k);
    let ok = dft_at(odds(y), v2, k);
    lemma_dft_split(y, v, k);
    lemma_dft_split(y, v, k + h);
    // the square of v has order dividing h
    lemma_fpow_fmul(v, v, h);
    lemma_neg_one_squared();
    lemma_dft_period(evens(y), v2, k);
    lemma_dft_period(odds(y), v2, k);
    // v^(k + h) is -(v^k)
    lemma_fpow_add(v, k, h);
    G::lemma_scale_scale(ok, fpow(v, k), neg_one());
    G::lemma_sub(ek, ok.scale_spec(fpow(v, k)));
}

/// The transform of a single well-formed entry is that entry.
pub proof fn lemma_dft_single<G: Group>(x: Seq<G>, w: nat)
    requires
        x.len() == 1,
        all_wf(x),
    ensures
        dft(x, w) =~= x,
{
    let t = dft_term(x, w, 0);
    assert(x[0].wf());
    G::lemma_scale_one(x[0]);
    lemma_gsum_one(t);
}

/// Every entry of the transform is well formed.
pub proof fn lemma_dft_wf<G: Group>(x: Seq<G>, w: nat)
    ensures
        all_wf(dft(x, w)),
{
    assert forall|k: int| 0 <= k < x.len() implies (#[trigger] dft(x, w)[k]).wf() by {
        lemma_gsum_wf(dft_term(x, w, k as nat), x.len());
    }
}

/// The transform of a scaled sequence is the scaled transform.
pub proof fn lemma_dft_scale<G: Group>(x: Seq<G>, c: nat, w: nat, k: nat)
    ensures
        dft_at(scale_all(x, c), w, k) == dft_at(x, w, k).scale_spec(c),
{
    let xs = scale_all(x, c);
    let f = dft_term(x, w, k);
    let h = dft_term(xs, w, k);
    assert forall|j: int| 0 <= j < x.len() implies #[trigger] h(j) == f(j).scale_spec(c) by {
        lemma_scale_comm(x[j], c, fpow(w, (j * k) as nat));
    }
    lemma_gsum_scale(f, c, h, x.len());
}

/// The sums of the entries of `x` that lie half its length apart.
pub open spec fn fold_sum<G: Group>(x: Seq<G>) -> Seq<G> {
    Seq::new(x.len() / 2, |j: int| x[j].add_spec(x[j + x.len() / 2]))
}

/// The differences of the entries of `x` that lie half its length apart,
/// the `j`-th scaled by `w^j`.
pub open spec fn fold_diff<G: Group>(x: Seq<G>, w: nat) -> Seq<G> {
    Seq::new(
        x.len() / 2,
        |j: int| x[j].sub_spec(x[j + x.len() / 2]).scale_spec(fpow(w, j as nat)),
    )
}

/// The even powers of `-1` are one, the odd ones `-1`.
pub proof fn lemma_fpow_neg_one(i: nat)
    ensures
        fpow(neg_one(), 2 * i) == 1,
        fpow(neg_one(), 2 * i + 1) == neg_one(),
{
    lemma_fpow_square(neg_one(), i);
    lemma_neg_one_squared();
    lemma_fpow_of_one(i);
    lemma_fmul_one(neg_one());
}

/// Where the `h`-th power of `w` is `-1`, the transform of `2 h` entries at
/// the even places is the transform of the folded sums, and at the odd
/// places that of the folded differences, both with respect to the square of
/// `w`.
pub proof fn lemma_dft_fold<G: Group>(x: Seq<G>, w: nat, i: nat)
    requires
        x.len() % 2 == 0,
        fpow(w, x.len() / 2) == neg_one(),
    ensures
        dft_at(x, w, 2 * i) == dft_at(fold_sum(x), fmul(w, w), i),
        dft_at(x, w, 2 * i + 1) == dft_at(fold_diff(x, w), fmul(w, w), i),
{
    let h = x.len() / 2;
    let w2 = fmul(w, w);
    let fe = dft_term(x, w, 2 * i);
    let ge = dft_term(fold_sum(x), w2, i);
    assert forall|j: int| 0 <= j < h implies #[trigger] ge(j) == fe(j).add_spec(fe(j + h)) by {
        lemma_mul_nonnegative(j, i as int);
        let ji = (j * i) as nat;
        let c = fpow(w, 2 * ji);
        lemma_fpow_square(w, ji);
        assert(j * (2 * i) == 2 * ji) by (nonlinear_arith)
            requires
                ji == j * i,
        ;
        assert((j + h) * (2 * i) == 2 * ji + h * (2 * i)) by (nonlinear_arith)
            requires
                ji == j * i,
        ;
        lemma_fpow_add(w, 2 * ji, h * (2 * i));
        lemma_fpow_fpow(w, h, 2 * i);
        lemma_fpow_neg_one(i);
        lemma_fpow_bound(w, 2 * ji);
        lemma_fmul_one(c);
        G::lemma_scale_add(x[j], x[j + h], c);
    }
    lemma_gsum_halves(fe, ge, h);
    let d = 2 * i + 1;
    let fo = dft_term(x, w, d);
    let go = dft_term(fold_diff(x, w), w2, i);
    assert forall|j: int| 0 <= j < h implies #[trigger] go(j) == fo(j).add_spec(fo(j + h)) by {
        lemma_mul_nonnegative(j, i as int);
        let ji = (j * i) as nat;
        let jd = (j as nat) + 2 * ji;
        let c = fpow(w, jd);
        let a = x[j];
        let b = x[j + h];
        assert(j * d == jd) by (nonlinear_arith)
            requires
                ji == j * i,
                d == 2 * i + 1,
                jd == j + 2 * ji,
        ;
        assert((j + h) * d == jd + h * d) by (nonlinear_arith)
            requires
                ji == j * i,
                d == 2 * i + 1,
                jd == j + 2 * ji,
        ;
        // the power at j + h is the power at j times -1
        lemma_fpow_add(w, jd, h * d);
        lemma_fpow_fpow(w, h, d);
        lemma_fpow_neg_one(i);
        G::lemma_scale_scale(b, c, neg_one());
        G::lemma_sub(a.scale_spec(c), b.scale_spec(c));
        lemma_scale_sub(a, b, c);
        // the scalars of the folded difference multiply to the power at j
        lemma_fpow_square(w, ji);
        lemma_fpow_add(w, j as nat, 2 * ji);
        G::lemma_scale_scale(a.sub_spec(b), fpow(w, j as nat), fpow(w2, ji));
    }
    lemma_gsum_halves(fo, go, h);
}

/// The transform with respect to the inverse root, of the transform, is the
/// sequence scaled by its length.
pub proof fn lemma_dft_inverse<G: Group>(x: Seq<G>, w: nat, winv: nat, k: nat, i: nat)
    requires
        x.len() == pow2(k),
        all_wf(x),
        is_primitive_root(w, k),
        is_primitive_root(winv, k),
        fmul(w, winv) == 1,
        i < x.len(),
    ensures
        dft_at(dft(x, w), winv, i) == x[i as int].scale_spec(fpow(2, k)),
    decreases k,
{
    let y = dft(x, w);
    if k == 0 {
        lemma2_to64();
        lemma_dft_single(x, w);
        lemma_dft_single(y, winv);
        assert(dft(y, winv)[0] == dft_at(y, winv, 0));
        assert(x[0].wf());
        G::lemma_scale_one(x[0]);
    } else {
        let h = pow2((k - 1) as nat);
        lemma_pow2_unfold(k);
        lemma_pow2_pos((k - 1) as nat);
        let ii: nat = if i < h { i } else { (i - h) as nat };
        let w2 = fmul(w, w);
        let v2 = fmul(winv, winv);
        let u = fold_sum(x);
        let v = fold_diff(x, w);
        let c = fpow(2, (k - 1) as nat);
        let a = x[ii as int];
        let b = x[(ii + h) as int];
        assert(a.wf() && b.wf());
        // the transform, at even and at odd places
        assert(evens(y) =~= dft(u, w2)) by {
            assert forall|j: int| 0 <= j < h implies evens(y)[j] == dft(u, w2)[j] by {
                lemma_dft_fold(x, w, j as nat);
            }
        }
        assert(odds(y) =~= dft(v, w2)) by {
            assert forall|j: int| 0 <= j < h implies odds(y)[j] == dft(v, w2)[j] by {
                lemma_dft_fold(x, w, j as nat);
            }
        }
        // the shorter transforms are undone by induction
        lemma_root_squared(w, k);
        lemma_root_squared(winv, k);
        lemma_fmul_assoc(w, w, v2);
        lemma_fmul_assoc(w, winv, winv);
        lemma_fmul_one(winv);
        assert(fmul(w2, v2) == 1);
        assert(all_wf(u)) by {
            assert forall|j: int| 0 <= j < h implies (#[trigger] u[j]).wf() by {
                G::lemma_wf(x[j], x[j + h], 0);
            }
        }
        assert(all_wf(v)) by {
            assert forall|j: int| 0 <= j < h implies (#[trigger] v[j]).wf() by {
                G::lemma_wf(x[j].sub_spec(x[j + h]), x[j], fpow(w, j as nat));
            }
        }
        lemma_dft_inverse(u, w2, v2, (k - 1) as nat, ii);
        lemma_dft_inverse(v, w2, v2, (k - 1) as nat, ii);
        let e = u[ii as int].scale_spec(c);
        let o = v[ii as int].scale_spec(c);
        lemma_butterfly(y, winv, ii);
        // o scaled by the power of the inverse root is (a - b) scaled by c
        let d = fpow(w, ii);
        let dinv = fpow(winv, ii);
        lemma_fpow_fmul(w, winv, ii);
        lemma_fpow_of_one(ii);
        lemma_fpow_bound(2, (k - 1) as nat);
        G::lemma_scale_scale(a.sub_spec(b), d, c);
        G::lemma_scale_scale(a.sub_spec(b), fmul(d, c), dinv);
        lemma_fmul_comm(d, c);
        lemma_fmul_assoc(c, d, dinv);
        lemma_fmul_one(c);
        assert(o.scale_spec(dinv) == a.sub_spec(b).scale_spec(c));
        if i < h {
            G::lemma_scale_add(a.add_spec(b), a.sub_spec(b), c);
            lemma_sum_plus_diff(a, b);
            G::lemma_scale_add(a, a, c);
            lemma_scale_double(a, c);
        } else {
            lemma_scale_sub(a.add_spec(b), a.sub_spec(b), c);
            lemma_sum_minus_diff(a, b);
            G::lemma_scale_add(b, b, c);
            lemma_scale_double(b, c);
        }
    }
}

} // verus!
