//! What holds of the transforms taken together.

use crate::domain::{vanishing, EvaluationDomain};
use crate::fft::{lemma_stripe, stripe};
use crate::field::{
    fmul, fpow, generator, is_primitive_root, lemma_fmul_comm, lemma_fmul_mod, lemma_fmul_one,
    lemma_fpow_fmul, lemma_fpow_fpow, lemma_fpow_of_one, lemma_fpow_two, lemma_fsub_self,
    lemma_inverse_root, modulus,
};
use crate::group::Group;
use crate::transform::{
    all_wf, dft, lemma_dft_inverse, lemma_dft_scale, lemma_dft_single, lemma_dft_wf,
    scale_all, with_powers,
};
use vstd::arithmetic::div_mod::*;
use vstd::arithmetic::power2::*;
use vstd::prelude::*;

verus! {

/// The inverse transform undoes the transform: the transform with respect to
/// the inverse root, divided by the length, gives the sequence back.
pub proof fn lemma_ifft_fft<G: Group>(x: Seq<G>, w: nat, winv: nat, ninv: nat, k: nat)
    requires
        x.len() == pow2(k),
        all_wf(x),
        is_primitive_root(w, k),
        winv < modulus(),
        fmul(w, winv) == 1,
        fmul(pow2(k), ninv) == 1,
    ensures
        scale_all(dft(dft(x, w), winv), ninv) == x,
{
    lemma_inverse_root(w, winv, k);
    let r = scale_all(dft(dft(x, w), winv), ninv);
    assert forall|i: int| 0 <= i < x.len() implies r[i] == x[i] by {
        lemma_dft_inverse(x, w, winv, k, i as nat);
        G::lemma_scale_scale(x[i], fpow(2, k), ninv);
        lemma_fpow_two(k);
        lemma_fmul_mod(pow2(k), ninv);
        G::lemma_scale_one(x[i]);
    }
    assert(r =~= x);
}

/// The transform undoes the inverse transform.
pub proof fn lemma_fft_ifft<G: Group>(x: Seq<G>, w: nat, winv: nat, ninv: nat, k: nat)
    requires
        x.len() == pow2(k),
        all_wf(x),
        is_primitive_root(w, k),
        winv < modulus(),
        fmul(w, winv) == 1,
        fmul(pow2(k), ninv) == 1,
    ensures
        dft(scale_all(dft(x, winv), ninv), w) == x,
{
    lemma_inverse_root(w, winv, k);
    lemma_fmul_comm(w, winv);
    let y = dft(x, winv);
    let r = dft(scale_all(y, ninv), w);
    assert forall|i: int| 0 <= i < x.len() implies r[i] == x[i] by {
        lemma_dft_scale(y, ninv, w, i as nat);
        lemma_dft_inverse(x, winv, w, k, i as nat);
        G::lemma_scale_scale(x[i], fpow(2, k), ninv);
        lemma_fpow_two(k);
        lemma_fmul_mod(pow2(k), ninv);
        G::lemma_scale_one(x[i]);
    }
    assert(r =~= x);
}

/// Scaling by the powers of a scalar and then by the powers of its inverse
/// gives the sequence back.
pub proof fn lemma_powers_cancel<G: Group>(x: Seq<G>, g: nat, ginv: nat)
    requires
        all_wf(x),
        fmul(g, ginv) == 1,
    ensures
        with_powers(with_powers(x, g), ginv) == x,
{
    let r = with_powers(with_powers(x, g), ginv);
    assert forall|i: int| 0 <= i < x.len() implies r[i] == x[i] by {
        G::lemma_scale_scale(x[i], fpow(g, i as nat), fpow(ginv, i as nat));
        lemma_fpow_fmul(g, ginv, i as nat);
        lemma_fpow_of_one(i as nat);
        G::lemma_scale_one(x[i]);
    }
    assert(r =~= x);
}

/// The transforms on the coset undo one another, in either order.
pub proof fn lemma_coset_round_trips<G: Group>(
    x: Seq<G>,
    w: nat,
    winv: nat,
    ninv: nat,
    g: nat,
    ginv: nat,
    k: nat,
)
    requires
        x.len() == pow2(k),
        all_wf(x),
        is_primitive_root(w, k),
        winv < modulus(),
        fmul(w, winv) == 1,
        fmul(pow2(k), ninv) == 1,
        fmul(g, ginv) == 1,
    ensures
        with_powers(scale_all(dft(dft(with_powers(x, g), w), winv), ninv), ginv) == x,
        dft(with_powers(with_powers(scale_all(dft(x, winv), ninv), ginv), g), w) == x,
{
    let xg = with_powers(x, g);
    assert(all_wf(xg)) by {
        assert forall|i: int| 0 <= i < x.len() implies (#[trigger] xg[i]).wf() by {
            G::lemma_wf(x[i], x[i], fpow(g, i as nat));
        }
    }
    lemma_ifft_fft(xg, w, winv, ninv, k);
    lemma_powers_cancel(x, g, ginv);
    let y = scale_all(dft(x, winv), ninv);
    assert(all_wf(y)) by {
        assert forall|i: int| 0 <= i < x.len() implies (#[trigger] y[i]).wf() by {
            G::lemma_wf(dft(x, winv)[i], x[i], ninv);
        }
    }
    lemma_fmul_comm(g, ginv);
    lemma_powers_cancel(y, ginv, g);
    lemma_fft_ifft(x, w, winv, ninv, k);
}

/// Two transforms and then two inverse transforms give the sequence back.
pub proof fn lemma_two_ffts_two_iffts<G: Group>(x: Seq<G>, w: nat, winv: nat, ninv: nat, k: nat)
    requires
        x.len() == pow2(k),
        all_wf(x),
        is_primitive_root(w, k),
        winv < modulus(),
        fmul(w, winv) == 1,
        fmul(pow2(k), ninv) == 1,
    ensures
        scale_all(dft(scale_all(dft(dft(dft(x, w), w), winv), ninv), winv), ninv) == x,
{
    let y = dft(x, w);
    lemma_dft_wf(x, w);
    lemma_ifft_fft(y, w, winv, ninv, k);
    lemma_ifft_fft(x, w, winv, ninv, k);
}

/// The transform in independent parts is the transform: the value at place
/// `idx` of the transform of `p * n1` entries is the value at `idx / p` of
/// the transform of stripe `idx mod p` with respect to the `p`-th power of
/// the root.
pub proof fn lemma_parallel_is_serial<G: Group>(x: Seq<G>, w: nat, log_n: nat, log_p: nat)
    requires
        log_p <= log_n,
        x.len() == pow2(log_n),
        is_primitive_root(w, log_n),
    ensures
        Seq::new(
            x.len(),
            |idx: int|
                dft(
                    stripe(
                        x,
                        w,
                        (idx % (pow2(log_p) as int)) as nat,
                        pow2((log_n - log_p) as nat),
                        pow2(log_p),
                    ),
                    fpow(w, pow2(log_p)),
                )[idx / (pow2(log_p) as int)],
        ) == dft(x, w),
{
    let p = pow2(log_p);
    let n1 = pow2((log_n - log_p) as nat);
    lemma_pow2_adds(log_p, (log_n - log_p) as nat);
    lemma_pow2_pos(log_p);
    let r = Seq::new(
        x.len(),
        |idx: int|
            dft(stripe(x, w, (idx % (p as int)) as nat, n1, p), fpow(w, p))[idx / (p as int)],
    );
    assert forall|idx: int| 0 <= idx < x.len() implies r[idx] == dft(x, w)[idx] by {
        let j = idx % (p as int);
        let c = idx / (p as int);
        lemma_fundamental_div_mod(idx, p as int);
        lemma_mod_bound(idx, p as int);
        assert(0 <= c < n1) by (nonlinear_arith)
            requires
                idx == p * c + j,
                0 <= idx < p * n1,
                0 <= j < p,
        ;
        lemma_stripe(x, w, j as nat, n1, p, c as nat);
    }
    assert(r =~= dft(x, w));
}

/// The vanishing polynomial of the subgroup is zero at every power of the
/// root that generates the subgroup.
pub proof fn lemma_vanishing_on_subgroup(w: nat, k: nat, j: nat)
    requires
        is_primitive_root(w, k),
    ensures
        vanishing(fpow(w, j), pow2(k)) == 0,
{
    lemma_fpow_fpow(w, j, pow2(k));
    lemma_fpow_fpow(w, pow2(k), j);
    assert(j * pow2(k) == pow2(k) * j) by (nonlinear_arith);
    lemma_fpow_of_one(j);
    lemma_fsub_self(1);
}

/// A sequence of one entry is left as it is by the transform, by the scaling
/// by powers, and by the division by its length.
pub proof fn lemma_single_entry<G: Group>(x: Seq<G>, w: nat, g: nat, ninv: nat)
    requires
        x.len() == 1,
        all_wf(x),
        ninv < modulus(),
        fmul(1, ninv) == 1,
    ensures
        dft(x, w) == x,
        with_powers(x, g) == x,
        scale_all(x, ninv) == x,
{
    lemma_dft_single(x, w);
    assert(x[0].wf());
    G::lemma_scale_one(x[0]);
    lemma_fmul_one(ninv);
    assert(with_powers(x, g) =~= x);
    assert(scale_all(x, ninv) =~= x);
}

/// On a domain, the transform and the inverse transform undo one another,
/// and so do the two on the coset.
pub proof fn lemma_domain_round_trips<G: Group>(d: &EvaluationDomain<G>)
    requires
        d.wf(),
    ensures
        scale_all(dft(dft(d@, d.root()), d.root_inv()), d.size_inv()) == d@,
        dft(scale_all(dft(d@, d.root_inv()), d.size_inv()), d.root()) == d@,
        with_powers(
            scale_all(
                dft(dft(with_powers(d@, generator()), d.root()), d.root_inv()),
                d.size_inv(),
            ),
            d.gen_inv(),
        ) == d@,
        dft(
            with_powers(
                with_powers(scale_all(dft(d@, d.root_inv()), d.size_inv()), d.gen_inv()),
                generator(),
            ),
            d.root(),
        ) == d@,
{
    let k = d.log_size();
    lemma_ifft_fft(d@, d.root(), d.root_inv(), d.size_inv(), k);
    lemma_fft_ifft(d@, d.root(), d.root_inv(), d.size_inv(), k);
    lemma_coset_round_trips(
        d@,
        d.root(),
        d.root_inv(),
        d.size_inv(),
        generator(),
        d.gen_inv(),
        k,
    );
}

} // verus!
