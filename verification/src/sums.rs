//! Finite sums in a module over the field, and the ways of regrouping them
//! that the transforms rest on.

use crate::group::Group;
use vstd::prelude::*;

verus! {

/// `f(0) + f(1) + ... + f(n - 1)`.
pub open spec fn gsum<G: Group>(f: spec_fn(int) -> G, n: nat) -> G
    decreases n,
{
    if n == 0 {
        G::zero_spec()
    } else {
        gsum(f, (n - 1) as nat).add_spec(f(n - 1))
    }
}

pub proof fn lemma_gsum_wf<G: Group>(f: spec_fn(int) -> G, n: nat)
    ensures
        gsum(f, n).wf(),
{
    if n == 0 {
        G::lemma_wf(G::zero_spec(), G::zero_spec(), 0);
    } else {
        G::lemma_wf(gsum(f, (n - 1) as nat), f(n - 1), 0);
    }
}

/// A sum depends only on the terms that it adds.
pub proof fn lemma_gsum_ext<G: Group>(f: spec_fn(int) -> G, g: spec_fn(int) -> G, n: nat)
    requires
        forall|i: int| 0 <= i < n ==> #[trigger] f(i) == g(i),
    ensures
        gsum(f, n) == gsum(g, n),
    decreases n,
{
    if n > 0 {
        lemma_gsum_ext(f, g, (n - 1) as nat);
    }
}

/// A sum of one well-formed term is that term.
pub proof fn lemma_gsum_one<G: Group>(f: spec_fn(int) -> G)
    requires
        f(0).wf(),
    ensures
        gsum(f, 1) == f(0),
{
    reveal_with_fuel(gsum, 2);
    G::lemma_add_comm(G::zero_spec(), f(0));
    G::lemma_add_zero(f(0));
}

/// `(a + b) + (c + d) == (a + c) + (b + d)`.
pub proof fn lemma_add_swap<G: Group>(a: G, b: G, c: G, d: G)
    ensures
        a.add_spec(b).add_spec(c.add_spec(d)) == a.add_spec(c).add_spec(b.add_spec(d)),
{
    G::lemma_add_assoc(a, b, c.add_spec(d));
    G::lemma_add_assoc(b, c, d);
    G::lemma_add_comm(b, c);
    G::lemma_add_assoc(c, b, d);
    G::lemma_add_assoc(a, c, b.add_spec(d));
}

/// The sum of termwise sums is the sum of the sums.
pub proof fn lemma_gsum_add<G: Group>(
    f: spec_fn(int) -> G,
    g: spec_fn(int) -> G,
    h: spec_fn(int) -> G,
    n: nat,
)
    requires
        forall|i: int| 0 <= i < n ==> #[trigger] h(i) == f(i).add_spec(g(i)),
    ensures
        gsum(h, n) == gsum(f, n).add_spec(gsum(g, n)),
    decreases n,
{
    if n == 0 {
        G::lemma_wf(G::zero_spec(), G::zero_spec(), 0);
        G::lemma_add_zero(G::zero_spec());
    } else {
        let m = (n - 1) as nat;
        lemma_gsum_add(f, g, h, m);
        lemma_add_swap(gsum(f, m), gsum(g, m), f(n - 1), g(n - 1));
    }
}

/// Scaling every term scales the sum.
pub proof fn lemma_gsum_scale<G: Group>(
    f: spec_fn(int) -> G,
    c: nat,
    h: spec_fn(int) -> G,
    n: nat,
)
    requires
        forall|i: int| 0 <= i < n ==> #[trigger] h(i) == f(i).scale_spec(c),
    ensures
        gsum(h, n) == gsum(f, n).scale_spec(c),
    decreases n,
{
    if n == 0 {
        G::lemma_scale_zero(c);
    } else {
        let m = (n - 1) as nat;
        lemma_gsum_scale(f, c, h, m);
        G::lemma_scale_add(gsum(f, m), f(n - 1), c);
    }
}

/// A sum of zeros is zero.
pub proof fn lemma_gsum_zero<G: Group>(f: spec_fn(int) -> G, n: nat)
    requires
        forall|i: int| 0 <= i < n ==> #[trigger] f(i) == G::zero_spec(),
    ensures
        gsum(f, n) == G::zero_spec(),
    decreases n,
{
    if n > 0 {
        lemma_gsum_zero(f, (n - 1) as nat);
        G::lemma_wf(G::zero_spec(), G::zero_spec(), 0);
        G::lemma_add_zero(G::zero_spec());
    }
}

/// A sum of `a + b` terms is the sum of the first `a` and of the `b` that follow.
pub proof fn lemma_gsum_split<G: Group>(
    f: spec_fn(int) -> G,
    g: spec_fn(int) -> G,
    a: nat,
    b: nat,
)
    requires
        forall|i: int| 0 <= i < b ==> #[trigger] g(i) == f(a + i),
    ensures
        gsum(f, a + b) == gsum(f, a).add_spec(gsum(g, b)),
    decreases b,
{
    if b == 0 {
        lemma_gsum_wf(f, a);
        G::lemma_add_zero(gsum(f, a));
    } else {
        let m = (b - 1) as nat;
        lemma_gsum_split(f, g, a, m);
        assert(((a + b) - 1) as nat == a + m);
        G::lemma_add_assoc(gsum(f, a), gsum(g, m), g(b - 1));
    }
}

/// A sum of `2 h` terms is the sum of those at even places and of those at
/// odd places.
pub proof fn lemma_gsum_even_odd<G: Group>(
    f: spec_fn(int) -> G,
    e: spec_fn(int) -> G,
    o: spec_fn(int) -> G,
    h: nat,
)
    requires
        forall|i: int| 0 <= i < h ==> #[trigger] e(i) == f(2 * i),
        forall|i: int| 0 <= i < h ==> #[trigger] o(i) == f(2 * i + 1),
    ensures
        gsum(f, 2 * h) == gsum(e, h).add_spec(gsum(o, h)),
    decreases h,
{
    if h == 0 {
        G::lemma_wf(G::zero_spec(), G::zero_spec(), 0);
        G::lemma_add_zero(G::zero_spec());
    } else {
        let m = (h - 1) as nat;
        lemma_gsum_even_odd(f, e, o, m);
        reveal_with_fuel(gsum, 2);
        assert((2 * h - 1) as nat == 2 * m + 1);
        assert(((2 * h - 1) as nat - 1) as nat == 2 * m);
        G::lemma_add_assoc(gsum(f, 2 * m), f(2 * (m as int)), f(2 * (m as int) + 1));
        lemma_add_swap(gsum(e, m), gsum(o, m), e(h - 1), o(h - 1));
    }
}

/// A sum of `p * n` terms, read as `p` rows of `n`, is the sum of its `n`
/// column sums.
pub proof fn lemma_gsum_columns<G: Group>(
    f: spec_fn(int) -> G,
    col: spec_fn(int) -> spec_fn(int) -> G,
    r: spec_fn(int) -> G,
    n: nat,
    p: nat,
)
    requires
        forall|i: int, s: int| 0 <= i < n && 0 <= s < p ==> #[trigger] col(i)(s) == f(i + s * n),
        forall|i: int| 0 <= i < n ==> #[trigger] r(i) == gsum(col(i), p),
    ensures
        gsum(f, p * n) == gsum(r, n),
    decreases p,
{
    if p == 0 {
        assert(p * n == 0) by (nonlinear_arith)
            requires
                p == 0,
        ;
        lemma_gsum_zero(r, n);
    } else {
        let q = (p - 1) as nat;
        let rq = |i: int| gsum(col(i), q);
        let last = |i: int| f(q * n + i);
        lemma_gsum_columns(f, col, rq, n, q);
        assert forall|i: int| 0 <= i < n implies #[trigger] r(i) == rq(i).add_spec(last(i)) by {
            assert(col(i)(q as int) == f(i + q * n));
        }
        lemma_gsum_add(rq, last, r, n);
        lemma_gsum_split(f, last, q * n, n);
        assert(q * n + n == p * n) by (nonlinear_arith)
            requires
                q == p - 1,
        ;
    }
}

/// A sum of `2 h` terms is the sum over the first `h` of each term and the
/// term `h` places on.
pub proof fn lemma_gsum_halves<G: Group>(f: spec_fn(int) -> G, g: spec_fn(int) -> G, h: nat)
    requires
        forall|j: int| 0 <= j < h ==> #[trigger] g(j) == f(j).add_spec(f(j + h)),
    ensures
        gsum(f, 2 * h) == gsum(g, h),
{
    let hi = |j: int| f(h + j);
    lemma_gsum_split(f, hi, h, h);
    assert forall|j: int| 0 <= j < h implies #[trigger] g(j) == f(j).add_spec(hi(j)) by {
        assert(j + h == h + j);
    }
    lemma_gsum_add(f, hi, g, h);
}

} // verus!
