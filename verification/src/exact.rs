//! What holds where the bit patterns stand for numbers and the operations on them are exact.
//!
//! The numbers may be the real numbers. Of these only some laws of arithmetic are needed, and they
//! are listed.
use crate::config::D_STATE;
use crate::recurrence::{
    advances, decays, drives, follows, mixes, mixes_by, projects, rates, reads_out, softplus,
    ssm_scan, ssm_step, ssm_trace, Matrix, Memory, Mixer, Work,
};
use crate::settled::{lemma_work, settled};
use crate::tensor::{add_gives, affine_gives, dot_gives, exp_gives, log_gives, mul_gives, negated};
use candle_core::DType;
use vstd::prelude::*;

verus! {

/// Numbers of a kind `T`, with the operations on them, and the numbers that bit patterns stand for.
#[verifier::reject_recursive_types(T)]
pub struct Numbers<T> {
    /// The number that a bit pattern stands for.
    pub of: spec_fn(u64) -> T,
    /// Zero.
    pub zero: T,
    /// One.
    pub one: T,
    /// The sum of two numbers.
    pub plus: spec_fn(T, T) -> T,
    /// The product of two numbers.
    pub times: spec_fn(T, T) -> T,
    /// A number with its sign changed.
    pub minus: spec_fn(T) -> T,
    /// The exponential of a number.
    pub exp: spec_fn(T) -> T,
    /// The natural logarithm of a number.
    pub log: spec_fn(T) -> T,
    /// Whether a number is greater than zero.
    pub positive: spec_fn(T) -> bool,
}

/// The laws of sums and products.
#[verifier::opaque]
pub open spec fn lawful<T>(k: Numbers<T>) -> bool {
    &&& forall|a: T, b: T| #[trigger] (k.plus)(a, b) == (k.plus)(b, a)
    &&& forall|a: T, b: T, c: T| #[trigger]
        (k.plus)((k.plus)(a, b), c) == (k.plus)(a, (k.plus)(b, c))
    &&& forall|a: T| #[trigger] (k.plus)(a, k.zero) == a
    &&& forall|a: T, b: T| #[trigger] (k.times)(a, b) == (k.times)(b, a)
    &&& forall|a: T, b: T, c: T| #[trigger]
        (k.times)((k.times)(a, b), c) == (k.times)(a, (k.times)(b, c))
    &&& forall|a: T| #[trigger] (k.times)(a, k.zero) == k.zero
    &&& forall|a: T, b: T, c: T| #[trigger]
        (k.times)(a, (k.plus)(b, c)) == (k.plus)((k.times)(a, b), (k.times)(a, c))
}

proof fn lemma_plus<T>(k: Numbers<T>, a: T, b: T, c: T)
    requires
        lawful(k),
    ensures
        (k.plus)(a, b) == (k.plus)(b, a),
        (k.plus)((k.plus)(a, b), c) == (k.plus)(a, (k.plus)(b, c)),
        (k.plus)(a, k.zero) == a,
{
    reveal(lawful);
}

proof fn lemma_times<T>(k: Numbers<T>, a: T, b: T, c: T)
    requires
        lawful(k),
    ensures
        (k.times)(a, b) == (k.times)(b, a),
        (k.times)((k.times)(a, b), c) == (k.times)(a, (k.times)(b, c)),
        (k.times)(a, k.zero) == k.zero,
        (k.times)(a, (k.plus)(b, c)) == (k.plus)((k.times)(a, b), (k.times)(a, c)),
{
    reveal(lawful);
}

/// `p * x + q * y`.
pub open spec fn mixed<T>(k: Numbers<T>, p: T, q: T, x: T, y: T) -> T {
    (k.plus)((k.times)(p, x), (k.times)(q, y))
}

/// `(a + b) + (c + d)` is `(a + c) + (b + d)`.
proof fn lemma_swap<T>(k: Numbers<T>, a: T, b: T, c: T, d: T)
    requires
        lawful(k),
    ensures
        (k.plus)((k.plus)(a, b), (k.plus)(c, d)) == (k.plus)((k.plus)(a, c), (k.plus)(b, d)),
{
    lemma_plus(k, a, b, (k.plus)(c, d));
    lemma_plus(k, b, c, d);
    lemma_plus(k, c, b, d);
    lemma_plus(k, a, c, (k.plus)(b, d));
}

/// A factor can be drawn into a mixture.
pub(crate) proof fn lemma_mixed_times<T>(k: Numbers<T>, e: T, p: T, q: T, x: T, y: T)
    requires
        lawful(k),
    ensures
        (k.times)(e, mixed(k, p, q, x, y)) == mixed(k, p, q, (k.times)(e, x), (k.times)(e, y)),
        (k.times)(mixed(k, p, q, x, y), e) == mixed(k, p, q, (k.times)(x, e), (k.times)(y, e)),
{
    lemma_times(k, e, (k.times)(p, x), (k.times)(q, y));
    lemma_times(k, e, p, x);
    lemma_times(k, p, e, x);
    lemma_times(k, e, q, y);
    lemma_times(k, q, e, y);
    lemma_times(k, e, x, x);
    lemma_times(k, e, y, y);
    lemma_times(k, e, mixed(k, p, q, x, y), e);
}

/// The sum of two mixtures is the mixture of the sums.
proof fn lemma_mixed_plus<T>(k: Numbers<T>, p: T, q: T, a: T, b: T, c: T, d: T)
    requires
        lawful(k),
    ensures
        (k.plus)(mixed(k, p, q, a, b), mixed(k, p, q, c, d)) == mixed(
            k,
            p,
            q,
            (k.plus)(a, c),
            (k.plus)(b, d),
        ),
{
    lemma_swap(k, (k.times)(p, a), (k.times)(q, b), (k.times)(p, c), (k.times)(q, d));
    lemma_times(k, p, a, c);
    lemma_times(k, q, b, d);
}

/// The sum of the products of the numbers of `xs` and `ys`.
pub open spec fn dot<T>(k: Numbers<T>, xs: Seq<u64>, ys: Seq<u64>) -> T
    decreases xs.len(),
{
    if xs.len() == 0 {
        k.zero
    } else {
        (k.plus)(
            dot(k, xs.drop_last(), ys),
            (k.times)((k.of)(xs.last()), (k.of)(ys[xs.len() - 1])),
        )
    }
}

/// Sums, products and exponentials of the type `dt` are exact.
pub open spec fn exact<T>(dt: DType, k: Numbers<T>) -> bool {
    &&& forall|x: u64, y: u64, z: u64| #[trigger]
        mul_gives(dt, x, y, z) ==> (k.of)(z) == (k.times)((k.of)(x), (k.of)(y))
    &&& forall|x: u64, y: u64, z: u64| #[trigger]
        add_gives(dt, x, y, z) ==> (k.of)(z) == (k.plus)((k.of)(x), (k.of)(y))
    &&& forall|x: u64, z: u64| #[trigger]
        exp_gives(dt, x, z) ==> (k.of)(z) == (k.exp)((k.of)(x))
    &&& forall|xs: Seq<u64>, ys: Seq<u64>, z: u64| #[trigger]
        dot_gives(dt, xs, ys, z) ==> (k.of)(z) == dot(k, xs, ys)
}

/// The factor by which a state decays over a step.
pub open spec fn factor<T>(k: Numbers<T>, delta: u64, a: u64) -> T {
    (k.exp)((k.times)((k.of)(delta), (k.of)(a)))
}

/// What a state is after a step: its factor times what it was, plus an input.
proof fn lemma_advances<T>(
    dt: DType,
    k: Numbers<T>,
    delta: u64,
    a: u64,
    b: u64,
    x: u64,
    h0: u64,
    h1: u64,
)
    requires
        exact(dt, k),
        advances(dt, delta, a, b, x, h0, h1),
    ensures
        (k.of)(h1) == (k.plus)(
            (k.times)(factor(k, delta, a), (k.of)(h0)),
            (k.times)((k.times)((k.of)(delta), (k.of)(b)), (k.of)(x)),
        ),
{
    let (q, s) = choose|q: u64, s: u64|
        {
            &&& #[trigger] decays(dt, delta, a, q)
            &&& #[trigger] drives(dt, delta, b, x, s)
            &&& follows(dt, q, h0, s, h1)
        };
    assert((k.of)(q) == factor(k, delta, a));
    assert((k.of)(s) == (k.times)((k.times)((k.of)(delta), (k.of)(b)), (k.of)(x)));
}

/// What is read out of a state.
proof fn lemma_reads_out<T>(
    dt: DType,
    k: Numbers<T>,
    h: Seq<u64>,
    c: Seq<u64>,
    x: u64,
    d: u64,
    y: u64,
)
    requires
        exact(dt, k),
        reads_out(dt, h, c, x, d, y),
    ensures
        (k.of)(y) == (k.plus)(dot(k, h, c), (k.times)((k.of)(x), (k.of)(d))),
{
}

/// `z` is `p * x + q * y`, number by number.
pub open spec fn combines<T>(
    k: Numbers<T>,
    p: T,
    q: T,
    x: Seq<u64>,
    y: Seq<u64>,
    z: Seq<u64>,
) -> bool {
    &&& x.len() == z.len()
    &&& y.len() == z.len()
    &&& forall|j: int|
        0 <= j < z.len() ==> (k.of)(#[trigger] z[j]) == mixed(k, p, q, (k.of)(x[j]), (k.of)(y[j]))
}

/// `z` is `p * x + q * y`, row by row.
pub open spec fn combine<T>(k: Numbers<T>, p: T, q: T, x: Matrix, y: Matrix, z: Matrix) -> bool {
    &&& x.len() == z.len()
    &&& y.len() == z.len()
    &&& forall|i: int| 0 <= i < z.len() ==> combines(k, p, q, x[i], y[i], #[trigger] z[i])
}

pub(crate) proof fn lemma_dot_combines<T>(
    k: Numbers<T>,
    p: T,
    q: T,
    x: Seq<u64>,
    y: Seq<u64>,
    z: Seq<u64>,
    c: Seq<u64>,
)
    requires
        lawful(k),
        combines(k, p, q, x, y, z),
    ensures
        dot(k, z, c) == mixed(k, p, q, dot(k, x, c), dot(k, y, c)),
    decreases z.len(),
{
    if z.len() > 0 {
        let n = z.len() - 1;
        let (x0, y0, z0) = (x.drop_last(), y.drop_last(), z.drop_last());
        assert forall|j: int| 0 <= j < n implies (k.of)(#[trigger] z0[j]) == mixed(
            k,
            p,
            q,
            (k.of)(x0[j]),
            (k.of)(y0[j]),
        ) by {
            assert(z0[j] == z[j]);
        }
        lemma_dot_combines(k, p, q, x0, y0, z0, c);
        let (a, b, e) = ((k.of)(x[n]), (k.of)(y[n]), (k.of)(c[n]));
        assert((k.of)(z[n]) == mixed(k, p, q, a, b));
        lemma_mixed_times(k, e, p, q, a, b);
        lemma_mixed_plus(
            k,
            p,
            q,
            dot(k, x0, c),
            dot(k, y0, c),
            (k.times)(a, e),
            (k.times)(b, e),
        );
    } else {
        lemma_times(k, p, p, p);
        lemma_times(k, q, q, q);
        lemma_plus(k, k.zero, k.zero, k.zero);
    }
}

/// A step of the state space model is linear in its state and input together.
proof fn lemma_step_is_linear<T>(
    dt: DType,
    k: Numbers<T>,
    p: T,
    q: T,
    a: Matrix,
    skip: Seq<u64>,
    delta: Seq<u64>,
    b: Seq<u64>,
    c: Seq<u64>,
    x: (Seq<u64>, Seq<u64>, Seq<u64>),
    g: (Matrix, Matrix, Matrix),
    h: (Matrix, Matrix, Matrix),
    y: (Seq<u64>, Seq<u64>, Seq<u64>),
)
    requires
        lawful(k),
        exact(dt, k),
        ssm_step(dt, a, skip, delta, b, c, x.0, g.0, h.0, y.0),
        ssm_step(dt, a, skip, delta, b, c, x.1, g.1, h.1, y.1),
        ssm_step(dt, a, skip, delta, b, c, x.2, g.2, h.2, y.2),
        combines(k, p, q, x.0, x.1, x.2),
        combine(k, p, q, g.0, g.1, g.2),
        g.2.len() == x.2.len(),
        forall|d: int| 0 <= d < g.2.len() ==> (#[trigger] g.2[d]).len() == b.len(),
    ensures
        combine(k, p, q, h.0, h.1, h.2),
        combines(k, p, q, y.0, y.1, y.2),
        h.2.len() == x.2.len(),
        forall|d: int| 0 <= d < h.2.len() ==> (#[trigger] h.2[d]).len() == b.len(),
{
    assert forall|d: int| 0 <= d < x.2.len() implies combines(
        k,
        p,
        q,
        h.0[d],
        h.1[d],
        #[trigger] h.2[d],
    ) by {
        assert(h.0[d].len() == b.len() && h.1[d].len() == b.len());
        assert forall|n: int| 0 <= n < b.len() implies (k.of)(#[trigger] h.2[d][n]) == mixed(
            k,
            p,
            q,
            (k.of)(h.0[d][n]),
            (k.of)(h.1[d][n]),
        ) by {
            let (h0, h1) = (h.0[d][n], h.1[d][n]);
            lemma_advances(dt, k, delta[d], a[d][n], b[n], x.0[d], g.0[d][n], h0);
            lemma_advances(dt, k, delta[d], a[d][n], b[n], x.1[d], g.1[d][n], h1);
            lemma_advances(dt, k, delta[d], a[d][n], b[n], x.2[d], g.2[d][n], h.2[d][n]);
            let (g0, g1, u0, u1) = (
                (k.of)(g.0[d][n]),
                (k.of)(g.1[d][n]),
                (k.of)(x.0[d]),
                (k.of)(x.1[d]),
            );
            let (e, s) = (
                factor(k, delta[d], a[d][n]),
                (k.times)((k.of)(delta[d]), (k.of)(b[n])),
            );
            let row = g.2[d];
            assert(combines(k, p, q, g.0[d], g.1[d], g.2[d]));
            assert((k.of)(row[n]) == mixed(k, p, q, g0, g1));
            assert((k.of)(x.2[d]) == mixed(k, p, q, u0, u1));
            lemma_mixed_times(k, e, p, q, g0, g1);
            lemma_mixed_times(k, s, p, q, u0, u1);
            lemma_mixed_plus(
                k,
                p,
                q,
                (k.times)(e, g0),
                (k.times)(e, g1),
                (k.times)(s, u0),
                (k.times)(s, u1),
            );
        }
    }
    assert forall|d: int| 0 <= d < x.2.len() implies (k.of)(#[trigger] y.2[d]) == mixed(
        k,
        p,
        q,
        (k.of)(y.0[d]),
        (k.of)(y.1[d]),
    ) by {
        let (y0, y1, h2) = (y.0[d], y.1[d], h.2[d]);
        lemma_reads_out(dt, k, h.0[d], c, x.0[d], skip[d], y0);
        lemma_reads_out(dt, k, h.1[d], c, x.1[d], skip[d], y1);
        lemma_reads_out(dt, k, h2, c, x.2[d], skip[d], y.2[d]);
        lemma_dot_combines(k, p, q, h.0[d], h.1[d], h2, c);
        let (u0, u1, e) = ((k.of)(x.0[d]), (k.of)(x.1[d]), (k.of)(skip[d]));
        assert((k.of)(x.2[d]) == mixed(k, p, q, u0, u1));
        lemma_mixed_times(k, e, p, q, u0, u1);
        lemma_mixed_plus(
            k,
            p,
            q,
            dot(k, h.0[d], c),
            dot(k, h.1[d], c),
            (k.times)(u0, e),
            (k.times)(u1, e),
        );
    }
}

proof fn lemma_trace_is_linear<T>(
    dt: DType,
    k: Numbers<T>,
    p: T,
    q: T,
    a: Matrix,
    skip: Seq<u64>,
    delta: Matrix,
    b: Matrix,
    c: Matrix,
    x: (Matrix, Matrix, Matrix),
    h: (Seq<Matrix>, Seq<Matrix>, Seq<Matrix>),
    y: (Matrix, Matrix, Matrix),
    width: nat,
    n: nat,
    t: int,
)
    requires
        lawful(k),
        exact(dt, k),
        ssm_trace(dt, a, skip, delta, b, c, x.0, h.0, y.0),
        ssm_trace(dt, a, skip, delta, b, c, x.1, h.1, y.1),
        ssm_trace(dt, a, skip, delta, b, c, x.2, h.2, y.2),
        combine(k, p, q, x.0, x.1, x.2),
        forall|u: int| 0 <= u < x.2.len() ==> (#[trigger] x.2[u]).len() == width,
        b.len() == x.2.len(),
        forall|u: int| 0 <= u < b.len() ==> (#[trigger] b[u]).len() == n,
        combine(k, p, q, h.0[0], h.1[0], h.2[0]),
        h.2[0].len() == width,
        forall|d: int| 0 <= d < width ==> (#[trigger] h.2[0][d]).len() == n,
        0 <= t <= x.2.len(),
    ensures
        combine(k, p, q, h.0[t], h.1[t], h.2[t]),
        h.2[t].len() == width,
        forall|d: int| 0 <= d < width ==> (#[trigger] h.2[t][d]).len() == n,
        forall|u: int| 0 <= u < t ==> combines(k, p, q, y.0[u], y.1[u], #[trigger] y.2[u]),
    decreases t,
{
    if t > 0 {
        let u = t - 1;
        lemma_trace_is_linear(dt, k, p, q, a, skip, delta, b, c, x, h, y, width, n, u);
        let (y0, y1, y2) = (y.0[u], y.1[u], y.2[u]);
        let (x2, b2) = (x.2[u], b[u]);
        assert(combines(k, p, q, x.0[u], x.1[u], x2));
        lemma_step_is_linear(
            dt,
            k,
            p,
            q,
            a,
            skip,
            delta[u],
            b2,
            c[u],
            (x.0[u], x.1[u], x2),
            (h.0[u], h.1[u], h.2[u]),
            (h.0[t], h.1[t], h.2[t]),
            (y0, y1, y2),
        );
    }
}

/// In exact arithmetic a scan is linear in its input: if the input `x.2` is `p * x.0 + q * x.1`, and
/// so is the state before the first position (all three may be zero), then so are the outputs and
/// the last state.
pub proof fn law_scan_is_linear<T>(
    dt: DType,
    k: Numbers<T>,
    p: T,
    q: T,
    a: Matrix,
    skip: Seq<u64>,
    delta: Matrix,
    b: Matrix,
    c: Matrix,
    x: (Matrix, Matrix, Matrix),
    g: (Matrix, Matrix, Matrix),
    h: (Matrix, Matrix, Matrix),
    y: (Matrix, Matrix, Matrix),
    width: nat,
    n: nat,
)
    requires
        lawful(k),
        exact(dt, k),
        ssm_scan(dt, a, skip, delta, b, c, x.0, g.0, h.0, y.0),
        ssm_scan(dt, a, skip, delta, b, c, x.1, g.1, h.1, y.1),
        ssm_scan(dt, a, skip, delta, b, c, x.2, g.2, h.2, y.2),
        combine(k, p, q, x.0, x.1, x.2),
        forall|u: int| 0 <= u < x.2.len() ==> (#[trigger] x.2[u]).len() == width,
        b.len() == x.2.len(),
        forall|u: int| 0 <= u < b.len() ==> (#[trigger] b[u]).len() == n,
        combine(k, p, q, g.0, g.1, g.2),
        g.2.len() == width,
        forall|d: int| 0 <= d < width ==> (#[trigger] g.2[d]).len() == n,
    ensures
        combine(k, p, q, y.0, y.1, y.2),
        combine(k, p, q, h.0, h.1, h.2),
{
    let hs0 = choose|hs: Seq<Matrix>|
        {
            &&& #[trigger] ssm_trace(dt, a, skip, delta, b, c, x.0, hs, y.0)
            &&& hs.first() == g.0
            &&& hs.last() == h.0
        };
    let hs1 = choose|hs: Seq<Matrix>|
        {
            &&& #[trigger] ssm_trace(dt, a, skip, delta, b, c, x.1, hs, y.1)
            &&& hs.first() == g.1
            &&& hs.last() == h.1
        };
    let hs2 = choose|hs: Seq<Matrix>|
        {
            &&& #[trigger] ssm_trace(dt, a, skip, delta, b, c, x.2, hs, y.2)
            &&& hs.first() == g.2
            &&& hs.last() == h.2
        };
    let t = x.2.len() as int;
    lemma_trace_is_linear(
        dt,
        k,
        p,
        q,
        a,
        skip,
        delta,
        b,
        c,
        x,
        (hs0, hs1, hs2),
        y,
        width,
        n,
        t,
    );
}

/// The laws of order: exponentials are positive, and less than one of negative numbers; the
/// logarithm of a number greater than one is positive; a positive number times a negative one is
/// negative.
pub open spec fn ordered<T>(k: Numbers<T>) -> bool {
    &&& forall|x: T| (k.positive)(#[trigger] (k.exp)(x))
    &&& forall|x: T|
        (k.positive)((k.minus)(x)) ==> (k.positive)(
            (k.plus)(k.one, (k.minus)(#[trigger] (k.exp)(x))),
        )
    &&& forall|x: T|
        (k.positive)(x) ==> (k.positive)((k.log)(#[trigger] (k.plus)(x, k.one)))
    &&& forall|x: T, y: T|
        (k.positive)(x) && (k.positive)((k.minus)(y)) ==> (k.positive)(
            (k.minus)(#[trigger] (k.times)(x, y)),
        )
    &&& forall|x: T| (k.minus)(#[trigger] (k.minus)(x)) == x
}

/// The other operations that step sizes and rates are made by are exact, too.
pub open spec fn exact_rates<T>(dt: DType, k: Numbers<T>) -> bool {
    &&& forall|x: u64, z: u64| #[trigger]
        log_gives(dt, x, z) ==> (k.of)(z) == (k.log)((k.of)(x))
    &&& forall|x: u64, z: u64| #[trigger]
        affine_gives(dt, 1, 1, x, z) ==> (k.of)(z) == (k.plus)((k.of)(x), k.one)
    &&& forall|x: u64| (k.of)(#[trigger] negated(dt, x)) == (k.minus)((k.of)(x))
}

/// Step sizes are positive.
proof fn lemma_softplus<T>(dt: DType, k: Numbers<T>, x: u64, y: u64)
    requires
        exact(dt, k),
        exact_rates(dt, k),
        ordered(k),
        softplus(dt, x, y),
    ensures
        (k.positive)((k.of)(y)),
{
    let (e, f) = choose|e: u64, f: u64|
        {
            &&& #[trigger] exp_gives(dt, x, e)
            &&& #[trigger] affine_gives(dt, 1, 1, e, f)
            &&& log_gives(dt, f, y)
        };
    assert((k.of)(e) == (k.exp)((k.of)(x)));
    assert((k.of)(f) == (k.plus)((k.of)(e), k.one));
}

/// Rates are negative.
proof fn lemma_rates<T>(from: DType, dt: DType, k: Numbers<T>, l: u64, a: u64)
    requires
        exact(dt, k),
        exact_rates(dt, k),
        ordered(k),
        rates(from, dt, l, a),
    ensures
        (k.positive)((k.minus)((k.of)(a))),
{
}

/// `f` is greater than zero and less than one.
pub open spec fn between<T>(k: Numbers<T>, f: T) -> bool {
    (k.positive)(f) && (k.positive)((k.plus)(k.one, (k.minus)(f)))
}

/// `f * a + s` and `f * b + s` differ by `f` times what `a` and `b` differ by: where `a` is `b`
/// plus `e`, the first is the second plus `f * e`.
proof fn lemma_difference<T>(k: Numbers<T>, f: T, a: T, b: T, e: T, s: T)
    requires
        lawful(k),
        a == (k.plus)(b, e),
    ensures
        (k.plus)((k.times)(f, a), s) == (k.plus)(
            (k.plus)((k.times)(f, b), s),
            (k.times)(f, e),
        ),
{
    let (fb, fe) = ((k.times)(f, b), (k.times)(f, e));
    lemma_times(k, f, b, e);
    lemma_plus(k, fb, fe, s);
    lemma_plus(k, fe, s, s);
    lemma_plus(k, fb, s, fe);
}

/// `f` is a factor greater than zero and less than one, and where `g` and `h` differ by `e`, `r` and
/// `s` differ by `f * e`.
pub open spec fn damped<T>(k: Numbers<T>, f: T, g: u64, h: u64, r: u64, s: u64, e: T) -> bool {
    &&& between(k, f)
    &&& (k.of)(g) == (k.plus)((k.of)(h), e) ==> (k.of)(r) == (k.plus)((k.of)(s), (k.times)(f, e))
}

/// From whatever two states, a step of the token `x` after the taps `taps` leads to states whose
/// numbers differ by as much as those before, times the factors `fs`. These are greater than zero
/// and less than one.
pub open spec fn damps<T>(
    m: Mixer,
    dt: DType,
    k: Numbers<T>,
    x: Seq<u64>,
    taps: Matrix,
    fs: spec_fn(int, int) -> T,
) -> bool {
    forall|
        g: Matrix,
        r: Memory,
        o: Seq<u64>,
        h: Matrix,
        s: Memory,
        q: Seq<u64>,
        d: int,
        n: int,
        e: T,
    |
        #![trigger
            mixes(m, dt, x, (Memory { taps, h: g }), r, o),
            mixes(m, dt, x, (Memory { taps, h }), s, q),
            damped(k, fs(d, n), g[d][n], h[d][n], r.h[d][n], s.h[d][n], e)
        ]
        mixes(m, dt, x, (Memory { taps, h: g }), r, o) && mixes(
            m,
            dt,
            x,
            (Memory { taps, h }),
            s,
            q,
        ) && 0 <= d < m.conv_bias.len() && 0 <= n < D_STATE ==> damped(
            k,
            fs(d, n),
            g[d][n],
            h[d][n],
            r.h[d][n],
            s.h[d][n],
            e,
        )
}

/// One number of the states after two steps that share their work.
proof fn lemma_damped<T>(
    m: Mixer,
    dt: DType,
    k: Numbers<T>,
    x: Seq<u64>,
    r0: Memory,
    r1: Memory,
    o1: Seq<u64>,
    v: Work,
    s0: Memory,
    s1: Memory,
    o2: Seq<u64>,
    w: Work,
    d: int,
    n: int,
    e: T,
)
    requires
        lawful(k),
        exact(dt, k),
        exact_rates(dt, k),
        ordered(k),
        settled(dt),
        mixes_by(m, dt, x, r0, r1, o1, v),
        mixes_by(m, dt, x, s0, s1, o2, w),
        r0.taps == s0.taps,
        2 * m.conv_bias.len() <= m.in_proj.len(),
        m.dt_weight.len() == m.conv_bias.len(),
        m.x_proj.len() == m.rank + 2 * D_STATE,
        0 <= d < m.conv_bias.len(),
        0 <= n < D_STATE,
    ensures
        damped(
            k,
            factor(k, v.delta[d], v.a[d][n]),
            r0.h[d][n],
            s0.h[d][n],
            r1.h[d][n],
            s1.h[d][n],
            e,
        ),
{
    lemma_work(m, dt, x, r0, r1, o1, v, s0, s1, o2, w);
    assert(v.inputs.len() == m.conv_bias.len());
    assert(v.x.len() == m.conv_bias.len());
    let (dbl, raw) = choose|dbl: Seq<u64>, raw: Seq<u64>|
        {
            &&& #[trigger] projects(dt, m.x_proj, None, v.x, dbl)
            &&& #[trigger] projects(
                dt,
                m.dt_weight,
                Some(m.dt_bias),
                dbl.subrange(0, m.rank as int),
                raw,
            )
            &&& v.delta.len() == raw.len()
            &&& forall|j: int|
                0 <= j < v.delta.len() ==> softplus(dt, raw[j], #[trigger] v.delta[j])
            &&& v.b == dbl.subrange(m.rank as int, m.rank + D_STATE)
            &&& v.c == dbl.subrange(m.rank + D_STATE, m.rank + 2 * D_STATE)
        };
    let (delta, a) = (v.delta[d], v.a[d][n]);
    assert(v.b.len() == D_STATE);
    lemma_softplus(dt, k, raw[d], delta);
    lemma_rates(m.a_type, dt, k, m.a_log[d][n], a);
    let (h0, h1) = (r1.h[d][n], s1.h[d][n]);
    lemma_advances(dt, k, delta, a, v.b[n], v.x[d], r0.h[d][n], h0);
    lemma_advances(dt, k, delta, a, v.b[n], v.x[d], s0.h[d][n], h1);
    if (k.of)(r0.h[d][n]) == (k.plus)((k.of)(s0.h[d][n]), e) {
        lemma_difference(
            k,
            factor(k, delta, a),
            (k.of)(r0.h[d][n]),
            (k.of)(s0.h[d][n]),
            e,
            (k.times)((k.times)((k.of)(delta), (k.of)(v.b[n])), (k.of)(v.x[d])),
        );
    }
}

/// In exact arithmetic an old state only decays. For each number of the states there is a factor
/// greater than zero and less than one that does not depend on the states: a step from states that
/// differ by `e` leads to states that differ by that factor times `e`.
pub proof fn law_state_decays<T>(m: Mixer, dt: DType, k: Numbers<T>, x: Seq<u64>, taps: Matrix)
    requires
        lawful(k),
        exact(dt, k),
        exact_rates(dt, k),
        ordered(k),
        settled(dt),
        2 * m.conv_bias.len() <= m.in_proj.len(),
        m.dt_weight.len() == m.conv_bias.len(),
        m.x_proj.len() == m.rank + 2 * D_STATE,
    ensures
        exists|fs: spec_fn(int, int) -> T| damps(m, dt, k, x, taps, fs),
{
    let (g0, r0, o0, v) = choose|g: Matrix, r: Memory, o: Seq<u64>, w: Work| #[trigger]
        mixes_by(m, dt, x, (Memory { taps, h: g }), r, o, w);
    let fs = |d: int, n: int| factor(k, v.delta[d], v.a[d][n]);
    assert forall|
        g: Matrix,
        r: Memory,
        o: Seq<u64>,
        h: Matrix,
        s: Memory,
        q: Seq<u64>,
        d: int,
        n: int,
        e: T,
    |
        #![trigger
            mixes(m, dt, x, (Memory { taps, h: g }), r, o),
            mixes(m, dt, x, (Memory { taps, h }), s, q),
            damped(k, fs(d, n), g[d][n], h[d][n], r.h[d][n], s.h[d][n], e)
        ]
        mixes(m, dt, x, (Memory { taps, h: g }), r, o) && mixes(
            m,
            dt,
            x,
            (Memory { taps, h }),
            s,
            q,
        ) && 0 <= d < m.conv_bias.len() && 0 <= n < D_STATE implies damped(
        k,
        fs(d, n),
        g[d][n],
        h[d][n],
        r.h[d][n],
        s.h[d][n],
        e,
    ) by {
        let (a, b) = (Memory { taps, h: g }, Memory { taps, h });
        let u = choose|w: Work| #[trigger] mixes_by(m, dt, x, a, r, o, w);
        let w = choose|w: Work| #[trigger] mixes_by(m, dt, x, b, s, q, w);
        assert(mixes_by(m, dt, x, (Memory { taps, h: g0 }), r0, o0, v));
        lemma_work(m, dt, x, (Memory { taps, h: g0 }), r0, o0, v, a, r, o, u);
        lemma_damped(m, dt, k, x, a, r, o, u, b, s, q, w, d, n, e);
    }
    assert(damps(m, dt, k, x, taps, fs));
}

} // verus!
