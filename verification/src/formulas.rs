//! The formulas of the model in full, down to single sums and products.
//!
//! Each law takes what one of the relations in [`crate::recurrence`] and [`crate::net`] says and
//! gives the numbers that come up on the way, with the operation that each of them comes from.
use crate::layers::{conv_gives, linear_gives, rms_gives};
use crate::net::{
    blanks, cascade, cascades, completes, descends, descent, embedded, embeddings, generates,
    heads, leads, prefills, walk, walks, Net,
};
use crate::recurrence::{
    adds, advances, blank, closes, convolves, decays, drives, filters, follows, gates, layer_step,
    mixer_step, mixes, mixes_by, multiplies, prepares, projects, rates, reads_out, runs, selects,
    skips, softplus, splits, ssm_scan, ssm_step, ssm_trace, traces, transforms, weighs, zeros,
    Layer, Matrix, Memory, Mixer, Step, Work,
};
use crate::tensor::{
    add_gives, affine_gives, cast_gives, dot_gives, exp_gives, log_gives, mul_gives, negated,
    silu_gives, sum_gives,
};
use candle_core::DType;
use vstd::prelude::*;

verus! {

/// Before the first token, all that a block remembers are zeros: the last four inputs and the sixteen
/// numbers of the state of each channel.
pub proof fn law_blank(inner: nat, rows: nat, columns: nat)
    ensures
        blank(inner).taps.len() == inner,
        blank(inner).h.len() == inner,
        forall|c: int| 0 <= c < inner ==> (#[trigger] blank(inner).taps[c]).len() == 4,
        forall|c: int| 0 <= c < inner ==> (#[trigger] blank(inner).h[c]).len() == 16,
        forall|c: int, j: int|
            0 <= c < inner && 0 <= j < 4 ==> #[trigger] blank(inner).taps[c][j] == 0,
        forall|c: int, j: int|
            0 <= c < inner && 0 <= j < 16 ==> #[trigger] blank(inner).h[c][j] == 0,
        zeros(rows, columns).len() == rows,
        forall|r: int| 0 <= r < rows ==> (#[trigger] zeros(rows, columns)[r]).len() == columns,
        forall|r: int, c: int|
            0 <= r < rows && 0 <= c < columns ==> #[trigger] zeros(rows, columns)[r][c] == 0,
{
}

/// A linear layer gives inner products, and adds the bias where there is one.
pub proof fn law_linear(dt: DType, x: Seq<u64>, w: Seq<u64>, b: u64, y: u64)
    ensures
        linear_gives(dt, x, w, None, y) <==> dot_gives(dt, x, w, y),
        linear_gives(dt, x, w, Some(b), y) <==> exists|s: u64| #[trigger]
            dot_gives(dt, x, w, s) && add_gives(dt, s, b, y),
{
}

/// To change the sign of a number is to change its highest bit and no other.
pub proof fn law_negated(x: u64)
    ensures
        negated(DType::F64, x) == x ^ 0x8000_0000_0000_0000,
        negated(DType::F32, x) == x ^ 0x8000_0000,
        negated(DType::F16, x) == x ^ 0x8000,
        negated(DType::BF16, x) == x ^ 0x8000,
{
}

/// A projection has one number for each row of its matrix: the inner product of that row and the
/// input.
pub proof fn law_projection(dt: DType, m: Matrix, x: Seq<u64>, y: Seq<u64>)
    requires
        projects(dt, m, None, x, y),
    ensures
        y.len() == m.len(),
        forall|o: int| 0 <= o < m.len() ==> dot_gives(dt, x, m[o], #[trigger] y[o]),
{
}

/// A projection with a bias has one number for each row of its matrix: the inner product of that
/// row and the input, with the number of the bias at its place added.
pub proof fn law_biased_projection(
    dt: DType,
    m: Matrix,
    bias: Seq<u64>,
    x: Seq<u64>,
    y: Seq<u64>,
) -> (products: Seq<u64>)
    requires
        projects(dt, m, Some(bias), x, y),
    ensures
        y.len() == m.len(),
        products.len() == m.len(),
        forall|o: int| 0 <= o < m.len() ==> dot_gives(dt, x, m[o], #[trigger] products[o]),
        forall|o: int| 0 <= o < m.len() ==> add_gives(dt, products[o], bias[o], #[trigger] y[o]),
{
    let products = Seq::new(
        m.len(),
        |o: int| choose|s: u64| #[trigger] dot_gives(dt, x, m[o], s) && add_gives(dt, s, bias[o], y[o]),
    );
    assert forall|o: int| 0 <= o < m.len() implies {
        &&& dot_gives(dt, x, m[o], #[trigger] products[o])
        &&& add_gives(dt, products[o], bias[o], y[o])
    } by {
        let number = y[o];
        assert(linear_gives(dt, x, m[o], Some(bias[o]), number));
    }
    assert forall|o: int| 0 <= o < m.len() implies add_gives(
        dt,
        products[o],
        bias[o],
        #[trigger] y[o],
    ) by {
        let product = products[o];
    }
    products
}

/// A token is projected once. The first half of what comes of it are the inputs of the channels, in
/// their order, and the second half are their gates: every number is used, and none twice.
pub proof fn law_split(m: Mixer, dt: DType, x: Seq<u64>, inputs: Seq<u64>, gate: Seq<u64>)
    requires
        m.in_proj.len() == 2 * m.conv_bias.len(),
        splits(m, dt, x, inputs, gate),
    ensures
        inputs.len() == m.conv_bias.len(),
        gate.len() == m.conv_bias.len(),
        forall|c: int|
            0 <= c < m.conv_bias.len() ==> dot_gives(dt, x, m.in_proj[c], #[trigger] inputs[c]),
        forall|c: int|
            0 <= c < m.conv_bias.len() ==> dot_gives(
                dt,
                x,
                m.in_proj[m.conv_bias.len() + c],
                #[trigger] gate[c],
            ),
        projects(dt, m.in_proj, None, x, inputs + gate),
{
    let inner = m.conv_bias.len() as int;
    let p = choose|p: Seq<u64>|
        {
            &&& #[trigger] projects(dt, m.in_proj, None, x, p)
            &&& inputs == p.subrange(0, inner)
            &&& gate == p.subrange(inner, 2 * inner)
        };
    assert(inputs + gate =~= p);
    assert forall|c: int| 0 <= c < inner implies dot_gives(
        dt,
        x,
        m.in_proj[inner + c],
        #[trigger] gate[c],
    ) by {
        assert(gate[c] == p[inner + c]);
    }
}

/// The last inputs of every channel move up by one place, and the new input takes the last place.
/// What the channel passes on is the activation of the sum of those inputs, each times its number of
/// the kernel, and of the bias.
pub proof fn law_convolution(
    m: Mixer,
    dt: DType,
    t0: Matrix,
    inputs: Seq<u64>,
    t1: Matrix,
    x: Seq<u64>,
    c: int,
)
    requires
        convolves(m, dt, t0, inputs, t1, x),
        0 <= c < inputs.len(),
        t0[c].len() == 4,
        m.kernel[c].len() == 4,
    ensures
        t1.len() == inputs.len(),
        x.len() == inputs.len(),
        t1[c].len() == 4,
        t1[c][0] == t0[c][1],
        t1[c][1] == t0[c][2],
        t1[c][2] == t0[c][3],
        t1[c][3] == inputs[c],
        exists|s: u64, b: u64|
            {
                &&& {
                    ||| conv_gives(dt, t1[c], m.kernel[c], s)
                    ||| exists|p: Seq<u64>|
                        {
                            &&& p.len() == 4
                            &&& forall|k: int|
                                0 <= k < 4 ==> mul_gives(
                                    dt,
                                    t1[c][k],
                                    m.kernel[c][k],
                                    #[trigger] p[k],
                                )
                            &&& #[trigger] sum_gives(dt, p, s)
                        }
                }
                &&& #[trigger] add_gives(dt, s, m.conv_bias[c], b)
                &&& silu_gives(dt, b, x[c])
            },
{
    assert(t1[c] == t0[c].drop_first().push(inputs[c]));
    let new = x[c];
    assert(filters(dt, t1[c], m.kernel[c], m.conv_bias[c], new));
    let (s, b) = choose|s: u64, b: u64|
        {
            &&& #[trigger] weighs(dt, t1[c], m.kernel[c], s)
            &&& #[trigger] add_gives(dt, s, m.conv_bias[c], b)
            &&& silu_gives(dt, b, new)
        };
    if !conv_gives(dt, t1[c], m.kernel[c], s) {
        let p = choose|p: Seq<u64>| #[trigger]
            multiplies(dt, t1[c], m.kernel[c], p) && sum_gives(dt, p, s);
        assert(sum_gives(dt, p, s));
    }
}

/// What the step sizes are made from, step by step.
pub struct StepSizes {
    /// The numbers that are selected for them, as many as the rank.
    pub low: Seq<u64>,
    /// For each channel, the inner product of its weights and those numbers.
    pub products: Seq<u64>,
    /// With the bias added.
    pub raw: Seq<u64>,
    /// The exponentials.
    pub exps: Seq<u64>,
    /// With one added, of which the step sizes are the logarithms.
    pub above: Seq<u64>,
}

/// The selection of the channels `x` is one projection, cut into three parts that follow each other
/// and leave nothing out: the numbers that the step sizes are made from, as many as the rank, then
/// the sixteen of `b`, then the sixteen of `c`.
pub proof fn law_selection(
    m: Mixer,
    dt: DType,
    x: Seq<u64>,
    delta: Seq<u64>,
    b: Seq<u64>,
    c: Seq<u64>,
) -> (r: StepSizes)
    requires
        m.x_proj.len() == m.rank + 32,
        selects(m, dt, x, delta, b, c),
    ensures
        r.low.len() == m.rank,
        b.len() == 16,
        c.len() == 16,
        projects(dt, m.x_proj, None, x, r.low + b + c),
        forall|o: int| 0 <= o < m.rank ==> dot_gives(dt, x, m.x_proj[o], #[trigger] r.low[o]),
        forall|n: int| 0 <= n < 16 ==> dot_gives(dt, x, m.x_proj[m.rank + n], #[trigger] b[n]),
        forall|n: int|
            0 <= n < 16 ==> dot_gives(dt, x, m.x_proj[m.rank + 16 + n], #[trigger] c[n]),
        delta.len() == m.dt_weight.len(),
        forall|d: int|
            #![trigger delta[d]]
            0 <= d < delta.len() ==> {
                &&& dot_gives(dt, r.low, m.dt_weight[d], r.products[d])
                &&& add_gives(dt, r.products[d], m.dt_bias[d], r.raw[d])
                &&& exp_gives(dt, r.raw[d], r.exps[d])
                &&& affine_gives(dt, 1, 1, r.exps[d], r.above[d])
                &&& log_gives(dt, r.above[d], delta[d])
            },
{
    let rank = m.rank as int;
    let (dbl, raw) = choose|dbl: Seq<u64>, raw: Seq<u64>|
        {
            &&& #[trigger] projects(dt, m.x_proj, None, x, dbl)
            &&& #[trigger] projects(dt, m.dt_weight, Some(m.dt_bias), dbl.subrange(0, rank), raw)
            &&& delta.len() == raw.len()
            &&& forall|k: int| 0 <= k < delta.len() ==> softplus(dt, raw[k], #[trigger] delta[k])
            &&& b == dbl.subrange(rank, rank + 16)
            &&& c == dbl.subrange(rank + 16, rank + 32)
        };
    let low = dbl.subrange(0, rank);
    assert(low + b + c =~= dbl);
    assert forall|n: int| 0 <= n < 16 implies dot_gives(
        dt,
        x,
        m.x_proj[m.rank + n],
        #[trigger] b[n],
    ) by {
        assert(b[n] == dbl[rank + n]);
    }
    assert forall|n: int| 0 <= n < 16 implies dot_gives(
        dt,
        x,
        m.x_proj[m.rank + 16 + n],
        #[trigger] c[n],
    ) by {
        assert(c[n] == dbl[rank + 16 + n]);
    }
    let products = law_biased_projection(dt, m.dt_weight, m.dt_bias, low, raw);
    let pick = |d: int|
        choose|p: (u64, u64)|
            {
                &&& exp_gives(dt, raw[d], p.0)
                &&& #[trigger] affine_gives(dt, 1, 1, p.0, p.1)
                &&& log_gives(dt, p.1, delta[d])
            };
    let exps = Seq::new(delta.len(), |d: int| pick(d).0);
    let above = Seq::new(delta.len(), |d: int| pick(d).1);
    assert forall|d: int| #![trigger delta[d]] 0 <= d < delta.len() implies {
        &&& dot_gives(dt, low, m.dt_weight[d], products[d])
        &&& add_gives(dt, products[d], m.dt_bias[d], raw[d])
        &&& exp_gives(dt, raw[d], exps[d])
        &&& affine_gives(dt, 1, 1, exps[d], above[d])
        &&& log_gives(dt, above[d], delta[d])
    } by {
        let product = products[d];
        let number = raw[d];
        assert(softplus(dt, number, delta[d]));
        let (e, f) = choose|e: u64, f: u64|
            {
                &&& #[trigger] exp_gives(dt, number, e)
                &&& #[trigger] affine_gives(dt, 1, 1, e, f)
                &&& log_gives(dt, f, delta[d])
            };
        let p = (e, f);
        assert(affine_gives(dt, 1, 1, p.0, p.1));
    }
    StepSizes { low, products, raw, exps, above }
}

/// The rate at which a number of a state decays is the negative exponential of its logarithm, and
/// the skip connection is that of the block, both in the type that is computed in.
pub proof fn law_rates(m: Mixer, dt: DType, a: Matrix, skip: Seq<u64>, c: int, n: int)
    requires
        prepares(m, dt, a, skip),
        0 <= c < m.conv_bias.len(),
        0 <= n < 16,
    ensures
        a.len() == m.conv_bias.len(),
        a[c].len() == 16,
        skip.len() == m.conv_bias.len(),
        exists|l: u64, e: u64|
            {
                &&& if m.a_type == dt {
                    l == m.a_log[c][n]
                } else {
                    cast_gives(m.a_type, dt, m.a_log[c][n], l)
                }
                &&& #[trigger] exp_gives(dt, l, e)
                &&& a[c][n] == negated(dt, e)
            },
        if m.d_type == dt {
            skip[c] == m.d[c]
        } else {
            cast_gives(m.d_type, dt, m.d[c], skip[c])
        },
{
    let (rate, s) = (a[c][n], skip[c]);
    assert(rates(m.a_type, dt, m.a_log[c][n], rate));
}

/// What a state space model works out in a step.
pub struct StateStep {
    /// For each number of the state, `delta * a`.
    pub scaled: Matrix,
    /// The exponentials.
    pub factors: Matrix,
    /// `delta * b`.
    pub gains: Matrix,
    /// `delta * b * x`.
    pub inputs: Matrix,
    /// What is left of the old state.
    pub kept: Matrix,
    /// For each channel, the inner product of its new state and `c`.
    pub read: Seq<u64>,
    /// `x` times the skip connection.
    pub skipped: Seq<u64>,
}

/// Each number of a state is, after a step, `exp(delta * a)` times what it was, plus
/// `delta * b * x`. Each output is the inner product of the new state of its channel and `c`, plus
/// `x` times the skip connection.
pub proof fn law_state_space_step(
    dt: DType,
    a: Matrix,
    skip: Seq<u64>,
    delta: Seq<u64>,
    b: Seq<u64>,
    c: Seq<u64>,
    x: Seq<u64>,
    h0: Matrix,
    h1: Matrix,
    y: Seq<u64>,
) -> (r: StateStep)
    requires
        ssm_step(dt, a, skip, delta, b, c, x, h0, h1, y),
    ensures
        h1.len() == x.len(),
        y.len() == x.len(),
        forall|d: int| 0 <= d < x.len() ==> (#[trigger] h1[d]).len() == b.len(),
        forall|d: int, n: int|
            #![trigger h1[d][n]]
            0 <= d < x.len() && 0 <= n < b.len() ==> {
                &&& mul_gives(dt, delta[d], a[d][n], r.scaled[d][n])
                &&& exp_gives(dt, r.scaled[d][n], r.factors[d][n])
                &&& mul_gives(dt, delta[d], b[n], r.gains[d][n])
                &&& mul_gives(dt, r.gains[d][n], x[d], r.inputs[d][n])
                &&& mul_gives(dt, r.factors[d][n], h0[d][n], r.kept[d][n])
                &&& add_gives(dt, r.kept[d][n], r.inputs[d][n], h1[d][n])
            },
        forall|d: int|
            #![trigger y[d]]
            0 <= d < x.len() ==> {
                &&& dot_gives(dt, h1[d], c, r.read[d])
                &&& mul_gives(dt, x[d], skip[d], r.skipped[d])
                &&& add_gives(dt, r.read[d], r.skipped[d], y[d])
            },
{
    let pick = |d: int, n: int|
        choose|p: (u64, u64, u64, u64, u64)|
            {
                &&& mul_gives(dt, delta[d], a[d][n], p.0)
                &&& exp_gives(dt, p.0, p.1)
                &&& mul_gives(dt, delta[d], b[n], p.2)
                &&& #[trigger] mul_gives(dt, p.2, x[d], p.3)
                &&& #[trigger] mul_gives(dt, p.1, h0[d][n], p.4)
                &&& add_gives(dt, p.4, p.3, h1[d][n])
            };
    let out = |d: int|
        choose|p: (u64, u64)|
            {
                &&& dot_gives(dt, h1[d], c, p.0)
                &&& mul_gives(dt, x[d], skip[d], p.1)
                &&& #[trigger] add_gives(dt, p.0, p.1, y[d])
            };
    let (m, k) = (x.len(), b.len());
    let r = StateStep {
        scaled: Seq::new(m, |d: int| Seq::new(k, |n: int| pick(d, n).0)),
        factors: Seq::new(m, |d: int| Seq::new(k, |n: int| pick(d, n).1)),
        gains: Seq::new(m, |d: int| Seq::new(k, |n: int| pick(d, n).2)),
        inputs: Seq::new(m, |d: int| Seq::new(k, |n: int| pick(d, n).3)),
        kept: Seq::new(m, |d: int| Seq::new(k, |n: int| pick(d, n).4)),
        read: Seq::new(m, |d: int| out(d).0),
        skipped: Seq::new(m, |d: int| out(d).1),
    };
    assert forall|d: int, n: int|
        #![trigger h1[d][n]]
        0 <= d < x.len() && 0 <= n < b.len() implies {
        &&& mul_gives(dt, delta[d], a[d][n], r.scaled[d][n])
        &&& exp_gives(dt, r.scaled[d][n], r.factors[d][n])
        &&& mul_gives(dt, delta[d], b[n], r.gains[d][n])
        &&& mul_gives(dt, r.gains[d][n], x[d], r.inputs[d][n])
        &&& mul_gives(dt, r.factors[d][n], h0[d][n], r.kept[d][n])
        &&& add_gives(dt, r.kept[d][n], r.inputs[d][n], h1[d][n])
    } by {
        let h = h1[d][n];
        assert(advances(dt, delta[d], a[d][n], b[n], x[d], h0[d][n], h));
        let (q, s) = choose|q: u64, s: u64|
            {
                &&& #[trigger] decays(dt, delta[d], a[d][n], q)
                &&& #[trigger] drives(dt, delta[d], b[n], x[d], s)
                &&& follows(dt, q, h0[d][n], s, h)
            };
        let u = choose|u: u64| #[trigger]
            mul_gives(dt, delta[d], a[d][n], u) && exp_gives(dt, u, q);
        let v = choose|v: u64| #[trigger]
            mul_gives(dt, delta[d], b[n], v) && mul_gives(dt, v, x[d], s);
        let p = choose|p: u64| #[trigger]
            mul_gives(dt, q, h0[d][n], p) && add_gives(dt, p, s, h);
        let all = (u, q, v, s, p);
        assert(mul_gives(dt, all.2, x[d], all.3) && mul_gives(dt, all.1, h0[d][n], all.4));
    }
    assert forall|d: int| #![trigger y[d]] 0 <= d < x.len() implies {
        &&& dot_gives(dt, h1[d], c, r.read[d])
        &&& mul_gives(dt, x[d], skip[d], r.skipped[d])
        &&& add_gives(dt, r.read[d], r.skipped[d], y[d])
    } by {
        let o = y[d];
        assert(reads_out(dt, h1[d], c, x[d], skip[d], o));
        let s = choose|s: u64| #[trigger]
            dot_gives(dt, h1[d], c, s) && skips(dt, s, x[d], skip[d], o);
        let p = choose|p: u64| #[trigger] mul_gives(dt, x[d], skip[d], p) && add_gives(dt, s, p, o);
        let all = (s, p);
        assert(add_gives(dt, all.0, all.1, y[d]));
    }
    r
}

/// A scan goes through the positions from first to last. Every position takes its own step sizes,
/// inputs and projections and the state that the position before it has left, and the state that the
/// last position leaves is the one that is given back.
pub proof fn law_scan(
    dt: DType,
    a: Matrix,
    skip: Seq<u64>,
    delta: Matrix,
    b: Matrix,
    c: Matrix,
    x: Matrix,
    h0: Matrix,
    h: Matrix,
    y: Matrix,
) -> (hs: Seq<Matrix>)
    requires
        ssm_scan(dt, a, skip, delta, b, c, x, h0, h, y),
    ensures
        y.len() == x.len(),
        hs.len() == x.len() + 1,
        hs[0] == h0,
        hs[x.len() as int] == h,
        forall|t: int|
            #![trigger y[t]]
            0 <= t < x.len() ==> ssm_step(
                dt,
                a,
                skip,
                delta[t],
                b[t],
                c[t],
                x[t],
                hs[t],
                hs[t + 1],
                y[t],
            ),
{
    choose|hs: Seq<Matrix>|
        {
            &&& #[trigger] ssm_trace(dt, a, skip, delta, b, c, x, hs, y)
            &&& hs.first() == h0
            &&& hs.last() == h
        }
}

/// Every output of the state space model is multiplied by the activation of its own gate, whatever
/// the sizes of the block, and the products are projected: `r.0` are the activations, `r.1` the
/// products.
pub proof fn law_gating(m: Mixer, dt: DType, y: Seq<u64>, gate: Seq<u64>, out: Seq<u64>) -> (r: (
    Seq<u64>,
    Seq<u64>,
))
    requires
        closes(m, dt, y, gate, out),
    ensures
        r.1.len() == y.len(),
        forall|c: int|
            #![trigger r.1[c]]
            0 <= c < y.len() ==> silu_gives(dt, gate[c], r.0[c]) && mul_gives(
                dt,
                y[c],
                r.0[c],
                r.1[c],
            ),
        out.len() == m.out_proj.len(),
        forall|o: int|
            0 <= o < m.out_proj.len() ==> dot_gives(dt, r.1, m.out_proj[o], #[trigger] out[o]),
{
    let g = choose|g: Seq<u64>|
        {
            &&& #[trigger] projects(dt, m.out_proj, None, g, out)
            &&& g.len() == y.len()
            &&& forall|c: int| 0 <= c < y.len() ==> gates(dt, y[c], gate[c], #[trigger] g[c])
        };
    let acts = Seq::new(
        y.len(),
        |c: int| choose|s: u64| #[trigger] silu_gives(dt, gate[c], s) && mul_gives(dt, y[c], s, g[c]),
    );
    assert forall|c: int| #![trigger g[c]] 0 <= c < y.len() implies silu_gives(
        dt,
        gate[c],
        acts[c],
    ) && mul_gives(dt, y[c], acts[c], g[c]) by {
        assert(gates(dt, y[c], gate[c], g[c]));
    }
    law_projection(dt, m.out_proj, g, out);
    (acts, g)
}

/// What a block does with a token: the inputs and gates of its channels come from the token, the
/// convolutions take the inputs, the selection takes what they pass on, the state space model takes
/// both, and its outputs are gated and projected.
pub proof fn law_block(m: Mixer, dt: DType, x: Seq<u64>, s0: Memory, s1: Memory, out: Seq<u64>) -> (w:
    Work)
    requires
        mixes(m, dt, x, s0, s1, out),
    ensures
        splits(m, dt, x, w.inputs, w.gate),
        convolves(m, dt, s0.taps, w.inputs, s1.taps, w.x),
        selects(m, dt, w.x, w.delta, w.b, w.c),
        prepares(m, dt, w.a, w.skip),
        ssm_step(dt, w.a, w.skip, w.delta, w.b, w.c, w.x, s0.h, s1.h, w.y),
        closes(m, dt, w.y, w.gate, out),
{
    choose|w: Work| #[trigger] mixes_by(m, dt, x, s0, s1, out, w)
}

/// What a layer does with a token: the block is given the token divided by its root mean square and
/// times the factors of the layer, and each number of what the block makes of it is added to the
/// number of the token at its place, whatever the width of the token.
pub proof fn law_layer(l: Layer, dt: DType, x: Seq<u64>, s0: Memory, s1: Memory, out: Seq<u64>) -> (r: (
    Seq<u64>,
    Seq<u64>,
))
    requires
        l.mixer.out_proj.len() == x.len(),
        transforms(l, dt, x, s0, s1, out),
    ensures
        rms_gives(dt, x, l.norm, "1e-5"@, r.0),
        mixes(l.mixer, dt, r.0, s0, s1, r.1),
        r.1.len() == x.len(),
        out.len() == x.len(),
        forall|k: int| 0 <= k < x.len() ==> add_gives(dt, r.1[k], x[k], #[trigger] out[k]),
{
    let (n, y) = choose|n: Seq<u64>, y: Seq<u64>|
        {
            &&& #[trigger] rms_gives(dt, x, l.norm, "1e-5"@, n)
            &&& #[trigger] mixes(l.mixer, dt, n, s0, s1, y)
            &&& adds(dt, y, x, out)
        };
    let w = law_block(l.mixer, dt, n, s0, s1, y);
    let g = law_gating(l.mixer, dt, w.y, w.gate, y);
    (n, y)
}

/// The tokens of a sequence are taken from first to last, each with the memory that the one before
/// it has left.
pub proof fn law_run(step: Step, xs: Matrix, s0: Memory, s: Memory, outs: Matrix) -> (ms: Seq<
    Memory,
>)
    requires
        runs(step, xs, s0, s, outs),
    ensures
        outs.len() == xs.len(),
        ms.len() == xs.len() + 1,
        ms[0] == s0,
        ms[xs.len() as int] == s,
        forall|t: int|
            #![trigger outs[t]]
            0 <= t < xs.len() ==> step(xs[t], ms[t], ms[t + 1], outs[t]),
{
    choose|ms: Seq<Memory>|
        #[trigger] traces(step, xs, ms, outs) && ms.first() == s0 && ms.last() == s
}

/// The steps of a block and of a layer are what they do with a token.
pub proof fn law_steps(l: Layer, dt: DType, x: Seq<u64>, s0: Memory, s1: Memory, out: Seq<u64>)
    ensures
        mixer_step(l.mixer, dt)(x, s0, s1, out) <==> mixes(l.mixer, dt, x, s0, s1, out),
        layer_step(l, dt)(x, s0, s1, out) <==> transforms(l, dt, x, s0, s1, out),
{
}

/// A token goes through all layers in their order, the first one first; each layer gets what the one
/// before it has made of the token, and uses its own memory.
pub proof fn law_descent(
    layers: Seq<Layer>,
    dt: DType,
    x: Seq<u64>,
    s0: Seq<Memory>,
    s1: Seq<Memory>,
    out: Seq<u64>,
) -> (vs: Matrix)
    requires
        descends(layers, dt, x, s0, s1, out),
    ensures
        s0.len() == layers.len(),
        s1.len() == layers.len(),
        vs.len() == layers.len() + 1,
        vs[0] == x,
        vs[layers.len() as int] == out,
        forall|k: int|
            #![trigger s1[k]]
            #![trigger layers[k]]
            0 <= k < layers.len() ==> transforms(layers[k], dt, vs[k], s0[k], s1[k], vs[k + 1]),
{
    let vs = choose|vs: Matrix|
        #[trigger] descent(layers, dt, vs, s0, s1) && vs.first() == x && vs.last()
            == out;
    assert forall|k: int|
        #![trigger s1[k]]
        #![trigger layers[k]]
        0 <= k < layers.len() implies transforms(
        layers[k],
        dt,
        vs[k],
        s0[k],
        s1[k],
        vs[k + 1],
    ) by {
        let s = s1[k];
    }
    vs
}

/// A token that only leads somewhere goes through the layers in the same way.
pub proof fn law_lead(
    layers: Seq<Layer>,
    dt: DType,
    x: Seq<u64>,
    s0: Seq<Memory>,
    s1: Seq<Memory>,
) -> (out: Seq<u64>)
    requires
        leads(layers, dt, x, s0, s1),
    ensures
        descends(layers, dt, x, s0, s1, out),
{
    choose|out: Seq<u64>| #[trigger] descends(layers, dt, x, s0, s1, out)
}

/// A sequence goes through all layers in their order, the first one first; each layer gets what the
/// one before it has made of the sequence, and uses its own memory.
pub proof fn law_cascade(
    layers: Seq<Layer>,
    dt: DType,
    xs: Matrix,
    s0: Seq<Memory>,
    s1: Seq<Memory>,
    outs: Matrix,
) -> (zs: Seq<Matrix>)
    requires
        cascades(layers, dt, xs, s0, s1, outs),
    ensures
        s0.len() == layers.len(),
        s1.len() == layers.len(),
        zs.len() == layers.len() + 1,
        zs[0] == xs,
        zs[layers.len() as int] == outs,
        forall|k: int|
            #![trigger s1[k]]
            #![trigger layers[k]]
            0 <= k < layers.len() ==> runs(
                layer_step(layers[k], dt),
                zs[k],
                s0[k],
                s1[k],
                zs[k + 1],
            ),
{
    let zs = choose|zs: Seq<Matrix>|
        #[trigger] cascade(layers, dt, zs, s0, s1) && zs.first() == xs && zs.last()
            == outs;
    assert forall|k: int|
        #![trigger s1[k]]
        #![trigger layers[k]]
        0 <= k < layers.len() implies runs(
        layer_step(layers[k], dt),
        zs[k],
        s0[k],
        s1[k],
        zs[k + 1],
    ) by {
        let s = s1[k];
    }
    zs
}

/// Token by token, every token goes through all layers before the next one does, and the layers keep
/// what they remember in between.
pub proof fn law_walk(
    layers: Seq<Layer>,
    dt: DType,
    xs: Matrix,
    s0: Seq<Memory>,
    s1: Seq<Memory>,
    outs: Matrix,
) -> (mems: Seq<Seq<Memory>>)
    requires
        walks(layers, dt, xs, s0, s1, outs),
    ensures
        outs.len() == xs.len(),
        mems.len() == xs.len() + 1,
        mems[0] == s0,
        mems[xs.len() as int] == s1,
        forall|t: int|
            #![trigger outs[t]]
            0 <= t < xs.len() ==> descends(layers, dt, xs[t], mems[t], mems[t + 1], outs[t]),
{
    choose|mems: Seq<Seq<Memory>>|
        #[trigger] walk(layers, dt, xs, mems, outs) && mems.first() == s0
            && mems.last() == s1
}

/// The logits of a token are inner products of the rows of the table and the token divided by its
/// root mean square and times the factors of the last normalisation, whatever layers there are.
pub proof fn law_head(net: Net, dt: DType, x: Seq<u64>, logits: Seq<u64>) -> (n: Seq<u64>)
    requires
        heads(net, dt, x, logits),
    ensures
        rms_gives(dt, x, net.norm, "1e-5"@, n),
        logits.len() == net.table.len(),
        forall|v: int|
            0 <= v < net.table.len() ==> dot_gives(dt, n, net.table[v], #[trigger] logits[v]),
{
    let n = choose|n: Seq<u64>|
        {
            &&& #[trigger] rms_gives(dt, x, net.norm, "1e-5"@, n)
            &&& projects(dt, net.table, None, n, logits)
        };
    law_projection(dt, net.table, n, logits);
    n
}

/// The embedding of a token is its row of the table. The largest number of the type of the
/// identifiers stands for no token, which has zeros.
pub proof fn law_embedding(net: Net, kind: DType, id: u64)
    requires
        kind is U8 || kind is U32 || kind is I64,
        id <= usize::MAX,
    ensures
        ({
            let none: u64 = if kind is U8 {
                0xff
            } else if kind is U32 {
                0xffff_ffff
            } else {
                0x7fff_ffff_ffff_ffff
            };
            &&& id != none ==> embedded(net, kind, id) == net.table[id as int]
            &&& id == none ==> embedded(net, kind, id).len() == net.width && forall|j: int|
                0 <= j < net.width ==> #[trigger] embedded(net, kind, id)[j] == 0
        }),
{
    vstd::arithmetic::div_mod::lemma_small_mod(id as nat, (usize::MAX + 1) as nat);
}

/// A prompt goes through the layers as the embeddings of its tokens in their order, from layers that
/// remember nothing, and the logits are those of its last token.
pub proof fn law_prefill(
    net: Net,
    dt: DType,
    kind: DType,
    ids: Seq<u64>,
    mem: Seq<Memory>,
    logits: Seq<u64>,
) -> (r: (Matrix, Seq<Memory>, Matrix))
    requires
        prefills(net, dt, kind, ids, mem, logits),
    ensures
        ids.len() > 0,
        r.0.len() == ids.len(),
        forall|t: int| 0 <= t < ids.len() ==> #[trigger] r.0[t] == embedded(net, kind, ids[t]),
        r.1.len() == net.layers.len(),
        forall|k: int|
            0 <= k < net.layers.len() ==> (#[trigger] r.1[k]).taps.len() == net.inner && r.1[k].h.len()
                == net.inner,
        forall|k: int, c: int, j: int|
            0 <= k < net.layers.len() && 0 <= c < net.inner && 0 <= j < 4 ==> #[trigger]
                r.1[k].taps[c][j] == 0,
        forall|k: int, c: int, j: int|
            0 <= k < net.layers.len() && 0 <= c < net.inner && 0 <= j < 16 ==> #[trigger]
                r.1[k].h[c][j] == 0,
        cascades(net.layers, dt, r.0, r.1, mem, r.2),
        r.2.len() == ids.len(),
        heads(net, dt, r.2[ids.len() - 1], logits),
{
    let xs = embeddings(net, kind, ids);
    let outs = choose|outs: Matrix|
        {
            &&& #[trigger] cascades(net.layers, dt, xs, blanks(net), mem, outs)
            &&& heads(net, dt, outs.last(), logits)
        };
    lemma_cascade_keeps_length(net.layers, dt, xs, blanks(net), mem, outs);
    (xs, blanks(net), outs)
}

/// All prompts of a batch are as long after the layers as before them.
proof fn lemma_cascade_keeps_length(
    layers: Seq<Layer>,
    dt: DType,
    xs: Matrix,
    s0: Seq<Memory>,
    s1: Seq<Memory>,
    outs: Matrix,
)
    requires
        cascades(layers, dt, xs, s0, s1, outs),
    ensures
        outs.len() == xs.len(),
{
    let zs = law_cascade(layers, dt, xs, s0, s1, outs);
    lemma_zs_keep_length(layers, dt, zs, s0, s1, layers.len() as int);
}

proof fn lemma_zs_keep_length(
    layers: Seq<Layer>,
    dt: DType,
    zs: Seq<Matrix>,
    s0: Seq<Memory>,
    s1: Seq<Memory>,
    n: int,
)
    requires
        0 <= n <= layers.len(),
        forall|k: int|
            #![trigger layers[k]]
            0 <= k < layers.len() ==> runs(
                layer_step(layers[k], dt),
                zs[k],
                s0[k],
                s1[k],
                zs[k + 1],
            ),
    ensures
        zs[n].len() == zs[0].len(),
    decreases n,
{
    if n > 0 {
        lemma_zs_keep_length(layers, dt, zs, s0, s1, n - 1);
        let l = layers[n - 1];
        let ms = law_run(layer_step(l, dt), zs[n - 1], s0[n - 1], s1[n - 1], zs[n]);
    }
}

/// A token that is generated goes through the layers as its embedding, from what they remember to
/// what they then remember, and the logits are those of that token.
pub proof fn law_generate(
    net: Net,
    dt: DType,
    kind: DType,
    id: u64,
    s0: Seq<Memory>,
    s1: Seq<Memory>,
    logits: Seq<u64>,
) -> (out: Seq<u64>)
    requires
        generates(net, dt, kind, id, s0, s1, logits),
    ensures
        descends(net.layers, dt, embedded(net, kind, id), s0, s1, out),
        heads(net, dt, out, logits),
{
    choose|out: Seq<u64>|
        {
            &&& #[trigger] descends(net.layers, dt, embedded(net, kind, id), s0, s1, out)
            &&& heads(net, dt, out, logits)
        }
}

/// A prompt of which all logits are asked for goes through the layers as the embeddings of its
/// tokens in their order, from layers that remember nothing, and every token has its own logits.
pub proof fn law_complete(
    net: Net,
    dt: DType,
    kind: DType,
    ids: Seq<u64>,
    logits: Matrix,
) -> (r: (Matrix, Seq<Memory>, Seq<Memory>, Matrix))
    requires
        completes(net, dt, kind, ids, logits),
    ensures
        r.0.len() == ids.len(),
        forall|t: int| 0 <= t < ids.len() ==> #[trigger] r.0[t] == embedded(net, kind, ids[t]),
        r.1.len() == net.layers.len(),
        forall|k: int|
            0 <= k < net.layers.len() ==> (#[trigger] r.1[k]).taps.len() == net.inner && r.1[k].h.len()
                == net.inner,
        forall|k: int, c: int, j: int|
            0 <= k < net.layers.len() && 0 <= c < net.inner && 0 <= j < 4 ==> #[trigger]
                r.1[k].taps[c][j] == 0,
        forall|k: int, c: int, j: int|
            0 <= k < net.layers.len() && 0 <= c < net.inner && 0 <= j < 16 ==> #[trigger]
                r.1[k].h[c][j] == 0,
        cascades(net.layers, dt, r.0, r.1, r.2, r.3),
        r.3.len() == ids.len(),
        logits.len() == ids.len(),
        forall|t: int| 0 <= t < ids.len() ==> heads(net, dt, r.3[t], #[trigger] logits[t]),
{
    let xs = embeddings(net, kind, ids);
    let (mem, outs) = choose|mem: Seq<Memory>, outs: Matrix|
        {
            &&& #[trigger] cascades(net.layers, dt, xs, blanks(net), mem, outs)
            &&& logits.len() == ids.len()
            &&& outs.len() == ids.len()
            &&& forall|t: int|
                0 <= t < ids.len() ==> heads(net, dt, outs[t], #[trigger] logits[t])
        };
    (xs, blanks(net), mem, outs)
}

} // verus!
