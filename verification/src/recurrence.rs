//! What a Mamba block computes, as relations between sequences of numbers.
//!
//! Every function here speaks of one item of the batch.
use crate::config::{D_CONV, D_STATE};
use crate::layers::{conv_gives, linear_gives, rms_gives, NORM_EPS};
use crate::tensor::{
    add_gives, affine_gives, cast_gives, dot_gives, exp_gives, log_gives, mul_gives, negated,
    silu_gives, sum_gives,
};
use candle_core::DType;
use vstd::prelude::*;

verus! {

/// A number for each column, by rows.
pub type Matrix = Seq<Seq<u64>>;

/// `m` has `rows` rows of `columns` numbers each.
pub open spec fn is_matrix(m: Matrix, rows: nat, columns: nat) -> bool {
    &&& m.len() == rows
    &&& forall|i: int| 0 <= i < rows ==> (#[trigger] m[i]).len() == columns
}

/// The matrix of zeros.
pub open spec fn zeros(rows: nat, columns: nat) -> Matrix {
    Seq::new(rows, |i: int| Seq::new(columns, |j: int| 0u64))
}

/// `y` is `x`, converted from the type `from` to the type `to` where they differ.
pub open spec fn converts(from: DType, to: DType, x: u64, y: u64) -> bool {
    if from == to {
        x == y
    } else {
        cast_gives(from, to, x, y)
    }
}

/// `q` is a factor by which the state decays over a step: `exp(delta * a)`.
pub open spec fn decays(dt: DType, delta: u64, a: u64, q: u64) -> bool {
    exists|p: u64| #[trigger] mul_gives(dt, delta, a, p) && exp_gives(dt, p, q)
}

/// `s` is an input to the state over a step: `delta * b * x`.
pub open spec fn drives(dt: DType, delta: u64, b: u64, x: u64, s: u64) -> bool {
    exists|r: u64| #[trigger] mul_gives(dt, delta, b, r) && mul_gives(dt, r, x, s)
}

/// `h1` is `q * h0 + s`.
pub open spec fn follows(dt: DType, q: u64, h0: u64, s: u64, h1: u64) -> bool {
    exists|p: u64| #[trigger] mul_gives(dt, q, h0, p) && add_gives(dt, p, s, h1)
}

/// `h1` follows the state `h0`: `exp(delta * a) * h0 + delta * b * x`.
pub open spec fn advances(
    dt: DType,
    delta: u64,
    a: u64,
    b: u64,
    x: u64,
    h0: u64,
    h1: u64,
) -> bool {
    exists|q: u64, s: u64|
        {
            &&& #[trigger] decays(dt, delta, a, q)
            &&& #[trigger] drives(dt, delta, b, x, s)
            &&& follows(dt, q, h0, s, h1)
        }
}

/// `y` is `s + x * d`.
pub open spec fn skips(dt: DType, s: u64, x: u64, d: u64, y: u64) -> bool {
    exists|p: u64| #[trigger] mul_gives(dt, x, d, p) && add_gives(dt, s, p, y)
}

/// `y` is read out of the state `h`: `c * h + d * x`.
pub open spec fn reads_out(
    dt: DType,
    h: Seq<u64>,
    c: Seq<u64>,
    x: u64,
    d: u64,
    y: u64,
) -> bool {
    exists|s: u64| #[trigger] dot_gives(dt, h, c, s) && skips(dt, s, x, d, y)
}

/// One step of the state space model: the state `h0` and the input `x` give the state `h1` and the
/// output `y`. The step sizes are `delta`; `a` and `skip` belong to the model; `b` and `c` say how
/// the input enters the state and how the output is read from it.
pub open spec fn ssm_step(
    dt: DType,
    a: Matrix,
    skip: Seq<u64>,
    delta: Seq<u64>,
    b: Seq<u64>,
    c: Seq<u64>,
    x: Seq<u64>,
    h0: Matrix,
    h1: Matrix,
    y: Seq<u64>,
) -> bool {
    &&& is_matrix(h1, x.len(), b.len())
    &&& forall|d: int, n: int|
        0 <= d < x.len() && 0 <= n < b.len() ==> advances(
            dt,
            delta[d],
            a[d][n],
            b[n],
            x[d],
            h0[d][n],
            #[trigger] h1[d][n],
        )
    &&& y.len() == x.len()
    &&& forall|d: int|
        0 <= d < x.len() ==> reads_out(dt, h1[d], c, x[d], skip[d], #[trigger] y[d])
}

/// `hs` are the states that the state space model goes through over a sequence, the first one
/// before its first step.
pub open spec fn ssm_trace(
    dt: DType,
    a: Matrix,
    skip: Seq<u64>,
    delta: Matrix,
    b: Matrix,
    c: Matrix,
    x: Matrix,
    hs: Seq<Matrix>,
    y: Matrix,
) -> bool {
    &&& hs.len() == x.len() + 1
    &&& y.len() == x.len()
    &&& forall|t: int|
        #![trigger y[t]]
        0 <= t < x.len() ==> ssm_step(
            dt,
            a,
            skip,
            delta[t],
            b[t],
            c[t],
            x[t],
            hs[t],
            hs[t + 1],
            y[t],
        )
}

/// From the state `h0` the state space model comes to `h` over a sequence, with the outputs `y`.
pub open spec fn ssm_scan(
    dt: DType,
    a: Matrix,
    skip: Seq<u64>,
    delta: Matrix,
    b: Matrix,
    c: Matrix,
    x: Matrix,
    h0: Matrix,
    h: Matrix,
    y: Matrix,
) -> bool {
    exists|hs: Seq<Matrix>|
        {
            &&& #[trigger] ssm_trace(dt, a, skip, delta, b, c, x, hs, y)
            &&& hs.first() == h0
            &&& hs.last() == h
        }
}

/// `y` holds the inner products of `x` with the rows of `m`, plus `bias` where there is one.
pub open spec fn projects(
    dt: DType,
    m: Matrix,
    bias: Option<Seq<u64>>,
    x: Seq<u64>,
    y: Seq<u64>,
) -> bool {
    &&& y.len() == m.len()
    &&& forall|o: int|
        0 <= o < m.len() ==> linear_gives(
            dt,
            x,
            m[o],
            match bias {
                None => None,
                Some(b) => Some(b[o]),
            },
            #[trigger] y[o],
        )
}

/// `p` holds the products of the numbers of `xs` and `ys`.
pub open spec fn multiplies(dt: DType, xs: Seq<u64>, ys: Seq<u64>, p: Seq<u64>) -> bool {
    &&& p.len() == xs.len()
    &&& forall|k: int| 0 <= k < xs.len() ==> mul_gives(dt, xs[k], ys[k], #[trigger] p[k])
}

/// `s` is the sum of the numbers of `window`, each times its number of `kernel`: computed as a
/// convolution, or as a sum of products.
pub open spec fn weighs(dt: DType, window: Seq<u64>, kernel: Seq<u64>, s: u64) -> bool {
    ||| conv_gives(dt, window, kernel, s)
    ||| exists|p: Seq<u64>| #[trigger] multiplies(dt, window, kernel, p) && sum_gives(dt, p, s)
}

/// `x` is what the convolution of a channel passes on: the weighted sum of `window`, plus `bias`,
/// through the activation.
pub open spec fn filters(
    dt: DType,
    window: Seq<u64>,
    kernel: Seq<u64>,
    bias: u64,
    x: u64,
) -> bool {
    exists|s: u64, c: u64|
        {
            &&& #[trigger] weighs(dt, window, kernel, s)
            &&& #[trigger] add_gives(dt, s, bias, c)
            &&& silu_gives(dt, c, x)
        }
}

/// `y` is `log(exp(x) + 1)`.
pub open spec fn softplus(dt: DType, x: u64, y: u64) -> bool {
    exists|e: u64, f: u64|
        {
            &&& #[trigger] exp_gives(dt, x, e)
            &&& #[trigger] affine_gives(dt, 1, 1, e, f)
            &&& log_gives(dt, f, y)
        }
}

/// `a` is `-exp(l)`, where `l` is of the type `from`.
pub open spec fn rates(from: DType, dt: DType, l: u64, a: u64) -> bool {
    exists|c: u64, e: u64|
        {
            &&& #[trigger] converts(from, dt, l, c)
            &&& #[trigger] exp_gives(dt, c, e)
            &&& a == negated(dt, e)
        }
}

/// `g` is `y` times the activation of `r`.
pub open spec fn gates(dt: DType, y: u64, r: u64, g: u64) -> bool {
    exists|s: u64| #[trigger] silu_gives(dt, r, s) && mul_gives(dt, y, s, g)
}

/// What a block remembers of the tokens that it has seen.
#[verifier::ext_equal]
pub struct Memory {
    /// For each channel, the last inputs of its convolution, the latest at the end.
    pub taps: Matrix,
    /// For each channel, the state of the state space model.
    pub h: Matrix,
}

/// What a block of `inner` channels remembers before the first token.
pub open spec fn blank(inner: nat) -> Memory {
    Memory { taps: zeros(inner, D_CONV as nat), h: zeros(inner, D_STATE as nat) }
}

/// The numbers that a block is made of.
pub struct Mixer {
    /// Of a token, the inputs of the channels and then their gates.
    pub in_proj: Matrix,
    /// For each channel, its convolution kernel.
    pub kernel: Matrix,
    /// For each channel, what is added to its convolution.
    pub conv_bias: Seq<u64>,
    /// Of the channels, what the step sizes are made from, and then how the input enters the state
    /// and how the output is read from it.
    pub x_proj: Matrix,
    /// The number of numbers that the step sizes are made from.
    pub rank: nat,
    /// Of those numbers, the step sizes.
    pub dt_weight: Matrix,
    /// For each channel, what is added to its step size.
    pub dt_bias: Seq<u64>,
    /// Logarithms of the rates at which the states decay.
    pub a_log: Matrix,
    /// The type of `a_log`.
    pub a_type: DType,
    /// For each channel, how its input is added to its output.
    pub d: Seq<u64>,
    /// The type of `d`.
    pub d_type: DType,
    /// Of the channels, the output of the block.
    pub out_proj: Matrix,
}

/// What a block works out on its way through one token.
pub struct Work {
    /// The inputs of the channels.
    pub inputs: Seq<u64>,
    /// The gates of the channels.
    pub gate: Seq<u64>,
    /// What the convolutions pass on.
    pub x: Seq<u64>,
    /// The step sizes.
    pub delta: Seq<u64>,
    /// How the inputs enter the states.
    pub b: Seq<u64>,
    /// How the outputs are read from the states.
    pub c: Seq<u64>,
    /// The rates at which the states decay.
    pub a: Matrix,
    /// How the inputs of the channels are added to their outputs.
    pub skip: Seq<u64>,
    /// The outputs of the state space model.
    pub y: Seq<u64>,
}

/// The taps `t1` follow `t0`: for each channel the oldest input is dropped and the new one put at
/// the end.
pub open spec fn shifts(t0: Matrix, inputs: Seq<u64>, t1: Matrix) -> bool {
    &&& t1.len() == inputs.len()
    &&& forall|c: int|
        0 <= c < inputs.len() ==> #[trigger] t1[c] == t0[c].drop_first().push(inputs[c])
}

/// The rates and the skip connection that a block computes with.
pub open spec fn prepares(m: Mixer, dt: DType, a: Matrix, skip: Seq<u64>) -> bool {
    let inner = m.conv_bias.len();
    &&& is_matrix(a, inner, D_STATE as nat)
    &&& forall|c: int, n: int|
        0 <= c < inner && 0 <= n < D_STATE ==> rates(
            m.a_type,
            dt,
            m.a_log[c][n],
            #[trigger] a[c][n],
        )
    &&& skip.len() == inner
    &&& forall|c: int| 0 <= c < inner ==> converts(m.d_type, dt, m.d[c], #[trigger] skip[c])
}

/// The token `x` gives the channels the inputs `inputs` and the gates `gate`.
pub open spec fn splits(
    m: Mixer,
    dt: DType,
    x: Seq<u64>,
    inputs: Seq<u64>,
    gate: Seq<u64>,
) -> bool {
    let inner = m.conv_bias.len() as int;
    exists|p: Seq<u64>|
        {
            &&& #[trigger] projects(dt, m.in_proj, None, x, p)
            &&& inputs == p.subrange(0, inner)
            &&& gate == p.subrange(inner, 2 * inner)
        }
}

/// The convolutions take the inputs `inputs` of the channels from the taps `t0` to the taps `t1`
/// and pass on `x`.
pub open spec fn convolves(
    m: Mixer,
    dt: DType,
    t0: Matrix,
    inputs: Seq<u64>,
    t1: Matrix,
    x: Seq<u64>,
) -> bool {
    &&& shifts(t0, inputs, t1)
    &&& x.len() == inputs.len()
    &&& forall|c: int|
        0 <= c < inputs.len() ==> filters(
            dt,
            t1[c],
            m.kernel[c],
            m.conv_bias[c],
            #[trigger] x[c],
        )
}

/// What the channels `x` select: the step sizes `delta`, how the inputs enter the states, `b`, and
/// how the outputs are read from them, `c`.
pub open spec fn selects(
    m: Mixer,
    dt: DType,
    x: Seq<u64>,
    delta: Seq<u64>,
    b: Seq<u64>,
    c: Seq<u64>,
) -> bool {
    let rank = m.rank as int;
    exists|dbl: Seq<u64>, raw: Seq<u64>|
        {
            &&& #[trigger] projects(dt, m.x_proj, None, x, dbl)
            &&& #[trigger] projects(
                dt,
                m.dt_weight,
                Some(m.dt_bias),
                dbl.subrange(0, rank),
                raw,
            )
            &&& delta.len() == raw.len()
            &&& forall|k: int| 0 <= k < delta.len() ==> softplus(dt, raw[k], #[trigger] delta[k])
            &&& b == dbl.subrange(rank, rank + D_STATE)
            &&& c == dbl.subrange(rank + D_STATE, rank + 2 * D_STATE)
        }
}

/// The outputs `y` of the channels, gated by `r`, give the output `out` of the block.
pub open spec fn closes(m: Mixer, dt: DType, y: Seq<u64>, r: Seq<u64>, out: Seq<u64>) -> bool {
    exists|g: Seq<u64>|
        {
            &&& #[trigger] projects(dt, m.out_proj, None, g, out)
            &&& g.len() == y.len()
            &&& forall|c: int| 0 <= c < y.len() ==> gates(dt, y[c], r[c], #[trigger] g[c])
        }
}

/// A block takes the token `x` from the memory `s0` to the memory `s1` and the output `out`, by way
/// of `w`.
pub open spec fn mixes_by(
    m: Mixer,
    dt: DType,
    x: Seq<u64>,
    s0: Memory,
    s1: Memory,
    out: Seq<u64>,
    w: Work,
) -> bool {
    &&& splits(m, dt, x, w.inputs, w.gate)
    &&& convolves(m, dt, s0.taps, w.inputs, s1.taps, w.x)
    &&& selects(m, dt, w.x, w.delta, w.b, w.c)
    &&& prepares(m, dt, w.a, w.skip)
    &&& ssm_step(dt, w.a, w.skip, w.delta, w.b, w.c, w.x, s0.h, s1.h, w.y)
    &&& closes(m, dt, w.y, w.gate, out)
}

/// A block takes the token `x` from the memory `s0` to the memory `s1` and the output `out`.
pub open spec fn mixes(
    m: Mixer,
    dt: DType,
    x: Seq<u64>,
    s0: Memory,
    s1: Memory,
    out: Seq<u64>,
) -> bool {
    exists|w: Work| #[trigger] mixes_by(m, dt, x, s0, s1, out, w)
}

/// How a layer takes a token from one memory to another and to an output.
pub type Step = spec_fn(Seq<u64>, Memory, Memory, Seq<u64>) -> bool;

/// `mixes` as a step.
pub open spec fn mixer_step(m: Mixer, dt: DType) -> Step {
    |x: Seq<u64>, s0: Memory, s1: Memory, out: Seq<u64>| mixes(m, dt, x, s0, s1, out)
}

/// `ms` are the memories that the tokens `xs` lead through, the first one before the first token.
pub open spec fn traces(step: Step, xs: Matrix, ms: Seq<Memory>, outs: Matrix) -> bool {
    &&& ms.len() == xs.len() + 1
    &&& outs.len() == xs.len()
    &&& forall|t: int|
        #![trigger outs[t]]
        0 <= t < xs.len() ==> step(xs[t], ms[t], ms[t + 1], outs[t])
}

/// The tokens `xs`, one after the other, lead from the memory `s0` to the memory `s` with the
/// outputs `outs`.
pub open spec fn runs(step: Step, xs: Matrix, s0: Memory, s: Memory, outs: Matrix) -> bool {
    exists|ms: Seq<Memory>|
        #[trigger] traces(step, xs, ms, outs) && ms.first() == s0 && ms.last() == s
}

/// The numbers that a layer is made of: a block, and the normalisation in front of it.
pub struct Layer {
    /// The factors of the normalisation.
    pub norm: Seq<u64>,
    /// The block.
    pub mixer: Mixer,
}

/// `zs` holds the sums of the numbers of `xs` and `ys`.
pub open spec fn adds(dt: DType, xs: Seq<u64>, ys: Seq<u64>, zs: Seq<u64>) -> bool {
    &&& zs.len() == xs.len()
    &&& forall|k: int| 0 <= k < xs.len() ==> add_gives(dt, xs[k], ys[k], #[trigger] zs[k])
}

/// A layer takes the token `x` from the memory `s0` to the memory `s1` and the output `out`: the
/// block is given the token normalised, and what it makes of it is added to the token.
pub open spec fn transforms(
    l: Layer,
    dt: DType,
    x: Seq<u64>,
    s0: Memory,
    s1: Memory,
    out: Seq<u64>,
) -> bool {
    exists|n: Seq<u64>, y: Seq<u64>|
        {
            &&& #[trigger] rms_gives(dt, x, l.norm, NORM_EPS@, n)
            &&& #[trigger] mixes(l.mixer, dt, n, s0, s1, y)
            &&& adds(dt, y, x, out)
        }
}

/// `transforms` as a step.
pub open spec fn layer_step(l: Layer, dt: DType) -> Step {
    |x: Seq<u64>, s0: Memory, s1: Memory, out: Seq<u64>| transforms(l, dt, x, s0, s1, out)
}

/// The taps that follow from nothing hold the last inputs of each channel, with zeros before the
/// first.
pub proof fn law_taps_hold_last_inputs(taps: Seq<Matrix>, inputs: Matrix, inner: nat, t: int)
    requires
        taps.len() == inputs.len() + 1,
        taps[0] == zeros(inner, D_CONV as nat),
        forall|u: int|
            #![trigger inputs[u]]
            0 <= u < inputs.len() ==> inputs[u].len() == inner && shifts(
                taps[u],
                inputs[u],
                taps[u + 1],
            ),
        0 <= t <= inputs.len(),
    ensures
        is_matrix(taps[t], inner, D_CONV as nat),
        forall|c: int, k: int|
            0 <= c < inner && 0 <= k < D_CONV ==> #[trigger] taps[t][c][k] == if t + k >= D_CONV {
                inputs[t + k - D_CONV][c]
            } else {
                0
            },
    decreases t,
{
    if t > 0 {
        law_taps_hold_last_inputs(taps, inputs, inner, t - 1);
        let (t0, t1) = (taps[t - 1], taps[t]);
        let new = inputs[t - 1];
        assert(shifts(t0, new, t1));
        assert forall|c: int| 0 <= c < inner implies (#[trigger] t1[c]).len() == D_CONV by {
            assert(t0[c].len() == D_CONV);
        }
        assert forall|c: int, k: int| 0 <= c < inner && 0 <= k < D_CONV implies #[trigger] t1[c][k]
            == if t + k >= D_CONV {
            inputs[t + k - D_CONV][c]
        } else {
            0
        } by {
            assert(t0[c].len() == D_CONV);
            assert(t1[c] == t0[c].drop_first().push(new[c]));
            if k < D_CONV - 1 {
                assert(t1[c][k] == t0[c][k + 1]);
            }
        }
    }
}

} // verus!
