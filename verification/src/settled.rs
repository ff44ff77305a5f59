//! What holds where every operation on numbers gives one result.
//!
//! The contracts of this library say which operation gives each number from which others, and leave
//! open that an operation may give this or that result. The laws here suppose that it does not, as
//! in exact arithmetic. Two calls can then be compared number by number.
use crate::config::D_STATE;
use crate::layers::{linear_gives, rms_gives, NORM_EPS};
use crate::net::{
    blanks, cascade, cascades, completes, descends, descent, embedded, embeddings, generates,
    heads, law_complete_is_prefill_of_prefixes, law_generate_extends_prefill, law_runs_prefix,
    prefills, Net,
};
use crate::recurrence::{
    adds, advances, closes, converts, convolves, filters, gates, layer_step, mixer_step, mixes,
    mixes_by, prepares, projects, rates, reads_out, runs, selects, softplus, splits, ssm_scan,
    ssm_step, ssm_trace, traces, weighs, Layer, Matrix, Memory, Mixer, Step, Work,
};
use crate::tensor::{
    add_gives, affine_gives, cast_gives, dot_gives, exp_gives, log_gives, mul_gives, silu_gives,
};
use candle_core::DType;
use vstd::prelude::*;

verus! {

/// Every operation on numbers of the type `dt` gives one result. A convolution gives the same
/// result whichever way it is computed.
pub open spec fn settled(dt: DType) -> bool {
    &&& forall|x: u64, y: u64, z: u64, w: u64| #[trigger]
        mul_gives(dt, x, y, z) && #[trigger] mul_gives(dt, x, y, w) ==> z == w
    &&& forall|x: u64, y: u64, z: u64, w: u64| #[trigger]
        add_gives(dt, x, y, z) && #[trigger] add_gives(dt, x, y, w) ==> z == w
    &&& forall|x: u64, z: u64, w: u64| #[trigger]
        exp_gives(dt, x, z) && #[trigger] exp_gives(dt, x, w) ==> z == w
    &&& forall|x: u64, z: u64, w: u64| #[trigger]
        log_gives(dt, x, z) && #[trigger] log_gives(dt, x, w) ==> z == w
    &&& forall|x: u64, z: u64, w: u64| #[trigger]
        silu_gives(dt, x, z) && #[trigger] silu_gives(dt, x, w) ==> z == w
    &&& forall|x: u64, z: u64, w: u64| #[trigger]
        affine_gives(dt, 1, 1, x, z) && #[trigger] affine_gives(dt, 1, 1, x, w) ==> z == w
    &&& forall|from: DType, x: u64, z: u64, w: u64| #[trigger]
        cast_gives(from, dt, x, z) && #[trigger] cast_gives(from, dt, x, w) ==> z == w
    &&& forall|xs: Seq<u64>, ys: Seq<u64>, z: u64, w: u64| #[trigger]
        dot_gives(dt, xs, ys, z) && #[trigger] dot_gives(dt, xs, ys, w) ==> z == w
    &&& forall|xs: Seq<u64>, ys: Seq<u64>, z: u64, w: u64| #[trigger]
        weighs(dt, xs, ys, z) && #[trigger] weighs(dt, xs, ys, w) ==> z == w
    &&& forall|xs: Seq<u64>, ys: Seq<u64>, eps: Seq<char>, z: Seq<u64>, w: Seq<u64>| #[trigger]
        rms_gives(dt, xs, ys, eps, z) && #[trigger] rms_gives(dt, xs, ys, eps, w) ==> z == w
}

/// A step from one memory with one token leads to one memory and one output.
pub open spec fn determined(step: Step) -> bool {
    forall|x: Seq<u64>, s: Memory, s1: Memory, o1: Seq<u64>, s2: Memory, o2: Seq<u64>|
        #[trigger] step(x, s, s1, o1) && #[trigger] step(x, s, s2, o2) ==> s1 == s2 && o1 == o2
}

proof fn lemma_advances(
    dt: DType,
    delta: u64,
    a: u64,
    b: u64,
    x: u64,
    h: u64,
    z: u64,
    w: u64,
)
    requires
        settled(dt),
        advances(dt, delta, a, b, x, h, z),
        advances(dt, delta, a, b, x, h, w),
    ensures
        z == w,
{
}

proof fn lemma_reads_out(
    dt: DType,
    h: Seq<u64>,
    c: Seq<u64>,
    x: u64,
    d: u64,
    z: u64,
    w: u64,
)
    requires
        settled(dt),
        reads_out(dt, h, c, x, d, z),
        reads_out(dt, h, c, x, d, w),
    ensures
        z == w,
{
}

/// A step of the state space model leads to one state and one output.
proof fn lemma_ssm_step(
    dt: DType,
    a: Matrix,
    skip: Seq<u64>,
    delta: Seq<u64>,
    b: Seq<u64>,
    c: Seq<u64>,
    x: Seq<u64>,
    h: Matrix,
    h1: Matrix,
    y1: Seq<u64>,
    h2: Matrix,
    y2: Seq<u64>,
)
    requires
        settled(dt),
        ssm_step(dt, a, skip, delta, b, c, x, h, h1, y1),
        ssm_step(dt, a, skip, delta, b, c, x, h, h2, y2),
    ensures
        h1 == h2,
        y1 == y2,
{
    assert forall|d: int, n: int| 0 <= d < x.len() && 0 <= n < b.len() implies #[trigger] h1[d][n]
        == h2[d][n] by {
        let z = h2[d][n];
        lemma_advances(dt, delta[d], a[d][n], b[n], x[d], h[d][n], h1[d][n], z);
    }
    assert forall|d: int| 0 <= d < x.len() implies #[trigger] h1[d] == h2[d] by {
        assert(h1[d].len() == b.len() && h2[d].len() == b.len());
        assert(h1[d] =~= h2[d]);
    }
    assert(h1 =~= h2);
    assert forall|d: int| 0 <= d < x.len() implies #[trigger] y1[d] == y2[d] by {
        let z = y2[d];
        lemma_reads_out(dt, h1[d], c, x[d], skip[d], y1[d], z);
    }
    assert(y1 =~= y2);
}

proof fn lemma_projects(
    dt: DType,
    m: Matrix,
    bias: Option<Seq<u64>>,
    x: Seq<u64>,
    y1: Seq<u64>,
    y2: Seq<u64>,
)
    requires
        settled(dt),
        projects(dt, m, bias, x, y1),
        projects(dt, m, bias, x, y2),
    ensures
        y1 == y2,
{
    assert forall|o: int| 0 <= o < m.len() implies #[trigger] y1[o] == y2[o] by {
        let z = y2[o];
        let b = match bias {
            None => None,
            Some(b) => Some(b[o]),
        };
        assert(linear_gives(dt, x, m[o], b, y1[o]));
        assert(linear_gives(dt, x, m[o], b, z));
    }
    assert(y1 =~= y2);
}

proof fn lemma_filters(
    dt: DType,
    window: Seq<u64>,
    kernel: Seq<u64>,
    bias: u64,
    z: u64,
    w: u64,
)
    requires
        settled(dt),
        filters(dt, window, kernel, bias, z),
        filters(dt, window, kernel, bias, w),
    ensures
        z == w,
{
}

proof fn lemma_softplus(dt: DType, x: u64, z: u64, w: u64)
    requires
        settled(dt),
        softplus(dt, x, z),
        softplus(dt, x, w),
    ensures
        z == w,
{
}

proof fn lemma_rates(from: DType, dt: DType, l: u64, z: u64, w: u64)
    requires
        settled(dt),
        rates(from, dt, l, z),
        rates(from, dt, l, w),
    ensures
        z == w,
{
}

proof fn lemma_gates(dt: DType, y: u64, r: u64, z: u64, w: u64)
    requires
        settled(dt),
        gates(dt, y, r, z),
        gates(dt, y, r, w),
    ensures
        z == w,
{
}

/// What the convolutions pass on and remember is one.
proof fn lemma_convolves(
    m: Mixer,
    dt: DType,
    t0: Matrix,
    inputs: Seq<u64>,
    t1: Matrix,
    x1: Seq<u64>,
    t2: Matrix,
    x2: Seq<u64>,
)
    requires
        settled(dt),
        convolves(m, dt, t0, inputs, t1, x1),
        convolves(m, dt, t0, inputs, t2, x2),
    ensures
        t1 == t2,
        x1 == x2,
{
    assert forall|c: int| 0 <= c < inputs.len() implies #[trigger] t1[c] == t2[c] by {
        let z = t2[c];
    }
    assert(t1 =~= t2);
    assert forall|c: int| 0 <= c < inputs.len() implies #[trigger] x1[c] == x2[c] by {
        let z = x2[c];
        lemma_filters(dt, t1[c], m.kernel[c], m.conv_bias[c], x1[c], z);
    }
    assert(x1 =~= x2);
}

/// What the channels select is one.
proof fn lemma_selects(
    m: Mixer,
    dt: DType,
    x: Seq<u64>,
    d1: Seq<u64>,
    b1: Seq<u64>,
    c1: Seq<u64>,
    d2: Seq<u64>,
    b2: Seq<u64>,
    c2: Seq<u64>,
)
    requires
        settled(dt),
        selects(m, dt, x, d1, b1, c1),
        selects(m, dt, x, d2, b2, c2),
    ensures
        d1 == d2,
        b1 == b2,
        c1 == c2,
{
    let rank = m.rank as int;
    let (p1, r1) = choose|dbl: Seq<u64>, raw: Seq<u64>|
        {
            &&& #[trigger] projects(dt, m.x_proj, None, x, dbl)
            &&& #[trigger] projects(
                dt,
                m.dt_weight,
                Some(m.dt_bias),
                dbl.subrange(0, rank),
                raw,
            )
            &&& d1.len() == raw.len()
            &&& forall|k: int| 0 <= k < d1.len() ==> softplus(dt, raw[k], #[trigger] d1[k])
            &&& b1 == dbl.subrange(rank, rank + D_STATE)
            &&& c1 == dbl.subrange(rank + D_STATE, rank + 2 * D_STATE)
        };
    let (p2, r2) = choose|dbl: Seq<u64>, raw: Seq<u64>|
        {
            &&& #[trigger] projects(dt, m.x_proj, None, x, dbl)
            &&& #[trigger] projects(
                dt,
                m.dt_weight,
                Some(m.dt_bias),
                dbl.subrange(0, rank),
                raw,
            )
            &&& d2.len() == raw.len()
            &&& forall|k: int| 0 <= k < d2.len() ==> softplus(dt, raw[k], #[trigger] d2[k])
            &&& b2 == dbl.subrange(rank, rank + D_STATE)
            &&& c2 == dbl.subrange(rank + D_STATE, rank + 2 * D_STATE)
        };
    lemma_projects(dt, m.x_proj, None, x, p1, p2);
    lemma_projects(dt, m.dt_weight, Some(m.dt_bias), p1.subrange(0, rank), r1, r2);
    assert forall|k: int| 0 <= k < d1.len() implies #[trigger] d1[k] == d2[k] by {
        let z = d2[k];
        lemma_softplus(dt, r1[k], d1[k], z);
    }
    assert(d1 =~= d2);
}

/// What a block prepares is one.
proof fn lemma_prepares(
    m: Mixer,
    dt: DType,
    a1: Matrix,
    s1: Seq<u64>,
    a2: Matrix,
    s2: Seq<u64>,
)
    requires
        settled(dt),
        prepares(m, dt, a1, s1),
        prepares(m, dt, a2, s2),
    ensures
        a1 == a2,
        s1 == s2,
{
    let inner = m.conv_bias.len();
    assert forall|c: int, n: int| 0 <= c < inner && 0 <= n < D_STATE implies #[trigger] a1[c][n]
        == a2[c][n] by {
        let z = a2[c][n];
        lemma_rates(m.a_type, dt, m.a_log[c][n], a1[c][n], z);
    }
    assert forall|c: int| 0 <= c < inner implies #[trigger] a1[c] == a2[c] by {
        assert(a1[c].len() == D_STATE && a2[c].len() == D_STATE);
        assert(a1[c] =~= a2[c]);
    }
    assert(a1 =~= a2);
    assert forall|c: int| 0 <= c < inner implies #[trigger] s1[c] == s2[c] by {
        let z = s2[c];
        assert(converts(m.d_type, dt, m.d[c], s1[c]));
        assert(converts(m.d_type, dt, m.d[c], z));
    }
    assert(s1 =~= s2);
}

/// The output of a block is one.
proof fn lemma_closes(
    m: Mixer,
    dt: DType,
    y: Seq<u64>,
    r: Seq<u64>,
    o1: Seq<u64>,
    o2: Seq<u64>,
)
    requires
        settled(dt),
        closes(m, dt, y, r, o1),
        closes(m, dt, y, r, o2),
    ensures
        o1 == o2,
{
    let g1 = choose|g: Seq<u64>|
        {
            &&& #[trigger] projects(dt, m.out_proj, None, g, o1)
            &&& g.len() == y.len()
            &&& forall|c: int| 0 <= c < y.len() ==> gates(dt, y[c], r[c], #[trigger] g[c])
        };
    let g2 = choose|g: Seq<u64>|
        {
            &&& #[trigger] projects(dt, m.out_proj, None, g, o2)
            &&& g.len() == y.len()
            &&& forall|c: int| 0 <= c < y.len() ==> gates(dt, y[c], r[c], #[trigger] g[c])
        };
    assert forall|c: int| 0 <= c < y.len() implies #[trigger] g1[c] == g2[c] by {
        let z = g2[c];
        lemma_gates(dt, y[c], r[c], g1[c], z);
    }
    assert(g1 =~= g2);
    lemma_projects(dt, m.out_proj, None, g1, o1, o2);
}

/// The token `x` gives the channels one set of inputs and of gates.
proof fn lemma_splits(
    m: Mixer,
    dt: DType,
    x: Seq<u64>,
    i1: Seq<u64>,
    g1: Seq<u64>,
    i2: Seq<u64>,
    g2: Seq<u64>,
)
    requires
        settled(dt),
        splits(m, dt, x, i1, g1),
        splits(m, dt, x, i2, g2),
    ensures
        i1 == i2,
        g1 == g2,
{
    let inner = m.conv_bias.len() as int;
    let p1 = choose|p: Seq<u64>|
        {
            &&& #[trigger] projects(dt, m.in_proj, None, x, p)
            &&& i1 == p.subrange(0, inner)
            &&& g1 == p.subrange(inner, 2 * inner)
        };
    let p2 = choose|p: Seq<u64>|
        {
            &&& #[trigger] projects(dt, m.in_proj, None, x, p)
            &&& i2 == p.subrange(0, inner)
            &&& g2 == p.subrange(inner, 2 * inner)
        };
    lemma_projects(dt, m.in_proj, None, x, p1, p2);
}

/// What a block works out on its way through a token does not depend on the state `h` that it
/// remembers, but for its outputs.
pub proof fn lemma_work(
    m: Mixer,
    dt: DType,
    x: Seq<u64>,
    r0: Memory,
    r1: Memory,
    o1: Seq<u64>,
    v: Work,
    s0: Memory,
    s1: Memory,
    o2: Seq<u64>,
    w: Work,
)
    requires
        settled(dt),
        mixes_by(m, dt, x, r0, r1, o1, v),
        mixes_by(m, dt, x, s0, s1, o2, w),
        r0.taps == s0.taps,
    ensures
        r1.taps == s1.taps,
        v.inputs == w.inputs,
        v.gate == w.gate,
        v.x == w.x,
        v.delta == w.delta,
        v.b == w.b,
        v.c == w.c,
        v.a == w.a,
        v.skip == w.skip,
{
    lemma_splits(m, dt, x, v.inputs, v.gate, w.inputs, w.gate);
    lemma_convolves(m, dt, r0.taps, v.inputs, r1.taps, v.x, s1.taps, w.x);
    lemma_selects(m, dt, v.x, v.delta, v.b, v.c, w.delta, w.b, w.c);
    lemma_prepares(m, dt, v.a, v.skip, w.a, w.skip);
}

/// A block takes a token from one memory to one memory and one output.
pub proof fn law_block_is_determined(m: Mixer, dt: DType)
    requires
        settled(dt),
    ensures
        determined(mixer_step(m, dt)),
{
    let step = mixer_step(m, dt);
    assert forall|x: Seq<u64>, s: Memory, s1: Memory, o1: Seq<u64>, s2: Memory, o2: Seq<u64>|
        #[trigger] step(x, s, s1, o1) && #[trigger] step(x, s, s2, o2) implies s1 == s2 && o1
        == o2 by {
        let v = choose|w: Work| #[trigger] mixes_by(m, dt, x, s, s1, o1, w);
        let w = choose|w: Work| #[trigger] mixes_by(m, dt, x, s, s2, o2, w);
        lemma_work(m, dt, x, s, s1, o1, v, s, s2, o2, w);
        lemma_ssm_step(dt, v.a, v.skip, v.delta, v.b, v.c, v.x, s.h, s1.h, v.y, s2.h, w.y);
        lemma_closes(m, dt, v.y, v.gate, o1, o2);
    }
}

/// A layer takes a token from one memory to one memory and one output.
pub proof fn law_layer_is_determined(l: Layer, dt: DType)
    requires
        settled(dt),
    ensures
        determined(layer_step(l, dt)),
{
    let step = layer_step(l, dt);
    law_block_is_determined(l.mixer, dt);
    let inside = mixer_step(l.mixer, dt);
    assert forall|x: Seq<u64>, s: Memory, s1: Memory, o1: Seq<u64>, s2: Memory, o2: Seq<u64>|
        #[trigger] step(x, s, s1, o1) && #[trigger] step(x, s, s2, o2) implies s1 == s2 && o1
        == o2 by {
        let (n1, y1) = choose|n: Seq<u64>, y: Seq<u64>|
            {
                &&& #[trigger] rms_gives(dt, x, l.norm, NORM_EPS@, n)
                &&& #[trigger] mixes(l.mixer, dt, n, s, s1, y)
                &&& adds(dt, y, x, o1)
            };
        let (n2, y2) = choose|n: Seq<u64>, y: Seq<u64>|
            {
                &&& #[trigger] rms_gives(dt, x, l.norm, NORM_EPS@, n)
                &&& #[trigger] mixes(l.mixer, dt, n, s, s2, y)
                &&& adds(dt, y, x, o2)
            };
        assert(inside(n1, s, s1, y1) && inside(n1, s, s2, y2));
        lemma_adds(dt, y1, x, o1, o2);
    }
}

proof fn lemma_adds(dt: DType, xs: Seq<u64>, ys: Seq<u64>, z: Seq<u64>, w: Seq<u64>)
    requires
        settled(dt),
        adds(dt, xs, ys, z),
        adds(dt, xs, ys, w),
    ensures
        z == w,
{
    assert forall|k: int| 0 <= k < xs.len() implies #[trigger] z[k] == w[k] by {
        let o = w[k];
    }
    assert(z =~= w);
}

/// One token after the other, a sequence leads through one list of memories to one list of outputs.
proof fn lemma_traces(
    step: Step,
    xs: Matrix,
    ms: Seq<Memory>,
    outs: Matrix,
    ns: Seq<Memory>,
    more: Matrix,
    n: int,
)
    requires
        determined(step),
        traces(step, xs, ms, outs),
        traces(step, xs, ns, more),
        ms[0] == ns[0],
        0 <= n <= xs.len(),
    ensures
        ms[n] == ns[n],
        forall|t: int| 0 <= t < n ==> #[trigger] outs[t] == more[t],
    decreases n,
{
    if n > 0 {
        lemma_traces(step, xs, ms, outs, ns, more, n - 1);
        let (o, p) = (outs[n - 1], more[n - 1]);
        assert(step(xs[n - 1], ms[n - 1], ms[n], o));
        assert(step(xs[n - 1], ns[n - 1], ns[n], p));
    }
}

/// A sequence leads from one memory to one memory and one list of outputs.
pub proof fn law_runs_are_determined(
    step: Step,
    xs: Matrix,
    s0: Memory,
    s: Memory,
    outs: Matrix,
    r: Memory,
    more: Matrix,
)
    requires
        determined(step),
        runs(step, xs, s0, s, outs),
        runs(step, xs, s0, r, more),
    ensures
        s == r,
        outs == more,
{
    let ms = choose|ms: Seq<Memory>| #[trigger]
        traces(step, xs, ms, outs) && ms.first() == s0 && ms.last() == s;
    let ns = choose|ms: Seq<Memory>| #[trigger]
        traces(step, xs, ms, more) && ms.first() == s0 && ms.last() == r;
    lemma_traces(step, xs, ms, outs, ns, more, xs.len() as int);
    assert(outs =~= more);
}

/// No output of a sequence depends on later tokens: sequences that begin with the same `n` tokens
/// have the same first `n` outputs. What other sequences are in the batch does not matter either:
/// they do not occur.
pub proof fn law_runs_are_causal(
    step: Step,
    xs: Matrix,
    ys: Matrix,
    s0: Memory,
    s: Memory,
    outs: Matrix,
    r: Memory,
    more: Matrix,
    n: int,
)
    requires
        determined(step),
        runs(step, xs, s0, s, outs),
        runs(step, ys, s0, r, more),
        0 <= n <= xs.len(),
        n <= ys.len(),
        xs.take(n) == ys.take(n),
    ensures
        outs.take(n) == more.take(n),
{
    law_runs_prefix(step, xs, s0, s, outs, n);
    law_runs_prefix(step, ys, s0, r, more, n);
    let p = choose|m: Memory| #[trigger] runs(step, xs.take(n), s0, m, outs.take(n));
    let q = choose|m: Memory| #[trigger] runs(step, ys.take(n), s0, m, more.take(n));
    law_runs_are_determined(step, xs.take(n), s0, p, outs.take(n), q, more.take(n));
}

/// A block is causal.
pub proof fn law_block_is_causal(
    m: Mixer,
    dt: DType,
    xs: Matrix,
    ys: Matrix,
    s0: Memory,
    s: Memory,
    outs: Matrix,
    r: Memory,
    more: Matrix,
    n: int,
)
    requires
        settled(dt),
        runs(mixer_step(m, dt), xs, s0, s, outs),
        runs(mixer_step(m, dt), ys, s0, r, more),
        0 <= n <= xs.len(),
        n <= ys.len(),
        xs.take(n) == ys.take(n),
    ensures
        outs.take(n) == more.take(n),
{
    law_block_is_determined(m, dt);
    law_runs_are_causal(mixer_step(m, dt), xs, ys, s0, s, outs, r, more, n);
}

/// One pass of a block over a sequence gives what its steps give, token by token: if the tokens
/// `xs` lead from `ms[0]` through the memories `ms` to the outputs `each`, then the pass from
/// `ms[0]` leads to the last of the memories and to the same outputs.
pub proof fn law_pass_is_steps(
    m: Mixer,
    dt: DType,
    xs: Matrix,
    s: Memory,
    outs: Matrix,
    ms: Seq<Memory>,
    each: Matrix,
)
    requires
        settled(dt),
        ms.len() == xs.len() + 1,
        each.len() == xs.len(),
        forall|t: int|
            #![trigger each[t]]
            0 <= t < xs.len() ==> mixes(m, dt, xs[t], ms[t], ms[t + 1], each[t]),
        runs(mixer_step(m, dt), xs, ms[0], s, outs),
    ensures
        s == ms.last(),
        outs == each,
{
    law_block_is_determined(m, dt);
    let step = mixer_step(m, dt);
    assert(traces(step, xs, ms, each));
    assert(runs(step, xs, ms[0], ms.last(), each));
    law_runs_are_determined(step, xs, ms[0], s, outs, ms.last(), each);
}

/// A step forgets the oldest input of each convolution: memories that differ in nothing else lead
/// to the same memories and outputs. This holds of every result that a step may give.
pub proof fn law_step_forgets_oldest(
    m: Mixer,
    dt: DType,
    x: Seq<u64>,
    r0: Memory,
    s0: Memory,
    s1: Memory,
    out: Seq<u64>,
)
    requires
        r0.h == s0.h,
        r0.taps.len() == s0.taps.len(),
        forall|c: int|
            0 <= c < s0.taps.len() ==> (#[trigger] r0.taps[c]).drop_first()
                == s0.taps[c].drop_first(),
        m.conv_bias.len() <= s0.taps.len(),
        2 * m.conv_bias.len() <= m.in_proj.len(),
        mixes(m, dt, x, s0, s1, out),
    ensures
        mixes(m, dt, x, r0, s1, out),
{
    let w = choose|w: Work| #[trigger] mixes_by(m, dt, x, s0, s1, out, w);
    assert(w.inputs.len() == m.conv_bias.len());
    assert forall|c: int| 0 <= c < w.inputs.len() implies #[trigger] s1.taps[c]
        == r0.taps[c].drop_first().push(w.inputs[c]) by {
        assert(r0.taps[c].drop_first() == s0.taps[c].drop_first());
    }
    assert(mixes_by(m, dt, x, r0, s1, out, w));
}

/// A step from memories that differ in nothing but the oldest input of each convolution gives the
/// same memory and the same output.
pub proof fn law_step_ignores_oldest(
    m: Mixer,
    dt: DType,
    x: Seq<u64>,
    r0: Memory,
    r1: Memory,
    o1: Seq<u64>,
    s0: Memory,
    s1: Memory,
    o2: Seq<u64>,
)
    requires
        settled(dt),
        r0.h == s0.h,
        r0.taps.len() == s0.taps.len(),
        forall|c: int|
            0 <= c < s0.taps.len() ==> (#[trigger] r0.taps[c]).drop_first()
                == s0.taps[c].drop_first(),
        m.conv_bias.len() <= s0.taps.len(),
        2 * m.conv_bias.len() <= m.in_proj.len(),
        mixes(m, dt, x, r0, r1, o1),
        mixes(m, dt, x, s0, s1, o2),
    ensures
        r1 == s1,
        o1 == o2,
{
    law_step_forgets_oldest(m, dt, x, r0, s0, s1, o2);
    law_block_is_determined(m, dt);
    let step = mixer_step(m, dt);
    assert(step(x, r0, r1, o1) && step(x, r0, s1, o2));
}

/// A layer is its block, given the tokens normalised, with the tokens themselves added: if `ns` are
/// the tokens `xs` normalised and the block takes them to `ys`, then each output of the layer is the
/// sum of `ys` and `xs` at its place, and the layer remembers what the block does.
pub proof fn law_layer_is_residual(
    l: Layer,
    dt: DType,
    xs: Matrix,
    s0: Memory,
    s: Memory,
    outs: Matrix,
    ns: Matrix,
    r: Memory,
    ys: Matrix,
)
    requires
        settled(dt),
        runs(layer_step(l, dt), xs, s0, s, outs),
        ns.len() == xs.len(),
        forall|t: int|
            0 <= t < xs.len() ==> rms_gives(dt, xs[t], l.norm, NORM_EPS@, #[trigger] ns[t]),
        runs(mixer_step(l.mixer, dt), ns, s0, r, ys),
    ensures
        s == r,
        outs.len() == xs.len(),
        forall|t: int| 0 <= t < xs.len() ==> adds(dt, ys[t], xs[t], #[trigger] outs[t]),
{
    let (step, inside) = (layer_step(l, dt), mixer_step(l.mixer, dt));
    law_block_is_determined(l.mixer, dt);
    let ms = choose|ms: Seq<Memory>| #[trigger]
        traces(step, xs, ms, outs) && ms.first() == s0 && ms.last() == s;
    let found = Seq::new(
        xs.len(),
        |t: int|
            choose|y: Seq<u64>|
                #[trigger] mixes(l.mixer, dt, ns[t], ms[t], ms[t + 1], y) && adds(
                    dt,
                    y,
                    xs[t],
                    outs[t],
                ),
    );
    assert forall|t: int| #![trigger found[t]] 0 <= t < xs.len() implies inside(
        ns[t],
        ms[t],
        ms[t + 1],
        found[t],
    ) && adds(dt, found[t], xs[t], outs[t]) by {
        let o = outs[t];
        assert(step(xs[t], ms[t], ms[t + 1], outs[t]));
        let (n, y) = choose|n: Seq<u64>, y: Seq<u64>|
            {
                &&& #[trigger] rms_gives(dt, xs[t], l.norm, NORM_EPS@, n)
                &&& #[trigger] mixes(l.mixer, dt, n, ms[t], ms[t + 1], y)
                &&& adds(dt, y, xs[t], outs[t])
            };
        assert(n == ns[t]);
        assert(mixes(l.mixer, dt, ns[t], ms[t], ms[t + 1], y));
    }
    assert(traces(inside, ns, ms, found));
    assert(runs(inside, ns, s0, s, found));
    law_runs_are_determined(inside, ns, s0, s, found, r, ys);
    assert forall|t: int| 0 <= t < xs.len() implies adds(
        dt,
        ys[t],
        xs[t],
        #[trigger] outs[t],
    ) by {
        assert(found[t] == ys[t]);
    }
}

/// A scan of the first `k` positions is what the scan of all of them begins with. This holds of
/// every result that a scan may give.
pub proof fn law_scan_has_prefixes(
    dt: DType,
    a: Matrix,
    skip: Seq<u64>,
    delta: Matrix,
    b: Matrix,
    c: Matrix,
    x: Matrix,
    h0: Matrix,
    h: Matrix,
    y: Matrix,
    k: int,
)
    requires
        ssm_scan(dt, a, skip, delta, b, c, x, h0, h, y),
        delta.len() == x.len(),
        b.len() == x.len(),
        c.len() == x.len(),
        0 <= k <= x.len(),
    ensures
        exists|hs: Seq<Matrix>|
            {
                &&& #[trigger] ssm_trace(dt, a, skip, delta, b, c, x, hs, y)
                &&& hs.first() == h0
                &&& hs.last() == h
                &&& ssm_scan(
                    dt,
                    a,
                    skip,
                    delta.take(k),
                    b.take(k),
                    c.take(k),
                    x.take(k),
                    h0,
                    hs[k],
                    y.take(k),
                )
            },
{
    let hs = choose|hs: Seq<Matrix>|
        {
            &&& #[trigger] ssm_trace(dt, a, skip, delta, b, c, x, hs, y)
            &&& hs.first() == h0
            &&& hs.last() == h
        };
    let short = hs.take(k + 1);
    let (d1, b1, c1, x1, y1) = (delta.take(k), b.take(k), c.take(k), x.take(k), y.take(k));
    assert forall|t: int| #![trigger y1[t]] 0 <= t < k implies ssm_step(
        dt,
        a,
        skip,
        d1[t],
        b1[t],
        c1[t],
        x1[t],
        short[t],
        short[t + 1],
        y1[t],
    ) by {
        assert(y1[t] == y[t]);
    }
    assert(ssm_trace(dt, a, skip, d1, b1, c1, x1, short, y1));
    assert(short.last() == hs[k]);
}

proof fn lemma_ssm_traces(
    dt: DType,
    a: Matrix,
    skip: Seq<u64>,
    delta: Matrix,
    b: Matrix,
    c: Matrix,
    x: Matrix,
    hs: Seq<Matrix>,
    y: Matrix,
    gs: Seq<Matrix>,
    z: Matrix,
    n: int,
)
    requires
        settled(dt),
        ssm_trace(dt, a, skip, delta, b, c, x, hs, y),
        ssm_trace(dt, a, skip, delta, b, c, x, gs, z),
        hs[0] == gs[0],
        0 <= n <= x.len(),
    ensures
        hs[n] == gs[n],
        forall|t: int| 0 <= t < n ==> #[trigger] y[t] == z[t],
    decreases n,
{
    if n > 0 {
        let t = n - 1;
        lemma_ssm_traces(dt, a, skip, delta, b, c, x, hs, y, gs, z, t);
        let (o, p) = (y[t], z[t]);
        lemma_ssm_step(
            dt,
            a,
            skip,
            delta[t],
            b[t],
            c[t],
            x[t],
            hs[t],
            hs[n],
            y[t],
            gs[n],
            z[t],
        );
    }
}

/// A scan leads from one state to one state and one list of outputs.
pub proof fn law_scan_is_determined(
    dt: DType,
    a: Matrix,
    skip: Seq<u64>,
    delta: Matrix,
    b: Matrix,
    c: Matrix,
    x: Matrix,
    h0: Matrix,
    h: Matrix,
    y: Matrix,
    g: Matrix,
    z: Matrix,
)
    requires
        settled(dt),
        ssm_scan(dt, a, skip, delta, b, c, x, h0, h, y),
        ssm_scan(dt, a, skip, delta, b, c, x, h0, g, z),
    ensures
        h == g,
        y == z,
{
    let hs = choose|hs: Seq<Matrix>|
        {
            &&& #[trigger] ssm_trace(dt, a, skip, delta, b, c, x, hs, y)
            &&& hs.first() == h0
            &&& hs.last() == h
        };
    let gs = choose|hs: Seq<Matrix>|
        {
            &&& #[trigger] ssm_trace(dt, a, skip, delta, b, c, x, hs, z)
            &&& hs.first() == h0
            &&& hs.last() == g
        };
    lemma_ssm_traces(dt, a, skip, delta, b, c, x, hs, y, gs, z, x.len() as int);
    assert(y =~= z);
}

/// No output of a scan depends on a later position: a scan of the first `k` positions gives the
/// first `k` outputs of the scan of all of them, and the state that this one has after them.
pub proof fn law_scan_is_causal(
    dt: DType,
    a: Matrix,
    skip: Seq<u64>,
    delta: Matrix,
    b: Matrix,
    c: Matrix,
    x: Matrix,
    h0: Matrix,
    h: Matrix,
    y: Matrix,
    k: int,
    hk: Matrix,
    yk: Matrix,
)
    requires
        settled(dt),
        ssm_scan(dt, a, skip, delta, b, c, x, h0, h, y),
        delta.len() == x.len(),
        b.len() == x.len(),
        c.len() == x.len(),
        0 <= k <= x.len(),
        ssm_scan(dt, a, skip, delta.take(k), b.take(k), c.take(k), x.take(k), h0, hk, yk),
    ensures
        yk == y.take(k),
        exists|hs: Seq<Matrix>|
            {
                &&& #[trigger] ssm_trace(dt, a, skip, delta, b, c, x, hs, y)
                &&& hs.first() == h0
                &&& hs.last() == h
                &&& hs[k] == hk
            },
{
    law_scan_has_prefixes(dt, a, skip, delta, b, c, x, h0, h, y, k);
    let (d1, b1, c1, x1, y1) = (delta.take(k), b.take(k), c.take(k), x.take(k), y.take(k));
    let hs = choose|hs: Seq<Matrix>|
        {
            &&& #[trigger] ssm_trace(dt, a, skip, delta, b, c, x, hs, y)
            &&& hs.first() == h0
            &&& hs.last() == h
            &&& ssm_scan(dt, a, skip, d1, b1, c1, x1, h0, hs[k], y1)
        };
    law_scan_is_determined(dt, a, skip, d1, b1, c1, x1, h0, hk, yk, hs[k], y1);
}

/// A token on its way through the layers leads to one token and one list of memories.
proof fn lemma_descents(
    layers: Seq<Layer>,
    dt: DType,
    vs: Matrix,
    s0: Seq<Memory>,
    s1: Seq<Memory>,
    ws: Matrix,
    s2: Seq<Memory>,
    n: int,
)
    requires
        settled(dt),
        descent(layers, dt, vs, s0, s1),
        descent(layers, dt, ws, s0, s2),
        vs[0] == ws[0],
        0 <= n <= layers.len(),
    ensures
        vs[n] == ws[n],
        forall|k: int| 0 <= k < n ==> #[trigger] s1[k] == s2[k],
    decreases n,
{
    if n > 0 {
        let k = n - 1;
        lemma_descents(layers, dt, vs, s0, s1, ws, s2, k);
        law_layer_is_determined(layers[k], dt);
        let (r, s) = (s1[k], s2[k]);
        let step = layer_step(layers[k], dt);
        assert(step(vs[k], s0[k], r, vs[n]) && step(vs[k], s0[k], s, ws[n]));
    }
}

proof fn lemma_descends(
    layers: Seq<Layer>,
    dt: DType,
    x: Seq<u64>,
    s0: Seq<Memory>,
    s1: Seq<Memory>,
    o1: Seq<u64>,
    s2: Seq<Memory>,
    o2: Seq<u64>,
)
    requires
        settled(dt),
        descends(layers, dt, x, s0, s1, o1),
        descends(layers, dt, x, s0, s2, o2),
    ensures
        s1 == s2,
        o1 == o2,
{
    let vs = choose|vs: Matrix| #[trigger]
        descent(layers, dt, vs, s0, s1) && vs.first() == x && vs.last() == o1;
    let ws = choose|vs: Matrix| #[trigger]
        descent(layers, dt, vs, s0, s2) && vs.first() == x && vs.last() == o2;
    lemma_descents(layers, dt, vs, s0, s1, ws, s2, layers.len() as int);
    assert(s1 =~= s2);
}

/// Sequences on their way through the layers lead to one sequence and one list of memories.
proof fn lemma_cascade(
    layers: Seq<Layer>,
    dt: DType,
    zs: Seq<Matrix>,
    s0: Seq<Memory>,
    s1: Seq<Memory>,
    ws: Seq<Matrix>,
    s2: Seq<Memory>,
    n: int,
)
    requires
        settled(dt),
        cascade(layers, dt, zs, s0, s1),
        cascade(layers, dt, ws, s0, s2),
        zs[0] == ws[0],
        0 <= n <= layers.len(),
    ensures
        zs[n] == ws[n],
        forall|k: int| 0 <= k < n ==> #[trigger] s1[k] == s2[k],
    decreases n,
{
    if n > 0 {
        let k = n - 1;
        lemma_cascade(layers, dt, zs, s0, s1, ws, s2, k);
        law_layer_is_determined(layers[k], dt);
        let (r, s) = (s1[k], s2[k]);
        law_runs_are_determined(layer_step(layers[k], dt), zs[k], s0[k], r, zs[n], s, ws[n]);
    }
}

proof fn lemma_cascades(
    layers: Seq<Layer>,
    dt: DType,
    xs: Matrix,
    s0: Seq<Memory>,
    s1: Seq<Memory>,
    o1: Matrix,
    s2: Seq<Memory>,
    o2: Matrix,
)
    requires
        settled(dt),
        cascades(layers, dt, xs, s0, s1, o1),
        cascades(layers, dt, xs, s0, s2, o2),
    ensures
        s1 == s2,
        o1 == o2,
{
    let zs = choose|zs: Seq<Matrix>| #[trigger]
        cascade(layers, dt, zs, s0, s1) && zs.first() == xs && zs.last() == o1;
    let ws = choose|zs: Seq<Matrix>| #[trigger]
        cascade(layers, dt, zs, s0, s2) && zs.first() == xs && zs.last() == o2;
    lemma_cascade(layers, dt, zs, s0, s1, ws, s2, layers.len() as int);
    assert(s1 =~= s2);
}

proof fn lemma_heads(net: Net, dt: DType, x: Seq<u64>, z: Seq<u64>, w: Seq<u64>)
    requires
        settled(dt),
        heads(net, dt, x, z),
        heads(net, dt, x, w),
    ensures
        z == w,
{
    let n = choose|n: Seq<u64>|
        {
            &&& #[trigger] rms_gives(dt, x, net.norm, NORM_EPS@, n)
            &&& projects(dt, net.table, None, n, z)
        };
    let m = choose|n: Seq<u64>|
        {
            &&& #[trigger] rms_gives(dt, x, net.norm, NORM_EPS@, n)
            &&& projects(dt, net.table, None, n, w)
        };
    lemma_projects(dt, net.table, None, n, z, w);
}

/// A prompt leads to one list of memories and one list of logits.
pub proof fn law_prefill_is_determined(
    net: Net,
    dt: DType,
    kind: DType,
    ids: Seq<u64>,
    s1: Seq<Memory>,
    l1: Seq<u64>,
    s2: Seq<Memory>,
    l2: Seq<u64>,
)
    requires
        settled(dt),
        prefills(net, dt, kind, ids, s1, l1),
        prefills(net, dt, kind, ids, s2, l2),
    ensures
        s1 == s2,
        l1 == l2,
{
    let xs = embeddings(net, kind, ids);
    let o1 = choose|outs: Matrix|
        {
            &&& #[trigger] cascades(net.layers, dt, xs, blanks(net), s1, outs)
            &&& heads(net, dt, outs.last(), l1)
        };
    let o2 = choose|outs: Matrix|
        {
            &&& #[trigger] cascades(net.layers, dt, xs, blanks(net), s2, outs)
            &&& heads(net, dt, outs.last(), l2)
        };
    lemma_cascades(net.layers, dt, xs, blanks(net), s1, o1, s2, o2);
    lemma_heads(net, dt, o1.last(), l1, l2);
}

/// From one list of memories a token leads to one list of memories and one list of logits.
pub proof fn law_generate_is_determined(
    net: Net,
    dt: DType,
    kind: DType,
    id: u64,
    s0: Seq<Memory>,
    s1: Seq<Memory>,
    l1: Seq<u64>,
    s2: Seq<Memory>,
    l2: Seq<u64>,
)
    requires
        settled(dt),
        generates(net, dt, kind, id, s0, s1, l1),
        generates(net, dt, kind, id, s0, s2, l2),
    ensures
        s1 == s2,
        l1 == l2,
{
    let x = embedded(net, kind, id);
    let o1 = choose|out: Seq<u64>|
        {
            &&& #[trigger] descends(net.layers, dt, x, s0, s1, out)
            &&& heads(net, dt, out, l1)
        };
    let o2 = choose|out: Seq<u64>|
        {
            &&& #[trigger] descends(net.layers, dt, x, s0, s2, out)
            &&& heads(net, dt, out, l2)
        };
    lemma_descends(net.layers, dt, x, s0, s1, o1, s2, o2);
    lemma_heads(net, dt, o1, l1, l2);
}

/// Processing a prompt and then generating a token gives the memories and the logits that
/// processing the longer prompt gives.
pub proof fn law_generate_equals_prefill(
    net: Net,
    dt: DType,
    kind: DType,
    ids: Seq<u64>,
    s1: Seq<Memory>,
    before: Seq<u64>,
    id: u64,
    s2: Seq<Memory>,
    logits: Seq<u64>,
    s: Seq<Memory>,
    longer: Seq<u64>,
)
    requires
        settled(dt),
        prefills(net, dt, kind, ids, s1, before),
        generates(net, dt, kind, id, s1, s2, logits),
        prefills(net, dt, kind, ids.push(id), s, longer),
    ensures
        s2 == s,
        logits == longer,
{
    law_generate_extends_prefill(net, dt, kind, ids, s1, before, id, s2, logits);
    law_prefill_is_determined(net, dt, kind, ids.push(id), s2, logits, s, longer);
}

/// The logits of each token of a prompt are equal to those that processing the prompt up to it
/// gives.
pub proof fn law_complete_equals_prefills(
    net: Net,
    dt: DType,
    kind: DType,
    ids: Seq<u64>,
    all: Matrix,
    t: int,
    mem: Seq<Memory>,
    logits: Seq<u64>,
)
    requires
        settled(dt),
        completes(net, dt, kind, ids, all),
        0 <= t < ids.len(),
        prefills(net, dt, kind, ids.take(t + 1), mem, logits),
    ensures
        all[t] == logits,
{
    law_complete_is_prefill_of_prefixes(net, dt, kind, ids, all, t);
    let short = ids.take(t + 1);
    let m = choose|m: Seq<Memory>| #[trigger] prefills(net, dt, kind, short, m, all[t]);
    law_prefill_is_determined(net, dt, kind, short, m, all[t], mem, logits);
}

} // verus!
