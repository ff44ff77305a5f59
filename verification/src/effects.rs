//! What single parts of a model do, where the operations are exact: what is left when their weights
//! are zero, and how the result changes with them.
use crate::array::{group_index, ix1, ix2, ix3, shape3};
use crate::block::{memory, mixer, MambaBlock};
use crate::exact::{
    combines, dot, exact, lawful, lemma_dot_combines, lemma_mixed_times, mixed, Numbers,
};
use crate::formulas::{
    law_blank, law_block, law_cascade, law_complete, law_gating, law_head, law_layer, law_rates,
    law_run, law_selection, law_split, law_state_space_step,
};
use crate::layers::rms_gives;
use crate::model::{net, Model};
use crate::net::{completes, embedded, heads, Net};
use crate::readings::{
    law_numbers_of_block, law_numbers_of_layer, law_numbers_of_memory, law_numbers_of_model,
    law_numbers_of_tensors,
};
use crate::recurrence::{
    blank, layer_step, mixer_step, mixes, runs, transforms, Layer, Matrix, Memory, Mixer,
};
use crate::residual::{layer, ResidualBlock};
use crate::rows::slice;
use crate::tensor::{at, dims, dot_gives, dtype_of, row, silu_gives};
use candle_core::{DType, Tensor};
use vstd::prelude::*;

verus! {

broadcast use group_index;

proof fn lemma_zero<T>(k: Numbers<T>, a: T)
    requires
        lawful(k),
    ensures
        (k.times)(a, k.zero) == k.zero,
        (k.times)(k.zero, a) == k.zero,
        (k.plus)(a, k.zero) == a,
        (k.plus)(k.zero, a) == a,
{
    reveal(lawful);
    assert((k.times)(a, k.zero) == (k.times)(k.zero, a));
    assert((k.plus)(a, k.zero) == (k.plus)(k.zero, a));
}

/// An inner product with zeros is zero.
proof fn lemma_dot_zero<T>(k: Numbers<T>, xs: Seq<u64>, ys: Seq<u64>)
    requires
        lawful(k),
        forall|j: int|
            0 <= j < xs.len() ==> (k.of)(#[trigger] xs[j]) == k.zero || (k.of)(ys[j]) == k.zero,
    ensures
        dot(k, xs, ys) == k.zero,
    decreases xs.len(),
{
    if xs.len() > 0 {
        let (n, rest) = (xs.len() - 1, xs.drop_last());
        assert forall|j: int| 0 <= j < rest.len() implies (k.of)(#[trigger] rest[j]) == k.zero || (
        k.of)(ys[j]) == k.zero by {
            assert(rest[j] == xs[j]);
        }
        lemma_dot_zero(k, rest, ys);
        let x = xs[n];
        lemma_zero(k, (k.of)(x));
        lemma_zero(k, (k.of)(ys[n]));
        lemma_zero(k, k.zero);
    }
}

/// A block whose gates are closed gives nothing: where the rows of the input projection that make
/// the gates are zero, every number of its output is, whatever the token, the memory and the other
/// weights.
pub proof fn law_closed_gates_give_nothing<T>(
    m: Mixer,
    dt: DType,
    k: Numbers<T>,
    x: Seq<u64>,
    s0: Memory,
    s1: Memory,
    out: Seq<u64>,
)
    requires
        lawful(k),
        exact(dt, k),
        forall|r: u64, s: u64| #[trigger]
            silu_gives(dt, r, s) && (k.of)(r) == k.zero ==> (k.of)(s) == k.zero,
        m.in_proj.len() == 2 * m.conv_bias.len(),
        mixes(m, dt, x, s0, s1, out),
        forall|c: int, j: int|
            0 <= c < m.conv_bias.len() && 0 <= j < x.len() ==> (k.of)(
                #[trigger] m.in_proj[m.conv_bias.len() + c][j],
            ) == k.zero,
    ensures
        out.len() == m.out_proj.len(),
        forall|o: int| 0 <= o < out.len() ==> (k.of)(#[trigger] out[o]) == k.zero,
{
    let inner = m.conv_bias.len();
    let w = law_block(m, dt, x, s0, s1, out);
    law_split(m, dt, x, w.inputs, w.gate);
    let r = law_gating(m, dt, w.y, w.gate, out);
    assert(w.y.len() == inner) by {
        assert(w.x.len() == w.inputs.len());
    }
    assert forall|c: int| 0 <= c < inner implies (k.of)(#[trigger] r.1[c]) == k.zero by {
        let (gate, product) = (w.gate[c], r.1[c]);
        lemma_dot_zero(k, x, m.in_proj[inner + c]);
        assert((k.of)(gate) == k.zero);
        assert((k.of)(r.0[c]) == k.zero);
        lemma_zero(k, (k.of)(w.y[c]));
    }
    assert forall|o: int| 0 <= o < out.len() implies (k.of)(#[trigger] out[o]) == k.zero by {
        lemma_dot_zero(k, r.1, m.out_proj[o]);
    }
}

/// What is selected to enter the states are the rows of the selection behind those of the step
/// sizes: where these sixteen rows are zero, states of zeros stay zero, whatever the token and the
/// other weights.
pub proof fn law_without_inputs_states_stay_zero<T>(
    m: Mixer,
    dt: DType,
    k: Numbers<T>,
    x: Seq<u64>,
    s0: Memory,
    s1: Memory,
    out: Seq<u64>,
)
    requires
        lawful(k),
        exact(dt, k),
        m.x_proj.len() == m.rank + 32,
        m.in_proj.len() == 2 * m.conv_bias.len(),
        mixes(m, dt, x, s0, s1, out),
        forall|n: int, c: int|
            0 <= n < 16 && 0 <= c < m.conv_bias.len() ==> (k.of)(
                #[trigger] m.x_proj[m.rank + n][c],
            ) == k.zero,
        forall|c: int, n: int|
            0 <= c < m.conv_bias.len() && 0 <= n < 16 ==> (k.of)(#[trigger] s0.h[c][n]) == k.zero,
    ensures
        s1.h.len() == m.conv_bias.len(),
        forall|c: int, n: int|
            0 <= c < m.conv_bias.len() && 0 <= n < 16 ==> (k.of)(#[trigger] s1.h[c][n]) == k.zero,
{
    let inner = m.conv_bias.len();
    let w = law_block(m, dt, x, s0, s1, out);
    law_split(m, dt, x, w.inputs, w.gate);
    assert(w.x.len() == inner);
    let sizes = law_selection(m, dt, w.x, w.delta, w.b, w.c);
    let step = law_state_space_step(
        dt,
        w.a,
        w.skip,
        w.delta,
        w.b,
        w.c,
        w.x,
        s0.h,
        s1.h,
        w.y,
    );
    assert forall|c: int, n: int| 0 <= c < inner && 0 <= n < 16 implies (k.of)(
        #[trigger] s1.h[c][n],
    ) == k.zero by {
        let (b, h0, h1) = (w.b[n], s0.h[c][n], s1.h[c][n]);
        lemma_dot_zero(k, w.x, m.x_proj[m.rank + n]);
        assert((k.of)(b) == k.zero);
        lemma_zero(k, (k.of)(w.delta[c]));
        assert((k.of)(step.gains[c][n]) == k.zero);
        lemma_zero(k, (k.of)(w.x[c]));
        assert((k.of)(step.inputs[c][n]) == k.zero);
        lemma_zero(k, (k.of)(step.factors[c][n]));
        assert((k.of)(step.kept[c][n]) == k.zero);
        lemma_zero(k, k.zero);
    }
}

/// What the outputs are read with are the last rows of the selection: where these sixteen rows and
/// the skip connection are zero, nothing is read out of any state, and the block gives nothing.
pub proof fn law_without_readings_nothing_comes_out<T>(
    m: Mixer,
    dt: DType,
    k: Numbers<T>,
    x: Seq<u64>,
    s0: Memory,
    s1: Memory,
    out: Seq<u64>,
)
    requires
        lawful(k),
        exact(dt, k),
        m.x_proj.len() == m.rank + 32,
        m.in_proj.len() == 2 * m.conv_bias.len(),
        m.d_type == dt,
        mixes(m, dt, x, s0, s1, out),
        forall|n: int, c: int|
            0 <= n < 16 && 0 <= c < m.conv_bias.len() ==> (k.of)(
                #[trigger] m.x_proj[m.rank + 16 + n][c],
            ) == k.zero,
        forall|c: int| 0 <= c < m.conv_bias.len() ==> (k.of)(#[trigger] m.d[c]) == k.zero,
    ensures
        out.len() == m.out_proj.len(),
        forall|o: int| 0 <= o < out.len() ==> (k.of)(#[trigger] out[o]) == k.zero,
{
    let inner = m.conv_bias.len();
    let w = law_block(m, dt, x, s0, s1, out);
    law_split(m, dt, x, w.inputs, w.gate);
    assert(w.x.len() == inner);
    let sizes = law_selection(m, dt, w.x, w.delta, w.b, w.c);
    let step = law_state_space_step(
        dt,
        w.a,
        w.skip,
        w.delta,
        w.b,
        w.c,
        w.x,
        s0.h,
        s1.h,
        w.y,
    );
    let r = law_gating(m, dt, w.y, w.gate, out);
    assert forall|n: int| 0 <= n < 16 implies (k.of)(#[trigger] w.c[n]) == k.zero by {
        lemma_dot_zero(k, w.x, m.x_proj[m.rank + 16 + n]);
    }
    assert forall|c: int| 0 <= c < inner implies (k.of)(#[trigger] r.1[c]) == k.zero by {
        law_rates(m, dt, w.a, w.skip, c, 0);
        let (y, h, d) = (w.y[c], s1.h[c], m.d[c]);
        assert(h.len() == 16);
        lemma_dot_zero(k, h, w.c);
        lemma_zero(k, (k.of)(w.x[c]));
        lemma_zero(k, k.zero);
        assert((k.of)(y) == k.zero);
        lemma_zero(k, (k.of)(r.0[c]));
    }
    assert forall|o: int| 0 <= o < out.len() implies (k.of)(#[trigger] out[o]) == k.zero by {
        lemma_dot_zero(k, r.1, m.out_proj[o]);
    }
}

/// The output of a layer is the token plus what its block makes of the normalised token, number by
/// number and whatever their width.
pub proof fn law_layer_adds_to_token<T>(
    l: Layer,
    dt: DType,
    k: Numbers<T>,
    x: Seq<u64>,
    s0: Memory,
    s1: Memory,
    out: Seq<u64>,
) -> (r: (Seq<u64>, Seq<u64>))
    requires
        lawful(k),
        exact(dt, k),
        l.mixer.out_proj.len() == x.len(),
        transforms(l, dt, x, s0, s1, out),
    ensures
        rms_gives(dt, x, l.norm, "1e-5"@, r.0),
        mixes(l.mixer, dt, r.0, s0, s1, r.1),
        out.len() == x.len(),
        forall|j: int|
            0 <= j < x.len() ==> (k.of)(#[trigger] out[j]) == (k.plus)((k.of)(r.1[j]), (k.of)(x[j])),
{
    law_layer(l, dt, x, s0, s1, out)
}

/// A layer whose output weights are zero passes tokens on as they are.
pub proof fn law_silent_layer_passes_token_on<T>(
    l: Layer,
    dt: DType,
    k: Numbers<T>,
    x: Seq<u64>,
    s0: Memory,
    s1: Memory,
    out: Seq<u64>,
)
    requires
        lawful(k),
        exact(dt, k),
        l.mixer.in_proj.len() == 2 * l.mixer.conv_bias.len(),
        l.mixer.out_proj.len() == x.len(),
        transforms(l, dt, x, s0, s1, out),
        forall|o: int, c: int|
            0 <= o < x.len() && 0 <= c < l.mixer.conv_bias.len() ==> (k.of)(
                #[trigger] l.mixer.out_proj[o][c],
            ) == k.zero,
    ensures
        out.len() == x.len(),
        forall|j: int| 0 <= j < x.len() ==> (k.of)(#[trigger] out[j]) == (k.of)(x[j]),
{
    let (n, y) = law_layer_adds_to_token(l, dt, k, x, s0, s1, out);
    let w = law_block(l.mixer, dt, n, s0, s1, y);
    law_split(l.mixer, dt, n, w.inputs, w.gate);
    assert(w.x.len() == l.mixer.conv_bias.len());
    let r = law_gating(l.mixer, dt, w.y, w.gate, y);
    assert forall|j: int| 0 <= j < x.len() implies (k.of)(#[trigger] out[j]) == (k.of)(x[j]) by {
        let number = y[j];
        assert(dot_gives(dt, r.1, l.mixer.out_proj[j], number));
        lemma_dot_zero(k, r.1, l.mixer.out_proj[j]);
        lemma_zero(k, (k.of)(x[j]));
    }
}

/// The same over a sequence: every token is passed on at its position.
pub proof fn law_silent_layer_passes_tokens_on<T>(
    l: Layer,
    dt: DType,
    k: Numbers<T>,
    xs: Matrix,
    s0: Memory,
    s: Memory,
    outs: Matrix,
    t: int,
)
    requires
        lawful(k),
        exact(dt, k),
        l.mixer.in_proj.len() == 2 * l.mixer.conv_bias.len(),
        runs(layer_step(l, dt), xs, s0, s, outs),
        0 <= t < xs.len(),
        l.mixer.out_proj.len() == xs[t].len(),
        forall|o: int, c: int|
            0 <= o < xs[t].len() && 0 <= c < l.mixer.conv_bias.len() ==> (k.of)(
                #[trigger] l.mixer.out_proj[o][c],
            ) == k.zero,
    ensures
        outs.len() == xs.len(),
        outs[t].len() == xs[t].len(),
        forall|j: int| 0 <= j < xs[t].len() ==> (k.of)(#[trigger] outs[t][j]) == (k.of)(xs[t][j]),
{
    let ms = law_run(layer_step(l, dt), xs, s0, s, outs);
    let out = outs[t];
    law_silent_layer_passes_token_on(l, dt, k, xs[t], ms[t], ms[t + 1], out);
}

/// The logits go through the last normalisation, whatever layers there are: where its factors are
/// zero, all logits are. The normalisation is taken to multiply each number of the token by a number
/// that depends on the token and by its factor.
pub proof fn law_without_factors_no_logits<T>(
    net: Net,
    dt: DType,
    k: Numbers<T>,
    scale: spec_fn(Seq<u64>) -> T,
    x: Seq<u64>,
    logits: Seq<u64>,
)
    requires
        lawful(k),
        exact(dt, k),
        forall|xs: Seq<u64>, ws: Seq<u64>, eps: Seq<char>, ys: Seq<u64>, j: int|
            #![trigger rms_gives(dt, xs, ws, eps, ys), ys[j]]
            rms_gives(dt, xs, ws, eps, ys) && 0 <= j < ys.len() ==> (k.of)(ys[j]) == (k.times)(
                (k.times)((k.of)(xs[j]), scale(xs)),
                (k.of)(ws[j]),
            ),
        forall|xs: Seq<u64>, ws: Seq<u64>, eps: Seq<char>, ys: Seq<u64>| #[trigger]
            rms_gives(dt, xs, ws, eps, ys) ==> ys.len() == ws.len(),
        heads(net, dt, x, logits),
        forall|j: int| 0 <= j < net.norm.len() ==> (k.of)(#[trigger] net.norm[j]) == k.zero,
    ensures
        logits.len() == net.table.len(),
        forall|v: int| 0 <= v < logits.len() ==> (k.of)(#[trigger] logits[v]) == k.zero,
{
    let n = law_head(net, dt, x, logits);
    assert forall|j: int| 0 <= j < n.len() implies (k.of)(#[trigger] n[j]) == k.zero by {
        let f = net.norm[j];
        lemma_zero(k, (k.times)((k.of)(x[j]), scale(x)));
    }
    assert forall|v: int| 0 <= v < logits.len() implies (k.of)(#[trigger] logits[v]) == k.zero by {
        lemma_dot_zero(k, n, net.table[v]);
    }
}

/// The logits are linear in the factors of the last normalisation: of three models that differ in
/// them only, if the factors of the third are `p` times those of the first plus `q` times those of
/// the second, so are the logits for a token.
pub proof fn law_logits_are_linear_in_factors<T>(
    net: (Net, Net, Net),
    dt: DType,
    k: Numbers<T>,
    scale: spec_fn(Seq<u64>) -> T,
    p: T,
    q: T,
    x: Seq<u64>,
    logits: (Seq<u64>, Seq<u64>, Seq<u64>),
)
    requires
        lawful(k),
        exact(dt, k),
        forall|xs: Seq<u64>, ws: Seq<u64>, eps: Seq<char>, ys: Seq<u64>, j: int|
            #![trigger rms_gives(dt, xs, ws, eps, ys), ys[j]]
            rms_gives(dt, xs, ws, eps, ys) && 0 <= j < ys.len() ==> (k.of)(ys[j]) == (k.times)(
                (k.times)((k.of)(xs[j]), scale(xs)),
                (k.of)(ws[j]),
            ),
        forall|xs: Seq<u64>, ws: Seq<u64>, eps: Seq<char>, ys: Seq<u64>| #[trigger]
            rms_gives(dt, xs, ws, eps, ys) ==> ys.len() == ws.len(),
        net.1.table == net.0.table,
        net.2.table == net.0.table,
        combines(k, p, q, net.0.norm, net.1.norm, net.2.norm),
        heads(net.0, dt, x, logits.0),
        heads(net.1, dt, x, logits.1),
        heads(net.2, dt, x, logits.2),
    ensures
        combines(k, p, q, logits.0, logits.1, logits.2),
{
    let n0 = law_head(net.0, dt, x, logits.0);
    let n1 = law_head(net.1, dt, x, logits.1);
    let n2 = law_head(net.2, dt, x, logits.2);
    assert forall|j: int| 0 <= j < n2.len() implies (k.of)(#[trigger] n2[j]) == mixed(
        k,
        p,
        q,
        (k.of)(n0[j]),
        (k.of)(n1[j]),
    ) by {
        let (a, b, f) = (n0[j], n1[j], net.2.norm[j]);
        let e = (k.times)((k.of)(x[j]), scale(x));
        lemma_mixed_times(k, e, p, q, (k.of)(net.0.norm[j]), (k.of)(net.1.norm[j]));
    }
    assert(combines(k, p, q, n0, n1, n2));
    assert forall|v: int| 0 <= v < logits.2.len() implies (k.of)(#[trigger] logits.2[v]) == mixed(
        k,
        p,
        q,
        (k.of)(logits.0[v]),
        (k.of)(logits.1[v]),
    ) by {
        let (a, b) = (logits.0[v], logits.1[v]);
        assert(dot_gives(dt, n0, net.0.table[v], a));
        assert(dot_gives(dt, n1, net.1.table[v], b));
        lemma_dot_combines(k, p, q, n0, n1, n2, net.0.table[v]);
    }
}

/// Where the output weights of all layers are zero, the logits of every position are those of the
/// embedding of the token at that position and of nothing else.
pub proof fn law_silent_layers_leave_embeddings<T>(
    net: Net,
    dt: DType,
    kind: DType,
    k: Numbers<T>,
    ids: Seq<u64>,
    logits: Matrix,
    t: int,
) -> (v: Seq<u64>)
    requires
        lawful(k),
        exact(dt, k),
        completes(net, dt, kind, ids, logits),
        0 <= t < ids.len(),
        embedded(net, kind, ids[t]).len() == net.width,
        forall|n: int|
            0 <= n < net.layers.len() ==> {
                let m = (#[trigger] net.layers[n]).mixer;
                &&& m.in_proj.len() == 2 * m.conv_bias.len()
                &&& m.out_proj.len() == net.width
                &&& forall|o: int, c: int|
                    0 <= o < net.width && 0 <= c < m.conv_bias.len() ==> (k.of)(
                        #[trigger] m.out_proj[o][c],
                    ) == k.zero
            },
    ensures
        v.len() == net.width,
        forall|j: int|
            0 <= j < net.width ==> (k.of)(#[trigger] v[j]) == (k.of)(embedded(net, kind, ids[t])[j]),
        heads(net, dt, v, logits[t]),
{
    let (xs, blank, mem, outs) = law_complete(net, dt, kind, ids, logits);
    let zs = law_cascade(net.layers, dt, xs, blank, mem, outs);
    let x = xs[t];
    lemma_silent_layers(net, dt, k, zs, blank, mem, t, net.layers.len() as int);
    let l = logits[t];
    outs[t]
}

proof fn lemma_silent_layers<T>(
    net: Net,
    dt: DType,
    k: Numbers<T>,
    zs: Seq<Matrix>,
    s0: Seq<Memory>,
    s1: Seq<Memory>,
    t: int,
    n: int,
)
    requires
        lawful(k),
        exact(dt, k),
        0 <= n <= net.layers.len(),
        0 <= t < zs[0].len(),
        zs[0][t].len() == net.width,
        forall|i: int|
            #![trigger net.layers[i]]
            0 <= i < net.layers.len() ==> runs(
                layer_step(net.layers[i], dt),
                zs[i],
                s0[i],
                s1[i],
                zs[i + 1],
            ),
        forall|i: int|
            0 <= i < net.layers.len() ==> {
                let m = (#[trigger] net.layers[i]).mixer;
                &&& m.in_proj.len() == 2 * m.conv_bias.len()
                &&& m.out_proj.len() == net.width
                &&& forall|o: int, c: int|
                    0 <= o < net.width && 0 <= c < m.conv_bias.len() ==> (k.of)(
                        #[trigger] m.out_proj[o][c],
                    ) == k.zero
            },
    ensures
        zs[n].len() == zs[0].len(),
        zs[n][t].len() == net.width,
        forall|j: int| 0 <= j < net.width ==> (k.of)(#[trigger] zs[n][t][j]) == (k.of)(zs[0][t][j]),
    decreases n,
{
    if n > 0 {
        lemma_silent_layers(net, dt, k, zs, s0, s1, t, n - 1);
        let l = net.layers[n - 1];
        law_silent_layer_passes_tokens_on(
            l,
            dt,
            k,
            zs[n - 1],
            s0[n - 1],
            s1[n - 1],
            zs[n],
            t,
        );
        assert forall|j: int| 0 <= j < net.width implies (k.of)(#[trigger] zs[n][t][j]) == (k.of)(
            zs[0][t][j],
        ) by {
            let before = zs[n - 1][t][j];
        }
    }
}

/// `MambaBlock::forward_sequence` on a block whose gates are closed: where the second half of the
/// rows of the input projection is zero, so is every number of the output.
pub proof fn law_sequence_through_closed_gates<T>(
    b: MambaBlock,
    k: Numbers<T>,
    xs: Tensor,
    out: Tensor,
    h: Tensor,
    taps: Tensor,
    i: int,
    t: int,
    o: int,
)
    requires
        lawful(k),
        exact(dtype_of(xs), k),
        forall|r: u64, s: u64| #[trigger]
            silu_gives(dtype_of(xs), r, s) && (k.of)(r) == k.zero ==> (k.of)(s) == k.zero,
        b.shaped(),
        dims(xs).len() == 3,
        dims(xs)[2] == b.model(),
        dims(out) == dims(xs),
        runs(
            mixer_step(mixer(b.weights()), dtype_of(xs)),
            slice(xs, i),
            blank(b.inner()),
            memory(h, taps, i, b.inner()),
            slice(out, i),
        ),
        forall|c: int, j: int|
            0 <= c < b.inner() && 0 <= j < b.model() ==> (k.of)(
                #[trigger] at(b.weights().in_proj, ix2(b.inner() + c, j)),
            ) == k.zero,
        0 <= i < dims(xs)[0],
        0 <= t < dims(xs)[1],
        0 <= o < b.model(),
    ensures
        (k.of)(at(out, ix3(i, t, o))) == k.zero,
{
    let (w, dt, inner) = (b.weights(), dtype_of(xs), b.inner());
    let m = mixer(w);
    law_numbers_of_block(w, b.model(), inner, b.rank());
    let ms = law_run(
        mixer_step(m, dt),
        slice(xs, i),
        blank(inner),
        memory(h, taps, i, inner),
        slice(out, i),
    );
    let token = slice(out, i)[t];
    law_numbers_of_tensors(out, i, t, o);
    law_numbers_of_tensors(xs, i, t, o);
    assert(mixes(m, dt, slice(xs, i)[t], ms[t], ms[t + 1], token));
    assert forall|c: int, j: int| 0 <= c < inner && 0 <= j < b.model() implies (k.of)(
        #[trigger] m.in_proj[inner + c][j],
    ) == k.zero by {
        let row = m.in_proj[inner + c];
        assert((k.of)(at(w.in_proj, ix2(inner + c, j))) == k.zero);
    }
    law_closed_gates_give_nothing(m, dt, k, slice(xs, i)[t], ms[t], ms[t + 1], token);
    let number = token[o];
}

/// `MambaBlock::forward_step` on a block whose gates are closed.
pub proof fn law_step_through_closed_gates<T>(
    b: MambaBlock,
    k: Numbers<T>,
    x: Tensor,
    h: Tensor,
    conv_state: Tensor,
    out: Tensor,
    h1: Tensor,
    taps: Tensor,
    i: int,
    o: int,
)
    requires
        lawful(k),
        exact(dtype_of(x), k),
        forall|r: u64, s: u64| #[trigger]
            silu_gives(dtype_of(x), r, s) && (k.of)(r) == k.zero ==> (k.of)(s) == k.zero,
        b.shaped(),
        dims(x).len() == 2,
        dims(x)[1] == b.model(),
        dims(out) == dims(x),
        mixes(
            mixer(b.weights()),
            dtype_of(x),
            row(x, ix1(i)),
            memory(h, conv_state, i, b.inner()),
            memory(h1, taps, i, b.inner()),
            row(out, ix1(i)),
        ),
        forall|c: int, j: int|
            0 <= c < b.inner() && 0 <= j < b.model() ==> (k.of)(
                #[trigger] at(b.weights().in_proj, ix2(b.inner() + c, j)),
            ) == k.zero,
        0 <= i < dims(x)[0],
        0 <= o < b.model(),
    ensures
        (k.of)(at(out, ix2(i, o))) == k.zero,
{
    let (w, dt, inner) = (b.weights(), dtype_of(x), b.inner());
    let m = mixer(w);
    law_numbers_of_block(w, b.model(), inner, b.rank());
    law_numbers_of_tensors(out, i, i, o);
    law_numbers_of_tensors(x, i, i, o);
    assert forall|c: int, j: int| 0 <= c < inner && 0 <= j < b.model() implies (k.of)(
        #[trigger] m.in_proj[inner + c][j],
    ) == k.zero by {
        let row = m.in_proj[inner + c];
        assert((k.of)(at(w.in_proj, ix2(inner + c, j))) == k.zero);
    }
    law_closed_gates_give_nothing(
        m,
        dt,
        k,
        row(x, ix1(i)),
        memory(h, conv_state, i, inner),
        memory(h1, taps, i, inner),
        row(out, ix1(i)),
    );
    let number = row(out, ix1(i))[o];
}

/// `MambaBlock::forward_sequence` on a block whose inputs do not enter the states: where the sixteen
/// rows of the selection behind those of the step sizes are zero, the last states are zero.
pub proof fn law_sequence_without_inputs<T>(
    b: MambaBlock,
    k: Numbers<T>,
    xs: Tensor,
    out: Tensor,
    h: Tensor,
    taps: Tensor,
    i: int,
    c: int,
    n: int,
)
    requires
        lawful(k),
        exact(dtype_of(xs), k),
        (k.of)(0) == k.zero,
        b.shaped(),
        dims(xs).len() == 3,
        dims(h) == shape3(dims(xs)[0], b.inner(), 16),
        runs(
            mixer_step(mixer(b.weights()), dtype_of(xs)),
            slice(xs, i),
            blank(b.inner()),
            memory(h, taps, i, b.inner()),
            slice(out, i),
        ),
        forall|r: int, j: int|
            0 <= r < 16 && 0 <= j < b.inner() ==> (k.of)(
                #[trigger] at(b.weights().x_proj, ix2(b.rank() + r, j)),
            ) == k.zero,
        0 <= i < dims(xs)[0],
        0 <= c < b.inner(),
        0 <= n < 16,
    ensures
        (k.of)(at(h, ix3(i, c, n))) == k.zero,
{
    let (w, dt, inner) = (b.weights(), dtype_of(xs), b.inner());
    let m = mixer(w);
    law_numbers_of_block(w, b.model(), inner, b.rank());
    law_blank(inner, 0, 0);
    let ms = law_run(
        mixer_step(m, dt),
        slice(xs, i),
        blank(inner),
        memory(h, taps, i, inner),
        slice(out, i),
    );
    assert forall|r: int, j: int| 0 <= r < 16 && 0 <= j < inner implies (k.of)(
        #[trigger] m.x_proj[m.rank + r][j],
    ) == k.zero by {
        let row = m.x_proj[b.rank() + r];
        assert((k.of)(at(w.x_proj, ix2(b.rank() + r, j))) == k.zero);
    }
    assert forall|e: int, l: int| 0 <= e < inner && 0 <= l < 16 implies (k.of)(
        #[trigger] ms[0].h[e][l],
    ) == k.zero by {
        assert(blank(inner).h[e][l] == 0);
    }
    lemma_states_stay_zero(m, dt, k, slice(xs, i), ms, slice(out, i), slice(xs, i).len() as int);
    law_numbers_of_memory(h, taps, i, dims(xs)[0], inner, c);
    let state = ms[slice(xs, i).len() as int].h[c][n];
    assert(state == memory(h, taps, i, inner).h[c][n]);
}

proof fn lemma_states_stay_zero<T>(
    m: Mixer,
    dt: DType,
    k: Numbers<T>,
    xs: Matrix,
    ms: Seq<Memory>,
    outs: Matrix,
    t: int,
)
    requires
        lawful(k),
        exact(dt, k),
        m.x_proj.len() == m.rank + 32,
        m.in_proj.len() == 2 * m.conv_bias.len(),
        0 <= t <= xs.len(),
        forall|u: int|
            #![trigger outs[u]]
            0 <= u < xs.len() ==> mixer_step(m, dt)(xs[u], ms[u], ms[u + 1], outs[u]),
        forall|n: int, c: int|
            0 <= n < 16 && 0 <= c < m.conv_bias.len() ==> (k.of)(
                #[trigger] m.x_proj[m.rank + n][c],
            ) == k.zero,
        forall|c: int, n: int|
            0 <= c < m.conv_bias.len() && 0 <= n < 16 ==> (k.of)(#[trigger] ms[0].h[c][n])
                == k.zero,
    ensures
        forall|c: int, n: int|
            0 <= c < m.conv_bias.len() && 0 <= n < 16 ==> (k.of)(#[trigger] ms[t].h[c][n])
                == k.zero,
    decreases t,
{
    if t > 0 {
        lemma_states_stay_zero(m, dt, k, xs, ms, outs, t - 1);
        let out = outs[t - 1];
        law_without_inputs_states_stay_zero(m, dt, k, xs[t - 1], ms[t - 1], ms[t], out);
    }
}

/// `ResidualBlock::forward_sequence` on a layer whose output weights are zero: every number of the
/// output is that of the token at its place.
pub proof fn law_sequence_through_silent_layer<T>(
    l: ResidualBlock,
    k: Numbers<T>,
    xs: Tensor,
    out: Tensor,
    h: Tensor,
    taps: Tensor,
    i: int,
    t: int,
    j: int,
)
    requires
        lawful(k),
        exact(dtype_of(xs), k),
        l.shaped(),
        dims(xs).len() == 3,
        dims(xs)[2] == l.mixer().model(),
        dims(out) == dims(xs),
        runs(
            layer_step(layer(l), dtype_of(xs)),
            slice(xs, i),
            blank(l.mixer().inner()),
            memory(h, taps, i, l.mixer().inner()),
            slice(out, i),
        ),
        forall|o: int, c: int|
            0 <= o < l.mixer().model() && 0 <= c < l.mixer().inner() ==> (k.of)(
                #[trigger] at(l.mixer().weights().out_proj, ix2(o, c)),
            ) == k.zero,
        0 <= i < dims(xs)[0],
        0 <= t < dims(xs)[1],
        0 <= j < dims(xs)[2],
    ensures
        (k.of)(at(out, ix3(i, t, j))) == (k.of)(at(xs, ix3(i, t, j))),
{
    let (b, dt) = (l.mixer(), dtype_of(xs));
    law_numbers_of_block(b.weights(), b.model(), b.inner(), b.rank());
    law_numbers_of_layer(l);
    law_numbers_of_tensors(xs, i, t, j);
    law_numbers_of_tensors(out, i, t, j);
    let m = layer(l).mixer;
    assert forall|o: int, c: int|
        0 <= o < slice(xs, i)[t].len() && 0 <= c < m.conv_bias.len() implies (k.of)(
        #[trigger] m.out_proj[o][c],
    ) == k.zero by {
        let row = m.out_proj[o];
        assert((k.of)(at(b.weights().out_proj, ix2(o, c))) == k.zero);
    }
    law_silent_layer_passes_tokens_on(
        layer(l),
        dt,
        k,
        slice(xs, i),
        blank(b.inner()),
        memory(h, taps, i, b.inner()),
        slice(out, i),
        t,
    );
    let number = slice(out, i)[t][j];
}

/// `ResidualBlock::forward_step` on a layer whose output weights are zero.
pub proof fn law_step_through_silent_layer<T>(
    l: ResidualBlock,
    k: Numbers<T>,
    x: Tensor,
    h: Tensor,
    conv_state: Tensor,
    out: Tensor,
    h1: Tensor,
    taps: Tensor,
    i: int,
    j: int,
)
    requires
        lawful(k),
        exact(dtype_of(x), k),
        l.shaped(),
        dims(x).len() == 2,
        dims(x)[1] == l.mixer().model(),
        dims(out) == dims(x),
        transforms(
            layer(l),
            dtype_of(x),
            row(x, ix1(i)),
            memory(h, conv_state, i, l.mixer().inner()),
            memory(h1, taps, i, l.mixer().inner()),
            row(out, ix1(i)),
        ),
        forall|o: int, c: int|
            0 <= o < l.mixer().model() && 0 <= c < l.mixer().inner() ==> (k.of)(
                #[trigger] at(l.mixer().weights().out_proj, ix2(o, c)),
            ) == k.zero,
        0 <= i < dims(x)[0],
        0 <= j < dims(x)[1],
    ensures
        (k.of)(at(out, ix2(i, j))) == (k.of)(at(x, ix2(i, j))),
{
    let (b, dt) = (l.mixer(), dtype_of(x));
    law_numbers_of_block(b.weights(), b.model(), b.inner(), b.rank());
    law_numbers_of_layer(l);
    law_numbers_of_tensors(x, i, i, j);
    law_numbers_of_tensors(out, i, i, j);
    let m = layer(l).mixer;
    assert forall|o: int, c: int|
        0 <= o < row(x, ix1(i)).len() && 0 <= c < m.conv_bias.len() implies (k.of)(
        #[trigger] m.out_proj[o][c],
    ) == k.zero by {
        let line = m.out_proj[o];
        assert((k.of)(at(b.weights().out_proj, ix2(o, c))) == k.zero);
    }
    law_silent_layer_passes_token_on(
        layer(l),
        dt,
        k,
        row(x, ix1(i)),
        memory(h, conv_state, i, b.inner()),
        memory(h1, taps, i, b.inner()),
        row(out, ix1(i)),
    );
    let number = row(out, ix1(i))[j];
}

/// `Model::forward_all` with factors of zero in the last normalisation: all logits are zero,
/// whatever layers there are.
pub proof fn law_model_without_factors<T>(
    m: Model,
    k: Numbers<T>,
    scale: spec_fn(Seq<u64>) -> T,
    ids: Tensor,
    logits: Tensor,
    i: int,
    t: int,
    v: int,
)
    requires
        lawful(k),
        exact(dtype_of(m.table()), k),
        forall|xs: Seq<u64>, ws: Seq<u64>, eps: Seq<char>, ys: Seq<u64>, j: int|
            #![trigger rms_gives(dtype_of(m.table()), xs, ws, eps, ys), ys[j]]
            rms_gives(dtype_of(m.table()), xs, ws, eps, ys) && 0 <= j < ys.len() ==> (k.of)(ys[j])
                == (k.times)((k.times)((k.of)(xs[j]), scale(xs)), (k.of)(ws[j])),
        forall|xs: Seq<u64>, ws: Seq<u64>, eps: Seq<char>, ys: Seq<u64>| #[trigger]
            rms_gives(dtype_of(m.table()), xs, ws, eps, ys) ==> ys.len() == ws.len(),
        m.shaped(),
        dims(ids).len() == 2,
        dims(logits) == shape3(dims(ids)[0], dims(ids)[1], dims(m.table())[0]),
        completes(
            net(m),
            dtype_of(m.table()),
            dtype_of(ids),
            row(ids, ix1(i)),
            slice(logits, i),
        ),
        forall|j: int| 0 <= j < m.width() ==> (k.of)(#[trigger] at(m.norm(), ix1(j))) == k.zero,
        0 <= i < dims(ids)[0],
        0 <= t < dims(ids)[1],
        0 <= v < dims(m.table())[0],
    ensures
        (k.of)(at(logits, ix3(i, t, v))) == k.zero,
{
    let dt = dtype_of(m.table());
    law_numbers_of_model(m);
    law_numbers_of_tensors(ids, i, i, t);
    law_numbers_of_tensors(logits, i, t, v);
    let r = law_complete(net(m), dt, dtype_of(ids), row(ids, ix1(i)), slice(logits, i));
    let line = slice(logits, i)[t];
    assert forall|j: int| 0 <= j < net(m).norm.len() implies (k.of)(#[trigger] net(m).norm[j])
        == k.zero by {
        assert((k.of)(at(m.norm(), ix1(j))) == k.zero);
    }
    law_without_factors_no_logits(net(m), dt, k, scale, r.3[t], line);
    let number = line[v];
}

} // verus!
