//! What the model computes, as relations between sequences of numbers, and what follows from them.
//!
//! Every function here speaks of one item of the batch.
use crate::layers::{no_token, place, rms_gives, NORM_EPS};
use crate::recurrence::{
    blank, layer_step, projects, runs, traces, transforms, Layer, Matrix, Memory, Step,
};
use candle_core::DType;
use vstd::prelude::*;

verus! {

/// The numbers that a model is made of.
pub struct Net {
    /// For each token its embedding, which is also its row of the output layer.
    pub table: Matrix,
    /// The width of the embeddings.
    pub width: nat,
    /// The layers.
    pub layers: Seq<Layer>,
    /// The number of channels of each layer.
    pub inner: nat,
    /// The factors of the last normalisation.
    pub norm: Seq<u64>,
}

/// The embedding of the token `id`, an identifier of the type `kind`. The identifier that stands
/// for no token has zeros.
pub open spec fn embedded(net: Net, kind: DType, id: u64) -> Seq<u64> {
    if id == no_token(kind) {
        Seq::new(net.width, |j: int| 0u64)
    } else {
        net.table[place(id)]
    }
}

/// The embeddings of the tokens `ids`.
pub open spec fn embeddings(net: Net, kind: DType, ids: Seq<u64>) -> Matrix {
    Seq::new(ids.len(), |t: int| embedded(net, kind, ids[t]))
}

/// What the layers remember before the first token.
pub open spec fn blanks(net: Net) -> Seq<Memory> {
    Seq::new(net.layers.len(), |k: int| blank(net.inner))
}

/// `vs` are a token on its way through the layers, which take their memories from `s0` to `s1`.
pub open spec fn descent(
    layers: Seq<Layer>,
    dt: DType,
    vs: Matrix,
    s0: Seq<Memory>,
    s1: Seq<Memory>,
) -> bool {
    &&& vs.len() == layers.len() + 1
    &&& s0.len() == layers.len()
    &&& s1.len() == layers.len()
    &&& forall|k: int|
        #![trigger s1[k]]
        0 <= k < layers.len() ==> transforms(layers[k], dt, vs[k], s0[k], s1[k], vs[k + 1])
}

/// The layers take the token `x` to `out`, and their memories from `s0` to `s1`.
pub open spec fn descends(
    layers: Seq<Layer>,
    dt: DType,
    x: Seq<u64>,
    s0: Seq<Memory>,
    s1: Seq<Memory>,
    out: Seq<u64>,
) -> bool {
    exists|vs: Matrix|
        #[trigger] descent(layers, dt, vs, s0, s1) && vs.first() == x && vs.last() == out
}

/// The layers take the token `x` somewhere, and their memories from `s0` to `s1`.
pub open spec fn leads(
    layers: Seq<Layer>,
    dt: DType,
    x: Seq<u64>,
    s0: Seq<Memory>,
    s1: Seq<Memory>,
) -> bool {
    exists|out: Seq<u64>| #[trigger] descends(layers, dt, x, s0, s1, out)
}

/// `zs` are the tokens of a sequence on their way through the layers, each of which takes its
/// memory from `s0` to `s1` over the whole sequence before the next layer begins.
pub open spec fn cascade(
    layers: Seq<Layer>,
    dt: DType,
    zs: Seq<Matrix>,
    s0: Seq<Memory>,
    s1: Seq<Memory>,
) -> bool {
    &&& zs.len() == layers.len() + 1
    &&& s0.len() == layers.len()
    &&& s1.len() == layers.len()
    &&& forall|k: int|
        #![trigger s1[k]]
        0 <= k < layers.len() ==> runs(layer_step(layers[k], dt), zs[k], s0[k], s1[k], zs[k + 1])
}

/// The layers take the tokens `xs` to `outs`, and their memories from `s0` to `s1`.
pub open spec fn cascades(
    layers: Seq<Layer>,
    dt: DType,
    xs: Matrix,
    s0: Seq<Memory>,
    s1: Seq<Memory>,
    outs: Matrix,
) -> bool {
    exists|zs: Seq<Matrix>|
        #[trigger] cascade(layers, dt, zs, s0, s1) && zs.first() == xs && zs.last() == outs
}

/// `mems` are what the layers remember while the tokens `xs` go through all of them, one token
/// after the other.
pub open spec fn walk(
    layers: Seq<Layer>,
    dt: DType,
    xs: Matrix,
    mems: Seq<Seq<Memory>>,
    outs: Matrix,
) -> bool {
    &&& mems.len() == xs.len() + 1
    &&& outs.len() == xs.len()
    &&& mems[0].len() == layers.len()
    &&& forall|t: int|
        #![trigger outs[t]]
        0 <= t < xs.len() ==> descends(layers, dt, xs[t], mems[t], mems[t + 1], outs[t])
}

/// Token by token, the layers take `xs` to `outs`, and their memories from `s0` to `s1`.
pub open spec fn walks(
    layers: Seq<Layer>,
    dt: DType,
    xs: Matrix,
    s0: Seq<Memory>,
    s1: Seq<Memory>,
    outs: Matrix,
) -> bool {
    exists|mems: Seq<Seq<Memory>>|
        #[trigger] walk(layers, dt, xs, mems, outs) && mems.first() == s0 && mems.last() == s1
}

/// The output layer gives the logits `logits` for the token `x`.
pub open spec fn heads(net: Net, dt: DType, x: Seq<u64>, logits: Seq<u64>) -> bool {
    exists|n: Seq<u64>|
        {
            &&& #[trigger] rms_gives(dt, x, net.norm, NORM_EPS@, n)
            &&& projects(dt, net.table, None, n, logits)
        }
}

/// From nothing, the tokens `ids` lead to the memories `mem`, and the logits for the last of them
/// are `logits`.
pub open spec fn prefills(
    net: Net,
    dt: DType,
    kind: DType,
    ids: Seq<u64>,
    mem: Seq<Memory>,
    logits: Seq<u64>,
) -> bool {
    &&& ids.len() > 0
    &&& exists|outs: Matrix|
        {
            &&& #[trigger] cascades(
                net.layers,
                dt,
                embeddings(net, kind, ids),
                blanks(net),
                mem,
                outs,
            )
            &&& heads(net, dt, outs.last(), logits)
        }
}

/// The token `id` leads from the memories `s0` to the memories `s1`, and its logits are `logits`.
pub open spec fn generates(
    net: Net,
    dt: DType,
    kind: DType,
    id: u64,
    s0: Seq<Memory>,
    s1: Seq<Memory>,
    logits: Seq<u64>,
) -> bool {
    exists|out: Seq<u64>|
        {
            &&& #[trigger] descends(net.layers, dt, embedded(net, kind, id), s0, s1, out)
            &&& heads(net, dt, out, logits)
        }
}

/// From nothing, the logits for each of the tokens `ids` are `logits`.
pub open spec fn completes(
    net: Net,
    dt: DType,
    kind: DType,
    ids: Seq<u64>,
    logits: Matrix,
) -> bool {
    exists|mem: Seq<Memory>, outs: Matrix|
        {
            &&& #[trigger] cascades(
                net.layers,
                dt,
                embeddings(net, kind, ids),
                blanks(net),
                mem,
                outs,
            )
            &&& logits.len() == ids.len()
            &&& outs.len() == ids.len()
            &&& forall|t: int|
                0 <= t < ids.len() ==> heads(net, dt, outs[t], #[trigger] logits[t])
        }
}

/// A sequence and one more token make a longer sequence.
pub proof fn law_runs_append(
    step: Step,
    xs: Matrix,
    s0: Memory,
    s1: Memory,
    outs: Matrix,
    x: Seq<u64>,
    s2: Memory,
    out: Seq<u64>,
)
    requires
        runs(step, xs, s0, s1, outs),
        step(x, s1, s2, out),
    ensures
        runs(step, xs.push(x), s0, s2, outs.push(out)),
{
    let ms = choose|ms: Seq<Memory>| #[trigger]
        traces(step, xs, ms, outs) && ms.first() == s0 && ms.last() == s1;
    let ns = ms.push(s2);
    let (xs1, outs1) = (xs.push(x), outs.push(out));
    assert forall|t: int| #![trigger outs1[t]] 0 <= t < xs1.len() implies step(
        xs1[t],
        ns[t],
        ns[t + 1],
        outs1[t],
    ) by {
        if t < xs.len() {
            assert(outs1[t] == outs[t]);
        }
    }
    assert(traces(step, xs1, ns, outs1));
}

/// A sequence begins with every shorter one: what comes later changes nothing before it.
pub proof fn law_runs_prefix(step: Step, xs: Matrix, s0: Memory, s: Memory, outs: Matrix, n: int)
    requires
        runs(step, xs, s0, s, outs),
        0 <= n <= xs.len(),
    ensures
        exists|m: Memory| #[trigger] runs(step, xs.take(n), s0, m, outs.take(n)),
{
    let ms = choose|ms: Seq<Memory>| #[trigger]
        traces(step, xs, ms, outs) && ms.first() == s0 && ms.last() == s;
    let ns = ms.take(n + 1);
    let outs1 = outs.take(n);
    assert forall|t: int| #![trigger outs1[t]] 0 <= t < n implies step(
        xs.take(n)[t],
        ns[t],
        ns[t + 1],
        outs1[t],
    ) by {
        assert(outs1[t] == outs[t]);
    }
    assert(traces(step, xs.take(n), ns, outs1));
    assert(runs(step, xs.take(n), s0, ns.last(), outs1));
}

/// A sequence can be interrupted and gone on with from what is remembered.
pub proof fn law_runs_join(
    step: Step,
    xs: Matrix,
    s0: Memory,
    s1: Memory,
    outs: Matrix,
    ys: Matrix,
    s2: Memory,
    more: Matrix,
)
    requires
        runs(step, xs, s0, s1, outs),
        runs(step, ys, s1, s2, more),
    ensures
        runs(step, xs + ys, s0, s2, outs + more),
{
    let ms = choose|ms: Seq<Memory>| #[trigger]
        traces(step, xs, ms, outs) && ms.first() == s0 && ms.last() == s1;
    let ns = choose|ns: Seq<Memory>| #[trigger]
        traces(step, ys, ns, more) && ns.first() == s1 && ns.last() == s2;
    let all = ms + ns.skip(1);
    let (xs1, outs1) = (xs + ys, outs + more);
    assert forall|t: int| #![trigger outs1[t]] 0 <= t < xs1.len() implies step(
        xs1[t],
        all[t],
        all[t + 1],
        outs1[t],
    ) by {
        if t < xs.len() {
            assert(outs1[t] == outs[t]);
        } else {
            let u = t - xs.len();
            assert(outs1[t] == more[u]);
            assert(all[t] == ns[u]);
            assert(all[t + 1] == ns[u + 1]);
        }
    }
    assert(all.last() == s2) by {
        if ys.len() == 0 {
            assert(all =~= ms);
        }
    }
    assert(traces(step, xs1, all, outs1));
}

/// The outputs of a sequence are as many as its tokens.
proof fn lemma_cascade_lengths(
    layers: Seq<Layer>,
    dt: DType,
    zs: Seq<Matrix>,
    s0: Seq<Memory>,
    s1: Seq<Memory>,
    k: int,
)
    requires
        cascade(layers, dt, zs, s0, s1),
        0 <= k <= layers.len(),
    ensures
        zs[k].len() == zs[0].len(),
    decreases k,
{
    if k > 0 {
        lemma_cascade_lengths(layers, dt, zs, s0, s1, k - 1);
        let m = s1[k - 1];
        assert(runs(layer_step(layers[k - 1], dt), zs[k - 1], s0[k - 1], s1[k - 1], zs[k]));
    }
}

/// Layer by layer over a sequence, and then all layers for one more token: that is layer by layer
/// over the longer sequence.
pub proof fn law_cascade_append(
    layers: Seq<Layer>,
    dt: DType,
    xs: Matrix,
    s0: Seq<Memory>,
    s1: Seq<Memory>,
    outs: Matrix,
    x: Seq<u64>,
    s2: Seq<Memory>,
    out: Seq<u64>,
)
    requires
        cascades(layers, dt, xs, s0, s1, outs),
        descends(layers, dt, x, s1, s2, out),
    ensures
        cascades(layers, dt, xs.push(x), s0, s2, outs.push(out)),
{
    let zs = choose|zs: Seq<Matrix>| #[trigger]
        cascade(layers, dt, zs, s0, s1) && zs.first() == xs && zs.last() == outs;
    let vs = choose|vs: Matrix| #[trigger]
        descent(layers, dt, vs, s1, s2) && vs.first() == x && vs.last() == out;
    let ws = Seq::new(zs.len(), |k: int| zs[k].push(vs[k]));
    assert forall|k: int| #![trigger s2[k]] 0 <= k < layers.len() implies runs(
        layer_step(layers[k], dt),
        ws[k],
        s0[k],
        s2[k],
        ws[k + 1],
    ) by {
        let m = s1[k];
        assert(transforms(layers[k], dt, vs[k], s1[k], s2[k], vs[k + 1]));
        law_runs_append(
            layer_step(layers[k], dt),
            zs[k],
            s0[k],
            s1[k],
            zs[k + 1],
            vs[k],
            s2[k],
            vs[k + 1],
        );
    }
    assert(cascade(layers, dt, ws, s0, s2));
}

/// Layer by layer, nothing becomes of no tokens.
proof fn lemma_cascade_empty(layers: Seq<Layer>, dt: DType, s: Seq<Memory>)
    requires
        s.len() == layers.len(),
    ensures
        cascades(layers, dt, Seq::empty(), s, s, Seq::empty()),
{
    let none: Matrix = Seq::empty();
    let zs = Seq::new(layers.len() + 1, |k: int| none);
    assert forall|k: int| #![trigger s[k]] 0 <= k < layers.len() implies runs(
        layer_step(layers[k], dt),
        none,
        s[k],
        s[k],
        none,
    ) by {
        let ms = seq![s[k]];
        assert(traces(layer_step(layers[k], dt), none, ms, none));
    }
    assert(cascade(layers, dt, zs, s, s));
}

/// Token by token is layer by layer: what tokens going one after the other through all layers may
/// come to, they may also come to when each layer takes the whole sequence at once.
pub proof fn law_walk_is_cascade(
    layers: Seq<Layer>,
    dt: DType,
    xs: Matrix,
    s0: Seq<Memory>,
    s1: Seq<Memory>,
    outs: Matrix,
)
    requires
        walks(layers, dt, xs, s0, s1, outs),
    ensures
        cascades(layers, dt, xs, s0, s1, outs),
    decreases xs.len(),
{
    let mems = choose|mems: Seq<Seq<Memory>>| #[trigger]
        walk(layers, dt, xs, mems, outs) && mems.first() == s0 && mems.last() == s1;
    if xs.len() == 0 {
        lemma_cascade_empty(layers, dt, s0);
        assert(xs =~= Seq::<Seq<u64>>::empty());
        assert(outs =~= Seq::<Seq<u64>>::empty());
    } else {
        let n = xs.len() - 1;
        let (xs0, outs0, mems0) = (xs.drop_last(), outs.drop_last(), mems.drop_last());
        assert forall|t: int| #![trigger outs0[t]] 0 <= t < n implies descends(
            layers,
            dt,
            xs0[t],
            mems0[t],
            mems0[t + 1],
            outs0[t],
        ) by {
            assert(outs0[t] == outs[t]);
        }
        assert(walk(layers, dt, xs0, mems0, outs0));
        law_walk_is_cascade(layers, dt, xs0, s0, mems0.last(), outs0);
        let last = outs[n];
        law_cascade_append(layers, dt, xs0, s0, mems[n], outs0, xs[n], s1, outs[n]);
        assert(xs0.push(xs[n]) =~= xs);
        assert(outs0.push(outs[n]) =~= outs);
    }
}

/// Layer by layer is token by token: what a sequence may come to when each layer takes it whole,
/// its tokens may also come to when they go one after the other through all layers.
pub proof fn law_cascade_is_walk(
    layers: Seq<Layer>,
    dt: DType,
    xs: Matrix,
    s0: Seq<Memory>,
    s1: Seq<Memory>,
    outs: Matrix,
)
    requires
        cascades(layers, dt, xs, s0, s1, outs),
    ensures
        walks(layers, dt, xs, s0, s1, outs),
{
    let zs = choose|zs: Seq<Matrix>| #[trigger]
        cascade(layers, dt, zs, s0, s1) && zs.first() == xs && zs.last() == outs;
    lemma_cascade_lengths(layers, dt, zs, s0, s1, layers.len() as int);
    let tracks = Seq::new(
        layers.len(),
        |k: int|
            choose|ms: Seq<Memory>| #[trigger]
                traces(layer_step(layers[k], dt), zs[k], ms, zs[k + 1]) && ms.first() == s0[k]
                    && ms.last() == s1[k],
    );
    assert forall|k: int| #![trigger tracks[k]] 0 <= k < layers.len() implies {
        &&& traces(layer_step(layers[k], dt), zs[k], tracks[k], zs[k + 1])
        &&& tracks[k].first() == s0[k]
        &&& tracks[k].last() == s1[k]
        &&& zs[k].len() == xs.len()
        &&& zs[k + 1].len() == xs.len()
    } by {
        lemma_cascade_lengths(layers, dt, zs, s0, s1, k);
        let at_k = s1[k];
    }
    let mems = Seq::new(
        xs.len() + 1,
        |t: int| Seq::new(layers.len(), |k: int| tracks[k][t]),
    );
    assert forall|t: int| #![trigger outs[t]] 0 <= t < xs.len() implies descends(
        layers,
        dt,
        xs[t],
        mems[t],
        mems[t + 1],
        outs[t],
    ) by {
        let vs = Seq::new(layers.len() + 1, |k: int| zs[k][t]);
        assert forall|k: int| #![trigger mems[t + 1][k]] 0 <= k < layers.len() implies transforms(
            layers[k],
            dt,
            vs[k],
            mems[t][k],
            mems[t + 1][k],
            vs[k + 1],
        ) by {
            let track = tracks[k];
            let z = zs[k + 1][t];
            assert(layer_step(layers[k], dt)(zs[k][t], track[t], track[t + 1], z));
        }
        assert(descent(layers, dt, vs, mems[t], mems[t + 1]));
    }
    assert(mems.first() =~= s0) by {
        assert forall|k: int| 0 <= k < layers.len() implies mems[0][k] == s0[k] by {
            let track = tracks[k];
        }
    }
    assert(mems.last() =~= s1) by {
        assert forall|k: int| 0 <= k < layers.len() implies mems[xs.len() as int][k] == s1[k] by {
            let track = tracks[k];
        }
    }
    assert(walk(layers, dt, xs, mems, outs));
}

/// Processing a prompt and then generating a token is processing the longer prompt: it leads to the
/// same memories, and to logits that the longer prompt may give.
pub proof fn law_generate_extends_prefill(
    net: Net,
    dt: DType,
    kind: DType,
    ids: Seq<u64>,
    s1: Seq<Memory>,
    before: Seq<u64>,
    id: u64,
    s2: Seq<Memory>,
    logits: Seq<u64>,
)
    requires
        prefills(net, dt, kind, ids, s1, before),
        generates(net, dt, kind, id, s1, s2, logits),
    ensures
        prefills(net, dt, kind, ids.push(id), s2, logits),
{
    let xs = embeddings(net, kind, ids);
    let x = embedded(net, kind, id);
    let outs = choose|outs: Matrix|
        {
            &&& #[trigger] cascades(net.layers, dt, xs, blanks(net), s1, outs)
            &&& heads(net, dt, outs.last(), before)
        };
    let out = choose|out: Seq<u64>|
        {
            &&& #[trigger] descends(net.layers, dt, x, s1, s2, out)
            &&& heads(net, dt, out, logits)
        };
    law_cascade_append(net.layers, dt, xs, blanks(net), s1, outs, x, s2, out);
    assert(embeddings(net, kind, ids.push(id)) =~= xs.push(x));
    assert(outs.push(out).last() == out);
}

/// Generating a token from nothing is processing the prompt that holds it alone.
pub proof fn law_generate_from_blank(
    net: Net,
    dt: DType,
    kind: DType,
    id: u64,
    s: Seq<Memory>,
    logits: Seq<u64>,
)
    requires
        generates(net, dt, kind, id, blanks(net), s, logits),
    ensures
        prefills(net, dt, kind, seq![id], s, logits),
{
    let x = embedded(net, kind, id);
    let none: Matrix = Seq::empty();
    let out = choose|out: Seq<u64>|
        {
            &&& #[trigger] descends(net.layers, dt, x, blanks(net), s, out)
            &&& heads(net, dt, out, logits)
        };
    lemma_cascade_empty(net.layers, dt, blanks(net));
    law_cascade_append(net.layers, dt, none, blanks(net), blanks(net), none, x, s, out);
    assert(embeddings(net, kind, seq![id]) =~= none.push(x));
    assert(none.push(out).last() == out);
}

/// The logits that a whole prompt gives for its last token are those that processing it gives.
pub proof fn law_complete_ends_in_prefill(
    net: Net,
    dt: DType,
    kind: DType,
    ids: Seq<u64>,
    logits: Matrix,
)
    requires
        completes(net, dt, kind, ids, logits),
        ids.len() > 0,
    ensures
        exists|mem: Seq<Memory>| #[trigger] prefills(net, dt, kind, ids, mem, logits.last()),
{
    let xs = embeddings(net, kind, ids);
    let (mem, outs) = choose|mem: Seq<Memory>, outs: Matrix|
        {
            &&& #[trigger] cascades(net.layers, dt, xs, blanks(net), mem, outs)
            &&& logits.len() == ids.len()
            &&& outs.len() == ids.len()
            &&& forall|t: int|
                0 <= t < ids.len() ==> heads(net, dt, outs[t], #[trigger] logits[t])
        };
    assert(heads(net, dt, outs.last(), logits[ids.len() - 1]));
    assert(prefills(net, dt, kind, ids, mem, logits.last()));
}

/// Over a sequence each layer has been through every shorter sequence on its way.
pub proof fn law_cascade_prefix(
    layers: Seq<Layer>,
    dt: DType,
    xs: Matrix,
    s0: Seq<Memory>,
    s: Seq<Memory>,
    outs: Matrix,
    n: int,
)
    requires
        cascades(layers, dt, xs, s0, s, outs),
        0 <= n <= xs.len(),
    ensures
        outs.len() == xs.len(),
        exists|m: Seq<Memory>| #[trigger] cascades(layers, dt, xs.take(n), s0, m, outs.take(n)),
{
    let zs = choose|zs: Seq<Matrix>| #[trigger]
        cascade(layers, dt, zs, s0, s) && zs.first() == xs && zs.last() == outs;
    lemma_cascade_lengths(layers, dt, zs, s0, s, layers.len() as int);
    let ws = Seq::new(zs.len(), |k: int| zs[k].take(n));
    let m = Seq::new(
        layers.len(),
        |k: int|
            choose|m: Memory| #[trigger]
                runs(layer_step(layers[k], dt), ws[k], s0[k], m, ws[k + 1]),
    );
    assert forall|k: int| #![trigger m[k]] 0 <= k < layers.len() implies runs(
        layer_step(layers[k], dt),
        ws[k],
        s0[k],
        m[k],
        ws[k + 1],
    ) by {
        lemma_cascade_lengths(layers, dt, zs, s0, s, k);
        let at_k = s[k];
        law_runs_prefix(layer_step(layers[k], dt), zs[k], s0[k], s[k], zs[k + 1], n);
    }
    assert(cascade(layers, dt, ws, s0, m));
    assert(cascades(layers, dt, xs.take(n), s0, m, outs.take(n)));
}

/// The logits of a token do not depend on what follows it: the first of them are those of the first
/// tokens.
pub proof fn law_complete_is_causal(
    net: Net,
    dt: DType,
    kind: DType,
    ids: Seq<u64>,
    logits: Matrix,
    n: int,
)
    requires
        completes(net, dt, kind, ids, logits),
        0 <= n <= ids.len(),
    ensures
        completes(net, dt, kind, ids.take(n), logits.take(n)),
{
    let xs = embeddings(net, kind, ids);
    let (mem, outs) = choose|mem: Seq<Memory>, outs: Matrix|
        {
            &&& #[trigger] cascades(net.layers, dt, xs, blanks(net), mem, outs)
            &&& logits.len() == ids.len()
            &&& outs.len() == ids.len()
            &&& forall|t: int|
                0 <= t < ids.len() ==> heads(net, dt, outs[t], #[trigger] logits[t])
        };
    law_cascade_prefix(net.layers, dt, xs, blanks(net), mem, outs, n);
    let short = logits.take(n);
    let m = choose|m: Seq<Memory>| #[trigger]
        cascades(net.layers, dt, xs.take(n), blanks(net), m, outs.take(n));
    assert(embeddings(net, kind, ids.take(n)) =~= xs.take(n));
    assert forall|t: int| 0 <= t < n implies heads(net, dt, outs.take(n)[t], #[trigger] short[t]) by {
        assert(short[t] == logits[t]);
    }
}

/// The logits of each token of a prompt are those that processing the prompt up to it gives.
pub proof fn law_complete_is_prefill_of_prefixes(
    net: Net,
    dt: DType,
    kind: DType,
    ids: Seq<u64>,
    logits: Matrix,
    t: int,
)
    requires
        completes(net, dt, kind, ids, logits),
        0 <= t < ids.len(),
    ensures
        exists|mem: Seq<Memory>| #[trigger]
            prefills(net, dt, kind, ids.take(t + 1), mem, logits[t]),
{
    law_complete_is_causal(net, dt, kind, ids, logits, t + 1);
    law_complete_ends_in_prefill(net, dt, kind, ids.take(t + 1), logits.take(t + 1));
    assert(logits.take(t + 1).last() == logits[t]);
}

} // verus!
