//! Where one call succeeds, others do: what the calls ask of the shapes and types of their tensors,
//! compared.
use crate::array::{group_index, ix2, shape2, shape3, within};
use crate::block::{sequence_goes, step_goes, MambaBlock};
use crate::layers::{id_fits, ids_fit, rms_fits};
use crate::model::{
    all_goes, generate_goes, layer_passes, layer_steps, norm_ready, prefill_goes, state_shaped,
    Model,
};
use crate::residual::{layer_sequence_goes, layer_step_goes, ResidualBlock};
use crate::scan::{law_plain_scan, scan_plain, scan_shaped, scan_typed};
use crate::state::State;
use crate::tensor::{at, contiguous, dims, dtype_of};
use candle_core::Tensor;
use vstd::prelude::*;

verus! {

broadcast use group_index;

/// `t` has the shape and the element type of the first `n` positions of the sequences `s`.
pub open spec fn cut_like(t: Tensor, s: Tensor, n: nat) -> bool {
    dims(t) == shape3(dims(s)[0], n, dims(s)[2]) && dtype_of(t) == dtype_of(s)
}

/// Where a scan can take sequences, it can take the beginnings of them.
pub proof fn law_scan_takes_prefixes(
    u: Tensor,
    delta: Tensor,
    a: Tensor,
    b: Tensor,
    c: Tensor,
    d: Tensor,
    n: nat,
    u1: Tensor,
    delta1: Tensor,
    b1: Tensor,
    c1: Tensor,
)
    requires
        scan_plain(u, delta, a, b, c, d),
        scan_typed(u, delta, a, b, c, d),
        0 < n <= dims(u)[1],
        cut_like(u1, u, n),
        cut_like(delta1, delta, n),
        cut_like(b1, b, n),
        cut_like(c1, c, n),
    ensures
        scan_plain(u1, delta1, a, b1, c1, d),
        scan_shaped(u1, delta1, a, b1, c1, d),
        scan_typed(u1, delta1, a, b1, c1, d),
{
    law_plain_scan(u, delta, a, b, c, d);
    law_plain_scan(u1, delta1, a, b1, c1, d);
}

/// Where a scan can take inputs, it can take others of the same shape and type, such as their sum
/// with other inputs.
pub proof fn law_scan_takes_inputs_alike(
    u: Tensor,
    delta: Tensor,
    a: Tensor,
    b: Tensor,
    c: Tensor,
    d: Tensor,
    v: Tensor,
)
    requires
        scan_shaped(u, delta, a, b, c, d),
        scan_typed(u, delta, a, b, c, d),
        dims(v) == dims(u),
        dtype_of(v) == dtype_of(u),
    ensures
        scan_shaped(v, delta, a, b, c, d),
        scan_typed(v, delta, a, b, c, d),
{
}

/// `h` and `taps` are like what the block `b` leaves after tokens like `x`.
pub open spec fn left_for(b: MambaBlock, x: Tensor, h: Tensor, taps: Tensor) -> bool {
    state_shaped(h, taps, dims(x)[0], b.inner(), dtype_of(x))
}

/// Where a block can take single tokens, it can take sequences of such tokens in one pass, if its
/// skip connection is of their type. A step converts the skip connection, and a pass does not.
pub proof fn law_pass_goes_as_steps(
    b: MambaBlock,
    x: Tensor,
    h: Tensor,
    conv_state: Tensor,
    xs: Tensor,
)
    requires
        step_goes(b.weights(), x, h, conv_state),
        dims(x)[0] > 0,
        dtype_of(b.weights().d) == dtype_of(x),
        dims(xs).len() == 3,
        dims(xs)[0] > 0,
        dims(xs)[1] > 0,
        dims(xs)[2] == dims(x)[1],
        dtype_of(xs) == dtype_of(x),
    ensures
        sequence_goes(b.weights(), xs),
{
}

/// Where a block can take sequences in one pass, it can take their tokens one by one, and any tokens
/// like them after the pass.
pub proof fn law_steps_go_as_pass(b: MambaBlock, xs: Tensor, x: Tensor, h: Tensor, taps: Tensor)
    requires
        b.shaped(),
        sequence_goes(b.weights(), xs),
        dims(x) == shape2(dims(xs)[0], dims(xs)[2]),
        dtype_of(x) == dtype_of(xs),
        left_for(b, x, h, taps),
    ensures
        step_goes(b.weights(), x, h, taps),
{
}

/// Where a layer can normalise sequences, and its block can take what comes of it, the layer can take
/// the sequences.
pub proof fn law_layer_passes_as_block(l: ResidualBlock, xs: Tensor, normed: Tensor)
    requires
        rms_fits(xs, l.norm()),
        dims(xs).len() == 3,
        dims(xs)[2] == l.mixer().model(),
        dims(normed) == dims(xs),
        dtype_of(normed) == dtype_of(xs),
        sequence_goes(l.mixer().weights(), normed),
    ensures
        layer_sequence_goes(l, xs),
{
}

/// Where a layer can normalise tokens, and its block can take what comes of it, the layer can take
/// the tokens.
pub proof fn law_layer_steps_as_block(
    l: ResidualBlock,
    x: Tensor,
    h: Tensor,
    conv_state: Tensor,
    normed: Tensor,
)
    requires
        rms_fits(x, l.norm()),
        dims(x).len() == 2,
        dims(x)[1] == l.mixer().model(),
        dims(normed) == dims(x),
        dtype_of(normed) == dtype_of(x),
        step_goes(l.mixer().weights(), normed, h, conv_state),
    ensures
        layer_step_goes(l, x, h, conv_state),
{
}

/// Where a layer can take sequences in one pass, it can take their tokens one by one, and any token
/// like them after the pass. Tokens in row-major order are normalised in another way than sequences
/// that are in another order.
pub proof fn law_layer_steps_as_pass(
    l: ResidualBlock,
    xs: Tensor,
    x: Tensor,
    h: Tensor,
    taps: Tensor,
)
    requires
        l.shaped(),
        layer_sequence_goes(l, xs),
        dims(x) == shape2(dims(xs)[0], dims(xs)[2]),
        dtype_of(x) == dtype_of(xs),
        contiguous(x) ==> contiguous(xs),
        left_for(l.mixer(), x, h, taps),
    ensures
        layer_step_goes(l, x, h, taps),
{
    law_steps_go_as_pass(l.mixer(), xs, x, h, taps);
    if !contiguous(xs) {
        assert(dims(xs) =~= shape3(dims(xs)[0], dims(xs)[1], dims(xs)[2]));
    }
}

/// Where a layer can take single tokens, it can take sequences of such tokens in one pass, if its skip
/// connection is of their type.
pub proof fn law_layer_passes_as_steps(
    l: ResidualBlock,
    x: Tensor,
    h: Tensor,
    conv_state: Tensor,
    xs: Tensor,
)
    requires
        layer_step_goes(l, x, h, conv_state),
        dims(x)[0] > 0,
        dims(x)[1] > 0,
        dtype_of(l.mixer().weights().d) == dtype_of(x),
        dims(xs).len() == 3,
        dims(xs)[0] > 0,
        dims(xs)[1] > 0,
        dims(xs)[2] == dims(x)[1],
        dtype_of(xs) == dtype_of(x),
        contiguous(xs) ==> contiguous(x),
    ensures
        layer_sequence_goes(l, xs),
{
    law_pass_goes_as_steps(l.mixer(), x, h, conv_state, xs);
    assert(dims(x) =~= shape2(dims(x)[0], dims(x)[1]));
}

/// Where all logits of prompts can be computed, the prompts can be prefilled, and so can the
/// beginnings of them, of which all logits can be computed too.
pub proof fn law_prefill_goes_as_all(m: Model, ids: Tensor, ids1: Tensor)
    requires
        all_goes(m, ids),
        dims(ids1).len() == 2,
        dims(ids1)[0] == dims(ids)[0],
        0 < dims(ids1)[1] <= dims(ids)[1],
        dtype_of(ids1) == dtype_of(ids),
        forall|i: int, t: int|
            0 <= i < dims(ids1)[0] && 0 <= t < dims(ids1)[1] ==> #[trigger] at(ids1, ix2(i, t))
                == at(ids, ix2(i, t)),
    ensures
        all_goes(m, ids1),
        prefill_goes(m, ids1),
        prefill_goes(m, ids),
{
    assert(ids_fit(ids1, m.vocab())) by {
        assert forall|i: Seq<int>| within(i, dims(ids1)) implies id_fits(
            dtype_of(ids1),
            #[trigger] at(ids1, i),
            m.vocab(),
        ) by {
            let j = ix2(i[0], i[1]);
            assert(0 <= i[0] < dims(ids1)[0] && 0 <= i[1] < dims(ids1)[1]);
            assert(i =~= j);
            assert(within(j, dims(ids)));
            assert(at(ids1, j) == at(ids, j));
            assert(id_fits(dtype_of(ids), at(ids, j), m.vocab()));
        }
    }
}

/// Where prompts can be prefilled, tokens can be generated after the state that is left, if the
/// factors of the last normalisation lie in row-major order. Several prompts of several tokens can be
/// prefilled without that.
pub proof fn law_generate_goes_after_prefill(m: Model, prompts: Tensor, ids: Tensor, state: State)
    requires
        prefill_goes(m, prompts),
        norm_ready(m.norm(), dtype_of(m.table())),
        dims(ids).len() == 1,
        dims(ids)[0] == dims(prompts)[0],
        ids_fit(ids, m.vocab()),
        forall|k: int|
            #![trigger state.hs@[k]]
            #![trigger state.conv_states@[k]]
            0 <= k < m.layers().len() ==> state_shaped(
                state.hs@[k],
                state.conv_states@[k],
                dims(ids)[0],
                m.inner(),
                dtype_of(m.table()),
            ),
    ensures
        generate_goes(m, ids, state),
{
    let dt = dtype_of(m.table());
    assert forall|k: int| 0 <= k < m.layers().len() implies layer_steps(
        #[trigger] m.layers()[k],
        dt,
        dims(ids)[0],
    ) by {
        assert(layer_passes(m.layers()[k], dt));
    }
}

/// Where tokens can be generated, prompts can be prefilled and all logits of them be computed, if the
/// skip connections are of the type of the embeddings.
pub proof fn law_prompts_go_as_tokens(m: Model, ids: Tensor, state: State, prompts: Tensor)
    requires
        generate_goes(m, ids, state),
        dims(ids)[0] > 0,
        forall|k: int|
            0 <= k < m.layers().len() ==> dtype_of((#[trigger] m.layers()[k]).mixer().weights().d)
                == dtype_of(m.table()),
        dims(prompts).len() == 2,
        dims(prompts)[0] > 0,
        dims(prompts)[1] > 0,
        ids_fit(prompts, m.vocab()),
    ensures
        all_goes(m, prompts),
        prefill_goes(m, prompts),
{
    let dt = dtype_of(m.table());
    assert forall|k: int| 0 <= k < m.layers().len() implies layer_passes(
        #[trigger] m.layers()[k],
        dt,
    ) by {
        assert(layer_steps(m.layers()[k], dt, dims(ids)[0]));
    }
}

/// A state that tokens were generated after can be gone on with in the same way.
pub proof fn law_generate_goes_on(m: Model, ids: Tensor, before: State, next: Tensor, after: State)
    requires
        generate_goes(m, ids, before),
        dims(next) == dims(ids),
        ids_fit(next, m.vocab()),
        forall|k: int|
            #![trigger after.hs@[k]]
            #![trigger after.conv_states@[k]]
            0 <= k < m.layers().len() ==> state_shaped(
                after.hs@[k],
                after.conv_states@[k],
                dims(ids)[0],
                m.inner(),
                dtype_of(m.table()),
            ),
    ensures
        generate_goes(m, next, after),
{
}

} // verus!
