//! Calls as they are documented are taken and succeed, and others are not.
use crate::array::{
    fits, group_index, ix1, ix3, lemma_volume, shape1, shape2, shape3, shape4,
};
use crate::block::{
    held_by_cpu, memory, sequence_goes, sequence_room, step_goes, step_room, MambaBlock, Weights,
};
use crate::config::{
    block_room, law_round_up_smallest, model_room, rank_for, rows_for, Config,
};
use crate::layers::{ids_fit, is_norm_float};
use crate::model::{
    advanced, all_goes, all_room, generate_goes, halted, layer_on_cpu, model_on_cpu, net,
    prefill_goes, prefill_room, state_on_cpu, state_shaped, token_room, Model,
};
use crate::net::{embedded, leads};
use crate::residual::{
    layer_sequence_goes, layer_sequence_room, layer_step_goes, layer_step_room, ResidualBlock,
};
use crate::rows::lemma_stretched;
use crate::scan::{law_plain_scan, scan_plain, scan_room, scan_shaped, scan_typed};
use crate::state::{memories, state_room, zeroed, State};
use crate::tensor::{
    at, contiguous, device_of, dims, dtype_of, is_float, is_integer, is_matrix_float, is_storable,
    on_cpu,
};
use candle_core::{DType, Device, Tensor};
use vstd::prelude::*;

verus! {

broadcast use group_index;

/// The rank of the step sizes is the smallest number that is not less than a sixteenth of the width.
pub proof fn law_rank_smallest(d_model: int, r: int)
    requires
        d_model >= 0,
    ensures
        16 * rank_for(d_model) >= d_model,
        16 * r >= d_model ==> r >= rank_for(d_model),
{
}

/// The table has as many rows as the smallest multiple of the padding that is not less than the
/// number of tokens.
pub proof fn law_rows_smallest(cfg: Config, k: int)
    requires
        cfg.pad_vocab_size_multiple > 0,
    ensures
        rows_for(cfg) >= cfg.vocab_size,
        rows_for(cfg) % (cfg.pad_vocab_size_multiple as int) == 0,
        k * cfg.pad_vocab_size_multiple >= cfg.vocab_size ==> k * cfg.pad_vocab_size_multiple
            >= rows_for(cfg),
{
    law_round_up_smallest(cfg.vocab_size as int, cfg.pad_vocab_size_multiple as int, k);
}

/// An array can be allocated where its elements, of eight bytes each, do not exceed what one
/// allocation may hold. A size of zero counts as one.
pub proof fn law_what_fits(a: nat, b: nat, c: nat, d: nat)
    ensures
        ({
            let (p, q, r, s): (nat, nat, nat, nat) = (
                if a == 0 {
                    1
                } else {
                    a
                },
                if b == 0 {
                    1
                } else {
                    b
                },
                if c == 0 {
                    1
                } else {
                    c
                },
                if d == 0 {
                    1
                } else {
                    d
                },
            );
            &&& fits(shape1(a)) <==> p * 8 <= isize::MAX
            &&& fits(shape2(a, b)) <==> p * q * 8 <= isize::MAX
            &&& fits(shape3(a, b, c)) <==> p * q * r * 8 <= isize::MAX
            &&& fits(shape4(a, b, c, d)) <==> p * q * r * s * 8 <= isize::MAX
        }),
{
    lemma_volume(a, b, c, d);
}

/// Which element types can be multiplied as matrices, computed with and stored.
pub proof fn law_types(dt: DType)
    ensures
        is_matrix_float(dt) <==> dt is F16 || dt is F32 || dt is F64,
        is_norm_float(dt) <==> dt is BF16 || dt is F16 || dt is F32,
        is_float(dt) <==> dt is F8E4M3 || dt is BF16 || dt is F16 || dt is F32 || dt is F64,
        is_integer(dt) <==> dt is U8 || dt is U32 || dt is I16 || dt is I32 || dt is I64,
        is_storable(dt) <==> is_float(dt) || is_integer(dt),
{
}

/// A model can be loaded where its table and the matrices of its blocks can be allocated.
pub proof fn law_room_of_model(cfg: Config, d_model: nat)
    requires
        cfg.pad_vocab_size_multiple > 0,
    ensures
        block_room(d_model) <==> d_model > 0 && fits(shape2(2 * d_model, 34 * d_model)),
        model_room(cfg) <==> {
            &&& rows_for(cfg) <= usize::MAX
            &&& fits(shape2(rows_for(cfg) as nat, cfg.d_model as nat))
            &&& cfg.n_layer > 0 ==> cfg.d_model > 0 && fits(
                shape2((2 * cfg.d_model) as nat, (34 * cfg.d_model) as nat),
            )
        },
{
    let width = cfg.d_model as nat;
    law_round_up_smallest(cfg.vocab_size as int, cfg.pad_vocab_size_multiple as int, 0);
    lemma_volume(2 * d_model, 34 * d_model, 1, 1);
    lemma_volume(rows_for(cfg) as nat, width, 1, 1);
    lemma_volume(2 * width, 34 * width, 1, 1);
    assert(34 * d_model == 17 * (2 * d_model));
    assert(34 * width == 17 * (2 * width));
}

/// A state can be made where its tensors can be allocated.
pub proof fn law_room_of_state(items: nat, cfg: Config)
    ensures
        state_room(items, cfg) <==> {
            &&& 2 * cfg.d_model <= usize::MAX
            &&& cfg.n_layer > 0 ==> fits(shape3(items, (2 * cfg.d_model) as nat, 16))
        },
{
    lemma_volume(items, (2 * cfg.d_model) as nat, 16, 1);
}

/// The tensors that a new state holds for a layer have the documented shapes, the type that is asked
/// for, and lie on the device that is asked for.
pub proof fn law_shapes_of_new_state(
    state: State,
    k: int,
    items: nat,
    inner: nat,
    dt: DType,
    dev: Device,
)
    requires
        zeroed(state, k, items, inner, dt, dev),
    ensures
        dims(state.hs@[k]) == shape3(items, inner, 16),
        dims(state.conv_states@[k]) == shape3(items, inner, 4),
        dtype_of(state.hs@[k]) == dt,
        dtype_of(state.conv_states@[k]) == dt,
        device_of(state.hs@[k]) == dev,
        device_of(state.conv_states@[k]) == dev,
{
}

/// The tensors that a new state holds for a layer consist of zeros.
pub proof fn law_new_state_is_zero(
    state: State,
    k: int,
    items: nat,
    inner: nat,
    dt: DType,
    dev: Device,
    i: int,
    c: int,
)
    requires
        zeroed(state, k, items, inner, dt, dev),
        0 <= i < items,
        0 <= c < inner,
    ensures
        forall|n: int| 0 <= n < 16 ==> #[trigger] at(state.hs@[k], ix3(i, c, n)) == 0,
        forall|n: int| 0 <= n < 4 ==> #[trigger] at(state.conv_states@[k], ix3(i, c, n)) == 0,
{
    let (h, taps) = (state.hs@[k], state.conv_states@[k]);
    let blank = memory(h, taps, i, inner);
    lemma_stretched(h, i, items, inner, 16);
    assert forall|n: int| 0 <= n < 16 implies #[trigger] at(h, ix3(i, c, n)) == 0 by {
        assert(blank.h[c][n] == 0);
    }
    assert forall|n: int| 0 <= n < 4 implies #[trigger] at(taps, ix3(i, c, n)) == 0 by {
        assert(blank.taps[c][n] == 0);
    }
}

/// A scan of tensors of the documented shapes and of one type is taken and succeeds.
pub proof fn law_documented_scan(
    u: Tensor,
    delta: Tensor,
    a: Tensor,
    b: Tensor,
    c: Tensor,
    d: Tensor,
    items: nat,
    len: nat,
    width: nat,
    n: nat,
    dt: DType,
)
    requires
        items > 0,
        len > 0,
        width > 0,
        n > 0,
        dims(u) == shape3(items, len, width),
        dims(delta) == shape3(items, len, width),
        dims(a) == shape2(width, n),
        dims(b) == shape3(items, len, n),
        dims(c) == shape3(items, len, n),
        dims(d) == shape1(width),
        dt is F16 || dt is F32 || dt is F64,
        dtype_of(u) == dt,
        dtype_of(delta) == dt,
        dtype_of(a) == dt,
        dtype_of(b) == dt,
        dtype_of(c) == dt,
        dtype_of(d) == dt,
        fits(shape4(items, width, len, n)),
        fits(dims(a)),
        fits(dims(c)),
    ensures
        scan_plain(u, delta, a, b, c, d),
        scan_room(u, delta, a, b, c, d),
        scan_shaped(u, delta, a, b, c, d),
        scan_typed(u, delta, a, b, c, d),
{
    law_plain_scan(u, delta, a, b, c, d);
}

/// A block has the right shapes if and only if each of its tensors has.
pub proof fn law_shapes_of_block(b: MambaBlock)
    ensures
        b.shaped() <==> {
            let (w, d_model, inner, rank) = (b.weights(), b.model(), b.inner(), b.rank());
            &&& dims(w.in_proj) == shape2(2 * inner, d_model)
            &&& dims(w.conv_weight) == shape3(inner, 1, 4)
            &&& dims(w.conv_bias) == shape1(inner)
            &&& dims(w.x_proj) == shape2(rank + 32, inner)
            &&& dims(w.dt_weight) == shape2(inner, rank)
            &&& dims(w.dt_bias) == shape1(inner)
            &&& dims(w.a_log) == shape2(inner, 16)
            &&& dims(w.d) == shape1(inner)
            &&& dims(w.out_proj) == shape2(d_model, inner)
        },
{
}

/// The CPU holds the tensors of a block if and only if it holds each of them.
pub proof fn law_tensors_on_cpu(w: Weights, l: ResidualBlock, m: Model, state: State)
    ensures
        held_by_cpu(w) <==> {
            &&& on_cpu(w.in_proj)
            &&& on_cpu(w.conv_weight)
            &&& on_cpu(w.conv_bias)
            &&& on_cpu(w.x_proj)
            &&& on_cpu(w.dt_weight)
            &&& on_cpu(w.dt_bias)
            &&& on_cpu(w.a_log)
            &&& on_cpu(w.d)
            &&& on_cpu(w.out_proj)
        },
        layer_on_cpu(l) <==> held_by_cpu(l.mixer().weights()) && on_cpu(l.norm()),
        model_on_cpu(m) <==> {
            &&& on_cpu(m.table())
            &&& on_cpu(m.norm())
            &&& forall|k: int| 0 <= k < m.layers().len() ==> layer_on_cpu(#[trigger] m.layers()[k])
        },
        state_on_cpu(m, state) <==> forall|k: int|
            #![trigger state.hs@[k]]
            #![trigger state.conv_states@[k]]
            0 <= k < m.layers().len() ==> on_cpu(state.hs@[k]) && on_cpu(state.conv_states@[k]),
{
}

/// A block whose tensors are of one type takes sequences of that type, of whatever number and
/// length, and succeeds.
pub proof fn law_documented_sequence(b: MambaBlock, xs: Tensor, items: nat, len: nat, dt: DType)
    requires
        b.shaped(),
        dt is F16 || dt is F32 || dt is F64,
        dtype_of(b.weights().in_proj) == dt,
        dtype_of(b.weights().conv_weight) == dt,
        dtype_of(b.weights().conv_bias) == dt,
        dtype_of(b.weights().x_proj) == dt,
        dtype_of(b.weights().dt_weight) == dt,
        dtype_of(b.weights().dt_bias) == dt,
        dtype_of(b.weights().a_log) == dt,
        dtype_of(b.weights().d) == dt,
        dtype_of(b.weights().out_proj) == dt,
        items > 0,
        len > 0,
        dims(xs) == shape3(items, len, b.model()),
        dtype_of(xs) == dt,
        fits(dims(xs)),
        fits(shape3(items, len + 3, 17 * b.inner())),
    ensures
        sequence_room(b, xs),
        sequence_goes(b.weights(), xs),
{
}

/// A block refuses what is no batch of sequences of its width, and what has no token.
pub proof fn law_refused_sequences(b: MambaBlock, xs: Tensor)
    requires
        b.shaped(),
        sequence_goes(b.weights(), xs),
    ensures
        dims(xs).len() == 3,
        dims(xs)[0] > 0,
        dims(xs)[1] > 0,
        dims(xs)[2] == b.model() || dims(xs)[2] == 0,
        dims(xs)[2] > 0 ==> dtype_of(xs) == dtype_of(b.weights().in_proj),
        dtype_of(xs) == dtype_of(b.weights().conv_weight),
        dtype_of(xs) == dtype_of(b.weights().conv_bias),
        dtype_of(xs) == dtype_of(b.weights().x_proj),
        dtype_of(xs) == dtype_of(b.weights().dt_weight),
        dtype_of(xs) == dtype_of(b.weights().dt_bias),
        dtype_of(xs) == dtype_of(b.weights().d),
        dtype_of(xs) == dtype_of(b.weights().out_proj),
        dtype_of(xs) is F16 || dtype_of(xs) is F32 || dtype_of(xs) is F64,
{
}

/// A block whose tensors are of one type takes tokens of that type, for whatever number of items,
/// with states of the documented shapes, and succeeds.
pub proof fn law_documented_step(
    b: MambaBlock,
    x: Tensor,
    h: Tensor,
    conv_state: Tensor,
    items: nat,
    dt: DType,
)
    requires
        b.shaped(),
        dt is F16 || dt is F32 || dt is F64,
        dtype_of(b.weights().in_proj) == dt,
        dtype_of(b.weights().conv_weight) == dt,
        dtype_of(b.weights().conv_bias) == dt,
        dtype_of(b.weights().x_proj) == dt,
        dtype_of(b.weights().dt_weight) == dt,
        dtype_of(b.weights().dt_bias) == dt,
        dtype_of(b.weights().a_log) == dt,
        dtype_of(b.weights().d) == dt,
        dtype_of(b.weights().out_proj) == dt,
        dims(x) == shape2(items, b.model()),
        dims(h) == shape3(items, b.inner(), 16),
        dims(conv_state) == shape3(items, b.inner(), 4),
        dtype_of(x) == dt,
        dtype_of(h) == dt,
        dtype_of(conv_state) == dt,
        fits(dims(x)),
        fits(shape2(items, 17 * b.inner())),
        fits(dims(conv_state)),
    ensures
        step_room(b, x, conv_state),
        step_goes(b.weights(), x, h, conv_state),
{
}

/// A block refuses what is no batch of tokens of its width, and states of other batches.
pub proof fn law_refused_steps(b: MambaBlock, x: Tensor, h: Tensor, conv_state: Tensor)
    requires
        b.shaped(),
        step_goes(b.weights(), x, h, conv_state),
    ensures
        dims(x).len() == 2,
        dims(conv_state).len() == 3,
        dims(conv_state)[0] == dims(x)[0],
        dims(conv_state)[1] == b.inner(),
        dims(conv_state)[2] >= 4,
        dtype_of(conv_state) == dtype_of(x),
        dims(h).len() <= 3,
        dims(h).len() == 3 ==> {
            &&& dims(h)[0] == 1 || dims(h)[0] == dims(x)[0]
            &&& dims(h)[1] == 1 || dims(h)[1] == b.inner()
            &&& dims(h)[2] == 1 || dims(h)[2] == 16
        },
        dims(x)[0] > 0 ==> {
            &&& dims(x)[1] == b.model() || dims(x)[1] == 0
            &&& dtype_of(h) == dtype_of(x)
        },
{
    if dims(h).len() == 3 {
        let (p, q, r) = (dims(h)[0], dims(h)[1], dims(h)[2]);
    }
}

/// A layer whose tensors are of one type takes sequences of that type and succeeds.
pub proof fn law_documented_layer_sequence(
    l: ResidualBlock,
    xs: Tensor,
    items: nat,
    len: nat,
    dt: DType,
)
    requires
        l.mixer().shaped(),
        dims(l.norm()) == shape1(l.mixer().model()),
        dt is F16 || dt is F32,
        dtype_of(l.mixer().weights().in_proj) == dt,
        dtype_of(l.mixer().weights().conv_weight) == dt,
        dtype_of(l.mixer().weights().conv_bias) == dt,
        dtype_of(l.mixer().weights().x_proj) == dt,
        dtype_of(l.mixer().weights().dt_weight) == dt,
        dtype_of(l.mixer().weights().dt_bias) == dt,
        dtype_of(l.mixer().weights().a_log) == dt,
        dtype_of(l.mixer().weights().d) == dt,
        dtype_of(l.mixer().weights().out_proj) == dt,
        dtype_of(l.norm()) == dt,
        contiguous(l.norm()),
        items > 0,
        len > 0,
        dims(xs) == shape3(items, len, l.mixer().model()),
        dtype_of(xs) == dt,
        fits(dims(xs)),
        fits(shape3(items, len, 17 * l.mixer().inner())),
        fits(shape3(items, len + 3, 17 * l.mixer().inner())),
    ensures
        l.shaped(),
        layer_sequence_room(l, xs),
        layer_sequence_goes(l, xs),
{
    assert(dims(xs).drop_last() =~= shape2(items, len));
}

/// A layer whose tensors are of one type takes tokens of that type and succeeds.
pub proof fn law_documented_layer_step(
    l: ResidualBlock,
    x: Tensor,
    h: Tensor,
    conv_state: Tensor,
    items: nat,
    dt: DType,
)
    requires
        l.mixer().shaped(),
        dims(l.norm()) == shape1(l.mixer().model()),
        dt is F16 || dt is F32,
        dtype_of(l.mixer().weights().in_proj) == dt,
        dtype_of(l.mixer().weights().conv_weight) == dt,
        dtype_of(l.mixer().weights().conv_bias) == dt,
        dtype_of(l.mixer().weights().x_proj) == dt,
        dtype_of(l.mixer().weights().dt_weight) == dt,
        dtype_of(l.mixer().weights().dt_bias) == dt,
        dtype_of(l.mixer().weights().a_log) == dt,
        dtype_of(l.mixer().weights().d) == dt,
        dtype_of(l.mixer().weights().out_proj) == dt,
        dtype_of(l.norm()) == dt,
        contiguous(l.norm()),
        dims(x) == shape2(items, l.mixer().model()),
        dims(h) == shape3(items, l.mixer().inner(), 16),
        dims(conv_state) == shape3(items, l.mixer().inner(), 4),
        dtype_of(x) == dt,
        dtype_of(h) == dt,
        dtype_of(conv_state) == dt,
        fits(dims(x)),
        fits(shape2(items, 17 * l.mixer().inner())),
        fits(dims(conv_state)),
    ensures
        l.shaped(),
        layer_step_room(l, x, conv_state),
        layer_step_goes(l, x, h, conv_state),
{
    assert(dims(x).drop_last() =~= shape1(items));
}

/// The tensors of a model have the right shapes if and only if each of them has, and can be
/// allocated.
pub proof fn law_shapes_of_model(m: Model)
    ensures
        m.shaped() <==> {
            &&& dims(m.table()).len() == 2
            &&& dims(m.table())[1] == m.width()
            &&& fits(dims(m.table()))
            &&& dims(m.norm()) == shape1(m.width())
            &&& fits(dims(m.norm()))
            &&& forall|k: int|
                #![trigger m.layers()[k]]
                0 <= k < m.layers().len() ==> {
                    &&& m.layers()[k].mixer().shaped()
                    &&& dims(m.layers()[k].norm()) == shape1(m.width())
                    &&& m.layers()[k].mixer().model() == m.width()
                    &&& m.layers()[k].mixer().inner() == 2 * m.width()
                }
        },
{
    if dims(m.table()).len() == 2 && dims(m.table())[1] == m.width() {
        assert(dims(m.table()) =~= shape2(m.vocab(), m.width()));
    }
    if m.shaped() {
        assert forall|k: int|
            #![trigger m.layers()[k]]
            0 <= k < m.layers().len() implies {
            &&& m.layers()[k].mixer().shaped()
            &&& dims(m.layers()[k].norm()) == shape1(m.width())
            &&& m.layers()[k].mixer().model() == m.width()
            &&& m.layers()[k].mixer().inner() == 2 * m.width()
        } by {
            assert(m.fitting(m.layers()[k]));
        }
    }
}

/// A model whose tensors are of one type, with its factors in order, takes prompts of at least one
/// token, of whatever number and length, and all of its calls succeed.
pub proof fn law_documented_prompts(m: Model, ids: Tensor, items: nat, len: nat, dt: DType)
    requires
        m.shaped(),
        m.width() > 0,
        dt is F16 || dt is F32,
        dtype_of(m.table()) == dt,
        contiguous(m.table()),
        dtype_of(m.norm()) == dt,
        contiguous(m.norm()),
        forall|k: int|
            #![trigger m.layers()[k]]
            0 <= k < m.layers().len() ==> {
                &&& dtype_of(m.layers()[k].norm()) == dt
                &&& contiguous(m.layers()[k].norm())
                &&& dtype_of(m.layers()[k].mixer().weights().in_proj) == dt
                &&& dtype_of(m.layers()[k].mixer().weights().conv_weight) == dt
                &&& dtype_of(m.layers()[k].mixer().weights().conv_bias) == dt
                &&& dtype_of(m.layers()[k].mixer().weights().x_proj) == dt
                &&& dtype_of(m.layers()[k].mixer().weights().dt_weight) == dt
                &&& dtype_of(m.layers()[k].mixer().weights().dt_bias) == dt
                &&& dtype_of(m.layers()[k].mixer().weights().a_log) == dt
                &&& dtype_of(m.layers()[k].mixer().weights().d) == dt
                &&& dtype_of(m.layers()[k].mixer().weights().out_proj) == dt
            },
        items > 0,
        len > 0,
        dims(ids) == shape2(items, len),
        ids_fit(ids, m.vocab()),
        fits(dims(ids)),
        fits(shape3(items, len + 3, 17 * (2 * m.width()))),
        fits(shape2(items, m.vocab())),
        fits(shape3(items, len, m.vocab())),
    ensures
        prefill_room(m, ids),
        prefill_goes(m, ids),
        all_room(m, ids),
        all_goes(m, ids),
{
}

/// Such a model takes single tokens after a state of the documented shapes and succeeds.
pub proof fn law_documented_tokens(m: Model, ids: Tensor, state: State, items: nat, dt: DType)
    requires
        m.shaped(),
        m.width() > 0,
        dt is F16 || dt is F32,
        dtype_of(m.table()) == dt,
        contiguous(m.table()),
        dtype_of(m.norm()) == dt,
        contiguous(m.norm()),
        forall|k: int|
            #![trigger m.layers()[k]]
            0 <= k < m.layers().len() ==> {
                &&& dtype_of(m.layers()[k].norm()) == dt
                &&& contiguous(m.layers()[k].norm())
                &&& dtype_of(m.layers()[k].mixer().weights().in_proj) == dt
                &&& dtype_of(m.layers()[k].mixer().weights().conv_weight) == dt
                &&& dtype_of(m.layers()[k].mixer().weights().conv_bias) == dt
                &&& dtype_of(m.layers()[k].mixer().weights().x_proj) == dt
                &&& dtype_of(m.layers()[k].mixer().weights().dt_weight) == dt
                &&& dtype_of(m.layers()[k].mixer().weights().dt_bias) == dt
                &&& dtype_of(m.layers()[k].mixer().weights().a_log) == dt
                &&& dtype_of(m.layers()[k].mixer().weights().d) == dt
                &&& dtype_of(m.layers()[k].mixer().weights().out_proj) == dt
            },
        dims(ids) == shape1(items),
        ids_fit(ids, m.vocab()),
        fits(dims(ids)),
        fits(shape2(items, 17 * (2 * m.width()))),
        fits(shape2(items, m.vocab())),
        state.hs@.len() == m.layers().len(),
        state.conv_states@.len() == m.layers().len(),
        state.pos < usize::MAX,
        forall|k: int|
            #![trigger state.hs@[k]]
            #![trigger state.conv_states@[k]]
            0 <= k < m.layers().len() ==> {
                &&& dims(state.hs@[k]) == shape3(items, 2 * m.width(), 16)
                &&& dtype_of(state.hs@[k]) == dt
                &&& dims(state.conv_states@[k]) == shape3(items, 2 * m.width(), 4)
                &&& dtype_of(state.conv_states@[k]) == dt
                &&& fits(dims(state.conv_states@[k]))
            },
    ensures
        token_room(m, ids, state),
        generate_goes(m, ids, state),
{
}

/// A model refuses what is no batch of prompts, what has no token, and identifiers that stand for no
/// row of its table.
pub proof fn law_refused_prompts(m: Model, ids: Tensor)
    ensures
        all_goes(m, ids) ==> {
            &&& dims(ids).len() == 2
            &&& dims(ids)[0] > 0
            &&& dims(ids)[1] > 0
            &&& ids_fit(ids, dims(m.table())[0])
            &&& contiguous(m.table())
            &&& dtype_of(m.norm()) == dtype_of(m.table())
        },
        prefill_goes(m, ids) ==> {
            &&& dims(ids).len() == 2
            &&& dims(ids)[1] > 0
            &&& m.layers().len() > 0 ==> dims(ids)[0] > 0
            &&& ids_fit(ids, dims(m.table())[0])
            &&& contiguous(m.table())
            &&& dtype_of(m.norm()) == dtype_of(m.table())
        },
{
}

/// A model refuses what is no batch of tokens, identifiers that stand for no row of its table, and
/// states of other batches.
pub proof fn law_refused_tokens(m: Model, ids: Tensor, state: State, k: int)
    requires
        generate_goes(m, ids, state),
        0 <= k < m.layers().len(),
    ensures
        dims(ids).len() == 1,
        ids_fit(ids, dims(m.table())[0]),
        dims(state.conv_states@[k]).len() == 3,
        dims(state.conv_states@[k])[0] == dims(ids)[0],
        dims(state.conv_states@[k])[1] == 2 * m.width(),
        dims(state.conv_states@[k])[2] >= 4,
        dtype_of(state.conv_states@[k]) == dtype_of(m.table()),
        dims(ids)[0] > 0 ==> dtype_of(state.hs@[k]) == dtype_of(m.table()),
{
    let h = state.hs@[k];
}

/// The states that a pass leaves have the documented shapes and the type of the embeddings.
pub proof fn law_shapes_of_states(h: Tensor, taps: Tensor, items: nat, inner: nat, dt: DType)
    ensures
        state_shaped(h, taps, items, inner, dt) <==> {
            &&& dims(h) == shape3(items, inner, 16)
            &&& dims(taps) == shape3(items, inner, 4)
            &&& dtype_of(h) == dt
            &&& dtype_of(taps) == dt
        },
{
}

/// Where a generation stops with an error, the layers before the one it stops at have taken the
/// tokens, the others hold what they held, and the position counts the tokens only if all layers
/// have taken them.
pub proof fn law_halt(m: Model, ids: Tensor, s0: State, s1: State, n: nat)
    requires
        halted(m, ids, s0, s1, n),
    ensures
        n <= m.layers().len(),
        s1.pos == s0.pos || (n == m.layers().len() && s1.pos == s0.pos + 1),
        n < m.layers().len() ==> s1.pos == s0.pos,
        s1.hs@.len() == s0.hs@.len(),
        s1.conv_states@.len() == s0.conv_states@.len(),
        forall|k: int| n <= k < s0.hs@.len() ==> #[trigger] s1.hs@[k] == s0.hs@[k],
        forall|k: int|
            n <= k < s0.conv_states@.len() ==> #[trigger] s1.conv_states@[k] == s0.conv_states@[k],
        forall|i: int|
            0 <= i < dims(ids)[0] ==> leads(
                net(m).layers.take(n as int),
                dtype_of(m.table()),
                embedded(net(m), dtype_of(ids), #[trigger] at(ids, ix1(i))),
                memories(s0, i, 2 * m.width(), n),
                memories(s1, i, 2 * m.width(), n),
            ),
{
}

/// A generation that has gone through the first layers has changed what these hold, and nothing of
/// what the others hold.
pub proof fn law_advance(m: Model, ids: Tensor, s0: State, s1: State, n: nat)
    requires
        advanced(m, ids, s0, s1, n),
    ensures
        s1.hs@.len() == s0.hs@.len(),
        s1.conv_states@.len() == s0.conv_states@.len(),
        forall|k: int| n <= k < s0.hs@.len() ==> #[trigger] s1.hs@[k] == s0.hs@[k],
        forall|k: int|
            n <= k < s0.conv_states@.len() ==> #[trigger] s1.conv_states@[k] == s0.conv_states@[k],
        forall|i: int|
            0 <= i < dims(ids)[0] ==> leads(
                net(m).layers.take(n as int),
                dtype_of(m.table()),
                embedded(net(m), dtype_of(ids), #[trigger] at(ids, ix1(i))),
                memories(s0, i, 2 * m.width(), n),
                memories(s1, i, 2 * m.width(), n),
            ),
{
}

} // verus!
