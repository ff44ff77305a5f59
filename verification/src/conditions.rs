//! When a call succeeds: every condition on shapes and types, written out.
use crate::array::{fits, group_index, inhabited, shape1, shape2, shape3, shape4};
use crate::block::{sequence_goes, sequence_room, step_goes, step_room, MambaBlock, Weights};
use crate::layers::{ids_fit, rms_fits};
use crate::model::{
    all_goes, all_room, entry_goes, generate_goes, generate_ready, ids_go, layer_passes,
    layer_steps, layers_pass, prefill_goes, prefill_room, token_room, Model,
};
use crate::residual::{
    layer_sequence_goes, layer_sequence_room, layer_step_goes, layer_step_room, ResidualBlock,
};
use crate::scan::{scan_reach, scan_room, scan_shaped, scan_typed, scan_width};
use crate::state::State;
use crate::tensor::{contiguous, dims, dtype_of, is_float, is_integer, is_matrix_float, is_storable};
use candle_core::Tensor;
use vstd::prelude::*;

verus! {

broadcast use group_index;

/// When a scan can combine its tensors, in terms of their sizes: each of the items, positions and
/// channels is given once or for each.
pub proof fn law_when_scan_shapes_go(
    u: Tensor,
    delta: Tensor,
    a: Tensor,
    b: Tensor,
    c: Tensor,
    d: Tensor,
    items: nat,
    len: nat,
    width: nat,
    n: nat,
)
    requires
        len > 1,
        width > 1,
        n > 0,
        dims(u) == shape3(items, len, width),
        dims(a).len() == 2,
        dims(a)[1] == n,
        dims(delta).len() == 3,
        dims(b).len() == 3,
        dims(c).len() == 3,
        dims(d).len() == 1,
    ensures
        scan_shaped(u, delta, a, b, c, d) <==> {
            &&& dims(a)[0] == width
            &&& dims(delta)[0] == 1 || dims(delta)[0] == items
            &&& dims(delta)[1] == len
            &&& dims(delta)[2] == 1 || dims(delta)[2] == width
            &&& dims(b)[0] == 1 || dims(b)[0] == items
            &&& dims(b)[1] == 1 || dims(b)[1] == len
            &&& dims(b)[2] == n
            &&& dims(c)[1] >= len
            &&& items > 0 ==> dims(c)[0] == items && dims(c)[2] == n
            &&& dims(d)[0] == 1 || dims(d)[0] == width
        },
        scan_shaped(u, delta, a, b, c, d) ==> scan_width(u, delta) == width && scan_reach(
            u,
            delta,
            b,
        ) == len,
{
}

/// The same, of one position or one channel, of states of no numbers, and of a skip connection that
/// is a single number.
pub proof fn law_when_small_scan_shapes_go(
    u: Tensor,
    delta: Tensor,
    a: Tensor,
    b: Tensor,
    c: Tensor,
    d: Tensor,
)
    ensures
        ({
            let (p, q) = (dims(delta)[2], dims(u)[2]);
            scan_width(u, delta) == if p == 1 {
                q
            } else {
                p
            }
        }),
        scan_reach(u, delta, b) == if dims(delta)[1] != 1 {
            dims(delta)[1]
        } else if dims(b)[1] != 1 {
            dims(b)[1]
        } else {
            dims(u)[1]
        },
        scan_shaped(u, delta, a, b, c, d) <==> {
            let (items, len, width, n) = (dims(u)[0], dims(u)[1], dims(u)[2], dims(a)[1]);
            let full = if dims(delta)[2] == 1 {
                width
            } else {
                dims(delta)[2]
            };
            &&& dims(u).len() == 3
            &&& dims(delta).len() == 3
            &&& dims(a).len() == 2
            &&& dims(b).len() == 3
            &&& dims(c).len() == 3
            &&& dims(d).len() == 0 || dims(d).len() == 1
            &&& len > 0
            &&& dims(delta)[0] == 1 || dims(delta)[0] == items
            &&& dims(delta)[1] > 0
            &&& dims(delta)[1] == len || len == 1
            &&& dims(delta)[2] == width || dims(delta)[2] == 1 || width == 1
            &&& dims(a)[0] == width || n == 0
            &&& dims(b)[0] == 1 || dims(b)[0] == items
            &&& dims(b)[1] > 0
            &&& dims(b)[1] == 1 || dims(b)[1] == len || (len == 1 && (dims(delta)[1] == 1
                || dims(delta)[1] == dims(b)[1]))
            &&& dims(b)[2] == n
            &&& dims(c)[1] >= len
            &&& items == 0 || full == 0 || n == 0 || (dims(c)[0] == items && dims(c)[2] == n)
            &&& dims(d).len() == 0 ==> full == width
            &&& dims(d).len() == 1 && dims(d)[0] == 1 ==> full == width
            &&& dims(d).len() == 1 && dims(d)[0] != 1 ==> full == if width == 1 {
                dims(d)[0]
            } else {
                width
            } && (width == 1 || width == dims(d)[0])
        },
{
}

/// When the types of the tensors of a scan go together: those that are combined are of one type,
/// where there is anything to compute.
pub proof fn law_when_scan_types_go(
    u: Tensor,
    delta: Tensor,
    a: Tensor,
    b: Tensor,
    c: Tensor,
    d: Tensor,
)
    ensures
        scan_typed(u, delta, a, b, c, d) <==> {
            let (dt, items, n) = (dtype_of(delta), dims(u)[0], dims(a)[1]);
            let full = if dims(delta)[2] == 1 {
                dims(u)[2]
            } else {
                dims(delta)[2]
            };
            let many = if dims(delta)[0] == 1 {
                dims(b)[0]
            } else {
                dims(delta)[0]
            };
            &&& is_storable(dt)
            &&& contiguous(a) || is_storable(dtype_of(a))
            &&& dims(delta)[0] > 0 && full > 0 && n > 0 ==> dtype_of(a) == dt
            &&& many > 0 && dims(delta)[2] > 0 && n > 0 ==> dtype_of(b) == dt
            &&& items > 0 && full > 0 && n > 0 ==> dtype_of(c) == dt && is_matrix_float(dt)
            &&& items > 0 && full > 0 ==> dtype_of(u) == dt && dtype_of(d) == dt
        },
{
}

/// In particular, a scan of anything at all goes if and only if all six tensors are of one type that
/// can be multiplied.
pub proof fn law_when_plain_scan_types_go(
    u: Tensor,
    delta: Tensor,
    a: Tensor,
    b: Tensor,
    c: Tensor,
    d: Tensor,
)
    requires
        scan_shaped(u, delta, a, b, c, d),
        dims(u)[0] > 0,
        dims(u)[2] > 0,
        dims(delta)[2] > 0,
        dims(a)[1] > 0,
    ensures
        scan_typed(u, delta, a, b, c, d) <==> {
            let dt = dtype_of(delta);
            &&& is_matrix_float(dt)
            &&& dtype_of(u) == dt
            &&& dtype_of(a) == dt
            &&& dtype_of(b) == dt
            &&& dtype_of(c) == dt
            &&& dtype_of(d) == dt
        },
{
}

/// What a scan asks for beyond that: that one allocation may hold what it computes, and that it does
/// not compute with whole numbers.
pub proof fn law_when_scan_has_room(
    u: Tensor,
    delta: Tensor,
    a: Tensor,
    b: Tensor,
    c: Tensor,
    d: Tensor,
)
    ensures
        scan_room(u, delta, a, b, c, d) <==> (dims(u).len() == 3 && dims(u)[1] > 0 && dims(a).len()
            >= 2 ==> {
            &&& dims(a).len() == 2
            &&& dims(delta).len() <= 3
            &&& dims(b).len() <= 3
            &&& is_integer(dtype_of(delta)) ==> !inhabited(dims(delta))
            &&& scan_shaped(u, delta, a, b, c, d) ==> {
                &&& fits(
                    shape4(
                        dims(u)[0],
                        scan_width(u, delta),
                        scan_reach(u, delta, b),
                        dims(a)[1],
                    ),
                )
                &&& fits(dims(a))
                &&& fits(dims(c))
                &&& dims(a)[1] == 0 ==> is_float(dtype_of(u)) || !inhabited(dims(u))
            }
        }),
{
}

/// When a block can take single tokens. Without items, types and the width of the tokens are not
/// compared; a state that is given once for several items or channels is stretched.
pub proof fn law_when_step_goes(w: Weights, x: Tensor, h: Tensor, conv_state: Tensor)
    ensures
        step_goes(w, x, h, conv_state) <==> {
            let (dt, inner) = (dtype_of(x), dims(w.conv_bias)[0]);
            let full = shape3(dims(x)[0], inner, 16);
            &&& dims(x).len() == 2
            &&& is_float(dt)
            &&& is_storable(dtype_of(w.a_log))
            &&& is_storable(dtype_of(w.d))
            &&& dims(h).len() <= 3
            &&& forall|k: int|
                0 <= k < dims(h).len() ==> #[trigger] dims(h)[k] == 1 || dims(h)[k] == full[3
                    - dims(h).len() + k]
            &&& dims(conv_state).len() == 3
            &&& dims(conv_state)[0] == dims(x)[0]
            &&& dims(conv_state)[1] == inner
            &&& dims(conv_state)[2] >= 4
            &&& dtype_of(conv_state) == dt
            &&& dims(x)[0] > 0 ==> {
                &&& is_matrix_float(dt)
                &&& dtype_of(h) == dt
                &&& dtype_of(w.conv_weight) == dt
                &&& dtype_of(w.conv_bias) == dt
                &&& dtype_of(w.x_proj) == dt
                &&& dtype_of(w.dt_weight) == dt
                &&& dtype_of(w.dt_bias) == dt
                &&& dtype_of(w.out_proj) == dt
            }
            &&& dims(x)[0] > 0 && dims(x)[1] > 0 ==> dims(x)[1] == dims(w.in_proj)[1]
                && dtype_of(w.in_proj) == dt
        },
{
}

/// When a block can take sequences.
pub proof fn law_when_sequence_goes(w: Weights, xs: Tensor)
    ensures
        sequence_goes(w, xs) <==> {
            let dt = dtype_of(xs);
            &&& dims(xs).len() == 3
            &&& dims(xs)[0] > 0
            &&& dims(xs)[1] > 0
            &&& is_matrix_float(dt)
            &&& is_storable(dtype_of(w.a_log))
            &&& dtype_of(w.d) == dt
            &&& dtype_of(w.conv_weight) == dt
            &&& dtype_of(w.conv_bias) == dt
            &&& dtype_of(w.x_proj) == dt
            &&& dtype_of(w.dt_weight) == dt
            &&& dtype_of(w.dt_bias) == dt
            &&& dtype_of(w.out_proj) == dt
            &&& dims(xs)[2] > 0 ==> dims(xs)[2] == dims(w.in_proj)[1] && dtype_of(w.in_proj) == dt
        },
{
}

/// When one allocation may hold what a block computes.
pub proof fn law_when_block_has_room(b: MambaBlock, x: Tensor, conv_state: Tensor)
    ensures
        step_room(b, x, conv_state) <==> (dims(x).len() == 2 ==> {
            &&& b.shaped()
            &&& fits(dims(x))
            &&& fits(shape2(dims(x)[0], 17 * b.inner()))
            &&& fits(dims(conv_state))
            &&& is_integer(dtype_of(x)) ==> dims(x)[0] > 0 && dims(x)[1] > 0
        }),
        sequence_room(b, x) <==> (dims(x).len() == 3 ==> {
            &&& b.shaped()
            &&& fits(dims(x))
            &&& fits(shape3(dims(x)[0], dims(x)[1] + 3, 17 * b.inner()))
        }),
{
    if dims(x).len() == 2 {
        assert(dims(x) =~= shape2(dims(x)[0], dims(x)[1]));
        assert(inhabited(dims(x)) <==> dims(x)[0] > 0 && dims(x)[1] > 0);
    }
}

/// When a layer can take single tokens and sequences: its block can, and they can be normalised.
pub proof fn law_when_layer_goes(l: ResidualBlock, x: Tensor, h: Tensor, conv_state: Tensor)
    ensures
        l.shaped() <==> l.mixer().shaped() && dims(l.norm()) == shape1(l.mixer().model()),
        layer_step_goes(l, x, h, conv_state) <==> {
            &&& step_goes(l.mixer().weights(), x, h, conv_state)
            &&& dims(x)[1] == l.mixer().model()
            &&& rms_fits(x, l.norm())
        },
        layer_sequence_goes(l, x) <==> {
            &&& sequence_goes(l.mixer().weights(), x)
            &&& dims(x)[2] == l.mixer().model()
            &&& rms_fits(x, l.norm())
        },
        dims(x).len() > 0 ==> (layer_step_room(l, x, conv_state) <==> {
            &&& l.shaped()
            &&& fits(dims(x))
            &&& fits(dims(x).drop_last().push(17 * l.mixer().inner()))
            &&& fits(dims(conv_state))
            &&& is_integer(dtype_of(x)) ==> contiguous(x)
        }),
        dims(x).len() > 0 ==> (layer_sequence_room(l, x) <==> {
            &&& l.shaped()
            &&& fits(dims(x))
            &&& fits(dims(x).drop_last().push(17 * l.mixer().inner()))
            &&& dims(x).len() == 3 ==> fits(
                shape3(dims(x)[0], dims(x)[1] + 3, 17 * l.mixer().inner()),
            )
            &&& is_integer(dtype_of(x)) ==> contiguous(x)
        }),
        dims(x).len() == 0 && fits(dims(x)) ==> layer_sequence_room(l, x) && (fits(dims(conv_state))
            ==> layer_step_room(l, x, conv_state)),
{
}

/// When a model can take prompts.
pub proof fn law_when_prompts_go(m: Model, ids: Tensor)
    ensures
        ({
            let dt = dtype_of(m.table());
            let layers_go = forall|k: int|
                #![trigger m.layers()[k]]
                0 <= k < m.layers().len() ==> {
                    let w = m.layers()[k].mixer().weights();
                    &&& dtype_of(m.layers()[k].norm()) == dt
                    &&& contiguous(m.layers()[k].norm())
                    &&& dt is BF16 || dt is F16 || dt is F32
                    &&& is_matrix_float(dt)
                    &&& is_storable(dtype_of(w.a_log))
                    &&& dtype_of(w.d) == dt
                    &&& dtype_of(w.in_proj) == dt
                    &&& dtype_of(w.conv_weight) == dt
                    &&& dtype_of(w.conv_bias) == dt
                    &&& dtype_of(w.x_proj) == dt
                    &&& dtype_of(w.dt_weight) == dt
                    &&& dtype_of(w.dt_bias) == dt
                    &&& dtype_of(w.out_proj) == dt
                };
            &&& all_goes(m, ids) <==> {
                &&& dims(ids).len() == 2
                &&& dims(ids)[0] > 0
                &&& dims(ids)[1] > 0
                &&& ids_fit(ids, dims(m.table())[0])
                &&& contiguous(m.table())
                &&& layers_go
                &&& dtype_of(m.norm()) == dt
                &&& contiguous(m.norm())
                &&& dt is BF16 || dt is F16 || dt is F32
                &&& dims(m.table())[0] > 0 ==> is_matrix_float(dt)
            }
            &&& prefill_goes(m, ids) <==> {
                &&& dims(ids).len() == 2
                &&& dims(ids)[1] > 0
                &&& m.layers().len() > 0 ==> dims(ids)[0] > 0
                &&& ids_fit(ids, dims(m.table())[0])
                &&& contiguous(m.table())
                &&& layers_go
                &&& dtype_of(m.norm()) == dt
                &&& is_float(dt)
                &&& dims(ids)[0] <= 1 || dims(ids)[1] == 1 ==> contiguous(m.norm()) && (dt is BF16
                    || dt is F16 || dt is F32)
                &&& dims(ids)[0] > 0 && dims(m.table())[0] > 0 ==> is_matrix_float(dt)
            }
        }),
{
    let dt = dtype_of(m.table());
    if all_goes(m, ids) || prefill_goes(m, ids) {
        assert forall|k: int|
            #![trigger m.layers()[k]]
            0 <= k < m.layers().len() implies layer_passes(m.layers()[k], dt) by {}
    }
    if forall|k: int|
        #![trigger m.layers()[k]]
        0 <= k < m.layers().len() ==> layer_passes(m.layers()[k], dt) {
        assert(layers_pass(m));
    }
}

/// When a model can take tokens after a state.
pub proof fn law_when_tokens_go(m: Model, ids: Tensor, state: State)
    ensures
        generate_goes(m, ids, state) <==> {
            let (dt, items) = (dtype_of(m.table()), dims(ids)[0]);
            &&& dims(ids).len() == 1
            &&& ids_fit(ids, dims(m.table())[0])
            &&& contiguous(m.table())
            &&& dtype_of(m.norm()) == dt
            &&& contiguous(m.norm())
            &&& dt is BF16 || dt is F16 || dt is F32
            &&& items > 0 && dims(m.table())[0] > 0 ==> is_matrix_float(dt)
            &&& forall|k: int|
                #![trigger m.layers()[k]]
                0 <= k < m.layers().len() ==> {
                    let w = m.layers()[k].mixer().weights();
                    &&& dtype_of(m.layers()[k].norm()) == dt
                    &&& contiguous(m.layers()[k].norm())
                    &&& is_storable(dtype_of(w.a_log))
                    &&& is_storable(dtype_of(w.d))
                    &&& items > 0 ==> {
                        &&& is_matrix_float(dt)
                        &&& dtype_of(w.in_proj) == dt
                        &&& dtype_of(w.conv_weight) == dt
                        &&& dtype_of(w.conv_bias) == dt
                        &&& dtype_of(w.x_proj) == dt
                        &&& dtype_of(w.dt_weight) == dt
                        &&& dtype_of(w.dt_bias) == dt
                        &&& dtype_of(w.out_proj) == dt
                    }
                }
            &&& forall|k: int|
                #![trigger state.hs@[k]]
                #![trigger state.conv_states@[k]]
                0 <= k < m.layers().len() ==> {
                    let (h, taps) = (state.hs@[k], state.conv_states@[k]);
                    let full = shape3(items, 2 * m.width(), 16);
                    &&& dims(h).len() <= 3
                    &&& forall|j: int|
                        0 <= j < dims(h).len() ==> #[trigger] dims(h)[j] == 1 || dims(h)[j]
                            == full[3 - dims(h).len() + j]
                    &&& items > 0 ==> dtype_of(h) == dt
                    &&& dims(taps).len() == 3
                    &&& dims(taps)[0] == items
                    &&& dims(taps)[1] == 2 * m.width()
                    &&& dims(taps)[2] >= 4
                    &&& dtype_of(taps) == dt
                }
        },
{
    let (dt, items) = (dtype_of(m.table()), dims(ids)[0]);
    if generate_goes(m, ids, state) {
        assert forall|k: int|
            #![trigger m.layers()[k]]
            0 <= k < m.layers().len() implies layer_steps(m.layers()[k], dt, items) by {}
        assert forall|k: int|
            #![trigger state.hs@[k]]
            #![trigger state.conv_states@[k]]
            0 <= k < m.layers().len() implies entry_goes(m, state, k, items) by {}
    }
}

/// When one allocation may hold what a model computes.
pub proof fn law_when_model_has_room(m: Model, ids: Tensor, state: State)
    requires
        dims(m.table()).len() == 2,
    ensures
        prefill_room(m, ids) <==> (dims(ids).len() == 2 ==> {
            &&& m.shaped()
            &&& m.width() > 0
            &&& fits(dims(ids))
            &&& fits(shape3(dims(ids)[0], dims(ids)[1] + 3, 17 * (2 * m.width())))
            &&& fits(shape2(dims(ids)[0], dims(m.table())[0]))
            &&& m.layers().len() == 0 ==> dims(ids)[1] > 0 && (is_integer(dtype_of(m.table()))
                ==> dims(ids)[0] <= 1 || dims(ids)[1] == 1)
        }),
        all_room(m, ids) <==> (dims(ids).len() == 2 ==> {
            &&& m.shaped()
            &&& m.width() > 0
            &&& fits(dims(ids))
            &&& fits(shape3(dims(ids)[0], dims(ids)[1] + 3, 17 * (2 * m.width())))
            &&& fits(shape3(dims(ids)[0], dims(ids)[1], dims(m.table())[0]))
        }),
        token_room(m, ids, state) <==> (dims(ids).len() == 1 ==> {
            &&& m.shaped()
            &&& m.width() > 0
            &&& fits(dims(ids))
            &&& fits(shape2(dims(ids)[0], 17 * (2 * m.width())))
            &&& fits(shape2(dims(ids)[0], dims(m.table())[0]))
            &&& state.hs@.len() >= m.layers().len()
            &&& state.conv_states@.len() >= m.layers().len()
            &&& forall|k: int|
                0 <= k < m.layers().len() ==> fits(dims(#[trigger] state.conv_states@[k]))
            &&& state.pos < usize::MAX
        }),
{
}

/// When a model has embeddings for identifiers, can take a batch of tokens, and can go on from what
/// a state holds for a layer.
pub proof fn law_when_parts_go(m: Model, ids: Tensor, state: State, k: int, items: nat)
    ensures
        ids_go(m, ids) <==> {
            &&& ids_fit(ids, dims(m.table())[0])
            &&& contiguous(m.table())
            &&& is_storable(dtype_of(m.table()))
        },
        generate_ready(m, items) <==> {
            let dt = dtype_of(m.table());
            &&& dtype_of(m.norm()) == dt
            &&& contiguous(m.norm())
            &&& dt is BF16 || dt is F16 || dt is F32
            &&& items > 0 && dims(m.table())[0] > 0 ==> is_matrix_float(dt)
            &&& forall|k: int|
                #![trigger m.layers()[k]]
                0 <= k < m.layers().len() ==> {
                    let w = m.layers()[k].mixer().weights();
                    &&& dtype_of(m.layers()[k].norm()) == dt
                    &&& contiguous(m.layers()[k].norm())
                    &&& is_storable(dtype_of(w.a_log))
                    &&& is_storable(dtype_of(w.d))
                    &&& items > 0 ==> {
                        &&& is_matrix_float(dt)
                        &&& dtype_of(w.in_proj) == dt
                        &&& dtype_of(w.conv_weight) == dt
                        &&& dtype_of(w.conv_bias) == dt
                        &&& dtype_of(w.x_proj) == dt
                        &&& dtype_of(w.dt_weight) == dt
                        &&& dtype_of(w.dt_bias) == dt
                        &&& dtype_of(w.out_proj) == dt
                    }
                }
        },
        entry_goes(m, state, k, items) <==> {
            let (h, taps) = (state.hs@[k], state.conv_states@[k]);
            let full = shape3(items, 2 * m.width(), 16);
            &&& dims(h).len() <= 3
            &&& forall|j: int|
                0 <= j < dims(h).len() ==> #[trigger] dims(h)[j] == 1 || dims(h)[j] == full[3
                    - dims(h).len() + j]
            &&& items > 0 ==> dtype_of(h) == dtype_of(m.table())
            &&& dims(taps).len() == 3
            &&& dims(taps)[0] == items
            &&& dims(taps)[1] == 2 * m.width()
            &&& dims(taps)[2] >= 4
            &&& dtype_of(taps) == dtype_of(m.table())
        },
{
    let dt = dtype_of(m.table());
    if generate_ready(m, items) {
        assert forall|k: int|
            #![trigger m.layers()[k]]
            0 <= k < m.layers().len() implies layer_steps(m.layers()[k], dt, items) by {}
    }
}

} // verus!
