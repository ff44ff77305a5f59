//! What the model remembers between tokens.
use crate::array::{batch_fits, fits, group_index, ix3, lemma_volume, shape3, within};
use crate::block::{memory, tapped};
use crate::config::{Config, D_CONV, D_STATE};
use crate::error::MambaError;
use crate::recurrence::{blank, zeros, Memory};
use crate::rows::{lemma_fits_update, lemma_stretched, slice};
use crate::sizes::fits_in_memory;
use crate::tensor::{at, device_of, dims, dtype_of, is_storable, shape_of, zeros3};
use candle_core::{DType, Device, Tensor};
use vstd::prelude::*;

verus! {

/// State for incremental (token-by-token) generation after prefill.
///
/// This state is returned by `forward_prefill()` and can be used with
/// `forward_generate()` for continued generation.
pub struct State {
    /// Hidden states for each layer: (batch, d_inner, d_state)
    pub hs: Vec<Tensor>,
    /// Convolution history buffer for each layer: (batch, d_inner, d_conv)
    pub conv_states: Vec<Tensor>,
    /// Current position in sequence
    pub pos: usize,
}

/// What the first `n` layers, of `inner` channels each, remember for item `i` of the batch, of
/// which `hs` hold the states and `conv_states` the last inputs of the convolutions.
pub open spec fn memories_in(
    hs: Seq<Tensor>,
    conv_states: Seq<Tensor>,
    i: int,
    inner: nat,
    n: nat,
) -> Seq<Memory> {
    Seq::new(n, |k: int| memory(hs[k], conv_states[k], i, inner))
}

/// What the first `n` layers, of `inner` channels each, remember for item `i` of the batch.
pub open spec fn memories(state: State, i: int, inner: nat, n: nat) -> Seq<Memory> {
    memories_in(state.hs@, state.conv_states@, i, inner, n)
}

/// The tensors of layer `k` are zeros of the shapes that belong to a batch of `items`.
pub open spec fn zeroed(
    state: State,
    k: int,
    items: nat,
    inner: nat,
    dt: DType,
    dev: Device,
) -> bool {
    let (h, taps) = (state.hs@[k], state.conv_states@[k]);
    &&& dims(h) == shape3(items, inner, D_STATE as nat)
    &&& dims(taps) == shape3(items, inner, D_CONV as nat)
    &&& dtype_of(h) == dt
    &&& dtype_of(taps) == dt
    &&& device_of(h) == dev
    &&& device_of(taps) == dev
    &&& forall|i: int| 0 <= i < items ==> #[trigger] memory(h, taps, i, inner) == blank(inner)
}

/// The state of a batch of `items` can be allocated.
pub open spec fn state_room(items: nat, cfg: Config) -> bool {
    &&& cfg.d_model * 2 <= usize::MAX
    &&& cfg.n_layer > 0 ==> batch_fits(items, (cfg.d_model * 2) as nat, D_STATE as nat)
}

/// A tensor of zeros holds a matrix of zeros for every item.
proof fn lemma_zeros(t: Tensor, items: nat, rows: nat, columns: nat, i: int)
    requires
        dims(t) == shape3(items, rows, columns),
        forall|j: Seq<int>| within(j, dims(t)) ==> #[trigger] at(t, j) == 0,
        0 <= i < items,
    ensures
        slice(t, i) == zeros(rows, columns),
{
    broadcast use group_index;

    assert forall|r: int, c: int| 0 <= r < rows && 0 <= c < columns implies #[trigger] slice(
        t,
        i,
    )[r][c] == 0 by {
        assert(within(ix3(i, r, c), dims(t)));
        assert(slice(t, i)[r][c] == at(t, ix3(i, r, c)));
    }
    assert(slice(t, i) =~~= zeros(rows, columns));
}

/// Tensors of zeros hold the memory of nothing.
proof fn lemma_blank(h: Tensor, taps: Tensor, items: nat, inner: nat, i: int)
    requires
        dims(h) == shape3(items, inner, D_STATE as nat),
        dims(taps) == shape3(items, inner, D_CONV as nat),
        forall|j: Seq<int>| within(j, dims(h)) ==> #[trigger] at(h, j) == 0,
        forall|j: Seq<int>| within(j, dims(taps)) ==> #[trigger] at(taps, j) == 0,
        0 <= i < items,
    ensures
        memory(h, taps, i, inner) == blank(inner),
{
    lemma_zeros(h, items, inner, D_STATE as nat, i);
    lemma_stretched(h, i, items, inner, D_STATE as nat);
    lemma_zeros(taps, items, inner, D_CONV as nat, i);
    assert(tapped(taps, i, inner) =~~= slice(taps, i));
}

impl State {
    /// Whether `new` can be called for such a batch.
    pub fn has_room(batch_size: usize, cfg: &Config) -> (r: bool)
        ensures
            r <==> state_room(batch_size as nat, *cfg),
    {
        if cfg.d_model > usize::MAX / 2 {
            return false;
        }
        let shape = vec![batch_size, 2 * cfg.d_model, D_STATE];
        proof {
            let (items, inner) = (batch_size as nat, (2 * cfg.d_model) as nat);
            assert(shape_of(shape@) =~= shape3(items, inner, D_STATE as nat));
            lemma_volume(items, inner, D_STATE as nat, 1);
        }
        cfg.n_layer == 0 || fits_in_memory(&shape)
    }

    /// Creates a new zero-initialized state.
    pub fn new(batch_size: usize, cfg: &Config, dtype: DType, device: &Device) -> (r: Result<
        State,
        MambaError,
    >)
        requires
            state_room(batch_size as nat, *cfg),
        ensures
            *device is Cpu ==> (r is Ok <==> (cfg.n_layer == 0 || is_storable(dtype))),
            r matches Ok(s) ==> {
                &&& s.hs@.len() == cfg.n_layer
                &&& s.conv_states@.len() == cfg.n_layer
                &&& s.pos == 0
                &&& forall|k: int|
                    #![trigger s.hs@[k]]
                    #![trigger s.conv_states@[k]]
                    0 <= k < cfg.n_layer ==> zeroed(
                        s,
                        k,
                        batch_size as nat,
                        (cfg.d_model * 2) as nat,
                        dtype,
                        *device,
                    )
            },
    {
        let d_inner: usize = cfg.d_inner();
        let ghost (items, inner) = (batch_size as nat, d_inner as nat);
        proof {
            if cfg.n_layer > 0 {
                lemma_volume(items, inner, D_STATE as nat, 1);
                lemma_fits_update(shape3(items, inner, D_STATE as nat), 2, D_CONV as nat);
            }
            assert(shape3(items, inner, D_STATE as nat).update(2, D_CONV as nat) =~= shape3(
                items,
                inner,
                D_CONV as nat,
            ));
        }
        let mut hs: Vec<Tensor> = Vec::new();
        let mut conv_states: Vec<Tensor> = Vec::new();
        for n in 0..cfg.n_layer
            invariant
                items == batch_size,
                inner == d_inner,
                inner == cfg.d_model * 2,
                cfg.n_layer > 0 ==> fits(shape3(items, inner, D_STATE as nat)) && fits(
                    shape3(items, inner, D_CONV as nat),
                ),
                hs@.len() == n,
                conv_states@.len() == n,
                *device is Cpu && n > 0 ==> is_storable(dtype),
                forall|k: int|
                    #![trigger hs@[k]]
                    #![trigger conv_states@[k]]
                    0 <= k < n ==> zeroed(
                        (State { hs, conv_states, pos: 0 }),
                        k,
                        items,
                        inner,
                        dtype,
                        *device,
                    ),
        {
            let h = zeros3((batch_size, d_inner, D_STATE), dtype, device)?;
            let taps = zeros3((batch_size, d_inner, D_CONV), dtype, device)?;
            proof {
                assert forall|i: int| 0 <= i < items implies #[trigger] memory(h, taps, i, inner)
                    == blank(inner) by {
                    lemma_blank(h, taps, items, inner, i);
                }
            }
            let ghost (hs0, taps0) = (hs@, conv_states@);
            hs.push(h);
            conv_states.push(taps);
            proof {
                let s = State { hs, conv_states, pos: 0 };
                assert forall|k: int|
                    #![trigger hs@[k]]
                    #![trigger conv_states@[k]]
                    0 <= k <= n implies zeroed(s, k, items, inner, dtype, *device) by {
                    if k < n {
                        assert(hs@[k] == hs0[k] && conv_states@[k] == taps0[k]);
                    }
                }
            }
        }
        Ok(State { hs, conv_states, pos: 0 })
    }
}

} // verus!
