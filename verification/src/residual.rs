//! A layer of the model: a Mamba block with a normalisation in front and a residual connection
//! around.
use crate::array::{fits, group_index, ix1, ix2, ix3, shape1, shape2, shape3, within};
use crate::block::{
    block_refused, fetched, held_by_cpu, law_kept_shapes_fit_block, lemma_weights_fit, memory,
    mixer, named, sequence_goes, sized_for, step_goes, MambaBlock,
};
use crate::config::{block_room, Config, D_CONV, D_STATE};
use crate::error::{lifted, MambaError};
use crate::layers::{rms_fits, rms_gives, NORM_EPS};
use crate::recurrence::{
    adds, blank, layer_step, mixer_step, mixes, runs, traces, transforms, Layer, Memory,
};
use crate::rows::{
    lemma_fits_shorter, lemma_inhabited_push, lemma_lead, normalised, slice, vector,
};
use crate::sizes::{fits3, fits_in_memory, fits_itself, has_shape1, is_integer_type};
use crate::tensor::{
    add_gives, at, contiguous, dims, dtype, dtype_of, is_in_order, is_integer, on_cpu, plus,
    row, shape_of, sizes,
};
use crate::weights::{
    below, fetch_rms_norm, handed, keeps_shapes, path_of, refused, store_of, type_of, VarBuilder,
};
use candle_core::{DType, Tensor};
use vstd::prelude::*;

verus! {

/// A Mamba block with a normalisation in front and a residual connection around.
#[derive(Debug)]
pub struct ResidualBlock {
    mixer: MambaBlock,
    norm: Tensor,
}

impl Clone for ResidualBlock {
    fn clone(&self) -> (r: ResidualBlock)
        ensures
            r == *self,
    {
        ResidualBlock { mixer: self.mixer.clone(), norm: self.norm.clone() }
    }
}

/// The numbers that a layer is made of.
pub open spec fn layer(b: ResidualBlock) -> Layer {
    Layer { norm: vector(b.norm()), mixer: mixer(b.mixer().weights()) }
}

/// The layer is made of what a store may hand out, under a path, for a layer of the configuration
/// `cfg`.
pub open spec fn layer_fetched(
    b: ResidualBlock,
    store: int,
    path: Seq<Seq<char>>,
    dt: DType,
    cfg: Config,
) -> bool {
    &&& sized_for(b.mixer(), cfg)
    &&& fetched(b.mixer().weights(), store, path.push("mixer"@), dt, cfg)
    &&& handed(
        store,
        named(path, "norm"@, "weight"@),
        dt,
        shape1(cfg.d_model as nat),
        b.norm(),
    )
}

/// A store may refuse one of the tensors of a layer of the configuration `cfg`, under a path.
pub open spec fn layer_refused(store: int, path: Seq<Seq<char>>, dt: DType, cfg: Config) -> bool {
    ||| refused(store, named(path, "norm"@, "weight"@), dt, shape1(cfg.d_model as nat))
    ||| block_refused(store, path.push("mixer"@), dt, cfg)
}

/// What the layer `l` asks of its tokens `x`, whether they are single or sequences: its tensors have
/// the shapes that belong together, one allocation may hold what it computes, and if the tokens do
/// not lie in row-major order, their numbers are not whole.
pub open spec fn norm_room(l: ResidualBlock, x: Tensor) -> bool {
    &&& fits(dims(x))
    &&& dims(x).len() > 0 ==> {
        &&& l.shaped()
        &&& contiguous(x) || !is_integer(dtype_of(x))
        &&& fits(dims(x).drop_last().push(17 * l.mixer().inner()))
    }
}

/// The layer `l` can take the tokens `x` without running out of what one allocation may hold.
pub open spec fn layer_step_room(l: ResidualBlock, x: Tensor, conv_state: Tensor) -> bool {
    norm_room(l, x) && fits(dims(conv_state))
}

/// The tokens `x` go with the layer `l`, and with what `h` and `conv_state` remember.
pub open spec fn layer_step_goes(l: ResidualBlock, x: Tensor, h: Tensor, conv_state: Tensor) -> bool {
    &&& step_goes(l.mixer().weights(), x, h, conv_state)
    &&& dims(x)[1] == l.mixer().model()
    &&& rms_fits(x, l.norm())
}

/// The layer `l` can take the sequences `xs` without running out of what one allocation may hold.
pub open spec fn layer_sequence_room(l: ResidualBlock, xs: Tensor) -> bool {
    &&& norm_room(l, xs)
    &&& dims(xs).len() == 3 ==> fits(
        shape3(dims(xs)[0], dims(xs)[1] + 3, 17 * l.mixer().inner()),
    )
}

/// The sequences `xs` go with the layer `l`.
pub open spec fn layer_sequence_goes(l: ResidualBlock, xs: Tensor) -> bool {
    &&& sequence_goes(l.mixer().weights(), xs)
    &&& dims(xs)[2] == l.mixer().model()
    &&& rms_fits(xs, l.norm())
}

impl ResidualBlock {
    /// The block.
    pub closed spec fn mixer(self) -> MambaBlock {
        self.mixer
    }

    /// The factors of the normalisation.
    pub closed spec fn norm(self) -> Tensor {
        self.norm
    }

    /// The tensors have the shapes that belong together.
    pub open spec fn shaped(self) -> bool {
        self.mixer().shaped() && dims(self.norm()) == shape1(self.mixer().model())
    }

    /// A layer of the given tensors.
    pub fn from_parts(norm: Tensor, mixer: MambaBlock) -> (r: ResidualBlock)
        ensures
            r.norm() == norm,
            r.mixer() == mixer,
    {
        ResidualBlock { mixer, norm }
    }

    /// Whether the tensors have the shapes that belong together.
    pub fn has_shapes(&self) -> (r: bool)
        ensures
            r <==> self.shaped(),
    {
        self.mixer.has_shapes() && has_shape1(&self.norm, self.mixer.d_model())
    }

    /// The block.
    pub fn block(&self) -> (r: &MambaBlock)
        ensures
            *r == self.mixer(),
    {
        &self.mixer
    }

    /// A layer of the configuration `cfg`, with the tensors that `vb` hands out.
    ///
    /// A source is to hand out tensors of the shapes that it is asked for. What it does hand out is
    /// taken as it is.
    pub fn new(cfg: &Config, vb: VarBuilder<'_>) -> (r: Result<ResidualBlock, MambaError>)
        requires
            block_room(cfg.d_model as nat),
        ensures
            r matches Ok(b) ==> layer_fetched(
                b,
                store_of(vb),
                path_of(vb),
                type_of(vb),
                *cfg,
            ),
            r matches Ok(b) ==> {
                let (w, path) = (b.mixer().weights(), path_of(vb).push("mixer"@));
                let (store, dt) = (store_of(vb), type_of(vb));
                let width = cfg.d_model as nat;
                let rank = ((cfg.d_model + 15) / 16) as nat;
                &&& b.mixer().model() == cfg.d_model
                &&& b.mixer().inner() == 2 * cfg.d_model
                &&& b.mixer().rank() == (cfg.d_model + 15) / 16
                &&& handed(
                    store,
                    path_of(vb).push("norm"@).push("weight"@),
                    dt,
                    shape1(width),
                    b.norm(),
                )
                &&& handed(
                    store,
                    path.push("in_proj"@).push("weight"@),
                    dt,
                    shape2(4 * width, width),
                    w.in_proj,
                )
                &&& handed(
                    store,
                    path.push("conv1d"@).push("weight"@),
                    dt,
                    shape3(2 * width, 1, 4),
                    w.conv_weight,
                )
                &&& handed(
                    store,
                    path.push("conv1d"@).push("bias"@),
                    dt,
                    shape1(2 * width),
                    w.conv_bias,
                )
                &&& handed(
                    store,
                    path.push("x_proj"@).push("weight"@),
                    dt,
                    shape2(rank + 32, 2 * width),
                    w.x_proj,
                )
                &&& handed(
                    store,
                    path.push("dt_proj"@).push("weight"@),
                    dt,
                    shape2(2 * width, rank),
                    w.dt_weight,
                )
                &&& handed(
                    store,
                    path.push("dt_proj"@).push("bias"@),
                    dt,
                    shape1(2 * width),
                    w.dt_bias,
                )
                &&& handed(store, path.push("A_log"@), dt, shape2(2 * width, 16), w.a_log)
                &&& handed(store, path.push("D"@), dt, shape1(2 * width), w.d)
                &&& handed(
                    store,
                    path.push("out_proj"@).push("weight"@),
                    dt,
                    shape2(width, 2 * width),
                    w.out_proj,
                )
            },
            r matches Err(e) ==> e is Candle && layer_refused(
                store_of(vb),
                path_of(vb),
                type_of(vb),
                *cfg,
            ),
    {
        proof {
            lemma_weights_fit(cfg.d_model as nat);
            lemma_fits_shorter(Seq::empty(), (2 * cfg.d_model) as nat, cfg.d_model as nat);
        }
        let norm = lifted(fetch_rms_norm(&below(&vb, "norm"), cfg.d_model, NORM_EPS))?;
        let mixer = MambaBlock::new(cfg, below(&vb, "mixer"))?;
        Ok(Self::from_parts(norm, mixer))
    }

    /// Whether a layer can normalise `x`.
    fn takes(&self, x: &Tensor) -> (r: bool)
        ensures
            r <==> norm_room(*self, *x),
    {
        let mut s = sizes(x);
        let d_inner: usize = self.mixer.d_inner();
        let ghost s0 = s@;
        proof {
            use_type_invariant(&self.mixer);
            self.mixer.lemma_sized();
        }
        if !fits_in_memory(&s) {
            return false;
        }
        match s.pop() {
            None => true,
            Some(last) => {
                proof {
                    assert(shape_of(s0).drop_last() =~= shape_of(s@));
                    assert(shape_of(s0).last() == last);
                }
                s.push(17 * d_inner);
                proof {
                    assert(shape_of(s@) =~= shape_of(s0).drop_last().push((17 * d_inner) as nat));
                }
                self.has_shapes() && (is_in_order(x) || !is_integer_type(dtype(x)))
                    && fits_in_memory(&s)
            },
        }
    }

    /// Whether `forward_step` can be called with these tensors.
    pub fn takes_step(&self, x: &Tensor, conv_state: &Tensor) -> (r: bool)
        ensures
            r <==> layer_step_room(*self, *x, *conv_state),
    {
        self.takes(x) && fits_itself(conv_state)
    }

    /// Forward pass for single token generation.
    ///
    /// # Arguments
    /// * `x` - Input tensor: (batch, d_model)
    /// * `h` - SSM hidden state: (batch, d_inner, d_state)
    /// * `conv_state` - Conv history: (batch, d_inner, d_conv)
    ///
    /// # Returns
    /// * Output: (batch, d_model)
    /// * Updated h
    /// * Updated conv_state
    pub fn forward_step(&self, x: &Tensor, h: &Tensor, conv_state: &Tensor) -> (r: Result<
        (Tensor, Tensor, Tensor),
        MambaError,
    >)
        requires
            layer_step_room(*self, *x, *conv_state),
        ensures
            held_by_cpu(self.mixer().weights()) && on_cpu(self.norm()) && on_cpu(*x) && on_cpu(*h)
                && on_cpu(*conv_state) && layer_step_goes(*self, *x, *h, *conv_state) ==> r is Ok,
            r matches Ok((out, h1, taps)) ==> {
                let w = self.mixer().weights();
                let (b, inner) = (dims(*x)[0], self.mixer().inner());
                &&& layer_step_goes(*self, *x, *h, *conv_state)
                &&& dims(out) == dims(*x)
                &&& dtype_of(out) == dtype_of(*x)
                &&& contiguous(out)
                &&& dims(h1) == shape3(b, inner, D_STATE as nat)
                &&& dtype_of(h1) == dtype_of(*x)
                &&& dims(taps) == shape3(b, inner, D_CONV as nat)
                &&& dtype_of(taps) == dtype_of(*x)
                &&& held_by_cpu(w) && on_cpu(*x) && on_cpu(*h) && on_cpu(*conv_state) ==> on_cpu(
                    out,
                ) && on_cpu(h1) && on_cpu(taps)
                &&& forall|i: int|
                    0 <= i < b ==> transforms(
                        layer(*self),
                        dtype_of(*x),
                        row(*x, ix1(i)),
                        memory(*h, *conv_state, i, inner),
                        memory(h1, taps, i, inner),
                        #[trigger] row(out, ix1(i)),
                    )
            },
    {
        broadcast use group_index;

        proof {
            use_type_invariant(&self.mixer);
            self.mixer.lemma_sized();
        }
        let ghost inner = self.mixer().inner();
        let ghost model = self.mixer().model();
        let ghost dt = dtype_of(*x);
        let ghost lead = dims(*x).drop_last();
        proof {
            if dims(*x).len() > 0 {
                lemma_lead(dims(*x));
                lemma_fits_shorter(lead, 17 * inner, model);
                lemma_inhabited_push(lead, dims(*x).last());
                lemma_inhabited_push(lead, model);
            }
            assert(dims(*x).len() == 2 ==> lead =~= shape1(dims(*x)[0]));
        }
        let normed = normalised(x, &self.norm)?;
        proof {
            assert(dims(normed).drop_last() =~= lead);
        }
        let (y, h1, taps) = self.mixer.forward_step(&normed, h, conv_state)?;
        let out = plus(&y, x)?;
        proof {
            let b = dims(*x)[0];
            assert(lead =~= shape1(b));
            assert forall|i: int| 0 <= i < b implies transforms(
                layer(*self),
                dt,
                row(*x, ix1(i)),
                memory(*h, *conv_state, i, inner),
                memory(h1, taps, i, inner),
                #[trigger] row(out, ix1(i)),
            ) by {
                assert(within(ix1(i), lead));
                assert(rms_gives(
                    dt,
                    row(*x, ix1(i)),
                    layer(*self).norm,
                    NORM_EPS@,
                    row(normed, ix1(i)),
                ));
                assert(mixes(
                    layer(*self).mixer,
                    dt,
                    row(normed, ix1(i)),
                    memory(*h, *conv_state, i, inner),
                    memory(h1, taps, i, inner),
                    row(y, ix1(i)),
                ));
                assert forall|k: int| 0 <= k < model implies add_gives(
                    dt,
                    row(y, ix1(i))[k],
                    row(*x, ix1(i))[k],
                    #[trigger] row(out, ix1(i))[k],
                ) by {
                    assert(within(ix2(i, k), dims(out)));
                    assert(row(out, ix1(i))[k] == at(out, ix2(i, k)));
                }
                assert(adds(dt, row(y, ix1(i)), row(*x, ix1(i)), row(out, ix1(i))));
            }
        }
        Ok((out, h1, taps))
    }

    /// Whether `forward_sequence` can be called with this tensor.
    pub fn takes_sequence(&self, xs: &Tensor) -> (r: bool)
        ensures
            r <==> layer_sequence_room(*self, *xs),
    {
        let s = sizes(xs);
        proof {
            assert(forall|k: int| 0 <= k < s@.len() ==> shape_of(s@)[k] == s@[k]);
        }
        self.takes(xs) && (s.len() != 3 || fits3(s[0], s[1], 3, self.mixer.d_inner(), 17))
    }

    /// Forward pass for sequence processing (prefill mode).
    ///
    /// # Arguments
    /// * `xs` - Input tensor: (batch, seq_len, d_model)
    ///
    /// # Returns
    /// * Output: (batch, seq_len, d_model)
    /// * Final SSM state: (batch, d_inner, d_state)
    /// * Final conv state: (batch, d_inner, d_conv)
    pub fn forward_sequence(&self, xs: &Tensor) -> (r: Result<
        (Tensor, Tensor, Tensor),
        MambaError,
    >)
        requires
            layer_sequence_room(*self, *xs),
        ensures
            held_by_cpu(self.mixer().weights()) && on_cpu(self.norm()) && on_cpu(*xs)
                && layer_sequence_goes(*self, *xs) ==> r is Ok,
            r matches Ok((out, h, taps)) ==> {
                let inner = self.mixer().inner();
                &&& layer_sequence_goes(*self, *xs)
                &&& dims(out) == dims(*xs)
                &&& dtype_of(out) == dtype_of(*xs)
                &&& contiguous(out)
                &&& dims(h) == shape3(dims(*xs)[0], inner, D_STATE as nat)
                &&& dtype_of(h) == dtype_of(*xs)
                &&& dims(taps) == shape3(dims(*xs)[0], inner, D_CONV as nat)
                &&& dtype_of(taps) == dtype_of(*xs)
                &&& on_cpu(*xs) ==> on_cpu(out) && on_cpu(h) && on_cpu(taps)
                &&& forall|i: int|
                    0 <= i < dims(*xs)[0] ==> runs(
                        layer_step(layer(*self), dtype_of(*xs)),
                        slice(*xs, i),
                        blank(inner),
                        memory(h, taps, i, inner),
                        #[trigger] slice(out, i),
                    )
            },
    {
        broadcast use group_index;

        proof {
            use_type_invariant(&self.mixer);
            self.mixer.lemma_sized();
        }
        let ghost inner = self.mixer().inner();
        let ghost model = self.mixer().model();
        let ghost l = layer(*self);
        let ghost dt = dtype_of(*xs);
        let ghost lead = dims(*xs).drop_last();
        proof {
            if dims(*xs).len() > 0 {
                lemma_lead(dims(*xs));
                lemma_fits_shorter(lead, 17 * inner, model);
                lemma_inhabited_push(lead, dims(*xs).last());
                lemma_inhabited_push(lead, model);
            }
            assert(dims(*xs).len() == 3 ==> lead =~= shape2(dims(*xs)[0], dims(*xs)[1]));
        }
        let normed = normalised(xs, &self.norm)?;
        proof {
            assert(dims(normed).drop_last() =~= lead);
        }
        let (y, h, taps) = self.mixer.forward_sequence(&normed)?;
        let out = plus(&y, xs)?;
        proof {
            let (b, len) = (dims(*xs)[0], dims(*xs)[1]);
            assert forall|i: int| 0 <= i < b implies runs(
                layer_step(l, dt),
                slice(*xs, i),
                blank(inner),
                memory(h, taps, i, inner),
                #[trigger] slice(out, i),
            ) by {
                let inside = mixer_step(l.mixer, dt);
                let (xin, yout) = (slice(normed, i), slice(y, i));
                assert(runs(inside, xin, blank(inner), memory(h, taps, i, inner), yout));
                let ms = choose|ms: Seq<Memory>| #[trigger]
                    traces(inside, xin, ms, yout) && ms.first() == blank(inner) && ms.last()
                        == memory(h, taps, i, inner);
                assert forall|t: int| #![trigger slice(out, i)[t]] 0 <= t < len implies layer_step(
                    l,
                    dt,
                )(slice(*xs, i)[t], ms[t], ms[t + 1], slice(out, i)[t]) by {
                    let at_t = ix2(i, t);
                    assert(within(at_t, lead));
                    assert(yout[t] == row(y, at_t));
                    assert(inside(xin[t], ms[t], ms[t + 1], yout[t]));
                    assert(rms_gives(dt, row(*xs, at_t), l.norm, NORM_EPS@, row(normed, at_t)));
                    assert(mixes(l.mixer, dt, row(normed, at_t), ms[t], ms[t + 1], row(y, at_t)));
                    assert forall|k: int| 0 <= k < model implies add_gives(
                        dt,
                        row(y, at_t)[k],
                        row(*xs, at_t)[k],
                        #[trigger] row(out, at_t)[k],
                    ) by {
                        assert(within(ix3(i, t, k), dims(out)));
                        assert(row(out, at_t)[k] == at(out, ix3(i, t, k)));
                    }
                    assert(adds(dt, row(y, at_t), row(*xs, at_t), row(out, at_t)));
                }
                assert(traces(layer_step(l, dt), slice(*xs, i), ms, slice(out, i)));
            }
        }
        Ok((out, h, taps))
    }
}

/// What a store that keeps to the shapes that it is asked for hands out for a layer has the shapes
/// that belong together.
pub proof fn law_kept_shapes_fit_layer(
    b: ResidualBlock,
    store: int,
    path: Seq<Seq<char>>,
    dt: DType,
    cfg: Config,
)
    requires
        keeps_shapes(store),
        layer_fetched(b, store, path, dt, cfg),
    ensures
        b.shaped(),
{
    law_kept_shapes_fit_block(b.mixer(), store, path.push("mixer"@), dt, cfg);
}

} // verus!
