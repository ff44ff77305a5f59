//! The Mamba language model.
use crate::array::{
    at_least_one, fits, group_index, inhabited, ix1, ix2, ix3, lemma_volume, shape1, shape2,
    shape3, within,
};
use crate::block::{held_by_cpu, lemma_token_fits, memory, named, remembers, typed};
use crate::config::{model_room, rows_for, Config, D_CONV, D_STATE};
use crate::error::{lifted, MambaError};
use crate::layers::{ids_fit, is_norm_float, named_row, rms_fits, rms_gives, NORM_EPS};
use crate::net::{
    blanks, cascade, cascades, completes, descends, descent, embedded, embeddings, generates,
    heads, leads, prefills, Net,
};
use crate::recurrence::{blank, layer_step, projects, runs, transforms, Layer};
use crate::residual::{
    law_kept_shapes_fit_layer, layer, layer_fetched, layer_refused, layer_sequence_goes,
    layer_step_goes, ResidualBlock,
};
use crate::rows::{
    lemma_fits_shorter, lemma_fits_update, lemma_inhabited_push, lemma_lead, looked_up, matrix,
    normalised, project, select, slice, vector,
};
use crate::sizes::{
    fits2, fits3, fits_in_memory, fits_itself, has_shape1, is_integer_type,
};
use crate::state::{memories, memories_in, zeroed, State};
use crate::tensor::{
    at, contiguous, dims, dims1, dims2, dtype, dtype_of, is_float, is_integer, is_matrix_float,
    is_storable, on_cpu, row, same_kind, shape_of, sizes, stretches, unbroken,
};
use crate::weights::{
    asked_type, below, decimal, fetch_embedding, fetch_rms_norm, handed, keeps_shapes,
    path_of, refused, store_of, type_of, written, VarBuilder,
};
use candle_core::{DType, Device, Tensor};
use vstd::prelude::*;

verus! {

broadcast use group_index;

/// Mamba model with prefill and generation support.
#[derive(Debug)]
pub struct Model {
    embedding: Tensor,
    layers: Vec<ResidualBlock>,
    norm_f: Tensor,
    lm_head: Tensor,
    dtype: DType,
    d_model: usize,
}

/// The numbers that a model is made of.
pub open spec fn net(m: Model) -> Net {
    Net {
        table: matrix(m.table()),
        width: m.width(),
        layers: Seq::new(m.layers().len(), |k: int| layer(m.layers()[k])),
        inner: m.inner(),
        norm: vector(m.norm()),
    }
}

/// The model is made of what a store may hand out, under a path, for a model of the configuration
/// `cfg`.
pub open spec fn model_fetched(
    m: Model,
    store: int,
    path: Seq<Seq<char>>,
    dt: DType,
    cfg: Config,
) -> bool {
    let (rows, width) = (rows_for(cfg) as nat, cfg.d_model as nat);
    &&& m.width() == width
    &&& m.kind() == dt
    &&& handed(store, named(path, "embedding"@, "weight"@), dt, shape2(rows, width), m.table())
    &&& handed(store, named(path, "norm_f"@, "weight"@), dt, shape1(width), m.norm())
    &&& m.layers().len() == cfg.n_layer
    &&& forall|k: int|
        0 <= k < cfg.n_layer ==> layer_fetched(
            #[trigger] m.layers()[k],
            store,
            named(path, "layers"@, decimal(k as nat)),
            dt,
            cfg,
        )
}

/// A store may refuse one of the tensors of a model of the configuration `cfg`, under a path.
pub open spec fn model_refused(store: int, path: Seq<Seq<char>>, dt: DType, cfg: Config) -> bool {
    let (rows, width) = (rows_for(cfg) as nat, cfg.d_model as nat);
    ||| refused(store, named(path, "embedding"@, "weight"@), dt, shape2(rows, width))
    ||| refused(store, named(path, "norm_f"@, "weight"@), dt, shape1(width))
    ||| exists|k: nat|
        k < cfg.n_layer && #[trigger] layer_refused(
            store,
            named(path, "layers"@, decimal(k)),
            dt,
            cfg,
        )
}

/// The tensors of a layer are held by the CPU.
pub open spec fn layer_on_cpu(l: ResidualBlock) -> bool {
    held_by_cpu(l.mixer().weights()) && on_cpu(l.norm())
}

/// Tokens of the type `dt` that lie in row-major order can be normalised by the factors `norm`.
pub open spec fn norm_ready(norm: Tensor, dt: DType) -> bool {
    dtype_of(norm) == dt && contiguous(norm) && is_norm_float(dt)
}

/// A layer can take sequences of the type `dt`.
pub open spec fn layer_passes(l: ResidualBlock, dt: DType) -> bool {
    &&& typed(l.mixer().weights(), dt)
    &&& dtype_of(l.mixer().weights().d) == dt
    &&& norm_ready(l.norm(), dt)
}

/// A layer can take a batch of `items` single tokens of the type `dt`.
pub open spec fn layer_steps(l: ResidualBlock, dt: DType, items: nat) -> bool {
    &&& norm_ready(l.norm(), dt)
    &&& is_storable(dtype_of(l.mixer().weights().a_log))
    &&& is_storable(dtype_of(l.mixer().weights().d))
    &&& items > 0 ==> typed(l.mixer().weights(), dt)
}

/// The tensors of a model are held by the CPU.
pub open spec fn model_on_cpu(m: Model) -> bool {
    &&& on_cpu(m.table())
    &&& on_cpu(m.norm())
    &&& forall|k: int| 0 <= k < m.layers().len() ==> layer_on_cpu(#[trigger] m.layers()[k])
}

/// The layers of a model can take sequences of its embeddings.
pub open spec fn layers_pass(m: Model) -> bool {
    forall|k: int|
        0 <= k < m.layers().len() ==> layer_passes(#[trigger] m.layers()[k], dtype_of(m.table()))
}

/// The identifiers `ids` have embeddings.
pub open spec fn ids_go(m: Model, ids: Tensor) -> bool {
    &&& ids_fit(ids, m.vocab())
    &&& contiguous(m.table())
    &&& is_storable(dtype_of(m.table()))
}

/// The logits of at least one token can be computed from embeddings of the type of the table.
pub open spec fn table_ready(m: Model) -> bool {
    m.vocab() > 0 ==> is_matrix_float(dtype_of(m.table()))
}

/// `forward_all` can compute the logits of the prompts `ids`.
pub open spec fn all_goes(m: Model, ids: Tensor) -> bool {
    &&& dims(ids).len() == 2
    &&& dims(ids)[0] > 0
    &&& dims(ids)[1] > 0
    &&& ids_go(m, ids)
    &&& layers_pass(m)
    &&& norm_ready(m.norm(), dtype_of(m.table()))
    &&& table_ready(m)
}

/// `forward_prefill` can take the prompts `ids`. Without layers there does not have to be a prompt.
/// The last tokens of several prompts of several tokens do not lie in row-major order, so that they
/// are normalised in another way.
pub open spec fn prefill_goes(m: Model, ids: Tensor) -> bool {
    let dt = dtype_of(m.table());
    &&& dims(ids).len() == 2
    &&& dims(ids)[1] > 0
    &&& m.layers().len() > 0 ==> dims(ids)[0] > 0
    &&& ids_go(m, ids)
    &&& layers_pass(m)
    &&& is_float(dt)
    &&& dtype_of(m.norm()) == dt
    &&& dims(ids)[0] <= 1 || dims(ids)[1] == 1 ==> norm_ready(m.norm(), dt)
    &&& dims(ids)[0] > 0 ==> table_ready(m)
}

/// The model can take a batch of `items` tokens.
pub open spec fn generate_ready(m: Model, items: nat) -> bool {
    let dt = dtype_of(m.table());
    &&& forall|k: int|
        0 <= k < m.layers().len() ==> layer_steps(#[trigger] m.layers()[k], dt, items)
    &&& norm_ready(m.norm(), dt)
    &&& items > 0 ==> table_ready(m)
}

/// `forward_generate` can take the tokens `ids` after the state `state`.
pub open spec fn generate_goes(m: Model, ids: Tensor, state: State) -> bool {
    &&& dims(ids).len() == 1
    &&& ids_go(m, ids)
    &&& generate_ready(m, dims(ids)[0])
    &&& state_goes(m, state, dims(ids)[0])
}

/// The model can take the prompts `ids` without running out of what one allocation may hold. Its
/// tensors have the shapes that belong together.
pub open spec fn prompt_room(m: Model, ids: Tensor) -> bool {
    dims(ids).len() == 2 ==> {
        &&& m.shaped()
        &&& m.width() > 0
        &&& fits(dims(ids))
        &&& fits(shape3(dims(ids)[0], dims(ids)[1] + 3, 17 * m.inner()))
    }
}

/// `forward_prefill` can take the prompts `ids`. Without layers there has to be a token, and
/// embeddings of whole numbers have to stand alone, at one position or in one prompt.
pub open spec fn prefill_room(m: Model, ids: Tensor) -> bool {
    &&& prompt_room(m, ids)
    &&& dims(ids).len() == 2 ==> {
        &&& fits(shape2(dims(ids)[0], m.vocab()))
        &&& m.layers().len() == 0 ==> {
            &&& dims(ids)[1] > 0
            &&& !is_integer(dtype_of(m.table())) || dims(ids)[0] <= 1 || dims(ids)[1] == 1
        }
    }
}

/// `forward_all` can take the prompts `ids`.
pub open spec fn all_room(m: Model, ids: Tensor) -> bool {
    &&& prompt_room(m, ids)
    &&& dims(ids).len() == 2 ==> fits(shape3(dims(ids)[0], dims(ids)[1], m.vocab()))
}

/// The tensors of one layer after a sequence: its states have the shapes that belong to a batch of
/// `items`.
pub open spec fn state_shaped(h: Tensor, taps: Tensor, items: nat, inner: nat, dt: DType) -> bool {
    &&& dims(h) == shape3(items, inner, D_STATE as nat)
    &&& dtype_of(h) == dt
    &&& dims(taps) == shape3(items, inner, D_CONV as nat)
    &&& dtype_of(taps) == dt
}

/// Layer `l` has taken the sequences `x0` to `x1`, and remembers them in `h` and `taps`.
spec fn passed(
    l: ResidualBlock,
    dt: DType,
    inner: nat,
    x0: Tensor,
    h: Tensor,
    taps: Tensor,
    x1: Tensor,
) -> bool {
    &&& dims(x1) == dims(x0)
    &&& state_shaped(h, taps, dims(x0)[0], inner, dt)
    &&& layer_passes(l, dt)
    &&& on_cpu(x0) ==> on_cpu(x1) && on_cpu(h) && on_cpu(taps)
    &&& forall|i: int|
        0 <= i < dims(x0)[0] ==> runs(
            layer_step(layer(l), dt),
            slice(x0, i),
            blank(inner),
            memory(h, taps, i, inner),
            #[trigger] slice(x1, i),
        )
}

/// Layer `l` has taken the tokens `x0` to `x1`, and what it remembers from `h0` and `taps0` to `h1`
/// and `taps1`.
spec fn stepped(
    l: ResidualBlock,
    dt: DType,
    inner: nat,
    x0: Tensor,
    h0: Tensor,
    taps0: Tensor,
    h1: Tensor,
    taps1: Tensor,
    x1: Tensor,
) -> bool {
    &&& dims(x1) == dims(x0)
    &&& state_shaped(h1, taps1, dims(x0)[0], inner, dt)
    &&& remembers(taps0, dims(x0)[0], inner, dt)
    &&& stretches(dims(h0), shape3(dims(x0)[0], inner, D_STATE as nat))
    &&& dims(x0)[0] > 0 ==> dtype_of(h0) == dt
    &&& layer_steps(l, dt, dims(x0)[0])
    &&& forall|i: int|
        0 <= i < dims(x0)[0] ==> transforms(
            layer(l),
            dt,
            row(x0, ix1(i)),
            memory(h0, taps0, i, inner),
            memory(h1, taps1, i, inner),
            #[trigger] row(x1, ix1(i)),
        )
}

/// The model can take the tokens `ids` after the state `state` without running out of what one
/// allocation may hold. Its tensors have the shapes that belong together, the state is that of as
/// many layers, and the position can be counted on.
pub open spec fn token_room(m: Model, ids: Tensor, state: State) -> bool {
    dims(ids).len() == 1 ==> {
        &&& m.shaped()
        &&& m.width() > 0
        &&& fits(dims(ids))
        &&& fits(shape2(dims(ids)[0], 17 * m.inner()))
        &&& fits(shape2(dims(ids)[0], m.vocab()))
        &&& state.hs@.len() >= m.layers().len()
        &&& state.conv_states@.len() >= m.layers().len()
        &&& forall|k: int|
            0 <= k < m.layers().len() ==> fits(dims(#[trigger] state.conv_states@[k]))
        &&& state.pos < usize::MAX
    }
}

/// What the state `state` holds for layer `k` goes with the model and a batch of `items`. Where there
/// are none, the type of the hidden states is not compared.
pub open spec fn entry_goes(m: Model, state: State, k: int, items: nat) -> bool {
    &&& stretches(dims(state.hs@[k]), shape3(items, m.inner(), D_STATE as nat))
    &&& items > 0 ==> dtype_of(state.hs@[k]) == dtype_of(m.table())
    &&& remembers(state.conv_states@[k], items, m.inner(), dtype_of(m.table()))
}

/// The state `state` goes with the model and a batch of `items`.
pub open spec fn state_goes(m: Model, state: State, items: nat) -> bool {
    forall|k: int|
        #![trigger state.hs@[k]]
        #![trigger state.conv_states@[k]]
        0 <= k < m.layers().len() ==> entry_goes(m, state, k, items)
}

/// The state `state` is held by the CPU.
pub open spec fn state_on_cpu(m: Model, state: State) -> bool {
    forall|k: int|
        #![trigger state.hs@[k]]
        #![trigger state.conv_states@[k]]
        0 <= k < m.layers().len() ==> on_cpu(state.hs@[k]) && on_cpu(state.conv_states@[k])
}

/// The first `n` layers have taken the tokens `ids` from the state `s0` to the state `s1`, in which
/// the other layers remember what they did.
pub open spec fn advanced(m: Model, ids: Tensor, s0: State, s1: State, n: nat) -> bool {
    &&& s1.hs@.len() == s0.hs@.len()
    &&& s1.conv_states@.len() == s0.conv_states@.len()
    &&& forall|k: int| n <= k < s0.hs@.len() ==> #[trigger] s1.hs@[k] == s0.hs@[k]
    &&& forall|k: int|
        n <= k < s0.conv_states@.len() ==> #[trigger] s1.conv_states@[k] == s0.conv_states@[k]
    &&& forall|i: int|
        0 <= i < dims(ids)[0] ==> leads(
            net(m).layers.take(n as int),
            dtype_of(m.table()),
            embedded(net(m), dtype_of(ids), #[trigger] at(ids, ix1(i))),
            memories(s0, i, m.inner(), n),
            memories(s1, i, m.inner(), n),
        )
}

/// The layers have taken the tokens `ids` from the state `s0` to the state `s1` as far as layer `n`,
/// with which they have stopped. What `s0` holds for the layers before it fits. The position counts
/// the tokens only once all layers have taken them.
pub open spec fn halted(m: Model, ids: Tensor, s0: State, s1: State, n: nat) -> bool {
    let items = dims(ids)[0];
    &&& n <= m.layers().len()
    &&& advanced(m, ids, s0, s1, n)
    &&& s1.pos == s0.pos + if n < m.layers().len() {
        0int
    } else {
        1
    }
    &&& forall|k: int|
        #![trigger s0.hs@[k]]
        #![trigger s0.conv_states@[k]]
        0 <= k < n ==> entry_goes(m, s0, k, items)
}

impl Clone for Model {
    fn clone(&self) -> (r: Model)
        ensures
            r.table() == self.table(),
            r.layers() == self.layers(),
            r.norm() == self.norm(),
            r.kind() == self.kind(),
            r.width() == self.width(),
    {
        proof {
            use_type_invariant(self);
        }
        let mut layers: Vec<ResidualBlock> = Vec::new();
        for n in 0..self.layers.len()
            invariant
                layers@ == self.layers@.take(n as int),
        {
            layers.push(self.layers[n].clone());
            assert(layers@ =~= self.layers@.take(n + 1));
        }
        assert(layers@ =~= self.layers@);
        Model {
            embedding: self.embedding.clone(),
            layers,
            norm_f: self.norm_f.clone(),
            lm_head: self.lm_head.clone(),
            dtype: self.dtype,
            d_model: self.d_model,
        }
    }
}

impl Model {
    /// The embeddings: (vocab_size, d_model)
    pub closed spec fn table(self) -> Tensor {
        self.embedding
    }

    /// The layers.
    pub closed spec fn layers(self) -> Seq<ResidualBlock> {
        self.layers@
    }

    /// The factors of the last normalisation: (d_model,)
    pub closed spec fn norm(self) -> Tensor {
        self.norm_f
    }

    /// The element type that the model was loaded with.
    pub closed spec fn kind(self) -> DType {
        self.dtype
    }

    /// The number of tokens.
    pub open spec fn vocab(self) -> nat {
        dims(self.table())[0]
    }

    /// The width of the residual stream.
    pub closed spec fn width(self) -> nat {
        self.d_model as nat
    }

    /// The number of channels of each layer.
    pub open spec fn inner(self) -> nat {
        2 * self.width()
    }

    /// The tensors have the shapes that belong together, and that can be allocated.
    pub open spec fn shaped(self) -> bool {
        &&& dims(self.table()) == shape2(self.vocab(), self.width())
        &&& fits(dims(self.table()))
        &&& dims(self.norm()) == shape1(self.width())
        &&& fits(dims(self.norm()))
        &&& forall|k: int|
            0 <= k < self.layers().len() ==> self.fitting(#[trigger] self.layers()[k])
    }

    /// The tensors of the layer `l` have the shapes that belong to the width of the model.
    pub open spec fn fitting(self, l: ResidualBlock) -> bool {
        &&& l.shaped()
        &&& l.mixer().model() == self.width()
        &&& l.mixer().inner() == self.inner()
    }

    /// The logits are computed with the embeddings.
    #[verifier::type_invariant]
    spec fn tied(self) -> bool {
        self.lm_head == self.embedding
    }

    /// The model can compute.
    spec fn valid(self) -> bool {
        self.shaped() && self.tied()
    }

    /// The element type that the model was loaded with.
    pub fn dtype(&self) -> (r: DType)
        ensures
            r == self.kind(),
    {
        self.dtype
    }

    /// A model of the given tensors and layers, for tokens of the width `d_model`.
    pub fn from_parts(
        embedding: Tensor,
        layers: Vec<ResidualBlock>,
        norm_f: Tensor,
        dtype: DType,
        d_model: usize,
    ) -> (r: Model)
        ensures
            r.table() == embedding,
            r.layers() == layers@,
            r.norm() == norm_f,
            r.kind() == dtype,
            r.width() == d_model,
    {
        let lm_head = embedding.clone();
        Model { embedding, layers, norm_f, lm_head, dtype, d_model }
    }

    /// Whether the tensors have the shapes that belong together, and that can be allocated.
    pub fn has_shapes(&self) -> (r: bool)
        ensures
            r <==> self.shaped(),
    {
        let s = sizes(&self.embedding);
        proof {
            assert(forall|k: int| 0 <= k < s@.len() ==> shape_of(s@)[k] == s@[k]);
        }
        if !(s.len() == 2 && s[1] == self.d_model && fits_in_memory(&s) && has_shape1(
            &self.norm_f,
            self.d_model,
        ) && fits_itself(&self.norm_f)) {
            return false;
        }
        assert(dims(self.embedding) =~= shape2(self.vocab(), self.width()));
        for n in 0..self.layers.len()
            invariant
                forall|k: int| 0 <= k < n ==> self.fitting(#[trigger] self.layers()[k]),
        {
            let layer = &self.layers[n];
            let block = layer.block();
            proof {
                use_type_invariant(block);
                block.lemma_sized();
            }
            if !(block.d_model() == self.d_model && layer.has_shapes()) {
                assert(!self.fitting(self.layers()[n as int]));
                return false;
            }
        }
        true
    }

    /// A model of the configuration `cfg`, with the tensors that `vb` hands out.
    ///
    /// A source is to hand out tensors of the shapes that it is asked for. What it does hand out is
    /// taken as it is.
    pub fn new(cfg: &Config, vb: VarBuilder<'_>) -> (r: Result<Model, MambaError>)
        requires
            model_room(*cfg),
        ensures
            r matches Ok(m) ==> model_fetched(m, store_of(vb), path_of(vb), type_of(vb), *cfg),
            r matches Ok(m) ==> {
                let (store, path, dt) = (store_of(vb), path_of(vb), type_of(vb));
                let (rows, width) = (rows_for(*cfg) as nat, cfg.d_model as nat);
                &&& handed(
                    store,
                    path.push("embedding"@).push("weight"@),
                    dt,
                    shape2(rows, width),
                    m.table(),
                )
                &&& handed(store, path.push("norm_f"@).push("weight"@), dt, shape1(width), m.norm())
                &&& m.layers().len() == cfg.n_layer
                &&& m.width() == width
                &&& m.kind() == dt
            },
            r matches Ok(m) ==> forall|k: int|
                #![trigger m.layers()[k]]
                0 <= k < cfg.n_layer ==> {
                    let (store, dt) = (store_of(vb), type_of(vb));
                    let width = cfg.d_model as nat;
                    let rank = ((cfg.d_model + 15) / 16) as nat;
                    let place = path_of(vb).push("layers"@).push(decimal(k as nat));
                    let path = place.push("mixer"@);
                    let w = m.layers()[k].mixer().weights();
                    &&& m.layers()[k].mixer().model() == cfg.d_model
                    &&& m.layers()[k].mixer().inner() == 2 * cfg.d_model
                    &&& m.layers()[k].mixer().rank() == (cfg.d_model + 15) / 16
                    &&& handed(
                        store,
                        place.push("norm"@).push("weight"@),
                        dt,
                        shape1(width),
                        m.layers()[k].norm(),
                    )
                    &&& handed(
                        store,
                        path.push("in_proj"@).push("weight"@),
                        dt,
                        shape2(4 * width, width),
                        w.in_proj,
                    )
                    &&& handed(
                        store,
                        path.push("conv1d"@).push("weight"@),
                        dt,
                        shape3(2 * width, 1, 4),
                        w.conv_weight,
                    )
                    &&& handed(
                        store,
                        path.push("conv1d"@).push("bias"@),
                        dt,
                        shape1(2 * width),
                        w.conv_bias,
                    )
                    &&& handed(
                        store,
                        path.push("x_proj"@).push("weight"@),
                        dt,
                        shape2(rank + 32, 2 * width),
                        w.x_proj,
                    )
                    &&& handed(
                        store,
                        path.push("dt_proj"@).push("weight"@),
                        dt,
                        shape2(2 * width, rank),
                        w.dt_weight,
                    )
                    &&& handed(
                        store,
                        path.push("dt_proj"@).push("bias"@),
                        dt,
                        shape1(2 * width),
                        w.dt_bias,
                    )
                    &&& handed(store, path.push("A_log"@), dt, shape2(2 * width, 16), w.a_log)
                    &&& handed(store, path.push("D"@), dt, shape1(2 * width), w.d)
                    &&& handed(
                        store,
                        path.push("out_proj"@).push("weight"@),
                        dt,
                        shape2(width, 2 * width),
                        w.out_proj,
                    )
                },
            r matches Err(e) ==> e is Candle && model_refused(
                store_of(vb),
                path_of(vb),
                type_of(vb),
                *cfg,
            ),
    {
        let rows: usize = cfg.vocab_size();
        proof {
            lemma_model_fits(*cfg);
        }
        let embedding = lifted(fetch_embedding(&below(&vb, "embedding"), rows, cfg.d_model))?;
        let mut layers: Vec<ResidualBlock> = Vec::new();
        let vb_l = below(&vb, "layers");
        for layer_idx in 0..cfg.n_layer
            invariant
                model_room(*cfg),
                store_of(vb_l) == store_of(vb),
                path_of(vb_l) == path_of(vb).push("layers"@),
                type_of(vb_l) == type_of(vb),
                layers@.len() == layer_idx,
                forall|k: int|
                    0 <= k < layer_idx ==> layer_fetched(
                        #[trigger] layers@[k],
                        store_of(vb),
                        named(path_of(vb), "layers"@, decimal(k as nat)),
                        type_of(vb),
                        *cfg,
                    ),
        {
            let text = written(layer_idx);
            let layer = ResidualBlock::new(cfg, below(&vb_l, text.as_str()));
            proof {
                let (store, path, dt) = (store_of(vb), path_of(vb), type_of(vb));
                let place = named(path, "layers"@, decimal(layer_idx as nat));
                if layer is Err {
                    assert(layer_refused(store, place, dt, *cfg));
                }
            }
            layers.push(layer?);
        }
        let norm_f = lifted(fetch_rms_norm(&below(&vb, "norm_f"), cfg.d_model, NORM_EPS))?;
        let m = Self::from_parts(embedding, layers, norm_f, asked_type(&vb), cfg.d_model);
        proof {
            let (store, path, dt) = (store_of(vb), path_of(vb), type_of(vb));
            let width = cfg.d_model as nat;
            assert(handed(
                store,
                named(path, "embedding"@, "weight"@),
                dt,
                shape2(rows as nat, width),
                m.table(),
            ));
            assert(handed(store, named(path, "norm_f"@, "weight"@), dt, shape1(width), m.norm()));
        }
        Ok(m)
    }

    /// The embeddings of whole prompts.
    fn embed_prompt(&self, ids: &Tensor) -> (r: Result<Tensor, MambaError>)
        requires
            self.valid(),
            dims(*ids).len() == 2,
            prompt_room(*self, *ids),
        ensures
            on_cpu(self.table()) && on_cpu(*ids) && ids_go(*self, *ids) ==> r is Ok,
            r matches Ok(xs) ==> {
                &&& ids_go(*self, *ids)
                &&& dims(xs) == shape3(dims(*ids)[0], dims(*ids)[1], self.width())
                &&& same_kind(xs, self.table())
                &&& contiguous(xs)
                &&& forall|i: int|
                    0 <= i < dims(*ids)[0] ==> #[trigger] slice(xs, i) == embeddings(
                        net(*self),
                        dtype_of(*ids),
                        row(*ids, ix1(i)),
                    )
            },
    {
        let ghost (b, l, width) = (dims(*ids)[0], dims(*ids)[1], self.width());
        proof {
            assert(dims(*ids) =~= shape2(b, l));
            lemma_prompt_fits(b, l, width);
        }
        let xs = looked_up(&self.embedding, self.d_model, ids)?;
        proof {
            assert forall|i: int| 0 <= i < b implies #[trigger] slice(xs, i) == embeddings(
                net(*self),
                dtype_of(*ids),
                row(*ids, ix1(i)),
            ) by {
                let es = embeddings(net(*self), dtype_of(*ids), row(*ids, ix1(i)));
                assert forall|t: int| 0 <= t < l implies #[trigger] slice(xs, i)[t] == es[t] by {
                    lemma_embedded(*self, *ids, ix2(i, t));
                    assert(within(ix2(i, t), dims(*ids)));
                    assert(row(xs, ix2(i, t)) == named_row(
                        dtype_of(*ids),
                        at(*ids, ix2(i, t)),
                        self.table(),
                    ));
                }
                assert(slice(xs, i) =~= es);
            }
        }
        Ok(xs)
    }

    /// The logits for every row of `x`.
    fn head(&self, x: &Tensor) -> (r: Result<Tensor, MambaError>)
        requires
            self.valid(),
            self.width() > 0,
            dims(*x).len() == 2 || dims(*x).len() == 3,
            dims(*x).last() == self.width(),
            dtype_of(*x) == dtype_of(self.table()),
            contiguous(*x) || !is_integer(dtype_of(*x)),
            dims(*x).len() == 3 ==> contiguous(*x),
            fits(dims(*x)),
            fits(dims(*x).drop_last().push(self.vocab())),
        ensures
            on_cpu(*x) && on_cpu(self.norm()) && on_cpu(self.table()) && rms_fits(*x, self.norm())
                && (dims(*x).len() == 3 ==> inhabited(dims(*x).drop_last())) && (inhabited(
                dims(*x).drop_last(),
            ) ==> table_ready(*self)) ==> r is Ok,
            r matches Ok(logits) ==> {
                let lead = dims(*x).drop_last();
                &&& rms_fits(*x, self.norm())
                &&& dims(*x).len() == 3 ==> inhabited(lead)
                &&& inhabited(lead) ==> table_ready(*self)
                &&& dims(logits) == lead.push(self.vocab())
                &&& dtype_of(logits) == dtype_of(*x)
                &&& on_cpu(*x) ==> on_cpu(logits)
                &&& forall|i: Seq<int>|
                    within(i, lead) ==> heads(
                        net(*self),
                        dtype_of(*x),
                        row(*x, i),
                        #[trigger] row(logits, i),
                    )
            },
    {
        let ghost lead = dims(*x).drop_last();
        proof {
            lemma_lead(dims(*x));
            lemma_inhabited_push(lead, self.width());
            lemma_inhabited_push(lead, self.vocab());
        }
        let normed = normalised(x, &self.norm_f)?;
        proof {
            assert(dims(normed) =~= dims(*x));
            if dims(*x).len() == 3 && !inhabited(dims(*x)) {
                assert(!inhabited(lead));
            }
        }
        let logits = project(&normed, &self.lm_head, None)?;
        proof {
            assert forall|i: Seq<int>| within(i, lead) implies heads(
                net(*self),
                dtype_of(*x),
                row(*x, i),
                #[trigger] row(logits, i),
            ) by {
                assert(rms_gives(
                    dtype_of(*x),
                    row(*x, i),
                    net(*self).norm,
                    NORM_EPS@,
                    row(normed, i),
                ));
                assert(projects(
                    dtype_of(*x),
                    net(*self).table,
                    None,
                    row(normed, i),
                    row(logits, i),
                ));
            }
        }
        Ok(logits)
    }

    /// All layers, one after the other, over whole sequences.
    fn pass(&self, xs: Tensor) -> (r: Result<(Tensor, Vec<Tensor>, Vec<Tensor>), MambaError>)
        requires
            self.valid(),
            self.width() > 0,
            dims(xs).len() == 3,
            dims(xs)[2] == self.width(),
            dtype_of(xs) == dtype_of(self.table()),
            contiguous(xs),
            fits(shape3(dims(xs)[0], dims(xs)[1] + 3, 17 * self.inner())),
        ensures
            on_cpu(xs) && model_on_cpu(*self) && layers_pass(*self) && (self.layers().len() > 0
                ==> dims(xs)[0] > 0 && dims(xs)[1] > 0) ==> r is Ok,
            r matches Ok((out, hs, taps)) ==> {
                let n = self.layers().len();
                let dt = dtype_of(xs);
                &&& dims(out) == dims(xs)
                &&& dtype_of(out) == dt
                &&& contiguous(out)
                &&& on_cpu(xs) ==> on_cpu(out)
                &&& n > 0 ==> dims(xs)[0] > 0 && dims(xs)[1] > 0
                &&& layers_pass(*self)
                &&& hs@.len() == n
                &&& taps@.len() == n
                &&& forall|k: int|
                    #![trigger hs@[k]]
                    #![trigger taps@[k]]
                    0 <= k < n ==> {
                        &&& state_shaped(hs@[k], taps@[k], dims(xs)[0], self.inner(), dt)
                        &&& on_cpu(xs) ==> on_cpu(hs@[k]) && on_cpu(taps@[k])
                    }
                &&& forall|i: int|
                    0 <= i < dims(xs)[0] ==> cascades(
                        net(*self).layers,
                        dt,
                        slice(xs, i),
                        blanks(net(*self)),
                        memories_in(hs@, taps@, i, self.inner(), n),
                        #[trigger] slice(out, i),
                    )
            },
    {
        let ghost (b, l) = (dims(xs)[0], dims(xs)[1]);
        let ghost dt = dtype_of(xs);
        let ghost inner = self.inner();
        let ghost mut zs: Seq<Tensor> = Seq::empty().push(xs);
        proof {
            assert(dims(xs) =~= shape3(b, l, self.width()));
            lemma_prompt_fits(b, l, self.width());
        }
        let mut cur = xs;
        let mut hs: Vec<Tensor> = Vec::new();
        let mut taps: Vec<Tensor> = Vec::new();
        for n in 0..self.layers.len()
            invariant
                self.valid(),
                self.width() > 0,
                inner == self.inner(),
                dims(cur) == shape3(b, l, self.width()),
                dtype_of(cur) == dt,
                dtype_of(xs) == dt,
                dtype_of(self.table()) == dt,
                contiguous(cur),
                fits(shape3(b, l + 3, 17 * inner)),
                fits(shape3(b, l, 17 * inner)),
                fits(dims(cur)),
                on_cpu(xs) ==> on_cpu(cur),
                n > 0 ==> b > 0 && l > 0,
                zs.len() == n + 1,
                zs[0] == xs,
                zs[n as int] == cur,
                dims(xs) == dims(cur),
                hs@.len() == n,
                taps@.len() == n,
                forall|k: int| 0 <= k <= n ==> dims(#[trigger] zs[k]) == dims(xs),
                forall|k: int|
                    0 <= k <= n ==> (on_cpu(xs) ==> on_cpu(#[trigger] zs[k])),
                forall|k: int|
                    #![trigger hs@[k]]
                    #![trigger taps@[k]]
                    #![trigger self.layers@[k]]
                    0 <= k < n ==> passed(
                        self.layers@[k],
                        dt,
                        inner,
                        zs[k],
                        hs@[k],
                        taps@[k],
                        zs[k + 1],
                    ),
        {
            proof {
                let l = self.layers()[n as int];
                assert(l == self.layers@[n as int]);
                assert(self.fitting(l));
                assert(layer_sequence_goes(l, cur) <==> b > 0 && dims(cur)[1] > 0 && layer_passes(
                    l,
                    dt,
                ));
            }
            let (out, h, conv_state) = self.layers[n].forward_sequence(&cur)?;
            let ghost (hs0, taps0, zs0) = (hs@, taps@, zs);
            cur = out;
            hs.push(h);
            taps.push(conv_state);
            proof {
                zs = zs.push(cur);
                assert(passed(self.layers@[n as int], dt, inner, zs0[n as int], h, conv_state, cur));
                assert forall|k: int|
                    #![trigger hs@[k]]
                    #![trigger taps@[k]]
                    #![trigger self.layers@[k]]
                    0 <= k <= n implies passed(
                    self.layers@[k],
                    dt,
                    inner,
                    zs[k],
                    hs@[k],
                    taps@[k],
                    zs[k + 1],
                ) by {
                    assert(zs[k] == zs0[k]);
                    if k < n {
                        assert(hs@[k] == hs0[k] && taps@[k] == taps0[k] && zs[k + 1] == zs0[k + 1]);
                    }
                }
            }
        }
        proof {
            let n = self.layers@.len();
            let nt = net(*self);
            assert forall|i: int| 0 <= i < b implies cascades(
                nt.layers,
                dt,
                slice(xs, i),
                blanks(nt),
                memories_in(hs@, taps@, i, inner, n),
                #[trigger] slice(cur, i),
            ) by {
                let ms = memories_in(hs@, taps@, i, inner, n);
                let ws = Seq::new(n + 1, |k: int| slice(zs[k], i));
                assert forall|k: int| #![trigger ms[k]] 0 <= k < n implies runs(
                    layer_step(nt.layers[k], dt),
                    ws[k],
                    blanks(nt)[k],
                    ms[k],
                    ws[k + 1],
                ) by {
                    let h = hs@[k];
                    assert(dims(zs[k])[0] == b);
                    assert(passed(self.layers@[k], dt, inner, zs[k], h, taps@[k], zs[k + 1]));
                    assert(ws[k + 1] == slice(zs[k + 1], i));
                }
                assert(cascade(nt.layers, dt, ws, blanks(nt), ms));
            }
        }
        Ok((cur, hs, taps))
    }

    /// Whether `forward_prefill` can be called with these identifiers.
    pub fn takes_prompt(&self, input_ids: &Tensor) -> (r: bool)
        ensures
            r <==> prefill_room(*self, *input_ids),
    {
        let s = sizes(input_ids);
        proof {
            assert(forall|k: int| 0 <= k < s@.len() ==> shape_of(s@)[k] == s@[k]);
            assert(34 * self.d_model == 17 * self.inner());
        }
        s.len() != 2 || (self.has_shapes() && self.d_model > 0 && fits_in_memory(&s) && fits3(
            s[0],
            s[1],
            3,
            self.d_model,
            34,
        ) && fits2(s[0], self.rows(), 1) && (self.layers.len() > 0 || (s[1] > 0 && (
        !is_integer_type(dtype(&self.embedding)) || s[0] <= 1 || s[1] == 1))))
    }

    /// The number of tokens.
    fn rows(&self) -> (r: usize)
        requires
            self.shaped(),
        ensures
            r == self.vocab(),
    {
        let table = sizes(&self.embedding);
        proof {
            assert(shape_of(table@)[0] == table@[0]);
        }
        table[0]
    }

    /// Process an entire sequence (prefill mode).
    ///
    /// This is efficient for processing prompts - single forward pass
    /// instead of token-by-token.
    ///
    /// # Arguments
    /// * `input_ids` - Token IDs: (batch, seq_len)
    ///
    /// # Returns
    /// * Logits for the last token: (batch, vocab_size)
    /// * State for continued generation
    pub fn forward_prefill(&self, input_ids: &Tensor) -> (r: Result<(Tensor, State), MambaError>)
        requires
            prefill_room(*self, *input_ids),
        ensures
            model_on_cpu(*self) && on_cpu(*input_ids) && prefill_goes(*self, *input_ids)
                ==> r is Ok,
            r matches Ok((logits, state)) ==> {
                let (b, n) = (dims(*input_ids)[0], self.layers().len());
                let dt = dtype_of(self.table());
                &&& prefill_goes(*self, *input_ids)
                &&& dims(logits) == shape2(b, self.vocab())
                &&& dtype_of(logits) == dt
                &&& state.pos == dims(*input_ids)[1]
                &&& state.hs@.len() == n
                &&& state.conv_states@.len() == n
                &&& forall|k: int|
                    #![trigger state.hs@[k]]
                    #![trigger state.conv_states@[k]]
                    0 <= k < n ==> {
                        &&& state_shaped(state.hs@[k], state.conv_states@[k], b, self.inner(), dt)
                        &&& on_cpu(self.table()) ==> on_cpu(state.hs@[k]) && on_cpu(
                            state.conv_states@[k],
                        )
                    }
                &&& forall|i: int|
                    0 <= i < b ==> prefills(
                        net(*self),
                        dt,
                        dtype_of(*input_ids),
                        row(*input_ids, ix1(i)),
                        memories(state, i, self.inner(), n),
                        #[trigger] row(logits, ix1(i)),
                    )
            },
    {
        proof {
            use_type_invariant(self);
        }
        let (_b_sz, seq_len) = dims2(input_ids)?;
        let ghost (b, l, width) = (_b_sz as nat, seq_len as nat, self.width());
        let ghost dt = dtype_of(self.table());
        let ghost nt = net(*self);
        proof {
            lemma_prompt_fits(b, l, width);
        }
        let xs = self.embed_prompt(input_ids)?;
        let ghost start = xs;
        let (xs, hs, conv_states) = self.pass(xs)?;
        let last_hidden = select(&xs, 1, seq_len - 1)?;
        proof {
            let lead = dims(last_hidden).drop_last();
            if self.layers().len() > 0 {
                assert(layer_passes(self.layers()[0], dt));
            }
            assert(dims(last_hidden) =~= shape2(b, width));
            assert(lead =~= shape1(b));
            lemma_inhabited_push(Seq::empty(), b);
            lemma_inhabited_push(lead, width);
            lemma_lead(dims(last_hidden));
            assert(Seq::<nat>::empty().push(b) =~= shape1(b));
            assert(unbroken(dims(xs), 1, 1) <==> b <= 1 || l == 1) by {
                assert(dims(xs)[0] == b);
            }
        }
        let logits = self.head(&last_hidden)?;
        let state = State { hs, conv_states, pos: seq_len };
        proof {
            assert forall|i: int| 0 <= i < b implies prefills(
                nt,
                dt,
                dtype_of(*input_ids),
                row(*input_ids, ix1(i)),
                memories(state, i, self.inner(), self.layers().len()),
                #[trigger] row(logits, ix1(i)),
            ) by {
                let outs = slice(xs, i);
                assert(slice(start, i) == embeddings(
                    nt,
                    dtype_of(*input_ids),
                    row(*input_ids, ix1(i)),
                ));
                assert(row(last_hidden, ix1(i)) =~= outs.last()) by {
                    assert forall|j: int| 0 <= j < width implies row(last_hidden, ix1(i))[j]
                        == outs.last()[j] by {
                        assert(within(ix2(i, j), dims(last_hidden)));
                        assert(at(last_hidden, ix2(i, j)) == at(xs, ix3(i, l - 1, j)));
                    }
                }
                assert(within(ix1(i), shape1(b)));
                assert(heads(nt, dt, outs.last(), row(logits, ix1(i))));
                assert(cascades(
                    nt.layers,
                    dt,
                    slice(start, i),
                    blanks(nt),
                    memories(state, i, self.inner(), self.layers().len()),
                    outs,
                ));
            }
        }
        Ok((logits, state))
    }

    /// Whether `forward_all` can be called with these identifiers.
    pub fn takes_all(&self, input_ids: &Tensor) -> (r: bool)
        ensures
            r <==> all_room(*self, *input_ids),
    {
        let s = sizes(input_ids);
        proof {
            assert(forall|k: int| 0 <= k < s@.len() ==> shape_of(s@)[k] == s@[k]);
            assert(34 * self.d_model == 17 * self.inner());
        }
        s.len() != 2 || (self.has_shapes() && self.d_model > 0 && fits_in_memory(&s) && fits3(
            s[0],
            s[1],
            3,
            self.d_model,
            34,
        ) && fits3(s[0], s[1], 0, self.rows(), 1))
    }

    /// Convenience method: process full sequence and return all logits.
    ///
    /// # Arguments
    /// * `input_ids` - Token IDs: (batch, seq_len)
    ///
    /// # Returns
    /// * Logits for all positions: (batch, seq_len, vocab_size)
    pub fn forward_all(&self, input_ids: &Tensor) -> (r: Result<Tensor, MambaError>)
        requires
            all_room(*self, *input_ids),
        ensures
            model_on_cpu(*self) && on_cpu(*input_ids) && all_goes(*self, *input_ids) ==> r is Ok,
            r matches Ok(logits) ==> {
                let (b, l) = (dims(*input_ids)[0], dims(*input_ids)[1]);
                let dt = dtype_of(self.table());
                &&& all_goes(*self, *input_ids)
                &&& dims(logits) == shape3(b, l, self.vocab())
                &&& dtype_of(logits) == dt
                &&& forall|i: int|
                    0 <= i < b ==> completes(
                        net(*self),
                        dt,
                        dtype_of(*input_ids),
                        row(*input_ids, ix1(i)),
                        #[trigger] slice(logits, i),
                    )
            },
    {
        proof {
            use_type_invariant(self);
        }
        let (_b_sz, _seq_len) = dims2(input_ids)?;
        let ghost (b, l, width) = (_b_sz as nat, _seq_len as nat, self.width());
        let ghost dt = dtype_of(self.table());
        let ghost nt = net(*self);
        proof {
            lemma_prompt_fits(b, l, width);
        }
        let xs = self.embed_prompt(input_ids)?;
        let ghost start = xs;
        let (xs, _hs, _conv_states) = self.pass(xs)?;
        proof {
            let lead = dims(xs).drop_last();
            assert(lead =~= shape2(b, l));
            assert(inhabited(lead) <==> b > 0 && l > 0) by {
                assert(lead[0] == b && lead[1] == l);
            }
        }
        let logits = self.head(&xs)?;
        proof {
            assert forall|i: int| 0 <= i < b implies completes(
                nt,
                dt,
                dtype_of(*input_ids),
                row(*input_ids, ix1(i)),
                #[trigger] slice(logits, i),
            ) by {
                let outs = slice(xs, i);
                let mem = memories_in(_hs@, _conv_states@, i, self.inner(), self.layers().len());
                assert(slice(start, i) == embeddings(
                    nt,
                    dtype_of(*input_ids),
                    row(*input_ids, ix1(i)),
                ));
                assert(cascades(nt.layers, dt, slice(start, i), blanks(nt), mem, outs));
                assert forall|t: int| 0 <= t < l implies heads(
                    nt,
                    dt,
                    outs[t],
                    #[trigger] slice(logits, i)[t],
                ) by {
                    assert(within(ix2(i, t), shape2(b, l)));
                    assert(slice(logits, i)[t] == row(logits, ix2(i, t)));
                }
            }
        }
        Ok(logits)
    }

    /// The embeddings of single tokens.
    fn embed_tokens(&self, ids: &Tensor) -> (r: Result<Tensor, MambaError>)
        requires
            self.valid(),
            self.width() > 0,
            dims(*ids).len() == 1,
            fits(dims(*ids)),
            fits(shape2(dims(*ids)[0], 17 * self.inner())),
        ensures
            on_cpu(self.table()) && on_cpu(*ids) && ids_go(*self, *ids) ==> r is Ok,
            r matches Ok(x) ==> {
                &&& ids_go(*self, *ids)
                &&& dims(x) == shape2(dims(*ids)[0], self.width())
                &&& same_kind(x, self.table())
                &&& contiguous(x)
                &&& forall|i: int|
                    0 <= i < dims(*ids)[0] ==> #[trigger] row(x, ix1(i)) == embedded(
                        net(*self),
                        dtype_of(*ids),
                        at(*ids, ix1(i)),
                    )
            },
    {
        let ghost b = dims(*ids)[0];
        proof {
            assert(dims(*ids) =~= shape1(b));
            lemma_fits_shorter(shape1(b), 17 * self.inner(), self.width());
        }
        let x = looked_up(&self.embedding, self.d_model, ids)?;
        proof {
            assert forall|i: int| 0 <= i < b implies #[trigger] row(x, ix1(i)) == embedded(
                net(*self),
                dtype_of(*ids),
                at(*ids, ix1(i)),
            ) by {
                assert(within(ix1(i), dims(*ids)));
                lemma_embedded(*self, *ids, ix1(i));
            }
        }
        Ok(x)
    }

    /// Whether `forward_generate` can be called with these identifiers and this state.
    pub fn takes_token(&self, input_id: &Tensor, state: &State) -> (r: bool)
        ensures
            r <==> token_room(*self, *input_id, *state),
    {
        let s = sizes(input_id);
        proof {
            assert(forall|k: int| 0 <= k < s@.len() ==> shape_of(s@)[k] == s@[k]);
            assert(34 * self.d_model == 17 * self.inner());
        }
        if s.len() != 1 {
            return true;
        }
        let n: usize = self.layers.len();
        if !(self.has_shapes() && self.d_model > 0 && fits_in_memory(&s) && fits2(
            s[0],
            self.d_model,
            34,
        ) && fits2(s[0], self.rows(), 1) && state.hs.len() >= n && state.conv_states.len() >= n
            && state.pos < usize::MAX) {
            return false;
        }
        for k in 0..n
            invariant
                dims(*input_id).len() == 1,
                n == self.layers().len(),
                n <= state.conv_states@.len(),
                forall|j: int| 0 <= j < k ==> fits(dims(#[trigger] state.conv_states@[j])),
        {
            if !fits_itself(&state.conv_states[k]) {
                assert(!fits(dims(state.conv_states@[k as int])));
                return false;
            }
        }
        true
    }

    /// Generate a single token given previous state.
    ///
    /// Use this after `forward_prefill()` for continued generation. Identifiers that cannot be used
    /// leave the state as it was. After another error the state may have been advanced for the
    /// layers before the one that failed.
    ///
    /// # Arguments
    /// * `input_id` - Single token ID: (batch,)
    /// * `state` - State from prefill or previous generation step
    ///
    /// # Returns
    /// * Logits: (batch, vocab_size)
    pub fn forward_generate(&self, input_id: &Tensor, state: &mut State) -> (r: Result<
        Tensor,
        MambaError,
    >)
        requires
            token_room(*self, *input_id, *old(state)),
        ensures
            model_on_cpu(*self) && on_cpu(*input_id) && state_on_cpu(*self, *old(state))
                && generate_goes(*self, *input_id, *old(state)) ==> r is Ok,
            r matches Ok(logits) ==> {
                let (b, n) = (dims(*input_id)[0], self.layers().len());
                let dt = dtype_of(self.table());
                &&& generate_goes(*self, *input_id, *old(state))
                &&& dims(logits) == shape2(b, self.vocab())
                &&& dtype_of(logits) == dt
                &&& final(state).pos == old(state).pos + 1
                &&& advanced(*self, *input_id, *old(state), *final(state), n)
                &&& model_on_cpu(*self) && state_on_cpu(*self, *old(state)) ==> state_on_cpu(
                    *self,
                    *final(state),
                )
                &&& forall|k: int|
                    #![trigger final(state).hs@[k]]
                    #![trigger final(state).conv_states@[k]]
                    0 <= k < n ==> state_shaped(
                        final(state).hs@[k],
                        final(state).conv_states@[k],
                        b,
                        self.inner(),
                        dt,
                    )
                &&& forall|i: int|
                    0 <= i < b ==> generates(
                        net(*self),
                        dt,
                        dtype_of(*input_id),
                        at(*input_id, ix1(i)),
                        memories(*old(state), i, self.inner(), n),
                        memories(*final(state), i, self.inner(), n),
                        #[trigger] row(logits, ix1(i)),
                    )
            },
            r is Err && !(dims(*input_id).len() == 1 && ids_go(*self, *input_id)) ==> *final(state)
                == *old(state),
            r is Err ==> {
                ||| *final(state) == *old(state)
                ||| exists|n: nat| #[trigger]
                    halted(*self, *input_id, *old(state), *final(state), n)
            },
            r is Err && model_on_cpu(*self) && on_cpu(*input_id) && state_on_cpu(*self, *old(state))
                && dims(*input_id).len() == 1 && ids_go(*self, *input_id) && generate_ready(
                *self,
                dims(*input_id)[0],
            ) ==> exists|n: nat|
                {
                    &&& #[trigger] halted(*self, *input_id, *old(state), *final(state), n)
                    &&& n < self.layers().len()
                    &&& !entry_goes(*self, *old(state), n as int, dims(*input_id)[0])
                },
    {
        proof {
            use_type_invariant(self);
        }
        let _b_sz = dims1(input_id)?;
        let ghost (b, width, inner) = (_b_sz as nat, self.width(), self.inner());
        let ghost dt = dtype_of(self.table());
        let ghost nt = net(*self);
        let mut x = self.embed_tokens(input_id)?;
        let ghost first = x;
        let ghost mut vs: Seq<Tensor> = Seq::empty().push(x);
        let ghost s0 = *state;
        proof {
            lemma_fits_shorter(shape1(b), 17 * inner, width);
        }
        for n in 0..self.layers.len()
            invariant
                self.valid(),
                width == self.width(),
                width > 0,
                inner == self.inner(),
                dt == dtype_of(self.table()),
                dims(*input_id) == shape1(b),
                s0 == *old(state),
                token_room(*self, *input_id, s0),
                fits(shape2(b, width)),
                dims(x) == shape2(b, width),
                dtype_of(x) == dt,
                contiguous(x),
                model_on_cpu(*self) && state_on_cpu(*self, s0) ==> on_cpu(x),
                vs.len() == n + 1,
                vs[0] == first,
                vs[n as int] == x,
                ids_go(*self, *input_id),
                forall|i: int|
                    0 <= i < b ==> #[trigger] row(first, ix1(i)) == embedded(
                        net(*self),
                        dtype_of(*input_id),
                        at(*input_id, ix1(i)),
                    ),
                forall|k: int| 0 <= k <= n ==> dims(#[trigger] vs[k]) == shape2(b, width),
                state.pos == s0.pos,
                state.hs@.len() == s0.hs@.len(),
                state.conv_states@.len() == s0.conv_states@.len(),
                forall|k: int| n <= k < s0.hs@.len() ==> #[trigger] state.hs@[k] == s0.hs@[k],
                forall|k: int|
                    n <= k < s0.conv_states@.len() ==> #[trigger] state.conv_states@[k]
                        == s0.conv_states@[k],
                forall|k: int|
                    #![trigger state.hs@[k]]
                    #![trigger state.conv_states@[k]]
                    #![trigger self.layers@[k]]
                    0 <= k < n ==> stepped(
                        self.layers@[k],
                        dt,
                        inner,
                        vs[k],
                        s0.hs@[k],
                        s0.conv_states@[k],
                        state.hs@[k],
                        state.conv_states@[k],
                        vs[k + 1],
                    ),
                forall|k: int|
                    #![trigger state.hs@[k]]
                    #![trigger state.conv_states@[k]]
                    0 <= k < n && model_on_cpu(*self) && state_on_cpu(*self, s0) ==> on_cpu(
                        state.hs@[k],
                    ) && on_cpu(state.conv_states@[k]),
        {
            proof {
                let l = self.layers()[n as int];
                assert(l == self.layers@[n as int]);
                assert(self.fitting(l));
                assert(state.conv_states@[n as int] == s0.conv_states@[n as int]);
                assert(state.hs@[n as int] == s0.hs@[n as int]);
            }
            let step = self.layers[n].forward_step(&x, &state.hs[n], &state.conv_states[n]);
            proof {
                lemma_halted(*self, *input_id, s0, *state, vs, n as nat);
                let l = self.layers()[n as int];
                let (h, taps) = (s0.hs@[n as int], s0.conv_states@[n as int]);
                assert(layer_step_goes(l, x, h, taps) <==> layer_steps(l, dt, b) && entry_goes(
                    *self,
                    s0,
                    n as int,
                    b,
                ));
                if model_on_cpu(*self) && generate_ready(*self, b) && state_on_cpu(*self, s0)
                    && entry_goes(*self, s0, n as int, b) {
                    assert(layer_on_cpu(l) && layer_steps(l, dt, b));
                    assert(step is Ok);
                }
            }
            let (out, h_new, conv_new) = step?;
            let ghost (s1, vs1) = (*state, vs);
            x = out;
            state.hs[n] = h_new;
            state.conv_states[n] = conv_new;
            proof {
                vs = vs.push(x);
                assert forall|k: int|
                    #![trigger state.hs@[k]]
                    #![trigger state.conv_states@[k]]
                    #![trigger self.layers@[k]]
                    0 <= k <= n implies stepped(
                    self.layers@[k],
                    dt,
                    inner,
                    vs[k],
                    s0.hs@[k],
                    s0.conv_states@[k],
                    state.hs@[k],
                    state.conv_states@[k],
                    vs[k + 1],
                ) by {
                    assert(vs[k] == vs1[k]);
                    if k < n {
                        assert(state.hs@[k] == s1.hs@[k]);
                        assert(state.conv_states@[k] == s1.conv_states@[k]);
                        assert(vs[k + 1] == vs1[k + 1]);
                    }
                }
            }
        }
        let ghost n = self.layers().len();
        state.pos = state.pos + 1;
        proof {
            lemma_halted(*self, *input_id, s0, *state, vs, n);
            assert(nt.layers.take(n as int) =~= nt.layers);
            assert(dims(x).drop_last() =~= shape1(b));
            lemma_inhabited_push(Seq::empty(), b);
            assert(Seq::<nat>::empty().push(b) =~= shape1(b));
        }
        let logits = self.head(&x)?;
        proof {
            assert forall|i: int| 0 <= i < b implies generates(
                nt,
                dt,
                dtype_of(*input_id),
                at(*input_id, ix1(i)),
                memories(s0, i, inner, n),
                memories(*state, i, inner, n),
                #[trigger] row(logits, ix1(i)),
            ) by {
                lemma_descends(*self, *input_id, s0, *state, vs, n, i);
                assert(within(ix1(i), shape1(b)));
                assert(heads(nt, dt, row(x, ix1(i)), row(logits, ix1(i))));
            }
            assert forall|k: int| 0 <= k < n implies layer_steps(
                #[trigger] self.layers()[k],
                dt,
                b,
            ) by {
                let l = self.layers@[k];
                assert(dims(vs[k]) == shape2(b, width));
            }
            assert(generate_ready(*self, b));
            assert(state_goes(*self, s0, b));
        }
        Ok(logits)
    }
}

/// What the first `n` layers have done to item `i` of the batch is a way through them.
proof fn lemma_descends(
    m: Model,
    ids: Tensor,
    s0: State,
    s1: State,
    vs: Seq<Tensor>,
    n: nat,
    i: int,
)
    requires
        n <= m.layers().len(),
        0 <= i < dims(ids)[0],
        vs.len() == n + 1,
        row(vs[0], ix1(i)) == embedded(net(m), dtype_of(ids), at(ids, ix1(i))),
        forall|k: int| 0 <= k <= n ==> dims(#[trigger] vs[k])[0] == dims(ids)[0],
        forall|k: int|
            #![trigger s1.hs@[k]]
            0 <= k < n ==> stepped(
                m.layers()[k],
                dtype_of(m.table()),
                m.inner(),
                vs[k],
                s0.hs@[k],
                s0.conv_states@[k],
                s1.hs@[k],
                s1.conv_states@[k],
                vs[k + 1],
            ),
    ensures
        descends(
            net(m).layers.take(n as int),
            dtype_of(m.table()),
            embedded(net(m), dtype_of(ids), at(ids, ix1(i))),
            memories(s0, i, m.inner(), n),
            memories(s1, i, m.inner(), n),
            row(vs.last(), ix1(i)),
        ),
{
    let dt = dtype_of(m.table());
    let layers = net(m).layers.take(n as int);
    let (before, after) = (memories(s0, i, m.inner(), n), memories(s1, i, m.inner(), n));
    let ws = Seq::new(n + 1, |k: int| row(vs[k], ix1(i)));
    assert forall|k: int| #![trigger after[k]] 0 <= k < n implies transforms(
        layers[k],
        dt,
        ws[k],
        before[k],
        after[k],
        ws[k + 1],
    ) by {
        let h = s1.hs@[k];
        assert(dims(vs[k])[0] == dims(ids)[0]);
        assert(ws[k + 1] == row(vs[k + 1], ix1(i)));
    }
    assert(descent(layers, dt, ws, before, after));
}

/// The first `n` layers have advanced the state, whose position counts the tokens if these are all
/// layers.
proof fn lemma_halted(m: Model, ids: Tensor, s0: State, s1: State, vs: Seq<Tensor>, n: nat)
    requires
        n <= m.layers().len(),
        vs.len() == n + 1,
        forall|i: int|
            0 <= i < dims(ids)[0] ==> #[trigger] row(vs[0], ix1(i)) == embedded(
                net(m),
                dtype_of(ids),
                at(ids, ix1(i)),
            ),
        s1.hs@.len() == s0.hs@.len(),
        s1.conv_states@.len() == s0.conv_states@.len(),
        forall|k: int| n <= k < s0.hs@.len() ==> #[trigger] s1.hs@[k] == s0.hs@[k],
        forall|k: int|
            n <= k < s0.conv_states@.len() ==> #[trigger] s1.conv_states@[k] == s0.conv_states@[k],
        s1.pos == s0.pos + if n < m.layers().len() {
            0int
        } else {
            1
        },
        forall|k: int| 0 <= k <= n ==> dims(#[trigger] vs[k])[0] == dims(ids)[0],
        forall|k: int| 0 <= k < n ==> m.fitting(#[trigger] m.layers()[k]),
        forall|k: int|
            #![trigger s1.hs@[k]]
            0 <= k < n ==> stepped(
                m.layers()[k],
                dtype_of(m.table()),
                m.inner(),
                vs[k],
                s0.hs@[k],
                s0.conv_states@[k],
                s1.hs@[k],
                s1.conv_states@[k],
                vs[k + 1],
            ),
    ensures
        halted(m, ids, s0, s1, n),
{
    assert forall|i: int| 0 <= i < dims(ids)[0] implies leads(
        net(m).layers.take(n as int),
        dtype_of(m.table()),
        embedded(net(m), dtype_of(ids), #[trigger] at(ids, ix1(i))),
        memories(s0, i, m.inner(), n),
        memories(s1, i, m.inner(), n),
    ) by {
        assert(row(vs[0], ix1(i)) == embedded(net(m), dtype_of(ids), at(ids, ix1(i))));
        lemma_descends(m, ids, s0, s1, vs, n, i);
    }
    let items = dims(ids)[0];
    assert forall|k: int|
        #![trigger s0.hs@[k]]
        #![trigger s0.conv_states@[k]]
        0 <= k < n implies entry_goes(m, s0, k, items) by {
        let (l, h) = (m.layers()[k], s1.hs@[k]);
        assert(m.fitting(l));
        assert(dims(vs[k])[0] == items);
    }
}

/// A state that `forward_prefill` or `forward_generate` returned for a batch can be gone on with:
/// `forward_generate` takes it, for a batch of as many, and it goes with the model.
pub proof fn law_state_goes_on(m: Model, ids: Tensor, state: State)
    requires
        dims(ids).len() == 1,
        m.shaped(),
        m.width() > 0,
        fits(dims(ids)),
        fits(shape2(dims(ids)[0], 17 * m.inner())),
        fits(shape2(dims(ids)[0], m.vocab())),
        state.hs@.len() == m.layers().len(),
        state.conv_states@.len() == m.layers().len(),
        forall|k: int|
            #![trigger state.hs@[k]]
            0 <= k < m.layers().len() ==> state_shaped(
                state.hs@[k],
                state.conv_states@[k],
                dims(ids)[0],
                m.inner(),
                dtype_of(m.table()),
            ),
        state.pos < usize::MAX,
    ensures
        token_room(m, ids, state),
        state_goes(m, state, dims(ids)[0]),
{
    let items = dims(ids)[0];
    lemma_token_fits(items, m.inner());
    assert forall|k: int| 0 <= k < m.layers().len() implies fits(
        dims(#[trigger] state.conv_states@[k]),
    ) by {
        let h = state.hs@[k];
    }
    assert forall|k: int|
        #![trigger state.hs@[k]]
        #![trigger state.conv_states@[k]]
        0 <= k < m.layers().len() implies {
        &&& stretches(dims(state.hs@[k]), shape3(items, m.inner(), D_STATE as nat))
        &&& dtype_of(state.hs@[k]) == dtype_of(m.table())
        &&& remembers(state.conv_states@[k], items, m.inner(), dtype_of(m.table()))
    } by {
        let h = state.hs@[k];
    }
}

/// In a new state the layers remember nothing.
pub proof fn law_new_state_is_blank(m: Model, state: State, items: nat, dev: Device, i: int)
    requires
        forall|k: int|
            #![trigger state.hs@[k]]
            0 <= k < m.layers().len() ==> zeroed(
                state,
                k,
                items,
                m.inner(),
                dtype_of(m.table()),
                dev,
            ),
        0 <= i < items,
    ensures
        memories(state, i, m.inner(), m.layers().len()) == blanks(net(m)),
{
    let n = m.layers().len();
    assert forall|k: int| 0 <= k < n implies #[trigger] memories(state, i, m.inner(), n)[k]
        == blanks(net(m))[k] by {
        let h = state.hs@[k];
        assert(memory(h, state.conv_states@[k], i, m.inner()) == blank(m.inner()));
    }
    assert(memories(state, i, m.inner(), n) =~= blanks(net(m)));
}

/// What a store that keeps to the shapes that it is asked for hands out for a model has the shapes
/// that belong together.
pub proof fn law_kept_shapes_fit_model(
    m: Model,
    store: int,
    path: Seq<Seq<char>>,
    dt: DType,
    cfg: Config,
)
    requires
        keeps_shapes(store),
        model_room(cfg),
        model_fetched(m, store, path, dt, cfg),
    ensures
        m.shaped(),
        m.vocab() == rows_for(cfg),
{
    lemma_model_fits(cfg);
    assert forall|k: int| 0 <= k < m.layers().len() implies m.fitting(#[trigger] m.layers()[k]) by {
        law_kept_shapes_fit_layer(
            m.layers()[k],
            store,
            named(path, "layers"@, decimal(k as nat)),
            dt,
            cfg,
        );
    }
}

/// The tensors of a model that has room can be allocated.
proof fn lemma_model_fits(cfg: Config)
    requires
        model_room(cfg),
    ensures
        fits(shape2(rows_for(cfg) as nat, cfg.d_model as nat)),
        fits(shape1(cfg.d_model as nat)),
{
    let (rows, width) = (rows_for(cfg) as nat, cfg.d_model as nat);
    lemma_volume(rows, width, 1, 1);
    lemma_volume(width, 1, 1, 1);
    let (v, w) = (at_least_one(rows), at_least_one(width));
    assert(w <= v * w) by (nonlinear_arith)
        requires
            v >= 1,
    ;
}

/// The row that an identifier stands for is its embedding.
proof fn lemma_embedded(m: Model, ids: Tensor, i: Seq<int>)
    requires
        m.shaped(),
        ids_fit(ids, m.vocab()),
        within(i, dims(ids)),
    ensures
        named_row(dtype_of(ids), at(ids, i), m.table()) == embedded(
            net(m),
            dtype_of(ids),
            at(ids, i),
        ),
{
}

/// The embeddings of prompts can be allocated.
proof fn lemma_prompt_fits(b: nat, l: nat, width: nat)
    requires
        width > 0,
        fits(shape3(b, l + 3, 17 * (2 * width))),
    ensures
        fits(shape3(b, l, width)),
        fits(shape3(b, l, 17 * (2 * width))),
        fits(shape2(b, width)),
        fits(shape2(b, 17 * (2 * width))),
{
    let wide = 17 * (2 * width);
    lemma_fits_update(shape3(b, l + 3, wide), 1, l);
    assert(shape3(b, l + 3, wide).update(1, l) =~= shape3(b, l, wide));
    lemma_fits_shorter(shape2(b, l), wide, width);
    lemma_fits_update(shape3(b, l + 3, wide), 1, 1);
    assert(shape3(b, l + 3, wide).update(1, 1) =~= shape3(b, 1, wide));
    lemma_volume(b, 1, wide, 1);
    lemma_volume(b, wide, 1, 1);
    let (k, one, w) = (at_least_one(b), at_least_one(1), at_least_one(wide));
    assert(k * one * w == k * w) by (nonlinear_arith)
        requires
            one == 1,
    ;
    lemma_fits_shorter(shape1(b), wide, width);
}

} // verus!
