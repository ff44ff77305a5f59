//! A Mamba block.
use crate::array::{
    at_least_one, fits, group_index, inhabited, ix1, ix2, ix3, lemma_volume, shape1, shape2,
    shape3, shape4, within,
};
use crate::config::{block_room, rank_for, Config, D_CONV, D_STATE};
use crate::error::{lifted, MambaError};
use crate::layers::{conv_gives, depthwise_conv, window};
use crate::recurrence::{
    blank, closes, converts, convolves, filters, gates, mixer_step, mixes, mixes_by, multiplies,
    prepares, projects, rates, runs, selects, softplus, splits, ssm_trace, traces, weighs,
    zeros, Matrix, Memory, Mixer, Work,
};
use crate::rows::{
    based, gated, lemma_fits_shorter, lemma_fits_update, lemma_inhabited_push, lemma_lead,
    lemma_stretched, lemma_within_push, matrix, narrow_rows, project, slice, softened,
    stretched, vector,
};
use crate::scan::{law_plain_scan, selective_scan, selective_step};
use crate::sizes::{
    fits2, fits3, fits_in_memory, fits_itself, has_shape1, has_shape2, has_shape3,
    is_integer_type,
};
use crate::tensor::{
    add_gives, at, broadcast_plus, broadcast_times, cat2, chunk, contiguous, device, dims,
    dims2, dims3, dtype, dtype_of, exp, exp_gives, in_order, is_float, is_integer,
    is_matrix_float, is_storable, mul_gives, narrow, neg, negated, on_cpu, row, same_kind,
    shape_of, silu, sizes, squeeze, stretches, sum_gives, sum_last, to_dtype, transpose,
    unsqueeze, zeros3,
};
use crate::weights::{
    below, fetch, fetch_depthwise_conv, fetch_linear, fetch_linear_no_bias, handed, keeps_shapes,
    path_of, refused, store_of, type_of, VarBuilder,
};
use candle_core::{DType, Tensor};
use vstd::prelude::*;

verus! {

/// The tensors that a block is made of.
#[derive(Debug)]
pub struct Weights {
    /// Input projection: (2 * d_inner, d_model)
    pub in_proj: Tensor,
    /// Convolution kernels: (d_inner, 1, d_conv)
    pub conv_weight: Tensor,
    /// Convolution bias: (d_inner,)
    pub conv_bias: Tensor,
    /// Selection projection: (dt_rank + 2 * d_state, d_inner)
    pub x_proj: Tensor,
    /// Time step projection: (d_inner, dt_rank)
    pub dt_weight: Tensor,
    /// Time step bias: (d_inner,)
    pub dt_bias: Tensor,
    /// Logarithm of the state matrix: (d_inner, d_state)
    pub a_log: Tensor,
    /// Skip connection: (d_inner,)
    pub d: Tensor,
    /// Output projection: (d_model, d_inner)
    pub out_proj: Tensor,
}

impl Clone for Weights {
    fn clone(&self) -> (r: Weights)
        ensures
            r == *self,
    {
        Weights {
            in_proj: self.in_proj.clone(),
            conv_weight: self.conv_weight.clone(),
            conv_bias: self.conv_bias.clone(),
            x_proj: self.x_proj.clone(),
            dt_weight: self.dt_weight.clone(),
            dt_bias: self.dt_bias.clone(),
            a_log: self.a_log.clone(),
            d: self.d.clone(),
            out_proj: self.out_proj.clone(),
        }
    }
}

/// The tensors have the shapes that belong to these sizes.
pub open spec fn well_shaped(w: Weights, d_model: nat, d_inner: nat, dt_rank: nat) -> bool {
    &&& dims(w.in_proj) == shape2(2 * d_inner, d_model)
    &&& dims(w.conv_weight) == shape3(d_inner, 1, D_CONV as nat)
    &&& dims(w.conv_bias) == shape1(d_inner)
    &&& dims(w.x_proj) == shape2(dt_rank + 2 * D_STATE as nat, d_inner)
    &&& dims(w.dt_weight) == shape2(d_inner, dt_rank)
    &&& dims(w.dt_bias) == shape1(d_inner)
    &&& dims(w.a_log) == shape2(d_inner, D_STATE as nat)
    &&& dims(w.d) == shape1(d_inner)
    &&& dims(w.out_proj) == shape2(d_model, d_inner)
}

/// The sizes of the block are those of a configuration.
pub open spec fn sized_for(b: MambaBlock, cfg: Config) -> bool {
    &&& b.model() == cfg.d_model
    &&& b.inner() == 2 * cfg.d_model
    &&& b.rank() == rank_for(cfg.d_model as int)
}

/// A path with a part of the model and the name of a tensor at its end.
pub open spec fn named(path: Seq<Seq<char>>, part: Seq<char>, name: Seq<char>) -> Seq<Seq<char>> {
    path.push(part).push(name)
}

/// The tensors are what a store may hand out, under a path, for a block of the configuration `cfg`.
pub open spec fn fetched(
    w: Weights,
    store: int,
    path: Seq<Seq<char>>,
    dt: DType,
    cfg: Config,
) -> bool {
    let (model, inner) = (cfg.d_model as nat, (2 * cfg.d_model) as nat);
    let rank = rank_for(cfg.d_model as int) as nat;
    &&& handed(
        store,
        named(path, "in_proj"@, "weight"@),
        dt,
        shape2(2 * inner, model),
        w.in_proj,
    )
    &&& handed(
        store,
        named(path, "conv1d"@, "weight"@),
        dt,
        shape3(inner, 1, D_CONV as nat),
        w.conv_weight,
    )
    &&& handed(store, named(path, "conv1d"@, "bias"@), dt, shape1(inner), w.conv_bias)
    &&& handed(
        store,
        named(path, "x_proj"@, "weight"@),
        dt,
        shape2(rank + 2 * D_STATE as nat, inner),
        w.x_proj,
    )
    &&& handed(store, named(path, "dt_proj"@, "weight"@), dt, shape2(inner, rank), w.dt_weight)
    &&& handed(store, named(path, "dt_proj"@, "bias"@), dt, shape1(inner), w.dt_bias)
    &&& handed(store, path.push("A_log"@), dt, shape2(inner, D_STATE as nat), w.a_log)
    &&& handed(store, path.push("D"@), dt, shape1(inner), w.d)
    &&& handed(store, named(path, "out_proj"@, "weight"@), dt, shape2(model, inner), w.out_proj)
}

/// A store may refuse one of the tensors of a block of the configuration `cfg`, under a path.
pub open spec fn block_refused(store: int, path: Seq<Seq<char>>, dt: DType, cfg: Config) -> bool {
    let (model, inner) = (cfg.d_model as nat, (2 * cfg.d_model) as nat);
    let rank = rank_for(cfg.d_model as int) as nat;
    ||| refused(store, named(path, "in_proj"@, "weight"@), dt, shape2(2 * inner, model))
    ||| refused(store, named(path, "conv1d"@, "weight"@), dt, shape3(inner, 1, D_CONV as nat))
    ||| refused(store, named(path, "conv1d"@, "bias"@), dt, shape1(inner))
    ||| refused(
        store,
        named(path, "x_proj"@, "weight"@),
        dt,
        shape2(rank + 2 * D_STATE as nat, inner),
    )
    ||| refused(store, named(path, "dt_proj"@, "weight"@), dt, shape2(inner, rank))
    ||| refused(store, named(path, "dt_proj"@, "bias"@), dt, shape1(inner))
    ||| refused(store, path.push("A_log"@), dt, shape2(inner, D_STATE as nat))
    ||| refused(store, path.push("D"@), dt, shape1(inner))
    ||| refused(store, named(path, "out_proj"@, "weight"@), dt, shape2(model, inner))
}

/// The numbers that the tensors hold.
pub open spec fn mixer(w: Weights) -> Mixer {
    Mixer {
        in_proj: matrix(w.in_proj),
        kernel: Seq::new(dims(w.conv_weight)[0], |c: int| row(w.conv_weight, ix2(c, 0))),
        conv_bias: vector(w.conv_bias),
        x_proj: matrix(w.x_proj),
        rank: dims(w.dt_weight)[1],
        dt_weight: matrix(w.dt_weight),
        dt_bias: vector(w.dt_bias),
        a_log: matrix(w.a_log),
        a_type: dtype_of(w.a_log),
        d: vector(w.d),
        d_type: dtype_of(w.d),
        out_proj: matrix(w.out_proj),
    }
}

/// The tensors that the inputs of the channels are multiplied with and added to are of the type
/// `dt`, and the ones that are converted first are of types that can be.
pub open spec fn typed_inside(w: Weights, dt: DType) -> bool {
    &&& dtype_of(w.conv_weight) == dt
    &&& dtype_of(w.conv_bias) == dt
    &&& dtype_of(w.x_proj) == dt
    &&& dtype_of(w.dt_weight) == dt
    &&& dtype_of(w.dt_bias) == dt
    &&& dtype_of(w.out_proj) == dt
    &&& is_storable(dtype_of(w.a_log))
    &&& is_storable(dtype_of(w.d))
    &&& is_matrix_float(dt)
}

/// The same, of the tensors that tokens are multiplied with and added to.
pub open spec fn typed(w: Weights, dt: DType) -> bool {
    dtype_of(w.in_proj) == dt && typed_inside(w, dt)
}

/// The tensors are held by the CPU.
pub open spec fn held_by_cpu(w: Weights) -> bool {
    &&& on_cpu(w.in_proj)
    &&& on_cpu(w.conv_weight)
    &&& on_cpu(w.conv_bias)
    &&& on_cpu(w.x_proj)
    &&& on_cpu(w.dt_weight)
    &&& on_cpu(w.dt_bias)
    &&& on_cpu(w.a_log)
    &&& on_cpu(w.d)
    &&& on_cpu(w.out_proj)
}

/// The last inputs of the convolutions that item `i` of a batch remembers.
pub open spec fn tapped(conv_state: Tensor, i: int, inner: nat) -> Matrix {
    Seq::new(
        inner,
        |c: int| Seq::new(D_CONV as nat, |k: int| at(conv_state, ix3(i, c, k))),
    )
}

/// The last inputs of the convolutions before position `t` of item `i` of the sequences `x`, with
/// zeros before the first.
pub open spec fn history(x: Tensor, i: int, t: int, inner: nat) -> Matrix {
    Seq::new(
        inner,
        |c: int|
            Seq::new(
                D_CONV as nat,
                |k: int|
                    if t + k >= D_CONV {
                        at(x, ix3(i, t + k - D_CONV, c))
                    } else {
                        0
                    },
            ),
    )
}

/// `conv_state` holds enough inputs for every channel of every item of a batch of `items`.
pub open spec fn remembers(conv_state: Tensor, items: nat, inner: nat, dt: DType) -> bool {
    &&& dims(conv_state).len() == 3
    &&& dims(conv_state)[0] == items
    &&& dims(conv_state)[1] == inner
    &&& dims(conv_state)[2] >= D_CONV
    &&& dtype_of(conv_state) == dt
}

/// What item `i` of a batch remembers, of which `h` holds the states and `conv_state` the last
/// inputs of the convolutions. A state that is given once for several items or channels counts for
/// each of them.
pub open spec fn memory(h: Tensor, conv_state: Tensor, i: int, inner: nat) -> Memory {
    Memory {
        taps: tapped(conv_state, i, inner),
        h: stretched(h, i, inner, D_STATE as nat),
    }
}

/// The block `b` can take the tokens `x` without running out of what one allocation may hold. Its
/// tensors have the shapes that belong to its configuration. Where there are no numbers, they are
/// not whole.
pub open spec fn step_room(b: MambaBlock, x: Tensor, conv_state: Tensor) -> bool {
    dims(x).len() == 2 ==> {
        &&& b.shaped()
        &&& fits(dims(x))
        &&& fits(shape2(dims(x)[0], 17 * b.inner()))
        &&& inhabited(dims(x)) || !is_integer(dtype_of(x))
        &&& fits(dims(conv_state))
    }
}

/// The tokens `x` go with the weights `w`, and with what `h` and `conv_state` remember. Where there
/// is nothing to compute, types are not compared, and tokens of no numbers go with any input
/// projection.
pub open spec fn step_goes(w: Weights, x: Tensor, h: Tensor, conv_state: Tensor) -> bool {
    let inner = dims(w.conv_bias)[0];
    let dt = dtype_of(x);
    &&& dims(x).len() == 2
    &&& is_float(dt)
    &&& is_storable(dtype_of(w.a_log))
    &&& is_storable(dtype_of(w.d))
    &&& stretches(dims(h), shape3(dims(x)[0], inner, D_STATE as nat))
    &&& remembers(conv_state, dims(x)[0], inner, dt)
    &&& dims(x)[0] > 0 ==> typed_inside(w, dt) && dtype_of(h) == dt
    &&& dims(x)[0] > 0 && dims(x)[1] > 0 ==> dims(x)[1] == dims(w.in_proj)[1] && dtype_of(w.in_proj)
        == dt
}

/// The block `b` can take the sequences `xs` without running out of what one allocation may hold.
/// Its tensors have the shapes that belong to its configuration.
pub open spec fn sequence_room(b: MambaBlock, xs: Tensor) -> bool {
    dims(xs).len() == 3 ==> {
        &&& b.shaped()
        &&& fits(dims(xs))
        &&& fits(shape3(dims(xs)[0], dims(xs)[1] + 3, 17 * b.inner()))
    }
}

/// The sequences `xs` go with the weights `w`. There has to be a token. Tokens of no numbers go with
/// any input projection.
pub open spec fn sequence_goes(w: Weights, xs: Tensor) -> bool {
    let dt = dtype_of(xs);
    &&& dims(xs).len() == 3
    &&& dims(xs)[0] > 0
    &&& dims(xs)[1] > 0
    &&& typed_inside(w, dt)
    &&& dtype_of(w.d) == dt
    &&& dims(xs)[2] > 0 ==> dims(xs)[2] == dims(w.in_proj)[1] && dtype_of(w.in_proj) == dt
}

/// A single Mamba block with sequence processing support.
#[derive(Debug)]
pub struct MambaBlock {
    weights: Weights,
    d_model: usize,
    dt_rank: usize,
    d_inner: usize,
}

impl Clone for MambaBlock {
    fn clone(&self) -> (r: MambaBlock)
        ensures
            r == *self,
    {
        proof {
            use_type_invariant(self);
        }
        MambaBlock {
            weights: self.weights.clone(),
            d_model: self.d_model,
            dt_rank: self.dt_rank,
            d_inner: self.d_inner,
        }
    }
}

impl MambaBlock {
    /// The tensors that the block is made of.
    pub closed spec fn weights(self) -> Weights {
        self.weights
    }

    /// The number of channels.
    pub closed spec fn inner(self) -> nat {
        self.d_inner as nat
    }

    /// The width of the tokens.
    pub closed spec fn model(self) -> nat {
        self.d_model as nat
    }

    /// The number of numbers that the step sizes are made from.
    pub closed spec fn rank(self) -> nat {
        self.dt_rank as nat
    }

    /// The tensors have the shapes that belong to the sizes of the block.
    pub open spec fn shaped(self) -> bool {
        well_shaped(self.weights(), self.model(), self.inner(), self.rank())
    }

    /// The sizes are those of a configuration.
    #[verifier::type_invariant]
    pub(crate) closed spec fn sized(self) -> bool {
        &&& block_room(self.model())
        &&& self.inner() == 2 * self.model()
        &&& self.rank() == rank_for(self.model() as int)
    }

    /// The tensors have the shapes that belong together, and can be computed with.
    pub(crate) closed spec fn valid(self) -> bool {
        &&& self.shaped()
        &&& self.inner() > 0
        &&& self.model() > 0
        &&& self.rank() > 0
        &&& self.rank() + 2 * D_STATE <= 17 * self.inner()
        &&& 17 * self.inner() <= usize::MAX
        &&& self.model() <= self.inner()
        &&& fits(dims(self.weights.in_proj))
        &&& fits(dims(self.weights.conv_weight))
        &&& fits(dims(self.weights.x_proj))
        &&& fits(dims(self.weights.dt_weight))
        &&& fits(dims(self.weights.a_log))
        &&& fits(dims(self.weights.out_proj))
        &&& fits(shape1(17 * self.inner()))
    }

    /// What holds of every block.
    pub(crate) proof fn lemma_sized(self)
        requires
            self.sized(),
        ensures
            0 < self.model() <= self.inner(),
            self.inner() == 2 * self.model(),
            17 * self.inner() <= usize::MAX,
            fits(shape1(self.model())),
            self.shaped() ==> self.valid(),
    {
        lemma_weights_fit(self.model());
        lemma_fits_shorter(Seq::empty(), 17 * self.inner(), self.model());
    }

    /// The width of the tokens.
    pub fn d_model(&self) -> (r: usize)
        ensures
            r == self.model(),
    {
        proof {
            use_type_invariant(self);
        }
        self.d_model
    }

    /// The number of channels.
    pub fn d_inner(&self) -> (r: usize)
        ensures
            r == self.inner(),
    {
        proof {
            use_type_invariant(self);
        }
        self.d_inner
    }

    /// A block of the configuration `cfg` with the given tensors.
    pub fn from_weights(cfg: &Config, weights: Weights) -> (r: MambaBlock)
        requires
            block_room(cfg.d_model as nat),
        ensures
            r.weights() == weights,
            r.model() == cfg.d_model,
            r.inner() == 2 * cfg.d_model,
            r.rank() == rank_for(cfg.d_model as int),
    {
        proof {
            lemma_weights_fit(cfg.d_model as nat);
        }
        let d_model: usize = cfg.d_model;
        let d_inner: usize = cfg.d_inner();
        let dt_rank: usize = cfg.dt_rank();
        MambaBlock { weights, d_model, dt_rank, d_inner }
    }

    /// Whether the tensors have the shapes that belong to the sizes of the block.
    pub fn has_shapes(&self) -> (r: bool)
        ensures
            r <==> self.shaped(),
    {
        proof {
            use_type_invariant(self);
            lemma_weights_fit(self.model());
        }
        let w = &self.weights;
        let (d_model, d_inner, dt_rank) = (self.d_model, self.d_inner, self.dt_rank);
        has_shape2(&w.in_proj, d_inner * 2, d_model) && has_shape3(
            &w.conv_weight,
            d_inner,
            1,
            D_CONV,
        ) && has_shape1(&w.conv_bias, d_inner) && has_shape2(
            &w.x_proj,
            dt_rank + D_STATE * 2,
            d_inner,
        ) && has_shape2(&w.dt_weight, d_inner, dt_rank) && has_shape1(&w.dt_bias, d_inner)
            && has_shape2(&w.a_log, d_inner, D_STATE) && has_shape1(&w.d, d_inner) && has_shape2(
            &w.out_proj,
            d_model,
            d_inner,
        )
    }

    /// A block of the configuration `cfg`, with the tensors that `vb` hands out.
    ///
    /// A source is to hand out tensors of the shapes that it is asked for. What it does hand out is
    /// taken as it is.
    pub fn new(cfg: &Config, vb: VarBuilder<'_>) -> (r: Result<MambaBlock, MambaError>)
        requires
            block_room(cfg.d_model as nat),
        ensures
            r matches Ok(b) ==> {
                &&& fetched(b.weights(), store_of(vb), path_of(vb), type_of(vb), *cfg)
                &&& sized_for(b, *cfg)
                &&& b.model() == cfg.d_model
                &&& b.inner() == 2 * cfg.d_model
                &&& b.rank() == (cfg.d_model + 15) / 16
            },
            r matches Ok(b) ==> {
                let (w, path) = (b.weights(), path_of(vb));
                let (store, dt) = (store_of(vb), type_of(vb));
                let width = cfg.d_model as nat;
                let rank = ((cfg.d_model + 15) / 16) as nat;
                &&& handed(
                    store,
                    path.push("in_proj"@).push("weight"@),
                    dt,
                    shape2(4 * width, width),
                    w.in_proj,
                )
                &&& handed(
                    store,
                    path.push("conv1d"@).push("weight"@),
                    dt,
                    shape3(2 * width, 1, 4),
                    w.conv_weight,
                )
                &&& handed(
                    store,
                    path.push("conv1d"@).push("bias"@),
                    dt,
                    shape1(2 * width),
                    w.conv_bias,
                )
                &&& handed(
                    store,
                    path.push("x_proj"@).push("weight"@),
                    dt,
                    shape2(rank + 32, 2 * width),
                    w.x_proj,
                )
                &&& handed(
                    store,
                    path.push("dt_proj"@).push("weight"@),
                    dt,
                    shape2(2 * width, rank),
                    w.dt_weight,
                )
                &&& handed(
                    store,
                    path.push("dt_proj"@).push("bias"@),
                    dt,
                    shape1(2 * width),
                    w.dt_bias,
                )
                &&& handed(store, path.push("A_log"@), dt, shape2(2 * width, 16), w.a_log)
                &&& handed(store, path.push("D"@), dt, shape1(2 * width), w.d)
                &&& handed(
                    store,
                    path.push("out_proj"@).push("weight"@),
                    dt,
                    shape2(width, 2 * width),
                    w.out_proj,
                )
            },
            r matches Err(e) ==> e is Candle && block_refused(
                store_of(vb),
                path_of(vb),
                type_of(vb),
                *cfg,
            ),
    {
        proof {
            lemma_weights_fit(cfg.d_model as nat);
        }
        let d_inner: usize = cfg.d_inner();
        let dt_rank: usize = cfg.dt_rank();

        let vb_in = below(&vb, "in_proj");
        let in_proj = lifted(fetch_linear_no_bias(&vb_in, cfg.d_model, d_inner * 2))?;
        let conv = below(&vb, "conv1d");
        let (conv_weight, conv_bias) = lifted(fetch_depthwise_conv(&conv, d_inner, D_CONV))?;
        let vb_x = below(&vb, "x_proj");
        let x_proj = lifted(fetch_linear_no_bias(&vb_x, d_inner, dt_rank + D_STATE * 2))?;
        let (dt_weight, dt_bias) = lifted(fetch_linear(&below(&vb, "dt_proj"), dt_rank, d_inner))?;
        let (a_sizes, d_sizes) = (vec![d_inner, D_STATE], vec![d_inner]);
        proof {
            assert(shape_of(a_sizes@) =~= shape2(d_inner as nat, D_STATE as nat));
            assert(shape_of(d_sizes@) =~= shape1(d_inner as nat));
        }
        let a_log = lifted(fetch(&vb, a_sizes, "A_log"))?;
        let d = lifted(fetch(&vb, d_sizes, "D"))?;
        let out_proj = lifted(fetch_linear_no_bias(&below(&vb, "out_proj"), d_inner, cfg.d_model))?;
        let weights = Weights {
            in_proj,
            conv_weight,
            conv_bias,
            x_proj,
            dt_weight,
            dt_bias,
            a_log,
            d,
            out_proj,
        };
        proof {
            assert(fetched(weights, store_of(vb), path_of(vb), type_of(vb), *cfg));
        }
        Ok(Self::from_weights(cfg, weights))
    }

    /// What the channels select, for every row of `x`.
    fn select_inputs(&self, x: &Tensor, d: usize) -> (r: Result<
        (Tensor, Tensor, Tensor),
        MambaError,
    >)
        requires
            self.valid(),
            dims(*x).len() == d + 1,
            d == 1 || (d == 2 && contiguous(*x) && inhabited(dims(*x))),
            dims(*x).last() == self.inner(),
            is_float(dtype_of(*x)),
            fits(dims(*x).drop_last().push(17 * self.inner())),
        ensures
            on_cpu(*x) && held_by_cpu(self.weights()) && (inhabited(dims(*x)) ==> typed_inside(
                self.weights(),
                dtype_of(*x),
            )) ==> r is Ok,
            r matches Ok((delta, b, c)) ==> {
                let lead = dims(*x).drop_last();
                let w = self.weights();
                &&& dims(delta) == dims(*x)
                &&& same_kind(delta, *x)
                &&& inhabited(dims(delta)) ==> contiguous(delta)
                &&& dims(b) == lead.push(D_STATE as nat)
                &&& same_kind(b, *x)
                &&& dims(c) == lead.push(D_STATE as nat)
                &&& same_kind(c, *x)
                &&& inhabited(dims(*x)) ==> {
                    &&& dtype_of(w.x_proj) == dtype_of(*x)
                    &&& dtype_of(w.dt_weight) == dtype_of(*x)
                    &&& dtype_of(w.dt_bias) == dtype_of(*x)
                    &&& is_matrix_float(dtype_of(*x))
                }
                &&& forall|i: Seq<int>|
                    within(i, lead) ==> selects(
                        mixer(w),
                        dtype_of(*x),
                        row(*x, i),
                        #[trigger] row(delta, i),
                        row(b, i),
                        row(c, i),
                    )
            },
    {
        let ghost lead = dims(*x).drop_last();
        let ghost w = self.weights();
        let ghost m = mixer(w);
        let ghost dt = dtype_of(*x);
        let ghost (inner, rank) = (self.inner(), self.rank());
        proof {
            broadcast use group_index;

            lemma_lead(dims(*x));
            lemma_fits_shorter(lead, 17 * inner, inner);
            lemma_fits_shorter(lead, 17 * inner, rank);
            lemma_fits_shorter(lead, 17 * inner, rank + 2 * D_STATE as nat);
            lemma_inhabited_push(lead, inner);
            lemma_inhabited_push(lead, rank);
            lemma_inhabited_push(lead, rank + 2 * D_STATE as nat);
            assert(lead.push(rank + 2 * D_STATE as nat).drop_last() =~= lead);
            assert(lead.push(rank).drop_last() =~= lead);
            assert(lead.push(inner).drop_last() =~= lead);
        }
        let x_dbl = project(x, &self.weights.x_proj, None)?;
        let part = narrow_rows(&x_dbl, d, 0, self.dt_rank)?;
        let b = narrow_rows(&x_dbl, d, self.dt_rank, D_STATE)?;
        let c = narrow_rows(&x_dbl, d, self.dt_rank + D_STATE, D_STATE)?;
        let delta_in = in_order(&part)?;
        let raw = project(&delta_in, &self.weights.dt_weight, Some(&self.weights.dt_bias))?;
        let delta = softened(&raw)?;
        proof {
            assert forall|i: Seq<int>| within(i, lead) implies selects(
                m,
                dt,
                row(*x, i),
                #[trigger] row(delta, i),
                row(b, i),
                row(c, i),
            ) by {
                let dbl = row(x_dbl, i);
                let before = row(raw, i);
                assert(projects(dt, m.x_proj, None, row(*x, i), dbl));
                assert(row(part, i) == dbl.subrange(0, rank as int));
                assert(row(delta_in, i) =~= row(part, i));
                assert(projects(
                    dt,
                    m.dt_weight,
                    Some(m.dt_bias),
                    dbl.subrange(0, rank as int),
                    before,
                ));
                assert forall|k: int| 0 <= k < inner implies softplus(
                    dt,
                    before[k],
                    #[trigger] row(delta, i)[k],
                ) by {
                    lemma_within_push(i, k, lead, inner);
                    assert(row(delta, i)[k] == at(delta, i.push(k)));
                }
                assert(m.rank == rank);
                assert(before.len() == inner && row(delta, i).len() == inner);
                assert(row(b, i) == dbl.subrange(rank as int, rank + D_STATE));
                assert(row(c, i) == dbl.subrange(rank + D_STATE, rank + 2 * D_STATE));
            }
        }
        Ok((delta, b, c))
    }

    /// The rates at which the states decay, in the type `dt`.
    fn decay_rates(&self, dt: DType) -> (r: Result<Tensor, MambaError>)
        requires
            self.valid(),
            is_float(dt),
        ensures
            on_cpu(self.weights().a_log) && is_storable(dtype_of(self.weights().a_log)) ==> r is Ok,
            r matches Ok(a) ==> {
                let w = self.weights();
                &&& is_storable(dtype_of(w.a_log))
                &&& dims(a) == shape2(self.inner(), D_STATE as nat)
                &&& dtype_of(a) == dt
                &&& on_cpu(w.a_log) ==> on_cpu(a)
                &&& !(dt is F8E4M3) ==> forall|c: int, n: int|
                    0 <= c < self.inner() && 0 <= n < D_STATE ==> rates(
                        mixer(w).a_type,
                        dt,
                        mixer(w).a_log[c][n],
                        #[trigger] matrix(a)[c][n],
                    )
            },
    {
        broadcast use group_index;

        let l = to_dtype(&self.weights.a_log, dt)?;
        let e = exp(&l)?;
        let a = neg(&e)?;
        proof {
            let w = self.weights();
            assert forall|c: int, n: int|
                !(dt is F8E4M3) && 0 <= c < self.inner() && 0 <= n < D_STATE implies rates(
                mixer(w).a_type,
                dt,
                mixer(w).a_log[c][n],
                #[trigger] matrix(a)[c][n],
            ) by {
                let i = ix2(c, n);
                assert(within(i, dims(a)));
                assert(mixer(w).a_log[c][n] == at(w.a_log, i));
                assert(matrix(a)[c][n] == at(a, i));
                assert(converts(dtype_of(w.a_log), dt, at(w.a_log, i), at(l, i)));
                assert(exp_gives(dt, at(l, i), at(e, i)));
                assert(at(a, i) == negated(dt, at(e, i)));
            }
        }
        Ok(a)
    }

    /// The output of the block for every row of `y`, gated by the row of `gate` at its place.
    fn close(&self, y: &Tensor, gate: &Tensor) -> (r: Result<Tensor, MambaError>)
        requires
            self.valid(),
            dims(*y).len() == 2 || (dims(*y).len() == 3 && inhabited(dims(*y))),
            dims(*y).last() == self.inner(),
            dims(*gate) == dims(*y),
            dtype_of(*gate) == dtype_of(*y),
            is_float(dtype_of(*y)),
            fits(dims(*y).drop_last().push(17 * self.inner())),
        ensures
            on_cpu(*y) && on_cpu(*gate) && held_by_cpu(self.weights()) && (inhabited(dims(*y))
                ==> typed_inside(self.weights(), dtype_of(*y))) ==> r is Ok,
            r matches Ok(out) ==> {
                let lead = dims(*y).drop_last();
                &&& dims(out) == lead.push(self.model())
                &&& same_kind(out, *y)
                &&& contiguous(out)
                &&& inhabited(dims(*y)) ==> dtype_of(self.weights().out_proj) == dtype_of(*y)
                &&& forall|i: Seq<int>|
                    within(i, lead) ==> closes(
                        mixer(self.weights()),
                        dtype_of(*y),
                        row(*y, i),
                        row(*gate, i),
                        #[trigger] row(out, i),
                    )
            },
    {
        let ghost lead = dims(*y).drop_last();
        let ghost inner = self.inner();
        let ghost dt = dtype_of(*y);
        proof {
            broadcast use group_index;

            lemma_lead(dims(*y));
            lemma_fits_shorter(lead, 17 * inner, inner);
            lemma_fits_shorter(lead, 17 * inner, self.model());
            lemma_inhabited_push(lead, inner);
            assert(lead.push(inner).drop_last() =~= lead);
        }
        let g = gated(y, gate)?;
        let out = project(&g, &self.weights.out_proj, None)?;
        proof {
            assert forall|i: Seq<int>| within(i, lead) implies closes(
                mixer(self.weights()),
                dt,
                row(*y, i),
                row(*gate, i),
                #[trigger] row(out, i),
            ) by {
                let gs = row(g, i);
                assert(projects(dt, mixer(self.weights()).out_proj, None, gs, row(out, i)));
                assert forall|c: int| 0 <= c < inner implies gates(
                    dt,
                    row(*y, i)[c],
                    row(*gate, i)[c],
                    #[trigger] gs[c],
                ) by {
                    lemma_within_push(i, c, lead, inner);
                    assert(gs[c] == at(g, i.push(c)));
                }
            }
        }
        Ok(out)
    }

    /// The inputs of the channels and their gates, for every row of `x`, of which `d` is the last
    /// dimension.
    fn split(&self, x: &Tensor, d: usize) -> (r: Result<(Tensor, Tensor), MambaError>)
        requires
            self.valid(),
            dims(*x).len() == d + 1,
            d == 1 || (d == 2 && contiguous(*x)),
            fits(dims(*x)),
            fits(dims(*x).drop_last().push(17 * self.inner())),
        ensures
            on_cpu(*x) && held_by_cpu(self.weights()) && is_storable(dtype_of(*x)) && (d == 2
                ==> inhabited(dims(*x).drop_last())) && (inhabited(dims(*x)) ==> dims(*x).last()
                == self.model() && dtype_of(self.weights().in_proj) == dtype_of(*x)
                && is_matrix_float(dtype_of(*x))) ==> r is Ok,
            r matches Ok((x_in, gate)) ==> {
                let lead = dims(*x).drop_last();
                &&& dims(x_in) == lead.push(self.inner())
                &&& same_kind(x_in, *x)
                &&& is_storable(dtype_of(*x))
                &&& dims(gate) == lead.push(self.inner())
                &&& same_kind(gate, *x)
                &&& d == 2 ==> inhabited(lead)
                &&& inhabited(dims(*x)) ==> {
                    &&& dims(*x).last() == self.model()
                    &&& dtype_of(self.weights().in_proj) == dtype_of(*x)
                    &&& is_matrix_float(dtype_of(*x))
                }
                &&& forall|i: Seq<int>|
                    within(i, lead) ==> splits(
                        mixer(self.weights()),
                        dtype_of(*x),
                        row(*x, i),
                        #[trigger] row(x_in, i),
                        row(gate, i),
                    )
            },
    {
        let ghost lead = dims(*x).drop_last();
        let ghost inner = self.inner() as int;
        let ghost dt = dtype_of(*x);
        proof {
            lemma_lead(dims(*x));
            lemma_fits_shorter(lead, (17 * inner) as nat, (2 * inner) as nat);
            lemma_inhabited_push(lead, dims(*x).last());
            assert(lead.push((2 * inner) as nat).drop_last() =~= lead);
            assert(2 * inner % 2 == 0 && 2 * inner / 2 == inner);
        }
        let xs_proj = project(x, &self.weights.in_proj, None)?;
        let mut chunks = chunk(&xs_proj, 2, d)?;
        let ghost (first, second) = (chunks@[0], chunks@[1]);
        let gate = chunks.remove(1);
        let x_in = chunks.remove(0);
        proof {
            assert(x_in == first && gate == second);
            assert(dims(xs_proj).update(d as int, inner as nat) =~= lead.push(inner as nat));
            assert forall|i: Seq<int>| within(i, lead) implies splits(
                mixer(self.weights()),
                dt,
                row(*x, i),
                #[trigger] row(x_in, i),
                row(gate, i),
            ) by {
                let p = row(xs_proj, i);
                assert(projects(dt, mixer(self.weights()).in_proj, None, row(*x, i), p));
                assert forall|j: int| 0 <= j < inner implies row(x_in, i)[j] == p[j] && row(
                    gate,
                    i,
                )[j] == p[inner + j] by {
                    lemma_within_push(i, j, lead, inner as nat);
                    assert(at(x_in, i.push(j)) == at(
                        xs_proj,
                        i.push(j).update(d as int, j + 0 * inner),
                    ));
                    assert(at(gate, i.push(j)) == at(
                        xs_proj,
                        i.push(j).update(d as int, j + 1 * inner),
                    ));
                    assert(i.push(j).update(d as int, j) =~= i.push(j));
                    assert(i.push(j).update(d as int, j + inner) =~= i.push(inner + j));
                }
                assert(row(x_in, i) =~= p.subrange(0, inner));
                assert(row(gate, i) =~= p.subrange(inner, 2 * inner));
            }
        }
        Ok((x_in, gate))
    }

    /// The convolution for one token: the inputs `x_in` of the channels are put behind those that
    /// `conv_state` remembers.
    fn convolve_step(&self, x_in: &Tensor, conv_state: &Tensor) -> (r: Result<
        (Tensor, Tensor),
        MambaError,
    >)
        requires
            self.valid(),
            dims(*x_in).len() == 2,
            dims(*x_in)[1] == self.inner(),
            is_float(dtype_of(*x_in)),
            fits(dims(*conv_state)),
            fits(shape2(dims(*x_in)[0], 17 * self.inner())),
        ensures
            on_cpu(*x_in) && on_cpu(*conv_state) && held_by_cpu(self.weights()) && (dims(*x_in)[0]
                > 0 ==> typed_inside(self.weights(), dtype_of(*x_in))) && remembers(
                *conv_state,
                dims(*x_in)[0],
                self.inner(),
                dtype_of(*x_in),
            ) ==> r is Ok,
            r matches Ok((x, taps)) ==> {
                let w = self.weights();
                let dt = dtype_of(*x_in);
                &&& remembers(*conv_state, dims(*x_in)[0], self.inner(), dt)
                &&& dims(*x_in)[0] > 0 ==> dtype_of(w.conv_weight) == dt && dtype_of(w.conv_bias)
                    == dt
                &&& dims(x) == dims(*x_in)
                &&& dtype_of(x) == dt
                &&& on_cpu(*conv_state) ==> on_cpu(x) && on_cpu(taps)
                &&& dims(taps) == shape3(dims(*x_in)[0], self.inner(), D_CONV as nat)
                &&& dtype_of(taps) == dt
                &&& forall|i: int|
                    0 <= i < dims(*x_in)[0] ==> convolves(
                        mixer(w),
                        dt,
                        tapped(*conv_state, i, self.inner()),
                        row(*x_in, ix1(i)),
                        tapped(taps, i, self.inner()),
                        #[trigger] row(x, ix1(i)),
                    )
            },
    {
        broadcast use group_index;

        let ghost (b, inner) = (dims(*x_in)[0], self.inner());
        let ghost dt = dtype_of(*x_in);
        let ghost w = self.weights();
        let kept = narrow(conv_state, 2, 1, D_CONV - 1)?;
        let latest = unsqueeze(x_in, 2)?;
        proof {
            let s = dims(*conv_state);
            lemma_fits_update(s, 2, 3);
            lemma_fits_update(s, 2, 4);
            assert(s.update(2, 3).update(2, 4) =~= s.update(2, 4));
            assert(dims(*x_in) =~= shape2(b, inner));
            lemma_token_fits(b, inner);
        }
        let taps = cat2(&based(&kept)?, &based(&latest)?, 2)?;
        proof {
            assert(dims(*conv_state)[0] == dims(kept)[0] && dims(*conv_state)[1] == dims(kept)[1]);
            assert(dims(kept)[0] == dims(latest)[0] && dims(kept)[1] == dims(latest)[1]);
            assert(dims(taps) =~= shape3(b, inner, 4));
            assert(dims(kept) =~= shape3(b, inner, 3));
        }
        let kernel = squeeze(&self.weights.conv_weight, 1)?;
        let kernel_row = unsqueeze(&kernel, 0)?;
        let weighed = broadcast_times(&taps, &kernel_row)?;
        let summed = sum_last(&based(&weighed)?)?;
        let bias = unsqueeze(&self.weights.conv_bias, 0)?;
        let biased = broadcast_plus(&summed, &bias)?;
        let x = silu(&biased)?;
        proof {
            assert forall|i: int, c: int, k: int| within(ix3(i, c, k), dims(taps)) implies
                #[trigger] at(taps, ix3(i, c, k)) == if k < 3 {
                at(*conv_state, ix3(i, c, k + 1))
            } else {
                at(*x_in, ix2(i, c))
            } by {
                if k < 3 {
                    assert(at(kept, ix3(i, c, k)) == at(*conv_state, ix3(i, c, k + 1))) by {
                        assert(within(ix3(i, c, k), dims(kept)));
                    }
                } else {
                    assert(at(latest, ix3(i, c, 0)) == at(*x_in, ix2(i, c)));
                }
            }
            assert forall|i: int| 0 <= i < b implies convolves(
                mixer(w),
                dt,
                tapped(*conv_state, i, inner),
                row(*x_in, ix1(i)),
                tapped(taps, i, inner),
                #[trigger] row(x, ix1(i)),
            ) by {
                let (t0, t1) = (tapped(*conv_state, i, inner), tapped(taps, i, inner));
                assert forall|c: int| 0 <= c < inner implies #[trigger] t1[c]
                    == t0[c].drop_first().push(row(*x_in, ix1(i))[c]) by {
                    assert forall|k: int| 0 <= k < 4 implies t1[c][k] == t0[c].drop_first().push(
                        row(*x_in, ix1(i))[c],
                    )[k] by {
                        assert(within(ix3(i, c, k), dims(taps)));
                        assert(t1[c][k] == at(taps, ix3(i, c, k)));
                    }
                    assert(t1[c] =~= t0[c].drop_first().push(row(*x_in, ix1(i))[c]));
                }
                assert forall|c: int| 0 <= c < inner implies filters(
                    dt,
                    t1[c],
                    mixer(w).kernel[c],
                    mixer(w).conv_bias[c],
                    #[trigger] row(x, ix1(i))[c],
                ) by {
                    let p = row(weighed, ix2(i, c));
                    assert forall|k: int| 0 <= k < 4 implies mul_gives(
                        dt,
                        t1[c][k],
                        mixer(w).kernel[c][k],
                        #[trigger] p[k],
                    ) by {
                        assert(p[k] == at(weighed, ix3(i, c, k)));
                        assert(at(kernel_row, ix3(0, c, k)) == at(kernel, ix2(c, k)));
                        assert(at(kernel, ix2(c, k)) == at(w.conv_weight, ix3(c, 0, k)));
                    }
                    assert(multiplies(dt, t1[c], mixer(w).kernel[c], p));
                    let s = at(summed, ix2(i, c));
                    assert(sum_gives(dt, p, s));
                    assert(weighs(dt, t1[c], mixer(w).kernel[c], s));
                    assert(at(bias, ix2(0, c)) == at(w.conv_bias, ix1(c)));
                    assert(add_gives(dt, s, mixer(w).conv_bias[c], at(biased, ix2(i, c))));
                    assert(row(x, ix1(i))[c] == at(x, ix2(i, c)));
                }
            }
        }
        Ok((x, taps))
    }

    /// Whether `forward_step` can be called with these tensors.
    pub fn takes_step(&self, x: &Tensor, conv_state: &Tensor) -> (r: bool)
        ensures
            r <==> step_room(*self, *x, *conv_state),
    {
        let s = sizes(x);
        proof {
            use_type_invariant(self);
            assert(forall|k: int| 0 <= k < s@.len() ==> shape_of(s@)[k] == s@[k]);
        }
        s.len() != 2 || (self.has_shapes() && fits_in_memory(&s) && fits2(s[0], self.d_inner, 17)
            && ((s[0] > 0 && s[1] > 0) || !is_integer_type(dtype(x))) && fits_itself(conv_state))
    }

    /// Forward pass for single token generation.
    ///
    /// # Arguments
    /// * `x` - Input tensor: (batch, d_model)
    /// * `h` - SSM hidden state: (batch, d_inner, d_state)
    /// * `conv_state` - Conv history: (batch, d_inner, d_conv)
    ///
    /// # Returns
    /// * Output: (batch, d_model)
    /// * Updated h
    /// * Updated conv_state
    pub fn forward_step(&self, x: &Tensor, h: &Tensor, conv_state: &Tensor) -> (r: Result<
        (Tensor, Tensor, Tensor),
        MambaError,
    >)
        requires
            step_room(*self, *x, *conv_state),
        ensures
            held_by_cpu(self.weights()) && on_cpu(*x) && on_cpu(*h) && on_cpu(*conv_state)
                && step_goes(self.weights(), *x, *h, *conv_state) ==> r is Ok,
            r matches Ok((out, h1, taps)) ==> {
                let w = self.weights();
                let (b, inner) = (dims(*x)[0], self.inner());
                &&& step_goes(w, *x, *h, *conv_state)
                &&& dims(out) == shape2(b, self.model())
                &&& dtype_of(out) == dtype_of(*x)
                &&& contiguous(out)
                &&& dims(h1) == shape3(b, inner, D_STATE as nat)
                &&& dtype_of(h1) == dtype_of(*x)
                &&& dims(taps) == shape3(b, inner, D_CONV as nat)
                &&& dtype_of(taps) == dtype_of(*x)
                &&& held_by_cpu(w) && on_cpu(*x) && on_cpu(*h) && on_cpu(*conv_state) ==> on_cpu(
                    out,
                ) && on_cpu(h1) && on_cpu(taps)
                &&& forall|i: int|
                    0 <= i < b ==> mixes(
                        mixer(w),
                        dtype_of(*x),
                        row(*x, ix1(i)),
                        memory(*h, *conv_state, i, inner),
                        memory(h1, taps, i, inner),
                        #[trigger] row(out, ix1(i)),
                    )
            },
    {
        broadcast use group_index;

        proof {
            use_type_invariant(self);
            self.lemma_sized();
        }
        let ghost w = self.weights();
        let ghost inner = self.inner();
        let ghost dt = dtype_of(*x);
        let (b_sz, _d_model) = dims2(x)?;
        let ghost items = b_sz as nat;
        proof {
            lemma_token_fits(items, inner);
            lemma_inhabited_push(shape1(items), _d_model as nat);
        }
        let (x_in, gate) = self.split(x, 1)?;
        let (x_conv, taps) = self.convolve_step(&x_in, conv_state)?;
        let (delta, b, c) = self.select_inputs(&x_conv, 1)?;
        let a = self.decay_rates(dtype(&delta))?;
        let d = to_dtype(&self.weights.d, dtype(&delta))?;
        let (h1, y) = selective_step(&x_conv, &delta, &a, &b, &c, &d, h)?;
        let out = self.close(&y, &gate)?;
        proof {
            assert forall|i: int| 0 <= i < items implies mixes(
                mixer(w),
                dt,
                row(*x, ix1(i)),
                memory(*h, *conv_state, i, inner),
                memory(h1, taps, i, inner),
                #[trigger] row(out, ix1(i)),
            ) by {
                let work = Work {
                    inputs: row(x_in, ix1(i)),
                    gate: row(gate, ix1(i)),
                    x: row(x_conv, ix1(i)),
                    delta: row(delta, ix1(i)),
                    b: row(b, ix1(i)),
                    c: row(c, ix1(i)),
                    a: matrix(a),
                    skip: vector(d),
                    y: row(y, ix1(i)),
                };
                lemma_stretched(h1, i, items, inner, D_STATE as nat);
                assert(within(ix1(i), shape1(items)));
                assert(splits(mixer(w), dt, row(*x, ix1(i)), work.inputs, work.gate));
                assert(selects(mixer(w), dt, work.x, work.delta, work.b, work.c));
                assert(closes(mixer(w), dt, work.y, work.gate, row(out, ix1(i))));
                assert(prepares(mixer(w), dt, work.a, work.skip)) by {
                    assert forall|e: int| 0 <= e < inner implies converts(
                        dtype_of(w.d),
                        dt,
                        mixer(w).d[e],
                        #[trigger] vector(d)[e],
                    ) by {
                        assert(within(ix1(e), dims(d)));
                        assert(vector(d)[e] == at(d, ix1(e)));
                    }
                }
                assert(mixes_by(
                    mixer(w),
                    dt,
                    row(*x, ix1(i)),
                    memory(*h, *conv_state, i, inner),
                    memory(h1, taps, i, inner),
                    row(out, ix1(i)),
                    work,
                ));
            }
        }
        Ok((out, h1, taps))
    }

    /// The convolution over whole sequences, and what it remembers of them.
    fn convolve(&self, x: &Tensor) -> (r: Result<(Tensor, Tensor), MambaError>)
        requires
            self.valid(),
            dims(*x).len() == 3,
            inhabited(dims(*x)),
            dims(*x)[2] == self.inner(),
            fits(shape3(dims(*x)[0], dims(*x)[1] + 3, 17 * self.inner())),
        ensures
            on_cpu(*x) && held_by_cpu(self.weights()) && typed_inside(self.weights(), dtype_of(*x))
                ==> r is Ok,
            r matches Ok((y, taps)) ==> {
                let w = self.weights();
                let dt = dtype_of(*x);
                &&& is_matrix_float(dt)
                &&& dtype_of(w.conv_weight) == dt
                &&& dtype_of(w.conv_bias) == dt
                &&& dims(y) == dims(*x)
                &&& same_kind(y, *x)
                &&& contiguous(y)
                &&& dims(taps) == shape3(dims(*x)[0], self.inner(), D_CONV as nat)
                &&& same_kind(taps, *x)
                &&& forall|i: int, t: int|
                    0 <= i < dims(*x)[0] && 0 <= t < dims(*x)[1] ==> convolves(
                        mixer(w),
                        dt,
                        history(*x, i, t, self.inner()),
                        row(*x, ix2(i, t)),
                        history(*x, i, t + 1, self.inner()),
                        #[trigger] row(y, ix2(i, t)),
                    )
                &&& forall|i: int|
                    0 <= i < dims(*x)[0] ==> #[trigger] tapped(taps, i, self.inner()) == history(
                        *x,
                        i,
                        dims(*x)[1] as int,
                        self.inner(),
                    )
            },
    {
        broadcast use group_index;

        let (b_sz, seq_len, _width) = dims3(x)?;
        let ghost w = self.weights();
        let ghost dt = dtype_of(*x);
        let ghost (items, len, inner) = (b_sz as nat, seq_len as nat, self.inner());
        proof {
            lemma_sequence_fits(items, len, inner);
        }
        let x_t = transpose(x, 1, 2)?;
        let kernels = in_order(&self.weights.conv_weight)?;
        let conv = depthwise_conv(
            &x_t,
            &kernels,
            &self.weights.conv_bias,
            D_CONV - 1,
            self.d_inner,
        )?;
        let causal = narrow(&conv, 2, 0, seq_len)?;
        let turned = transpose(&causal, 1, 2)?;
        let y = silu(&turned)?;
        proof {
            assert forall|i: int, t: int| 0 <= i < items && 0 <= t < len implies convolves(
                mixer(w),
                dt,
                history(*x, i, t, inner),
                row(*x, ix2(i, t)),
                history(*x, i, t + 1, inner),
                #[trigger] row(y, ix2(i, t)),
            ) by {
                let (t0, t1) = (history(*x, i, t, inner), history(*x, i, t + 1, inner));
                let inputs = row(*x, ix2(i, t));
                assert forall|c: int| 0 <= c < inner implies #[trigger] t1[c]
                    == t0[c].drop_first().push(inputs[c]) by {
                    assert(t1[c] =~= t0[c].drop_first().push(inputs[c]));
                }
                assert forall|c: int| 0 <= c < inner implies filters(
                    dt,
                    t1[c],
                    mixer(w).kernel[c],
                    mixer(w).conv_bias[c],
                    #[trigger] row(y, ix2(i, t))[c],
                ) by {
                    let seen = window(x_t, i, c, t, D_CONV as nat, 3);
                    assert forall|k: int| 0 <= k < 4 implies seen[k] == t1[c][k] by {
                        if t + k >= 3 {
                            assert(within(ix3(i, c, t + k - 3), dims(x_t)));
                            assert(at(x_t, ix3(i, c, t + k - 3)) == at(*x, ix3(i, t + k - 3, c)));
                        }
                    }
                    assert(seen =~= t1[c]);
                    assert(row(kernels, ix2(c, 0)) =~= mixer(w).kernel[c]);
                    assert(within(ix3(i, c, t), dims(conv)));
                    let sum = choose|s: u64|
                        {
                            &&& #[trigger] conv_gives(dt, seen, mixer(w).kernel[c], s)
                            &&& add_gives(
                                dt,
                                s,
                                at(w.conv_bias, ix1(c)),
                                at(conv, ix3(i, c, t)),
                            )
                        };
                    assert(weighs(dt, t1[c], mixer(w).kernel[c], sum));
                    assert(add_gives(dt, sum, mixer(w).conv_bias[c], at(conv, ix3(i, c, t))));
                    assert(at(causal, ix3(i, c, t)) == at(conv, ix3(i, c, t)));
                    assert(at(turned, ix3(i, t, c)) == at(causal, ix3(i, c, t)));
                    assert(row(y, ix2(i, t))[c] == at(y, ix3(i, t, c)));
                }
            }
        }
        let taps = if seq_len >= D_CONV {
            narrow(&x_t, 2, seq_len - D_CONV, D_CONV)?
        } else {
            let padding = zeros3((b_sz, self.d_inner, D_CONV - seq_len), dtype(x), device(x))?;
            let joined = cat2(&padding, &x_t, 2)?;
            proof {
                assert(dims(joined) =~= shape3(items, inner, 4));
                assert forall|i: int, c: int, k: int| within(ix3(i, c, k), dims(joined)) implies
                    #[trigger] at(joined, ix3(i, c, k)) == if len + k >= 4 {
                    at(x_t, ix3(i, c, len + k - 4))
                } else {
                    0
                } by {
                    if len + k < 4 {
                        assert(within(ix3(i, c, k), dims(padding)));
                        assert(at(padding, ix3(i, c, k)) == 0);
                    }
                }
            }
            joined
        };
        proof {
            assert forall|i: int, c: int, k: int| within(ix3(i, c, k), dims(taps)) implies
                #[trigger] at(taps, ix3(i, c, k)) == if len + k >= 4 {
                at(*x, ix3(i, len + k - 4, c))
            } else {
                0
            } by {
                if len + k >= 4 {
                    assert(within(ix3(i, c, len + k - 4), dims(x_t)));
                    assert(at(x_t, ix3(i, c, len + k - 4)) == at(*x, ix3(i, len + k - 4, c)));
                }
            }
            assert forall|i: int| 0 <= i < items implies #[trigger] tapped(taps, i, inner)
                == history(*x, i, len as int, inner) by {
                let (s, t) = (tapped(taps, i, inner), history(*x, i, len as int, inner));
                assert forall|c: int, k: int| 0 <= c < inner && 0 <= k < 4 implies #[trigger] s[c][k]
                    == t[c][k] by {
                    assert(within(ix3(i, c, k), dims(taps)));
                    assert(s[c][k] == at(taps, ix3(i, c, k)));
                }
                assert(s =~~= t);
            }
        }
        Ok((y, taps))
    }

    /// Whether `forward_sequence` can be called with this tensor.
    pub fn takes_sequence(&self, xs: &Tensor) -> (r: bool)
        ensures
            r <==> sequence_room(*self, *xs),
    {
        let s = sizes(xs);
        proof {
            use_type_invariant(self);
            assert(forall|k: int| 0 <= k < s@.len() ==> shape_of(s@)[k] == s@[k]);
        }
        s.len() != 3 || (self.has_shapes() && fits_in_memory(&s) && fits3(
            s[0],
            s[1],
            3,
            self.d_inner,
            17,
        ))
    }

    /// Forward pass for sequence processing (prefill mode).
    ///
    /// # Arguments
    /// * `xs` - Input tensor: (batch, seq_len, d_model)
    ///
    /// # Returns
    /// * Output: (batch, seq_len, d_model)
    /// * Final SSM state: (batch, d_inner, d_state)
    /// * Final conv state: (batch, d_inner, d_conv)
    pub fn forward_sequence(&self, xs: &Tensor) -> (r: Result<
        (Tensor, Tensor, Tensor),
        MambaError,
    >)
        requires
            sequence_room(*self, *xs),
        ensures
            held_by_cpu(self.weights()) && on_cpu(*xs) && sequence_goes(self.weights(), *xs)
                ==> r is Ok,
            r matches Ok((out, h, taps)) ==> {
                let w = self.weights();
                let inner = self.inner();
                &&& sequence_goes(w, *xs)
                &&& dims(out) == shape3(dims(*xs)[0], dims(*xs)[1], self.model())
                &&& dtype_of(out) == dtype_of(*xs)
                &&& contiguous(out)
                &&& dims(h) == shape3(dims(*xs)[0], inner, D_STATE as nat)
                &&& dtype_of(h) == dtype_of(*xs)
                &&& dims(taps) == shape3(dims(*xs)[0], inner, D_CONV as nat)
                &&& dtype_of(taps) == dtype_of(*xs)
                &&& on_cpu(*xs) ==> on_cpu(out) && on_cpu(h) && on_cpu(taps)
                &&& forall|i: int|
                    0 <= i < dims(*xs)[0] ==> runs(
                        mixer_step(mixer(w), dtype_of(*xs)),
                        slice(*xs, i),
                        blank(inner),
                        memory(h, taps, i, inner),
                        #[trigger] slice(out, i),
                    )
            },
    {
        broadcast use group_index;

        proof {
            use_type_invariant(self);
            self.lemma_sized();
        }
        let ghost w = self.weights();
        let ghost m = mixer(w);
        let ghost inner = self.inner();
        let ghost dt = dtype_of(*xs);
        let (b_sz, seq_len, _d_model) = dims3(xs)?;
        let ghost (items, len) = (b_sz as nat, seq_len as nat);
        proof {
            if items > 0 && len > 0 {
                lemma_sequence_fits(items, len, inner);
            } else {
                lemma_fits_update(shape3(items, len + 3, 17 * inner), 1, len);
            }
        }
        let ordered = in_order(xs)?;
        let (x, gate) = self.split(&ordered, 2)?;
        let (x_conv, taps) = self.convolve(&x)?;
        let (delta, b, c) = self.select_inputs(&x_conv, 2)?;
        let a = self.decay_rates(dtype(&delta))?;
        proof {
            assert(dims(delta) =~= dims(x_conv));
            law_plain_scan(x_conv, delta, a, b, c, w.d);
            lemma_fits_shorter(shape2(items, len), 17 * inner, D_STATE as nat);
            assert(shape2(items, len).push(D_STATE as nat) =~= dims(c));
            assert(shape2(items, len).push(17 * inner) =~= shape3(items, len, 17 * inner));
        }
        let (y, h) = selective_scan(&x_conv, &delta, &a, &b, &c, &self.weights.d)?;
        let out = self.close(&y, &gate)?;
        proof {
            assert forall|i: int| 0 <= i < items implies runs(
                mixer_step(m, dt),
                slice(*xs, i),
                blank(inner),
                memory(h, taps, i, inner),
                #[trigger] slice(out, i),
            ) by {
                let (da, skip) = (matrix(a), vector(w.d));
                let hs = choose|hs: Seq<Matrix>|
                    {
                        &&& #[trigger] ssm_trace(
                            dt,
                            da,
                            skip,
                            slice(delta, i),
                            slice(b, i),
                            slice(c, i),
                            slice(x_conv, i),
                            hs,
                            slice(y, i),
                        )
                        &&& hs.first() == zeros(inner, D_STATE as nat)
                        &&& hs.last() == slice(h, i)
                    };
                let ms = Seq::new(
                    len + 1,
                    |t: int| Memory { taps: history(x, i, t, inner), h: hs[t] },
                );
                assert forall|t: int| #![trigger slice(out, i)[t]] 0 <= t < len implies mixer_step(
                    m,
                    dt,
                )(slice(*xs, i)[t], ms[t], ms[t + 1], slice(out, i)[t]) by {
                    let at_t = ix2(i, t);
                    let work = Work {
                        inputs: row(x, at_t),
                        gate: row(gate, at_t),
                        x: row(x_conv, at_t),
                        delta: row(delta, at_t),
                        b: row(b, at_t),
                        c: row(c, at_t),
                        a: da,
                        skip,
                        y: row(y, at_t),
                    };
                    assert(within(at_t, shape2(items, len)));
                    assert(row(ordered, at_t) =~= row(*xs, at_t));
                    assert(splits(m, dt, row(*xs, at_t), work.inputs, work.gate));
                    assert(convolves(m, dt, ms[t].taps, work.inputs, ms[t + 1].taps, work.x));
                    assert(selects(m, dt, work.x, work.delta, work.b, work.c));
                    assert(closes(m, dt, work.y, work.gate, row(out, at_t)));
                    assert(prepares(m, dt, da, skip));
                    assert(slice(y, i)[t] == work.y);
                    assert(mixes_by(
                        m,
                        dt,
                        row(*xs, at_t),
                        ms[t],
                        ms[t + 1],
                        row(out, at_t),
                        work,
                    ));
                }
                lemma_stretched(h, i, items, inner, D_STATE as nat);
                assert(ms.first() == blank(inner)) by {
                    assert(history(x, i, 0, inner) =~~= zeros(inner, D_CONV as nat));
                }
                assert(ms.last() == memory(h, taps, i, inner)) by {
                    assert(tapped(taps, i, inner) == history(x, i, len as int, inner));
                }
                assert(traces(mixer_step(m, dt), slice(*xs, i), ms, slice(out, i)));
            }
        }
        Ok((out, h, taps))
    }
}

/// The shapes that occur in a sequence can be allocated.
proof fn lemma_sequence_fits(b: nat, l: nat, inner: nat)
    requires
        b > 0,
        l > 0,
        inner > 0,
        fits(shape3(b, l + 3, 17 * inner)),
    ensures
        fits(shape3(b, l + 3, 4)),
        fits(shape3(b, inner, l + 3)),
        fits(shape3(b, inner, l)),
        fits(shape3(b, l, inner)),
        fits(shape3(b, l, 17 * inner)),
        fits(shape3(b, inner, 4)),
        l < 4 ==> fits(shape3(b, inner, (4 - l) as nat)),
        fits(shape4(b, inner, l, D_STATE as nat)),
{
    lemma_volume(b, l + 3, 17 * inner, 1);
    lemma_volume(b, l + 3, 4, 1);
    lemma_volume(b, inner, l + 3, 1);
    lemma_volume(b, inner, l, D_STATE as nat);
    lemma_volume(b, l, inner, 1);
    lemma_volume(b, l, 17 * inner, 1);
    lemma_volume(b, inner, 4, 1);
    if l < 4 {
        lemma_volume(b, inner, (4 - l) as nat, 1);
    }
    let v = b * (l + 3) * (17 * inner);
    let p = (b * inner) as int;
    assert(v == p * (17 * (l + 3))) by (nonlinear_arith)
        requires
            v == b * (l + 3) * (17 * inner),
            p == b * inner,
    ;
    assert(b <= p && p > 0) by (nonlinear_arith)
        requires
            p == b * inner,
            b > 0,
            inner > 0,
    ;
    assert(b * (l + 3) * 4 <= p * (17 * (l + 3))) by (nonlinear_arith)
        requires
            b <= p,
    ;
    assert(b * inner * (l + 3) <= p * (17 * (l + 3)) && b * inner * l <= p * (17 * (l + 3)) && b * l
        * inner <= p * (17 * (l + 3)) && b * l * (17 * inner) <= p * (17 * (l + 3)) && b * inner * 4
        <= p * (17 * (l + 3)) && b * inner * l * 16 <= p * (17 * (l + 3))) by (nonlinear_arith)
        requires
            p == b * inner,
            p > 0,
            l > 0,
    ;
    if l < 4 {
        assert(b * inner * (4 - l) <= p * (17 * (l + 3))) by (nonlinear_arith)
            requires
                p == b * inner,
                p > 0,
                0 < l < 4,
        ;
    }
}

/// The tensors of a block can be allocated.
pub(crate) proof fn lemma_weights_fit(model: nat)
    requires
        block_room(model),
    ensures
        ({
            let inner = 2 * model;
            let rank = rank_for(model as int) as nat;
            &&& 0 < rank
            &&& rank + 2 * D_STATE <= 17 * inner <= usize::MAX
            &&& fits(shape2(2 * inner, model))
            &&& fits(shape3(inner, 1, D_CONV as nat))
            &&& fits(shape1(inner))
            &&& fits(shape2(rank + 2 * D_STATE as nat, inner))
            &&& fits(shape2(inner, rank))
            &&& fits(shape2(inner, D_STATE as nat))
            &&& fits(shape2(model, inner))
            &&& fits(shape1(17 * inner))
        }),
{
    let inner = 2 * model;
    let rank = rank_for(model as int) as nat;
    lemma_volume(inner, 17 * inner, 1, 1);
    lemma_volume(17 * inner, 1, 1, 1);
    lemma_volume(2 * inner, model, 1, 1);
    lemma_volume(inner, 1, D_CONV as nat, 1);
    lemma_volume(rank + 2 * D_STATE as nat, inner, 1, 1);
    lemma_volume(inner, rank, 1, 1);
    lemma_volume(inner, D_STATE as nat, 1, 1);
    lemma_volume(model, inner, 1, 1);
    let v = inner * (17 * inner);
    assert(17 * inner <= v && (2 * inner) * model <= v && inner * 1 * 4 <= v && inner <= v && (rank
        + 32) * inner <= v && inner * rank <= v && inner * 16 <= v && model * inner <= v)
        by (nonlinear_arith)
        requires
            v == inner * (17 * inner),
            inner == 2 * model,
            model > 0,
            rank + 32 <= 17 * inner,
    ;
}

/// The shapes that occur in the convolution of one token can be allocated.
pub(crate) proof fn lemma_token_fits(b: nat, inner: nat)
    requires
        inner > 0,
        fits(shape2(b, 17 * inner)),
    ensures
        fits(shape3(b, inner, 1)),
        fits(shape3(b, inner, 4)),
        fits(shape3(1, inner, 4)),
        fits(shape3(b, inner, D_STATE as nat)),
        fits(shape2(b, inner)),
        fits(shape2(1, inner)),
        fits(shape2(inner, 4)),
        fits(shape1(inner)),
{
    lemma_volume(b, 17 * inner, 1, 1);
    lemma_volume(b, inner, 1, 1);
    lemma_volume(b, inner, 4, 1);
    lemma_volume(1, inner, 4, 1);
    lemma_volume(b, inner, 16, 1);
    lemma_volume(1, inner, 1, 1);
    lemma_volume(inner, 4, 1, 1);
    let k = at_least_one(b);
    let v = k * (17 * inner);
    assert(k * inner * 1 <= v && k * inner * 4 <= v && 1 * inner * 4 <= v && k * inner * 16 <= v && k
        * inner <= v && 1 * inner <= v && inner * 4 <= v) by (nonlinear_arith)
        requires
            k > 0,
            v == k * (17 * inner),
    ;
}

/// What a store that keeps to the shapes that it is asked for hands out for a block has the shapes
/// that belong to the sizes of the block.
pub proof fn law_kept_shapes_fit_block(
    b: MambaBlock,
    store: int,
    path: Seq<Seq<char>>,
    dt: DType,
    cfg: Config,
)
    requires
        keeps_shapes(store),
        sized_for(b, cfg),
        fetched(b.weights(), store, path, dt, cfg),
    ensures
        b.shaped(),
{
}

} // verus!
