//! The layers of `candle_nn` that the model is built from.
use crate::array::{fits, inhabited, ix1, ix2, ix3, shape1, shape3, within};
use crate::tensor::{
    add_gives, at, contiguous, dims, dot_gives, dtype_of, grounded, is_float, is_integer,
    is_matrix_float, is_storable, on_cpu, row, same_kind,
};
use candle_core::{DType, Error, Module, Tensor};
use vstd::prelude::*;

verus! {

/// `y` is an element of a convolution, where `kernel` lies over `window`.
pub uninterp spec fn conv_gives(dt: DType, window: Seq<u64>, kernel: Seq<u64>, y: u64) -> bool;

/// `ys` is `xs` divided by its root mean square, `eps` added to the mean, times `weight`.
pub uninterp spec fn rms_gives(
    dt: DType,
    xs: Seq<u64>,
    weight: Seq<u64>,
    eps: Seq<char>,
    ys: Seq<u64>,
) -> bool;

/// `y` is an inner product of `x` and `w`, plus `bias` where there is one.
pub open spec fn linear_gives(
    dt: DType,
    x: Seq<u64>,
    w: Seq<u64>,
    bias: Option<u64>,
    y: u64,
) -> bool {
    match bias {
        None => dot_gives(dt, x, w, y),
        Some(b) => exists|s: u64| #[trigger] dot_gives(dt, x, w, s) && add_gives(dt, s, b, y),
    }
}

/// Entry `o` of a bias vector.
pub open spec fn bias_at(bias: Option<&Tensor>, o: int) -> Option<u64> {
    match bias {
        None => None,
        Some(b) => Some(at(*b, ix1(o))),
    }
}

/// `x` can be multiplied by the matrix `weight`, and `bias` added. A tensor of three dimensions has
/// to have a row. Where there is nothing to multiply, the widths and the types of `x` and `weight` do
/// not have to match; where there is nothing to add, that of `bias` does not have to.
pub open spec fn linear_fits(x: Tensor, weight: Tensor, bias: Option<&Tensor>) -> bool {
    &&& is_storable(dtype_of(x))
    &&& dims(x).len() == 3 ==> inhabited(dims(x).drop_last())
    &&& inhabited(dims(x)) && dims(weight)[0] > 0 ==> {
        &&& dims(x).last() == dims(weight)[1]
        &&& dtype_of(x) == dtype_of(weight)
        &&& is_matrix_float(dtype_of(x))
    }
    &&& inhabited(dims(x).drop_last()) && dims(weight)[0] > 0 ==> (bias matches Some(b) ==> dtype_of(
        x,
    ) == dtype_of(*b))
}

/// `candle_nn::Linear::forward`: each row of `x` is multiplied by the rows of `weight`, and `bias`
/// is added. The result lies in row-major order.
#[verifier::external_body]
pub(crate) fn linear(x: &Tensor, weight: &Tensor, bias: Option<&Tensor>) -> (r: Result<
    Tensor,
    Error,
>)
    requires
        dims(*x).len() == 2 || (dims(*x).len() == 3 && contiguous(*x)),
        dims(*weight).len() == 2,
        bias matches Some(b) ==> dims(*b) == shape1(dims(*weight)[0]),
        fits(dims(*x)),
        fits(dims(*weight)),
        fits(dims(*x).drop_last().push(dims(*weight)[0])),
    ensures
        on_cpu(*x) && on_cpu(*weight) && (bias matches Some(b) ==> on_cpu(*b)) && linear_fits(
            *x,
            *weight,
            bias,
        ) ==> r is Ok,
        r matches Ok(o) ==> {
            &&& linear_fits(*x, *weight, bias)
            &&& dims(o) == dims(*x).drop_last().push(dims(*weight)[0])
            &&& same_kind(o, *x)
            &&& contiguous(o)
            &&& forall|i: Seq<int>, j: int|
                within(i.push(j), dims(o)) ==> linear_gives(
                    dtype_of(*x),
                    row(*x, i),
                    row(*weight, ix1(j)),
                    bias_at(bias, j),
                    #[trigger] at(o, i.push(j)),
                )
        },
{
    candle_nn::Linear::new(weight.clone(), bias.cloned()).forward(x)
}

/// What the kernel sees of channel `c` of batch item `b` at output position `t`, when `padding`
/// zeros are put in front of the input and as many behind it.
pub open spec fn window(x: Tensor, b: int, c: int, t: int, size: nat, padding: int) -> Seq<u64> {
    Seq::new(
        size,
        |k: int|
            if 0 <= t + k - padding < dims(x)[2] {
                at(x, ix3(b, c, t + k - padding))
            } else {
                0
            },
    )
}

/// `x` has as many channels as there are kernels, and all three are of one type that can be
/// computed with.
pub open spec fn conv_fits(x: Tensor, weight: Tensor, bias: Tensor) -> bool {
    &&& dims(x)[1] == dims(weight)[0]
    &&& dtype_of(x) == dtype_of(weight)
    &&& dtype_of(x) == dtype_of(bias)
    &&& is_matrix_float(dtype_of(x))
}

/// `candle_nn::Conv1d::forward` with as many groups as channels: each channel is convolved with a
/// kernel of its own, and its bias is added.
#[verifier::external_body]
pub(crate) fn depthwise_conv(
    x: &Tensor,
    weight: &Tensor,
    bias: &Tensor,
    padding: usize,
    groups: usize,
) -> (r: Result<Tensor, Error>)
    requires
        dims(*x).len() == 3,
        inhabited(dims(*x)),
        dims(*weight).len() == 3,
        inhabited(dims(*weight)),
        dims(*weight)[0] == groups,
        dims(*weight)[1] == 1,
        contiguous(*weight),
        dims(*bias) == shape1(groups as nat),
        dims(*weight)[2] <= padding + 1,
        fits(dims(*x)),
        fits(dims(*weight)),
        fits(
            shape3(
                dims(*x)[0],
                (dims(*x)[2] + 2 * padding - dims(*weight)[2] + 1) as nat,
                dims(*weight)[2],
            ),
        ),
        fits(
            shape3(
                dims(*x)[0],
                groups as nat,
                (dims(*x)[2] + 2 * padding - dims(*weight)[2] + 1) as nat,
            ),
        ),
    ensures
        on_cpu(*x) && on_cpu(*weight) && on_cpu(*bias) && conv_fits(*x, *weight, *bias)
            ==> r is Ok,
        r matches Ok(o) ==> {
            &&& conv_fits(*x, *weight, *bias)
            &&& dims(o) == shape3(
                dims(*x)[0],
                groups as nat,
                (dims(*x)[2] + 2 * padding - dims(*weight)[2] + 1) as nat,
            )
            &&& same_kind(o, *x)
            &&& forall|b: int, c: int, t: int|
                within(ix3(b, c, t), dims(o)) ==> exists|s: u64|
                    {
                        &&& #[trigger] conv_gives(
                            dtype_of(*x),
                            window(*x, b, c, t, dims(*weight)[2], padding as int),
                            row(*weight, ix2(c, 0)),
                            s,
                        )
                        &&& add_gives(
                            dtype_of(*x),
                            s,
                            at(*bias, ix1(c)),
                            #[trigger] at(o, ix3(b, c, t)),
                        )
                    }
        },
{
    let cfg = candle_nn::Conv1dConfig { padding, groups, ..Default::default() };
    candle_nn::Conv1d::new(weight.clone(), Some(bias.clone()), cfg).forward(x)
}

/// The element types that tensors in row-major order are normalised in.
pub open spec fn is_norm_float(dt: DType) -> bool {
    dt is BF16 || dt is F16 || dt is F32
}

/// `x` can be normalised by `weight`. A tensor in row-major order has to have rows as long as
/// `weight`, of the same type, and `weight` has to lie in order too. In any other tensor, rows of one
/// number and a `weight` of one number are stretched; if it has no elements, the types are not
/// compared.
pub open spec fn rms_fits(x: Tensor, weight: Tensor) -> bool {
    &&& dims(x).len() > 0
    &&& contiguous(x) ==> {
        &&& dims(x).last() == dims(weight)[0]
        &&& dtype_of(x) == dtype_of(weight)
        &&& contiguous(weight)
        &&& is_norm_float(dtype_of(x))
    }
    &&& !contiguous(x) ==> {
        &&& dims(x).last() == dims(weight)[0] || dims(x).last() == 1 || dims(weight)[0] == 1
        &&& is_float(dtype_of(x))
        &&& inhabited(dims(x)) ==> dtype_of(x) == dtype_of(weight)
    }
}

/// What the mean of the squares is kept away from zero by, in a normalisation.
pub const NORM_EPS: &'static str = "1e-5";

/// `candle_nn::RmsNorm::forward`: each row of `x` is divided by its root mean square and multiplied
/// by `weight`.
#[verifier::external_body]
pub(crate) fn rms_norm(x: &Tensor, weight: &Tensor, eps: &str) -> (r: Result<Tensor, Error>)
    requires
        eps@ == NORM_EPS@,
        contiguous(*x) ==> grounded(*x),
        dims(*x).len() > 0 ==> {
            &&& contiguous(*x) || !is_integer(dtype_of(*x))
            &&& fits(dims(*x).drop_last().push(dims(*weight)[0]))
            &&& dims(*weight).len() == 1
            &&& dims(*weight)[0] > 0
            &&& fits(dims(*weight))
        },
        fits(dims(*x)),
    ensures
        on_cpu(*x) && on_cpu(*weight) && rms_fits(*x, *weight) ==> r is Ok,
        r matches Ok(o) ==> {
            &&& rms_fits(*x, *weight)
            &&& dims(o) == dims(*x).drop_last().push(
                if dims(*x).last() == 1 {
                    dims(*weight)[0]
                } else {
                    dims(*x).last()
                },
            )
            &&& same_kind(o, *x)
            &&& contiguous(*x) || inhabited(dims(o)) ==> contiguous(o)
            &&& forall|i: Seq<int>|
                dims(*x).last() == dims(*weight)[0] && within(i, dims(*x).drop_last())
                    ==> rms_gives(
                    dtype_of(*x),
                    row(*x, i),
                    row(*weight, Seq::empty()),
                    eps@,
                    #[trigger] row(o, i),
                )
        },
{
    candle_nn::RmsNorm::new(weight.clone(), eps.parse().unwrap()).forward(x)
}

/// The identifier that stands for no token: the largest number of the type.
pub open spec fn no_token(dt: DType) -> u64 {
    if dt is U8 {
        u8::MAX as u64
    } else if dt is U32 {
        u32::MAX as u64
    } else {
        i64::MAX as u64
    }
}

/// The types that identifiers of tokens have.
pub open spec fn is_id(dt: DType) -> bool {
    dt is U8 || dt is U32 || dt is I64
}

/// The row that an identifier names: the identifier itself, cut off to the size of a `usize`.
pub open spec fn place(id: u64) -> int {
    id as int % (usize::MAX + 1)
}

/// `id` stands for a row of a table of `rows` rows, or for none.
pub open spec fn id_fits(dt: DType, id: u64, rows: nat) -> bool {
    id == no_token(dt) || place(id) < rows
}

/// Every identifier of `ids` stands for a row of a table of `rows` rows, or for none.
pub open spec fn ids_fit(ids: Tensor, rows: nat) -> bool {
    &&& is_id(dtype_of(ids))
    &&& forall|i: Seq<int>|
        within(i, dims(ids)) ==> id_fits(dtype_of(ids), #[trigger] at(ids, i), rows)
}

/// The row that an identifier of type `dt` stands for: that of `table`, or zeros for no token.
pub open spec fn named_row(dt: DType, id: u64, table: Tensor) -> Seq<u64> {
    if id == no_token(dt) {
        Seq::new(dims(table)[1], |j: int| 0u64)
    } else {
        row(table, ix1(place(id)))
    }
}

/// `candle_nn::Embedding::forward`: each identifier is replaced by the row of `table` that it
/// names, and the one that stands for no token by zeros. An identifier of no row is an error, and
/// so is a table that does not lie in row-major order.
#[verifier::external_body]
pub(crate) fn embed(table: &Tensor, width: usize, ids: &Tensor) -> (r: Result<Tensor, Error>)
    requires
        dims(*table).len() == 2,
        dims(*table)[1] == width,
        contiguous(*table) ==> grounded(*table),
        fits(dims(*table)),
        fits(dims(*ids)),
        fits(dims(*ids).push(width as nat)),
    ensures
        on_cpu(*table) && on_cpu(*ids) && contiguous(*table) && is_storable(dtype_of(*table))
            && ids_fit(*ids, dims(*table)[0]) ==> r is Ok,
        r matches Ok(o) ==> {
            &&& contiguous(*table)
            &&& is_storable(dtype_of(*table))
            &&& ids_fit(*ids, dims(*table)[0])
            &&& dims(o) == dims(*ids).push(width as nat)
            &&& same_kind(o, *table)
            &&& contiguous(o)
            &&& forall|i: Seq<int>|
                within(i, dims(*ids)) ==> #[trigger] row(o, i) == named_row(
                    dtype_of(*ids),
                    at(*ids, i),
                    *table,
                )
        },
{
    candle_nn::Embedding::new(table.clone(), width).forward(ids)
}

} // verus!
