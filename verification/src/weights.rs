//! Where the tensors of a model come from.
use crate::array::{fits, shape1, shape2, shape3};
use crate::layers::NORM_EPS;
use crate::tensor::{dims, dtype_of, elems, on_cpu, shape_of};
use candle_core::{DType, Error, Tensor};
use vstd::prelude::*;

verus! {

/// A source of named tensors: the `VarBuilder` of `candle_nn`. Behind it may be any source, also one
/// of a caller's own; that it answers a request, with a tensor or an error, is taken for granted.
#[verifier::external_body]
pub struct VarBuilder<'a>(pub candle_nn::VarBuilder<'a>);

/// What a `VarBuilder` gets its tensors from.
pub uninterp spec fn store_of(vb: VarBuilder<'_>) -> int;

/// The path that a `VarBuilder` puts in front of the names of its tensors, part by part.
pub uninterp spec fn path_of(vb: VarBuilder<'_>) -> Seq<Seq<char>>;

/// The element type that a `VarBuilder` asks for.
pub uninterp spec fn type_of(vb: VarBuilder<'_>) -> DType;

/// The store `store` may hand out a tensor of the sizes `sizes` and the elements `numbers`, of type
/// `kind`, when it is asked for one of type `asked` and shape `shape` under the name `name`. The CPU
/// holds it if and only if `local`. What a store holds may come from a file, and may be made up at
/// random when it is asked for the first time.
pub uninterp spec fn hands_out(
    store: int,
    name: Seq<char>,
    asked: DType,
    shape: Seq<nat>,
    sizes: Seq<nat>,
    kind: DType,
    local: bool,
    numbers: Map<Seq<int>, u64>,
) -> bool;

/// The store `store` may answer with an error when it is asked for a tensor of type `asked` and
/// shape `shape` under the name `name`.
pub uninterp spec fn refuses(store: int, name: Seq<char>, asked: DType, shape: Seq<nat>) -> bool;

/// The parts of a path with a dot between each two.
pub open spec fn joined(path: Seq<Seq<char>>) -> Seq<char>
    decreases path.len(),
{
    if path.len() == 0 {
        Seq::empty()
    } else if path.len() == 1 {
        path[0]
    } else {
        joined(path.drop_last()) + seq!['.'] + path.last()
    }
}

/// `t` is what a store may hand out under a path, when it is asked for a tensor of type `asked` and
/// shape `shape`.
pub open spec fn handed(
    store: int,
    path: Seq<Seq<char>>,
    asked: DType,
    shape: Seq<nat>,
    t: Tensor,
) -> bool {
    hands_out(store, joined(path), asked, shape, dims(t), dtype_of(t), on_cpu(t), elems(t))
}

/// A store may answer with an error when it is asked, under a path, for a tensor of type `asked`
/// and shape `shape`.
pub open spec fn refused(
    store: int,
    path: Seq<Seq<char>>,
    asked: DType,
    shape: Seq<nat>,
) -> bool {
    refuses(store, joined(path), asked, shape)
}

/// A store keeps to what it is asked for: it hands out tensors of the shape that it is asked for,
/// and of no other.
pub open spec fn keeps_shapes(store: int) -> bool {
    forall|path: Seq<Seq<char>>, asked: DType, shape: Seq<nat>, t: Tensor| #[trigger]
        handed(store, path, asked, shape, t) ==> dims(t) == shape
}

/// A digit as it is written.
pub open spec fn digit(d: nat) -> char {
    (48 + d) as char
}

/// A number as it is written, in decimal.
pub open spec fn decimal(n: nat) -> Seq<char>
    decreases n,
{
    if n < 10 {
        Seq::empty().push(digit(n))
    } else {
        decimal(n / 10).push(digit(n % 10))
    }
}

/// `usize::to_string`: the number in decimal.
#[verifier::external_body]
pub(crate) fn written(n: usize) -> (r: String)
    ensures
        r@ == decimal(n as nat),
{
    n.to_string()
}

/// `VarBuilder::pp`: the same source, with one more part at the end of the path.
#[verifier::external_body]
pub(crate) fn below<'a>(vb: &VarBuilder<'a>, part: &str) -> (r: VarBuilder<'a>)
    ensures
        store_of(r) == store_of(*vb),
        path_of(r) == path_of(*vb).push(part@),
        type_of(r) == type_of(*vb),
{
    VarBuilder(vb.0.pp(part))
}

/// `VarBuilder::dtype`: the element type that is asked for.
#[verifier::external_body]
pub(crate) fn asked_type(vb: &VarBuilder<'_>) -> (r: DType)
    ensures
        r == type_of(*vb),
{
    vb.0.dtype()
}

/// `VarBuilder::get`: what the source hands out under a name, in the given shape, or its error.
#[verifier::external_body]
pub(crate) fn fetch(vb: &VarBuilder<'_>, sizes: Vec<usize>, name: &str) -> (r: Result<
    Tensor,
    Error,
>)
    requires
        fits(shape_of(sizes@)),
    ensures
        r matches Ok(t) ==> {
            hands_out(
                store_of(*vb),
                joined(path_of(*vb).push(name@)),
                type_of(*vb),
                shape_of(sizes@),
                dims(t),
                dtype_of(t),
                on_cpu(t),
                elems(t),
            )
        },
        r is Err ==> refuses(
            store_of(*vb),
            joined(path_of(*vb).push(name@)),
            type_of(*vb),
            shape_of(sizes@),
        ),
{
    vb.0.get(sizes, name)
}

/// `candle_nn::linear_no_bias`: a matrix of `outputs` by `inputs`, under the name "weight". It
/// fails only where the source does.
#[verifier::external_body]
pub(crate) fn fetch_linear_no_bias(vb: &VarBuilder<'_>, inputs: usize, outputs: usize) -> (r: Result<
    Tensor,
    Error,
>)
    requires
        fits(shape2(outputs as nat, inputs as nat)),
    ensures
        r matches Ok(w) ==> {
            &&& handed(
                store_of(*vb),
                path_of(*vb).push("weight"@),
                type_of(*vb),
                shape2(outputs as nat, inputs as nat),
                w,
            )
        },
        r is Err ==> refused(
            store_of(*vb),
            path_of(*vb).push("weight"@),
            type_of(*vb),
            shape2(outputs as nat, inputs as nat),
        ),
{
    let layer = candle_nn::linear_no_bias(inputs, outputs, vb.0.clone())?;
    Ok(layer.weight().clone())
}

/// `candle_nn::linear`: a matrix of `outputs` by `inputs`, under the name "weight", and a vector of
/// `outputs`, under the name "bias". It fails only where the source does.
#[verifier::external_body]
pub(crate) fn fetch_linear(vb: &VarBuilder<'_>, inputs: usize, outputs: usize) -> (r: Result<
    (Tensor, Tensor),
    Error,
>)
    requires
        fits(shape2(outputs as nat, inputs as nat)),
        fits(shape1(outputs as nat)),
    ensures
        r matches Ok((w, b)) ==> {
            &&& handed(
                store_of(*vb),
                path_of(*vb).push("weight"@),
                type_of(*vb),
                shape2(outputs as nat, inputs as nat),
                w,
            )
            &&& handed(
                store_of(*vb),
                path_of(*vb).push("bias"@),
                type_of(*vb),
                shape1(outputs as nat),
                b,
            )
        },
        r is Err ==> refused(
            store_of(*vb),
            path_of(*vb).push("weight"@),
            type_of(*vb),
            shape2(outputs as nat, inputs as nat),
        ) || refused(
            store_of(*vb),
            path_of(*vb).push("bias"@),
            type_of(*vb),
            shape1(outputs as nat),
        ),
{
    let layer = candle_nn::linear(inputs, outputs, vb.0.clone())?;
    Ok((layer.weight().clone(), layer.bias().unwrap().clone()))
}

/// `candle_nn::conv1d` with as many groups as channels: a kernel of `size` for each channel, under
/// the name "weight", and a vector of a number for each, under the name "bias". It fails only where
/// the source does.
#[verifier::external_body]
pub(crate) fn fetch_depthwise_conv(vb: &VarBuilder<'_>, channels: usize, size: usize) -> (r: Result<
    (Tensor, Tensor),
    Error,
>)
    requires
        channels > 0,
        fits(shape3(channels as nat, 1, size as nat)),
        fits(shape1(channels as nat)),
    ensures
        r matches Ok((w, b)) ==> {
            &&& handed(
                store_of(*vb),
                path_of(*vb).push("weight"@),
                type_of(*vb),
                shape3(channels as nat, 1, size as nat),
                w,
            )
            &&& handed(
                store_of(*vb),
                path_of(*vb).push("bias"@),
                type_of(*vb),
                shape1(channels as nat),
                b,
            )
        },
        r is Err ==> refused(
            store_of(*vb),
            path_of(*vb).push("weight"@),
            type_of(*vb),
            shape3(channels as nat, 1, size as nat),
        ) || refused(
            store_of(*vb),
            path_of(*vb).push("bias"@),
            type_of(*vb),
            shape1(channels as nat),
        ),
{
    let cfg = candle_nn::Conv1dConfig { groups: channels, ..Default::default() };
    let layer = candle_nn::conv1d(channels, channels, size, cfg, vb.0.clone())?;
    Ok((layer.weight().clone(), layer.bias().unwrap().clone()))
}

/// `candle_nn::rms_norm`: a vector of `size` factors, under the name "weight". It fails only where
/// the source does.
#[verifier::external_body]
pub(crate) fn fetch_rms_norm(vb: &VarBuilder<'_>, size: usize, eps: &str) -> (r: Result<
    Tensor,
    Error,
>)
    requires
        eps@ == NORM_EPS@,
        fits(shape1(size as nat)),
    ensures
        r matches Ok(w) ==> {
            &&& handed(
                store_of(*vb),
                path_of(*vb).push("weight"@),
                type_of(*vb),
                shape1(size as nat),
                w,
            )
        },
        r is Err ==> refused(
            store_of(*vb),
            path_of(*vb).push("weight"@),
            type_of(*vb),
            shape1(size as nat),
        ),
{
    let layer = candle_nn::rms_norm(size, eps.parse().unwrap(), vb.0.clone())?;
    Ok(layer.into_inner().weight().clone())
}

/// `candle_nn::embedding`: a table of `rows` rows of `width` numbers, under the name "weight". It
/// fails only where the source does.
#[verifier::external_body]
pub(crate) fn fetch_embedding(vb: &VarBuilder<'_>, rows: usize, width: usize) -> (r: Result<
    Tensor,
    Error,
>)
    requires
        fits(shape2(rows as nat, width as nat)),
    ensures
        r matches Ok(w) ==> {
            &&& handed(
                store_of(*vb),
                path_of(*vb).push("weight"@),
                type_of(*vb),
                shape2(rows as nat, width as nat),
                w,
            )
        },
        r is Err ==> refused(
            store_of(*vb),
            path_of(*vb).push("weight"@),
            type_of(*vb),
            shape2(rows as nat, width as nat),
        ),
{
    let layer = candle_nn::embedding(rows, width, vb.0.clone())?;
    Ok(layer.embeddings().clone())
}

} // verus!
