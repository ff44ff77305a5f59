//! The tensor operations of `candle_core` and `candle_nn` that the model is built from, with what
//! is taken to be true of them.
//!
//! Operations that only move elements are described exactly. The last bits of a computed
//! floating-point number depend on the machine (the order in which a sum is taken, the accuracy of
//! an exponential), so arithmetic is described by relations: `exp_gives(dt, x, y)` says that `y` is
//! a number that the exponential may give for `x` on elements of type `dt`. Such a relation says
//! neither which bits `y` has nor that `x` gives the same `y` each time.
//!
//! Numbers are bit patterns. What is said of a tensor holds as long as nobody writes to its
//! storage. `candle_core` is built without its GPU backends, so what is computed is computed by
//! its CPU backend.
use crate::array::{
    broadcast, broadcasts, count, fits, inhabited, ix2, ix3, offset, shape1, shape2, shape3, shape4,
    source, swapped, within,
};
use candle_core::{DType, Device, Error, Tensor};
use vstd::prelude::*;

verus! {

/// The tensor type of `candle_core`.
#[verifier::external_type_specification]
#[verifier::external_body]
pub struct ExTensor(candle_core::Tensor);

/// The error type of `candle_core`.
#[verifier::external_type_specification]
#[verifier::external_body]
pub struct ExError(candle_core::Error);

/// The element types of `candle_core`.
#[verifier::external_type_specification]
pub struct ExDType(candle_core::DType);

/// The devices of `candle_core`.
#[verifier::external_type_specification]
pub struct ExDevice(candle_core::Device);

/// A CUDA device.
#[verifier::external_type_specification]
#[verifier::external_body]
pub struct ExCudaDevice(candle_core::CudaDevice);

/// A Metal device.
#[verifier::external_type_specification]
#[verifier::external_body]
pub struct ExMetalDevice(candle_core::MetalDevice);

/// `Tensor::clone`: another handle to the same tensor.
pub assume_specification[ <candle_core::Tensor as Clone>::clone ](
    t: &candle_core::Tensor,
) -> (r: candle_core::Tensor)
    ensures
        r == *t,
;

/// The sizes of a tensor.
pub uninterp spec fn dims(t: Tensor) -> Seq<nat>;

/// The elements of a tensor by their indices, each as its bit pattern extended with zeros.
pub uninterp spec fn elems(t: Tensor) -> Map<Seq<int>, u64>;

/// The type of a tensor's elements.
pub uninterp spec fn dtype_of(t: Tensor) -> DType;

/// The device that holds a tensor.
pub uninterp spec fn device_of(t: Tensor) -> Device;

/// The elements lie in memory in row-major order, one after another.
pub uninterp spec fn contiguous(t: Tensor) -> bool;

/// The tensor lies in memory as a new one does: it begins where its storage begins, and the steps
/// between its elements are those of row-major order at every dimension. (`contiguous` leaves the
/// beginning open, and the steps at dimensions of size one.)
pub uninterp spec fn fresh(t: Tensor) -> bool;

/// `t` has elements, or begins where its storage begins. A view of no elements may begin behind the
/// end of its storage, where reading even none of them goes out of bounds.
pub open spec fn grounded(t: Tensor) -> bool {
    inhabited(dims(t)) || fresh(t)
}

/// The element of `t` at index `i`.
#[verifier::inline]
pub open spec fn at(t: Tensor, i: Seq<int>) -> u64 {
    elems(t)[i]
}

/// The last dimension of `t` at the leading index `i`.
pub open spec fn row(t: Tensor, i: Seq<int>) -> Seq<u64> {
    Seq::new(dims(t).last(), |j: int| at(t, i.push(j)))
}

/// The element types that arithmetic is done in.
pub open spec fn is_float(dt: DType) -> bool {
    dt is F8E4M3 || dt is BF16 || dt is F16 || dt is F32 || dt is F64
}

/// The types of whole numbers.
pub open spec fn is_integer(dt: DType) -> bool {
    dt is U8 || dt is U32 || dt is I16 || dt is I32 || dt is I64
}

/// The element types that the CPU multiplies matrices of.
pub open spec fn is_matrix_float(dt: DType) -> bool {
    dt is F16 || dt is F32 || dt is F64
}

/// The element types that can be stored.
pub open spec fn is_storable(dt: DType) -> bool {
    !(dt is F6E2M3 || dt is F6E3M2 || dt is F4 || dt is F8E8M0)
}

/// Arithmetic on the elements of `t` is defined.
pub open spec fn numeric(t: Tensor) -> bool {
    is_float(dtype_of(t)) || !inhabited(dims(t))
}

/// `t` is held by the CPU.
pub open spec fn on_cpu(t: Tensor) -> bool {
    device_of(t) is Cpu
}

/// The elements of `a` and `b` have one type and lie on one device.
pub open spec fn same_kind(a: Tensor, b: Tensor) -> bool {
    dtype_of(a) == dtype_of(b) && device_of(a) == device_of(b)
}

/// `o` has the shape, type and device of `t` and, unless it is empty, lies in memory as a new tensor
/// does.
pub open spec fn same_frame(o: Tensor, t: Tensor) -> bool {
    &&& dims(o) == dims(t)
    &&& same_kind(o, t)
    &&& inhabited(dims(o)) ==> contiguous(o) && fresh(o)
}

/// `z` is a product of `x` and `y`.
pub uninterp spec fn mul_gives(dt: DType, x: u64, y: u64, z: u64) -> bool;

/// `z` is a sum of `x` and `y`.
pub uninterp spec fn add_gives(dt: DType, x: u64, y: u64, z: u64) -> bool;

/// `y` is an exponential of `x`.
pub uninterp spec fn exp_gives(dt: DType, x: u64, y: u64) -> bool;

/// `y` is a natural logarithm of `x`.
pub uninterp spec fn log_gives(dt: DType, x: u64, y: u64) -> bool;

/// `x` with its sign changed: the highest bit of the type is the sign. The types are the floating
/// point types of two bytes and more.
pub open spec fn negated(dt: DType, x: u64) -> u64 {
    if dt is F64 {
        x ^ 0x8000_0000_0000_0000
    } else if dt is F32 {
        x ^ 0x8000_0000
    } else {
        x ^ 0x8000
    }
}

/// `y` is `x` times the logistic function of `x`.
pub uninterp spec fn silu_gives(dt: DType, x: u64, y: u64) -> bool;

/// `y` is `x * scale + shift`.
pub uninterp spec fn affine_gives(dt: DType, scale: nat, shift: nat, x: u64, y: u64) -> bool;

/// `y` is `x` converted from the type `from` to the type `to`.
pub uninterp spec fn cast_gives(from: DType, to: DType, x: u64, y: u64) -> bool;

/// `y` is a sum of `xs`.
pub uninterp spec fn sum_gives(dt: DType, xs: Seq<u64>, y: u64) -> bool;

/// `z` is an inner product of `xs` and `ys`, as an element of a matrix product.
pub uninterp spec fn dot_gives(dt: DType, xs: Seq<u64>, ys: Seq<u64>, z: u64) -> bool;

/// `Tensor::dims1`: the size of a tensor of one dimension.
#[verifier::external_body]
pub(crate) fn dims1(t: &Tensor) -> (r: Result<usize, Error>)
    ensures
        r is Ok <==> dims(*t).len() == 1,
        r matches Ok(d) ==> dims(*t) == shape1(d as nat),
{
    t.dims1()
}

/// `Tensor::dims2`: the sizes of a tensor of two dimensions.
#[verifier::external_body]
pub(crate) fn dims2(t: &Tensor) -> (r: Result<(usize, usize), Error>)
    ensures
        r is Ok <==> dims(*t).len() == 2,
        r matches Ok(d) ==> dims(*t) == shape2(d.0 as nat, d.1 as nat),
{
    t.dims2()
}

/// `Tensor::dims3`: the sizes of a tensor of three dimensions.
#[verifier::external_body]
pub(crate) fn dims3(t: &Tensor) -> (r: Result<(usize, usize, usize), Error>)
    ensures
        r is Ok <==> dims(*t).len() == 3,
        r matches Ok(d) ==> dims(*t) == shape3(d.0 as nat, d.1 as nat, d.2 as nat),
{
    t.dims3()
}

/// `Tensor::dim`: the size at one dimension.
#[verifier::external_body]
pub(crate) fn dim(t: &Tensor, d: usize) -> (r: Result<usize, Error>)
    ensures
        r is Ok <==> d < dims(*t).len(),
        r matches Ok(n) ==> n == dims(*t)[d as int],
{
    t.dim(d)
}

/// The shape that a list of sizes gives.
pub open spec fn shape_of(sizes: Seq<usize>) -> Seq<nat> {
    Seq::new(sizes.len(), |k: int| sizes[k] as nat)
}

/// `Tensor::dims`: all sizes.
#[verifier::external_body]
pub(crate) fn sizes(t: &Tensor) -> (r: Vec<usize>)
    ensures
        shape_of(r@) == dims(*t),
{
    t.dims().to_vec()
}

/// `Tensor::is_contiguous`: whether the elements lie in row-major order.
#[verifier::external_body]
pub(crate) fn is_in_order(t: &Tensor) -> (r: bool)
    ensures
        r == contiguous(*t),
{
    t.is_contiguous()
}

/// `Tensor::dtype`: the type of the elements.
#[verifier::external_body]
pub(crate) fn dtype(t: &Tensor) -> (r: DType)
    ensures
        r == dtype_of(*t),
{
    t.dtype()
}

/// `Tensor::device`: the device that holds the tensor.
#[verifier::external_body]
pub(crate) fn device(t: &Tensor) -> (r: &Device)
    ensures
        *r == device_of(*t),
{
    t.device()
}

/// `Tensor::transpose`: two dimensions exchanged. It succeeds where both exist.
#[verifier::external_body]
pub(crate) fn transpose(t: &Tensor, a: usize, b: usize) -> (r: Result<Tensor, Error>)
    ensures
        r is Ok <==> (a < dims(*t).len() && b < dims(*t).len()),
        r matches Ok(o) ==> {
            &&& dims(o) == swapped(dims(*t), a as int, b as int)
            &&& same_kind(o, *t)
            &&& forall|i: Seq<int>|
                within(i, dims(o)) ==> #[trigger] at(o, i) == at(*t, swapped(i, a as int, b as int))
        },
{
    t.transpose(a, b)
}

/// `Tensor::unsqueeze`: a dimension of size one put in at place `d`. It succeeds where that place
/// exists.
#[verifier::external_body]
pub(crate) fn unsqueeze(t: &Tensor, d: usize) -> (r: Result<Tensor, Error>)
    ensures
        r is Ok <==> d <= dims(*t).len(),
        r matches Ok(o) ==> {
            &&& dims(o) == dims(*t).insert(d as int, 1)
            &&& same_kind(o, *t)
            &&& forall|i: Seq<int>|
                within(i, dims(o)) ==> #[trigger] at(o, i) == at(*t, i.remove(d as int))
        },
{
    t.unsqueeze(d)
}

/// `Tensor::squeeze` on a dimension of size one: the dimension is taken out. It has no part in
/// row-major order.
#[verifier::external_body]
pub(crate) fn squeeze(t: &Tensor, d: usize) -> (r: Result<Tensor, Error>)
    requires
        d < dims(*t).len(),
        dims(*t)[d as int] == 1,
    ensures
        r is Ok,
        r matches Ok(o) ==> {
            &&& dims(o) == dims(*t).remove(d as int)
            &&& same_kind(o, *t)
            &&& contiguous(o) <==> contiguous(*t)
            &&& forall|i: Seq<int>|
                within(i, dims(o)) ==> #[trigger] at(o, i) == at(*t, i.insert(d as int, 0))
        },
{
    t.squeeze(d)
}

/// A part of dimension `d` of an array of shape `s`, of size `len`, is a part of the array's list of
/// elements: it is all of the dimension, or no dimension before it has more than one entry.
pub open spec fn unbroken(s: Seq<nat>, d: int, len: nat) -> bool {
    len == s[d] || forall|k: int| 0 <= k < d ==> #[trigger] s[k] <= 1
}

/// `Tensor::narrow`: the `len` entries from `start` on of one dimension. It succeeds where they
/// exist. Row-major order stays where the entries are not broken up, and only there if there are
/// any.
#[verifier::external_body]
pub(crate) fn narrow(t: &Tensor, d: usize, start: usize, len: usize) -> (r: Result<Tensor, Error>)
    ensures
        r is Ok <==> (d < dims(*t).len() && start + len <= dims(*t)[d as int]),
        r matches Ok(o) ==> {
            &&& dims(o) == dims(*t).update(d as int, len as nat)
            &&& same_kind(o, *t)
            &&& contiguous(*t) && unbroken(dims(*t), d as int, len as nat) ==> contiguous(o)
            &&& contiguous(*t) && contiguous(o) && inhabited(dims(o)) ==> unbroken(
                dims(*t),
                d as int,
                len as nat,
            )
            &&& forall|i: Seq<int>|
                within(i, dims(o)) ==> #[trigger] at(o, i) == at(
                    *t,
                    i.update(d as int, i[d as int] + start),
                )
        },
{
    t.narrow(d, start, len)
}

/// `Tensor::chunk` on a dimension that can be cut into `n` equal pieces: the pieces, in order.
#[verifier::external_body]
pub(crate) fn chunk(t: &Tensor, n: usize, d: usize) -> (r: Result<Vec<Tensor>, Error>)
    requires
        d < dims(*t).len(),
        0 < n <= dims(*t)[d as int],
        dims(*t)[d as int] % n as nat == 0,
    ensures
        r is Ok,
        r matches Ok(v) ==> {
            let size = dims(*t)[d as int] / n as nat;
            &&& v@.len() == n
            &&& forall|p: int|
                #![trigger v@[p]]
                0 <= p < n ==> {
                    &&& dims(v@[p]) == dims(*t).update(d as int, size)
                    &&& same_kind(v@[p], *t)
                    &&& forall|i: Seq<int>|
                        within(i, dims(v@[p])) ==> #[trigger] at(v@[p], i) == at(
                            *t,
                            i.update(d as int, i[d as int] + p * size),
                        )
                }
        },
{
    t.chunk(n, d)
}

/// `Tensor::reshape` to four dimensions: the elements keep their row-major order. It succeeds only
/// where the number of elements stays the same. Elements that do not lie in that order are copied,
/// which goes for the types that can be stored.
#[verifier::external_body]
pub(crate) fn reshape4(t: &Tensor, s: (usize, usize, usize, usize)) -> (r: Result<Tensor, Error>)
    requires
        fits(dims(*t)),
        fits(shape4(s.0 as nat, s.1 as nat, s.2 as nat, s.3 as nat)),
    ensures
        (contiguous(*t) || (on_cpu(*t) && is_storable(dtype_of(*t)))) && count(
            shape4(s.0 as nat, s.1 as nat, s.2 as nat, s.3 as nat),
        ) == count(dims(*t)) ==> r is Ok,
        r matches Ok(o) ==> {
            &&& contiguous(*t) || is_storable(dtype_of(*t))
            &&& dims(o) == shape4(s.0 as nat, s.1 as nat, s.2 as nat, s.3 as nat)
            &&& count(dims(o)) == count(dims(*t))
            &&& same_kind(o, *t)
            &&& forall|i: Seq<int>, j: Seq<int>|
                within(i, dims(o)) && within(j, dims(*t)) && offset(i, dims(o)) == offset(
                    j,
                    dims(*t),
                ) ==> #[trigger] at(o, i) == #[trigger] at(*t, j)
        },
{
    t.reshape(s)
}

/// `Tensor::contiguous`: the same tensor in row-major order.
#[verifier::external_body]
pub(crate) fn in_order(t: &Tensor) -> (r: Result<Tensor, Error>)
    requires
        fits(dims(*t)),
    ensures
        on_cpu(*t) && is_storable(dtype_of(*t)) ==> r is Ok,
        r matches Ok(o) ==> {
            &&& dims(o) == dims(*t)
            &&& elems(o) == elems(*t)
            &&& same_kind(o, *t)
            &&& contiguous(o)
        },
{
    t.contiguous()
}

/// `Tensor::to_dtype`: the elements converted to another type; the tensor itself where that is its
/// type already. The types that can be stored convert into each other, and no others.
#[verifier::external_body]
pub(crate) fn to_dtype(t: &Tensor, dt: DType) -> (r: Result<Tensor, Error>)
    requires
        fits(dims(*t)),
        grounded(*t),
    ensures
        dtype_of(*t) == dt || (on_cpu(*t) && is_storable(dtype_of(*t)) && is_storable(dt))
            ==> r is Ok,
        r matches Ok(o) ==> {
            &&& dims(o) == dims(*t)
            &&& dtype_of(o) == dt
            &&& device_of(o) == device_of(*t)
            &&& dtype_of(*t) == dt ==> o == *t
            &&& dtype_of(*t) != dt ==> is_storable(dtype_of(*t)) && is_storable(dt)
            &&& dtype_of(*t) != dt ==> forall|i: Seq<int>|
                within(i, dims(o)) ==> cast_gives(dtype_of(*t), dt, at(*t, i), #[trigger] at(o, i))
        },
{
    t.to_dtype(dt)
}

/// `Tensor::zeros` for three dimensions: every element is zero, which every type writes as the bit
/// pattern zero. On the CPU it succeeds for the types that can be stored, and only for those.
#[verifier::external_body]
pub(crate) fn zeros3(s: (usize, usize, usize), dt: DType, dev: &Device) -> (r: Result<
    Tensor,
    Error,
>)
    requires
        fits(shape3(s.0 as nat, s.1 as nat, s.2 as nat)),
    ensures
        *dev is Cpu ==> (r is Ok <==> is_storable(dt)),
        r matches Ok(o) ==> {
            &&& is_storable(dt)
            &&& dims(o) == shape3(s.0 as nat, s.1 as nat, s.2 as nat)
            &&& dtype_of(o) == dt
            &&& device_of(o) == *dev
            &&& contiguous(o)
            &&& forall|i: Seq<int>| within(i, dims(o)) ==> #[trigger] at(o, i) == 0
        },
{
    Tensor::zeros(s, dt, dev)
}

/// `Tensor::zeros_like`: `Tensor::zeros` of the shape and type of `t`, on its device.
#[verifier::external_body]
pub(crate) fn zeros_like(t: &Tensor) -> (r: Result<Tensor, Error>)
    requires
        fits(dims(*t)),
    ensures
        on_cpu(*t) ==> (r is Ok <==> is_storable(dtype_of(*t))),
        r matches Ok(o) ==> {
            &&& dims(o) == dims(*t)
            &&& same_kind(o, *t)
            &&& contiguous(o)
            &&& fresh(o)
            &&& forall|i: Seq<int>| within(i, dims(o)) ==> #[trigger] at(o, i) == 0
        },
{
    t.zeros_like()
}

/// `a` and `b` can be put one behind the other along dimension `d`.
pub open spec fn joins(a: Tensor, b: Tensor, d: int) -> bool {
    &&& dims(a).len() == dims(b).len()
    &&& forall|k: int| 0 <= k < dims(a).len() && k != d ==> dims(a)[k] == #[trigger] dims(b)[k]
    &&& dtype_of(a) == dtype_of(b)
}

/// `Tensor::cat` of two tensors: the second follows the first along dimension `d`. It succeeds only
/// where their types and their other sizes agree, and then always on the CPU.
#[verifier::external_body]
pub(crate) fn cat2(a: &Tensor, b: &Tensor, d: usize) -> (r: Result<Tensor, Error>)
    requires
        d < dims(*a).len(),
        d < dims(*b).len(),
        grounded(*a),
        grounded(*b),
        fits(dims(*a)),
        fits(dims(*b)),
        fits(dims(*a).update(d as int, dims(*a)[d as int] + dims(*b)[d as int])),
    ensures
        on_cpu(*a) && on_cpu(*b) && is_storable(dtype_of(*a)) && joins(*a, *b, d as int)
            ==> r is Ok,
        r matches Ok(o) ==> {
            &&& joins(*a, *b, d as int)
            &&& dims(o) == dims(*a).update(d as int, dims(*a)[d as int] + dims(*b)[d as int])
            &&& same_kind(o, *a)
            &&& forall|i: Seq<int>|
                within(i, dims(o)) ==> #[trigger] at(o, i) == if i[d as int] < dims(*a)[d as int] {
                    at(*a, i)
                } else {
                    at(*b, i.update(d as int, i[d as int] - dims(*a)[d as int]))
                }
        },
{
    Tensor::cat(&[a, b], d)
}

/// `Tensor::stack` of tensors of one shape that have elements: a new dimension at place `d` runs
/// over them. No tensor at all is an error.
#[verifier::external_body]
pub(crate) fn stack(ts: &Vec<Tensor>, d: usize) -> (r: Result<Tensor, Error>)
    requires
        forall|p: int|
            0 <= p < ts@.len() ==> {
                &&& dims(#[trigger] ts@[p]) == dims(ts@[0])
                &&& same_kind(ts@[p], ts@[0])
            },
        ts@.len() > 0 ==> {
            &&& d <= dims(ts@[0]).len()
            &&& inhabited(dims(ts@[0]))
            &&& fits(dims(ts@[0]).insert(d as int, ts@.len()))
        },
    ensures
        ts@.len() == 0 ==> r is Err,
        ts@.len() > 0 && on_cpu(ts@[0]) && is_storable(dtype_of(ts@[0])) ==> r is Ok,
        r matches Ok(o) ==> {
            &&& dims(o) == dims(ts@[0]).insert(d as int, ts@.len())
            &&& same_kind(o, ts@[0])
            &&& forall|i: Seq<int>|
                within(i, dims(o)) ==> #[trigger] at(o, i) == at(
                    ts@[i[d as int]],
                    i.remove(d as int),
                )
        },
{
    Tensor::stack(ts, d)
}

/// `Tensor::add`, the operator `+`: the sums of the elements of two tensors of one shape and type.
/// Without elements, the types are not compared and the first tensor is given back.
#[verifier::external_body]
pub(crate) fn plus(a: &Tensor, b: &Tensor) -> (r: Result<Tensor, Error>)
    requires
        fits(dims(*a)),
        numeric(*a),
    ensures
        on_cpu(*a) && on_cpu(*b) && dims(*a) == dims(*b) && (inhabited(dims(*a)) ==> dtype_of(*a)
            == dtype_of(*b)) ==> r is Ok,
        r matches Ok(o) ==> {
            &&& dims(*a) == dims(*b)
            &&& inhabited(dims(*a)) ==> dtype_of(*a) == dtype_of(*b)
            &&& !inhabited(dims(*a)) ==> o == *a
            &&& same_frame(o, *a)
            &&& forall|i: Seq<int>|
                within(i, dims(o)) ==> add_gives(
                    dtype_of(*a),
                    at(*a, i),
                    at(*b, i),
                    #[trigger] at(o, i),
                )
        },
{
    a.add(b)
}

/// `Tensor::mul`, the operator `*`: the products of the elements of two tensors of one shape and
/// type.
#[verifier::external_body]
pub(crate) fn times(a: &Tensor, b: &Tensor) -> (r: Result<Tensor, Error>)
    requires
        fits(dims(*a)),
        numeric(*a),
    ensures
        on_cpu(*a) && on_cpu(*b) && dims(*a) == dims(*b) && (inhabited(dims(*a)) ==> dtype_of(*a)
            == dtype_of(*b)) ==> r is Ok,
        r matches Ok(o) ==> {
            &&& dims(*a) == dims(*b)
            &&& inhabited(dims(*a)) ==> dtype_of(*a) == dtype_of(*b)
            &&& !inhabited(dims(*a)) ==> o == *a
            &&& same_frame(o, *a)
            &&& forall|i: Seq<int>|
                within(i, dims(o)) ==> mul_gives(
                    dtype_of(*a),
                    at(*a, i),
                    at(*b, i),
                    #[trigger] at(o, i),
                )
        },
{
    a.mul(b)
}

/// `Tensor::broadcast_add`: the addition of `plus` after sizes of one have been stretched.
#[verifier::external_body]
pub(crate) fn broadcast_plus(a: &Tensor, b: &Tensor) -> (r: Result<Tensor, Error>)
    requires
        fits(dims(*a)),
        fits(dims(*b)),
        broadcasts(dims(*a), dims(*b)) ==> fits(broadcast(dims(*a), dims(*b))),
        numeric(*a) || !inhabited(broadcast(dims(*a), dims(*b))),
    ensures
        on_cpu(*a) && on_cpu(*b) && broadcasts(dims(*a), dims(*b)) && (inhabited(
            broadcast(dims(*a), dims(*b)),
        ) ==> dtype_of(*a) == dtype_of(*b)) ==> r is Ok,
        r matches Ok(o) ==> {
            &&& broadcasts(dims(*a), dims(*b))
            &&& dims(o) == broadcast(dims(*a), dims(*b))
            &&& same_kind(o, *a)
            &&& inhabited(dims(o)) ==> contiguous(o) && dtype_of(*a) == dtype_of(*b)
            &&& forall|i: Seq<int>|
                within(i, dims(o)) ==> add_gives(
                    dtype_of(*a),
                    at(*a, source(i, dims(*a))),
                    at(*b, source(i, dims(*b))),
                    #[trigger] at(o, i),
                )
        },
{
    a.broadcast_add(b)
}

/// `Tensor::broadcast_mul`: the multiplication of `times` after sizes of one have been stretched.
#[verifier::external_body]
pub(crate) fn broadcast_times(a: &Tensor, b: &Tensor) -> (r: Result<Tensor, Error>)
    requires
        fits(dims(*a)),
        fits(dims(*b)),
        broadcasts(dims(*a), dims(*b)) ==> fits(broadcast(dims(*a), dims(*b))),
        numeric(*a) || !inhabited(broadcast(dims(*a), dims(*b))),
    ensures
        on_cpu(*a) && on_cpu(*b) && broadcasts(dims(*a), dims(*b)) && (inhabited(
            broadcast(dims(*a), dims(*b)),
        ) ==> dtype_of(*a) == dtype_of(*b)) ==> r is Ok,
        r matches Ok(o) ==> {
            &&& broadcasts(dims(*a), dims(*b))
            &&& dims(o) == broadcast(dims(*a), dims(*b))
            &&& same_kind(o, *a)
            &&& inhabited(dims(o)) ==> contiguous(o) && dtype_of(*a) == dtype_of(*b)
            &&& forall|i: Seq<int>|
                within(i, dims(o)) ==> mul_gives(
                    dtype_of(*a),
                    at(*a, source(i, dims(*a))),
                    at(*b, source(i, dims(*b))),
                    #[trigger] at(o, i),
                )
        },
{
    a.broadcast_mul(b)
}

/// A tensor of shape `from` can be stretched to the shape `to`: ones are put in front of its sizes,
/// and sizes of one may grow or vanish.
pub open spec fn stretches(from: Seq<nat>, to: Seq<nat>) -> bool {
    &&& from.len() <= to.len()
    &&& forall|k: int|
        0 <= k < from.len() ==> (#[trigger] from[k] == 1 || from[k] == to[to.len() - from.len()
            + k])
}

/// `Tensor::broadcast_as` to three dimensions: sizes of one are stretched. It succeeds where that
/// makes up the difference.
#[verifier::external_body]
pub(crate) fn stretch3(t: &Tensor, s: (usize, usize, usize)) -> (r: Result<Tensor, Error>)
    ensures
        r is Ok <==> stretches(dims(*t), shape3(s.0 as nat, s.1 as nat, s.2 as nat)),
        r matches Ok(o) ==> {
            &&& dims(o) == shape3(s.0 as nat, s.1 as nat, s.2 as nat)
            &&& same_kind(o, *t)
            &&& forall|i: Seq<int>|
                within(i, dims(o)) ==> #[trigger] at(o, i) == at(*t, source(i, dims(*t)))
        },
{
    t.broadcast_as(s)
}

/// `Tensor::exp`: the exponential of every element.
#[verifier::external_body]
pub(crate) fn exp(t: &Tensor) -> (r: Result<Tensor, Error>)
    requires
        fits(dims(*t)),
        numeric(*t),
    ensures
        on_cpu(*t) ==> r is Ok,
        r matches Ok(o) ==> {
            &&& same_frame(o, *t)
            &&& forall|i: Seq<int>|
                within(i, dims(o)) ==> exp_gives(dtype_of(*t), at(*t, i), #[trigger] at(o, i))
        },
{
    t.exp()
}

/// `Tensor::log`: the natural logarithm of every element.
#[verifier::external_body]
pub(crate) fn log(t: &Tensor) -> (r: Result<Tensor, Error>)
    requires
        fits(dims(*t)),
        numeric(*t),
    ensures
        on_cpu(*t) ==> r is Ok,
        r matches Ok(o) ==> {
            &&& same_frame(o, *t)
            &&& forall|i: Seq<int>|
                within(i, dims(o)) ==> log_gives(dtype_of(*t), at(*t, i), #[trigger] at(o, i))
        },
{
    t.log()
}

/// `Tensor::neg`: every element with its sign changed. In the type `F8E4M3` the sign is changed by
/// way of another type; which bits that gives is left open.
#[verifier::external_body]
pub(crate) fn neg(t: &Tensor) -> (r: Result<Tensor, Error>)
    requires
        fits(dims(*t)),
        numeric(*t),
    ensures
        on_cpu(*t) ==> r is Ok,
        r matches Ok(o) ==> {
            &&& same_frame(o, *t)
            &&& !(dtype_of(*t) is F8E4M3) ==> forall|i: Seq<int>|
                within(i, dims(o)) ==> #[trigger] at(o, i) == negated(dtype_of(*t), at(*t, i))
        },
{
    t.neg()
}

/// `candle_nn::ops::silu`: every element times its logistic function.
#[verifier::external_body]
pub(crate) fn silu(t: &Tensor) -> (r: Result<Tensor, Error>)
    requires
        fits(dims(*t)),
        numeric(*t),
    ensures
        on_cpu(*t) ==> r is Ok,
        r matches Ok(o) ==> {
            &&& same_frame(o, *t)
            &&& forall|i: Seq<int>|
                within(i, dims(o)) ==> silu_gives(dtype_of(*t), at(*t, i), #[trigger] at(o, i))
        },
{
    candle_nn::ops::silu(t)
}

/// `Tensor::affine`: every element times `scale`, plus `shift`.
#[verifier::external_body]
pub(crate) fn affine(t: &Tensor, scale: u32, shift: u32) -> (r: Result<Tensor, Error>)
    requires
        fits(dims(*t)),
        numeric(*t),
    ensures
        on_cpu(*t) ==> r is Ok,
        r matches Ok(o) ==> {
            &&& same_frame(o, *t)
            &&& forall|i: Seq<int>|
                within(i, dims(o)) ==> affine_gives(
                    dtype_of(*t),
                    scale as nat,
                    shift as nat,
                    at(*t, i),
                    #[trigger] at(o, i),
                )
        },
{
    t.affine(scale.into(), shift.into())
}

/// `Tensor::sum` over the last dimension.
#[verifier::external_body]
pub(crate) fn sum_last(t: &Tensor) -> (r: Result<Tensor, Error>)
    requires
        dims(*t).len() > 0,
        grounded(*t),
        fits(dims(*t)),
        numeric(*t),
    ensures
        on_cpu(*t) && is_storable(dtype_of(*t)) ==> r is Ok,
        r matches Ok(o) ==> {
            &&& dims(o) == dims(*t).drop_last()
            &&& same_kind(o, *t)
            &&& forall|i: Seq<int>|
                within(i, dims(o)) ==> sum_gives(dtype_of(*t), row(*t, i), #[trigger] at(o, i))
        },
{
    t.sum(candle_core::D::Minus1)
}

/// Column `c` of matrix `b` of `t`, its first `n` entries.
pub open spec fn column(t: Tensor, b: int, c: int, n: nat) -> Seq<u64> {
    Seq::new(n, |j: int| at(t, ix3(b, j, c)))
}

/// The stacks of matrices `a` and `b` can be multiplied: where there is anything to compute, the
/// matrices match and have a type that is multiplied.
pub open spec fn matmul_fits(a: Tensor, b: Tensor) -> bool {
    &&& is_storable(dtype_of(a))
    &&& inhabited(shape3(dims(a)[0], dims(a)[1], dims(b)[2])) && dims(a)[2] > 0 ==> {
        &&& dims(a)[0] == dims(b)[0]
        &&& dims(a)[2] == dims(b)[1]
        &&& dtype_of(a) == dtype_of(b)
        &&& is_matrix_float(dtype_of(a))
    }
}

/// `Tensor::matmul` of two stacks of matrices, of which the first is empty or lies in memory as a new
/// tensor does. Where there is nothing to compute, the second is not looked at.
#[verifier::external_body]
pub(crate) fn matmul(a: &Tensor, b: &Tensor) -> (r: Result<Tensor, Error>)
    requires
        dims(*a).len() == 3,
        dims(*b).len() == 3,
        inhabited(dims(*a)) ==> fresh(*a),
        fits(dims(*a)),
        fits(dims(*b)),
        fits(shape3(dims(*a)[0], dims(*a)[1], dims(*b)[2])),
    ensures
        on_cpu(*a) && on_cpu(*b) && matmul_fits(*a, *b) ==> r is Ok,
        r matches Ok(o) ==> {
            &&& matmul_fits(*a, *b)
            &&& dims(o) == shape3(dims(*a)[0], dims(*a)[1], dims(*b)[2])
            &&& same_kind(o, *a)
            &&& contiguous(o)
            &&& forall|i: Seq<int>|
                within(i, dims(o)) ==> dot_gives(
                    dtype_of(*a),
                    row(*a, ix2(i[0], i[1])),
                    column(*b, i[0], i[2], dims(*a)[2]),
                    #[trigger] at(o, i),
                )
        },
{
    a.matmul(b)
}

} // verus!
