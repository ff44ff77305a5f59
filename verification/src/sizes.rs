//! Sizes, checked while the program runs.
use crate::array::{at_least_one, fits, inhabited, shape1, shape2, shape3, volume};
use crate::tensor::{dims, is_float, is_integer, shape_of, sizes};
use candle_core::{DType, Tensor};
use vstd::prelude::*;

verus! {

/// Whether `t` has the shape `shape`.
fn has_shape(t: &Tensor, shape: Vec<usize>) -> (r: bool)
    ensures
        r <==> dims(*t) == shape_of(shape@),
{
    let found = sizes(t);
    if found.len() != shape.len() {
        assert(shape_of(found@).len() != shape_of(shape@).len());
        return false;
    }
    for k in 0..found.len()
        invariant
            found@.len() == shape@.len(),
            shape_of(found@) == dims(*t),
            forall|j: int| 0 <= j < k ==> found@[j] == shape@[j],
    {
        if found[k] != shape[k] {
            assert(shape_of(found@)[k as int] != shape_of(shape@)[k as int]);
            return false;
        }
    }
    assert(shape_of(found@) =~= shape_of(shape@));
    true
}

/// Whether `t` has the shape `(a)`.
pub(crate) fn has_shape1(t: &Tensor, a: usize) -> (r: bool)
    ensures
        r <==> dims(*t) == shape1(a as nat),
{
    let shape = vec![a];
    assert(shape_of(shape@) =~= shape1(a as nat));
    has_shape(t, shape)
}

/// Whether `t` has the shape `(a, b)`.
pub(crate) fn has_shape2(t: &Tensor, a: usize, b: usize) -> (r: bool)
    ensures
        r <==> dims(*t) == shape2(a as nat, b as nat),
{
    let shape = vec![a, b];
    assert(shape_of(shape@) =~= shape2(a as nat, b as nat));
    has_shape(t, shape)
}

/// Whether `t` has the shape `(a, b, c)`.
pub(crate) fn has_shape3(t: &Tensor, a: usize, b: usize, c: usize) -> (r: bool)
    ensures
        r <==> dims(*t) == shape3(a as nat, b as nat, c as nat),
{
    let shape = vec![a, b, c];
    assert(shape_of(shape@) =~= shape3(a as nat, b as nat, c as nat));
    has_shape(t, shape)
}

/// The product of the first sizes is no larger than the product of all.
proof fn lemma_volume_prefix(s: Seq<nat>, k: int)
    requires
        0 <= k <= s.len(),
    ensures
        volume(s.take(k)) <= volume(s),
    decreases s.len(),
{
    if k == s.len() {
        assert(s.take(k) =~= s);
    } else {
        assert(s.drop_last().take(k) =~= s.take(k));
        lemma_volume_prefix(s.drop_last(), k);
        let (v, w) = (volume(s.drop_last()), at_least_one(s.last()));
        assert(v <= v * w) by (nonlinear_arith)
            requires
                w >= 1,
        ;
    }
}

/// Whether an array of the shape `shape` can be allocated.
pub(crate) fn fits_in_memory(shape: &Vec<usize>) -> (r: bool)
    ensures
        r <==> fits(shape_of(shape@)),
{
    let ghost s = shape_of(shape@);
    let limit: usize = isize::MAX as usize / 8;
    let mut v: usize = 1;
    for k in 0..shape.len()
        invariant
            s == shape_of(shape@),
            limit == isize::MAX as int / 8,
            v == volume(s.take(k as int)),
            0 < v <= limit,
    {
        let n: usize = if shape[k] == 0 {
            1
        } else {
            shape[k]
        };
        proof {
            assert(s.take(k + 1).drop_last() =~= s.take(k as int));
            assert(s.take(k + 1).last() == s[k as int]);
            assert(volume(s.take(k + 1)) == v * n);
            lemma_volume_prefix(s, k + 1);
            let p = v * n;
            assert(p > 0) by (nonlinear_arith)
                requires
                    p == v * n,
                    v > 0,
                    n > 0,
            ;
            assert(p > limit <==> v > limit as int / n as int) by (nonlinear_arith)
                requires
                    n > 0,
                    p == v * n,
                    limit >= 0,
            ;
        }
        if v > limit / n {
            return false;
        }
        v = v * n;
    }
    assert(s.take(shape.len() as int) =~= s);
    true
}

/// No size is larger than the product of all.
pub(crate) proof fn lemma_volume_member(s: Seq<nat>, k: int)
    requires
        0 <= k < s.len(),
    ensures
        volume(s) >= s[k],
    decreases s.len(),
{
    lemma_volume_prefix(s, k + 1);
    let t = s.take(k + 1);
    let (v, w) = (volume(t.drop_last()), at_least_one(t.last()));
    assert(v > 0) by {
        lemma_volume_prefix(t.drop_last(), 0);
    }
    assert(v * w >= w) by (nonlinear_arith)
        requires
            v > 0,
    ;
}

/// Whether an array of the shape `(a, factor * b)` can be allocated.
pub(crate) fn fits2(a: usize, b: usize, factor: usize) -> (r: bool)
    requires
        factor > 0,
    ensures
        r <==> fits(shape2(a as nat, (factor * b) as nat)),
{
    if b > usize::MAX / factor {
        proof {
            lemma_quotient(b as int, factor as int);
            lemma_volume_member(shape2(a as nat, (factor * b) as nat), 1);
        }
        return false;
    }
    proof {
        lemma_quotient(b as int, factor as int);
    }
    let shape = vec![a, factor * b];
    assert(shape_of(shape@) =~= shape2(a as nat, (factor * b) as nat));
    fits_in_memory(&shape)
}

/// Whether an array of the shape `(a, l + extra, factor * b)` can be allocated.
pub(crate) fn fits3(a: usize, l: usize, extra: usize, b: usize, factor: usize) -> (r: bool)
    requires
        factor > 0,
    ensures
        r <==> fits(shape3(a as nat, (l + extra) as nat, (factor * b) as nat)),
{
    let ghost s = shape3(a as nat, (l + extra) as nat, (factor * b) as nat);
    proof {
        lemma_quotient(b as int, factor as int);
        lemma_volume_member(s, 1);
        lemma_volume_member(s, 2);
    }
    if l > usize::MAX - extra || b > usize::MAX / factor {
        return false;
    }
    let shape = vec![a, l + extra, factor * b];
    assert(shape_of(shape@) =~= s);
    fits_in_memory(&shape)
}

/// A product is too large for a `usize` where one factor is larger than the quotient by the other.
pub(crate) proof fn lemma_quotient(b: int, factor: int)
    requires
        b >= 0,
        factor > 0,
    ensures
        b > usize::MAX as int / factor <==> factor * b > usize::MAX,
{
    let m = usize::MAX as int;
    assert(b > m / factor <==> factor * b > m) by (nonlinear_arith)
        requires
            b >= 0,
            factor > 0,
            m >= 0,
    ;
}

/// Whether the shape of `t` is one that can be allocated.
pub(crate) fn fits_itself(t: &Tensor) -> (r: bool)
    ensures
        r <==> fits(dims(*t)),
{
    fits_in_memory(&sizes(t))
}

/// Whether `t` has elements.
pub(crate) fn has_elements(t: &Tensor) -> (r: bool)
    ensures
        r <==> inhabited(dims(*t)),
{
    let found = sizes(t);
    for k in 0..found.len()
        invariant
            shape_of(found@) == dims(*t),
            forall|j: int| 0 <= j < k ==> found@[j] > 0,
    {
        if found[k] == 0 {
            assert(shape_of(found@)[k as int] == 0);
            return false;
        }
    }
    assert forall|k: int| 0 <= k < dims(*t).len() implies #[trigger] dims(*t)[k] > 0 by {
        assert(found@[k] > 0);
    }
    true
}

/// Whether arithmetic is done in the type `dt`.
pub(crate) fn is_float_type(dt: DType) -> (r: bool)
    ensures
        r <==> is_float(dt),
{
    match dt {
        DType::F8E4M3 => true,
        DType::BF16 => true,
        DType::F16 => true,
        DType::F32 => true,
        DType::F64 => true,
        _ => false,
    }
}

/// Whether the numbers of the type `dt` are whole.
pub(crate) fn is_integer_type(dt: DType) -> (r: bool)
    ensures
        r <==> is_integer(dt),
{
    match dt {
        DType::U8 => true,
        DType::U32 => true,
        DType::I16 => true,
        DType::I32 => true,
        DType::I64 => true,
        _ => false,
    }
}

} // verus!
