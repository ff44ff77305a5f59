//! Tensors read row by row, whatever their number of dimensions.
use crate::array::{
    at_least_one, fits, group_index, inhabited, ix1, ix2, ix3, shape1, shape3, source, volume,
    within,
};
use crate::error::MambaError;
use crate::layers::{
    bias_at, embed, id_fits, ids_fit, linear, linear_fits, linear_gives, named_row, no_token,
    rms_fits, rms_gives, rms_norm, NORM_EPS,
};
use crate::recurrence::{gates, projects, softplus, Matrix};
use crate::sizes::has_elements;
use crate::tensor::{
    affine, affine_gives, at, contiguous, dims, dtype_of, exp, exp_gives, grounded, is_in_order,
    is_integer, is_storable, log, narrow, numeric, on_cpu, row, same_frame, same_kind, silu,
    silu_gives, squeeze, times, unbroken, zeros_like,
};
use candle_core::Tensor;
use vstd::prelude::*;

verus! {

/// The matrix of item `b` of a batch.
pub open spec fn slice(t: Tensor, b: int) -> Matrix {
    Seq::new(dims(t)[1], |i: int| row(t, ix2(b, i)))
}

/// A matrix that is no batch.
pub open spec fn matrix(t: Tensor) -> Matrix {
    Seq::new(dims(t)[0], |i: int| row(t, ix1(i)))
}

/// A vector.
pub open spec fn vector(t: Tensor) -> Seq<u64> {
    row(t, Seq::empty())
}

/// A vector that may be missing.
pub open spec fn optional_vector(t: Option<&Tensor>) -> Option<Seq<u64>> {
    match t {
        None => None,
        Some(v) => Some(vector(*v)),
    }
}

/// The matrix of item `b` of a batch of `rows` by `columns` matrices that `t` is stretched to.
pub open spec fn stretched(t: Tensor, b: int, rows: nat, columns: nat) -> Matrix {
    Seq::new(
        rows,
        |i: int| Seq::new(columns, |j: int| at(t, source(ix3(b, i, j), dims(t)))),
    )
}

/// A batch that has the shape already is stretched to itself.
pub proof fn lemma_stretched(t: Tensor, b: int, items: nat, rows: nat, columns: nat)
    requires
        dims(t) == shape3(items, rows, columns),
        0 <= b < items,
    ensures
        stretched(t, b, rows, columns) == slice(t, b),
{
    broadcast use group_index;

    assert forall|i: int, j: int| 0 <= i < rows && 0 <= j < columns implies #[trigger] source(
        ix3(b, i, j),
        dims(t),
    ) == ix3(b, i, j) by {}
    assert(stretched(t, b, rows, columns) =~~= slice(t, b));
}

/// The index of a row and a place in it make the index of an element.
pub broadcast proof fn lemma_within_push(i: Seq<int>, j: int, lead: Seq<nat>, n: nat)
    ensures
        #[trigger] within(i.push(j), lead.push(n)) <==> (within(i, lead) && 0 <= j < n),
{
    let (k, s) = (i.push(j), lead.push(n));
    if within(k, s) {
        assert forall|m: int| 0 <= m < lead.len() implies 0 <= #[trigger] i[m] < lead[m] by {
            assert(k[m] == i[m] && s[m] == lead[m]);
        }
        assert(k[i.len() as int] == j && s[lead.len() as int] == n);
    }
}

/// A shape is its leading sizes and its last one.
pub proof fn lemma_lead(s: Seq<nat>)
    requires
        s.len() > 0,
    ensures
        s == s.drop_last().push(s.last()),
{
    assert(s =~= s.drop_last().push(s.last()));
}

/// An array with rows, all of which have numbers.
pub proof fn lemma_inhabited_push(lead: Seq<nat>, n: nat)
    ensures
        inhabited(lead.push(n)) <==> (inhabited(lead) && n > 0),
{
    let s = lead.push(n);
    if inhabited(s) {
        assert forall|m: int| 0 <= m < lead.len() implies #[trigger] lead[m] > 0 by {
            assert(s[m] == lead[m]);
        }
        assert(s[lead.len() as int] == n);
    }
}

/// An array with an index has elements.
pub proof fn lemma_within_inhabited(i: Seq<int>, s: Seq<nat>)
    requires
        within(i, s),
    ensures
        inhabited(s),
{
    assert forall|k: int| 0 <= k < s.len() implies #[trigger] s[k] > 0 by {
        assert(0 <= i[k] < s[k]);
    }
}

/// Where rows can be allocated, shorter ones can.
pub proof fn lemma_fits_shorter(lead: Seq<nat>, n: nat, m: nat)
    requires
        fits(lead.push(n)),
        m <= n,
    ensures
        fits(lead.push(m)),
{
    assert(lead.push(n).drop_last() =~= lead);
    assert(lead.push(m).drop_last() =~= lead);
    let v = volume(lead);
    let (p, q) = (at_least_one(m), at_least_one(n));
    assert(v * p <= v * q) by (nonlinear_arith)
        requires
            p <= q,
    ;
}

/// Where an array can be allocated, one that is smaller in one dimension can.
pub proof fn lemma_fits_update(s: Seq<nat>, k: int, n: nat)
    requires
        0 <= k < s.len(),
        n <= s[k],
        fits(s),
    ensures
        fits(s.update(k, n)),
{
    lemma_volume_update(s, k, n);
}

/// The product of the sizes does not grow when one of them shrinks.
proof fn lemma_volume_update(s: Seq<nat>, k: int, n: nat)
    requires
        0 <= k < s.len(),
        n <= s[k],
    ensures
        volume(s.update(k, n)) <= volume(s),
    decreases s.len(),
{
    let t = s.update(k, n);
    let (v, u) = (volume(s.drop_last()), volume(t.drop_last()));
    let (p, q) = (at_least_one(s.last()), at_least_one(t.last()));
    if k == s.len() - 1 {
        assert(t.drop_last() =~= s.drop_last());
    } else {
        lemma_volume_update(s.drop_last(), k, n);
        assert(t.drop_last() =~= s.drop_last().update(k, n));
    }
    assert(u * q <= v * p) by (nonlinear_arith)
        requires
            u <= v,
            q <= p,
    ;
}

/// Entry `k` of dimension `d`, which is taken out.
pub(crate) fn select(t: &Tensor, d: usize, k: usize) -> (r: Result<Tensor, MambaError>)
    requires
        d < dims(*t).len(),
        k < dims(*t)[d as int],
    ensures
        r is Ok,
        r matches Ok(o) ==> {
            &&& dims(o) == dims(*t).remove(d as int)
            &&& same_kind(o, *t)
            &&& contiguous(*t) && unbroken(dims(*t), d as int, 1) ==> contiguous(o)
            &&& contiguous(*t) && contiguous(o) && inhabited(dims(o)) ==> unbroken(
                dims(*t),
                d as int,
                1,
            )
            &&& forall|i: Seq<int>|
                within(i, dims(o)) ==> #[trigger] at(o, i) == at(*t, i.insert(d as int, k as int))
        },
{
    let one = narrow(t, d, k, 1)?;
    let o = squeeze(&one, d)?;
    proof {
        assert(dims(one).remove(d as int) =~= dims(*t).remove(d as int));
        if inhabited(dims(o)) {
            assert forall|m: int| 0 <= m < dims(one).len() implies #[trigger] dims(one)[m] > 0 by {
                if m < d {
                    assert(dims(o)[m] == dims(one)[m]);
                } else if m > d {
                    assert(dims(o)[m - 1] == dims(one)[m]);
                }
            }
        }
        assert forall|i: Seq<int>| within(i, dims(o)) implies #[trigger] at(o, i) == at(
            *t,
            i.insert(d as int, k as int),
        ) by {
            let j = i.insert(d as int, 0);
            assert(within(j, dims(one))) by {
                assert forall|m: int| 0 <= m < dims(one).len() implies 0 <= #[trigger] j[m]
                    < dims(one)[m] by {
                    if m < d {
                        assert(j[m] == i[m]);
                        assert(dims(o)[m] == dims(one)[m]);
                    } else if m > d {
                        assert(j[m] == i[m - 1]);
                        assert(dims(o)[m - 1] == dims(one)[m]);
                    }
                }
            }
            assert(j.update(d as int, j[d as int] + k) =~= i.insert(d as int, k as int));
        }
    }
    Ok(o)
}

/// The `len` numbers from `start` on of every row. The last dimension is `d`.
pub(crate) fn narrow_rows(t: &Tensor, d: usize, start: usize, len: usize) -> (r: Result<
    Tensor,
    MambaError,
>)
    requires
        dims(*t).len() == d + 1,
        start + len <= dims(*t).last(),
    ensures
        r is Ok,
        r matches Ok(o) ==> {
            &&& dims(o) == dims(*t).drop_last().push(len as nat)
            &&& same_kind(o, *t)
            &&& forall|i: Seq<int>|
                within(i, dims(*t).drop_last()) ==> #[trigger] row(o, i) == row(*t, i).subrange(
                    start as int,
                    start + len,
                )
        },
{
    let o = narrow(t, d, start, len)?;
    proof {
        let lead = dims(*t).drop_last();
        assert(dims(o) =~= lead.push(len as nat));
        assert forall|i: Seq<int>| within(i, lead) implies #[trigger] row(o, i) == row(
            *t,
            i,
        ).subrange(start as int, start + len) by {
            assert forall|j: int| 0 <= j < len implies row(o, i)[j] == row(*t, i)[start + j] by {
                lemma_within_push(i, j, lead, len as nat);
                assert(i.push(j).update(d as int, j + start) =~= i.push(start + j));
                assert(at(o, i.push(j)) == at(*t, i.push(start + j)));
            }
            assert(row(o, i) =~= row(*t, i).subrange(start as int, start + len));
        }
    }
    Ok(o)
}

/// `t`, or a new tensor like it where it is empty.
pub(crate) fn based(t: &Tensor) -> (r: Result<Tensor, MambaError>)
    requires
        fits(dims(*t)),
    ensures
        inhabited(dims(*t)) || (on_cpu(*t) && is_storable(dtype_of(*t))) ==> r is Ok,
        r matches Ok(o) ==> {
            &&& inhabited(dims(*t)) ==> o == *t
            &&& dims(o) == dims(*t)
            &&& same_kind(o, *t)
            &&& grounded(o)
            &&& contiguous(*t) ==> contiguous(o)
        },
{
    if has_elements(t) {
        Ok(t.clone())
    } else {
        Ok(zeros_like(t)?)
    }
}

/// The normalisation of every row.
pub(crate) fn normalised(x: &Tensor, weight: &Tensor) -> (r: Result<Tensor, MambaError>)
    requires
        dims(*x).len() > 0 ==> {
            &&& contiguous(*x) || !is_integer(dtype_of(*x))
            &&& fits(dims(*x).drop_last().push(dims(*weight)[0]))
            &&& dims(*weight).len() == 1
            &&& dims(*weight)[0] > 0
            &&& fits(dims(*weight))
        },
        fits(dims(*x)),
    ensures
        on_cpu(*x) && on_cpu(*weight) && rms_fits(*x, *weight) ==> r is Ok,
        r matches Ok(o) ==> {
            &&& rms_fits(*x, *weight)
            &&& dims(o) == dims(*x).drop_last().push(
                if dims(*x).last() == 1 {
                    dims(*weight)[0]
                } else {
                    dims(*x).last()
                },
            )
            &&& same_kind(o, *x)
            &&& contiguous(*x) || inhabited(dims(o)) ==> contiguous(o)
            &&& forall|i: Seq<int>|
                dims(*x).last() == dims(*weight)[0] && within(i, dims(*x).drop_last())
                    ==> rms_gives(
                    dtype_of(*x),
                    row(*x, i),
                    vector(*weight),
                    NORM_EPS@,
                    #[trigger] row(o, i),
                )
        },
{
    let given = if is_in_order(x) {
        based(x)?
    } else {
        x.clone()
    };
    let o = rms_norm(&given, weight, NORM_EPS)?;
    proof {
        let lead = dims(*x).drop_last();
        assert forall|i: Seq<int>|
            dims(*x).last() == dims(*weight)[0] && within(i, lead) implies rms_gives(
            dtype_of(*x),
            row(*x, i),
            vector(*weight),
            NORM_EPS@,
            #[trigger] row(o, i),
        ) by {
            lemma_lead(dims(*x));
            lemma_within_inhabited(i, lead);
            lemma_inhabited_push(lead, dims(*x).last());
        }
    }
    Ok(o)
}

/// The rows of `table` that identifiers stand for.
pub(crate) fn looked_up(table: &Tensor, width: usize, ids: &Tensor) -> (r: Result<
    Tensor,
    MambaError,
>)
    requires
        dims(*table).len() == 2,
        dims(*table)[1] == width,
        fits(dims(*table)),
        fits(dims(*ids)),
        fits(dims(*ids).push(width as nat)),
    ensures
        on_cpu(*table) && on_cpu(*ids) && contiguous(*table) && is_storable(dtype_of(*table))
            && ids_fit(*ids, dims(*table)[0]) ==> r is Ok,
        r matches Ok(o) ==> {
            &&& contiguous(*table)
            &&& is_storable(dtype_of(*table))
            &&& ids_fit(*ids, dims(*table)[0])
            &&& dims(o) == dims(*ids).push(width as nat)
            &&& same_kind(o, *table)
            &&& contiguous(o)
            &&& forall|i: Seq<int>|
                within(i, dims(*ids)) ==> #[trigger] row(o, i) == named_row(
                    dtype_of(*ids),
                    at(*ids, i),
                    *table,
                )
        },
{
    let given = if is_in_order(table) {
        based(table)?
    } else {
        table.clone()
    };
    let o = embed(&given, width, ids)?;
    proof {
        assert forall|i: Seq<int>| within(i, dims(*ids)) implies #[trigger] row(o, i) == named_row(
            dtype_of(*ids),
            at(*ids, i),
            *table,
        ) by {
            let (dt, id) = (dtype_of(*ids), at(*ids, i));
            assert(id_fits(dt, id, dims(*table)[0]));
            if !inhabited(dims(*table)) {
                assert(named_row(dt, id, given) =~= named_row(dt, id, *table)) by {
                    if id != no_token(dt) {
                        assert(dims(*table)[0] > 0);
                        assert(dims(*table)[1] == 0);
                    }
                }
            }
        }
    }
    Ok(o)
}

/// A linear layer, applied to every row.
pub(crate) fn project(x: &Tensor, weight: &Tensor, bias: Option<&Tensor>) -> (r: Result<
    Tensor,
    MambaError,
>)
    requires
        dims(*x).len() == 2 || (dims(*x).len() == 3 && contiguous(*x)),
        dims(*weight).len() == 2,
        bias matches Some(b) ==> dims(*b) == shape1(dims(*weight)[0]),
        fits(dims(*x)),
        fits(dims(*weight)),
        fits(dims(*x).drop_last().push(dims(*weight)[0])),
    ensures
        on_cpu(*x) && on_cpu(*weight) && (bias matches Some(b) ==> on_cpu(*b)) && linear_fits(
            *x,
            *weight,
            bias,
        ) ==> r is Ok,
        r matches Ok(o) ==> {
            &&& linear_fits(*x, *weight, bias)
            &&& dims(o) == dims(*x).drop_last().push(dims(*weight)[0])
            &&& same_kind(o, *x)
            &&& contiguous(o)
            &&& forall|i: Seq<int>|
                within(i, dims(*x).drop_last()) ==> projects(
                    dtype_of(*x),
                    matrix(*weight),
                    optional_vector(bias),
                    row(*x, i),
                    #[trigger] row(o, i),
                )
        },
{
    let o = linear(x, weight, bias)?;
    proof {
        let lead = dims(*x).drop_last();
        let width = dims(*weight)[0];
        assert forall|i: Seq<int>| within(i, lead) implies projects(
            dtype_of(*x),
            matrix(*weight),
            optional_vector(bias),
            row(*x, i),
            #[trigger] row(o, i),
        ) by {
            assert forall|j: int| 0 <= j < width implies linear_gives(
                dtype_of(*x),
                row(*x, i),
                matrix(*weight)[j],
                bias_at(bias, j),
                #[trigger] row(o, i)[j],
            ) by {
                lemma_within_push(i, j, lead, width);
                assert(row(o, i)[j] == at(o, i.push(j)));
            }
            if let Some(b) = bias {
                assert(vector(*b).len() == width);
                assert forall|j: int| 0 <= j < width implies #[trigger] vector(*b)[j] == at(
                    *b,
                    ix1(j),
                ) by {}
            }
        }
    }
    Ok(o)
}

/// `log(exp(x) + 1)` of every element.
pub(crate) fn softened(t: &Tensor) -> (r: Result<Tensor, MambaError>)
    requires
        fits(dims(*t)),
        numeric(*t),
    ensures
        on_cpu(*t) ==> r is Ok,
        r matches Ok(o) ==> {
            &&& same_frame(o, *t)
            &&& forall|i: Seq<int>|
                within(i, dims(o)) ==> softplus(dtype_of(*t), at(*t, i), #[trigger] at(o, i))
        },
{
    let e = exp(t)?;
    let f = affine(&e, 1, 1)?;
    let o = log(&f)?;
    proof {
        assert forall|i: Seq<int>| within(i, dims(o)) implies softplus(
            dtype_of(*t),
            at(*t, i),
            #[trigger] at(o, i),
        ) by {
            assert(exp_gives(dtype_of(*t), at(*t, i), at(e, i)));
            assert(affine_gives(dtype_of(*t), 1, 1, at(e, i), at(f, i)));
        }
    }
    Ok(o)
}

/// Every element of `y` times the activation of the element of `gate` at its place.
pub(crate) fn gated(y: &Tensor, gate: &Tensor) -> (r: Result<Tensor, MambaError>)
    requires
        fits(dims(*y)),
        numeric(*y),
        dims(*gate) == dims(*y),
        dtype_of(*gate) == dtype_of(*y),
    ensures
        on_cpu(*y) && on_cpu(*gate) ==> r is Ok,
        r matches Ok(o) ==> {
            &&& same_frame(o, *y)
            &&& forall|i: Seq<int>|
                within(i, dims(o)) ==> gates(
                    dtype_of(*y),
                    at(*y, i),
                    at(*gate, i),
                    #[trigger] at(o, i),
                )
        },
{
    let s = silu(gate)?;
    let o = times(y, &s)?;
    proof {
        assert forall|i: Seq<int>| within(i, dims(o)) implies gates(
            dtype_of(*y),
            at(*y, i),
            at(*gate, i),
            #[trigger] at(o, i),
        ) by {
            assert(silu_gives(dtype_of(*y), at(*gate, i), at(s, i)));
        }
    }
    Ok(o)
}

} // verus!
