//! The selective scan.
use crate::array::{
    at_least_one, broadcast, broadcasts, common_rank, count, fits, group_index, inhabited, ix1,
    ix2, ix3, ix4, lemma_spread, lemma_volume, padded, pinned, shape1, shape2, shape3, shape4,
    source, wide, within,
};
use crate::error::MambaError;
use crate::recurrence::{
    advances, decays, drives, follows, reads_out, skips, ssm_scan, ssm_step, ssm_trace, zeros,
    Matrix,
};
use crate::rows::{
    lemma_fits_update, lemma_stretched, lemma_within_inhabited, matrix, select, slice,
    stretched, vector,
};
use crate::sizes::{fits_in_memory, fits_itself, has_elements, is_float_type, is_integer_type};
use crate::tensor::{
    at, broadcast_plus, broadcast_times, column, contiguous, device, dim, dims, dims2, dims3,
    dot_gives, dtype, dtype_of, exp, is_float, is_integer, is_matrix_float, is_storable, matmul,
    mul_gives, numeric, on_cpu, plus, reshape4, row, same_kind, shape_of, sizes, squeeze, stack,
    stretch3, stretches, times, transpose, unsqueeze, zeros3,
};
use candle_core::Tensor;
use vstd::prelude::*;

verus! {

broadcast use group_index;

/// The numbers of channels, of which one may be stretched to the other, that the step sizes and the
/// inputs of a scan have together.
pub open spec fn scan_width(u: Tensor, delta: Tensor) -> nat {
    wide(dims(delta)[2], dims(u)[2])
}

/// The number of positions for which the inputs of a scan are worked out. More than there are in the
/// sequence only where it has one.
pub open spec fn scan_reach(u: Tensor, delta: Tensor, b: Tensor) -> nat {
    wide(wide(dims(delta)[1], dims(b)[1]), dims(u)[1])
}

/// Two sizes are equal, or one of them is one.
pub open spec fn match_up(m: nat, n: nat) -> bool {
    m == n || m == 1 || n == 1
}

/// The tensors of a scan have shapes that belong together, and the sequence has a position. What is
/// given once, for several items, positions or channels, counts for each of them; what is given for
/// later positions does not count.
pub open spec fn scan_shaped(
    u: Tensor,
    delta: Tensor,
    a: Tensor,
    b: Tensor,
    c: Tensor,
    d: Tensor,
) -> bool {
    let (items, len, width, n) = (dims(u)[0], dims(u)[1], dims(u)[2], dims(a)[1]);
    let full = scan_width(u, delta);
    &&& dims(u).len() == 3
    &&& dims(delta).len() == 3
    &&& dims(a).len() == 2
    &&& dims(b).len() == 3
    &&& dims(c).len() == 3
    &&& dims(d).len() <= 1
    &&& len > 0
    &&& dims(delta)[0] == 1 || dims(delta)[0] == items
    &&& dims(delta)[1] == len || (len == 1 && dims(delta)[1] > 0)
    &&& match_up(dims(delta)[2], width)
    &&& n > 0 ==> dims(a)[0] == width
    &&& dims(b)[0] == 1 || dims(b)[0] == items
    &&& dims(b)[1] > 0
    &&& if len == 1 {
        match_up(dims(delta)[1], dims(b)[1])
    } else {
        dims(b)[1] == 1 || dims(b)[1] == len
    }
    &&& dims(b)[2] == n
    &&& dims(c)[1] >= len
    &&& items > 0 && full > 0 && n > 0 ==> dims(c)[0] == items && dims(c)[2] == n
    &&& if dims(d).len() == 0 {
        width == full
    } else {
        match_up(width, dims(d)[0]) && wide(width, dims(d)[0]) == full
    }
}

/// The tensors of a scan have the shapes that its arguments are described by.
pub open spec fn scan_plain(
    u: Tensor,
    delta: Tensor,
    a: Tensor,
    b: Tensor,
    c: Tensor,
    d: Tensor,
) -> bool {
    &&& dims(u).len() == 3
    &&& dims(u)[1] > 0
    &&& dims(delta) == dims(u)
    &&& dims(a).len() == 2
    &&& dims(a)[0] == dims(u)[2]
    &&& dims(b) == shape3(dims(u)[0], dims(u)[1], dims(a)[1])
    &&& dims(c) == dims(b)
    &&& dims(d) == shape1(dims(u)[2])
}

/// The types of the tensors of a scan go together. Where there is nothing to compute, types are not
/// compared.
pub open spec fn scan_typed(
    u: Tensor,
    delta: Tensor,
    a: Tensor,
    b: Tensor,
    c: Tensor,
    d: Tensor,
) -> bool {
    let (items, n, full) = (dims(u)[0], dims(a)[1], scan_width(u, delta));
    let many = wide(dims(delta)[0], dims(b)[0]);
    let dt = dtype_of(delta);
    &&& is_storable(dt)
    &&& contiguous(a) || is_storable(dtype_of(a))
    &&& dims(delta)[0] > 0 && full > 0 && n > 0 ==> dtype_of(a) == dt
    &&& many > 0 && dims(delta)[2] > 0 && n > 0 ==> dtype_of(b) == dt
    &&& items > 0 && full > 0 && n > 0 ==> dtype_of(c) == dt && is_matrix_float(dt)
    &&& items > 0 && full > 0 ==> dtype_of(u) == dt && dtype_of(d) == dt
}

/// A scan can take these tensors without running out of what one allocation may hold, and without
/// computing with whole numbers. Step sizes and inputs with more dimensions than batch, position and
/// channel or state are left out, and so are rates with more than channel and state.
pub open spec fn scan_room(
    u: Tensor,
    delta: Tensor,
    a: Tensor,
    b: Tensor,
    c: Tensor,
    d: Tensor,
) -> bool {
    dims(u).len() == 3 && dims(u)[1] > 0 && dims(a).len() >= 2 ==> {
        &&& dims(a).len() == 2
        &&& dims(delta).len() <= 3
        &&& dims(b).len() <= 3
        &&& is_integer(dtype_of(delta)) ==> !inhabited(dims(delta))
        &&& scan_shaped(u, delta, a, b, c, d) ==> {
            &&& fits(
                shape4(
                    dims(u)[0],
                    scan_width(u, delta),
                    scan_reach(u, delta, b),
                    dims(a)[1],
                ),
            )
            &&& fits(dims(a))
            &&& fits(dims(c))
            &&& dims(a)[1] == 0 ==> numeric(u)
        }
    }
}

/// The shapes that occur in a scan can be allocated.
proof fn lemma_scan_fits(b: nat, d: nat, l: nat, n: nat, b1: nat, d1: nat, l1: nat, n1: nat)
    requires
        fits(shape4(b, d, l, n)),
        at_least_one(b1) <= at_least_one(b),
        at_least_one(d1) <= at_least_one(d),
        at_least_one(l1) <= at_least_one(l),
        at_least_one(n1) <= at_least_one(n),
    ensures
        fits(shape4(b1, d1, l1, n1)),
        fits(shape3(b1, d1, n1)),
        fits(shape3(b1, n1, 1)),
        fits(shape3(b1, d1, 1)),
        fits(shape3(b1, l1, d1)),
        fits(shape3(1, 1, d1)),
        fits(shape2(1, d1)),
{
    lemma_volume(b, d, l, n);
    lemma_volume(b1, d1, l1, n1);
    lemma_volume(b1, d1, n1, 1);
    lemma_volume(b1, n1, 1, 1);
    lemma_volume(b1, d1, 1, 1);
    lemma_volume(b1, l1, d1, 1);
    lemma_volume(1, 1, d1, 1);
    lemma_volume(1, d1, 1, 1);
    let (p, q, r, s) = (at_least_one(b), at_least_one(d), at_least_one(l), at_least_one(n));
    let (w, x, y, z) = (at_least_one(b1), at_least_one(d1), at_least_one(l1), at_least_one(n1));
    let v = p * q * r * s;
    assert(w * x <= p * q && y * z <= r * s) by (nonlinear_arith)
        requires
            0 < w <= p,
            0 < x <= q,
            0 < y <= r,
            0 < z <= s,
    ;
    let (e, f, g, h) = (w * x, y * z, p * q, r * s);
    assert(e * f <= g * h) by (nonlinear_arith)
        requires
            0 <= e <= g,
            0 <= f <= h,
    ;
    assert(v == g * h) by (nonlinear_arith)
        requires
            v == p * q * r * s,
            g == p * q,
            h == r * s,
    ;
    assert(w * x * y * z == e * f) by (nonlinear_arith)
        requires
            e == w * x,
            f == y * z,
    ;
    let u = w * x * y * z;
    assert(w * x * z <= u && w * z * 1 <= u && w * x * 1 <= u && w * y * x <= u && 1 * 1 * x <= u
        && 1 * x <= u) by (nonlinear_arith)
        requires
            w > 0,
            x > 0,
            y > 0,
            z > 0,
            u == w * x * y * z,
    ;
}

/// `da` holds the factors `exp(delta * a)` and `dbu` the inputs `delta * b * u` for every position.
spec fn discretised(
    u: Tensor,
    delta: Tensor,
    a: Tensor,
    b: Tensor,
    da: Tensor,
    dbu: Tensor,
) -> bool {
    let (e, f, g) = (dims(delta), dims(b), dims(u));
    let n = dims(a)[1];
    let full = scan_width(u, delta);
    &&& dims(da) == shape4(e[0], full, e[1], n)
    &&& dims(dbu) == shape4(wide(wide(e[0], f[0]), g[0]), full, scan_reach(u, delta, b), n)
    &&& same_kind(da, delta)
    &&& same_kind(dbu, delta)
    &&& forall|i: int, d: int, t: int, m: int|
        within(ix4(i, d, t, m), dims(da)) ==> decays(
            dtype_of(delta),
            at(delta, ix3(i, t, pinned(d, e[2]))),
            at(a, ix2(pinned(d, g[2]), m)),
            #[trigger] at(da, ix4(i, d, t, m)),
        )
    &&& forall|i: int, d: int, t: int, m: int|
        within(ix4(i, d, t, m), dims(dbu)) ==> drives(
            dtype_of(delta),
            at(delta, ix3(pinned(i, e[0]), pinned(t, e[1]), pinned(d, e[2]))),
            at(b, ix3(pinned(i, f[0]), pinned(t, f[1]), m)),
            at(u, ix3(pinned(i, g[0]), pinned(t, g[1]), pinned(d, g[2]))),
            #[trigger] at(dbu, ix4(i, d, t, m)),
        )
}

/// The step sizes as `(batch, d_inner, seq_len, 1)`.
fn expanded(x: &Tensor) -> (r: Result<Tensor, MambaError>)
    requires
        dims(*x).len() == 3,
    ensures
        r is Ok,
        r matches Ok(o) ==> {
            &&& dims(o) == shape4(dims(*x)[0], dims(*x)[2], dims(*x)[1], 1)
            &&& same_kind(o, *x)
            &&& forall|i: int, d: int, t: int|
                0 <= i < dims(*x)[0] && 0 <= d < dims(*x)[2] && 0 <= t < dims(*x)[1]
                    ==> #[trigger] at(o, ix4(i, d, t, 0)) == at(*x, ix3(i, t, d))
        },
{
    proof {
        assert(dims(*x) =~= shape3(dims(*x)[0], dims(*x)[1], dims(*x)[2]));
    }
    let x_t = transpose(x, 1, 2)?;
    let o = unsqueeze(&x_t, 3)?;
    proof {
        assert forall|i: int, d: int, t: int|
            0 <= i < dims(*x)[0] && 0 <= d < dims(*x)[2] && 0 <= t < dims(*x)[1] implies
            #[trigger] at(o, ix4(i, d, t, 0)) == at(*x, ix3(i, t, d)) by {
            assert(at(o, ix4(i, d, t, 0)) == at(x_t, ix3(i, d, t)));
            assert(at(x_t, ix3(i, d, t)) == at(*x, ix3(i, t, d)));
        }
    }
    Ok(o)
}

/// The factors `exp(delta * a)` for every position.
fn decay_factors(delta: &Tensor, a: &Tensor, d_in: usize, n: usize) -> (r: Result<
    Tensor,
    MambaError,
>)
    requires
        dims(*delta) == shape4(dims(*delta)[0], dims(*delta)[1], dims(*delta)[2], 1),
        match_up(dims(*delta)[1], d_in as nat),
        dims(*a) == shape2(dims(*a)[0], n as nat),
        n > 0 ==> dims(*a)[0] == d_in,
        is_storable(dtype_of(*delta)),
        is_integer(dtype_of(*delta)) ==> !inhabited(dims(*delta)),
        fits(dims(*delta)),
        fits(dims(*a)),
        fits(shape4(1, d_in as nat, 1, n as nat)),
        fits(
            shape4(
                dims(*delta)[0],
                wide(dims(*delta)[1], d_in as nat),
                dims(*delta)[2],
                n as nat,
            ),
        ),
    ensures
        on_cpu(*delta) && on_cpu(*a) && (contiguous(*a) || is_storable(dtype_of(*a))) && (inhabited(
            shape4(
                dims(*delta)[0],
                wide(dims(*delta)[1], d_in as nat),
                dims(*delta)[2],
                n as nat,
            ),
        ) ==> dtype_of(*a) == dtype_of(*delta)) ==> r is Ok,
        r matches Ok(o) ==> {
            &&& dims(o) == shape4(
                dims(*delta)[0],
                wide(dims(*delta)[1], d_in as nat),
                dims(*delta)[2],
                n as nat,
            )
            &&& same_kind(o, *delta)
            &&& contiguous(*a) || is_storable(dtype_of(*a))
            &&& inhabited(dims(o)) ==> dtype_of(*a) == dtype_of(*delta)
            &&& forall|i: int, d: int, t: int, k: int|
                within(ix4(i, d, t, k), dims(o)) ==> decays(
                    dtype_of(*delta),
                    at(*delta, ix4(i, pinned(d, dims(*delta)[1]), t, 0)),
                    at(*a, ix2(pinned(d, d_in as nat), k)),
                    #[trigger] at(o, ix4(i, d, t, k)),
                )
        },
{
    let ghost dt = dtype_of(*delta);
    let ghost e = dims(*delta);
    let ghost m = n as nat;
    proof {
        lemma_spread(d_in as nat, m);
        lemma_no_states(dims(*a)[0], d_in as nat);
        lemma_inhabited4(e[0], e[1], e[2], 1);
        lemma_inhabited4(e[0], wide(e[1], d_in as nat), e[2], m);
        lemma_broadcasts4(e, shape4(1, d_in as nat, 1, m));
    }
    let a_expanded = reshape4(a, (1, d_in, 1, n))?;
    let product = broadcast_times(delta, &a_expanded)?;
    let o = exp(&product)?;
    proof {
        assert forall|i: int, d: int, t: int, k: int|
            within(ix4(i, d, t, k), dims(o)) implies decays(
            dt,
            at(*delta, ix4(i, pinned(d, e[1]), t, 0)),
            at(*a, ix2(pinned(d, d_in as nat), k)),
            #[trigger] at(o, ix4(i, d, t, k)),
        ) by {
            let (x, y) = (pinned(d, e[1]), pinned(d, d_in as nat));
            assert(within(ix4(0, y, 0, k), dims(a_expanded)));
            lemma_within2(y, k, dims(*a)[0], m);
            assert(at(a_expanded, ix4(0, y, 0, k)) == at(*a, ix2(y, k)));
            let p = at(product, ix4(i, d, t, k));
            assert(within(ix4(i, d, t, k), dims(product)));
            assert(mul_gives(dt, at(*delta, ix4(i, x, t, 0)), at(*a, ix2(y, k)), p));
        }
    }
    Ok(o)
}

/// The inputs `delta * b * u` for every position.
fn drive_inputs(delta: &Tensor, b: &Tensor, u: &Tensor) -> (r: Result<Tensor, MambaError>)
    requires
        dims(*delta) == shape4(dims(*delta)[0], dims(*delta)[1], dims(*delta)[2], 1),
        dims(*b) == shape4(dims(*b)[0], 1, dims(*b)[2], dims(*b)[3]),
        dims(*u) == shape4(dims(*u)[0], dims(*u)[1], dims(*u)[2], 1),
        match_up(dims(*delta)[0], dims(*b)[0]),
        match_up(wide(dims(*delta)[0], dims(*b)[0]), dims(*u)[0]),
        match_up(dims(*delta)[1], dims(*u)[1]),
        match_up(dims(*delta)[2], dims(*b)[2]),
        match_up(wide(dims(*delta)[2], dims(*b)[2]), dims(*u)[2]),
        is_storable(dtype_of(*delta)),
        is_integer(dtype_of(*delta)) ==> !inhabited(dims(*delta)),
        fits(dims(*delta)),
        fits(dims(*b)),
        fits(dims(*u)),
        fits(driven_once(dims(*delta), dims(*b))),
        fits(driven(dims(*delta), dims(*b), dims(*u))),
    ensures
        on_cpu(*delta) && on_cpu(*b) && on_cpu(*u) && (inhabited(
            driven_once(dims(*delta), dims(*b)),
        ) ==> dtype_of(*b) == dtype_of(*delta)) && (inhabited(
            driven(dims(*delta), dims(*b), dims(*u)),
        ) ==> dtype_of(*u) == dtype_of(*delta)) ==> r is Ok,
        r matches Ok(o) ==> {
            let (e, f, g) = (dims(*delta), dims(*b), dims(*u));
            &&& dims(o) == driven(e, f, g)
            &&& same_kind(o, *delta)
            &&& inhabited(driven_once(e, f)) ==> dtype_of(*b) == dtype_of(*delta)
            &&& inhabited(dims(o)) ==> dtype_of(*u) == dtype_of(*delta)
            &&& forall|i: int, d: int, t: int, k: int|
                within(ix4(i, d, t, k), dims(o)) ==> drives(
                    dtype_of(*delta),
                    at(*delta, ix4(pinned(i, e[0]), pinned(d, e[1]), pinned(t, e[2]), 0)),
                    at(*b, ix4(pinned(i, f[0]), 0, pinned(t, f[2]), k)),
                    at(*u, ix4(pinned(i, g[0]), pinned(d, g[1]), pinned(t, g[2]), 0)),
                    #[trigger] at(o, ix4(i, d, t, k)),
                )
        },
{
    let ghost dt = dtype_of(*delta);
    let ghost (e, f, g) = (dims(*delta), dims(*b), dims(*u));
    let ghost (once, all) = (driven_once(e, f), driven(e, f, g));
    proof {
        lemma_inhabited4(e[0], e[1], e[2], 1);
        lemma_inhabited4(once[0], once[1], once[2], once[3]);
        lemma_broadcasts4(e, f);
        lemma_broadcasts4(once, g);
    }
    let delta_b = broadcast_times(delta, b)?;
    let o = broadcast_times(&delta_b, u)?;
    proof {
        assert forall|i: int, d: int, t: int, k: int|
            within(ix4(i, d, t, k), dims(o)) implies drives(
            dt,
            at(*delta, ix4(pinned(i, e[0]), pinned(d, e[1]), pinned(t, e[2]), 0)),
            at(*b, ix4(pinned(i, f[0]), 0, pinned(t, f[2]), k)),
            at(*u, ix4(pinned(i, g[0]), pinned(d, g[1]), pinned(t, g[2]), 0)),
            #[trigger] at(o, ix4(i, d, t, k)),
        ) by {
            let j = ix4(pinned(i, once[0]), pinned(d, once[1]), pinned(t, once[2]), k);
            assert(within(j, once));
            assert(mul_gives(
                dt,
                at(*delta, ix4(pinned(i, e[0]), pinned(d, e[1]), pinned(t, e[2]), 0)),
                at(*b, ix4(pinned(i, f[0]), 0, pinned(t, f[2]), k)),
                at(delta_b, j),
            ));
        }
    }
    Ok(o)
}

/// The shape of `delta * b`.
spec fn driven_once(e: Seq<nat>, f: Seq<nat>) -> Seq<nat> {
    shape4(wide(e[0], f[0]), e[1], wide(e[2], f[2]), f[3])
}

/// The shape of `delta * b * u`.
spec fn driven(e: Seq<nat>, f: Seq<nat>, g: Seq<nat>) -> Seq<nat> {
    shape4(
        wide(wide(e[0], f[0]), g[0]),
        wide(e[1], g[1]),
        wide(wide(e[2], f[2]), g[2]),
        f[3],
    )
}

/// The factors `exp(delta * a)` and the inputs `delta * b * u` for every position, both of the
/// shape `(batch, d_inner, seq_len, d_state)` once what is given once has been stretched.
fn discretise(
    u: &Tensor,
    delta: &Tensor,
    a: &Tensor,
    b: &Tensor,
    Ghost(c): Ghost<Tensor>,
    Ghost(d): Ghost<Tensor>,
) -> (r: Result<(Tensor, Tensor), MambaError>)
    requires
        scan_shaped(*u, *delta, *a, *b, c, d),
        is_storable(dtype_of(*delta)),
        is_integer(dtype_of(*delta)) ==> !inhabited(dims(*delta)),
        fits(dims(*a)),
        fits(
            shape4(
                dims(*u)[0],
                scan_width(*u, *delta),
                scan_reach(*u, *delta, *b),
                dims(*a)[1],
            ),
        ),
    ensures
        on_cpu(*u) && on_cpu(*delta) && on_cpu(*a) && on_cpu(*b) && scan_typed(
            *u,
            *delta,
            *a,
            *b,
            c,
            d,
        ) ==> r is Ok,
        r matches Ok((da, dbu)) ==> {
            let n = dims(*a)[1];
            let full = scan_width(*u, *delta);
            &&& discretised(*u, *delta, *a, *b, da, dbu)
            &&& contiguous(*a) || is_storable(dtype_of(*a))
            &&& dims(*delta)[0] > 0 && full > 0 && n > 0 ==> dtype_of(*a) == dtype_of(*delta)
            &&& wide(dims(*delta)[0], dims(*b)[0]) > 0 && dims(*delta)[2] > 0 && n > 0 ==> dtype_of(
                *b,
            ) == dtype_of(*delta)
            &&& dims(*u)[0] > 0 && full > 0 && n > 0 ==> dtype_of(*u) == dtype_of(*delta)
        },
{
    let (_b_sz, _seq_len, d_in) = dims3(u)?;
    let n = dim(a, 1)?;
    let ghost (e, f, g) = (dims(*delta), dims(*b), dims(*u));
    let ghost m = n as nat;
    let ghost full = scan_width(*u, *delta);
    let ghost reach = scan_reach(*u, *delta, *b);
    proof {
        lemma_scan_sizes(*u, *delta, *a, *b, c, d);
    }
    let delta_expanded = expanded(delta)?;
    let delta_a = decay_factors(&delta_expanded, a, d_in, n)?;
    let b_t = transpose(b, 1, 2)?;
    let b_expanded = unsqueeze(&b_t, 1)?;
    let b_expanded = transpose(&b_expanded, 2, 3)?;
    let u_expanded = expanded(u)?;
    let delta_b_u = drive_inputs(&delta_expanded, &b_expanded, &u_expanded)?;
    proof {
        assert forall|i: int, w: int, k: int|
            0 <= i < f[0] && 0 <= w < f[1] && 0 <= k < m implies #[trigger] at(
            b_expanded,
            ix4(i, 0, w, k),
        ) == at(*b, ix3(i, w, k)) by {
            assert(at(b_expanded, ix4(i, 0, w, k)) == at(b_t, ix3(i, k, w)));
            assert(at(b_t, ix3(i, k, w)) == at(*b, ix3(i, w, k)));
        }
        lemma_discretised(
            *u,
            *delta,
            *a,
            *b,
            c,
            d,
            delta_expanded,
            b_expanded,
            u_expanded,
            delta_a,
            delta_b_u,
        );
    }
    Ok((delta_a, delta_b_u))
}

/// What belongs to a scan, in terms of the tensors of four dimensions that it is computed with.
proof fn lemma_discretised(
    u: Tensor,
    delta: Tensor,
    a: Tensor,
    b: Tensor,
    c: Tensor,
    d: Tensor,
    x: Tensor,
    y: Tensor,
    z: Tensor,
    da: Tensor,
    dbu: Tensor,
)
    requires
        scan_shaped(u, delta, a, b, c, d),
        dims(x) == shape4(dims(delta)[0], dims(delta)[2], dims(delta)[1], 1),
        dims(y) == shape4(dims(b)[0], 1, dims(b)[1], dims(a)[1]),
        dims(z) == shape4(dims(u)[0], dims(u)[2], dims(u)[1], 1),
        forall|i: int, e: int, t: int|
            0 <= i < dims(delta)[0] && 0 <= e < dims(delta)[2] && 0 <= t < dims(delta)[1]
                ==> #[trigger] at(x, ix4(i, e, t, 0)) == at(delta, ix3(i, t, e)),
        forall|i: int, t: int, k: int|
            0 <= i < dims(b)[0] && 0 <= t < dims(b)[1] && 0 <= k < dims(a)[1] ==> #[trigger] at(
                y,
                ix4(i, 0, t, k),
            ) == at(b, ix3(i, t, k)),
        forall|i: int, e: int, t: int|
            0 <= i < dims(u)[0] && 0 <= e < dims(u)[2] && 0 <= t < dims(u)[1] ==> #[trigger] at(
                z,
                ix4(i, e, t, 0),
            ) == at(u, ix3(i, t, e)),
        dims(da) == shape4(
            dims(delta)[0],
            scan_width(u, delta),
            dims(delta)[1],
            dims(a)[1],
        ),
        dims(dbu) == driven(dims(x), dims(y), dims(z)),
        same_kind(da, delta),
        same_kind(dbu, delta),
        forall|i: int, e: int, t: int, k: int|
            within(ix4(i, e, t, k), dims(da)) ==> decays(
                dtype_of(delta),
                at(x, ix4(i, pinned(e, dims(x)[1]), t, 0)),
                at(a, ix2(pinned(e, dims(u)[2]), k)),
                #[trigger] at(da, ix4(i, e, t, k)),
            ),
        forall|i: int, e: int, t: int, k: int|
            within(ix4(i, e, t, k), dims(dbu)) ==> drives(
                dtype_of(delta),
                at(x, ix4(pinned(i, dims(x)[0]), pinned(e, dims(x)[1]), pinned(t, dims(x)[2]), 0)),
                at(y, ix4(pinned(i, dims(y)[0]), 0, pinned(t, dims(y)[2]), k)),
                at(z, ix4(pinned(i, dims(z)[0]), pinned(e, dims(z)[1]), pinned(t, dims(z)[2]), 0)),
                #[trigger] at(dbu, ix4(i, e, t, k)),
            ),
    ensures
        discretised(u, delta, a, b, da, dbu),
{
    let (e, f, g) = (dims(delta), dims(b), dims(u));
    let n = dims(a)[1];
    let dt = dtype_of(delta);
    assert forall|i: int, d: int, t: int, m: int| within(ix4(i, d, t, m), dims(da)) implies decays(
        dt,
        at(delta, ix3(i, t, pinned(d, e[2]))),
        at(a, ix2(pinned(d, g[2]), m)),
        #[trigger] at(da, ix4(i, d, t, m)),
    ) by {
        assert(at(x, ix4(i, pinned(d, e[2]), t, 0)) == at(delta, ix3(i, t, pinned(d, e[2]))));
    }
    assert forall|i: int, d: int, t: int, m: int| within(ix4(i, d, t, m), dims(dbu)) implies drives(
        dt,
        at(delta, ix3(pinned(i, e[0]), pinned(t, e[1]), pinned(d, e[2]))),
        at(b, ix3(pinned(i, f[0]), pinned(t, f[1]), m)),
        at(u, ix3(pinned(i, g[0]), pinned(t, g[1]), pinned(d, g[2]))),
        #[trigger] at(dbu, ix4(i, d, t, m)),
    ) by {
        let (p, q, r) = (pinned(i, e[0]), pinned(d, e[2]), pinned(t, e[1]));
        assert(0 <= p < e[0] && 0 <= q < e[2] && 0 <= r < e[1]);
        assert(at(x, ix4(p, q, r, 0)) == at(delta, ix3(p, r, q)));
        let (v, w) = (pinned(i, f[0]), pinned(t, f[1]));
        assert(0 <= v < f[0] && 0 <= w < f[1]);
        assert(at(y, ix4(v, 0, w, m)) == at(b, ix3(v, w, m)));
        let (j, k, l) = (pinned(i, g[0]), pinned(d, g[2]), pinned(t, g[1]));
        assert(0 <= j < g[0] && 0 <= k < g[2] && 0 <= l < g[1]);
        assert(at(z, ix4(j, k, l, 0)) == at(u, ix3(j, l, k)));
    }
}

/// What the shapes of a scan amount to.
proof fn lemma_scan_sizes(u: Tensor, delta: Tensor, a: Tensor, b: Tensor, c: Tensor, d: Tensor)
    requires
        scan_shaped(u, delta, a, b, c, d),
        fits(shape4(dims(u)[0], scan_width(u, delta), scan_reach(u, delta, b), dims(a)[1])),
    ensures
        ({
            let (e, f, g) = (dims(delta), dims(b), dims(u));
            let n = dims(a)[1];
            let (full, reach) = (scan_width(u, delta), scan_reach(u, delta, b));
            let x = shape4(e[0], e[2], e[1], 1);
            let y = shape4(f[0], 1, f[1], n);
            let z = shape4(g[0], g[2], g[1], 1);
            let o = shape4(e[0], full, e[1], n);
            &&& e == shape3(e[0], e[1], e[2])
            &&& f == shape3(f[0], f[1], n)
            &&& g == shape3(g[0], g[1], g[2])
            &&& dims(a) == shape2(dims(a)[0], n)
            &&& g[2] == 1 || g[2] == full
            &&& e[1] >= g[1]
            &&& reach >= g[1]
            &&& match_up(e[0], f[0])
            &&& match_up(wide(e[0], f[0]), g[0])
            &&& match_up(e[1], f[1])
            &&& match_up(wide(e[1], f[1]), g[1])
            &&& driven(x, y, z) == shape4(g[0], full, reach, n)
            &&& inhabited(x) <==> inhabited(e)
            &&& g[0] > 0 && full > 0 ==> inhabited(e)
            &&& inhabited(o) ==> inhabited(e)
            &&& inhabited(o) <==> (e[0] > 0 && full > 0 && n > 0)
            &&& inhabited(driven_once(x, y)) <==> (wide(e[0], f[0]) > 0 && e[2] > 0 && n > 0)
            &&& inhabited(driven(x, y, z)) <==> (g[0] > 0 && full > 0 && n > 0)
            &&& fits(x)
            &&& fits(y)
            &&& fits(z)
            &&& fits(o)
            &&& fits(shape4(1, g[2], 1, n))
            &&& fits(driven_once(x, y))
            &&& fits(shape3(g[0], g[2], n))
            &&& fits(shape3(g[0], full, n))
            &&& fits(shape3(g[0], g[1], full))
            &&& fits(shape3(g[0], g[1], g[2]))
            &&& dims(d).len() == 0 ==> fits(shape2(1, 1))
            &&& dims(d).len() == 1 ==> fits(shape3(1, 1, dims(d)[0]))
        }),
{
    let (e, f, g) = (dims(delta), dims(b), dims(u));
    let n = dims(a)[1];
    let (full, reach) = (scan_width(u, delta), scan_reach(u, delta, b));
    let many = wide(e[0], f[0]);
    assert(e =~= shape3(e[0], e[1], e[2]));
    assert(f =~= shape3(f[0], f[1], n));
    assert(g =~= shape3(g[0], g[1], g[2]));
    assert(dims(a) =~= shape2(dims(a)[0], n));
    lemma_scan_fits(g[0], full, reach, n, e[0], e[2], e[1], 1);
    lemma_scan_fits(g[0], full, reach, n, 1, g[2], 1, n);
    lemma_scan_fits(g[0], full, reach, n, e[0], full, e[1], n);
    lemma_scan_fits(g[0], full, reach, n, f[0], 1, f[1], n);
    lemma_scan_fits(g[0], full, reach, n, many, e[2], wide(e[1], f[1]), n);
    lemma_scan_fits(g[0], full, reach, n, g[0], g[2], g[1], 1);
    lemma_scan_fits(g[0], full, reach, n, g[0], g[2], g[1], n);
    lemma_scan_fits(g[0], full, reach, n, g[0], full, g[1], n);
    lemma_scan_fits(g[0], full, reach, n, 1, 1, 1, 1);
    if dims(d).len() == 1 {
        lemma_scan_fits(g[0], full, reach, n, 1, dims(d)[0], 1, 1);
    }
    lemma_inhabited4(e[0], e[2], e[1], 1);
    lemma_inhabited4(e[0], full, e[1], n);
    lemma_inhabited4(many, e[2], wide(e[1], f[1]), n);
    lemma_inhabited4(g[0], full, reach, n);
}

/// Matrices without columns have as many elements, whatever their number of rows.
proof fn lemma_no_states(d: nat, e: nat)
    ensures
        count(shape4(1, e, 1, 0)) == count(shape2(d, 0)),
{
    broadcast use group_index;

    reveal_with_fuel(count, 5);
    assert(count(shape2(d, 0)) == count(shape1(d)) * 0);
    assert(count(shape4(1, e, 1, 0)) == count(shape3(1, e, 1)) * 0);
}

/// Shapes of four sizes can be combined where their sizes match up.
proof fn lemma_broadcasts4(s: Seq<nat>, t: Seq<nat>)
    requires
        s.len() == 4,
        t.len() == 4,
    ensures
        broadcasts(s, t) <==> (match_up(s[0], t[0]) && match_up(s[1], t[1]) && match_up(s[2], t[2])
            && match_up(s[3], t[3])),
{
    let rank = common_rank(s, t);
    assert forall|k: int| 0 <= k < 4 implies #[trigger] padded(s, rank, k) == s[k] && padded(
        t,
        rank,
        k,
    ) == t[k] by {}
    if broadcasts(s, t) {
        assert(padded(s, rank, 0) == s[0] && padded(s, rank, 1) == s[1]);
        assert(padded(s, rank, 2) == s[2] && padded(s, rank, 3) == s[3]);
    }
    if match_up(s[0], t[0]) && match_up(s[1], t[1]) && match_up(s[2], t[2]) && match_up(s[3], t[3]) {
        assert forall|k: int| 0 <= k < rank implies {
            ||| #[trigger] padded(s, rank, k) == padded(t, rank, k)
            ||| padded(s, rank, k) == 1
            ||| padded(t, rank, k) == 1
        } by {
            assert(k == 0 || k == 1 || k == 2 || k == 3);
        }
    }
}

/// Shapes of three sizes can be combined where their sizes match up.
proof fn lemma_broadcasts3(s: Seq<nat>, t: Seq<nat>)
    requires
        s.len() == 3,
        t.len() == 3,
    ensures
        broadcasts(s, t) <==> (match_up(s[0], t[0]) && match_up(s[1], t[1]) && match_up(
            s[2],
            t[2],
        )),
{
    let rank = common_rank(s, t);
    assert forall|k: int| 0 <= k < 3 implies #[trigger] padded(s, rank, k) == s[k] && padded(
        t,
        rank,
        k,
    ) == t[k] by {}
    if broadcasts(s, t) {
        assert(padded(s, rank, 0) == s[0] && padded(s, rank, 1) == s[1]);
        assert(padded(s, rank, 2) == s[2]);
    }
    if match_up(s[0], t[0]) && match_up(s[1], t[1]) && match_up(s[2], t[2]) {
        assert forall|k: int| 0 <= k < rank implies {
            ||| #[trigger] padded(s, rank, k) == padded(t, rank, k)
            ||| padded(s, rank, k) == 1
            ||| padded(t, rank, k) == 1
        } by {
            assert(k == 0 || k == 1 || k == 2);
        }
    }
}

/// From the state `h0`, the factors and the inputs of position `t` lead to `h1`, out of which `c`
/// reads `y`.
spec fn stepped(
    delta_a: Tensor,
    delta_b_u: Tensor,
    c: Tensor,
    t: int,
    h0: Tensor,
    h1: Tensor,
    y: Tensor,
) -> bool {
    let dt = dtype_of(delta_a);
    let (e, g) = (dims(delta_a), dims(delta_b_u));
    &&& dims(h1) == shape3(g[0], g[1], g[3])
    &&& same_kind(h1, delta_a)
    &&& dims(y) == shape2(g[0], g[1])
    &&& same_kind(y, delta_a)
    &&& forall|i: int, d: int, n: int|
        within(ix3(i, d, n), dims(h1)) ==> follows(
            dt,
            at(delta_a, ix4(pinned(i, e[0]), d, t, n)),
            at(h0, ix3(i, pinned(d, dims(h0)[1]), n)),
            at(delta_b_u, ix4(i, d, t, n)),
            #[trigger] at(h1, ix3(i, d, n)),
        )
    &&& forall|i: int, d: int|
        within(ix2(i, d), dims(y)) ==> dot_gives(
            dt,
            row(h1, ix2(i, d)),
            Seq::new(g[3], |j: int| at(c, ix3(i, t, j))),
            #[trigger] at(y, ix2(i, d)),
        )
}

/// One step of the scan.
fn scan_step(delta_a: &Tensor, delta_b_u: &Tensor, c: &Tensor, h: &Tensor, t: usize) -> (r: Result<
    (Tensor, Tensor),
    MambaError,
>)
    requires
        dims(*delta_a).len() == 4,
        dims(*delta_b_u).len() == 4,
        t < dims(*delta_a)[2],
        t < dims(*delta_b_u)[2],
        dims(*delta_a)[0] == 1 || dims(*delta_a)[0] == dims(*delta_b_u)[0],
        dims(*delta_a)[1] == dims(*delta_b_u)[1],
        dims(*delta_a)[3] == dims(*delta_b_u)[3],
        same_kind(*delta_b_u, *delta_a),
        dims(*c).len() == 3,
        t < dims(*c)[1],
        inhabited(dims(*delta_b_u)) ==> dims(*c)[0] == dims(*delta_b_u)[0] && dims(*c)[2] == dims(
            *delta_b_u,
        )[3],
        dims(*h).len() == 3,
        dims(*h)[0] == dims(*delta_b_u)[0],
        dims(*h)[1] == 1 || dims(*h)[1] == dims(*delta_b_u)[1],
        dims(*h)[2] == dims(*delta_b_u)[3],
        same_kind(*h, *delta_a),
        is_storable(dtype_of(*delta_a)),
        is_integer(dtype_of(*delta_a)) ==> !inhabited(dims(*delta_a)),
        fits(dims(*delta_b_u)),
        fits(dims(*c)),
    ensures
        on_cpu(*delta_a) && on_cpu(*c) && (inhabited(dims(*delta_b_u)) ==> dtype_of(*c) == dtype_of(
            *delta_a,
        ) && is_matrix_float(dtype_of(*delta_a))) ==> r is Ok,
        r matches Ok((h1, y)) ==> {
            &&& inhabited(dims(*delta_b_u)) ==> dtype_of(*c) == dtype_of(*delta_a)
                && is_matrix_float(dtype_of(*delta_a))
            &&& stepped(*delta_a, *delta_b_u, *c, t as int, *h, h1, y)
        },
{
    let ghost (e, g) = (dims(*delta_a), dims(*delta_b_u));
    let ghost (b_sz, full, reach, n) = (g[0], g[1], g[2], g[3]);
    let ghost dt = dtype_of(*delta_a);
    proof {
        assert(e =~= shape4(e[0], full, e[2], n));
        assert(g =~= shape4(b_sz, full, reach, n));
        assert(dims(*h) =~= shape3(b_sz, dims(*h)[1], n));
        assert(dims(*c) =~= shape3(dims(*c)[0], dims(*c)[1], dims(*c)[2]));
        lemma_inhabited4(b_sz, full, reach, n);
        lemma_inhabited4(e[0], full, e[2], n);
        lemma_scan_fits(b_sz, full, reach, n, b_sz, full, 1, n);
        lemma_scan_fits(b_sz, full, reach, n, e[0], full, 1, n);
        lemma_scan_fits(b_sz, full, reach, n, b_sz, dims(*h)[1], 1, n);
        lemma_fits_update(dims(*c), 1, 1);
        lemma_volume(dims(*c)[0], 1, dims(*c)[2], 1);
        lemma_volume(dims(*c)[0], dims(*c)[2], 1, 1);
        let (v, w) = (at_least_one(dims(*c)[0]), at_least_one(dims(*c)[2]));
        assert(v * 1 * w == v * w * 1) by (nonlinear_arith);
    }
    let delta_a_t = select(delta_a, 2, t)?;
    let delta_b_u_t = select(delta_b_u, 2, t)?;
    proof {
        lemma_broadcasts3(dims(delta_a_t), dims(*h));
    }
    let kept = broadcast_times(&delta_a_t, h)?;
    let h1 = plus(&kept, &delta_b_u_t)?;
    proof {
        assert forall|i: int, d: int, m: int| within(ix3(i, d, m), dims(h1)) implies follows(
            dt,
            at(*delta_a, ix4(pinned(i, e[0]), d, t as int, m)),
            at(*h, ix3(i, pinned(d, dims(*h)[1]), m)),
            at(*delta_b_u, ix4(i, d, t as int, m)),
            #[trigger] at(h1, ix3(i, d, m)),
        ) by {
            let (k, l) = (pinned(i, e[0]), pinned(d, dims(*h)[1]));
            assert(at(delta_a_t, ix3(k, d, m)) == at(*delta_a, ix4(k, d, t as int, m)));
            assert(at(delta_b_u_t, ix3(i, d, m)) == at(*delta_b_u, ix4(i, d, t as int, m)));
            let p = at(kept, ix3(i, d, m));
            assert(within(ix3(i, d, m), dims(kept)));
            assert(mul_gives(dt, at(*delta_a, ix4(k, d, t as int, m)), at(*h, ix3(i, l, m)), p));
        }
    }
    let c_row = select(c, 1, t)?;
    let c_t = unsqueeze(&c_row, 2)?;
    let read = matmul(&h1, &c_t)?;
    let y = squeeze(&read, 2)?;
    proof {
        assert forall|i: int, d: int| within(ix2(i, d), dims(y)) implies dot_gives(
            dt,
            row(h1, ix2(i, d)),
            Seq::new(n, |j: int| at(*c, ix3(i, t as int, j))),
            #[trigger] at(y, ix2(i, d)),
        ) by {
            lemma_within2(i, d, b_sz, full);
            assert(at(y, ix2(i, d)) == at(read, ix3(i, d, 0)));
            assert(within(ix3(i, d, 0), dims(read)));
            let (x, z) = (column(c_t, i, 0, n), Seq::new(n, |j: int| at(*c, ix3(i, t as int, j))));
            assert forall|j: int| 0 <= j < n implies x[j] == z[j] by {
                lemma_within2(i, j, dims(*c)[0], dims(*c)[2]);
                assert(at(c_t, ix3(i, j, 0)) == at(c_row, ix2(i, j)));
                assert(at(c_row, ix2(i, j)) == at(*c, ix3(i, t as int, j)));
            }
            assert(x =~= z);
        }
    }
    Ok((h1, y))
}

/// `within` for two sizes, written out.
proof fn lemma_within2(i: int, j: int, a: nat, b: nat)
    ensures
        within(ix2(i, j), shape2(a, b)) <==> (0 <= i < a && 0 <= j < b),
{
    let (s, t) = (ix2(i, j), shape2(a, b));
    if within(s, t) {
        assert(0 <= s[0] < t[0] && 0 <= s[1] < t[1]);
    }
}

/// `inhabited` for four sizes, written out.
proof fn lemma_inhabited4(a: nat, b: nat, c: nat, d: nat)
    ensures
        inhabited(shape4(a, b, c, d)) <==> (a > 0 && b > 0 && c > 0 && d > 0),
{
    let t = shape4(a, b, c, d);
    if inhabited(t) {
        assert(t[0] > 0 && t[1] > 0 && t[2] > 0 && t[3] > 0);
    }
}

/// The rates of `rows` channels, of which one may stand for all.
pub open spec fn spread_matrix(t: Tensor, rows: nat, columns: nat) -> Matrix {
    Seq::new(
        rows,
        |i: int| Seq::new(columns, |j: int| at(t, source(ix2(i, j), dims(t)))),
    )
}

/// A number for each of `n` channels, of which one may stand for all.
pub open spec fn spread_vector(t: Tensor, n: nat) -> Seq<u64> {
    Seq::new(n, |i: int| at(t, source(ix1(i), dims(t))))
}

/// What a step of the scan does to item `i` of the batch is a step of the state space model.
proof fn lemma_step(
    u: Tensor,
    delta: Tensor,
    a: Tensor,
    b: Tensor,
    c: Tensor,
    d: Tensor,
    da: Tensor,
    dbu: Tensor,
    h0: Tensor,
    h1: Tensor,
    y: Tensor,
    out: Tensor,
    i: int,
    t: int,
)
    requires
        scan_shaped(u, delta, a, b, c, d),
        0 <= i < dims(u)[0],
        0 <= t < dims(u)[1],
        dims(out) == shape3(dims(u)[0], dims(u)[1], scan_width(u, delta)),
        dims(h0).len() == 3,
        dims(h0)[0] == dims(u)[0],
        dims(h0)[2] == dims(a)[1],
        dims(h0)[1] == 1 || dims(h0)[1] == scan_width(u, delta),
        discretised(u, delta, a, b, da, dbu),
        stepped(da, dbu, c, t, h0, h1, y),
        forall|e: int|
            0 <= e < scan_width(u, delta) ==> skips(
                dtype_of(delta),
                at(y, ix2(i, e)),
                at(u, ix3(i, t, pinned(e, dims(u)[2]))),
                at(d, source(ix1(e), dims(d))),
                #[trigger] at(out, ix3(i, t, e)),
            ),
    ensures
        ssm_step(
            dtype_of(delta),
            spread_matrix(a, scan_width(u, delta), dims(a)[1]),
            spread_vector(d, scan_width(u, delta)),
            stretched(delta, i, dims(u)[1], scan_width(u, delta))[t],
            stretched(b, i, dims(u)[1], dims(a)[1])[t],
            stretched(c, i, dims(u)[1], dims(a)[1])[t],
            stretched(u, i, dims(u)[1], scan_width(u, delta))[t],
            stretched(h0, i, scan_width(u, delta), dims(a)[1]),
            slice(h1, i),
            slice(out, i)[t],
        ),
{
    let dt = dtype_of(delta);
    let (len, n, full) = (dims(u)[1], dims(a)[1], scan_width(u, delta));
    let (f, g, k, o) = (dims(delta), dims(b), dims(u), dims(c));
    assert(f =~= shape3(f[0], f[1], f[2]));
    assert(g =~= shape3(g[0], g[1], g[2]));
    assert(k =~= shape3(k[0], k[1], k[2]));
    assert(o =~= shape3(o[0], o[1], o[2]));
    assert(dims(a) =~= shape2(dims(a)[0], n));
    assert(dims(h0) =~= shape3(dims(h0)[0], dims(h0)[1], dims(h0)[2]));
    let rates = spread_matrix(a, full, n);
    let xs = stretched(u, i, len, full)[t];
    let ds = stretched(delta, i, len, full)[t];
    let bs = stretched(b, i, len, n)[t];
    let cs = stretched(c, i, len, n)[t];
    let hs = stretched(h0, i, full, n);
    let ys = slice(out, i)[t];
    assert forall|e: int, m: int| 0 <= e < full && 0 <= m < n implies advances(
        dt,
        ds[e],
        rates[e][m],
        bs[m],
        xs[e],
        hs[e][m],
        #[trigger] slice(h1, i)[e][m],
    ) by {
        let p = pinned(i, f[0]);
        let q = at(da, ix4(p, e, t, m));
        let s = at(dbu, ix4(i, e, t, m));
        assert(within(ix4(p, e, t, m), dims(da)));
        assert(within(ix4(i, e, t, m), dims(dbu)));
        assert(within(ix3(i, e, m), dims(h1)));
        assert(ds[e] == at(delta, ix3(p, pinned(t, f[1]), pinned(e, f[2]))));
        assert(rates[e][m] == at(a, ix2(pinned(e, k[2]), m)));
        assert(bs[m] == at(b, ix3(pinned(i, g[0]), pinned(t, g[1]), m)));
        assert(xs[e] == at(u, ix3(pinned(i, k[0]), pinned(t, k[1]), pinned(e, k[2]))));
        assert(decays(dt, ds[e], rates[e][m], q));
        assert(drives(dt, ds[e], bs[m], xs[e], s));
        assert(slice(h1, i)[e][m] == at(h1, ix3(i, e, m)));
        assert(hs[e][m] == at(h0, ix3(i, pinned(e, dims(h0)[1]), m)));
        assert(follows(dt, q, hs[e][m], s, at(h1, ix3(i, e, m))));
    }
    assert forall|e: int| 0 <= e < full implies reads_out(
        dt,
        slice(h1, i)[e],
        cs,
        xs[e],
        spread_vector(d, full)[e],
        #[trigger] ys[e],
    ) by {
        lemma_within2(i, e, k[0], full);
        assert(within(ix2(i, e), dims(y)));
        let column = Seq::new(n, |j: int| at(c, ix3(i, t, j)));
        assert(cs =~= column);
        assert(row(h1, ix2(i, e)) =~= slice(h1, i)[e]);
        assert(dot_gives(dt, slice(h1, i)[e], column, at(y, ix2(i, e))));
        assert(ys[e] == at(out, ix3(i, t, e)));
        assert(xs[e] == at(u, ix3(i, t, pinned(e, k[2]))));
    }
}

/// Whether the tensors of a scan have shapes that belong together, and the sequence has a position.
fn belong_together(
    u: &Tensor,
    delta: &Tensor,
    a: &Tensor,
    b: &Tensor,
    c: &Tensor,
    d: &Tensor,
) -> (r: bool)
    ensures
        r <==> scan_shaped(*u, *delta, *a, *b, *c, *d),
{
    let (s, e, t) = (sizes(u), sizes(delta), sizes(a));
    let (f, g, k) = (sizes(b), sizes(c), sizes(d));
    if s.len() != 3 || e.len() != 3 || t.len() != 2 || f.len() != 3 || g.len() != 3 || k.len() > 1 {
        return false;
    }
    let (items, len, width, n) = (s[0], s[1], s[2], t[1]);
    proof {
        assert(shape_of(s@)[0] == items && shape_of(s@)[1] == len && shape_of(s@)[2] == width);
        assert(shape_of(e@)[0] == e[0] && shape_of(e@)[1] == e[1] && shape_of(e@)[2] == e[2]);
        assert(shape_of(t@)[0] == t[0] && shape_of(t@)[1] == n);
        assert(shape_of(f@)[0] == f[0] && shape_of(f@)[1] == f[1] && shape_of(f@)[2] == f[2]);
        assert(shape_of(g@)[0] == g[0] && shape_of(g@)[1] == g[1] && shape_of(g@)[2] == g[2]);
        assert(k@.len() == 1 ==> shape_of(k@)[0] == k@[0]);
    }
    let full: usize = if e[2] == 1 {
        width
    } else {
        e[2]
    };
    let steps_fit = (e[0] == 1 || e[0] == items) && (e[1] == len || (len == 1 && e[1] > 0)) && (e[2]
        == width || e[2] == 1 || width == 1);
    let rates_fit = n == 0 || t[0] == width;
    let inputs_fit = (f[0] == 1 || f[0] == items) && f[1] > 0 && f[2] == n && (if len == 1 {
        e[1] == f[1] || e[1] == 1 || f[1] == 1
    } else {
        f[1] == 1 || f[1] == len
    });
    let outputs_fit = g[1] >= len && (items == 0 || full == 0 || n == 0 || (g[0] == items && g[2]
        == n));
    let skip_fits = if k.len() == 0 {
        width == full
    } else if width == 1 {
        k[0] == full
    } else {
        (k[0] == width || k[0] == 1) && width == full
    };
    len > 0 && steps_fit && rates_fit && inputs_fit && outputs_fit && skip_fits
}

/// Whether `selective_scan` can be called with these tensors.
pub fn takes_scan(u: &Tensor, delta: &Tensor, a: &Tensor, b: &Tensor, c: &Tensor, d: &Tensor) -> (r:
    bool)
    ensures
        r <==> scan_room(*u, *delta, *a, *b, *c, *d),
{
    let (s, e, t, f) = (sizes(u), sizes(delta), sizes(a), sizes(b));
    if s.len() != 3 || t.len() < 2 {
        return true;
    }
    proof {
        assert(shape_of(s@)[0] == s[0] && shape_of(s@)[1] == s[1] && shape_of(s@)[2] == s[2]);
        assert(shape_of(t@)[0] == t[0] && shape_of(t@)[1] == t[1]);
    }
    if s[1] == 0 {
        return true;
    }
    if t.len() > 2 || e.len() > 3 || f.len() > 3 || (is_integer_type(dtype(delta)) && has_elements(
        delta,
    )) {
        return false;
    }
    if !belong_together(u, delta, a, b, c, d) {
        return true;
    }
    proof {
        assert(shape_of(e@)[0] == e[0] && shape_of(e@)[1] == e[1] && shape_of(e@)[2] == e[2]);
        assert(shape_of(f@)[0] == f[0] && shape_of(f@)[1] == f[1] && shape_of(f@)[2] == f[2]);
    }
    let full: usize = if e[2] == 1 {
        s[2]
    } else {
        e[2]
    };
    let both: usize = if e[1] == 1 {
        f[1]
    } else {
        e[1]
    };
    let reach: usize = if both == 1 {
        s[1]
    } else {
        both
    };
    let shape = vec![s[0], full, reach, t[1]];
    proof {
        assert(shape_of(shape@) =~= shape4(
            dims(*u)[0],
            scan_width(*u, *delta),
            scan_reach(*u, *delta, *b),
            dims(*a)[1],
        ));
    }
    fits_in_memory(&shape) && fits_itself(a) && fits_itself(c) && (t[1] > 0 || is_float_type(dtype(u))
        || !has_elements(u))
}

/// Performs selective scan over a full sequence.
///
/// Implements the discretized SSM:
/// ```text
/// h_t = exp(delta_t * A) * h_{t-1} + delta_t * B_t * x_t
/// y_t = C_t * h_t + D * x_t
/// ```
///
/// # Arguments
/// * `u` - Input tensor: (batch, seq_len, d_inner)
/// * `delta` - Time step: (batch, seq_len, d_inner)
/// * `a` - State matrix A: (d_inner, d_state)
/// * `b` - Input projection B: (batch, seq_len, d_state)
/// * `c` - Output projection C: (batch, seq_len, d_state)
/// * `d` - Skip connection D: (d_inner,)
///
/// # Returns
/// * Output: (batch, seq_len, d_inner)
/// * Final hidden state: (batch, d_inner, d_state)
///
/// What is given once for several items, positions or channels is stretched. Tensors of other shapes
/// are an error, and so is an empty sequence.
pub fn selective_scan(
    u: &Tensor,
    delta: &Tensor,
    a: &Tensor,
    b: &Tensor,
    c: &Tensor,
    d: &Tensor,
) -> (r: Result<(Tensor, Tensor), MambaError>)
    requires
        scan_room(*u, *delta, *a, *b, *c, *d),
    ensures
        on_cpu(*u) && on_cpu(*delta) && on_cpu(*a) && on_cpu(*b) && on_cpu(*c) && on_cpu(*d)
            && scan_shaped(*u, *delta, *a, *b, *c, *d) && scan_typed(*u, *delta, *a, *b, *c, *d)
            ==> r is Ok,
        r matches Ok((out, h)) ==> {
            let (items, len, n) = (dims(*u)[0], dims(*u)[1], dims(*a)[1]);
            let full = scan_width(*u, *delta);
            &&& scan_shaped(*u, *delta, *a, *b, *c, *d)
            &&& scan_typed(*u, *delta, *a, *b, *c, *d)
            &&& dims(out) == shape3(items, len, full)
            &&& same_kind(out, *delta)
            &&& dims(h) == shape3(items, full, n)
            &&& same_kind(h, *delta)
            &&& forall|i: int|
                #![trigger slice(out, i)]
                #![trigger slice(h, i)]
                0 <= i < items ==> ssm_scan(
                    dtype_of(*delta),
                    spread_matrix(*a, full, n),
                    spread_vector(*d, full),
                    stretched(*delta, i, len, full),
                    stretched(*b, i, len, n),
                    stretched(*c, i, len, n),
                    stretched(*u, i, len, full),
                    zeros(full, n),
                    slice(h, i),
                    slice(out, i),
                )
        },
{
    let (b_sz, seq_len, d_in) = dims3(u)?;
    let n = dim(a, 1)?;
    if !belong_together(u, delta, a, b, c, d) {
        return Err(MambaError::Shape);
    }
    let ghost (items, len, width, m) = (b_sz as nat, seq_len as nat, d_in as nat, n as nat);
    let ghost full = scan_width(*u, *delta);
    let ghost reach = scan_reach(*u, *delta, *b);
    let ghost dt = dtype_of(*delta);
    let channels = dim(delta, 2)?;
    let channels: usize = if channels == 1 {
        d_in
    } else {
        channels
    };
    proof {
        assert(channels == full);
        lemma_scan_sizes(*u, *delta, *a, *b, *c, *d);
    }
    let mut h = zeros3((b_sz, d_in, n), dtype(delta), device(delta))?;
    let (delta_a, delta_b_u) = discretise(u, delta, a, b, Ghost(*c), Ghost(*d))?;
    let ghost mut hs: Seq<Tensor> = Seq::empty().push(h);
    let mut ys: Vec<Tensor> = Vec::new();
    for t in 0..seq_len
        invariant
            scan_shaped(*u, *delta, *a, *b, *c, *d),
            len == seq_len,
            len == dims(*u)[1],
            items == dims(*u)[0],
            width == dims(*u)[2],
            m == dims(*a)[1],
            full == scan_width(*u, *delta),
            reach == scan_reach(*u, *delta, *b),
            dt == dtype_of(*delta),
            is_storable(dt),
            is_integer(dt) ==> !inhabited(dims(*delta)),
            dims(*delta) == shape3(dims(*delta)[0], dims(*delta)[1], dims(*delta)[2]),
            dims(delta_a) == shape4(dims(*delta)[0], full, dims(*delta)[1], m),
            dims(delta_b_u) == shape4(items, full, reach, m),
            inhabited(dims(delta_b_u)) <==> (items > 0 && full > 0 && m > 0),
            width == 1 || width == full,
            reach >= len,
            inhabited(dims(delta_a)) ==> inhabited(dims(*delta)),
            same_kind(delta_a, *delta),
            same_kind(delta_b_u, *delta),
            fits(dims(delta_b_u)),
            fits(dims(*c)),
            t > 0 && items > 0 && full > 0 && m > 0 ==> dtype_of(*c) == dt && is_matrix_float(dt),
            hs.len() == t + 1,
            h == hs[t as int],
            ys@.len() == t,
            dims(hs[0]) == shape3(items, width, m),
            forall|s: int| 0 < s <= t ==> dims(#[trigger] hs[s]) == shape3(items, full, m),
            same_kind(h, *delta),
            forall|i: int, d: int, k: int|
                within(ix3(i, d, k), dims(hs[0])) ==> #[trigger] at(hs[0], ix3(i, d, k)) == 0,
            forall|s: int|
                #![trigger ys@[s]]
                0 <= s < t ==> {
                    &&& dims(ys@[s]) == shape2(items, full)
                    &&& same_kind(ys@[s], *delta)
                    &&& stepped(delta_a, delta_b_u, *c, s, hs[s], hs[s + 1], ys@[s])
                },
    {
        let (h_t, y_t) = scan_step(&delta_a, &delta_b_u, c, &h, t)?;
        h = h_t;
        ys.push(y_t);
        proof {
            hs = hs.push(h);
        }
    }
    let y = if b_sz == 0 || channels == 0 {
        zeros3((b_sz, seq_len, channels), dtype(delta), device(delta))?
    } else {
        stack(&ys, 1)?
    };
    let out = add_skip(&y, u, d)?;
    proof {
        assert forall|i: int, t: int, e: int| within(ix3(i, t, e), dims(out)) implies at(
            y,
            ix3(i, t, e),
        ) == #[trigger] at(ys@[t], ix2(i, e)) by {}
        assert forall|i: int|
            #![trigger slice(out, i)]
            #![trigger slice(h, i)]
            0 <= i < items implies ssm_scan(
            dt,
            spread_matrix(*a, full, m),
            spread_vector(*d, full),
            stretched(*delta, i, len, full),
            stretched(*b, i, len, m),
            stretched(*c, i, len, m),
            stretched(*u, i, len, full),
            zeros(full, m),
            slice(h, i),
            slice(out, i),
        ) by {
            lemma_scan(*u, *delta, *a, *b, *c, *d, delta_a, delta_b_u, hs, ys@, out, i);
        }
    }
    Ok((out, h))
}

/// The steps of a scan are a scan of the state space model, for item `i` of the batch.
proof fn lemma_scan(
    u: Tensor,
    delta: Tensor,
    a: Tensor,
    b: Tensor,
    c: Tensor,
    d: Tensor,
    da: Tensor,
    dbu: Tensor,
    hs: Seq<Tensor>,
    ys: Seq<Tensor>,
    out: Tensor,
    i: int,
)
    requires
        scan_shaped(u, delta, a, b, c, d),
        0 <= i < dims(u)[0],
        discretised(u, delta, a, b, da, dbu),
        hs.len() == dims(u)[1] + 1,
        ys.len() == dims(u)[1],
        dims(hs[0]) == shape3(dims(u)[0], dims(u)[2], dims(a)[1]),
        forall|j: int, e: int, k: int|
            within(ix3(j, e, k), dims(hs[0])) ==> #[trigger] at(hs[0], ix3(j, e, k)) == 0,
        forall|s: int|
            0 < s < hs.len() ==> dims(#[trigger] hs[s]) == shape3(
                dims(u)[0],
                scan_width(u, delta),
                dims(a)[1],
            ),
        forall|t: int|
            #![trigger ys[t]]
            0 <= t < ys.len() ==> stepped(da, dbu, c, t, hs[t], hs[t + 1], ys[t]),
        dims(out) == shape3(dims(u)[0], dims(u)[1], scan_width(u, delta)),
        forall|j: int, t: int, e: int|
            within(ix3(j, t, e), dims(out)) ==> skips(
                dtype_of(delta),
                at(ys[t], ix2(j, e)),
                at(u, ix3(j, t, pinned(e, dims(u)[2]))),
                at(d, source(ix1(e), dims(d))),
                #[trigger] at(out, ix3(j, t, e)),
            ),
    ensures
        ssm_scan(
            dtype_of(delta),
            spread_matrix(a, scan_width(u, delta), dims(a)[1]),
            spread_vector(d, scan_width(u, delta)),
            stretched(delta, i, dims(u)[1], scan_width(u, delta)),
            stretched(b, i, dims(u)[1], dims(a)[1]),
            stretched(c, i, dims(u)[1], dims(a)[1]),
            stretched(u, i, dims(u)[1], scan_width(u, delta)),
            zeros(scan_width(u, delta), dims(a)[1]),
            slice(hs.last(), i),
            slice(out, i),
        ),
{
    let dt = dtype_of(delta);
    let (items, len, width, m) = (dims(u)[0], dims(u)[1], dims(u)[2], dims(a)[1]);
    let full = scan_width(u, delta);
    let trace = Seq::new(hs.len(), |s: int| stretched(hs[s], i, full, m));
    assert forall|t: int| #![trigger slice(out, i)[t]] 0 <= t < len implies ssm_step(
        dt,
        spread_matrix(a, full, m),
        spread_vector(d, full),
        stretched(delta, i, len, full)[t],
        stretched(b, i, len, m)[t],
        stretched(c, i, len, m)[t],
        stretched(u, i, len, full)[t],
        trace[t],
        trace[t + 1],
        slice(out, i)[t],
    ) by {
        let y = ys[t];
        assert(dims(hs[t + 1]) == shape3(items, full, m));
        assert(t > 0 ==> dims(hs[t]) == shape3(items, full, m));
        lemma_step(u, delta, a, b, c, d, da, dbu, hs[t], hs[t + 1], y, out, i, t);
        lemma_stretched(hs[t + 1], i, items, full, m);
    }
    assert(trace.first() =~~= zeros(full, m)) by {
        assert forall|e: int, k: int| 0 <= e < full && 0 <= k < m implies
            #[trigger] trace.first()[e][k] == 0 by {
            let j = ix3(i, pinned(e, width), k);
            assert(within(j, dims(hs[0])));
            assert(at(hs[0], j) == 0);
            assert(source(ix3(i, e, k), dims(hs[0])) == j);
        }
    }
    assert(dims(hs[len as int]) == shape3(items, full, m));
    lemma_stretched(hs[len as int], i, items, full, m);
    assert(ssm_trace(
        dt,
        spread_matrix(a, full, m),
        spread_vector(d, full),
        stretched(delta, i, len, full),
        stretched(b, i, len, m),
        stretched(c, i, len, m),
        stretched(u, i, len, full),
        trace,
        slice(out, i),
    ));
}

/// What is read out of the states, with the inputs added by way of the skip connection.
fn add_skip(y: &Tensor, u: &Tensor, d: &Tensor) -> (r: Result<Tensor, MambaError>)
    requires
        dims(*u).len() == 3,
        dims(*d).len() <= 1,
        dims(*d).len() == 1 ==> match_up(dims(*u)[2], dims(*d)[0]),
        dims(*y) == skipped_shape(*u, *d),
        fits(dims(*y)),
        fits(dims(*u)),
        dims(*d).len() == 0 ==> fits(shape2(1, 1)),
        dims(*d).len() == 1 ==> fits(shape3(1, 1, dims(*d)[0])),
        numeric(*y),
        inhabited(dims(*y)) ==> numeric(*u),
    ensures
        on_cpu(*y) && on_cpu(*u) && on_cpu(*d) && (inhabited(dims(*y)) ==> dtype_of(*u) == dtype_of(
            *y,
        ) && dtype_of(*d) == dtype_of(*y)) ==> r is Ok,
        r matches Ok(o) ==> {
            &&& inhabited(dims(*y)) ==> dtype_of(*u) == dtype_of(*y) && dtype_of(*d) == dtype_of(*y)
            &&& dims(o) == dims(*y)
            &&& same_kind(o, *y)
            &&& forall|i: int, t: int, e: int|
                within(ix3(i, t, e), dims(o)) ==> skips(
                    dtype_of(*y),
                    at(*y, ix3(i, t, e)),
                    at(*u, ix3(i, t, pinned(e, dims(*u)[2]))),
                    at(*d, source(ix1(e), dims(*d))),
                    #[trigger] at(o, ix3(i, t, e)),
                )
        },
{
    let d_row = unsqueeze(d, 0)?;
    let d_expanded = unsqueeze(&d_row, 0)?;
    let ghost width = dims(*u)[2];
    proof {
        assert(dims(*u) =~= shape3(dims(*u)[0], dims(*u)[1], width));
        lemma_skip(*u, *d, d_row, d_expanded);
    }
    let skipped = broadcast_times(u, &d_expanded)?;
    let o = plus(y, &skipped)?;
    proof {
        assert forall|i: int, t: int, e: int| within(ix3(i, t, e), dims(o)) implies skips(
            dtype_of(*y),
            at(*y, ix3(i, t, e)),
            at(*u, ix3(i, t, pinned(e, width))),
            at(*d, source(ix1(e), dims(*d))),
            #[trigger] at(o, ix3(i, t, e)),
        ) by {
            let p = at(skipped, ix3(i, t, e));
            assert(within(ix3(i, t, e), dims(skipped)));
            assert(inhabited(dims(o))) by {
                lemma_within_inhabited(ix3(i, t, e), dims(o));
            }
            assert(source(ix3(i, t, e), dims(*u)) == ix3(i, t, pinned(e, width)));
            let j = source(ix3(i, t, e), dims(d_expanded));
            assert(at(d_expanded, j) == at(*d, source(ix1(e), dims(*d))));
            assert(mul_gives(
                dtype_of(*y),
                at(*u, ix3(i, t, pinned(e, width))),
                at(*d, source(ix1(e), dims(*d))),
                p,
            ));
        }
    }
    Ok(o)
}

/// The shape of the inputs `u` after each channel has been multiplied by its number of `d`.
spec fn skipped_shape(u: Tensor, d: Tensor) -> Seq<nat> {
    shape3(
        dims(u)[0],
        dims(u)[1],
        if dims(d).len() == 0 {
            dims(u)[2]
        } else {
            wide(dims(u)[2], dims(d)[0])
        },
    )
}

/// The skip connection of a scan, which is a number for each channel or one for all, is combined with
/// its inputs channel by channel.
proof fn lemma_skip(u: Tensor, d: Tensor, d_row: Tensor, d_expanded: Tensor)
    requires
        dims(u).len() == 3,
        dims(d).len() <= 1,
        dims(d).len() == 1 ==> match_up(dims(u)[2], dims(d)[0]),
        dims(d_row) == dims(d).insert(0, 1),
        dims(d_expanded) == dims(d_row).insert(0, 1),
        forall|i: Seq<int>| within(i, dims(d_row)) ==> #[trigger] at(d_row, i) == at(d, i.remove(0)),
        forall|i: Seq<int>|
            within(i, dims(d_expanded)) ==> #[trigger] at(d_expanded, i) == at(d_row, i.remove(0)),
    ensures
        broadcasts(dims(u), dims(d_expanded)),
        broadcast(dims(u), dims(d_expanded)) == skipped_shape(u, d),
        forall|i: int, t: int, e: int|
            #![trigger source(ix3(i, t, e), dims(d_expanded))]
            0 <= e && (dims(d).len() == 1 ==> e < dims(d)[0] || dims(d)[0] == 1) ==> at(
                d_expanded,
                source(ix3(i, t, e), dims(d_expanded)),
            ) == at(d, source(ix1(e), dims(d))),
        dims(d_expanded) == if dims(d).len() == 0 {
            shape2(1, 1)
        } else {
            shape3(1, 1, dims(d)[0])
        },
{
    let s = dims(u);
    assert(s =~= shape3(s[0], s[1], s[2]));
    if dims(d).len() == 0 {
        assert(dims(d) =~= Seq::<nat>::empty());
        assert(dims(d_row) =~= shape1(1));
        assert(dims(d_expanded) =~= shape2(1, 1));
        let t = dims(d_expanded);
        assert(broadcast(s, t) =~= shape3(s[0], s[1], s[2]));
        assert forall|i: int, k: int, e: int|
            #![trigger source(ix3(i, k, e), t)]
            0 <= e implies at(d_expanded, source(ix3(i, k, e), t)) == at(
            d,
            source(ix1(e), dims(d)),
        ) by {
            assert(source(ix3(i, k, e), t) =~= ix2(0, 0));
            lemma_within2(0, 0, 1, 1);
            assert(at(d_expanded, ix2(0, 0)) == at(d_row, ix1(0)));
            assert(within(ix1(0), dims(d_row)));
            assert(ix1(0).remove(0) =~= Seq::<int>::empty());
            assert(source(ix1(e), dims(d)) =~= Seq::<int>::empty());
        }
    } else {
        let n = dims(d)[0];
        assert(dims(d) =~= shape1(n));
        assert(dims(d_row) =~= shape2(1, n));
        assert(dims(d_expanded) =~= shape3(1, 1, n));
        let t = dims(d_expanded);
        lemma_broadcasts3(s, t);
        assert forall|i: int, k: int, e: int|
            #![trigger source(ix3(i, k, e), t)]
            0 <= e && (e < n || n == 1) implies at(d_expanded, source(ix3(i, k, e), t)) == at(
            d,
            source(ix1(e), dims(d)),
        ) by {
            let p = pinned(e, n);
            assert(source(ix3(i, k, e), t) == ix3(0, 0, p));
            assert(at(d_expanded, ix3(0, 0, p)) == at(d_row, ix2(0, p)));
            lemma_within2(0, p, 1, n);
            assert(at(d_row, ix2(0, p)) == at(d, ix1(p)));
            assert(source(ix1(e), dims(d)) =~= ix1(p));
        }
    }
}

/// Of tensors that have the shapes that the arguments of a scan are described by, nothing is
/// stretched.
pub proof fn law_plain_scan(u: Tensor, delta: Tensor, a: Tensor, b: Tensor, c: Tensor, d: Tensor)
    requires
        scan_plain(u, delta, a, b, c, d),
    ensures
        scan_shaped(u, delta, a, b, c, d),
        scan_width(u, delta) == dims(u)[2],
        scan_reach(u, delta, b) == dims(u)[1],
        spread_matrix(a, dims(u)[2], dims(a)[1]) == matrix(a),
        spread_vector(d, dims(u)[2]) == vector(d),
        forall|i: int|
            #![trigger slice(delta, i)]
            #![trigger slice(u, i)]
            #![trigger slice(b, i)]
            #![trigger slice(c, i)]
            0 <= i < dims(u)[0] ==> {
                &&& stretched(delta, i, dims(u)[1], dims(u)[2]) == slice(delta, i)
                &&& stretched(u, i, dims(u)[1], dims(u)[2]) == slice(u, i)
                &&& stretched(b, i, dims(u)[1], dims(a)[1]) == slice(b, i)
                &&& stretched(c, i, dims(u)[1], dims(a)[1]) == slice(c, i)
            },
{
    let (items, len, width, n) = (dims(u)[0], dims(u)[1], dims(u)[2], dims(a)[1]);
    assert(dims(u) =~= shape3(items, len, width));
    assert(dims(a) =~= shape2(width, n));
    assert(spread_matrix(a, width, n) =~~= matrix(a));
    assert forall|e: int| 0 <= e < width implies #[trigger] spread_vector(d, width)[e] == vector(
        d,
    )[e] by {
        assert(source(ix1(e), dims(d)) =~= ix1(e));
        assert(Seq::<int>::empty().push(e) =~= ix1(e));
    }
    assert(spread_vector(d, width) =~= vector(d));
    assert forall|i: int|
        #![trigger slice(delta, i)]
        #![trigger slice(u, i)]
        #![trigger slice(b, i)]
        #![trigger slice(c, i)]
        0 <= i < items implies {
        &&& stretched(delta, i, len, width) == slice(delta, i)
        &&& stretched(u, i, len, width) == slice(u, i)
        &&& stretched(b, i, len, n) == slice(b, i)
        &&& stretched(c, i, len, n) == slice(c, i)
    } by {
        lemma_stretched(delta, i, items, len, width);
        lemma_stretched(u, i, items, len, width);
        lemma_stretched(b, i, items, len, n);
        lemma_stretched(c, i, items, len, n);
    }
}

/// One step of the state space model for every item of a batch.
///
/// # Arguments
/// * `x` - Input tensor: (batch, d_inner)
/// * `delta` - Time step: (batch, d_inner)
/// * `a` - State matrix A: (d_inner, d_state)
/// * `b` - Input projection B: (batch, d_state)
/// * `c` - Output projection C: (batch, d_state)
/// * `d` - Skip connection D: (d_inner,)
/// * `h` - Hidden state: (batch, d_inner, d_state)
///
/// # Returns
/// * Hidden state after the step: (batch, d_inner, d_state)
/// * Output: (batch, d_inner)
pub(crate) fn selective_step(
    x: &Tensor,
    delta: &Tensor,
    a: &Tensor,
    b: &Tensor,
    c: &Tensor,
    d: &Tensor,
    h: &Tensor,
) -> (r: Result<(Tensor, Tensor), MambaError>)
    requires
        dims(*x).len() == 2,
        dims(*x)[1] > 0,
        dims(*delta) == dims(*x),
        dims(*a).len() == 2,
        inhabited(dims(*a)),
        dims(*a)[0] == dims(*x)[1],
        dims(*b) == shape2(dims(*x)[0], dims(*a)[1]),
        dims(*c) == dims(*b),
        dims(*d) == shape1(dims(*x)[1]),
        is_float(dtype_of(*delta)),
        dtype_of(*x) == dtype_of(*delta),
        dtype_of(*b) == dtype_of(*delta),
        dtype_of(*c) == dtype_of(*delta),
        dtype_of(*d) == dtype_of(*delta),
        dtype_of(*a) == dtype_of(*delta),
        fits(shape3(dims(*x)[0], dims(*x)[1], dims(*a)[1])),
    ensures
        on_cpu(*x) && on_cpu(*delta) && on_cpu(*a) && on_cpu(*b) && on_cpu(*c) && on_cpu(*d)
            && on_cpu(*h) && stretches(
            dims(*h),
            shape3(dims(*x)[0], dims(*x)[1], dims(*a)[1]),
        ) && (dims(*x)[0] > 0 ==> is_matrix_float(dtype_of(*delta)) && dtype_of(*h) == dtype_of(
            *delta,
        )) ==> r is Ok,
        r matches Ok((h1, y)) ==> {
            &&& stretches(dims(*h), shape3(dims(*x)[0], dims(*x)[1], dims(*a)[1]))
            &&& dims(*x)[0] > 0 ==> is_matrix_float(dtype_of(*delta)) && dtype_of(*h) == dtype_of(
                *delta,
            )
            &&& dims(h1) == shape3(dims(*x)[0], dims(*x)[1], dims(*a)[1])
            &&& same_kind(h1, *delta)
            &&& dims(y) == dims(*x)
            &&& same_kind(y, *delta)
            &&& forall|i: int|
                #![trigger row(y, ix1(i))]
                #![trigger slice(h1, i)]
                0 <= i < dims(*x)[0] ==> ssm_step(
                    dtype_of(*delta),
                    matrix(*a),
                    vector(*d),
                    row(*delta, ix1(i)),
                    row(*b, ix1(i)),
                    row(*c, ix1(i)),
                    row(*x, ix1(i)),
                    stretched(*h, i, dims(*x)[1], dims(*a)[1]),
                    slice(h1, i),
                    row(y, ix1(i)),
                )
        },
{
    let (b_sz, d_in) = dims2(x)?;
    let n = dim(a, 1)?;
    let ghost dt = dtype_of(*delta);
    proof {
        assert(dims(*a) =~= shape2(d_in as nat, n as nat));
        lemma_step_fits(b_sz as nat, d_in as nat, n as nat);
    }
    let delta_exp = unsqueeze(delta, 2)?;
    let a_exp = unsqueeze(a, 0)?;
    let product = broadcast_times(&delta_exp, &a_exp)?;
    let delta_a = exp(&product)?;

    let b_exp = unsqueeze(b, 1)?;
    let x_exp = unsqueeze(x, 2)?;
    let delta_b = broadcast_times(&delta_exp, &b_exp)?;
    let delta_b_x = broadcast_times(&delta_b, &x_exp)?;

    let h0 = stretch3(h, (b_sz, d_in, n))?;
    let kept = times(&delta_a, &h0)?;
    let h1 = plus(&kept, &delta_b_x)?;
    let ghost h0s = |i: int| stretched(*h, i, d_in as nat, n as nat);
    proof {
        assert forall|i: int, e: int, m: int| within(ix3(i, e, m), dims(h1)) implies advances(
            dt,
            at(*delta, ix2(i, e)),
            at(*a, ix2(e, m)),
            at(*b, ix2(i, m)),
            at(*x, ix2(i, e)),
            h0s(i)[e][m],
            #[trigger] at(h1, ix3(i, e, m)),
        ) by {
            assert(at(delta_exp, ix3(i, e, 0)) == at(*delta, ix2(i, e)));
            assert(at(a_exp, ix3(0, e, m)) == at(*a, ix2(e, m)));
            assert(at(b_exp, ix3(i, 0, m)) == at(*b, ix2(i, m)));
            assert(at(x_exp, ix3(i, e, 0)) == at(*x, ix2(i, e)));
            assert(h0s(i)[e][m] == at(h0, ix3(i, e, m)));
            let q = at(delta_a, ix3(i, e, m));
            let s = at(delta_b_x, ix3(i, e, m));
            assert(mul_gives(
                dt,
                at(*delta, ix2(i, e)),
                at(*a, ix2(e, m)),
                at(product, ix3(i, e, m)),
            ));
            assert(mul_gives(
                dt,
                at(*delta, ix2(i, e)),
                at(*b, ix2(i, m)),
                at(delta_b, ix3(i, e, m)),
            ));
            assert(decays(dt, at(*delta, ix2(i, e)), at(*a, ix2(e, m)), q));
            assert(drives(dt, at(*delta, ix2(i, e)), at(*b, ix2(i, m)), at(*x, ix2(i, e)), s));
            assert(mul_gives(dt, q, h0s(i)[e][m], at(kept, ix3(i, e, m))));
            assert(follows(dt, q, h0s(i)[e][m], s, at(h1, ix3(i, e, m))));
        }
    }

    let c_exp = unsqueeze(c, 2)?;
    let read = matmul(&h1, &c_exp)?;
    let s = squeeze(&read, 2)?;
    let d_exp = unsqueeze(d, 0)?;
    let skipped = broadcast_times(x, &d_exp)?;
    let y = broadcast_plus(&s, &skipped)?;
    proof {
        assert forall|i: int, e: int| within(ix2(i, e), dims(y)) implies reads_out(
            dt,
            row(h1, ix2(i, e)),
            row(*c, ix1(i)),
            at(*x, ix2(i, e)),
            at(*d, ix1(e)),
            #[trigger] at(y, ix2(i, e)),
        ) by {
            assert(at(s, ix2(i, e)) == at(read, ix3(i, e, 0)));
            assert(column(c_exp, i, 0, n as nat) =~= row(*c, ix1(i)));
            assert(dot_gives(dt, row(h1, ix2(i, e)), row(*c, ix1(i)), at(s, ix2(i, e))));
            assert(at(d_exp, ix2(0, e)) == at(*d, ix1(e)));
            assert(mul_gives(
                dt,
                at(*x, ix2(i, e)),
                at(*d, ix1(e)),
                at(skipped, ix2(i, e)),
            ));
            assert(skips(
                dt,
                at(s, ix2(i, e)),
                at(*x, ix2(i, e)),
                at(*d, ix1(e)),
                at(y, ix2(i, e)),
            ));
        }
        assert forall|i: int|
            #![trigger row(y, ix1(i))]
            #![trigger slice(h1, i)]
            0 <= i < b_sz implies ssm_step(
            dt,
            matrix(*a),
            vector(*d),
            row(*delta, ix1(i)),
            row(*b, ix1(i)),
            row(*c, ix1(i)),
            row(*x, ix1(i)),
            h0s(i),
            slice(h1, i),
            row(y, ix1(i)),
        ) by {
            assert forall|e: int, m: int| 0 <= e < d_in && 0 <= m < n implies advances(
                dt,
                row(*delta, ix1(i))[e],
                matrix(*a)[e][m],
                row(*b, ix1(i))[m],
                row(*x, ix1(i))[e],
                h0s(i)[e][m],
                #[trigger] slice(h1, i)[e][m],
            ) by {
                assert(within(ix3(i, e, m), dims(h1)));
                assert(slice(h1, i)[e][m] == at(h1, ix3(i, e, m)));
            }
            assert forall|e: int| 0 <= e < d_in implies reads_out(
                dt,
                slice(h1, i)[e],
                row(*c, ix1(i)),
                row(*x, ix1(i))[e],
                vector(*d)[e],
                #[trigger] row(y, ix1(i))[e],
            ) by {
                assert(within(ix2(i, e), dims(y)));
                assert(row(y, ix1(i))[e] == at(y, ix2(i, e)));
                assert(vector(*d)[e] == at(*d, ix1(e)));
            }
        }
    }
    Ok((h1, y))
}

/// The shapes that occur in a step can be allocated.
proof fn lemma_step_fits(b: nat, d: nat, n: nat)
    requires
        d > 0,
        n > 0,
        fits(shape3(b, d, n)),
    ensures
        fits(shape3(b, d, 1)),
        fits(shape3(1, d, n)),
        fits(shape3(b, 1, n)),
        fits(shape3(b, n, 1)),
        fits(shape2(b, d)),
        fits(shape2(1, d)),
{
    lemma_volume(b, d, n, 1);
    lemma_volume(b, d, 1, 1);
    lemma_volume(1, d, n, 1);
    lemma_volume(b, 1, n, 1);
    lemma_volume(b, n, 1, 1);
    lemma_volume(1, d, 1, 1);
    let k = at_least_one(b);
    let v = k * d * n;
    assert(k * d * 1 <= v && 1 * d * n <= v && k * 1 * n <= v && k * n * 1 <= v && k * d <= v && 1
        * d <= v) by (nonlinear_arith)
        requires
            k > 0,
            d > 0,
            n > 0,
            v == k * d * n,
    ;
}

} // verus!
