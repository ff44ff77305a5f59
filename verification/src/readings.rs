//! Which numbers of which tensors the formulas speak of.
use crate::array::{group_index, ix1, ix2, ix3, shape1, shape2, shape3, source};
use crate::block::{memory, mixer, Weights};
use crate::model::{net, Model};
use crate::residual::{layer, ResidualBlock};
use crate::rows::{matrix, slice, stretched, vector};
use crate::scan::{spread_matrix, spread_vector};
use crate::state::{memories, memories_in, State};
use crate::tensor::{at, dims, dtype_of, row};
use candle_core::Tensor;
use vstd::prelude::*;

verus! {

broadcast use group_index;

/// The numbers of a matrix, a vector, and a batch of matrices are those of the tensor at their
/// indices.
pub proof fn law_numbers_of_tensors(t: Tensor, i: int, r: int, c: int)
    ensures
        matrix(t).len() == dims(t)[0],
        vector(t).len() == dims(t).last(),
        slice(t, i).len() == dims(t)[1],
        row(t, ix1(r)).len() == dims(t).last(),
        0 <= c < dims(t).last() ==> {
            &&& vector(t)[c] == at(t, ix1(c))
            &&& row(t, ix1(r))[c] == at(t, ix2(r, c))
            &&& 0 <= r < dims(t)[0] ==> matrix(t)[r].len() == dims(t).last() && matrix(t)[r][c]
                == at(t, ix2(r, c))
            &&& 0 <= r < dims(t)[1] ==> slice(t, i)[r].len() == dims(t).last() && slice(t, i)[r][c]
                == at(t, ix3(i, r, c))
        },
{
}

/// Numbers that are given once count for every item, row and column.
pub proof fn law_numbers_given_once(t: Tensor, b: int, rows: nat, columns: nat, r: int, c: int)
    requires
        0 <= r < rows,
        0 <= c < columns,
    ensures
        stretched(t, b, rows, columns).len() == rows,
        stretched(t, b, rows, columns)[r].len() == columns,
        dims(t).len() == 3 ==> stretched(t, b, rows, columns)[r][c] == at(
            t,
            ix3(
                if dims(t)[0] == 1 {
                    0
                } else {
                    b
                },
                if dims(t)[1] == 1 {
                    0
                } else {
                    r
                },
                if dims(t)[2] == 1 {
                    0
                } else {
                    c
                },
            ),
        ),
        spread_matrix(t, rows, columns).len() == rows,
        spread_matrix(t, rows, columns)[r].len() == columns,
        dims(t).len() == 2 && dims(t)[1] == columns ==> spread_matrix(
            t,
            rows,
            columns,
        )[r][c] == at(
            t,
            ix2(
                if dims(t)[0] == 1 {
                    0
                } else {
                    r
                },
                c,
            ),
        ),
        spread_vector(t, columns).len() == columns,
        dims(t).len() == 1 ==> spread_vector(t, columns)[c] == at(
            t,
            ix1(
                if dims(t)[0] == 1 {
                    0
                } else {
                    c
                },
            ),
        ),
        dims(t).len() == 0 ==> spread_vector(t, columns)[c] == at(t, Seq::empty()),
{
    if dims(t).len() == 3 {
        assert(dims(t) =~= shape3(dims(t)[0], dims(t)[1], dims(t)[2]));
    }
    if dims(t).len() == 2 && dims(t)[1] == columns {
        let first = if dims(t)[0] == 1 {
            0
        } else {
            r
        };
        assert(source(ix2(r, c), dims(t)) =~= ix2(first, c));
    }
    if dims(t).len() == 1 {
        let first = if dims(t)[0] == 1 {
            0
        } else {
            c
        };
        assert(source(ix1(c), dims(t)) =~= ix1(first));
    }
    if dims(t).len() == 0 {
        assert(source(ix1(c), dims(t)) =~= Seq::empty());
    }
}

/// The numbers of a block are those of its tensors.
pub proof fn law_numbers_of_block(w: Weights, d_model: nat, d_inner: nat, rank: nat)
    requires
        dims(w.in_proj) == shape2(2 * d_inner, d_model),
        dims(w.conv_weight) == shape3(d_inner, 1, 4),
        dims(w.conv_bias) == shape1(d_inner),
        dims(w.x_proj) == shape2(rank + 32, d_inner),
        dims(w.dt_weight) == shape2(d_inner, rank),
        dims(w.dt_bias) == shape1(d_inner),
        dims(w.a_log) == shape2(d_inner, 16),
        dims(w.d) == shape1(d_inner),
        dims(w.out_proj) == shape2(d_model, d_inner),
    ensures
        mixer(w).rank == rank,
        mixer(w).a_type == dtype_of(w.a_log),
        mixer(w).d_type == dtype_of(w.d),
        mixer(w).in_proj.len() == 2 * d_inner,
        mixer(w).kernel.len() == d_inner,
        mixer(w).conv_bias.len() == d_inner,
        mixer(w).x_proj.len() == rank + 32,
        mixer(w).dt_weight.len() == d_inner,
        mixer(w).dt_bias.len() == d_inner,
        mixer(w).a_log.len() == d_inner,
        mixer(w).d.len() == d_inner,
        mixer(w).out_proj.len() == d_model,
        forall|o: int|
            0 <= o < 2 * d_inner ==> #[trigger] mixer(w).in_proj[o] == Seq::new(
                d_model,
                |j: int| at(w.in_proj, ix2(o, j)),
            ),
        forall|c: int|
            0 <= c < d_inner ==> #[trigger] mixer(w).kernel[c] == Seq::new(
                4,
                |k: int| at(w.conv_weight, ix3(c, 0, k)),
            ),
        forall|c: int| 0 <= c < d_inner ==> #[trigger] mixer(w).conv_bias[c] == at(w.conv_bias, ix1(c)),
        forall|o: int|
            0 <= o < rank + 32 ==> #[trigger] mixer(w).x_proj[o] == Seq::new(
                d_inner,
                |c: int| at(w.x_proj, ix2(o, c)),
            ),
        forall|c: int|
            0 <= c < d_inner ==> #[trigger] mixer(w).dt_weight[c] == Seq::new(
                rank,
                |r: int| at(w.dt_weight, ix2(c, r)),
            ),
        forall|c: int| 0 <= c < d_inner ==> #[trigger] mixer(w).dt_bias[c] == at(w.dt_bias, ix1(c)),
        forall|c: int|
            0 <= c < d_inner ==> #[trigger] mixer(w).a_log[c] == Seq::new(
                16,
                |n: int| at(w.a_log, ix2(c, n)),
            ),
        forall|c: int| 0 <= c < d_inner ==> #[trigger] mixer(w).d[c] == at(w.d, ix1(c)),
        forall|o: int|
            0 <= o < d_model ==> #[trigger] mixer(w).out_proj[o] == Seq::new(
                d_inner,
                |c: int| at(w.out_proj, ix2(o, c)),
            ),
{
    let m = mixer(w);
    assert forall|o: int| 0 <= o < 2 * d_inner implies #[trigger] m.in_proj[o] == Seq::new(
        d_model,
        |j: int| at(w.in_proj, ix2(o, j)),
    ) by {
        assert(m.in_proj[o] =~= Seq::new(d_model, |j: int| at(w.in_proj, ix2(o, j))));
    }
    assert forall|c: int| 0 <= c < d_inner implies #[trigger] m.kernel[c] == Seq::new(
        4,
        |k: int| at(w.conv_weight, ix3(c, 0, k)),
    ) by {
        assert(m.kernel[c] =~= Seq::new(4, |k: int| at(w.conv_weight, ix3(c, 0, k))));
    }
    assert forall|o: int| 0 <= o < rank + 32 implies #[trigger] m.x_proj[o] == Seq::new(
        d_inner,
        |c: int| at(w.x_proj, ix2(o, c)),
    ) by {
        assert(m.x_proj[o] =~= Seq::new(d_inner, |c: int| at(w.x_proj, ix2(o, c))));
    }
    assert forall|c: int| 0 <= c < d_inner implies #[trigger] m.dt_weight[c] == Seq::new(
        rank,
        |r: int| at(w.dt_weight, ix2(c, r)),
    ) by {
        assert(m.dt_weight[c] =~= Seq::new(rank, |r: int| at(w.dt_weight, ix2(c, r))));
    }
    assert forall|c: int| 0 <= c < d_inner implies #[trigger] m.a_log[c] == Seq::new(
        16,
        |n: int| at(w.a_log, ix2(c, n)),
    ) by {
        assert(m.a_log[c] =~= Seq::new(16, |n: int| at(w.a_log, ix2(c, n))));
    }
    assert forall|o: int| 0 <= o < d_model implies #[trigger] m.out_proj[o] == Seq::new(
        d_inner,
        |c: int| at(w.out_proj, ix2(o, c)),
    ) by {
        assert(m.out_proj[o] =~= Seq::new(d_inner, |c: int| at(w.out_proj, ix2(o, c))));
    }
}

/// What an item remembers are its own numbers: the last inputs of its channels, the oldest first,
/// and the states of its channels.
pub proof fn law_numbers_of_memory(
    h: Tensor,
    conv_state: Tensor,
    i: int,
    items: nat,
    inner: nat,
    c: int,
)
    requires
        dims(h) == shape3(items, inner, 16),
        0 <= i < items,
        0 <= c < inner,
    ensures
        memory(h, conv_state, i, inner).taps.len() == inner,
        memory(h, conv_state, i, inner).taps[c] == Seq::new(
            4,
            |k: int| at(conv_state, ix3(i, c, k)),
        ),
        memory(h, conv_state, i, inner).h.len() == inner,
        memory(h, conv_state, i, inner).h[c] == Seq::new(16, |n: int| at(h, ix3(i, c, n))),
{
    assert(memory(h, conv_state, i, inner).taps[c] =~= Seq::new(
        4,
        |k: int| at(conv_state, ix3(i, c, k)),
    ));
    assert(memory(h, conv_state, i, inner).h[c] =~= Seq::new(16, |n: int| at(h, ix3(i, c, n))));
}

/// The same, of states that may be given once for several items or channels.
pub proof fn law_numbers_of_shared_memory(h: Tensor, conv_state: Tensor, i: int, inner: nat, c: int)
    requires
        0 <= c < inner,
    ensures
        memory(h, conv_state, i, inner).taps.len() == inner,
        memory(h, conv_state, i, inner).taps[c] == Seq::new(
            4,
            |k: int| at(conv_state, ix3(i, c, k)),
        ),
        memory(h, conv_state, i, inner).h == stretched(h, i, inner, 16),
{
    assert(memory(h, conv_state, i, inner).taps[c] =~= Seq::new(
        4,
        |k: int| at(conv_state, ix3(i, c, k)),
    ));
}

/// The numbers of a layer are the factors of its normalisation and the numbers of its block.
pub proof fn law_numbers_of_layer(l: ResidualBlock)
    requires
        dims(l.norm()).len() == 1,
    ensures
        layer(l).norm == Seq::new(dims(l.norm())[0], |k: int| at(l.norm(), ix1(k))),
        layer(l).mixer == mixer(l.mixer().weights()),
{
    assert(layer(l).norm =~= Seq::new(dims(l.norm())[0], |k: int| at(l.norm(), ix1(k))));
}

/// The numbers of a model are those of its table, of its layers in their order, and of its last
/// normalisation.
pub proof fn law_numbers_of_model(m: Model)
    requires
        dims(m.table()).len() == 2,
        dims(m.table())[1] == m.width(),
        dims(m.norm()) == shape1(m.width()),
    ensures
        m.vocab() == dims(m.table())[0],
        m.inner() == 2 * m.width(),
        net(m).width == m.width(),
        net(m).inner == 2 * m.width(),
        net(m).table.len() == m.vocab(),
        forall|v: int|
            0 <= v < m.vocab() ==> #[trigger] net(m).table[v] == Seq::new(
                m.width(),
                |j: int| at(m.table(), ix2(v, j)),
            ),
        net(m).norm == Seq::new(m.width(), |j: int| at(m.norm(), ix1(j))),
        net(m).layers.len() == m.layers().len(),
        forall|k: int|
            0 <= k < m.layers().len() ==> #[trigger] net(m).layers[k] == layer(m.layers()[k]),
{
    assert(net(m).norm =~= Seq::new(m.width(), |j: int| at(m.norm(), ix1(j))));
    assert forall|v: int| 0 <= v < m.vocab() implies #[trigger] net(m).table[v] == Seq::new(
        m.width(),
        |j: int| at(m.table(), ix2(v, j)),
    ) by {
        assert(net(m).table[v] =~= Seq::new(m.width(), |j: int| at(m.table(), ix2(v, j))));
    }
}

/// Every layer remembers what the state holds for it.
pub proof fn law_memories_of_state(state: State, i: int, inner: nat, n: nat, k: int)
    requires
        0 <= k < n,
    ensures
        memories(state, i, inner, n).len() == n,
        memories(state, i, inner, n)[k] == memory(
            state.hs@[k],
            state.conv_states@[k],
            i,
            inner,
        ),
        memories_in(state.hs@, state.conv_states@, i, inner, n) == memories(state, i, inner, n),
{
}

} // verus!
