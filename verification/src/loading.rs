//! Under which names the tensors of a model are asked for.
use crate::array::{shape1, shape2, shape3};
use crate::block::block_refused;
use crate::config::{rows_for, Config};
use crate::model::model_refused;
use crate::residual::layer_refused;
use crate::weights::{decimal, digit, joined, refused, refuses};
use candle_core::DType;
use vstd::prelude::*;

verus! {

/// Where a block cannot be loaded, the source has refused one of its nine tensors.
pub proof fn law_refusals_of_block(store: int, path: Seq<Seq<char>>, dt: DType, cfg: Config)
    requires
        block_refused(store, path, dt, cfg),
    ensures
        ({
            let (width, rank) = (cfg.d_model as nat, ((cfg.d_model + 15) / 16) as nat);
            ||| refused(store, path.push("in_proj"@).push("weight"@), dt, shape2(4 * width, width))
            ||| refused(store, path.push("conv1d"@).push("weight"@), dt, shape3(2 * width, 1, 4))
            ||| refused(store, path.push("conv1d"@).push("bias"@), dt, shape1(2 * width))
            ||| refused(
                store,
                path.push("x_proj"@).push("weight"@),
                dt,
                shape2(rank + 32, 2 * width),
            )
            ||| refused(store, path.push("dt_proj"@).push("weight"@), dt, shape2(2 * width, rank))
            ||| refused(store, path.push("dt_proj"@).push("bias"@), dt, shape1(2 * width))
            ||| refused(store, path.push("A_log"@), dt, shape2(2 * width, 16))
            ||| refused(store, path.push("D"@), dt, shape1(2 * width))
            ||| refused(store, path.push("out_proj"@).push("weight"@), dt, shape2(width, 2 * width))
        }),
{
}

/// Where a layer cannot be loaded, the source has refused its normalisation or a tensor of its
/// block.
pub proof fn law_refusals_of_layer(store: int, path: Seq<Seq<char>>, dt: DType, cfg: Config)
    requires
        layer_refused(store, path, dt, cfg),
    ensures
        refused(store, path.push("norm"@).push("weight"@), dt, shape1(cfg.d_model as nat))
            || block_refused(store, path.push("mixer"@), dt, cfg),
{
}

/// Where a model cannot be loaded, the source has refused its table, its last normalisation, or one
/// of its layers.
pub proof fn law_refusals_of_model(store: int, path: Seq<Seq<char>>, dt: DType, cfg: Config)
    requires
        model_refused(store, path, dt, cfg),
    ensures
        ({
            let (rows, width) = (rows_for(cfg) as nat, cfg.d_model as nat);
            ||| refused(store, path.push("embedding"@).push("weight"@), dt, shape2(rows, width))
            ||| refused(store, path.push("norm_f"@).push("weight"@), dt, shape1(width))
            ||| exists|k: nat|
                k < cfg.n_layer && #[trigger] layer_refused(
                    store,
                    path.push("layers"@).push(decimal(k)),
                    dt,
                    cfg,
                )
        }),
{
}

/// A tensor is asked for under the parts of its path with dots between them.
pub proof fn law_names(store: int, path: Seq<Seq<char>>, name: Seq<char>, dt: DType, shape: Seq<nat>)
    ensures
        path.len() == 0 ==> joined(path.push(name)) == name,
        path.len() > 0 ==> joined(path.push(name)) == joined(path) + seq!['.'] + name,
        refused(store, path, dt, shape) <==> refuses(store, joined(path), dt, shape),
{
    assert(path.push(name).drop_last() =~= path);
}

/// Different layers have different numbers in their names.
pub proof fn law_layer_names_differ(j: nat, k: nat)
    ensures
        decimal(j) == decimal(k) ==> j == k,
    decreases j,
{
    let (s, t) = (decimal(j), decimal(k));
    lemma_decimal_is_not_empty(j / 10);
    lemma_decimal_is_not_empty(k / 10);
    if s == t {
        assert(s.len() == 1 <==> j < 10);
        assert(t.len() == 1 <==> k < 10);
        assert(s.last() == t.last());
        lemma_digits_differ(j % 10, k % 10);
        if j >= 10 {
            assert(s.drop_last() =~= decimal(j / 10));
            assert(t.drop_last() =~= decimal(k / 10));
            law_layer_names_differ(j / 10, k / 10);
        }
    }
}

proof fn lemma_digits_differ(a: nat, b: nat)
    requires
        a < 10,
        b < 10,
        digit(a) == digit(b),
    ensures
        a == b,
{
    assert(digit(a) as u32 == 48 + a);
    assert(digit(b) as u32 == 48 + b);
}

proof fn lemma_decimal_is_not_empty(n: nat)
    ensures
        decimal(n).len() > 0,
{
}

} // verus!
