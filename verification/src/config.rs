//! The sizes of a model.
use crate::array::{lemma_volume, matrix_fits, shape2};
use crate::sizes::{fits2, lemma_quotient, lemma_volume_member};
use vstd::prelude::*;

verus! {

/// The number of inputs that the causal convolution sees at each position.
pub const D_CONV: usize = 4;

/// The number of numbers that the state space model keeps for each channel.
pub const D_STATE: usize = 16;

/// The smallest multiple of `m` that is not less than `n`.
pub open spec fn round_up(n: int, m: int) -> int {
    (n + m - 1) / m * m
}

/// The width of the projection that the step sizes are made from.
pub open spec fn rank_for(d_model: int) -> int {
    (d_model + 15) / 16
}

/// The tensors of a block for tokens of this width can be allocated.
pub open spec fn block_room(d_model: nat) -> bool {
    d_model > 0 && matrix_fits(2 * d_model, 17 * (2 * d_model))
}

/// The tensors of a model of this configuration can be allocated.
pub open spec fn model_room(cfg: Config) -> bool {
    &&& cfg.pad_vocab_size_multiple > 0
    &&& rows_for(cfg) <= usize::MAX
    &&& matrix_fits(rows_for(cfg) as nat, cfg.d_model as nat)
    &&& cfg.n_layer > 0 ==> block_room(cfg.d_model as nat)
}

/// The number of rows of the embedding table.
pub open spec fn rows_for(cfg: Config) -> int {
    round_up(cfg.vocab_size as int, cfg.pad_vocab_size_multiple as int)
}

/// Model configuration.
#[derive(Debug, Clone)]
pub struct Config {
    /// The width of the residual stream.
    pub d_model: usize,
    /// The number of layers.
    pub n_layer: usize,
    /// The number of tokens.
    pub vocab_size: usize,
    /// The number of rows of the embedding table is a multiple of this.
    pub pad_vocab_size_multiple: usize,
}

impl Config {
    /// Whether a model of this configuration can be loaded: its tensors can be allocated.
    pub fn has_room(&self) -> (r: bool)
        ensures
            r <==> model_room(*self),
    {
        let pad = self.pad_vocab_size_multiple;
        if pad == 0 {
            return false;
        }
        proof {
            lemma_round_up(self.vocab_size as int, pad as int);
        }
        let q: usize = self.vocab_size / pad;
        let q: usize = if self.vocab_size % pad == 0 {
            q
        } else {
            q + 1
        };
        if q > usize::MAX / pad {
            assert(rows_for(*self) > usize::MAX) by {
                lemma_quotient(q as int, pad as int);
                assert(pad * q == q * pad) by (nonlinear_arith);
            }
            return false;
        }
        proof {
            lemma_quotient(q as int, pad as int);
            assert(pad * q == q * pad) by (nonlinear_arith);
        }
        let rows: usize = q * pad;
        proof {
            let model = self.d_model as nat;
            lemma_volume(rows as nat, model, 1, 1);
            lemma_volume(2 * model, 17 * (2 * model), 1, 1);
            lemma_volume_member(shape2(2 * model, 17 * (2 * model)), 0);
        }
        fits2(rows, self.d_model, 1) && (self.n_layer == 0 || (self.d_model > 0
            && self.d_model <= usize::MAX / 2 && fits2(2 * self.d_model, 2 * self.d_model, 17)))
    }

    /// The number of tokens, rounded up to the next multiple of `pad_vocab_size_multiple`.
    pub fn vocab_size(&self) -> (r: usize)
        requires
            self.pad_vocab_size_multiple > 0,
            rows_for(*self) <= usize::MAX,
        ensures
            r == rows_for(*self),
    {
        let pad = self.pad_vocab_size_multiple;
        let n: usize = self.vocab_size;
        let q: usize = n / pad;
        proof {
            lemma_round_up(n as int, pad as int);
        }
        if n % pad == 0 {
            q * pad
        } else {
            (q + 1) * pad
        }
    }

    /// The width of the projection that the step sizes are made from.
    pub fn dt_rank(&self) -> (r: usize)
        ensures
            r == rank_for(self.d_model as int),
    {
        let q: usize = self.d_model / 16;
        if self.d_model % 16 == 0 {
            q
        } else {
            q + 1
        }
    }

    /// The number of channels inside a block.
    pub fn d_inner(&self) -> (r: usize)
        requires
            self.d_model * 2 <= usize::MAX,
        ensures
            r == self.d_model * 2,
    {
        self.d_model * 2
    }
}

/// `round_up` in terms of the quotient that rounds down.
proof fn lemma_round_up(n: int, m: int)
    requires
        n >= 0,
        m > 0,
    ensures
        n % m == 0 ==> round_up(n, m) == n / m * m,
        n % m != 0 ==> round_up(n, m) == (n / m + 1) * m,
        n / m <= n,
        n % m != 0 ==> n / m < n,
{
    vstd::arithmetic::div_mod::lemma_fundamental_div_mod(n, m);
    let q = n / m;
    let s = n % m;
    assert(m * q == q * m) by (nonlinear_arith);
    assert(q >= 0 && q <= n) by (nonlinear_arith)
        requires
            n == m * q + s,
            0 <= s < m,
            n >= 0,
            m > 0,
    ;
    if s == 0 {
        vstd::arithmetic::div_mod::lemma_fundamental_div_mod_converse(n + m - 1, m, q, m - 1);
    } else {
        assert((q + 1) * m == q * m + m) by (nonlinear_arith);
        assert(q < n) by (nonlinear_arith)
            requires
                n == m * q + s,
                0 < s < m,
                q >= 0,
        ;
        vstd::arithmetic::div_mod::lemma_fundamental_div_mod_converse(n + m - 1, m, q + 1, s - 1);
    }
}

/// Padding gives the smallest multiple of the padding that is not less than the number of tokens.
pub proof fn law_round_up_smallest(n: int, m: int, k: int)
    requires
        n >= 0,
        m > 0,
    ensures
        round_up(n, m) >= n,
        round_up(n, m) % m == 0,
        k * m >= n ==> k * m >= round_up(n, m),
{
    vstd::arithmetic::div_mod::lemma_fundamental_div_mod(n + m - 1, m);
    let q = (n + m - 1) / m;
    vstd::arithmetic::div_mod::lemma_mod_multiples_basic(q, m);
    assert(m * q == q * m) by (nonlinear_arith);
    if k * m >= n && k < q {
        assert(k * m <= q * m - m) by (nonlinear_arith)
            requires
                k <= q - 1,
                m > 0,
        ;
    }
    if k >= q {
        assert(k * m >= q * m) by (nonlinear_arith)
            requires
                k >= q,
                m > 0,
        ;
    }
}

/// Padding a number that is padded already changes nothing.
pub proof fn law_round_up_idempotent(n: int, m: int)
    requires
        n >= 0,
        m > 0,
    ensures
        round_up(round_up(n, m), m) == round_up(n, m),
{
    law_round_up_smallest(n, m, 0);
    let r = round_up(n, m);
    lemma_round_up(r, m);
    vstd::arithmetic::div_mod::lemma_fundamental_div_mod(r, m);
    assert(m * (r / m) == r / m * m) by (nonlinear_arith);
}

} // verus!
