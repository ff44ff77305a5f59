//! A Mamba language model with efficient sequence (prefill) processing.
//!
//! A prompt is processed in one pass, layer by layer; after it, tokens are generated one by one
//! from a state of fixed size. What tokens may come to in one of these ways, they may come to in
//! the other: see the laws in [`net`], and those in [`settled`] and [`exact`] for what can be said
//! where the operations on numbers leave nothing open.
//!
//! The laws in [`formulas`] say which operation each number comes from, those in [`readings`] which
//! tensors the numbers are taken from, and those in [`loading`] under which names the tensors are
//! asked for. Those in [`effects`] say what single weights do. Which calls succeed is the matter of
//! [`documented`], [`conditions`] and [`success`].
//!
//! See "Mamba: Linear-Time Sequence Modeling with Selective State Spaces",
//! <https://arxiv.org/abs/2312.00752>.
pub mod array;
pub mod block;
pub mod conditions;
pub mod config;
pub mod documented;
pub mod effects;
pub mod error;
pub mod exact;
pub mod formulas;
pub mod layers;
pub mod loading;
pub mod model;
pub mod net;
pub mod readings;
pub mod recurrence;
pub mod residual;
pub mod rows;
pub mod scan;
pub mod settled;
pub mod sizes;
pub mod state;
pub mod success;
pub mod tensor;
pub mod weights;

pub use block::{MambaBlock, Weights};
pub use config::Config;
pub use error::MambaError;
pub use model::Model;
pub use residual::ResidualBlock;
pub use state::State;
pub use weights::VarBuilder;
