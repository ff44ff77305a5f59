//! What can go wrong.
use vstd::prelude::*;

verus! {

/// The error of every fallible operation of this library.
#[derive(Debug)]
pub enum MambaError {
    /// An operation on tensors failed.
    Candle(candle_core::Error),
    /// The tensors of a scan have shapes that do not belong together.
    Shape,
}

impl From<candle_core::Error> for MambaError {
    fn from(e: candle_core::Error) -> (r: MambaError) {
        MambaError::Candle(e)
    }
}

impl vstd::std_specs::convert::FromSpecImpl<candle_core::Error> for MambaError {
    open spec fn obeys_from_spec() -> bool {
        true
    }

    open spec fn from_spec(e: candle_core::Error) -> MambaError {
        MambaError::Candle(e)
    }
}

/// A result of an operation on tensors as one of this library.
pub(crate) fn lifted<T>(r: Result<T, candle_core::Error>) -> (l: Result<T, MambaError>)
    ensures
        l == match r {
            Ok(t) => Ok::<T, MambaError>(t),
            Err(e) => Err::<T, MambaError>(MambaError::Candle(e)),
        },
{
    match r {
        Ok(t) => Ok(t),
        Err(e) => Err(MambaError::Candle(e)),
    }
}

} // verus!
