//! The shared encryption contract.

use vstd::prelude::*;

verus! {

/// A symmetric transformation between an input and an output form, with
/// an inverse.
pub trait CrypDec {
    type Input;

    type Output;

    type Error;

    fn encrypt(&self, data: &Self::Input) -> Result<Self::Output, Self::Error>;

    fn decrypt(&self, data: &Self::Input) -> Result<Self::Output, Self::Error>;
}

} // verus!
