//! The errors of the codec, under one roof.

use vstd::prelude::*;
pub use crate::decode::Error as DecodeError;

verus! {

/// `std::io::Error`, which the codec only carries.
#[verifier::external_type_specification]
#[verifier::external_body]
pub struct ExIoError(std::io::Error);

/// What can go wrong with a world document: its bytes do not decode, or
/// the sink that its encoding is written to fails.
#[derive(Debug)]
pub enum Error {
    Decode(DecodeError),
    Encode(std::io::Error),
}

} // verus!
