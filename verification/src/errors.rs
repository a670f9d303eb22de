use vstd::prelude::*;

verus! {

/// Everything that can go wrong in the library.
#[derive(Debug, PartialEq, Eq)]
pub enum Error {
    Authentication,
    InvalidKdfParameters,
    UnsupportedVersion(u8, u8),
    Crypto,
    Rng,
    InvalidFormat(&'static str),
    UnsupportedKdf(u8),
    UnsupportedCipher(u8),
    NoUsableSlot,
    InsecurePermissions,
    Io,
    Ambiguous(String),
}

pub type Result<T> = core::result::Result<T, Error>;

} // verus!
