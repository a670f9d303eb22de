//! A local, offline password vault: the encrypted file format, its key
//! slots, the entry model and the helpers of the command-line front end.
pub mod cli;
pub mod clipboard;
pub mod crypto;
pub mod errors;
pub mod generator;
pub mod text;
pub mod vault;

pub use errors::{Error, Result};
