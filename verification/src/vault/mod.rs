pub mod format;
pub mod model;
pub mod parse;
pub mod payload;
pub mod storage;

pub use model::{Unlocked, VaultFile};
