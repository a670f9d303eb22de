pub mod aead;
pub mod kdf;
pub mod keys;
pub mod random;
pub mod secret;
