use vstd::prelude::*;

use crate::crypto::random::{random_array, KEY_LEN};
use crate::crypto::secret::{wipe, GuardedKey};
use crate::errors::{Error, Result};

verus! {

/// A fresh data-encryption key from the operating system's random source;
/// the key is wiped when it is dropped.
pub fn generate_dek() -> (r: Result<GuardedKey>)
    ensures
        r matches Err(e) ==> e == Error::Rng,
{
    let k: [u8; KEY_LEN] = random_array()?;
    let key = GuardedKey::new(k);
    let mut k = k;
    wipe(vstd::array::ref_mut_array_unsizing_coercion(&mut k));
    Ok(key)
}

} // verus!
