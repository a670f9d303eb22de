use vstd::prelude::*;

use argon2::{Algorithm, Argon2, Params, Version};

use crate::crypto::random::KEY_LEN;
use crate::crypto::secret::{guarded_key, wipe, GuardedKey};
use crate::errors::{Error, Result};

verus! {

pub const DEFAULT_M_COST: u32 = 65_536;
pub const DEFAULT_T_COST: u32 = 3;
pub const DEFAULT_P_COST: u32 = 1;

pub const MIN_M_COST: u32 = 19_456;
pub const MIN_T_COST: u32 = 2;
pub const MIN_P_COST: u32 = 1;

pub const MAX_M_COST: u32 = 4_194_304;
pub const MAX_T_COST: u32 = 16;
pub const MAX_P_COST: u32 = 4;

/// Argon2id cost parameters: memory in KiB, passes, lanes.
#[derive(Clone, Copy, Debug, PartialEq, Eq, Structural)]
pub struct KdfParams {
    pub m_cost: u32,
    pub t_cost: u32,
    pub p_cost: u32,
}

impl KdfParams {
    /// The parameters lie within the accepted floors and ceilings, and give
    /// every lane at least eight blocks of memory.
    pub open spec fn valid(self) -> bool {
        &&& MIN_M_COST <= self.m_cost <= MAX_M_COST
        &&& MIN_T_COST <= self.t_cost <= MAX_T_COST
        &&& MIN_P_COST <= self.p_cost <= MAX_P_COST
        &&& self.m_cost >= 8 * self.p_cost
    }

    pub fn new(m_cost: u32, t_cost: u32, p_cost: u32) -> (r: Self)
        ensures
            r.m_cost == m_cost,
            r.t_cost == t_cost,
            r.p_cost == p_cost,
    {
        KdfParams { m_cost, t_cost, p_cost }
    }

    pub fn validate(&self) -> (r: Result<()>)
        ensures
            r is Ok <==> self.valid(),
            r is Err ==> r == Err::<(), Error>(Error::InvalidKdfParameters),
    {
        if self.m_cost < MIN_M_COST || self.m_cost > MAX_M_COST {
            return Err(Error::InvalidKdfParameters);
        }
        if self.t_cost < MIN_T_COST || self.t_cost > MAX_T_COST {
            return Err(Error::InvalidKdfParameters);
        }
        if self.p_cost < MIN_P_COST || self.p_cost > MAX_P_COST {
            return Err(Error::InvalidKdfParameters);
        }
        if self.m_cost < 8 * self.p_cost {
            return Err(Error::InvalidKdfParameters);
        }
        Ok(())
    }
}

impl Default for KdfParams {
    fn default() -> (r: Self)
        ensures
            r.m_cost == DEFAULT_M_COST,
            r.t_cost == DEFAULT_T_COST,
            r.p_cost == DEFAULT_P_COST,
    {
        KdfParams { m_cost: DEFAULT_M_COST, t_cost: DEFAULT_T_COST, p_cost: DEFAULT_P_COST }
    }
}

#[verifier::external_type_specification]
#[verifier::external_body]
pub struct ExArgon2Params(argon2::Params);

/// The 32-byte Argon2id (version 0x13) output for `passphrase` and `salt`
/// with memory `m_cost` KiB, `t_cost` passes and `p_cost` lanes.
pub uninterp spec fn argon2id_key(passphrase: Seq<u8>, salt: Seq<u8>, m_cost: u32, t_cost: u32, p_cost: u32) -> Seq<u8>;

/// Calls `argon2::Params::new` with a 32-byte output. Claims, as its source
/// shows: it succeeds exactly when the memory is at least 8 blocks and at
/// least 8 per lane, there is at least one pass, and the lanes number from
/// 1 to 2^24 - 1.
#[verifier::external_body]
fn argon2_params(m_cost: u32, t_cost: u32, p_cost: u32) -> (r: Option<Params>)
    requires
        p_cost <= 0x1FFF_FFFF,
    ensures
        r is Some <==> (m_cost >= 8 && m_cost >= 8 * p_cost && t_cost >= 1 && 1 <= p_cost <= 0xFF_FFFF),
{
    Params::new(m_cost, t_cost, p_cost, Some(KEY_LEN)).ok()
}

/// Calls `argon2::Argon2::hash_password_into` for Argon2id version 0x13 with
/// the given costs (the costs are passed through `Params::new`, which the
/// `requires` makes succeed). Claims, as the source shows: it succeeds
/// exactly when the passphrase and the salt are at most 2^32 - 1 bytes and
/// the salt at least 8; the key is then the named Argon2id output.
#[verifier::external_body]
fn argon2id_hash(passphrase: &[u8], salt: &[u8], m_cost: u32, t_cost: u32, p_cost: u32) -> (r: Option<[u8; KEY_LEN]>)
    requires
        m_cost >= 8,
        m_cost >= 8 * p_cost,
        t_cost >= 1,
        1 <= p_cost <= 0xFF_FFFF,
    ensures
        r is Some <==> (passphrase@.len() <= 0xFFFF_FFFF && 8 <= salt@.len() <= 0xFFFF_FFFF),
        r matches Some(k) ==> k@ == argon2id_key(passphrase@, salt@, m_cost, t_cost, p_cost),
{
    let params = Params::new(m_cost, t_cost, p_cost, Some(KEY_LEN)).ok()?;
    let mut key = [0u8; KEY_LEN];
    let argon = Argon2::new(Algorithm::Argon2id, Version::V0x13, params);
    argon.hash_password_into(passphrase, salt, &mut key).ok()?;
    Some(key)
}

impl KdfParams {
    /// The `argon2` crate's parameter object for these costs.
    pub fn to_argon2_params(&self) -> (r: Result<Params>)
        ensures
            r is Ok <==> self.valid(),
            r matches Err(e) ==> e == Error::InvalidKdfParameters,
    {
        self.validate()?;
        match argon2_params(self.m_cost, self.t_cost, self.p_cost) {
            Some(p) => Ok(p),
            None => Err(Error::InvalidKdfParameters),
        }
    }
}

/// Derives a 32-byte key-encryption key from a passphrase with Argon2id;
/// the key is wiped when it is dropped.
pub fn derive_key(passphrase: &[u8], salt: &[u8], params: &KdfParams) -> (r: Result<GuardedKey>)
    ensures
        salt@.len() < 8 || !params.valid() ==> r == Err::<GuardedKey, Error>(Error::InvalidKdfParameters),
        salt@.len() >= 8 && params.valid() ==> (r is Ok <==> passphrase@.len() <= 0xFFFF_FFFF && salt@.len() <= 0xFFFF_FFFF),
        salt@.len() >= 8 && params.valid() && r is Err ==> r == Err::<GuardedKey, Error>(Error::Crypto),
        r matches Ok(k) ==> guarded_key(k) == argon2id_key(passphrase@, salt@, params.m_cost, params.t_cost, params.p_cost),
{
    if salt.len() < 8 {
        return Err(Error::InvalidKdfParameters);
    }
    params.validate()?;
    match argon2id_hash(passphrase, salt, params.m_cost, params.t_cost, params.p_cost) {
        Some(k) => {
            let key = GuardedKey::new(k);
            let mut k = k;
            wipe(vstd::array::ref_mut_array_unsizing_coercion(&mut k));
            Ok(key)
        },
        None => Err(Error::Crypto),
    }
}

} // verus!
