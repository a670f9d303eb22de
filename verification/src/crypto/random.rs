use vstd::prelude::*;

use crate::errors::{Error, Result};

verus! {

pub const SALT_LEN: usize = 16;
pub const NONCE_LEN: usize = 24;
pub const KEY_LEN: usize = 32;
pub const TAG_LEN: usize = 16;

/// Fills `buf` from the operating system's random source through
/// `getrandom::getrandom`. What the bytes are is left open, as it rests on
/// chance; only that the buffer keeps its length is stated. The result
/// says whether the source reported success.
#[verifier::external_body]
fn os_fill(buf: &mut [u8]) -> (ok: bool)
    ensures
        final(buf)@.len() == old(buf)@.len(),
{
    getrandom::getrandom(buf).is_ok()
}

/// `N` bytes from the operating system's random source.
pub fn random_array<const N: usize>() -> (r: Result<[u8; N]>)
    ensures
        r matches Err(e) ==> e == Error::Rng,
{
    let mut buf: [u8; N] = vstd::array::array_fill_for_copy_types(0u8);
    let res = os_fill(vstd::array::ref_mut_array_unsizing_coercion(&mut buf));
    if res {
        Ok(buf)
    } else {
        Err(Error::Rng)
    }
}

/// `len` bytes from the operating system's random source.
pub fn random_vec(len: usize) -> (r: Result<Vec<u8>>)
    ensures
        r matches Ok(v) ==> v@.len() == len,
        r matches Err(e) ==> e == Error::Rng,
{
    let mut buf = vec![0u8; len];
    let res = os_fill(buf.as_mut_slice());
    if res {
        Ok(buf)
    } else {
        Err(Error::Rng)
    }
}

pub fn random_salt() -> (r: Result<[u8; SALT_LEN]>)
    ensures
        r matches Err(e) ==> e == Error::Rng,
{
    random_array()
}

pub fn random_nonce() -> (r: Result<[u8; NONCE_LEN]>)
    ensures
        r matches Err(e) ==> e == Error::Rng,
{
    random_array()
}

/// The operating system's random source, read a byte at a time, with the
/// bytes drawn from it so far.
pub struct ByteSource {
    drawn: Ghost<Seq<u8>>,
}

impl ByteSource {
    /// The bytes drawn from this source so far, in order.
    pub closed spec fn drawn(&self) -> Seq<u8> {
        self.drawn@
    }

    /// A source from which nothing has been drawn yet.
    pub fn new() -> (r: ByteSource)
        ensures
            r.drawn() == Seq::<u8>::empty(),
    {
        ByteSource { drawn: Ghost(Seq::empty()) }
    }

    /// The next random byte; it is recorded as drawn.
    pub fn next_byte(&mut self) -> (r: Result<u8>)
        ensures
            r matches Ok(b) ==> final(self).drawn() == old(self).drawn().push(b),
            r is Err ==> r == Err::<u8, Error>(Error::Rng) && final(self).drawn() == old(self).drawn(),
    {
        let byte: [u8; 1] = random_array()?;
        proof {
            self.drawn = Ghost(self.drawn@.push(byte[0]));
        }
        Ok(byte[0])
    }
}

} // verus!
