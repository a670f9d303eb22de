use vstd::prelude::*;
use vstd::string::StringExecFns;

use crate::crypto::random::random_array;
use crate::errors::{Error, Result};
use crate::text::{hex_encode, hex_text};

use crate::vault::format::MAX_PAYLOAD_LEN;

verus! {

/// The largest vault file that is read.
pub const MAX_VAULT_FILE_LEN: u64 = MAX_PAYLOAD_LEN + 128 * 1024;

/// How many fresh temporary names are tried before a write gives up.
pub const MAX_CREATE_ATTEMPTS: u32 = 8;

/// The checks on an opened vault file before it is read: a regular file,
/// not too large, readable and writable by its owner alone, and owned by
/// the effective user.
pub fn check_metadata(is_file: bool, len: u64, mode: u32, uid: u32, euid: u32) -> (r: Result<()>)
    ensures
        !is_file ==> r == Err::<(), Error>(Error::InvalidFormat("vault path is not a regular file")),
        is_file && len > MAX_VAULT_FILE_LEN ==> r == Err::<(), Error>(Error::InvalidFormat("vault file too large")),
        is_file && len <= MAX_VAULT_FILE_LEN && (mode & 0o077 != 0 || uid != euid) ==> r == Err::<(), Error>(
            Error::InsecurePermissions,
        ),
        is_file && len <= MAX_VAULT_FILE_LEN && mode & 0o077 == 0 && uid == euid ==> r == Ok::<(), Error>(()),
{
    if !is_file {
        return Err(Error::InvalidFormat("vault path is not a regular file"));
    }
    if len > MAX_VAULT_FILE_LEN {
        return Err(Error::InvalidFormat("vault file too large"));
    }
    if mode & 0o077 != 0 {
        return Err(Error::InsecurePermissions);
    }
    if uid != euid {
        return Err(Error::InsecurePermissions);
    }
    Ok(())
}

/// The name of the temporary file that a vault file is first written to:
/// a dot, the file's name, `.tmp.` and the hexadecimal text of `tag`.
pub open spec fn tmp_file_name(name: Seq<char>, tag: Seq<u8>) -> Seq<char> {
    "."@ + name + ".tmp."@ + hex_text(tag)
}

/// A fresh temporary name for the file `name` (`vault` when the path has
/// none), tagged with eight random bytes, or eight `0xAA` bytes when the
/// random source fails.
pub fn tmp_name(name: Option<&str>) -> (r: String)
    ensures
        exists|tag: Seq<u8>|
            tag.len() == 8 && r@ == tmp_file_name(
                match name {
                    Some(n) => n@,
                    None => "vault"@,
                },
                tag,
            ),
{
    let tag: [u8; 8] = match random_array() {
        Ok(t) => t,
        Err(_) => [0xAAu8; 8],
    };
    let mut s = String::from_str(".");
    match name {
        Some(n) => s.append(n),
        None => s.append("vault"),
    }
    s.append(".tmp.");
    let hex = hex_encode(&tag);
    s.append(hex.as_str());
    assert(s@ =~= tmp_file_name(
        match name {
            Some(n) => n@,
            None => "vault"@,
        },
        tag@,
    ));
    s
}

/// The count of attempts after one more name was found taken, or `None`
/// when that makes `MAX_CREATE_ATTEMPTS` and the write gives up.
pub fn next_attempt(attempts: u32) -> (r: Option<u32>)
    ensures
        attempts + 1 < MAX_CREATE_ATTEMPTS ==> r == Some((attempts + 1) as u32),
        attempts + 1 >= MAX_CREATE_ATTEMPTS ==> r is None,
{
    if attempts >= MAX_CREATE_ATTEMPTS - 1 {
        None
    } else {
        Some(attempts + 1)
    }
}

} // verus!
