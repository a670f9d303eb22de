use passman::vault::storage::{check_metadata, next_attempt, tmp_name, MAX_VAULT_FILE_LEN};
use passman::Error;

#[test]
fn metadata_checks() {
    assert_eq!(check_metadata(true, 100, 0o100600, 1000, 1000), Ok(()));
    assert_eq!(
        check_metadata(false, 100, 0o600, 1000, 1000),
        Err(Error::InvalidFormat("vault path is not a regular file"))
    );
    assert_eq!(
        check_metadata(true, MAX_VAULT_FILE_LEN + 1, 0o600, 1000, 1000),
        Err(Error::InvalidFormat("vault file too large"))
    );
    assert_eq!(check_metadata(true, MAX_VAULT_FILE_LEN, 0o600, 1000, 1000), Ok(()));
    assert_eq!(check_metadata(true, 100, 0o644, 1000, 1000), Err(Error::InsecurePermissions));
    assert_eq!(check_metadata(true, 100, 0o601, 1000, 1000), Err(Error::InsecurePermissions));
    assert_eq!(check_metadata(true, 100, 0o600, 1000, 0), Err(Error::InsecurePermissions));
}

#[test]
fn vault_file_limit() {
    assert_eq!(MAX_VAULT_FILE_LEN, 256 * 1024 * 1024 + 128 * 1024);
}

#[test]
fn temporary_names() {
    let a = tmp_name(Some("vault.enc"));
    assert!(a.starts_with(".vault.enc.tmp."));
    assert_eq!(a.len(), ".vault.enc.tmp.".len() + 16);
    assert!(a[15..].bytes().all(|c| c.is_ascii_hexdigit() && !c.is_ascii_uppercase()));
    let b = tmp_name(None);
    assert!(b.starts_with(".vault.tmp."));
    assert_ne!(tmp_name(Some("x")), tmp_name(Some("x")));
}

#[test]
fn eight_attempts_at_most() {
    assert_eq!(next_attempt(0), Some(1));
    assert_eq!(next_attempt(6), Some(7));
    assert_eq!(next_attempt(7), None);
    assert_eq!(next_attempt(u32::MAX), None);
}
