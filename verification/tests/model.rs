use passman::crypto::kdf::KdfParams;
use passman::vault::format::VAULT_ID_LEN;
use passman::crypto::secret::GuardedKey;
use passman::vault::{Unlocked, VaultFile};
use passman::Error;

fn kdf() -> KdfParams {
    KdfParams::default()
}

#[test]
fn create_serialize_unlock_roundtrip() {
    let v = Unlocked::create(b"hunter2", &kdf(), b"secret-content".to_vec()).unwrap();
    assert_eq!(v.content(), b"secret-content");
    assert_eq!(v.vault_id().len(), VAULT_ID_LEN);

    let encoded = v.serialize().unwrap();
    let file = VaultFile::from_bytes(encoded).unwrap();
    assert_eq!(file.vault_id(), v.vault_id());
    assert_eq!(file.slot_count(), 1);
    assert!(file.has_passphrase_slot());

    let mut unlocked = file.unlock(b"hunter2").unwrap();
    assert_eq!(unlocked.content(), b"secret-content");

    unlocked.set_content(b"updated!".to_vec());
    assert_eq!(unlocked.content(), b"updated!");
}

#[test]
fn wrong_passphrase_fails_lockstep() {
    let v = Unlocked::create(b"right", &kdf(), b"data".to_vec()).unwrap();
    let encoded = v.serialize().unwrap();
    let file = VaultFile::from_bytes(encoded).unwrap();
    assert!(matches!(file.unlock(b"wrong"), Err(Error::Authentication)));
    assert!(matches!(file.unlock(b""), Err(Error::Authentication)));
}

#[test]
fn lock_consumes_and_drops() {
    let v = Unlocked::create(b"pw", &kdf(), b"data".to_vec()).unwrap();
    v.lock();
}

#[test]
fn reject_tampered_payload() {
    let v = Unlocked::create(b"pw", &kdf(), b"important secret data".to_vec()).unwrap();
    let mut encoded = v.serialize().unwrap();
    let n = encoded.len();
    encoded[n - 20] ^= 0x01;
    let file = VaultFile::from_bytes(encoded).unwrap();
    assert!(matches!(file.unlock(b"pw"), Err(Error::Authentication)));
}

#[test]
fn changed_passphrase_unlocks_and_old_does_not() {
    let mut v = Unlocked::create(b"first passphrase", &kdf(), b"notes".to_vec()).unwrap();
    v.change_passphrase(b"second passphrase").unwrap();
    let file = VaultFile::from_bytes(v.serialize().unwrap()).unwrap();
    assert!(matches!(file.unlock(b"first passphrase"), Err(Error::Authentication)));
    let u = file.unlock(b"second passphrase").unwrap();
    assert_eq!(u.content(), b"notes");
    assert_eq!(u.vault_id(), v.vault_id());
}

#[test]
fn reserialized_vault_still_unlocks() {
    let v = Unlocked::create(b"pw", &kdf(), b"one".to_vec()).unwrap();
    let file = VaultFile::from_bytes(v.serialize().unwrap()).unwrap();
    let mut u = file.unlock(b"pw").unwrap();
    u.set_content(b"two".to_vec());
    let again = VaultFile::from_bytes(u.serialize().unwrap()).unwrap();
    assert_eq!(again.unlock(b"pw").unwrap().content(), b"two");
}

#[test]
fn create_rejects_invalid_kdf_params() {
    let weak = KdfParams::new(1, 1, 1);
    assert!(matches!(Unlocked::create(b"pw", &weak, Vec::new()), Err(Error::InvalidKdfParameters)));
}

#[test]
fn from_bytes_rejects_garbage() {
    assert!(matches!(VaultFile::from_bytes(vec![0u8; 100]), Err(Error::InvalidFormat(_))));
    assert!(matches!(VaultFile::from_bytes(Vec::new()), Err(Error::InvalidFormat(_))));
}

#[test]
fn serializations_use_fresh_nonces() {
    let v = Unlocked::create(b"pw", &kdf(), b"same".to_vec()).unwrap();
    let a = v.serialize().unwrap();
    let b = v.serialize().unwrap();
    assert_eq!(a.len(), b.len());
    assert_ne!(a, b);
}

#[test]
fn create_from_uses_the_given_values() {
    let id = [7u8; 16];
    let dek = [9u8; 32];
    let salt = [3u8; 16];
    let nonce = [4u8; 24];
    let a = Unlocked::create_from(id, GuardedKey::from_array(dek), salt, nonce, b"pw", &kdf(), b"content".to_vec()).unwrap();
    let b = Unlocked::create_from(id, GuardedKey::from_array(dek), salt, nonce, b"pw", &kdf(), b"content".to_vec()).unwrap();
    assert_eq!(a.vault_id(), id);
    let fa = a.seal_with_nonce(&[5u8; 24]).unwrap();
    let fb = b.seal_with_nonce(&[5u8; 24]).unwrap();
    assert_eq!(fa, fb);
    let hl = passman::vault::format::FIXED_HEADER_LEN + passman::vault::format::SLOT_LEN;
    assert_eq!(&fa[hl + 8..hl + 32], &[5u8; 24]);
    assert_eq!(&fa[44..60], &salt);
    assert_eq!(&fa[60..84], &nonce);
    let file = VaultFile::from_bytes(fa).unwrap();
    assert_eq!(file.unlock(b"pw").unwrap().content(), b"content");
    assert!(matches!(
        Unlocked::create_from(id, GuardedKey::from_array(dek), salt, nonce, b"pw", &KdfParams::new(1, 1, 1), Vec::new()),
        Err(Error::InvalidKdfParameters)
    ));
}

#[test]
fn rewrap_with_replaces_the_slot() {
    let mut v = Unlocked::create_from([1; 16], GuardedKey::from_array([2; 32]), [3; 16], [4; 24], b"old pass", &kdf(), b"c".to_vec()).unwrap();
    v.rewrap_with(b"new pass", [5; 16], [6; 24]).unwrap();
    let bytes = v.seal_with_nonce(&[0; 24]).unwrap();
    assert_eq!(&bytes[44..60], &[5u8; 16]);
    assert_eq!(&bytes[60..84], &[6u8; 24]);
    let file = VaultFile::from_bytes(bytes).unwrap();
    assert!(matches!(file.unlock(b"old pass"), Err(Error::Authentication)));
    assert_eq!(file.unlock(b"new pass").unwrap().content(), b"c");
}
