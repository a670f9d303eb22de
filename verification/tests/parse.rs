use passman::crypto::kdf::KdfParams;
use passman::crypto::random::{random_nonce, random_salt, TAG_LEN};
use passman::vault::format::{
    encode_header, parse, Slot, SlotType, VaultHeader, MAX_PAYLOAD_LEN, MAX_SLOT_COUNT,
    WRAPPED_DEK_LEN,
};
use passman::vault::parse::{parse_vault, validate_vault, vault_id_of};
use passman::Error;

fn sample_slots() -> Vec<Slot> {
    vec![Slot {
        slot_type: SlotType::Passphrase,
        salt: random_salt().unwrap(),
        nonce: random_nonce().unwrap(),
        wrapped_dek: [0xCD; WRAPPED_DEK_LEN],
    }]
}

fn sample_header() -> VaultHeader {
    VaultHeader {
        vault_id: [0xAB; 16],
        kdf_params: KdfParams::default(),
        slots: sample_slots(),
    }
}

fn sample_file(payload_len: usize) -> Vec<u8> {
    let header = sample_header();
    let mut bytes = encode_header(&header);
    bytes.extend_from_slice(&(payload_len as u64).to_be_bytes());
    bytes.extend_from_slice(&random_nonce().unwrap());
    bytes.extend(vec![0u8; payload_len]);
    bytes
}

#[test]
fn parses_valid_file() {
    let len = 64 + TAG_LEN;
    let bytes = sample_file(len);
    let f = parse_vault(bytes).unwrap();
    assert_eq!(f.payload_total_len_minus_tag, 64);
    assert!(!f.slot_aad(0).is_empty());
    assert_eq!(f.payload_ciphertext().len() + f.payload_ciphertext_offset(), f.bytes().len());
}

#[test]
fn rejects_unsupported_version() {
    let mut bytes = sample_file(64);
    bytes[8] = 99;
    assert!(matches!(parse_vault(bytes), Err(Error::UnsupportedVersion(99, _))));
}

#[test]
fn rejects_bad_slot_count() {
    let header = sample_header();
    let mut bytes = encode_header(&header);
    bytes[40] = 0;
    bytes[41] = 0;
    assert!(matches!(parse(&bytes), Err(Error::InvalidFormat(_))));
}

#[test]
fn rejects_excessive_slot_count() {
    let header = sample_header();
    let mut bytes = encode_header(&header);
    bytes[40] = 0;
    bytes[41] = MAX_SLOT_COUNT as u8 + 1;
    assert!(matches!(parse(&bytes), Err(Error::InvalidFormat(_))));
}

#[test]
fn parse_rejects_trailing_data() {
    let mut bytes = sample_file(64);
    bytes.push(0x00);
    assert!(parse_vault(bytes).is_err());
}

#[test]
fn rejects_oversized_payload_decl() {
    let header = sample_header();
    let mut bytes = encode_header(&header);
    bytes.extend_from_slice(&(MAX_PAYLOAD_LEN + 1).to_be_bytes());
    bytes.extend_from_slice(&random_nonce().unwrap());
    assert!(parse(&bytes).is_err());
}

#[test]
fn aad_slices_cover_the_header() {
    let bytes = sample_file(64);
    let header = sample_header();
    let hl = header.header_len();
    let f = parse_vault(bytes.clone()).unwrap();
    assert_eq!(f.payload_aad(), &bytes[..hl]);
    assert_eq!(f.slot_aad(0), &bytes[..header.slot_wrapped_dek_offset(0)]);
    assert_eq!(f.payload_ciphertext_offset(), hl + 8 + 24);
    assert_eq!(f.payload_ciphertext(), &bytes[hl + 32..]);
}

#[test]
fn validate_and_vault_id() {
    let bytes = sample_file(64);
    assert_eq!(validate_vault(&bytes), Ok(()));
    assert_eq!(vault_id_of(&bytes), Ok([0xAB; 16]));
    let mut bad = bytes.clone();
    bad[0] = 0;
    assert!(matches!(vault_id_of(&bad), Err(Error::InvalidFormat("bad magic"))));
}

#[test]
fn rejects_payload_smaller_than_tag() {
    let bytes = sample_file(8);
    assert!(matches!(parse_vault(bytes), Err(Error::InvalidFormat(_))));
}
