use passman::crypto::kdf::KdfParams;
use passman::crypto::random::{random_nonce, random_salt, random_vec};
use passman::vault::format::{
    encode_header, parse, read_u32_be, read_u64_be, slot_wrapped_dek_offset, write_u32_be,
    write_u64_be, Slot, SlotType, VaultHeader, AEAD_ID_OFFSET, FIXED_HEADER_LEN, KDF_ID_OFFSET,
    M_COST_OFFSET, SLOT_HEADER_LEN, SLOT_LEN, VAULT_ID_LEN, WRAPPED_DEK_LEN,
};
use passman::Error;

fn sample_header() -> VaultHeader {
    VaultHeader {
        vault_id: [0xAB; VAULT_ID_LEN],
        kdf_params: KdfParams::default(),
        slots: vec![Slot {
            slot_type: SlotType::Passphrase,
            salt: random_salt().unwrap(),
            nonce: random_nonce().unwrap(),
            wrapped_dek: [0xCD; WRAPPED_DEK_LEN],
        }],
    }
}

fn full_file(header: &VaultHeader, payload: &[u8]) -> Vec<u8> {
    let mut bytes = encode_header(header);
    bytes.extend_from_slice(&(payload.len() as u64).to_be_bytes());
    bytes.extend_from_slice(&random_nonce().unwrap());
    bytes.extend_from_slice(payload);
    bytes
}

#[test]
fn header_roundtrip() {
    let header = sample_header();
    let bytes = full_file(&header, &random_vec(16).unwrap());
    let parsed = parse(&bytes).unwrap();
    assert_eq!(parsed.header.vault_id, header.vault_id);
    assert_eq!(parsed.header.kdf_params, header.kdf_params);
    assert_eq!(parsed.header.slots.len(), 1);
    assert_eq!(parsed.header.slots[0].slot_type, SlotType::Passphrase);
    assert_eq!(parsed.header.slots[0].salt, header.slots[0].salt);
    assert_eq!(parsed.header.slots[0].nonce, header.slots[0].nonce);
    assert_eq!(parsed.header.slots[0].wrapped_dek, header.slots[0].wrapped_dek);
}

#[test]
fn rejects_bad_magic() {
    let header = sample_header();
    let mut bytes = full_file(&header, &random_vec(16).unwrap());
    bytes[0] ^= 0xFF;
    assert!(matches!(parse(&bytes), Err(Error::InvalidFormat("bad magic"))));
}

#[test]
fn rejects_unsupported_major_version() {
    let header = sample_header();
    let mut bytes = full_file(&header, &random_vec(16).unwrap());
    bytes[8] = 99;
    assert!(matches!(parse(&bytes), Err(Error::UnsupportedVersion(99, _))));
}

#[test]
fn rejects_unsupported_kdf() {
    let header = sample_header();
    let mut bytes = full_file(&header, &random_vec(16).unwrap());
    bytes[KDF_ID_OFFSET] = 42;
    assert!(matches!(parse(&bytes), Err(Error::UnsupportedKdf(42))));
}

#[test]
fn rejects_unsupported_cipher() {
    let header = sample_header();
    let mut bytes = full_file(&header, &random_vec(16).unwrap());
    bytes[AEAD_ID_OFFSET] = 42;
    assert!(matches!(parse(&bytes), Err(Error::UnsupportedCipher(42))));
}

#[test]
fn rejects_weak_kdf_params_in_file() {
    let header = sample_header();
    let mut bytes = full_file(&header, &random_vec(16).unwrap());
    let weak = 4u32.to_be_bytes();
    bytes[M_COST_OFFSET..M_COST_OFFSET + 4].copy_from_slice(&weak);
    assert!(matches!(parse(&bytes), Err(Error::InvalidKdfParameters)));
}

#[test]
fn rejects_truncated_payload() {
    let header = sample_header();
    let mut bytes = encode_header(&header);
    let payload = random_vec(64).unwrap();
    let nonce = random_nonce().unwrap();
    bytes.extend_from_slice(&(payload.len() as u64).to_be_bytes());
    bytes.extend_from_slice(&nonce);
    bytes.extend_from_slice(&payload);
    bytes.truncate(bytes.len() - 1);
    assert!(matches!(parse(&bytes), Err(Error::InvalidFormat(_))));
}

#[test]
fn format_rejects_trailing_data() {
    let header = sample_header();
    let mut bytes = encode_header(&header);
    let payload = random_vec(64).unwrap();
    let nonce = random_nonce().unwrap();
    bytes.extend_from_slice(&(payload.len() as u64).to_be_bytes());
    bytes.extend_from_slice(&nonce);
    bytes.extend_from_slice(&payload);
    bytes.push(0x00);
    assert!(matches!(parse(&bytes), Err(Error::InvalidFormat("trailing data after payload"))));
}

#[test]
fn slot_offset_matches_encoding() {
    let header = sample_header();
    let bytes = encode_header(&header);
    let expected = FIXED_HEADER_LEN + SLOT_HEADER_LEN;
    assert_eq!(header.slot_wrapped_dek_offset(0), expected);
    assert_eq!(&bytes[expected..expected + WRAPPED_DEK_LEN], &header.slots[0].wrapped_dek);
}

#[test]
fn header_length_counts_slots() {
    let mut header = sample_header();
    assert_eq!(header.header_len(), FIXED_HEADER_LEN + SLOT_LEN);
    assert_eq!(encode_header(&header).len(), header.header_len());
    let extra = header.slots[0];
    header.slots.push(extra);
    assert_eq!(header.header_len(), FIXED_HEADER_LEN + 2 * SLOT_LEN);
    assert_eq!(encode_header(&header).len(), FIXED_HEADER_LEN + 2 * SLOT_LEN);
    assert_eq!(slot_wrapped_dek_offset(1), FIXED_HEADER_LEN + SLOT_LEN + SLOT_HEADER_LEN);
}

#[test]
fn encoded_header_layout() {
    let header = sample_header();
    let bytes = encode_header(&header);
    assert_eq!(&bytes[0..8], b"PAMVLT01");
    assert_eq!(bytes[8], 1);
    assert_eq!(bytes[9], 0);
    assert_eq!(&bytes[10..26], &[0xAB; 16]);
    assert_eq!(bytes[KDF_ID_OFFSET], 1);
    assert_eq!(bytes[AEAD_ID_OFFSET], 1);
    assert_eq!(&bytes[M_COST_OFFSET..M_COST_OFFSET + 4], &65_536u32.to_be_bytes());
    assert_eq!(&bytes[40..42], &[0, 1]);
    assert_eq!(bytes[42], 0x01);
}

#[test]
fn big_endian_helpers() {
    let mut buf = Vec::new();
    write_u32_be(&mut buf, 0x0102_0304);
    write_u64_be(&mut buf, 0x1112_1314_1516_1718);
    assert_eq!(buf, vec![1, 2, 3, 4, 0x11, 0x12, 0x13, 0x14, 0x15, 0x16, 0x17, 0x18]);
    assert_eq!(read_u32_be(&buf, 0), Ok(0x0102_0304));
    assert_eq!(read_u64_be(&buf, 4), Ok(0x1112_1314_1516_1718));
    assert!(matches!(read_u32_be(&buf, 9), Err(Error::InvalidFormat(_))));
    assert!(matches!(read_u64_be(&buf, 5), Err(Error::InvalidFormat(_))));
}

#[test]
fn slot_type_codes() {
    assert_eq!(SlotType::from_u8(1), Ok(SlotType::Passphrase));
    assert_eq!(SlotType::from_u8(2), Ok(SlotType::Recovery));
    assert_eq!(SlotType::from_u8(3), Ok(SlotType::Hardware));
    assert!(SlotType::from_u8(0).is_err());
    assert!(SlotType::from_u8(4).is_err());
    assert_eq!(SlotType::Recovery.to_u8(), 2);
}

#[test]
fn parse_rejects_short_input() {
    assert!(matches!(parse(&[0u8; 10]), Err(Error::InvalidFormat(_))));
}
