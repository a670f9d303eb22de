use passman::crypto::keys::generate_dek;
use passman::crypto::random::{random_vec, random_array};

#[test]
fn dek_is_32_random_bytes() {
    let d1 = generate_dek().unwrap();
    let d2 = generate_dek().unwrap();
    assert_eq!(d1.expose().len(), 32);
    assert_ne!(d1, d2);
}

#[test]
fn random_vec_has_requested_length() {
    assert_eq!(random_vec(0).unwrap().len(), 0);
    assert_eq!(random_vec(37).unwrap().len(), 37);
    let a: [u8; 16] = random_array().unwrap();
    let b: [u8; 16] = random_array().unwrap();
    assert_ne!(a, b);
}
