use passman::crypto::kdf::{
    derive_key, KdfParams, DEFAULT_M_COST, DEFAULT_P_COST, DEFAULT_T_COST, MAX_M_COST, MAX_P_COST,
    MAX_T_COST, MIN_M_COST, MIN_P_COST, MIN_T_COST,
};
use passman::crypto::random::SALT_LEN;
use passman::Error;

#[test]
fn default_params_validate() {
    KdfParams::default().validate().unwrap();
}

#[test]
fn rejects_below_floor() {
    assert_eq!(
        KdfParams::new(MIN_M_COST - 1, DEFAULT_T_COST, DEFAULT_P_COST).validate(),
        Err(Error::InvalidKdfParameters)
    );
    assert_eq!(
        KdfParams::new(DEFAULT_M_COST, MIN_T_COST - 1, DEFAULT_P_COST).validate(),
        Err(Error::InvalidKdfParameters)
    );
}

#[test]
fn rejects_above_ceiling() {
    assert_eq!(
        KdfParams::new(MAX_M_COST + 1, DEFAULT_T_COST, DEFAULT_P_COST).validate(),
        Err(Error::InvalidKdfParameters)
    );
}

#[test]
fn rejects_degenerate_memory_parallelism() {
    assert_eq!(
        KdfParams::new(1, DEFAULT_T_COST, DEFAULT_P_COST).validate(),
        Err(Error::InvalidKdfParameters)
    );
}

#[test]
fn derive_key_deterministic() {
    let params = KdfParams::default();
    let salt = [0x42u8; SALT_LEN];
    let k1 = derive_key(b"correct horse battery staple", &salt, &params).unwrap();
    let k2 = derive_key(b"correct horse battery staple", &salt, &params).unwrap();
    assert_eq!(k1, k2);
}

#[test]
fn derive_key_changes_with_password() {
    let params = KdfParams::default();
    let salt = [0x42u8; SALT_LEN];
    let k1 = derive_key(b"password one", &salt, &params).unwrap();
    let k2 = derive_key(b"password two", &salt, &params).unwrap();
    assert_ne!(k1, k2);
}

#[test]
fn derive_key_changes_with_salt() {
    let params = KdfParams::default();
    let s1 = [0x01u8; SALT_LEN];
    let s2 = [0x02u8; SALT_LEN];
    let k1 = derive_key(b"same password", &s1, &params).unwrap();
    let k2 = derive_key(b"same password", &s2, &params).unwrap();
    assert_ne!(k1, k2);
}

#[test]
fn derive_key_requires_adequate_salt() {
    let params = KdfParams::default();
    assert_eq!(derive_key(b"pw", &[], &params), Err(Error::InvalidKdfParameters));
    assert_eq!(derive_key(b"pw", &[0u8; 4], &params), Err(Error::InvalidKdfParameters));
}

#[test]
fn kdf_bounds_are_inclusive() {
    KdfParams::new(MIN_M_COST, MIN_T_COST, MIN_P_COST).validate().unwrap();
    KdfParams::new(MAX_M_COST, MAX_T_COST, MAX_P_COST).validate().unwrap();
    assert_eq!(
        KdfParams::new(DEFAULT_M_COST, DEFAULT_T_COST, MAX_P_COST + 1).validate(),
        Err(Error::InvalidKdfParameters)
    );
    assert_eq!(
        KdfParams::new(DEFAULT_M_COST, MAX_T_COST + 1, DEFAULT_P_COST).validate(),
        Err(Error::InvalidKdfParameters)
    );
}

#[test]
fn new_keeps_the_costs() {
    let p = KdfParams::new(1, 2, 3);
    assert_eq!((p.m_cost, p.t_cost, p.p_cost), (1, 2, 3));
    let d = KdfParams::default();
    assert_eq!((d.m_cost, d.t_cost, d.p_cost), (65_536, 3, 1));
}

#[test]
fn derive_key_rejects_invalid_params() {
    let weak = KdfParams::new(MIN_M_COST - 1, MIN_T_COST, MIN_P_COST);
    assert_eq!(derive_key(b"pw", &[0u8; 16], &weak), Err(Error::InvalidKdfParameters));
}

#[test]
fn argon2_params_follow_validation() {
    assert!(KdfParams::default().to_argon2_params().is_ok());
    assert!(matches!(
        KdfParams::new(1, 3, 1).to_argon2_params(),
        Err(Error::InvalidKdfParameters)
    ));
}

#[test]
fn derive_key_known_value_is_stable_length() {
    let k = derive_key(b"pw", &[0x42u8; 16], &KdfParams::new(MIN_M_COST, MIN_T_COST, MIN_P_COST)).unwrap();
    assert_eq!(k.expose().len(), 32);
    assert_ne!(k.expose(), &[0u8; 32]);
}
