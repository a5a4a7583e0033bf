use chisel::crypto::{
    dek_of, if_filled, random_array, random_dek, Argon2Params, CryptoError, KdfId, DEK_LEN, ENC_PAGE_SIZE, NONCE_LEN,
    SALT_LEN, TAG_LEN,
};

#[test]
fn constants_match_spec() {
    assert_eq!(ENC_PAGE_SIZE, 8232);
    assert_eq!(NONCE_LEN, 24);
    assert_eq!(TAG_LEN, 16);
    assert_eq!(DEK_LEN, 32);
    assert_eq!(SALT_LEN, 16);
    assert_eq!(ENC_PAGE_SIZE, 8192 + TAG_LEN + NONCE_LEN);
}

#[test]
fn argon2_params_default_is_owasp() {
    let p = Argon2Params::default();
    assert_eq!(p.m_cost, 19456);
    assert_eq!(p.t_cost, 2);
    assert_eq!(p.p_cost, 1);
}

#[test]
fn kdf_id_discriminants_are_wire_stable() {
    assert_eq!(KdfId::Hkdf.code(), 1);
    assert_eq!(KdfId::Argon2id.code(), 2);
    assert_ne!(KdfId::Hkdf, KdfId::Argon2id);
}

#[test]
fn random_array_is_os_filled_and_distinct() {
    let a: [u8; 32] = random_array().unwrap();
    let b: [u8; 32] = random_array().unwrap();
    assert_ne!(a, b);
    assert_ne!(a, [0u8; 32]);
}

#[test]
fn random_dek_differs_each_call() {
    let d1 = random_dek().unwrap();
    let d2 = random_dek().unwrap();
    assert_ne!(d1.as_bytes(), d2.as_bytes());
}

#[test]
fn crypto_error_is_comparable() {
    assert_eq!(CryptoError::Auth, CryptoError::Auth);
    assert_ne!(CryptoError::Auth, CryptoError::Kdf);
}

#[test]
fn no_bytes_are_always_random() {
    assert_eq!(random_array::<0>(), Some([]));
}

#[test]
fn bytes_that_were_not_filled_are_dropped() {
    assert_eq!(if_filled([1u8, 2, 3], Ok(())), Some([1, 2, 3]));
    assert_eq!(if_filled([1u8, 2, 3], Err(getrandom::Error::UNSUPPORTED)), None);
}

#[test]
fn a_key_has_the_bytes_it_was_given() {
    let bytes: [u8; 32] = [7; 32];
    assert_eq!(dek_of(Some(bytes)).unwrap().as_bytes(), &bytes);
    assert!(dek_of(None).is_none());
}
