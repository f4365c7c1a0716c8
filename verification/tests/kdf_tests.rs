use secret_store::kdf::{key_material, DerivationError};
use secret_store::{derive_key, generate_salt, save, Document, PersistError};

#[test]
fn derivation_is_deterministic() {
    let salt = vec![1u8; 16];
    let k1 = derive_key("password", &salt).expect("derive");
    let k2 = derive_key("password", &salt).expect("derive");
    assert_eq!(k1, k2);
    assert_eq!(k1.len(), 32);
}

#[test]
fn derivation_depends_on_password_and_salt() {
    let salt = vec![1u8; 16];
    let other_salt = vec![2u8; 16];
    let k1 = derive_key("password", &salt).expect("derive");
    let k2 = derive_key("passwore", &salt).expect("derive");
    let k3 = derive_key("password", &other_salt).expect("derive");
    assert_ne!(k1, k2);
    assert_ne!(k1, k3);
}

#[test]
fn primitive_rejects_short_salt() {
    let salt = vec![1u8; 2];
    assert_eq!(derive_key("password", &salt), Err(DerivationError::Primitive));
}

#[test]
fn save_reports_derivation_failure() {
    let salt = vec![1u8; 2];
    let doc = Document::new();
    assert_eq!(save(&doc, "pw", &salt), Err(PersistError::Derivation));
}

#[test]
fn key_material_slices_first_32_bytes() {
    let hash: Vec<u8> = (0u8..40).collect();
    let key = key_material(hash).expect("long enough");
    let want: Vec<u8> = (0u8..32).collect();
    assert_eq!(key, want);
}

#[test]
fn key_material_rejects_short_output() {
    let hash: Vec<u8> = (0u8..31).collect();
    assert_eq!(key_material(hash), Err(DerivationError::ShortOutput));
}

#[test]
fn generated_salt_is_16_bytes_and_random() {
    let a = generate_salt().expect("salt");
    let b = generate_salt().expect("salt");
    assert_eq!(a.len(), 16);
    assert_eq!(b.len(), 16);
    assert_ne!(a, b);
}
