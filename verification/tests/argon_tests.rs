use passkit::argon::{hash, verify};

#[test]
fn hash_then_verify_matches() {
    let h = hash("hunter2").expect("hashing succeeds");
    assert_eq!(verify(&h, "hunter2"), Some(true));
}

#[test]
fn verify_rejects_wrong_password() {
    let h = hash("hunter2").expect("hashing succeeds");
    assert_eq!(verify(&h, "hunter3"), Some(false));
}

#[test]
fn verify_rejects_malformed_hash() {
    assert_eq!(verify("not a phc string", "hunter2"), None);
}

#[test]
fn hash_accepts_empty_password() {
    let h = hash("").expect("hashing succeeds");
    assert_eq!(verify(&h, ""), Some(true));
}

#[test]
fn hash_is_phc_encoded() {
    let h = hash("pw").expect("hashing succeeds");
    assert!(h.starts_with("$argon2id$"));
}
