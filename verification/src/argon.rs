//! Argon2id hashing and verification, behind trusted wrappers around the
//! outside `argon2` crate. Hashing draws a random salt, so its exact output
//! cannot be pinned down; verification, under the default secret-free hasher,
//! is a function of the hash string and the password alone, and both
//! contracts speak of it through the named results below.

use vstd::prelude::*;
use vstd::string::StringSliceAdditionalSpecFns;

verus! {

/// Whether the outside `password_hash` crate parses `s` as a PHC-format hash
/// string. Parsing succeeds or fails on the string alone.
pub uninterp spec fn phc_parses(s: Seq<char>) -> bool;

/// The verdict of Argon2 verification of `password` against the PHC hash
/// string `hash`, under the default secret-free hasher. The hash is
/// recomputed from the string's own algorithm, version, parameters and salt,
/// so the verdict depends on the hash string and the password bytes alone.
pub uninterp spec fn argon2_default_verifies(hash: Seq<char>, password: Seq<u8>) -> bool;

/// Relies on `Argon2::hash_password` (through `PasswordHasher`) with the
/// default hasher and a fresh 16-byte salt from `rand::random`, encoded by
/// `SaltString::encode_b64`: such a salt is always accepted, so hashing fails
/// only when the password exceeds the 32-bit length the algorithm takes; and
/// a returned PHC string parses back and verifies against the password,
/// whatever salt was drawn.
#[verifier::external_body]
fn hash_default(password: &[u8]) -> (r: Option<String>)
    ensures
        password@.len() <= 0xFFFF_FFFF ==> r is Some,
        r matches Some(h) ==> phc_parses(h@) && argon2_default_verifies(h@, password@),
{
    let hasher = argon2::Argon2::default();
    let salt_bytes: [u8; 16] = rand::random();
    let salt = match argon2::password_hash::SaltString::encode_b64(&salt_bytes) {
        Ok(s) => s,
        Err(_) => return None,
    };
    argon2::PasswordHasher::hash_password(&hasher, password, &salt).ok().map(|h| h.to_string())
}

/// Relies on `PasswordHash::new` and `Argon2::verify_password` (through the
/// blanket `PasswordVerifier` impl): parsing depends on the string alone, and
/// the verdict recomputes the hash from the parsed string's own algorithm,
/// version, parameters and salt with the default secret-free hasher, so it
/// depends on the hash string and the password bytes alone.
#[verifier::external_body]
fn parse_and_verify(password_hash: &str, password: &[u8]) -> (r: Option<bool>)
    ensures
        r is Some <==> phc_parses(password_hash@),
        r matches Some(b) ==> b == argon2_default_verifies(password_hash@, password@),
{
    let parsed = match argon2::PasswordHash::new(password_hash) {
        Ok(p) => p,
        Err(_) => return None,
    };
    let hasher = argon2::Argon2::default();
    Some(argon2::PasswordVerifier::verify_password(&hasher, password, &parsed).is_ok())
}

/// An Argon2id PHC hash string for `password`, under a fresh random salt and
/// the default parameters. Any password of the accepted length hashes
/// successfully, and whatever salt was drawn, the returned string parses as
/// PHC and verifies against the password.
pub fn hash(password: &str) -> (r: Option<String>)
    ensures
        password.spec_bytes().len() <= 0xFFFF_FFFF ==> r is Some,
        r matches Some(h) ==> phc_parses(h@) && argon2_default_verifies(
            h@,
            password.spec_bytes(),
        ),
{
    hash_default(password.as_bytes())
}

/// Whether `password` matches the PHC hash string `password_hash`: `None`
/// exactly when the hash string is malformed, otherwise the verdict of
/// Argon2 verification under the hash's own parameters.
pub fn verify(password_hash: &str, password: &str) -> (r: Option<bool>)
    ensures
        r is Some <==> phc_parses(password_hash@),
        r matches Some(b) ==> b == argon2_default_verifies(
            password_hash@,
            password.spec_bytes(),
        ),
{
    parse_and_verify(password_hash, password.as_bytes())
}

} // verus!
